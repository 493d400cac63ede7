pub mod text;
pub mod model;
pub mod parser;
pub mod store;
pub mod keys;
pub mod graph;
pub mod fuzzy;
pub mod font_profile;
pub mod ui;
pub mod tree;
pub mod app;
pub mod graph_laws;
pub mod vault;
pub mod app_laws;
