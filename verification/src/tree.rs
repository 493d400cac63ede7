//! A folder-view projection of the vault: a workspace of directories and
//! documents.
use vstd::prelude::*;
use std::collections::BTreeMap;

verus! {

/// The root of a folder view.
#[derive(Debug, PartialEq, Eq)]
pub struct WorkspaceNode {
    pub name: String,
    pub root_path: String,
    pub directories: BTreeMap<String, DirectoryNode>,
    pub root_documents: BTreeMap<String, DocumentNode>,
}

/// A directory of the folder view, with the note that stands for it, if any.
#[derive(Debug, PartialEq, Eq)]
pub struct DirectoryNode {
    pub name: String,
    pub relative_path: String,
    pub container_document: Option<DocumentNode>,
    pub subdirectories: BTreeMap<String, DirectoryNode>,
    pub documents: BTreeMap<String, DocumentNode>,
}

/// A document of the folder view.
#[derive(Debug, Clone, PartialEq, Eq)]
pub struct DocumentNode {
    pub title: String,
    pub relative_path: String,
}

} // verus!
