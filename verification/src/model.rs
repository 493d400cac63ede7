//! The note model: frontmatter, blocks and notes.
use vstd::prelude::*;

verus! {

/// Actionability status of a note (`active` unless stated).
#[derive(Debug, Clone, Copy, PartialEq, Eq, Structural)]
pub enum Status {
    Active,
    Archived,
}

impl Default for Status {
    fn default() -> (r: Status)
        ensures
            r == Status::Active,
    {
        Status::Active
    }
}

/// PARA kind of a note (`note` unless stated).
#[derive(Debug, Clone, Copy, PartialEq, Eq, Structural)]
pub enum NoteType {
    Note,
    Project,
    Area,
    Resource,
}

impl Default for NoteType {
    fn default() -> (r: NoteType)
        ensures
            r == NoteType::Note,
    {
        NoteType::Note
    }
}

/// The YAML frontmatter of a note.
#[derive(Debug, Clone)]
pub struct Frontmatter {
    pub id: Option<String>,
    pub title: Option<String>,
    pub status: Status,
    pub note_type: NoteType,
    pub parents: Option<Vec<String>>,
    pub created: Option<String>,
    pub updated: Option<String>,
    pub deadline: Option<String>,
    pub tags: Vec<String>,
    pub share_id: Option<String>,
    pub visibility: Option<String>,
}

impl Default for Frontmatter {
    fn default() -> (r: Frontmatter)
        ensures
            r.id is None,
            r.title is None,
            r.status == Status::Active,
            r.note_type == NoteType::Note,
            r.parents is None,
            r.created is None,
            r.updated is None,
            r.deadline is None,
            r.tags@.len() == 0,
            r.share_id is None,
            r.visibility is None,
    {
        Frontmatter {
            id: None,
            title: None,
            status: Status::Active,
            note_type: NoteType::Note,
            parents: None,
            created: None,
            updated: None,
            deadline: None,
            tags: Vec::new(),
            share_id: None,
            visibility: None,
        }
    }
}

/// An outliner bullet, with its `^block-id` when it has one.
#[derive(Debug, Clone)]
pub struct Block {
    pub id: Option<String>,
    pub text: String,
}

/// A block as values: its id and its text.
pub open spec fn block_view(b: Block) -> (Option<Seq<char>>, Seq<char>) {
    (opt_view(b.id), b.text@)
}

/// The view of an optional string.
pub open spec fn opt_view(o: Option<String>) -> Option<Seq<char>> {
    match o {
        Some(s) => Some(s@),
        None => None,
    }
}

pub open spec fn block_views(bs: Seq<Block>) -> Seq<(Option<Seq<char>>, Seq<char>)> {
    bs.map_values(|b: Block| block_view(b))
}

/// A note: where it lives, its frontmatter, its body and what the body refers to.
#[derive(Debug, Clone)]
pub struct Note {
    pub slug: String,
    pub path: String,
    pub frontmatter: Frontmatter,
    pub body: String,
    pub links: Vec<String>,
    pub transclusions: Vec<String>,
    pub blocks: Vec<Block>,
}

/// The displayed title: the frontmatter title, or the slug when there is none.
pub open spec fn title_of(n: Note) -> Seq<char> {
    match n.frontmatter.title {
        Some(t) => t@,
        None => n.slug@,
    }
}

impl Note {
    pub fn title(&self) -> (r: &str)
        ensures
            r@ == title_of(*self),
    {
        match &self.frontmatter.title {
            Some(t) => t.as_str(),
            None => self.slug.as_str(),
        }
    }
}

} // verus!
