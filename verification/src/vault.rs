//! Which files of a vault are notes, and how a note file becomes a `Note`.
//! The walking and reading are done by the caller; the decisions are here.
use vstd::prelude::*;
use crate::model::{Frontmatter, Note, block_views};
use crate::parser::{parse_body, links_in, transclusions_in, blocks_in};
use crate::text::{chars_of, string_from, rfind_char, views};

verus! {

/// File-system conventions of the vault.
pub struct SystemIO;

/// What a directory walk does with an entry.
#[derive(Debug, Clone, Copy, PartialEq, Eq, Structural)]
pub enum EntryAction {
    /// Leave it out, and if it is a directory, do not enter it.
    Skip,
    /// Walk into it.
    Descend,
    /// Take it: it is a note file.
    Collect,
}

/// The prefix of a Windows verbatim path.
pub open spec fn verbatim_prefix() -> Seq<char> {
    seq!['\\', '\\', '?', '\\']
}

/// `p` without the verbatim prefix, if it has one.
pub open spec fn strip_verbatim_spec(p: Seq<char>) -> Seq<char> {
    if p.len() >= 4 && p.take(4) == verbatim_prefix() {
        p.skip(4)
    } else {
        p
    }
}

/// Whether a relative path has a component that starts with `.`: a `.` at
/// its start or right after a `/`.
pub open spec fn hidden_spec(rel: Seq<char>) -> bool {
    exists|i: int| 0 <= i < rel.len() && #[trigger] rel[i] == '.' && (i == 0 || rel[i - 1] == '/')
}

/// Where the file name of a path starts: after its last `/`.
pub open spec fn name_start(p: Seq<char>) -> int {
    match crate::text::rfind_before(p, '/', p.len() as int) {
        Some(k) => k + 1,
        None => 0,
    }
}

/// Where the extension dot of a path is: the last `.` of its file name,
/// unless that is the file name's first character.
pub open spec fn ext_dot(p: Seq<char>) -> Option<int> {
    let s = name_start(p);
    match crate::text::rfind_before(p, '.', p.len() as int) {
        Some(k) => if k > s {
            Some(k)
        } else {
            None
        },
        None => None,
    }
}

/// Whether the file name of a path has the extension `md`.
pub open spec fn is_markdown_spec(p: Seq<char>) -> bool {
    match ext_dot(p) {
        Some(k) => p.skip(k + 1) == seq!['m', 'd'],
        None => false,
    }
}

/// `Path::file_stem` of a path that names a file (no trailing `/`, no `.` or
/// `..` component, as the paths of a walk are): the file name without its
/// extension.
pub open spec fn file_stem_spec(p: Seq<char>) -> Seq<char> {
    match ext_dot(p) {
        Some(k) => p.subrange(name_start(p), k),
        None => p.skip(name_start(p)),
    }
}

/// What a walk does with an entry at `rel` (relative to the vault root):
/// skip hidden ones, enter directories, take Markdown files.
pub open spec fn entry_action_spec(rel: Seq<char>, is_dir: bool) -> EntryAction {
    if hidden_spec(rel) {
        EntryAction::Skip
    } else if is_dir {
        EntryAction::Descend
    } else if is_markdown_spec(rel) {
        EntryAction::Collect
    } else {
        EntryAction::Skip
    }
}

fn name_start_of(v: &Vec<char>) -> (r: usize)
    ensures
        r == name_start(v@),
        r <= v@.len(),
{
    proof {
        crate::text::lemma_rfind_before(v@, '/', v@.len() as int);
    }
    match rfind_char(v, '/', v.len()) {
        Some(k) => k + 1,
        None => 0,
    }
}

fn ext_dot_of(v: &Vec<char>) -> (r: Option<usize>)
    ensures
        r matches Some(k) ==> ext_dot(v@) == Some(k as int) && k < v@.len(),
        r is None ==> ext_dot(v@) is None,
{
    let s = name_start_of(v);
    proof {
        crate::text::lemma_rfind_before(v@, '.', v@.len() as int);
    }
    match rfind_char(v, '.', v.len()) {
        Some(k) => if k > s {
            Some(k)
        } else {
            None
        },
        None => None,
    }
}

impl SystemIO {
    /// Removes the `\\?\` prefix that canonical paths carry on Windows.
    pub fn strip_verbatim_prefix(path: &str) -> (r: String)
        ensures
            r@ == strip_verbatim_spec(path@),
    {
        let v = chars_of(path);
        if v.len() >= 4 && v[0] == '\\' && v[1] == '\\' && v[2] == '?' && v[3] == '\\' {
            assert(v@.take(4) =~= verbatim_prefix());
            string_from(&v, 4, v.len())
        } else {
            assert(!(v@.len() >= 4 && v@.take(4) == verbatim_prefix())) by {
                if v@.len() >= 4 && v@.take(4) == verbatim_prefix() {
                    assert(v@[0] == v@.take(4)[0]);
                    assert(v@[1] == v@.take(4)[1]);
                    assert(v@[2] == v@.take(4)[2]);
                    assert(v@[3] == v@.take(4)[3]);
                }
            }
            string_from(&v, 0, v.len())
        }
    }

    /// Whether a relative path has a hidden component.
    pub fn is_hidden(rel: &str) -> (r: bool)
        ensures
            r == hidden_spec(rel@),
    {
        let v = chars_of(rel);
        let mut i: usize = 0;
        while i < v.len()
            invariant
                i <= v@.len(),
                v@ == rel@,
                forall|j: int| 0 <= j < i ==> !(#[trigger] v@[j] == '.' && (j == 0 || v@[j - 1] == '/')),
            decreases v.len() - i,
        {
            if v[i] == '.' && (i == 0 || v[i - 1] == '/') {
                return true;
            }
            i += 1;
        }
        false
    }

    /// Whether a path names a Markdown file: its extension is `md`.
    pub fn is_markdown(rel: &str) -> (r: bool)
        ensures
            r == is_markdown_spec(rel@),
    {
        let v = chars_of(rel);
        match ext_dot_of(&v) {
            Some(k) => {
                let n = v.len();
                let r = n - k == 3 && v[k + 1] == 'm' && v[k + 2] == 'd';
                assert(r == (v@.skip(k + 1) == seq!['m', 'd'])) by {
                    if v@.skip(k + 1) == seq!['m', 'd'] {
                        assert(v@.skip(k + 1)[0] == v@[k + 1]);
                        assert(v@.skip(k + 1)[1] == v@[k + 2]);
                    }
                    if r {
                        assert(v@.skip(k + 1) =~= seq!['m', 'd']);
                    }
                }
                r
            },
            None => false,
        }
    }

    /// What a directory walk does with the entry at `rel`.
    pub fn entry_action(rel: &str, is_dir: bool) -> (r: EntryAction)
        ensures
            r == entry_action_spec(rel@, is_dir),
    {
        if Self::is_hidden(rel) {
            EntryAction::Skip
        } else if is_dir {
            EntryAction::Descend
        } else if Self::is_markdown(rel) {
            EntryAction::Collect
        } else {
            EntryAction::Skip
        }
    }
}

/// Reads a vault into notes.
pub struct VaultScanner;

impl VaultScanner {
    /// The file name of a path without its extension.
    pub fn file_stem(rel: &str) -> (r: String)
        ensures
            r@ == file_stem_spec(rel@),
    {
        let v = chars_of(rel);
        let s = name_start_of(&v);
        match ext_dot_of(&v) {
            Some(k) => string_from(&v, s, k),
            None => {
                let r = string_from(&v, s, v.len());
                assert(v@.subrange(s as int, v@.len() as int) =~= v@.skip(s as int));
                r
            },
        }
    }

    /// The note stored at `rel`, given its parsed frontmatter and its body:
    /// the slug is the file stem, and the body's links, transclusions and
    /// blocks are parsed out of it.
    pub fn assemble_note(rel: &str, frontmatter: Frontmatter, body: &str) -> (r: Note)
        ensures
            r.slug@ == file_stem_spec(rel@),
            r.path@ == rel@,
            r.frontmatter == frontmatter,
            r.body@ == body@,
            views(r.links@) == links_in(body@),
            views(r.transclusions@) == transclusions_in(body@),
            block_views(r.blocks@) == blocks_in(body@),
    {
        let parsed = parse_body(body);
        let slug = Self::file_stem(rel);
        let pv = chars_of(rel);
        let path = string_from(&pv, 0, pv.len());
        let bv = chars_of(body);
        let text = string_from(&bv, 0, bv.len());
        assert(pv@.subrange(0, pv@.len() as int) =~= pv@);
        assert(bv@.subrange(0, bv@.len() as int) =~= bv@);
        Note {
            slug,
            path,
            frontmatter,
            body: text,
            links: parsed.links,
            transclusions: parsed.transclusions,
            blocks: parsed.blocks,
        }
    }
}

} // verus!
