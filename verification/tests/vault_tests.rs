use zttl::model::Frontmatter;
use zttl::vault::{EntryAction, SystemIO, VaultScanner};

#[test]
fn walk_skips_hidden_entries_enters_directories_and_takes_markdown() {
    assert_eq!(SystemIO::entry_action(".git", true), EntryAction::Skip);
    assert_eq!(SystemIO::entry_action("KP/.obsidian", true), EntryAction::Skip);
    assert_eq!(SystemIO::entry_action("KP/.draft.md", false), EntryAction::Skip);
    assert_eq!(SystemIO::entry_action("KP", true), EntryAction::Descend);
    assert_eq!(SystemIO::entry_action("KP/raft.md", false), EntryAction::Collect);
    assert_eq!(SystemIO::entry_action("KP/raft.txt", false), EntryAction::Skip);
    assert_eq!(SystemIO::entry_action("KP/md", false), EntryAction::Skip);
    assert_eq!(SystemIO::entry_action("notes.md", true), EntryAction::Descend);
}

#[test]
fn hidden_means_a_component_starts_with_a_dot() {
    assert!(SystemIO::is_hidden(".a"));
    assert!(SystemIO::is_hidden("a/.b/c"));
    assert!(!SystemIO::is_hidden("a.b/c.d"));
    assert!(!SystemIO::is_hidden(""));
}

#[test]
fn markdown_means_the_extension_is_md() {
    assert!(SystemIO::is_markdown("a.md"));
    assert!(SystemIO::is_markdown("dir.x/a.b.md"));
    assert!(!SystemIO::is_markdown("a.mdx"));
    assert!(!SystemIO::is_markdown("a.MD"));
    assert!(!SystemIO::is_markdown(".md"));
    assert!(!SystemIO::is_markdown("dir.md/readme"));
}

#[test]
fn file_stem_drops_the_directory_and_the_extension() {
    assert_eq!(VaultScanner::file_stem("KP/raft.md"), "raft");
    assert_eq!(VaultScanner::file_stem("a/b.tar.md"), "b.tar");
    assert_eq!(VaultScanner::file_stem("a/.hidden"), ".hidden");
    assert_eq!(VaultScanner::file_stem("plain"), "plain");
    assert_eq!(VaultScanner::file_stem("dir.x/readme"), "readme");
}

#[test]
fn verbatim_prefix_is_stripped() {
    assert_eq!(SystemIO::strip_verbatim_prefix("\\\\?\\C:\\vault"), "C:\\vault");
    assert_eq!(SystemIO::strip_verbatim_prefix("/home/u/vault"), "/home/u/vault");
    assert_eq!(SystemIO::strip_verbatim_prefix("\\\\?"), "\\\\?");
}

#[test]
fn a_note_file_becomes_a_note() {
    let fm = Frontmatter { title: Some("Raft".to_string()), ..Default::default() };
    let note = VaultScanner::assemble_note("KP/raft.md", fm, "- leader ^raft-elem-01\n- see [[Paxos]] and ((cs-root-01))\n");
    assert_eq!(note.slug, "raft");
    assert_eq!(note.path, "KP/raft.md");
    assert_eq!(note.title(), "Raft");
    assert_eq!(note.links, vec!["Paxos".to_string()]);
    assert_eq!(note.transclusions, vec!["cs-root-01".to_string()]);
    assert_eq!(note.blocks.len(), 2);
    assert_eq!(note.blocks[0].id.as_deref(), Some("raft-elem-01"));
    assert_eq!(note.blocks[0].text, "leader");
}

#[test]
fn file_stem_agrees_with_std_path() {
    for rel in ["KP/raft.md", "a/b.tar.md", "a/.hidden", "plain", "dir.x/readme", "x/y/z.md", "n..md", ".md", "a/b.", "a.b/c.d.e"] {
        let std_stem = std::path::Path::new(rel)
            .file_stem()
            .map(|s| s.to_string_lossy().into_owned())
            .unwrap_or_default();
        assert_eq!(VaultScanner::file_stem(rel), std_stem, "{rel}");
    }
}
