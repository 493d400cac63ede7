use zttl::parser::{normalize, parse_body, split_block_id, split_bullet, split_frontmatter, with_frontmatter_id};

#[test]
fn splits_frontmatter() {
    let content = "---\ntitle: \"X\"\n---\nbody";
    let (fm, body) = split_frontmatter(content);
    assert_eq!(fm, "title: \"X\"");
    assert_eq!(body, "body");
}

#[test]
fn no_frontmatter_returns_whole_content_as_body() {
    let content = "just body";
    let (fm, body) = split_frontmatter(content);
    assert_eq!(fm, "");
    assert_eq!(body, "just body");
}

#[test]
fn extracts_links_transclusions_and_blocks() {
    let body = "- hello ^block-01\n- [[Alpha]] and ((beta))\n  - nested\n";
    let p = parse_body(body);
    assert_eq!(p.links, vec!["Alpha"]);
    assert_eq!(p.transclusions, vec!["beta"]);
    assert_eq!(p.blocks.len(), 3);
    assert_eq!(p.blocks[0].id.as_deref(), Some("block-01"));
    assert_eq!(p.blocks[0].text, "hello");
    assert_eq!(p.blocks[2].text, "nested");
}

#[test]
fn normalize_turns_crlf_into_lf() {
    assert_eq!(normalize("a\r\nb\r\n"), "a\nb\n");
    assert_eq!(normalize("a\r\r\nb"), "a\r\nb");
    assert_eq!(normalize("lone\rcr"), "lone\rcr");
}

#[test]
fn frontmatter_after_byte_order_mark() {
    let (fm, body) = split_frontmatter("\u{feff}---\nid: x\n---\n\nrest");
    assert_eq!(fm, "id: x");
    assert_eq!(body, "\nrest");
}

#[test]
fn unclosed_frontmatter_is_body() {
    let (fm, body) = split_frontmatter("---\ntitle: open\nno close");
    assert_eq!(fm, "");
    assert_eq!(body, "---\ntitle: open\nno close");
}

#[test]
fn empty_frontmatter_block() {
    let (fm, body) = split_frontmatter("---\n\n---\nbody");
    assert_eq!(fm, "");
    assert_eq!(body, "body");
}

#[test]
fn links_are_trimmed_and_do_not_overlap() {
    let p = parse_body("see [[ Alpha ]] and [[a[b]] then [[]] and [[x]]");
    assert_eq!(p.links, vec!["Alpha", "a[b", "x"]);
}

#[test]
fn unclosed_link_is_not_a_link() {
    let p = parse_body("[[open] and ((half) and ((ok))");
    assert!(p.links.is_empty());
    assert_eq!(p.transclusions, vec!["ok"]);
}

#[test]
fn bullet_marks() {
    assert_eq!(split_bullet("  * star"), Some("star"));
    assert_eq!(split_bullet("+ plus"), Some("plus"));
    assert_eq!(split_bullet("-no space"), None);
    assert_eq!(split_bullet("text"), None);
    assert_eq!(split_bullet("-"), None);
}

#[test]
fn block_id_must_end_the_text() {
    assert_eq!(split_block_id("hello ^id-1"), (Some("id-1".to_string()), "hello"));
    assert_eq!(split_block_id("hello ^id-1  "), (Some("id-1".to_string()), "hello"));
    assert_eq!(split_block_id("a ^b ^c"), (Some("c".to_string()), "a ^b"));
    assert_eq!(split_block_id("hello ^id more"), (None, "hello ^id more"));
    assert_eq!(split_block_id("hello ^-bad"), (None, "hello ^-bad"));
    assert_eq!(split_block_id("^top"), (Some("top".to_string()), ""));
}

#[test]
fn blocks_from_crlf_lines() {
    let p = parse_body("- one ^a1\r\n- two\r\nplain\n");
    assert_eq!(p.blocks.len(), 2);
    assert_eq!(p.blocks[0].id.as_deref(), Some("a1"));
    assert_eq!(p.blocks[0].text, "one");
    assert_eq!(p.blocks[1].id, None);
    assert_eq!(p.blocks[1].text, "two");
}

#[test]
fn id_goes_first_into_an_existing_frontmatter() {
    let out = with_frontmatter_id("---\ntitle: X\n---\nbody", "01J5K80123456789ABCDEFGHJK");
    assert_eq!(out, "---\nid: 01J5K80123456789ABCDEFGHJK\ntitle: X\n---\nbody");
    let (fm, body) = split_frontmatter(&out);
    assert_eq!(fm, "id: 01J5K80123456789ABCDEFGHJK\ntitle: X");
    assert_eq!(body, "body");
}

#[test]
fn id_opens_a_new_frontmatter_when_there_is_none() {
    let out = with_frontmatter_id("\u{feff}just text", "ABC");
    assert_eq!(out, "---\nid: ABC\n---\njust text");
    assert_eq!(split_frontmatter(&out), ("id: ABC", "just text"));
    assert_eq!(with_frontmatter_id("---\nunclosed", "Z"), "---\nid: Z\n---\n---\nunclosed");
}

#[test]
fn links_are_trimmed_captures_in_order_with_duplicates() {
    let p = parse_body("[[ A ]] x [[B]] [[A]]");
    assert_eq!(p.links, vec!["A".to_string(), "B".to_string(), "A".to_string()]);
    assert!(p.transclusions.is_empty());
}

#[test]
fn blocks_come_from_bullet_lines_only() {
    let p = parse_body("* a\n+ b ^x\nplain\n-no");
    assert_eq!(p.blocks.len(), 2);
    assert_eq!(p.blocks[0].id, None);
    assert_eq!(p.blocks[0].text, "a");
    assert_eq!(p.blocks[1].id.as_deref(), Some("x"));
    assert_eq!(p.blocks[1].text, "b");
}
