use zttl::ui::markdown::{
    blocks_from_events, render_markdown, resolve_rule, BoldRule, BulletRule, HeadingRule, ItalicRule, MarkdownBlock,
    MdEvent, Rule, SpanStyle, StartTag, StyledSpan, TagRule, Tint,
};

fn plain() -> SpanStyle {
    SpanStyle { fg: None, bg: None, bold: false, italic: false, underlined: false }
}

fn span(text: &str, style: SpanStyle) -> StyledSpan {
    StyledSpan { text: text.to_string(), style }
}

#[test]
fn heading_becomes_an_image_block_between_text_blocks() {
    let blocks = render_markdown("intro\n\n# Title\n\nafter\n");
    assert_eq!(
        blocks,
        vec![
            MarkdownBlock::TextBlock(vec![vec![span("intro", plain())]]),
            MarkdownBlock::HeaderImage { text: "Title".to_string(), level: 1 },
            MarkdownBlock::TextBlock(vec![vec![span("after", plain())]]),
        ]
    );
}

#[test]
fn heading_text_keeps_code_and_drops_styles() {
    let blocks = render_markdown("## A **b** `c`\n");
    assert_eq!(blocks, vec![MarkdownBlock::HeaderImage { text: "A b c".to_string(), level: 2 }]);
}

#[test]
fn strong_and_emphasis_style_their_spans() {
    let bold = SpanStyle { bold: true, ..plain() };
    let italic = SpanStyle { italic: true, ..plain() };
    let blocks = render_markdown("Some **bold** and *it*\n");
    assert_eq!(
        blocks,
        vec![MarkdownBlock::TextBlock(vec![vec![
            span("Some ", plain()),
            span("bold", bold),
            span(" and ", plain()),
            span("it", italic),
        ]])]
    );
}

#[test]
fn list_items_get_a_gray_bullet_line_each() {
    let gray = SpanStyle { fg: Some(Tint::DarkGray), ..plain() };
    let blocks = render_markdown("- one\n- two\n");
    assert_eq!(
        blocks,
        vec![MarkdownBlock::TextBlock(vec![
            vec![span("  • ", gray), span("one", gray)],
            vec![span("  • ", gray), span("two", gray)],
        ])]
    );
}

#[test]
fn inline_code_is_padded_on_the_selection_color() {
    let code = SpanStyle { bg: Some(Tint::Selection), ..plain() };
    let blocks = render_markdown("run `ls` now\n");
    assert_eq!(
        blocks,
        vec![MarkdownBlock::TextBlock(vec![vec![span("run ", plain()), span(" ls ", code), span(" now", plain())]])]
    );
}

#[test]
fn a_soft_break_ends_the_line() {
    let blocks = render_markdown("a\nb\n");
    assert_eq!(
        blocks,
        vec![MarkdownBlock::TextBlock(vec![vec![span("a", plain())], vec![span("b", plain())]])]
    );
}

#[test]
fn an_empty_body_has_no_blocks() {
    assert!(render_markdown("").is_empty());
}

#[test]
fn events_are_rendered_in_order() {
    let events = vec![
        MdEvent::Start(StartTag::Other),
        MdEvent::Text("x".to_string()),
        MdEvent::Start(StartTag::Heading(3)),
        MdEvent::Text("h".to_string()),
        MdEvent::Break,
        MdEvent::Code("c".to_string()),
        MdEvent::HeadingEnd(3),
        MdEvent::Text("y".to_string()),
        MdEvent::LineEnd,
        MdEvent::LineEnd,
        MdEvent::OtherEnd,
        MdEvent::Other,
    ];
    assert_eq!(
        blocks_from_events(&events),
        vec![
            MarkdownBlock::TextBlock(vec![vec![span("x", plain())]]),
            MarkdownBlock::HeaderImage { text: "h c".to_string(), level: 3 },
            MarkdownBlock::TextBlock(vec![vec![span("y", plain())]]),
        ]
    );
}

#[test]
fn rules_of_elements() {
    assert_eq!(resolve_rule(&StartTag::Strong), Some(Rule::Bold(BoldRule)));
    assert_eq!(resolve_rule(&StartTag::Emphasis), Some(Rule::Italic(ItalicRule)));
    assert_eq!(resolve_rule(&StartTag::Item), Some(Rule::Bullet(BulletRule)));
    assert_eq!(resolve_rule(&StartTag::Heading(2)), Some(Rule::Heading(HeadingRule(2))));
    assert_eq!(resolve_rule(&StartTag::Other), None);
    assert_eq!(HeadingRule(3).prefix(), Some("### ".to_string()));
    assert_eq!(BulletRule.prefix(), Some("  • ".to_string()));
    assert_eq!(BoldRule.prefix(), None);
    let under = SpanStyle { italic: true, bg: Some(Tint::Selection), ..plain() };
    assert_eq!(
        HeadingRule(1).style(under),
        SpanStyle { fg: Some(Tint::Cyan), bg: Some(Tint::Selection), bold: true, italic: true, underlined: true }
    );
    assert_eq!(HeadingRule(2).style(plain()), SpanStyle { fg: Some(Tint::Yellow), bold: true, ..plain() });
    assert_eq!(HeadingRule(5).style(plain()), SpanStyle { fg: Some(Tint::Green), bold: true, ..plain() });
    assert_eq!(ItalicRule.style(plain()), SpanStyle { italic: true, ..plain() });
}

use zttl::ui::markdown::{classify, RawEvent};

#[test]
fn parser_events_are_classified_by_their_tags() {
    let heading = RawEvent::Start("Heading { level: H2, id: None, classes: [], attrs: [] }".to_string());
    assert_eq!(classify(&heading), MdEvent::Start(StartTag::Heading(2)));
    assert_eq!(classify(&RawEvent::Start("Strong".to_string())), MdEvent::Start(StartTag::Strong));
    assert_eq!(classify(&RawEvent::Start("Emphasis".to_string())), MdEvent::Start(StartTag::Emphasis));
    assert_eq!(classify(&RawEvent::Start("Item".to_string())), MdEvent::Start(StartTag::Item));
    assert_eq!(classify(&RawEvent::Start("List(None)".to_string())), MdEvent::Start(StartTag::Other));
    assert_eq!(classify(&RawEvent::End("Heading(H6)".to_string())), MdEvent::HeadingEnd(6));
    assert_eq!(classify(&RawEvent::End("Paragraph".to_string())), MdEvent::LineEnd);
    assert_eq!(classify(&RawEvent::End("Item".to_string())), MdEvent::LineEnd);
    assert_eq!(classify(&RawEvent::End("Strong".to_string())), MdEvent::OtherEnd);
    assert_eq!(classify(&RawEvent::SoftBreak), MdEvent::Break);
    assert_eq!(classify(&RawEvent::HardBreak), MdEvent::Break);
    assert_eq!(classify(&RawEvent::Text("x".to_string())), MdEvent::Text("x".to_string()));
    assert_eq!(classify(&RawEvent::Html("<b>".to_string())), MdEvent::Other);
    assert_eq!(classify(&RawEvent::HorizontalRule), MdEvent::Other);
}
