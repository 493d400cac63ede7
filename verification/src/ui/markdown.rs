//! A note body as styled blocks: runs of text lines, and the headings that
//! are drawn as images between them.
use vstd::prelude::*;
use pulldown_cmark::{Event as Ev, Options, Parser};
use self::RawEvent::{
    Code, DisplayMath, End, FootnoteReference, HardBreak, HorizontalRule, Html, InlineHtml, InlineMath, SoftBreak, Start,
    TaskListMarker, Text,
};
use crate::text::{chars_of, chars_eq, push_char, push_str};
use crate::fuzzy::{is_prefix, starts_with};

verus! {

/// A foreground or background color of a span. `Selection` is the theme's
/// selection color.
#[derive(Debug, Clone, Copy, PartialEq, Eq, Structural)]
pub enum Tint {
    Cyan,
    Yellow,
    Green,
    DarkGray,
    Selection,
}

/// How a span of text is drawn.
#[derive(Debug, Clone, Copy, PartialEq, Eq, Structural)]
pub struct SpanStyle {
    pub fg: Option<Tint>,
    pub bg: Option<Tint>,
    pub bold: bool,
    pub italic: bool,
    pub underlined: bool,
}

/// The style of plain text.
pub open spec fn plain_spec() -> SpanStyle {
    SpanStyle { fg: None, bg: None, bold: false, italic: false, underlined: false }
}

pub fn plain() -> (r: SpanStyle)
    ensures
        r == plain_spec(),
{
    SpanStyle { fg: None, bg: None, bold: false, italic: false, underlined: false }
}

/// The style of inline code: nothing inherited, on the selection color.
pub open spec fn code_style_spec() -> SpanStyle {
    SpanStyle { fg: None, bg: Some(Tint::Selection), bold: false, italic: false, underlined: false }
}

/// The opening tag of an element, as the renderer tells them apart.
#[derive(Debug, Clone, Copy, PartialEq, Eq, Structural)]
pub enum StartTag {
    /// A heading of the given level, 1 for the top level.
    Heading(u8),
    Strong,
    Emphasis,
    Item,
    Other,
}

/// A Markdown parser event, as the renderer tells them apart: the opening
/// of an element; the closing of a heading, of a paragraph or list item
/// (which ends a line), or of another element; text; inline code; a soft or
/// hard line break; anything else.
#[derive(Debug, Clone, PartialEq, Eq)]
pub enum MdEvent {
    Start(StartTag),
    HeadingEnd(u8),
    LineEnd,
    OtherEnd,
    Text(String),
    Code(String),
    Break,
    Other,
}

/// A piece of text in one style.
#[derive(Debug, Clone, PartialEq, Eq)]
pub struct StyledSpan {
    pub text: String,
    pub style: SpanStyle,
}

/// What a note body is drawn as: a heading, drawn as an image, or a run of
/// text lines, each line a list of spans.
#[derive(Debug, Clone, PartialEq, Eq)]
pub enum MarkdownBlock {
    HeaderImage { text: String, level: u8 },
    TextBlock(Vec<Vec<StyledSpan>>),
}

/// A span as values.
pub type SpanView = (Seq<char>, SpanStyle);

/// A line as values.
pub type LineView = Seq<SpanView>;

/// A block as values.
pub enum BlockView {
    HeaderImage(Seq<char>, u8),
    TextBlock(Seq<LineView>),
}

pub open spec fn span_view(s: StyledSpan) -> SpanView {
    (s.text@, s.style)
}

pub open spec fn line_view(l: Vec<StyledSpan>) -> LineView {
    l@.map_values(|s: StyledSpan| span_view(s))
}

pub open spec fn lines_view(ls: Seq<Vec<StyledSpan>>) -> Seq<LineView> {
    ls.map_values(|l: Vec<StyledSpan>| line_view(l))
}

pub open spec fn block_view(b: MarkdownBlock) -> BlockView {
    match b {
        MarkdownBlock::HeaderImage { text, level } => BlockView::HeaderImage(text@, level),
        MarkdownBlock::TextBlock(ls) => BlockView::TextBlock(lines_view(ls@)),
    }
}

pub open spec fn blocks_view(bs: Seq<MarkdownBlock>) -> Seq<BlockView> {
    bs.map_values(|b: MarkdownBlock| block_view(b))
}

pub open spec fn opt_chars(o: Option<String>) -> Option<Seq<char>> {
    match o {
        Some(s) => Some(s@),
        None => None,
    }
}

/// How an element changes the style of the text inside it, and what it puts
/// before that text.
pub trait TagRule {
    spec fn rule_style(&self, base: SpanStyle) -> SpanStyle;

    spec fn rule_prefix(&self) -> Option<Seq<char>>;

    fn style(&self, base: SpanStyle) -> (r: SpanStyle)
        ensures
            r == self.rule_style(base),
    ;

    fn prefix(&self) -> (r: Option<String>)
        ensures
            opt_chars(r) == self.rule_prefix(),
    ;
}

/// The rule of a heading of the given level.
#[derive(Debug, Clone, Copy, PartialEq, Eq, Structural)]
pub struct HeadingRule(pub u8);

/// The rule of strong text.
#[derive(Debug, Clone, Copy, PartialEq, Eq, Structural)]
pub struct BoldRule;

/// The rule of emphasised text.
#[derive(Debug, Clone, Copy, PartialEq, Eq, Structural)]
pub struct ItalicRule;

/// The rule of a list item.
#[derive(Debug, Clone, Copy, PartialEq, Eq, Structural)]
pub struct BulletRule;

/// `n` copies of `c`.
pub open spec fn repeat_char(c: char, n: nat) -> Seq<char> {
    Seq::new(n, |i: int| c)
}

impl TagRule for HeadingRule {
    /// Cyan, bold and underlined for the top level; yellow and bold for the
    /// second; green and bold below. The background and italics of the
    /// surrounding text stay.
    open spec fn rule_style(&self, base: SpanStyle) -> SpanStyle {
        SpanStyle {
            fg: Some(
                if self.0 == 1 {
                    Tint::Cyan
                } else if self.0 == 2 {
                    Tint::Yellow
                } else {
                    Tint::Green
                },
            ),
            bg: base.bg,
            bold: true,
            italic: base.italic,
            underlined: base.underlined || self.0 == 1,
        }
    }

    /// As many `#` as the level, then a space.
    open spec fn rule_prefix(&self) -> Option<Seq<char>> {
        Some(repeat_char('#', self.0 as nat).push(' '))
    }

    fn style(&self, base: SpanStyle) -> (r: SpanStyle) {
        let fg = if self.0 == 1 {
            Tint::Cyan
        } else if self.0 == 2 {
            Tint::Yellow
        } else {
            Tint::Green
        };
        SpanStyle {
            fg: Some(fg),
            bg: base.bg,
            bold: true,
            italic: base.italic,
            underlined: base.underlined || self.0 == 1,
        }
    }

    fn prefix(&self) -> (r: Option<String>) {
        let mut s = String::new();
        let mut i: u8 = 0;
        while i < self.0
            invariant
                i <= self.0,
                s@ == repeat_char('#', i as nat),
            decreases self.0 - i,
        {
            push_char(&mut s, '#');
            i += 1;
            assert(s@ == repeat_char('#', i as nat));
        }
        push_char(&mut s, ' ');
        Some(s)
    }
}

impl TagRule for BoldRule {
    open spec fn rule_style(&self, base: SpanStyle) -> SpanStyle {
        SpanStyle { bold: true, ..base }
    }

    open spec fn rule_prefix(&self) -> Option<Seq<char>> {
        None
    }

    fn style(&self, base: SpanStyle) -> (r: SpanStyle) {
        SpanStyle { bold: true, ..base }
    }

    fn prefix(&self) -> (r: Option<String>) {
        None
    }
}

impl TagRule for ItalicRule {
    open spec fn rule_style(&self, base: SpanStyle) -> SpanStyle {
        SpanStyle { italic: true, ..base }
    }

    open spec fn rule_prefix(&self) -> Option<Seq<char>> {
        None
    }

    fn style(&self, base: SpanStyle) -> (r: SpanStyle) {
        SpanStyle { italic: true, ..base }
    }

    fn prefix(&self) -> (r: Option<String>) {
        None
    }
}

impl TagRule for BulletRule {
    /// Dark gray text.
    open spec fn rule_style(&self, base: SpanStyle) -> SpanStyle {
        SpanStyle { fg: Some(Tint::DarkGray), ..base }
    }

    /// An indented bullet.
    open spec fn rule_prefix(&self) -> Option<Seq<char>> {
        Some(seq![' ', ' ', '•', ' '])
    }

    fn style(&self, base: SpanStyle) -> (r: SpanStyle) {
        SpanStyle { fg: Some(Tint::DarkGray), ..base }
    }

    fn prefix(&self) -> (r: Option<String>) {
        let mut s = String::new();
        push_char(&mut s, ' ');
        push_char(&mut s, ' ');
        push_char(&mut s, '•');
        push_char(&mut s, ' ');
        Some(s)
    }
}

/// The rule of one of the elements that have one.
#[derive(Debug, Clone, Copy, PartialEq, Eq, Structural)]
pub enum Rule {
    Heading(HeadingRule),
    Bold(BoldRule),
    Italic(ItalicRule),
    Bullet(BulletRule),
}

impl TagRule for Rule {
    open spec fn rule_style(&self, base: SpanStyle) -> SpanStyle {
        match *self {
            Rule::Heading(r) => r.rule_style(base),
            Rule::Bold(r) => r.rule_style(base),
            Rule::Italic(r) => r.rule_style(base),
            Rule::Bullet(r) => r.rule_style(base),
        }
    }

    open spec fn rule_prefix(&self) -> Option<Seq<char>> {
        match *self {
            Rule::Heading(r) => r.rule_prefix(),
            Rule::Bold(r) => r.rule_prefix(),
            Rule::Italic(r) => r.rule_prefix(),
            Rule::Bullet(r) => r.rule_prefix(),
        }
    }

    fn style(&self, base: SpanStyle) -> (r: SpanStyle) {
        match self {
            Rule::Heading(r) => r.style(base),
            Rule::Bold(r) => r.style(base),
            Rule::Italic(r) => r.style(base),
            Rule::Bullet(r) => r.style(base),
        }
    }

    fn prefix(&self) -> (r: Option<String>) {
        match self {
            Rule::Heading(r) => r.prefix(),
            Rule::Bold(r) => r.prefix(),
            Rule::Italic(r) => r.prefix(),
            Rule::Bullet(r) => r.prefix(),
        }
    }
}

/// Which elements have a rule: headings, strong and emphasised text, and
/// list items.
pub open spec fn rule_of(tag: StartTag) -> Option<Rule> {
    match tag {
        StartTag::Heading(l) => Some(Rule::Heading(HeadingRule(l))),
        StartTag::Strong => Some(Rule::Bold(BoldRule)),
        StartTag::Emphasis => Some(Rule::Italic(ItalicRule)),
        StartTag::Item => Some(Rule::Bullet(BulletRule)),
        StartTag::Other => None,
    }
}

/// The rule of an element, if it has one.
pub fn resolve_rule(tag: &StartTag) -> (r: Option<Rule>)
    ensures
        r == rule_of(*tag),
{
    match tag {
        StartTag::Heading(l) => Some(Rule::Heading(HeadingRule(*l))),
        StartTag::Strong => Some(Rule::Bold(BoldRule)),
        StartTag::Emphasis => Some(Rule::Italic(ItalicRule)),
        StartTag::Item => Some(Rule::Bullet(BulletRule)),
        StartTag::Other => None,
    }
}

/// What the renderer has built so far: the finished blocks, the finished
/// lines of the text block under way, the spans of the line under way, the
/// styles of the open elements, and the level and text of the heading under
/// way, if any.
pub struct RenderState {
    pub blocks: Seq<BlockView>,
    pub lines: Seq<LineView>,
    pub current: LineView,
    pub stack: Seq<SpanStyle>,
    pub heading: Option<(u8, Seq<char>)>,
}

/// Before the first event: nothing built, plain text style.
pub open spec fn initial() -> RenderState {
    RenderState {
        blocks: seq![],
        lines: seq![],
        current: seq![],
        stack: seq![plain_spec()],
        heading: None,
    }
}

/// The style of the innermost open element; plain when none is open.
pub open spec fn top(stack: Seq<SpanStyle>) -> SpanStyle {
    if stack.len() == 0 {
        plain_spec()
    } else {
        stack.last()
    }
}

/// The styles with the innermost one closed, if any is open.
pub open spec fn pop_style(stack: Seq<SpanStyle>) -> Seq<SpanStyle> {
    if stack.len() == 0 {
        stack
    } else {
        stack.drop_last()
    }
}

/// The lines with the line under way ended, if it holds anything.
pub open spec fn flushed(lines: Seq<LineView>, current: LineView) -> Seq<LineView> {
    if current.len() == 0 {
        lines
    } else {
        lines.push(current)
    }
}

/// The blocks with the lines closed into a text block, if there are any.
pub open spec fn closed_into(blocks: Seq<BlockView>, lines: Seq<LineView>) -> Seq<BlockView> {
    if lines.len() == 0 {
        blocks
    } else {
        blocks.push(BlockView::TextBlock(lines))
    }
}

/// One event: a heading gathers its text, however styled, and becomes an
/// image block of its own, closing the text block before it; outside
/// headings, elements push and pop styles (with a prefix span where their
/// rule has one), text and code become spans, and a line ends at a break or
/// at the end of a paragraph or list item.
pub open spec fn step(s: RenderState, e: MdEvent) -> RenderState {
    match e {
        MdEvent::Start(StartTag::Heading(l)) => RenderState { heading: Some((l, seq![])), ..s },
        MdEvent::HeadingEnd(l) => {
            let text = match s.heading {
                Some(h) => h.1,
                None => seq![],
            };
            RenderState {
                blocks: closed_into(s.blocks, flushed(s.lines, s.current)).push(BlockView::HeaderImage(text, l)),
                lines: seq![],
                current: seq![],
                stack: s.stack,
                heading: None,
            }
        },
        _ => match s.heading {
            Some(h) => match e {
                MdEvent::Text(t) => RenderState { heading: Some((h.0, h.1 + t@)), ..s },
                MdEvent::Code(c) => RenderState { heading: Some((h.0, h.1 + c@)), ..s },
                MdEvent::Break => RenderState { heading: Some((h.0, h.1.push(' '))), ..s },
                _ => s,
            },
            None => match e {
                MdEvent::Start(tag) => {
                    let cur = top(s.stack);
                    match rule_of(tag) {
                        Some(r) => {
                            let st = r.rule_style(cur);
                            let current = match r.rule_prefix() {
                                Some(p) => s.current.push((p, st)),
                                None => s.current,
                            };
                            RenderState { current, stack: s.stack.push(st), ..s }
                        },
                        None => RenderState { stack: s.stack.push(cur), ..s },
                    }
                },
                MdEvent::LineEnd => {
                    let stack = pop_style(s.stack);
                    if s.current.len() > 0 {
                        RenderState { lines: s.lines.push(s.current), current: seq![], stack, ..s }
                    } else {
                        RenderState { stack, ..s }
                    }
                },
                MdEvent::OtherEnd => RenderState { stack: pop_style(s.stack), ..s },
                MdEvent::Text(t) => RenderState { current: s.current.push((t@, top(s.stack))), ..s },
                MdEvent::Code(c) => RenderState {
                    current: s.current.push((seq![' '] + c@ + seq![' '], code_style_spec())),
                    ..s
                },
                MdEvent::Break => RenderState { lines: flushed(s.lines, s.current), current: seq![], ..s },
                _ => s,
            },
        },
    }
}

/// The state after a run of events.
pub open spec fn run(es: Seq<MdEvent>) -> RenderState
    decreases es.len(),
{
    if es.len() == 0 {
        initial()
    } else {
        step(run(es.drop_last()), es.last())
    }
}

/// The blocks of a whole run of events: the line and the text block under
/// way are closed at the end.
pub open spec fn render_spec(es: Seq<MdEvent>) -> Seq<BlockView> {
    let s = run(es);
    closed_into(s.blocks, flushed(s.lines, s.current))
}

/// A block holds something: a text block has at least one line and no line
/// is empty.
pub open spec fn block_filled(b: BlockView) -> bool {
    match b {
        BlockView::TextBlock(ls) => ls.len() > 0 && forall|i: int| 0 <= i < ls.len() ==> #[trigger] ls[i].len() > 0,
        BlockView::HeaderImage(_, _) => true,
    }
}

/// No finished line and no finished block is empty.
pub open spec fn filled(s: RenderState) -> bool {
    &&& forall|i: int| 0 <= i < s.lines.len() ==> #[trigger] s.lines[i].len() > 0
    &&& forall|i: int| 0 <= i < s.blocks.len() ==> block_filled(#[trigger] s.blocks[i])
}

proof fn lemma_flushed_filled(lines: Seq<LineView>, current: LineView)
    requires
        forall|i: int| 0 <= i < lines.len() ==> #[trigger] lines[i].len() > 0,
    ensures
        forall|i: int| 0 <= i < flushed(lines, current).len() ==> #[trigger] flushed(lines, current)[i].len() > 0,
{
    assert forall|i: int| 0 <= i < flushed(lines, current).len() implies #[trigger] flushed(lines, current)[i].len() > 0 by {
        if i < lines.len() {
            assert(flushed(lines, current)[i] == lines[i]);
        }
    }
}

proof fn lemma_closed_filled(blocks: Seq<BlockView>, lines: Seq<LineView>)
    requires
        forall|i: int| 0 <= i < lines.len() ==> #[trigger] lines[i].len() > 0,
        forall|i: int| 0 <= i < blocks.len() ==> block_filled(#[trigger] blocks[i]),
    ensures
        forall|i: int| 0 <= i < closed_into(blocks, lines).len() ==> block_filled(#[trigger] closed_into(blocks, lines)[i]),
{
    assert forall|i: int| 0 <= i < closed_into(blocks, lines).len() implies block_filled(#[trigger] closed_into(blocks, lines)[i]) by {
        if i < blocks.len() {
            assert(closed_into(blocks, lines)[i] == blocks[i]);
        }
    }
}

proof fn lemma_step_filled(s: RenderState, e: MdEvent)
    requires
        filled(s),
    ensures
        filled(step(s, e)),
{
    lemma_flushed_filled(s.lines, s.current);
    let t = step(s, e);
    match e {
        MdEvent::HeadingEnd(l) => {
            let c = closed_into(s.blocks, flushed(s.lines, s.current));
            lemma_closed_filled(s.blocks, flushed(s.lines, s.current));
            assert forall|i: int| 0 <= i < t.blocks.len() implies block_filled(#[trigger] t.blocks[i]) by {
                if i < c.len() {
                    assert(t.blocks[i] == c[i]);
                }
            }
        },
        MdEvent::LineEnd => {
            if s.heading is None && s.current.len() > 0 {
                assert forall|i: int| 0 <= i < t.lines.len() implies #[trigger] t.lines[i].len() > 0 by {
                    if i < s.lines.len() {
                        assert(t.lines[i] == s.lines[i]);
                    }
                }
            }
        },
        _ => {},
    }
}

proof fn lemma_run_filled(es: Seq<MdEvent>)
    ensures
        filled(run(es)),
    decreases es.len(),
{
    if es.len() > 0 {
        lemma_run_filled(es.drop_last());
        lemma_step_filled(run(es.drop_last()), es.last());
    }
}

/// However a body is written, it never comes out as an empty text block or
/// with an empty line.
pub proof fn lemma_render_filled(es: Seq<MdEvent>)
    ensures
        forall|i: int| 0 <= i < render_spec(es).len() ==> block_filled(#[trigger] render_spec(es)[i]),
{
    lemma_run_filled(es);
    let s = run(es);
    lemma_flushed_filled(s.lines, s.current);
    lemma_closed_filled(s.blocks, flushed(s.lines, s.current));
}

/// The renderer's state as it runs.
struct Renderer {
    blocks: Vec<MarkdownBlock>,
    lines: Vec<Vec<StyledSpan>>,
    current: Vec<StyledSpan>,
    stack: Vec<SpanStyle>,
    heading_level: Option<u8>,
    heading_text: String,
}

pub open spec fn spans_view(s: Seq<StyledSpan>) -> LineView {
    s.map_values(|x: StyledSpan| span_view(x))
}

impl Renderer {
    spec fn state(&self) -> RenderState {
        RenderState {
            blocks: blocks_view(self.blocks@),
            lines: lines_view(self.lines@),
            current: spans_view(self.current@),
            stack: self.stack@,
            heading: match self.heading_level {
                Some(l) => Some((l, self.heading_text@)),
                None => None,
            },
        }
    }

    fn new() -> (r: Renderer)
        ensures
            r.state() == initial(),
    {
        let mut stack: Vec<SpanStyle> = Vec::new();
        stack.push(plain());
        let r = Renderer {
            blocks: Vec::new(),
            lines: Vec::new(),
            current: Vec::new(),
            stack,
            heading_level: None,
            heading_text: String::new(),
        };
        assert(r.state().blocks =~= seq![]);
        assert(r.state().lines =~= seq![]);
        assert(r.state().current =~= seq![]);
        r
    }

    fn top_style(&self) -> (r: SpanStyle)
        ensures
            r == top(self.stack@),
    {
        if self.stack.len() == 0 {
            plain()
        } else {
            self.stack[self.stack.len() - 1]
        }
    }

    /// Ends the line under way, if it holds anything.
    fn flush_line(&mut self)
        ensures
            final(self).state() == (RenderState {
                lines: flushed(old(self).state().lines, old(self).state().current),
                current: seq![],
                ..old(self).state()
            }),
    {
        if self.current.len() > 0 {
            let mut line: Vec<StyledSpan> = Vec::new();
            std::mem::swap(&mut line, &mut self.current);
            let ghost l0 = self.lines@;
            self.lines.push(line);
            assert(lines_view(self.lines@) =~= lines_view(l0).push(line_view(line)));
        }
        assert(spans_view(self.current@) =~= seq![]);
    }

    /// Closes the lines into a text block, if there are any.
    fn close_block(&mut self)
        ensures
            final(self).state() == (RenderState {
                blocks: closed_into(old(self).state().blocks, old(self).state().lines),
                lines: seq![],
                ..old(self).state()
            }),
    {
        if self.lines.len() > 0 {
            let mut lines: Vec<Vec<StyledSpan>> = Vec::new();
            std::mem::swap(&mut lines, &mut self.lines);
            let ghost b0 = self.blocks@;
            let b = MarkdownBlock::TextBlock(lines);
            self.blocks.push(b);
            assert(blocks_view(self.blocks@) =~= blocks_view(b0).push(block_view(b)));
        }
        assert(lines_view(self.lines@) =~= seq![]);
    }

    fn push_span(&mut self, sp: StyledSpan)
        ensures
            final(self).state() == (RenderState {
                current: old(self).state().current.push(span_view(sp)),
                ..old(self).state()
            }),
    {
        let ghost c0 = self.current@;
        self.current.push(sp);
        assert(spans_view(self.current@) =~= spans_view(c0).push(span_view(sp)));
    }

    /// Applies one event.
    fn apply(&mut self, e: &MdEvent)
        ensures
            final(self).state() == step(old(self).state(), *e),
    {
        match e {
            MdEvent::Start(StartTag::Heading(l)) => {
                self.heading_level = Some(*l);
                self.heading_text = String::new();
                return;
            },
            MdEvent::HeadingEnd(l) => {
                self.flush_line();
                self.close_block();
                let mut text = String::new();
                std::mem::swap(&mut text, &mut self.heading_text);
                let t = if self.heading_level.is_some() {
                    text
                } else {
                    String::new()
                };
                self.heading_level = None;
                let ghost b0 = self.blocks@;
                let b = MarkdownBlock::HeaderImage { text: t, level: *l };
                self.blocks.push(b);
                assert(blocks_view(self.blocks@) =~= blocks_view(b0).push(block_view(b)));
                return;
            },
            _ => {},
        }
        if self.heading_level.is_some() {
            self.apply_in_heading(e);
        } else {
            self.apply_outside(e);
        }
    }

    /// An event inside a heading: only its text is kept.
    fn apply_in_heading(&mut self, e: &MdEvent)
        requires
            old(self).heading_level is Some,
            !(e matches MdEvent::Start(StartTag::Heading(_))),
            !(e matches MdEvent::HeadingEnd(_)),
        ensures
            final(self).state() == step(old(self).state(), *e),
    {
        match e {
            MdEvent::Text(t) => push_str(&mut self.heading_text, t.as_str()),
            MdEvent::Code(c) => push_str(&mut self.heading_text, c.as_str()),
            MdEvent::Break => push_char(&mut self.heading_text, ' '),
            _ => {},
        }
    }

    /// An event outside any heading.
    fn apply_outside(&mut self, e: &MdEvent)
        requires
            old(self).heading_level is None,
            !(e matches MdEvent::Start(StartTag::Heading(_))),
            !(e matches MdEvent::HeadingEnd(_)),
        ensures
            final(self).state() == step(old(self).state(), *e),
    {
        match e {
            MdEvent::Start(tag) => {
                let cur = self.top_style();
                match resolve_rule(tag) {
                    Some(rule) => {
                        let st = rule.style(cur);
                        if let Some(p) = rule.prefix() {
                            self.push_span(StyledSpan { text: p, style: st });
                        }
                        self.stack.push(st);
                    },
                    None => {
                        self.stack.push(cur);
                    },
                }
            },
            MdEvent::LineEnd => {
                self.stack.pop();
                if self.current.len() > 0 {
                    self.flush_line();
                }
            },
            MdEvent::OtherEnd => {
                self.stack.pop();
            },
            MdEvent::Text(t) => {
                let st = self.top_style();
                self.push_span(StyledSpan { text: t.clone(), style: st });
            },
            MdEvent::Code(c) => {
                let mut text = String::new();
                push_char(&mut text, ' ');
                push_str(&mut text, c.as_str());
                push_char(&mut text, ' ');
                assert(text@ =~= seq![' '] + c@ + seq![' ']);
                self.push_span(
                    StyledSpan {
                        text,
                        style: SpanStyle { fg: None, bg: Some(Tint::Selection), bold: false, italic: false, underlined: false },
                    },
                );
            },
            MdEvent::Break => self.flush_line(),
            _ => {},
        }
    }
}

/// The blocks that a run of parser events is drawn as.
pub fn blocks_from_events(events: &Vec<MdEvent>) -> (r: Vec<MarkdownBlock>)
    ensures
        blocks_view(r@) == render_spec(events@),
{
    let mut st = Renderer::new();
    let mut i: usize = 0;
    while i < events.len()
        invariant
            i <= events@.len(),
            st.state() == run(events@.take(i as int)),
        decreases events.len() - i,
    {
        assert(events@.take(i as int + 1).drop_last() =~= events@.take(i as int));
        st.apply(&events[i]);
        i += 1;
    }
    assert(events@.take(events@.len() as int) =~= events@);
    st.flush_line();
    st.close_block();
    st.blocks
}

/// A Markdown parser event, one variant for each of pulldown-cmark's: the
/// opening and closing tags are given by their debug text (for an opening
/// tag, that of the tag with its fields), the texts as strings.
#[derive(Debug, Clone, PartialEq, Eq)]
pub enum RawEvent {
    Start(String),
    End(String),
    Text(String),
    Code(String),
    InlineMath(String),
    DisplayMath(String),
    Html(String),
    InlineHtml(String),
    FootnoteReference(String),
    SoftBreak,
    HardBreak,
    HorizontalRule,
    TaskListMarker(bool),
}

/// The events that the Markdown parser yields for a text.
pub uninterp spec fn markdown_raw_events(content: Seq<char>) -> Seq<RawEvent>;

/// `pulldown_cmark::Parser::new_ext` with tables enabled, run over the whole
/// of `content`, each event turned into the `RawEvent` of the same variant.
/// The events depend on the text alone; which events a text gives is not
/// stated.
#[verifier::external_body]
fn markdown_events(content: &str) -> (r: Vec<RawEvent>)
    ensures
        r@ == markdown_raw_events(content@),
{
    Parser::new_ext(content, Options::ENABLE_TABLES).map(|e| match e {
        Ev::Start(t) => Start(format!("{t:?}")),
        Ev::End(t) => End(format!("{t:?}")),
        Ev::Text(s) => Text(s.to_string()),
        Ev::Code(s) => Code(s.to_string()),
        Ev::InlineMath(s) => InlineMath(s.to_string()),
        Ev::DisplayMath(s) => DisplayMath(s.to_string()),
        Ev::Html(s) => Html(s.to_string()),
        Ev::InlineHtml(s) => InlineHtml(s.to_string()),
        Ev::FootnoteReference(s) => FootnoteReference(s.to_string()),
        Ev::SoftBreak => SoftBreak,
        Ev::HardBreak => HardBreak,
        Ev::Rule => HorizontalRule,
        Ev::TaskListMarker(b) => TaskListMarker(b)
    }).collect()
}

/// The heading level that a digit names, 1 to 6.
pub open spec fn level_digit(c: char) -> Option<u8> {
    if c == '1' { Some(1u8) } else if c == '2' { Some(2u8) } else if c == '3' { Some(3u8) }
    else if c == '4' { Some(4u8) } else if c == '5' { Some(5u8) } else if c == '6' { Some(6u8) } else { None }
}

/// The heading level in a tag's debug text after `prefix`, if the text
/// starts with `prefix` and a level digit follows.
pub open spec fn level_after(prefix: Seq<char>, s: Seq<char>) -> Option<u8> {
    if is_prefix(prefix, s) && s.len() > prefix.len() {
        level_digit(s[prefix.len() as int])
    } else {
        None
    }
}

/// Which opening tags the renderer tells apart: a heading with its level,
/// strong and emphasised text, list items; any other tag is `Other`.
pub open spec fn start_tag_of(s: Seq<char>) -> StartTag {
    match level_after("Heading { level: H"@, s) {
        Some(l) => StartTag::Heading(l),
        None => if s == "Strong"@ {
            StartTag::Strong
        } else if s == "Emphasis"@ {
            StartTag::Emphasis
        } else if s == "Item"@ {
            StartTag::Item
        } else {
            StartTag::Other
        },
    }
}

/// What a parser event means to the renderer: the end of a heading, the end
/// of a paragraph or list item (which ends a line), the end of another
/// element; text and inline code; a soft or hard line break; anything else
/// is ignored.
pub open spec fn classify_spec(e: RawEvent) -> MdEvent {
    match e {
        RawEvent::Start(t) => MdEvent::Start(start_tag_of(t@)),
        RawEvent::End(t) => match level_after("Heading(H"@, t@) {
            Some(l) => MdEvent::HeadingEnd(l),
            None => if t@ == "Item"@ || t@ == "Paragraph"@ {
                MdEvent::LineEnd
            } else {
                MdEvent::OtherEnd
            },
        },
        RawEvent::Text(t) => MdEvent::Text(t),
        RawEvent::Code(c) => MdEvent::Code(c),
        RawEvent::SoftBreak => MdEvent::Break,
        RawEvent::HardBreak => MdEvent::Break,
        _ => MdEvent::Other,
    }
}

fn level_digit_of(c: char) -> (r: Option<u8>)
    ensures
        r == level_digit(c),
{
    if c == '1' { Some(1) } else if c == '2' { Some(2) } else if c == '3' { Some(3) }
    else if c == '4' { Some(4) } else if c == '5' { Some(5) } else if c == '6' { Some(6) } else { None }
}

fn level_after_of(prefix: &str, s: &Vec<char>) -> (r: Option<u8>)
    ensures
        r == level_after(prefix@, s@),
{
    let p = chars_of(prefix);
    if starts_with(s, &p) && s.len() > p.len() {
        level_digit_of(s[p.len()])
    } else {
        None
    }
}

fn is_text(s: &Vec<char>, lit: &str) -> (r: bool)
    ensures
        r == (s@ == lit@),
{
    let l = chars_of(lit);
    chars_eq(s, &l)
}

/// What a parser event means to the renderer.
pub fn classify(e: &RawEvent) -> (r: MdEvent)
    ensures
        r == classify_spec(*e),
{
    match e {
        RawEvent::Start(t) => {
            let v = chars_of(t.as_str());
            let tag = match level_after_of("Heading { level: H", &v) {
                Some(l) => StartTag::Heading(l),
                None => if is_text(&v, "Strong") {
                    StartTag::Strong
                } else if is_text(&v, "Emphasis") {
                    StartTag::Emphasis
                } else if is_text(&v, "Item") {
                    StartTag::Item
                } else {
                    StartTag::Other
                },
            };
            MdEvent::Start(tag)
        },
        RawEvent::End(t) => {
            let v = chars_of(t.as_str());
            match level_after_of("Heading(H", &v) {
                Some(l) => MdEvent::HeadingEnd(l),
                None => if is_text(&v, "Item") || is_text(&v, "Paragraph") {
                    MdEvent::LineEnd
                } else {
                    MdEvent::OtherEnd
                },
            }
        },
        RawEvent::Text(t) => MdEvent::Text(t.clone()),
        RawEvent::Code(c) => MdEvent::Code(c.clone()),
        RawEvent::SoftBreak => MdEvent::Break,
        RawEvent::HardBreak => MdEvent::Break,
        _ => MdEvent::Other,
    }
}

/// The renderer events of a run of parser events.
pub fn classify_all(events: &Vec<RawEvent>) -> (r: Vec<MdEvent>)
    ensures
        r@ == events@.map_values(|e: RawEvent| classify_spec(e)),
{
    let mut out: Vec<MdEvent> = Vec::new();
    let mut i: usize = 0;
    while i < events.len()
        invariant
            i <= events@.len(),
            out@ == events@.take(i as int).map_values(|e: RawEvent| classify_spec(e)),
        decreases events.len() - i,
    {
        out.push(classify(&events[i]));
        i += 1;
        assert(out@ =~= events@.take(i as int).map_values(|e: RawEvent| classify_spec(e)));
    }
    assert(events@.take(events@.len() as int) =~= events@);
    out
}

/// The blocks that a note body is drawn as.
pub fn render_markdown(content: &str) -> (r: Vec<MarkdownBlock>)
    ensures
        blocks_view(r@) == render_spec(markdown_raw_events(content@).map_values(|e: RawEvent| classify_spec(e))),
{
    let events = markdown_events(content);
    let classified = classify_all(&events);
    blocks_from_events(&classified)
}

} // verus!
