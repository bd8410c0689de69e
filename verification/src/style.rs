//! Styled text: colours, modifiers, and the spans that lines are made of.

use vstd::prelude::*;

verus! {

/// A terminal colour.
#[derive(Clone, Copy, Debug, PartialEq, Eq, Structural)]
pub enum Color {
    Reset,
    Black,
    Red,
    Green,
    Yellow,
    Blue,
    Magenta,
    Cyan,
    Gray,
    DarkGray,
    LightRed,
    LightGreen,
    LightYellow,
    LightBlue,
    LightMagenta,
    LightCyan,
    White,
    Rgb(u8, u8, u8),
    Indexed(u8),
}

/// How a run of text is painted.
#[derive(Clone, Copy, Debug, PartialEq, Eq, Structural)]
pub struct Style {
    pub fg: Option<Color>,
    pub bg: Option<Color>,
    pub bold: bool,
    pub dim: bool,
    pub italic: bool,
    pub underlined: bool,
    pub reversed: bool,
    pub crossed_out: bool,
}

impl Style {
    /// The style that changes nothing.
    pub open spec fn plain() -> Style {
        Style {
            fg: None,
            bg: None,
            bold: false,
            dim: false,
            italic: false,
            underlined: false,
            reversed: false,
            crossed_out: false,
        }
    }

    /// This style in bold.
    pub open spec fn as_bold(self) -> Style {
        Style { bold: true, ..self }
    }

    /// This style in italics.
    pub open spec fn as_italic(self) -> Style {
        Style { italic: true, ..self }
    }

    /// This style underlined.
    pub open spec fn as_underlined(self) -> Style {
        Style { underlined: true, ..self }
    }

    /// This style struck through.
    pub open spec fn as_crossed_out(self) -> Style {
        Style { crossed_out: true, ..self }
    }

    /// The style that changes nothing.
    pub fn new() -> (s: Style)
        ensures
            s == Style::plain(),
    {
        Style {
            fg: None,
            bg: None,
            bold: false,
            dim: false,
            italic: false,
            underlined: false,
            reversed: false,
            crossed_out: false,
        }
    }

    /// This style in the given foreground.
    pub fn fg(self, color: Color) -> (s: Style)
        ensures
            s == (Style { fg: Some(color), ..self }),
    {
        let mut s = self;
        s.fg = Some(color);
        s
    }

    /// This style on the given background.
    pub fn bg(self, color: Color) -> (s: Style)
        ensures
            s == (Style { bg: Some(color), ..self }),
    {
        let mut s = self;
        s.bg = Some(color);
        s
    }

    /// This style in bold.
    pub fn bold(self) -> (s: Style)
        ensures
            s == self.as_bold(),
    {
        let mut s = self;
        s.bold = true;
        s
    }

    /// This style in italics.
    pub fn italic(self) -> (s: Style)
        ensures
            s == self.as_italic(),
    {
        let mut s = self;
        s.italic = true;
        s
    }

    /// This style underlined.
    pub fn underlined(self) -> (s: Style)
        ensures
            s == self.as_underlined(),
    {
        let mut s = self;
        s.underlined = true;
        s
    }

    /// This style struck through.
    pub fn crossed_out(self) -> (s: Style)
        ensures
            s == self.as_crossed_out(),
    {
        let mut s = self;
        s.crossed_out = true;
        s
    }
}

/// A run of text in one style.
#[derive(Debug, PartialEq, Eq)]
pub struct Span {
    pub content: String,
    pub style: Style,
}

/// A span as the contracts speak of it.
pub struct SpanView {
    pub text: Seq<char>,
    pub style: Style,
}

impl View for Span {
    type V = SpanView;

    open spec fn view(&self) -> SpanView {
        SpanView { text: self.content@, style: self.style }
    }
}

impl Span {
    /// A span of `content` in `style`.
    pub fn styled(content: String, style: Style) -> (s: Span)
        ensures
            s@ == (SpanView { text: content@, style }),
    {
        Span { content, style }
    }

    /// A span of `content` in the style that changes nothing.
    pub fn raw(content: String) -> (s: Span)
        ensures
            s@ == (SpanView { text: content@, style: Style::plain() }),
    {
        Span { content, style: Style::new() }
    }
}

impl Clone for Span {
    fn clone(&self) -> (s: Span)
        ensures
            s@ == self@,
    {
        Span { content: self.content.clone(), style: self.style }
    }
}

/// The views of a run of spans.
pub open spec fn views(spans: Seq<Span>) -> Seq<SpanView> {
    Seq::new(spans.len(), |i: int| spans[i]@)
}

/// What a run of spans reads as, ignoring style.
pub open spec fn text_of(spans: Seq<SpanView>) -> Seq<char>
    decreases spans.len(),
{
    if spans.len() == 0 {
        Seq::empty()
    } else {
        text_of(spans.drop_last()) + spans.last().text
    }
}

/// The text of two runs is the text of the first, then that of the second.
pub proof fn lemma_text_of_concat(a: Seq<SpanView>, b: Seq<SpanView>)
    ensures
        text_of(a + b) == text_of(a) + text_of(b),
    decreases b.len(),
{
    if b.len() == 0 {
        assert(a + b =~= a);
        assert(text_of(a) + text_of(b) =~= text_of(a));
    } else {
        lemma_text_of_concat(a, b.drop_last());
        assert((a + b).drop_last() =~= a + b.drop_last());
        assert(text_of(a + b) =~= text_of(a) + text_of(b));
    }
}

/// Clones a run of spans.
pub fn clone_spans(spans: &[Span]) -> (out: Vec<Span>)
    ensures
        views(out@) == views(spans@),
{
    let mut out: Vec<Span> = Vec::new();
    let mut i: usize = 0;
    while i < spans.len()
        invariant
            i <= spans.len(),
            views(out@) == views(spans@.take(i as int)),
        decreases spans.len() - i,
    {
        let ghost before = out@;
        out.push(spans[i].clone());
        assert(views(out@) =~= views(before).push(spans@[i as int]@));
        assert(views(spans@.take(i + 1)) =~= views(spans@.take(i as int)).push(spans@[i as int]@));
        i += 1;
    }
    assert(spans@.take(spans@.len() as int) =~= spans@);
    out
}

/// A finished line of text: spans in drawing order.
#[derive(Debug, PartialEq, Eq)]
pub struct Line {
    pub spans: Vec<Span>,
}

impl View for Line {
    type V = Seq<SpanView>;

    open spec fn view(&self) -> Seq<SpanView> {
        views(self.spans@)
    }
}

impl Clone for Line {
    fn clone(&self) -> (l: Line)
        ensures
            l@ == self@,
    {
        Line { spans: clone_spans(&self.spans) }
    }
}

/// The views of a run of lines.
pub open spec fn line_views(lines: Seq<Line>) -> Seq<Seq<SpanView>> {
    Seq::new(lines.len(), |i: int| lines[i]@)
}

} // verus!
