//! The parser's event stream as plain values.

use std::ops::Range;

use pulldown_cmark::{CodeBlockKind, Event, Options, Parser, TagEnd};
use vstd::prelude::*;

verus! {

/// One event of the markdown parser, which the library only looks at through
/// the functions below.
#[verifier::external_type_specification]
#[verifier::external_body]
pub struct ExEvent<'a>(Event<'a>);

/// What an event opens or closes.
#[derive(Clone, Copy, Debug, PartialEq, Eq, Structural)]
pub enum Tag {
    Paragraph,
    Heading,
    BlockQuote,
    List,
    Item,
    CodeBlock,
    HtmlBlock,
    Table,
    TableHead,
    TableRow,
    TableCell,
    Emphasis,
    Strong,
    Strikethrough,
    Link,
    Image,
    Other,
}

/// Which event.
#[derive(Clone, Copy, Debug, PartialEq, Eq, Structural)]
pub enum Mark {
    Open(Tag),
    Close(Tag),
    Text,
    Code,
    InlineHtml,
    Html,
    SoftBreak,
    HardBreak,
    Rule,
    /// A task list's checkbox, ticked or not.
    Task(bool),
    /// Inline content that draws nothing.
    Other,
}

/// What an event says, without where it stands.
pub struct Shape {
    pub mark: Mark,
    /// The text of a text, code or HTML event, the target of a link or an
    /// image, the info string of a fence.
    pub text: Seq<char>,
    /// The first number of an ordered list, the level of a heading.
    pub number: Option<u64>,
}

/// One event, with the bytes of the source it covers, as the contracts speak
/// of it.
pub struct EventView {
    pub mark: Mark,
    pub text: Seq<char>,
    pub number: Option<u64>,
    pub start: nat,
    pub end: nat,
}

/// One event, with the bytes of the source it covers.
#[derive(Debug)]
pub struct MdEvent {
    pub mark: Mark,
    pub text: String,
    pub number: Option<u64>,
    pub start: usize,
    pub end: usize,
}

impl View for MdEvent {
    type V = EventView;

    open spec fn view(&self) -> EventView {
        EventView {
            mark: self.mark,
            text: self.text@,
            number: self.number,
            start: self.start as nat,
            end: self.end as nat,
        }
    }
}

/// The views of a run of events.
pub open spec fn event_views(events: Seq<MdEvent>) -> Seq<EventView> {
    Seq::new(events.len(), |i: int| events[i]@)
}

/// Which extensions of the grammar are read.
#[derive(Clone, Copy, Debug, PartialEq, Eq, Structural)]
pub struct Extensions {
    pub tables: bool,
    pub strikethrough: bool,
    pub tasklists: bool,
}

/// What a list of parser events holds.
pub uninterp spec fn shapes_in(events: Vec<Event<'_>>) -> Seq<Shape>;

/// The events `pulldown_cmark` reads in a source.
pub uninterp spec fn markdown_events(source: Seq<char>, extensions: Extensions) -> Seq<EventView>;

/// An event's shape at a place in the source.
pub open spec fn placed_at(shape: Shape, range: Range<usize>) -> EventView {
    EventView {
        mark: shape.mark,
        text: shape.text,
        number: shape.number,
        start: range.start as nat,
        end: range.end as nat,
    }
}

/// `pulldown_cmark::Parser::new_ext` and `into_offset_iter`: every event of a
/// source under the given extensions, and the byte range of the source each
/// covers. The events are named, not described.
#[verifier::external_body]
fn read_markdown<'a>(source: &'a str, extensions: Extensions) -> (r: (
    Vec<Event<'a>>,
    Vec<Range<usize>>,
))
    ensures
        r.0@.len() == r.1@.len(),
        shapes_in(r.0).len() == r.0@.len(),
        markdown_events(source@, extensions) == Seq::new(
            r.0@.len(),
            |i: int| placed_at(shapes_in(r.0)[i], r.1@[i]),
        ),
{
    let mut options = Options::empty();
    options.set(Options::ENABLE_TABLES, extensions.tables);
    options.set(Options::ENABLE_STRIKETHROUGH, extensions.strikethrough);
    options.set(Options::ENABLE_TASKLISTS, extensions.tasklists);
    Parser::new_ext(source, options).into_offset_iter().unzip()
}

/// Whether a tag is one of inline content.
pub open spec fn inline_tag(tag: Tag) -> bool {
    tag == Tag::Emphasis || tag == Tag::Strong || tag == Tag::Strikethrough || tag == Tag::Link
        || tag == Tag::Image
}

/// The inline tag a mark opens (`true`) or closes.
pub open spec fn inline_part(mark: Mark) -> Option<(bool, Tag)> {
    match mark {
        Mark::Open(tag) if inline_tag(tag) => Some((true, tag)),
        Mark::Close(tag) if inline_tag(tag) => Some((false, tag)),
        _ => None,
    }
}

/// The block tag a mark opens (`true`) or closes; an inline one is `Other`.
pub open spec fn block_part(mark: Mark) -> Option<(bool, Tag)> {
    match mark {
        Mark::Open(tag) => Some((true, if inline_tag(tag) { Tag::Other } else { tag })),
        Mark::Close(tag) => Some((false, if inline_tag(tag) { Tag::Other } else { tag })),
        _ => None,
    }
}

/// The mark of an event that opens and closes nothing; `Other` for the rest.
pub open spec fn leaf_part(mark: Mark) -> Mark {
    match mark {
        Mark::Open(_) => Mark::Other,
        Mark::Close(_) => Mark::Other,
        _ => mark,
    }
}

/// `pulldown_cmark::Event`: which inline tag the `i`-th event opens or closes.
#[verifier::external_body]
fn inline_tag_at(events: &Vec<Event<'_>>, i: usize) -> (r: Option<(bool, Tag)>)
    requires
        i < events@.len(),
    ensures
        r == inline_part(shapes_in(*events)[i as int].mark),
{
    let (opens, tag) = match &events[i] {
        Event::Start(tag) => (true, tag.to_end()),
        Event::End(tag) => (false, *tag),
        _ => return None,
    };
    match tag {
        TagEnd::Emphasis => Some((opens, Tag::Emphasis)),
        TagEnd::Strong => Some((opens, Tag::Strong)),
        TagEnd::Strikethrough => Some((opens, Tag::Strikethrough)),
        TagEnd::Link => Some((opens, Tag::Link)),
        TagEnd::Image => Some((opens, Tag::Image)),
        _ => None,
    }
}

/// `pulldown_cmark::Event`: which block tag the `i`-th event opens or closes.
#[verifier::external_body]
fn block_tag_at(events: &Vec<Event<'_>>, i: usize) -> (r: Option<(bool, Tag)>)
    requires
        i < events@.len(),
    ensures
        r == block_part(shapes_in(*events)[i as int].mark),
{
    let (opens, tag) = match &events[i] {
        Event::Start(tag) => (true, tag.to_end()),
        Event::End(tag) => (false, *tag),
        _ => return None,
    };
    Some((opens, match tag {
        TagEnd::Paragraph => Tag::Paragraph, TagEnd::Heading(_) => Tag::Heading,
        TagEnd::BlockQuote(_) => Tag::BlockQuote, TagEnd::List(_) => Tag::List,
        TagEnd::Item => Tag::Item, TagEnd::CodeBlock => Tag::CodeBlock,
        TagEnd::HtmlBlock => Tag::HtmlBlock,
        TagEnd::Table => Tag::Table, TagEnd::TableHead => Tag::TableHead,
        TagEnd::TableRow => Tag::TableRow, TagEnd::TableCell => Tag::TableCell,
        _ => Tag::Other,
    }))
}

/// `pulldown_cmark::Event`: which event that opens and closes nothing the
/// `i`-th one is.
#[verifier::external_body]
fn leaf_at(events: &Vec<Event<'_>>, i: usize) -> (r: Mark)
    requires
        i < events@.len(),
    ensures
        r == leaf_part(shapes_in(*events)[i as int].mark),
{
    match &events[i] {
        Event::Text(_) => Mark::Text,
        Event::Code(_) => Mark::Code,
        Event::InlineHtml(_) => Mark::InlineHtml,
        Event::Html(_) => Mark::Html,
        Event::SoftBreak => Mark::SoftBreak,
        Event::HardBreak => Mark::HardBreak,
        Event::Rule => Mark::Rule,
        Event::TaskListMarker(checked) => Mark::Task(*checked),
        _ => Mark::Other,
    }
}

/// `pulldown_cmark::Event`: the text the `i`-th event carries; see [`Shape`].
#[verifier::external_body]
fn text_at(events: &Vec<Event<'_>>, i: usize) -> (r: String)
    requires
        i < events@.len(),
    ensures
        r@ == shapes_in(*events)[i as int].text,
{
    match &events[i] {
        Event::Text(text) | Event::Code(text) | Event::InlineHtml(text) | Event::Html(text) => {
            text.to_string()
        }
        Event::Start(pulldown_cmark::Tag::Link { dest_url, .. })
        | Event::Start(pulldown_cmark::Tag::Image { dest_url, .. }) => dest_url.to_string(),
        Event::Start(pulldown_cmark::Tag::CodeBlock(CodeBlockKind::Fenced(info))) => {
            info.to_string()
        }
        _ => String::new(),
    }
}

/// `pulldown_cmark::Event`: the number the `i`-th event carries; see
/// [`Shape`].
#[verifier::external_body]
fn number_at(events: &Vec<Event<'_>>, i: usize) -> (r: Option<u64>)
    requires
        i < events@.len(),
    ensures
        r == shapes_in(*events)[i as int].number,
{
    match &events[i] {
        Event::Start(pulldown_cmark::Tag::List(first)) => *first,
        Event::Start(pulldown_cmark::Tag::Heading { level, .. }) => Some(*level as u64),
        _ => None,
    }
}

/// Which event the `i`-th one is.
fn mark_at(events: &Vec<Event<'_>>, i: usize) -> (r: Mark)
    requires
        i < events@.len(),
    ensures
        r == shapes_in(*events)[i as int].mark,
{
    match inline_tag_at(events, i) {
        Some((true, tag)) => {
            return Mark::Open(tag);
        },
        Some((false, tag)) => {
            return Mark::Close(tag);
        },
        None => {},
    }
    match block_tag_at(events, i) {
        Some((true, tag)) => Mark::Open(tag),
        Some((false, tag)) => Mark::Close(tag),
        None => leaf_at(events, i),
    }
}

/// Every event of a markdown source, as plain values.
pub fn parse(source: &str, extensions: Extensions) -> (out: Vec<MdEvent>)
    ensures
        event_views(out@) == markdown_events(source@, extensions),
{
    let (events, ranges) = read_markdown(source, extensions);
    let mut out: Vec<MdEvent> = Vec::new();
    let mut i: usize = 0;
    while i < events.len()
        invariant
            i <= events@.len(),
            events@.len() == ranges@.len(),
            out@.len() == i,
            forall|k: int|
                0 <= k < i ==> (#[trigger] out@[k])@ == placed_at(shapes_in(events)[k], ranges@[k]),
        decreases events.len() - i,
    {
        out.push(
            MdEvent {
                mark: mark_at(&events, i),
                text: text_at(&events, i),
                number: number_at(&events, i),
                start: ranges[i].start,
                end: ranges[i].end,
            },
        );
        i += 1;
    }
    assert(event_views(out@) =~= markdown_events(source@, extensions));
    out
}

} // verus!
