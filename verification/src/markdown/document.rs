//! The width-independent half's cache: each top-level block's styled lines,
//! kept for as long as its source and the theme stay the same.
//!
//! A streamed delta reads the whole part again, because block boundaries are
//! not prefix-stable in markdown, but only blocks whose source actually changed
//! are styled again. A call that changed neither the part nor the theme does
//! not even read, which is what makes a resize free here.

use std::collections::hash_map::DefaultHasher;
use std::hash::{BuildHasher, BuildHasherDefault};

use vstd::prelude::*;

use crate::markdown::code::{self, resolve_language, RegionView, Syntaxes};
use crate::markdown::events::{self, parse, EventView, Extensions, Mark, MdEvent, Tag};
use crate::markdown::styles::Styles;
use crate::markdown::walk::{self, Context, Walker};
use crate::markdown::wrap::{self, LineView, MdLine};
use crate::text::{self, from_chars, slice_bytes, to_chars, trim_end_of_chars};
use crate::theme::Theme;

verus! {

/// The hash of a text, as std's default hasher with its default keys has it.
pub uninterp spec fn hash_of(s: Seq<char>) -> u64;

/// `BuildHasher::hash_one` of a `DefaultHasher` made without a seed: the same
/// text always has the same hash. The number is named, not described.
#[verifier::external_body]
fn hash(source: &str) -> (h: u64)
    ensures
        h == hash_of(source@),
{
    BuildHasherDefault::<DefaultHasher>::default().hash_one(source)
}

/// The extensions assistant markdown is read with.
pub open spec fn extensions() -> Extensions {
    Extensions { tables: true, strikethrough: true, tasklists: true }
}

/// The events of a part.
pub open spec fn part_events(source: Seq<char>) -> Seq<EventView> {
    events::markdown_events(source, extensions())
}

/// Where top-level blocks lie in an event stream, from its front on: those
/// that are complete, how deep the nesting is, and where the block under way
/// starts.
pub struct Segments {
    pub blocks: Seq<(int, int)>,
    pub depth: nat,
    pub start: int,
}

/// The segments of the first `n` events.
pub open spec fn segmented(events: Seq<EventView>, n: int) -> Segments
    decreases n,
{
    if n <= 0 {
        Segments { blocks: Seq::empty(), depth: 0, start: 0 }
    } else {
        let front = segmented(events, n - 1);
        let index = n - 1;
        match events[index].mark {
            Mark::Open(_) => Segments {
                depth: front.depth + 1,
                start: if front.depth == 0 {
                    index
                } else {
                    front.start
                },
                ..front
            },
            Mark::Close(_) => if front.depth <= 1 {
                Segments { depth: 0, blocks: front.blocks.push((front.start, n)), ..front }
            } else {
                Segments { depth: (front.depth - 1) as nat, ..front }
            },
            // A rule, or another leaf: a whole block in one event.
            _ => if front.depth == 0 {
                Segments { blocks: front.blocks.push((index, n)), ..front }
            } else {
                front
            },
        }
    }
}

/// Every complete block is a non-empty run of the events.
pub proof fn law_blocks_lie_within_the_events(events: Seq<EventView>, n: int)
    requires
        0 <= n <= events.len(),
    ensures
        0 <= segmented(events, n).start <= n,
        n > 0 ==> segmented(events, n).start < n,
        segmented(events, n).depth <= n,
        segmented(events, n).blocks.len() <= n,
        forall|i: int|
            0 <= i < segmented(events, n).blocks.len() ==> {
                let block = #[trigger] segmented(events, n).blocks[i];
                0 <= block.0 < block.1 <= n
            },
    decreases n,
{
    if n > 0 {
        law_blocks_lie_within_the_events(events, n - 1);
    }
}

/// One span of events per top-level block; see [`segmented`].
fn segment(events: &Vec<MdEvent>) -> (blocks: Vec<(usize, usize)>)
    ensures
        ({
            let spans = segmented(events::event_views(events@), events@.len() as int).blocks;
            &&& blocks@.len() == spans.len()
            &&& forall|i: int|
                0 <= i < spans.len() ==> (#[trigger] blocks@[i]).0 == spans[i].0 && blocks@[i].1
                    == spans[i].1
        }),
        forall|i: int|
            0 <= i < blocks@.len() ==> (#[trigger] blocks@[i]).0 < blocks@[i].1 <= events@.len(),
{
    let mut blocks: Vec<(usize, usize)> = Vec::new();
    let mut depth: usize = 0;
    let mut start: usize = 0;
    let mut n: usize = 0;
    let ghost all = events::event_views(events@);
    while n < events.len()
        invariant
            n <= events@.len(),
            all == events::event_views(events@),
            depth == segmented(all, n as int).depth,
            start == segmented(all, n as int).start,
            blocks@.len() == segmented(all, n as int).blocks.len(),
            forall|i: int|
                0 <= i < blocks@.len() ==> (#[trigger] blocks@[i]).0 == segmented(
                    all,
                    n as int,
                ).blocks[i].0 && blocks@[i].1 == segmented(all, n as int).blocks[i].1,
        decreases events.len() - n,
    {
        proof {
            law_blocks_lie_within_the_events(all, n as int);
            assert(all[n as int].mark == events@[n as int].mark);
        }
        match events[n].mark {
            Mark::Open(_) => {
                if depth == 0 {
                    start = n;
                }
                depth += 1;
            },
            Mark::Close(_) => {
                if depth <= 1 {
                    depth = 0;
                    blocks.push((start, n + 1));
                } else {
                    depth -= 1;
                }
            },
            _ => {
                if depth == 0 {
                    blocks.push((n, n + 1));
                }
            },
        }
        n += 1;
    }
    proof {
        law_blocks_lie_within_the_events(all, n as int);
        assert forall|i: int| 0 <= i < blocks@.len() implies (#[trigger] blocks@[i]).0 < blocks@[i].1
            <= events@.len() by {
            let block = segmented(all, n as int).blocks[i];
        }
    }
    blocks
}

/// The source a top-level block covers, without the blank lines that follow
/// it, so that appending to a document does not change an earlier block's key.
pub open spec fn block_text(source: Seq<char>, event: EventView) -> Seq<char> {
    match text::byte_slice(source, event.start, event.end) {
        Some(part) => text::trim_end_of(part, '\n'),
        None => Seq::empty(),
    }
}

/// The source a top-level block covers; see [`block_text`].
fn block_source(source: &str, event: &MdEvent) -> (s: String)
    ensures
        s@ == block_text(source@, event@),
{
    match slice_bytes(source, event.start, event.end) {
        Some(part) => from_chars(&trim_end_of_chars(&to_chars(part), '\n')),
        None => String::new(),
    }
}

/// One top-level block's lines, and the hash of the source they were rendered
/// from.
#[derive(Debug)]
struct Cached {
    source: u64,
    lines: Vec<MdLine>,
}

/// A cached block as the contracts speak of it.
pub struct CachedView {
    pub source: u64,
    pub lines: Seq<LineView>,
}

/// A document as the contracts speak of it.
pub struct DocumentView {
    pub blocks: Seq<CachedView>,
    pub source: Option<u64>,
    pub revision: Option<u64>,
    pub styled: nat,
    pub parsed: nat,
}

/// A count and a number more, as far as the machine can count.
pub open spec fn counted(count: nat, more: nat) -> nat {
    if count + more <= usize::MAX {
        count + more
    } else {
        usize::MAX as nat
    }
}

/// What a fence of the events asks the grammars for.
pub open spec fn names_language(event: EventView) -> bool {
    event.mark == Mark::Open(Tag::CodeBlock) && match text::first_word(event.text) {
        Some(word) => code::language(word) is Some,
        None => false,
    }
}

/// Whether any of the events names a language.
pub open spec fn needs_grammars(events: Seq<EventView>) -> bool {
    exists|i: int| 0 <= i < events.len() && names_language(#[trigger] events[i])
}

/// The context one block of a part is rendered in.
pub open spec fn block_context(
    source: Seq<char>,
    theme: Theme,
    table: Map<(Seq<char>, Seq<Seq<char>>), Seq<Seq<RegionView>>>,
    span: (int, int),
) -> Context {
    Context {
        styles: Styles::of(theme),
        source,
        events: part_events(source).subrange(span.0, span.1),
        table,
    }
}

/// The key of one block of a part.
pub open spec fn block_key(source: Seq<char>, span: (int, int)) -> u64 {
    hash_of(block_text(source, part_events(source)[span.0]))
}

/// One block of a part, freshly rendered.
pub open spec fn fresh_block(
    source: Seq<char>,
    theme: Theme,
    table: Map<(Seq<char>, Seq<Seq<char>>), Seq<Seq<RegionView>>>,
    span: (int, int),
) -> CachedView {
    let context = block_context(source, theme, table, span);
    CachedView {
        source: block_key(source, span),
        lines: walk::block(context, context.styles.text, 0).0,
    }
}

/// Whether the `i`-th block is still the one that was kept.
pub open spec fn is_kept(kept: Seq<CachedView>, i: int, key: u64) -> bool {
    i < kept.len() && kept[i].source == key
}

/// The spans of a part's blocks.
pub open spec fn part_blocks(source: Seq<char>) -> Seq<(int, int)> {
    segmented(part_events(source), part_events(source).len() as int).blocks
}

/// How many of the first `n` blocks have to be styled again.
pub open spec fn restyled(kept: Seq<CachedView>, source: Seq<char>, n: int) -> nat
    decreases n,
{
    if n <= 0 {
        0
    } else if is_kept(kept, n - 1, block_key(source, part_blocks(source)[n - 1])) {
        restyled(kept, source, n - 1)
    } else {
        restyled(kept, source, n - 1) + 1
    }
}

/// The blocks of a part, those that were kept and did not change as they are,
/// the others freshly rendered.
pub open spec fn refreshed_blocks(
    kept: Seq<CachedView>,
    source: Seq<char>,
    theme: Theme,
    table: Map<(Seq<char>, Seq<Seq<char>>), Seq<Seq<RegionView>>>,
) -> Seq<CachedView> {
    let spans = part_blocks(source);
    Seq::new(
        spans.len(),
        |i: int|
            if is_kept(kept, i, block_key(source, spans[i])) {
                kept[i]
            } else {
                fresh_block(source, theme, table, spans[i])
            },
    )
}

impl DocumentView {
    /// Whether this part and this theme are the ones last read.
    pub open spec fn is_current(self, source: Seq<char>, theme: Theme) -> bool {
        self.source == Some(hash_of(source)) && self.revision == Some(theme.revision)
    }

    /// What is kept under a theme: everything under the one last used, nothing
    /// under another.
    pub open spec fn kept(self, theme: Theme) -> Seq<CachedView> {
        if self.revision == Some(theme.revision) {
            self.blocks
        } else {
            Seq::empty()
        }
    }

    /// The document after reading a part under a theme.
    pub open spec fn updated(
        self,
        source: Seq<char>,
        theme: Theme,
        table: Map<(Seq<char>, Seq<Seq<char>>), Seq<Seq<RegionView>>>,
    ) -> DocumentView {
        if self.is_current(source, theme) {
            self
        } else {
            let kept = self.kept(theme);
            DocumentView {
                blocks: refreshed_blocks(kept, source, theme, table),
                source: Some(hash_of(source)),
                revision: Some(theme.revision),
                styled: counted(
                    self.styled,
                    restyled(kept, source, part_blocks(source).len() as int),
                ),
                parsed: counted(self.parsed, 1),
            }
        }
    }
}

/// Every line of a run of blocks, one blank line between two blocks.
pub open spec fn block_lines(blocks: Seq<CachedView>) -> Seq<LineView>
    decreases blocks.len(),
{
    if blocks.len() == 0 {
        Seq::empty()
    } else if blocks.len() == 1 {
        blocks[0].lines
    } else {
        block_lines(blocks.drop_last()).push(walk::blank()) + blocks.last().lines
    }
}

/// The cache for one assistant text part.
#[derive(Debug)]
pub struct Document {
    blocks: Vec<Cached>,
    /// The whole part's source, so that a call which changed nothing costs a
    /// hash rather than a parse.
    source: Option<u64>,
    /// The theme revision every block's styles were resolved under.
    revision: Option<u64>,
    separator: MdLine,
    styled: usize,
    parsed: usize,
}

/// The views of cached blocks.
spec fn cached_views(blocks: Seq<Cached>) -> Seq<CachedView> {
    Seq::new(
        blocks.len(),
        |i: int| CachedView { source: blocks[i].source, lines: wrap::md_views(blocks[i].lines@) },
    )
}

impl View for Document {
    type V = DocumentView;

    closed spec fn view(&self) -> DocumentView {
        DocumentView {
            blocks: cached_views(self.blocks@),
            source: self.source,
            revision: self.revision,
            styled: self.styled as nat,
            parsed: self.parsed as nat,
        }
    }
}

impl Default for Document {
    fn default() -> (d: Document)
        ensures
            d.well_formed(),
            d@ == (DocumentView {
                blocks: Seq::empty(),
                source: None,
                revision: None,
                styled: 0,
                parsed: 0,
            }),
    {
        let d = Document {
            blocks: Vec::new(),
            source: None,
            revision: None,
            separator: MdLine::blank(),
            styled: 0,
            parsed: 0,
        };
        assert(cached_views(d.blocks@) =~= Seq::empty());
        d
    }
}

/// Whether any of the events names a language; see [`needs_grammars`].
fn names_any_language(events: &Vec<MdEvent>) -> (r: bool)
    ensures
        r == needs_grammars(events::event_views(events@)),
{
    let ghost all = events::event_views(events@);
    let mut i: usize = 0;
    while i < events.len()
        invariant
            i <= events@.len(),
            all == events::event_views(events@),
            forall|k: int| 0 <= k < i ==> !names_language(#[trigger] all[k]),
        decreases events.len() - i,
    {
        assert(all[i as int] == events@[i as int]@);
        if events[i].mark == Mark::Open(Tag::CodeBlock) {
            if let Some(word) = text::first_word_of(&to_chars(&events[i].text)) {
                let word = from_chars(&word);
                if resolve_language(&word).is_some() {
                    assert(names_language(all[i as int]));
                    return true;
                }
            }
        }
        i += 1;
    }
    false
}

impl Document {
    /// What blocks are separated by is a blank line.
    pub closed spec fn well_formed(&self) -> bool {
        self.separator@ == walk::blank()
    }

    /// Reads `source` again, styling only the blocks that changed.
    pub fn update(&mut self, source: &str, theme: &Theme, syntaxes: &mut Syntaxes)
        requires
            old(self).well_formed(),
        ensures
            final(self).well_formed(),
            final(self)@ == old(self)@.updated(source@, *theme, final(syntaxes).table()),
            old(syntaxes).is_loaded() || old(self)@.is_current(source@, *theme)
                || !needs_grammars(part_events(source@)) ==> final(syntaxes).is_loaded()
                == old(syntaxes).is_loaded() && final(syntaxes).table() == old(syntaxes).table(),
            !old(self)@.is_current(source@, *theme) && needs_grammars(part_events(source@))
                ==> final(syntaxes).is_loaded(),
    {
        let whole = hash(source);
        let same_source = match self.source {
            Some(h) => h == whole,
            None => false,
        };
        let same_theme = match self.revision {
            Some(r) => r == theme.revision,
            None => false,
        };
        if same_source && same_theme {
            return;
        }
        let mut previous: Vec<Cached> = Vec::new();
        if same_theme {
            std::mem::swap(&mut previous, &mut self.blocks);
        }
        let ghost kept = cached_views(previous@);
        proof {
            assert(kept =~= old(self)@.kept(*theme));
        }
        let styles = Styles::new(theme);
        let events = parse(
            source,
            Extensions { tables: true, strikethrough: true, tasklists: true },
        );
        if names_any_language(&events) {
            syntaxes.load();
        }
        let ghost all = part_events(source@);
        let ghost table = syntaxes.table();
        let spans = segment(&events);
        let mut blocks: Vec<Cached> = Vec::new();
        let mut styled: usize = self.styled;
        let mut i: usize = 0;
        assert(kept.skip(0) =~= kept);
        assert(cached_views(blocks@) =~= Seq::empty());
        while i < spans.len()
            invariant
                i <= spans@.len(),
                all == part_events(source@),
                all == events::event_views(events@),
                spans@.len() == part_blocks(source@).len(),
                forall|k: int|
                    0 <= k < spans@.len() ==> (#[trigger] spans@[k]).0 == part_blocks(source@)[k].0
                        && spans@[k].1 == part_blocks(source@)[k].1,
                forall|k: int|
                    0 <= k < spans@.len() ==> (#[trigger] spans@[k]).0 < spans@[k].1
                        <= events@.len(),
                styles == Styles::of(*theme),
                table == syntaxes.table(),
                cached_views(previous@) == (if i < kept.len() {
                    kept.skip(i as int)
                } else {
                    Seq::empty()
                }),
                blocks@.len() == i,
                forall|k: int|
                    0 <= k < i ==> #[trigger] cached_views(blocks@)[k] == refreshed_blocks(
                        kept,
                        source@,
                        *theme,
                        table,
                    )[k],
                styled == counted(old(self).styled as nat, restyled(kept, source@, i as int)),
            decreases spans.len() - i,
        {
            let (start, end) = spans[i];
            let ghost span = part_blocks(source@)[i as int];
            proof {
                assert(span.0 == start && span.1 == end);
                assert(all[start as int] == events@[start as int]@);
            }
            let key = hash(&block_source(source, &events[start]));
            assert(key == block_key(source@, span));
            let ghost was = blocks@;
            let slot: Option<Cached> = if previous.len() > 0 {
                let ghost before = previous@;
                let first = previous.remove(0);
                proof {
                    assert(cached_views(before).len() > 0);
                    assert(cached_views(before)[0] == kept.skip(i as int)[0]);
                    assert(previous@ =~= before.skip(1));
                    assert(cached_views(previous@) =~= cached_views(before).skip(1));
                    assert(kept.skip(i as int).skip(1) =~= kept.skip(i + 1));
                    if i + 1 >= kept.len() {
                        assert(kept.skip(i + 1) =~= Seq::empty());
                    }
                }
                Some(first)
            } else {
                assert(cached_views(previous@).len() == 0);
                None
            };
            let unchanged = match &slot {
                Some(cached) => cached.source == key,
                None => false,
            };
            assert(unchanged == is_kept(kept, i as int, key));
            let block = if unchanged {
                slot.unwrap()
            } else {
                styled = styled.saturating_add(1);
                let walker = Walker {
                    events: vstd::slice::slice_subrange(events.as_slice(), start, end),
                    source,
                    styles: &styles,
                    syntaxes: &*syntaxes,
                };
                proof {
                    assert(walker.context().events =~= all.subrange(span.0, span.1));
                    assert(walker.context() == block_context(source@, *theme, table, span));
                }
                let (lines, _) = walker.block(styles.text, 0);
                Cached { source: key, lines }
            };
            let ghost block_view = CachedView {
                source: block.source,
                lines: wrap::md_views(block.lines@),
            };
            blocks.push(block);
            proof {
                let done = refreshed_blocks(kept, source@, *theme, table);
                assert(block_view == done[i as int]);
                assert forall|k: int| 0 <= k < i + 1 implies #[trigger] cached_views(blocks@)[k]
                    == done[k] by {
                    if k < i {
                        assert(cached_views(was)[k] == done[k]);
                        assert(cached_views(blocks@)[k] == cached_views(was)[k]);
                    }
                }
            }
            i += 1;
        }
        assert(cached_views(blocks@) =~= refreshed_blocks(kept, source@, *theme, table));
        self.blocks = blocks;
        self.source = Some(whole);
        self.revision = Some(theme.revision);
        self.styled = styled;
        self.parsed = self.parsed.saturating_add(1);
    }

    /// Every rendered line, blocks separated by one blank line.
    pub fn lines(&self) -> (out: Vec<&MdLine>)
        requires
            self.well_formed(),
        ensures
            Seq::new(out@.len(), |i: int| out@[i]@) == block_lines(self@.blocks),
    {
        let mut out: Vec<&MdLine> = Vec::new();
        let ghost all = self@.blocks;
        let mut i: usize = 0;
        assert(Seq::new(out@.len(), |k: int| out@[k]@) =~= Seq::empty());
        while i < self.blocks.len()
            invariant
                i <= self.blocks@.len(),
                self.well_formed(),
                all == self@.blocks,
                Seq::new(out@.len(), |k: int| out@[k]@) == block_lines(all.take(i as int)),
            decreases self.blocks.len() - i,
        {
            let ghost shown = Seq::new(out@.len(), |k: int| out@[k]@);
            if i > 0 {
                out.push(&self.separator);
            }
            let ghost opened = Seq::new(out@.len(), |k: int| out@[k]@);
            proof {
                assert(i > 0 ==> opened =~= shown.push(walk::blank()));
                assert(i == 0 ==> opened =~= shown);
            }
            let lines = &self.blocks[i].lines;
            let ghost added = wrap::md_views(lines@);
            let mut k: usize = 0;
            assert(Seq::new(out@.len(), |k: int| out@[k]@) =~= opened + added.take(0));
            while k < lines.len()
                invariant
                    k <= lines@.len(),
                    added == wrap::md_views(lines@),
                    Seq::new(out@.len(), |j: int| out@[j]@) == opened + added.take(k as int),
                decreases lines.len() - k,
            {
                let ghost before = Seq::new(out@.len(), |j: int| out@[j]@);
                out.push(&lines[k]);
                assert(Seq::new(out@.len(), |j: int| out@[j]@) =~= before.push(added[k as int]));
                assert(added.take(k + 1) =~= added.take(k as int).push(added[k as int]));
                assert(before.push(added[k as int]) =~= opened + added.take(k + 1));
                k += 1;
            }
            proof {
                assert(added.take(k as int) =~= added);
                let next = all.take(i + 1);
                assert(next.drop_last() =~= all.take(i as int));
                assert(next.last().lines == added);
                if i == 0 {
                    assert(opened =~= Seq::empty());
                    assert(next[0].lines == added);
                    assert(opened + added =~= added);
                }
            }
            i += 1;
        }
        assert(all.take(i as int) =~= all);
        out
    }

    /// How many blocks this document has styled since it was created.
    pub fn styled(&self) -> (n: usize)
        ensures
            n == self@.styled,
    {
        self.styled
    }

    /// How many times this document has walked the parser.
    pub fn parsed(&self) -> (n: usize)
        ensures
            n == self@.parsed,
    {
        self.parsed
    }
}

/// Reading the same part under the same theme again changes nothing at all:
/// neither the parser nor the styler runs.
pub proof fn law_reading_again_changes_nothing(
    document: DocumentView,
    source: Seq<char>,
    theme: Theme,
    table: Map<(Seq<char>, Seq<Seq<char>>), Seq<Seq<RegionView>>>,
    again: Map<(Seq<char>, Seq<Seq<char>>), Seq<Seq<RegionView>>>,
)
    ensures
        document.updated(source, theme, table).updated(source, theme, again) == document.updated(
            source,
            theme,
            table,
        ),
{
}

/// A theme switch styles every block of the part again.
pub proof fn law_theme_switch_restyles_everything(
    document: DocumentView,
    source: Seq<char>,
    theme: Theme,
    table: Map<(Seq<char>, Seq<Seq<char>>), Seq<Seq<RegionView>>>,
)
    requires
        document.revision != Some(theme.revision),
    ensures
        document.updated(source, theme, table).styled == counted(
            document.styled,
            part_blocks(source).len(),
        ),
        forall|i: int|
            0 <= i < part_blocks(source).len() ==> #[trigger] document.updated(
                source,
                theme,
                table,
            ).blocks[i] == fresh_block(source, theme, table, part_blocks(source)[i]),
{
    lemma_nothing_kept(source, part_blocks(source).len() as int);
}

proof fn lemma_nothing_kept(source: Seq<char>, n: int)
    ensures
        restyled(Seq::empty(), source, n) == if n <= 0 {
            0
        } else {
            n as nat
        },
    decreases n,
{
    if n > 0 {
        lemma_nothing_kept(source, n - 1);
    }
}

/// A block whose source did not change is kept as it was, and only the others
/// are counted as styled.
pub proof fn law_unchanged_blocks_are_kept(
    document: DocumentView,
    source: Seq<char>,
    theme: Theme,
    table: Map<(Seq<char>, Seq<Seq<char>>), Seq<Seq<RegionView>>>,
    i: int,
)
    requires
        document.revision == Some(theme.revision),
        0 <= i < part_blocks(source).len(),
        i < document.blocks.len(),
        document.blocks[i].source == block_key(source, part_blocks(source)[i]),
        !document.is_current(source, theme),
    ensures
        document.updated(source, theme, table).blocks[i] == document.blocks[i],
        restyled(document.blocks, source, i + 1) == restyled(document.blocks, source, i),
{
}

/// Two runs of blocks drawn one behind the other have exactly one blank line
/// between them.
pub proof fn law_one_blank_line_between_blocks(a: Seq<CachedView>, b: Seq<CachedView>)
    requires
        a.len() > 0,
        b.len() > 0,
    ensures
        block_lines(a + b) == block_lines(a).push(walk::blank()) + block_lines(b),
    decreases b.len(),
{
    let both = a + b;
    assert(both.last() == b.last());
    if b.len() == 1 {
        assert(both.drop_last() =~= a);
        assert(block_lines(both) =~= block_lines(a).push(walk::blank()) + b[0].lines);
    } else {
        law_one_blank_line_between_blocks(a, b.drop_last());
        assert(both.drop_last() =~= a + b.drop_last());
        assert(block_lines(both) =~= block_lines(a).push(walk::blank()) + block_lines(b));
    }
}

} // verus!
