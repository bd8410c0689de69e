//! The inline skill menu that opens when a prompt invokes a skill with `$`.
//!
//! The fragment typed behind the sigil narrows the skills and ranks them: the
//! name counts double, the description counts as it is, and ties break on the
//! name, so that a fragment always produces the same list.

use vstd::prelude::*;

use crate::component::layout::{self, clamped, clip, line};
use crate::mention::{Fragment, FragmentView};
use crate::rank;
use crate::style::{Line, SpanView};
use crate::text::{self, earlier, is_earlier, str_eq, to_chars};
use crate::theme::Theme;

verus! {

/// The longest text the matcher is asked to search, in characters.
pub const LONGEST: usize = 0x3fff_ffff;

/// The longest needle the matcher is asked to score, in characters.
pub const LONGEST_NEEDLE: usize = 2520;

/// How well a needle matches a text, as the `nucleo-matcher` crate scores it;
/// none where it does not match.
pub uninterp spec fn fuzzy(needle: Seq<char>, text: Seq<char>) -> Option<u16>;

/// `nucleo_matcher::pattern::Atom::score`: how well `needle` matches `text`,
/// fuzzily, ignoring case, with smart normalization and the default
/// configuration. The score is named, not described. The matcher panics on a
/// text beyond `u32::MAX` of its units, which are bytes at worst, so a longer
/// text than [`LONGEST`] is left out. It adds up to 36 to a sixteen-bit score for
/// the first character of the needle and up to 26 for each other, unchecked, so
/// a longer needle than [`LONGEST_NEEDLE`] is left out too.
#[verifier::external_body]
fn fuzzy_score(needle: &str, text: &str) -> (score: Option<u16>)
    requires
        needle@.len() <= LONGEST_NEEDLE,
        text@.len() <= LONGEST,
    ensures
        score == fuzzy(needle@, text@),
{
    let atom = nucleo_matcher::pattern::Atom::new(
        needle,
        nucleo_matcher::pattern::CaseMatching::Ignore,
        nucleo_matcher::pattern::Normalization::Smart,
        nucleo_matcher::pattern::AtomKind::Fuzzy,
        false,
    );
    let mut matcher = nucleo_matcher::Matcher::new(nucleo_matcher::Config::DEFAULT);
    let mut buffer = Vec::new();
    atom.score(nucleo_matcher::Utf32Str::new(text, &mut buffer), &mut matcher)
}

/// A skill on offer.
#[derive(Clone, Debug, PartialEq, Eq)]
pub struct Skill {
    pub name: String,
    pub description: Option<String>,
}

/// A row as the contracts speak of it: the name and what is said of it.
pub struct RowView {
    pub name: Seq<char>,
    pub described: Seq<char>,
}

/// The views of rows.
pub open spec fn row_views(rows: Seq<(String, String)>) -> Seq<RowView> {
    Seq::new(rows.len(), |i: int| RowView { name: rows[i].0@, described: rows[i].1@ })
}

/// What the second column of a skill says: where it came from, then what it is.
pub open spec fn described(skill: Skill, source: Seq<char>) -> Seq<char> {
    "("@ + source + (match skill.description {
        Some(description) => ") "@ + description@,
        None => ")"@,
    })
}

/// The rows of skills, in the order they were discovered in.
pub open spec fn rows_of(skills: Seq<(Skill, String)>) -> Seq<RowView> {
    Seq::new(
        skills.len(),
        |i: int|
            RowView {
                name: skills[i].0.name@,
                described: described(skills[i].0, skills[i].1@),
            },
    )
}

/// What a skill scores, given how well its name and its description match: the
/// better of the name's score twice and the description's once; none where
/// neither matches.
pub open spec fn combined(name: Option<u16>, description: Option<u16>) -> Option<u32> {
    match (name, description) {
        (Some(name), Some(description)) => Some(
            if 2 * name >= description {
                (2 * name) as u32
            } else {
                description as u32
            },
        ),
        (Some(name), None) => Some((2 * name) as u32),
        (None, Some(description)) => Some(description as u32),
        (None, None) => None,
    }
}

/// What a skill scores; see [`combined`].
pub fn combine(name: Option<u16>, description: Option<u16>) -> (score: Option<u32>)
    ensures
        score == combined(name, description),
{
    match (name, description) {
        (Some(name), Some(description)) => {
            let doubled: u32 = name as u32 * 2;
            Some(
                if doubled >= description as u32 {
                    doubled
                } else {
                    description as u32
                },
            )
        },
        (Some(name), None) => Some(name as u32 * 2),
        (None, Some(description)) => Some(description as u32),
        (None, None) => None,
    }
}

/// The positions of the first `n` rows that score at all.
pub open spec fn scoring(scores: Seq<Option<u32>>, n: nat) -> Seq<int>
    decreases n,
{
    if n == 0 {
        Seq::empty()
    } else {
        let front = scoring(scores, (n - 1) as nat);
        if scores[n - 1] is Some {
            front.push(n - 1)
        } else {
            front
        }
    }
}

/// What ranks one of the scoring rows before another: the higher score, and the
/// earlier name among equals.
pub open spec fn better(
    rows: Seq<RowView>,
    scores: Seq<Option<u32>>,
    hits: Seq<int>,
) -> spec_fn(int, int) -> bool {
    |i: int, j: int|
        {
            let a = scores[hits[i]].unwrap();
            let b = scores[hits[j]].unwrap();
            a > b || (a == b && earlier(rows[hits[i]].name, rows[hits[j]].name))
        }
}

/// The rows that score, ranked.
pub open spec fn ranked_rows(rows: Seq<RowView>, scores: Seq<Option<u32>>) -> Seq<RowView> {
    let hits = scoring(scores, rows.len());
    let order = rank::ranking(hits.len(), better(rows, scores, hits));
    Seq::new(order.len(), |k: int| rows[hits[order[k]]])
}

/// What each of the rows scores for a needle.
pub open spec fn scores_for(needle: Seq<char>, rows: Seq<RowView>) -> Seq<Option<u32>> {
    Seq::new(
        rows.len(),
        |i: int| combined(fuzzy(needle, rows[i].name), fuzzy(needle, rows[i].described)),
    )
}

/// Skills narrowed to a needle and ranked, or all of them in discovery order
/// when nothing has been typed yet. A needle longer than any the matcher scores
/// matches none.
pub open spec fn narrowed(needle: Seq<char>, skills: Seq<(Skill, String)>) -> Seq<RowView> {
    let rows = rows_of(skills);
    if needle.len() == 0 {
        rows
    } else if needle.len() > LONGEST_NEEDLE {
        Seq::empty()
    } else {
        ranked_rows(rows, scores_for(needle, rows))
    }
}

proof fn lemma_scoring(scores: Seq<Option<u32>>, n: nat)
    requires
        n <= scores.len(),
    ensures
        forall|k: int|
            0 <= k < scoring(scores, n).len() ==> 0 <= (#[trigger] scoring(scores, n)[k]) < n
                && scores[scoring(scores, n)[k]] is Some,
        forall|i: int|
            0 <= i < n && (#[trigger] scores[i]) is Some ==> scoring(scores, n).contains(i),
        scoring(scores, n).len() <= n,
    decreases n,
{
    if n > 0 {
        lemma_scoring(scores, (n - 1) as nat);
        let front = scoring(scores, (n - 1) as nat);
        let hits = scoring(scores, n);
        assert forall|k: int| 0 <= k < hits.len() implies 0 <= (#[trigger] hits[k]) < n
            && scores[hits[k]] is Some by {
            if k < front.len() {
                assert(hits[k] == front[k]);
            }
        }
        assert forall|i: int| 0 <= i < n && (#[trigger] scores[i]) is Some implies hits.contains(
            i,
        ) by {
            if i < n - 1 {
                let k = choose|k: int| 0 <= k < front.len() && front[k] == i;
                assert(hits[k] == i);
            } else {
                assert(hits[hits.len() - 1] == i);
            }
        }
    }
}

proof fn lemma_better_orders(rows: Seq<RowView>, scores: Seq<Option<u32>>, hits: Seq<int>)
    ensures
        rank::orders(hits.len(), better(rows, scores, hits)),
{
    let before = better(rows, scores, hits);
    assert forall|i: int, j: int|
        0 <= i < hits.len() && 0 <= j < hits.len() && #[trigger] before(i, j) implies !before(
        j,
        i,
    ) by {
        text::lemma_earlier_asymmetric(rows[hits[i]].name, rows[hits[j]].name);
    }
    assert forall|i: int, j: int, k: int|
        0 <= i < hits.len() && 0 <= j < hits.len() && 0 <= k < hits.len() && !#[trigger] before(
            i,
            j,
        ) && !#[trigger] before(j, k) implies !before(i, k) by {
        if scores[hits[i]].unwrap() == scores[hits[j]].unwrap() && scores[hits[j]].unwrap()
            == scores[hits[k]].unwrap() {
            text::lemma_earlier_carries(
                rows[hits[i]].name,
                rows[hits[j]].name,
                rows[hits[k]].name,
            );
        }
    }
}

/// Exactly the rows that score are listed; and of any two of them the one above
/// scores more, or the same with a name that does not come later.
pub proof fn law_the_list_is_ranked(rows: Seq<RowView>, scores: Seq<Option<u32>>)
    requires
        scores.len() == rows.len(),
    ensures
        ({
            let hits = scoring(scores, rows.len());
            let order = rank::ranking(hits.len(), better(rows, scores, hits));
            &&& ranked_rows(rows, scores).len() == hits.len()
            &&& forall|i: int|
                0 <= i < rows.len() && (#[trigger] scores[i]) is Some ==> ranked_rows(
                    rows,
                    scores,
                ).contains(rows[i])
            &&& forall|a: int, b: int|
                0 <= a < b < order.len() ==> {
                    let upper = #[trigger] order[a];
                    let lower = #[trigger] order[b];
                    &&& scores[hits[upper]].unwrap() >= scores[hits[lower]].unwrap()
                    &&& scores[hits[upper]] == scores[hits[lower]] ==> !earlier(
                        rows[hits[lower]].name,
                        rows[hits[upper]].name,
                    )
                }
        }),
{
    let hits = scoring(scores, rows.len());
    let before = better(rows, scores, hits);
    lemma_scoring(scores, rows.len());
    lemma_better_orders(rows, scores, hits);
    rank::law_a_ranking_is_in_order(hits.len(), before);
    let order = rank::ranking(hits.len(), before);
    let out = ranked_rows(rows, scores);
    assert forall|i: int| 0 <= i < rows.len() && (#[trigger] scores[i]) is Some implies out.contains(
        rows[i],
    ) by {
        let h = choose|h: int| 0 <= h < hits.len() && hits[h] == i;
        assert(order.contains(h));
        let k = choose|k: int| 0 <= k < order.len() && order[k] == h;
        assert(out[k] == rows[i]);
    }
    assert forall|a: int, b: int| 0 <= a < b < order.len() implies {
        let upper = #[trigger] order[a];
        let lower = #[trigger] order[b];
        &&& scores[hits[upper]].unwrap() >= scores[hits[lower]].unwrap()
        &&& scores[hits[upper]] == scores[hits[lower]] ==> !earlier(
            rows[hits[lower]].name,
            rows[hits[upper]].name,
        )
    } by {
        assert(!before(order[b], order[a]));
    }
}

/// Ranks the rows that score; see [`ranked_rows`].
pub fn rank_rows(rows: &Vec<(String, String)>, scores: &Vec<Option<u32>>) -> (out: Vec<
    (String, String),
>)
    requires
        scores@.len() == rows@.len(),
    ensures
        row_views(out@) == ranked_rows(row_views(rows@), scores@),
{
    let ghost views = row_views(rows@);
    let ghost hits = scoring(scores@, views.len());
    let ghost before = better(views, scores@, hits);
    let mut found: Vec<usize> = Vec::new();
    let mut i: usize = 0;
    assert(rank::positions(found@) =~= scoring(scores@, 0));
    while i < rows.len()
        invariant
            i <= rows@.len(),
            scores@.len() == rows@.len(),
            rank::positions(found@) == scoring(scores@, i as nat),
            found@.len() <= i,
        decreases rows.len() - i,
    {
        let ghost was = rank::positions(found@);
        if scores[i].is_some() {
            found.push(i);
            assert(rank::positions(found@) =~= was.push(i as int));
        }
        i += 1;
    }
    proof {
        lemma_scoring(scores@, views.len());
        assert(rank::positions(found@) == hits);
        assert(forall|k: int|
            0 <= k < found@.len() ==> (#[trigger] found@[k]) as int == hits[k]);
    }
    let mut order: Vec<usize> = Vec::new();
    let mut i: usize = 0;
    assert(rank::positions(order@) =~= rank::ranking(0, before));
    while i < found.len()
        invariant
            i <= found@.len(),
            scores@.len() == rows@.len(),
            views == row_views(rows@),
            hits == rank::positions(found@),
            before == better(views, scores@, hits),
            forall|k: int|
                0 <= k < found@.len() ==> (#[trigger] found@[k]) < rows@.len() && found@[k] as int
                    == hits[k] && scores@[found@[k] as int] is Some,
            rank::positions(order@) == rank::ranking(i as nat, before),
            order@.len() == i,
            forall|k: int| 0 <= k < order@.len() ==> #[trigger] order@[k] < i,
        decreases found.len() - i,
    {
        let ghost was = rank::positions(order@);
        let mut at: usize = 0;
        while at < order.len() && !goes_before(rows, scores, found[i], found[order[at]])
            invariant
                at <= order@.len(),
                i < found@.len(),
                order@.len() == i,
                scores@.len() == rows@.len(),
                views == row_views(rows@),
                hits == rank::positions(found@),
                before == better(views, scores@, hits),
                was == rank::positions(order@),
                forall|k: int|
                    0 <= k < found@.len() ==> (#[trigger] found@[k]) < rows@.len() && found@[k]
                        as int == hits[k] && scores@[found@[k] as int] is Some,
                forall|k: int| 0 <= k < order@.len() ==> #[trigger] order@[k] < i,
                forall|k: int| 0 <= k < at ==> !before(i as int, #[trigger] was[k]),
            decreases order.len() - at,
        {
            assert(was[at as int] == order@[at as int]);
            assert(found@[i as int] as int == hits[i as int]);
            assert(found@[order@[at as int] as int] as int == hits[order@[at as int] as int]);
            at += 1;
        }
        proof {
            let place = rank::lemma_placed(was, i as int, before);
            if at < order@.len() {
                assert(was[at as int] == order@[at as int]);
                assert(found@[i as int] as int == hits[i as int]);
                assert(found@[order@[at as int] as int] as int == hits[order@[at as int] as int]);
                assert(before(i as int, was[at as int]));
            }
            if place < at {
                assert(!before(i as int, was[place]));
            }
            if at < place {
                assert(!before(i as int, was[at as int]));
            }
        }
        order.insert(at, i);
        assert(rank::positions(order@) =~= was.take(at as int) + seq![i as int] + was.skip(
            at as int,
        ));
        i += 1;
    }
    let ghost wanted = ranked_rows(views, scores@);
    let mut out: Vec<(String, String)> = Vec::new();
    let mut i: usize = 0;
    while i < order.len()
        invariant
            i <= order@.len(),
            views == row_views(rows@),
            order@.len() == found@.len(),
            hits == rank::positions(found@),
            hits == scoring(scores@, views.len()),
            before == better(views, scores@, hits),
            rank::positions(order@) == rank::ranking(hits.len(), before),
            wanted == ranked_rows(views, scores@),
            forall|k: int| 0 <= k < found@.len() ==> (#[trigger] found@[k]) < rows@.len(),
            forall|k: int| 0 <= k < order@.len() ==> #[trigger] order@[k] < found@.len(),
            row_views(out@) =~= wanted.take(i as int),
        decreases order.len() - i,
    {
        let row = &rows[found[order[i]]];
        assert(rank::positions(order@)[i as int] == order@[i as int]);
        assert(rank::positions(found@)[order@[i as int] as int] == found@[order@[i as int] as int]);
        let ghost was = row_views(out@);
        out.push((row.0.clone(), row.1.clone()));
        assert(row_views(out@) =~= was.push(wanted[i as int]));
        i += 1;
    }
    assert(rank::positions(order@).len() == order@.len());
    assert(row_views(out@) =~= wanted);
    out
}

/// Whether one scoring row ranks before another; see [`better`].
fn goes_before(rows: &Vec<(String, String)>, scores: &Vec<Option<u32>>, i: usize, j: usize) -> (r:
    bool)
    requires
        i < rows@.len(),
        j < rows@.len(),
        scores@.len() == rows@.len(),
        scores@[i as int] is Some,
        scores@[j as int] is Some,
    ensures
        r == ({
            let a = scores@[i as int].unwrap();
            let b = scores@[j as int].unwrap();
            a > b || (a == b && earlier(rows@[i as int].0@, rows@[j as int].0@))
        }),
{
    let a: u32 = match scores[i] {
        Some(a) => a,
        None => 0,
    };
    let b: u32 = match scores[j] {
        Some(b) => b,
        None => 0,
    };
    a > b || (a == b && is_earlier(&rows[i].0, &rows[j].0))
}

/// Whether the matcher can search every row of these skills.
pub open spec fn searchable(skills: Seq<(Skill, String)>) -> bool {
    forall|i: int|
        0 <= i < skills.len() ==> (#[trigger] rows_of(skills)[i]).name.len() <= LONGEST
            && rows_of(skills)[i].described.len() <= LONGEST
}

/// Narrows skills to a needle and ranks them; see [`narrowed`].
pub fn ranked(needle: &str, skills: &Vec<(Skill, String)>) -> (out: Vec<(String, String)>)
    requires
        searchable(skills@),
    ensures
        row_views(out@) == narrowed(needle@, skills@),
{
    let ghost views = rows_of(skills@);
    let mut rows: Vec<(String, String)> = Vec::new();
    let mut i: usize = 0;
    while i < skills.len()
        invariant
            i <= skills@.len(),
            views == rows_of(skills@),
            row_views(rows@) =~= views.take(i as int),
        decreases skills.len() - i,
    {
        let (skill, source) = &skills[i];
        let mut text = String::new();
        text.push_str("(");
        text.push_str(source);
        match &skill.description {
            Some(description) => {
                text.push_str(") ");
                text.push_str(description);
            },
            None => text.push_str(")"),
        }
        assert(text@ =~= described(*skill, source@));
        let ghost was = row_views(rows@);
        rows.push((skill.name.clone(), text));
        assert(row_views(rows@) =~= was.push(views[i as int]));
        i += 1;
    }
    assert(row_views(rows@) =~= views);
    if needle.is_empty() {
        return rows;
    }
    if to_chars(needle).len() > LONGEST_NEEDLE {
        let none: Vec<(String, String)> = Vec::new();
        assert(row_views(none@) =~= Seq::empty());
        return none;
    }
    let mut scores: Vec<Option<u32>> = Vec::new();
    let mut i: usize = 0;
    while i < rows.len()
        invariant
            i <= rows@.len(),
            views == rows_of(skills@),
            views == row_views(rows@),
            searchable(skills@),
            needle@.len() <= LONGEST_NEEDLE,
            scores@ =~= scores_for(needle@, views).take(i as int),
        decreases rows.len() - i,
    {
        assert(views[i as int] == (RowView {
            name: rows@[i as int].0@,
            described: rows@[i as int].1@,
        }));
        assert(rows_of(skills@)[i as int].name.len() <= LONGEST);
        let ghost was = scores@;
        let name = fuzzy_score(needle, &rows[i].0);
        let description = fuzzy_score(needle, &rows[i].1);
        scores.push(combine(name, description));
        assert(scores@ =~= was.push(scores_for(needle@, views)[i as int]));
        i += 1;
    }
    assert(scores@ =~= scores_for(needle@, views));
    rank_rows(&rows, &scores)
}

/// The skills a typed fragment narrowed to, and which one is under the cursor.
#[derive(Clone, Debug)]
pub struct SkillMenu {
    /// The invocation this list was opened for.
    fragment: Fragment,
    /// Names and what is said of them, ranked.
    rows: Vec<(String, String)>,
    /// Index into the rows; in range while there are any.
    selected: usize,
}

/// The menu as the contracts speak of it.
pub struct SkillMenuView {
    pub fragment: FragmentView,
    pub rows: Seq<RowView>,
    pub selected: nat,
}

impl View for SkillMenu {
    type V = SkillMenuView;

    closed spec fn view(&self) -> SkillMenuView {
        SkillMenuView {
            fragment: self.fragment@,
            rows: row_views(self.rows@),
            selected: self.selected as nat,
        }
    }
}

impl SkillMenuView {
    /// Whether the cursor is on a row while there are any.
    pub open spec fn valid(self) -> bool {
        self.rows.len() > 0 ==> self.selected < self.rows.len()
    }

    /// The name under the cursor.
    pub open spec fn chosen(self) -> Option<Seq<char>> {
        if self.selected < self.rows.len() {
            Some(self.rows[self.selected as int].name)
        } else {
            None
        }
    }

    /// The menu after the cursor moved.
    pub open spec fn moved(self, delta: int) -> SkillMenuView {
        SkillMenuView {
            selected: layout::clamped_to(self.selected, delta, self.rows.len()),
            ..self
        }
    }
}

/// However the cursor moves, it stays on a row of the menu and the list stays
/// as it was.
pub proof fn law_the_cursor_stays_on_a_row(menu: SkillMenuView, delta: int)
    requires
        menu.valid(),
    ensures
        menu.moved(delta).valid(),
        menu.moved(delta).rows == menu.rows,
        menu.moved(delta).chosen() is Some == (menu.rows.len() > 0),
{
}

impl SkillMenu {
    /// Opens the menu over skills, each with where it came from, narrowed and
    /// ranked by what was typed.
    pub fn new(fragment: Fragment, skills: &Vec<(Skill, String)>) -> (menu: SkillMenu)
        requires
            searchable(skills@),
        ensures
            menu@ == (SkillMenuView {
                fragment: fragment@,
                rows: narrowed(fragment@.text, skills@),
                selected: 0,
            }),
            menu@.valid(),
    {
        let rows = ranked(&fragment.text, skills);
        SkillMenu { fragment, rows, selected: 0 }
    }

    /// The invocation this list is completing.
    pub fn fragment(&self) -> (f: &Fragment)
        ensures
            f@ == self@.fragment,
    {
        &self.fragment
    }

    /// Whether this list is already the answer for `fragment`.
    pub fn answers(&self, fragment: &Fragment) -> (r: bool)
        ensures
            r == (self@.fragment == fragment@),
    {
        self.fragment.row == fragment.row && self.fragment.start == fragment.start && str_eq(
            &self.fragment.text,
            &fragment.text,
        )
    }

    /// Whether there is nothing to choose from.
    pub fn is_empty(&self) -> (r: bool)
        ensures
            r == (self@.rows.len() == 0),
    {
        self.rows.len() == 0
    }

    /// The rows on offer, best first.
    pub fn rows(&self) -> (rows: &Vec<(String, String)>)
        ensures
            row_views(rows@) == self@.rows,
    {
        &self.rows
    }

    /// The name under the cursor; none when nothing matched.
    pub fn selected(&self) -> (r: Option<&str>)
        ensures
            match r {
                Some(name) => self@.chosen() == Some(name@),
                None => self@.chosen() is None,
            },
    {
        if self.selected < self.rows.len() {
            Some(self.rows[self.selected].0.as_str())
        } else {
            None
        }
    }

    /// Moves the cursor by `delta` rows, stopping at both ends.
    pub fn move_selection(&mut self, delta: isize)
        ensures
            final(self)@ == old(self)@.moved(delta as int),
    {
        self.selected = clamped(self.selected, delta, self.rows.len());
    }

    /// What a menu without rows shows in their place.
    pub fn empty_line(&self, columns: usize, theme: &Theme) -> (r: Option<Line>)
        ensures
            match r {
                Some(l) => self@.rows.len() == 0 && l@ == layout::plain_line(
                    layout::clipped("no matching skills"@, columns as nat),
                    theme.dim,
                ),
                None => self@.rows.len() > 0,
            },
    {
        if self.rows.len() == 0 {
            Some(line(clip("no matching skills", columns), theme.dim))
        } else {
            None
        }
    }
}

/// A name counts twice what a description does, the better of the two counts,
/// and what matches in neither is not listed.
pub proof fn law_a_name_counts_double(name: Option<u16>, description: Option<u16>)
    ensures
        combined(name, description) is None == (name is None && description is None),
        combined(name, description) matches Some(score) ==> {
            &&& name matches Some(n) ==> score >= 2 * n
            &&& description matches Some(d) ==> score >= d
            &&& (name is Some && score == 2 * name->0) || (description is Some && score
                == description->0)
        },
{
}

/// Only the rows that score are listed.
pub proof fn law_what_does_not_match_is_not_listed(
    rows: Seq<RowView>,
    scores: Seq<Option<u32>>,
    k: int,
)
    requires
        scores.len() == rows.len(),
        0 <= k < ranked_rows(rows, scores).len(),
    ensures
        exists|i: int|
            0 <= i < rows.len() && (#[trigger] scores[i]) is Some && ranked_rows(rows, scores)[k]
                == rows[i],
{
    let hits = scoring(scores, rows.len());
    let before = better(rows, scores, hits);
    lemma_scoring(scores, rows.len());
    lemma_better_orders(rows, scores, hits);
    rank::law_a_ranking_is_in_order(hits.len(), before);
    let order = rank::ranking(hits.len(), before);
    let i = hits[order[k]];
    assert(scores[i] is Some);
}

/// A bare sigil lists every skill in its order, each by its name and, in
/// parentheses, where it comes from, with what it says of itself behind.
pub proof fn law_a_bare_sigil_lists_everything(skills: Seq<(Skill, String)>, i: int)
    requires
        0 <= i < skills.len(),
    ensures
        narrowed(Seq::empty(), skills).len() == skills.len(),
        narrowed(Seq::empty(), skills)[i].name == skills[i].0.name@,
        skills[i].0.description matches Some(description) ==> narrowed(
            Seq::empty(),
            skills,
        )[i].described == seq!['('] + skills[i].1@ + seq![')', ' '] + description@,
        skills[i].0.description is None ==> narrowed(Seq::empty(), skills)[i].described == seq!['(']
            + skills[i].1@ + seq![')'],
{
    reveal_strlit("(");
    reveal_strlit(")");
    reveal_strlit(") ");
    assert("("@ =~= seq!['(']);
    assert(")"@ =~= seq![')']);
    assert(") "@ =~= seq![')', ' ']);
    if let Some(description) = skills[i].0.description {
        assert(narrowed(Seq::empty(), skills)[i].described =~= seq!['('] + skills[i].1@ + seq![
            ')',
            ' ',
        ] + description@);
    }
}

} // verus!
