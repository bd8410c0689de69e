//! File mentions: when the composer is offering files, which ones a submitted
//! prompt is carrying, and which a pasted text drops.
//!
//! The rule is narrow on purpose: a sigil that starts a word — at the start of
//! its line or behind whitespace — with no whitespace between it and the
//! cursor, so an address in the middle of a sentence never raises a menu.
//! [`trigger`] is what the menu opens on while the user types, and [`scan`] is
//! what a submitted buffer is read with; they share that rule.
//!
//! Whether a file is there is the caller's to say.

use vstd::prelude::*;

use crate::text::{
    self, chars_eq, from_chars, is_digit, is_whitespace, last_index, parse_unsigned, push_decimal,
    slice_chars, split_chars, str_eq, to_chars, word_at,
};

verus! {

/// A mention being typed, located in the buffer it was found in.
#[derive(Clone, Debug, PartialEq, Eq)]
pub struct Fragment {
    /// Which line of the buffer the sigil is on.
    pub row: usize,
    /// Which character of that line the sigil itself is.
    pub start: usize,
    /// What has been typed between the sigil and the cursor.
    pub text: String,
}

/// A fragment as the contracts speak of it.
pub struct FragmentView {
    pub row: nat,
    pub start: nat,
    pub text: Seq<char>,
}

impl View for Fragment {
    type V = FragmentView;

    open spec fn view(&self) -> FragmentView {
        FragmentView { row: self.row as nat, start: self.start as nat, text: self.text@ }
    }
}

impl Fragment {
    /// How many characters the sigil and everything after it occupy, which is
    /// the span a choice replaces.
    pub fn width(&self) -> (n: usize)
        requires
            self.text@.len() < usize::MAX,
        ensures
            n == self@.text.len() + 1,
    {
        to_chars(&self.text).len() + 1
    }
}

/// The view of an optional fragment.
pub open spec fn fragment_seen(fragment: Option<Fragment>) -> Option<FragmentView> {
    match fragment {
        Some(fragment) => Some(fragment@),
        None => None,
    }
}

/// Whether no character of a text is whitespace.
pub open spec fn unbroken(s: Seq<char>) -> bool {
    forall|i: int| 0 <= i < s.len() ==> !text::white_space(#[trigger] s[i])
}

/// Whether the character at `i` of a line is a sigil that starts a word.
pub open spec fn opens(line: Seq<char>, i: int, sigil: char) -> bool {
    line[i] == sigil && (i == 0 || text::white_space(line[i - 1]))
}

/// What stands in front of the cursor on its own line.
pub open spec fn before_cursor(line: Seq<char>, column: nat) -> Seq<char> {
    if column < line.len() {
        line.take(column as int)
    } else {
        line
    }
}

/// The fragment a buffer is offering to complete with the cursor at a row and a
/// column: behind the last sigil in front of the cursor, where that starts a
/// word that reaches the cursor.
pub open spec fn offered(
    buffer: Seq<char>,
    row: nat,
    column: nat,
    sigil: char,
) -> Option<FragmentView> {
    let lines = text::split(buffer, '\n');
    if row >= lines.len() {
        None
    } else {
        let prefix = before_cursor(lines[row as int], column);
        let start = text::last_of(prefix, sigil);
        if start < 0 || !opens(prefix, start, sigil) || !unbroken(prefix.skip(start + 1)) {
            None
        } else {
            Some(FragmentView { row, start: start as nat, text: prefix.skip(start + 1) })
        }
    }
}

/// The file mention a buffer is offering to complete with the cursor at a row
/// and a column.
pub fn trigger(text: &str, cursor: (usize, usize)) -> (r: Option<Fragment>)
    ensures
        fragment_seen(r) == offered(text@, cursor.0 as nat, cursor.1 as nat, '@'),
{
    sigil_trigger(text, cursor, '@')
}

/// The skill invocation a buffer is offering to complete: the rule of
/// [`trigger`] with `$` for `@`.
pub fn skill_trigger(text: &str, cursor: (usize, usize)) -> (r: Option<Fragment>)
    ensures
        fragment_seen(r) == offered(text@, cursor.0 as nat, cursor.1 as nat, '$'),
{
    sigil_trigger(text, cursor, '$')
}

fn is_unbroken(s: &[char]) -> (r: bool)
    ensures
        r == unbroken(s@),
{
    let mut i: usize = 0;
    while i < s.len()
        invariant
            i <= s@.len(),
            forall|k: int| 0 <= k < i ==> !text::white_space(#[trigger] s@[k]),
        decreases s.len() - i,
    {
        if is_whitespace(s[i]) {
            return false;
        }
        i += 1;
    }
    true
}

/// The rule of both triggers; see [`offered`].
fn sigil_trigger(text: &str, cursor: (usize, usize), sigil: char) -> (r: Option<Fragment>)
    ensures
        fragment_seen(r) == offered(text@, cursor.0 as nat, cursor.1 as nat, sigil),
{
    let (row, column) = cursor;
    let lines = split_chars(&to_chars(text), '\n');
    if row >= lines.len() {
        return None;
    }
    let line = &lines[row];
    let end: usize = if column < line.len() {
        column
    } else {
        line.len()
    };
    let prefix = slice_chars(line, 0, end);
    assert(prefix@ =~= before_cursor(text::split(text@, '\n')[row as int], column as nat));
    let start = match last_index(&prefix, sigil) {
        Some(at) => at,
        None => {
            return None;
        },
    };
    proof {
        text::lemma_last_of(prefix@, sigil);
    }
    if start > 0 && !is_whitespace(prefix[start - 1]) {
        return None;
    }
    let fragment = slice_chars(&prefix, start + 1, prefix.len());
    assert(fragment@ =~= prefix@.skip(start + 1));
    if !is_unbroken(&fragment) {
        return None;
    }
    Some(Fragment { row, start, text: from_chars(&fragment) })
}

/// A file mentioned in a prompt, with the lines it is narrowed to.
#[derive(Clone, Debug, PartialEq, Eq)]
pub struct Mention {
    pub path: String,
    pub start: Option<u32>,
    pub end: Option<u32>,
}

/// A mention as the contracts speak of it.
pub struct MentionView {
    pub path: Seq<char>,
    pub start: Option<u32>,
    pub end: Option<u32>,
}

impl View for Mention {
    type V = MentionView;

    open spec fn view(&self) -> MentionView {
        MentionView { path: self.path@, start: self.start, end: self.end }
    }
}

/// The views of mentions.
pub open spec fn mention_views(mentions: Seq<Mention>) -> Seq<MentionView> {
    Seq::new(mentions.len(), |i: int| mentions[i]@)
}

/// The range a suffix names: `start` or `start-end` in digits, the end kept
/// only where it is behind the start; none for any other suffix.
pub open spec fn range_of(suffix: Seq<char>) -> Option<(u32, Option<u32>)> {
    let dash = text::first_of(suffix, '-');
    let start = suffix.take(dash);
    let end = suffix.skip(dash + 1);
    let ended = dash < suffix.len() && end.len() > 0;
    if !text::all_digits(start) || (ended && !text::all_digits(end)) {
        None
    } else if text::digits_value(start) > u32::MAX || (ended && text::digits_value(end)
        > u32::MAX) {
        None
    } else {
        Some(
            (
                text::digits_value(start) as u32,
                if ended && text::digits_value(start) < text::digits_value(end) {
                    Some(text::digits_value(end) as u32)
                } else {
                    None
                },
            ),
        )
    }
}

/// A token with the range suffix behind its last `#` split off; the whole token
/// where there is no such suffix.
pub open spec fn ranged(token: Seq<char>) -> (Seq<char>, Option<u32>, Option<u32>) {
    let at = text::last_of(token, '#');
    if at < 0 {
        (token, None, None)
    } else {
        match range_of(token.skip(at + 1)) {
            Some((start, end)) => (token.take(at), Some(start), end),
            None => (token, None, None),
        }
    }
}

/// Splits the line-range suffix off a mention token; see [`ranged`].
pub fn split_range(token: &str) -> (r: (String, Option<u32>, Option<u32>))
    ensures
        (r.0@, r.1, r.2) == ranged(token@),
{
    let chars = to_chars(token);
    let (path, start, end) = split_token(&chars);
    (from_chars(&path), start, end)
}

fn split_token(token: &[char]) -> (r: (Vec<char>, Option<u32>, Option<u32>))
    ensures
        (r.0@, r.1, r.2) == ranged(token@),
{
    let n: usize = token.len();
    let at = match last_index(token, '#') {
        Some(at) => at,
        None => {
            let whole = slice_chars(token, 0, n);
            assert(whole@ =~= token@);
            return (whole, None, None);
        },
    };
    let suffix = slice_chars(token, at + 1, n);
    assert(suffix@ =~= token@.skip(at + 1));
    match parse_range(&suffix) {
        Some((start, end)) => {
            let path = slice_chars(token, 0, at);
            assert(path@ =~= token@.take(at as int));
            (path, Some(start), end)
        },
        None => {
            let whole = slice_chars(token, 0, n);
            assert(whole@ =~= token@);
            (whole, None, None)
        },
    }
}

fn digits_only(s: &[char]) -> (r: bool)
    ensures
        r == text::all_digits(s@),
{
    if s.len() == 0 {
        return false;
    }
    let mut i: usize = 0;
    while i < s.len()
        invariant
            i <= s@.len(),
            forall|k: int| 0 <= k < i ==> text::digit(#[trigger] s@[k]),
        decreases s.len() - i,
    {
        if !is_digit(s[i]) {
            return false;
        }
        i += 1;
    }
    true
}

/// The range a suffix names; see [`range_of`].
fn parse_range(suffix: &[char]) -> (r: Option<(u32, Option<u32>)>)
    ensures
        r == range_of(suffix@),
{
    let mut dash: usize = 0;
    while dash < suffix.len() && suffix[dash] != '-'
        invariant
            dash <= suffix@.len(),
            forall|k: int| 0 <= k < dash ==> suffix@[k] != '-',
        decreases suffix.len() - dash,
    {
        dash += 1;
    }
    proof {
        text::lemma_first_of_unique(suffix@, '-', dash as int);
    }
    let start = slice_chars(suffix, 0, dash);
    assert(start@ =~= suffix@.take(dash as int));
    if !digits_only(&start) {
        return None;
    }
    let ended = dash < suffix.len() && dash + 1 < suffix.len();
    assert(start@[0] != '+');
    if !ended {
        return match parse_unsigned(&start, u32::MAX) {
            Some(start) => Some((start, None)),
            None => None,
        };
    }
    let end = slice_chars(suffix, dash + 1, suffix.len());
    assert(end@ =~= suffix@.skip(dash + 1));
    if !digits_only(&end) {
        return None;
    }
    assert(end@[0] != '+');
    match (parse_unsigned(&start, u32::MAX), parse_unsigned(&end, u32::MAX)) {
        (Some(start), Some(end)) => Some(
            (
                start,
                if start < end {
                    Some(end)
                } else {
                    None
                },
            ),
        ),
        _ => None,
    }
}

/// The literal token a mention renders back as: `@path`, with `#start` or
/// `#start-end` where a range was named.
pub open spec fn rendered(path: Seq<char>, start: Option<u32>, end: Option<u32>) -> Seq<char> {
    match (start, end) {
        (Some(start), Some(end)) => seq!['@'] + path + seq!['#'] + text::decimal(start as nat)
            + seq!['-'] + text::decimal(end as nat),
        (Some(start), None) => seq!['@'] + path + seq!['#'] + text::decimal(start as nat),
        (None, _) => seq!['@'] + path,
    }
}

/// The token a mention renders back as; see [`rendered`].
pub fn token(path: &str, start: Option<u32>, end: Option<u32>) -> (s: String)
    ensures
        s@ == rendered(path@, start, end),
{
    let mut s = String::new();
    s.push('@');
    s.push_str(path);
    match (start, end) {
        (Some(start), Some(end)) => {
            s.push('#');
            push_decimal(&mut s, start as u64);
            s.push('-');
            push_decimal(&mut s, end as u64);
        },
        (Some(start), None) => {
            s.push('#');
            push_decimal(&mut s, start as u64);
        },
        (None, _) => {},
    }
    assert(s@ =~= rendered(path@, start, end));
    s
}

/// The tokens of a line from `i` on: every sigil that starts a word is followed
/// by one, up to the next whitespace.
pub open spec fn tokens_of(line: Seq<char>, i: nat) -> Seq<Seq<char>>
    decreases line.len() - i,
{
    if i >= line.len() {
        Seq::empty()
    } else if opens(line, i as int, '@') {
        let token = text::word(line.skip(i as int + 1));
        proof {
            text::lemma_word_length(line.skip(i as int + 1));
        }
        seq![token] + tokens_of(line, i + token.len() + 1)
    } else {
        tokens_of(line, i + 1)
    }
}

/// The tokens of the lines from `l` on.
pub open spec fn tokens_in(lines: Seq<Seq<char>>, l: nat) -> Seq<Seq<char>>
    decreases lines.len() - l,
{
    if l >= lines.len() {
        Seq::empty()
    } else {
        tokens_of(lines[l as int], 0) + tokens_in(lines, l + 1)
    }
}

/// What a token mentions: a file, unless nothing stands behind the sigil, or
/// nothing but a range.
pub open spec fn mention_of(token: Seq<char>) -> Option<MentionView> {
    let (path, start, end) = ranged(token);
    if token.len() == 0 || path.len() == 0 {
        None
    } else {
        Some(MentionView { path, start, end })
    }
}

/// The mentions found so far, and those of one more token: each but once.
pub open spec fn with_token(found: Seq<MentionView>, token: Seq<char>) -> Seq<MentionView> {
    match mention_of(token) {
        Some(mention) => if found.contains(mention) {
            found
        } else {
            found.push(mention)
        },
        None => found,
    }
}

/// The mentions found so far, and those of more tokens.
pub open spec fn collected(found: Seq<MentionView>, tokens: Seq<Seq<char>>) -> Seq<MentionView>
    decreases tokens.len(),
{
    if tokens.len() == 0 {
        found
    } else {
        collected(with_token(found, tokens[0]), tokens.skip(1))
    }
}

/// Every file a text mentions, in the order it mentions them, each slice of a
/// file once.
pub open spec fn mentions(buffer: Seq<char>) -> Seq<MentionView> {
    collected(Seq::empty(), tokens_in(text::split(buffer, '\n'), 0))
}

fn same_mention(a: &Mention, b: &Mention) -> (r: bool)
    ensures
        r == (a@ == b@),
{
    a.start == b.start && a.end == b.end && str_eq(&a.path, &b.path)
}

fn holds(found: &Vec<Mention>, mention: &Mention) -> (r: bool)
    ensures
        r == mention_views(found@).contains(mention@),
{
    let mut i: usize = 0;
    while i < found.len()
        invariant
            i <= found@.len(),
            forall|k: int| 0 <= k < i ==> mention_views(found@)[k] != mention@,
        decreases found.len() - i,
    {
        assert(mention_views(found@)[i as int] == found@[i as int]@);
        if same_mention(&found[i], mention) {
            return true;
        }
        i += 1;
    }
    false
}

/// Every file a text mentions; see [`mentions`].
pub fn scan(text: &str) -> (found: Vec<Mention>)
    ensures
        mention_views(found@) == mentions(text@),
{
    let lines = split_chars(&to_chars(text), '\n');
    let ghost all = text::split(text@, '\n');
    let mut found: Vec<Mention> = Vec::new();
    assert(mention_views(found@) =~= Seq::empty());
    let mut l: usize = 0;
    while l < lines.len()
        invariant
            l <= lines@.len(),
            all == text::split(text@, '\n'),
            lines@.len() == all.len(),
            forall|k: int| 0 <= k < lines@.len() ==> (#[trigger] lines@[k])@ == all[k],
            mentions(text@) == collected(mention_views(found@), tokens_in(all, l as nat)),
        decreases lines.len() - l,
    {
        let line = &lines[l];
        let ghost rest = tokens_in(all, l as nat + 1);
        let mut i: usize = 0;
        while i < line.len()
            invariant
                i <= line@.len(),
                mentions(text@) == collected(
                    mention_views(found@),
                    tokens_of(line@, i as nat) + rest,
                ),
            decreases line.len() - i,
        {
            if !(line[i] == '@' && (i == 0 || is_whitespace(line[i - 1]))) {
                i += 1;
                continue ;
            }
            let token = word_at(line, i + 1);
            let ghost after = tokens_of(line@, (i + token@.len() + 1) as nat);
            proof {
                let queue = tokens_of(line@, i as nat) + rest;
                assert(queue =~= seq![token@] + (after + rest));
                assert(queue[0] == token@);
                assert(queue.skip(1) =~= after + rest);
            }
            i = i + token.len() + 1;
            if token.len() == 0 {
                continue ;
            }
            let (path, start, end) = split_token(&token);
            if path.len() == 0 {
                continue ;
            }
            let mention = Mention { path: from_chars(&path), start, end };
            assert(Some(mention@) == mention_of(token@));
            if !holds(&found, &mention) {
                let ghost before = mention_views(found@);
                found.push(mention);
                assert(mention_views(found@) =~= before.push(mention@));
            }
        }
        assert(tokens_of(line@, i as nat) + rest =~= rest);
        l += 1;
    }
    found
}

/// Whether a mention is one that can be written down: it names a file without
/// whitespace, its range is in order, and where it has none its path does not
/// read as if it had.
pub open spec fn writable(mention: MentionView) -> bool {
    &&& mention.path.len() > 0
    &&& unbroken(mention.path)
    &&& match (mention.start, mention.end) {
        (None, None) => ranged(mention.path) == (mention.path, None::<u32>, None::<u32>),
        (None, Some(_)) => false,
        (Some(_), None) => true,
        (Some(start), Some(end)) => start < end,
    }
}

proof fn lemma_last_of_unique(s: Seq<char>, c: char, at: int)
    requires
        0 <= at < s.len(),
        s[at] == c,
        forall|i: int| at < i < s.len() ==> s[i] != c,
    ensures
        text::last_of(s, c) == at,
{
    text::lemma_last_of(s, c);
    if text::last_of(s, c) < at {
        assert(s[at] != c);
    }
}

/// How a range is spelled.
pub open spec fn spelled_range(start: u32, end: Option<u32>) -> Seq<char> {
    text::decimal(start as nat) + match end {
        Some(end) => seq!['-'] + text::decimal(end as nat),
        None => Seq::empty(),
    }
}

/// The suffix a range is spelled as names it.
proof fn lemma_range_reads_back(start: u32, end: Option<u32>)
    requires
        end matches Some(end) ==> start < end,
    ensures
        range_of(spelled_range(start, end)) == Some((start, end)),
        unbroken(spelled_range(start, end)),
        forall|i: int|
            0 <= i < spelled_range(start, end).len() ==> #[trigger] spelled_range(start, end)[i]
                != '#',
{
    let front = text::decimal(start as nat);
    text::lemma_decimal(start as nat);
    match end {
        Some(end) => {
            let back = text::decimal(end as nat);
            text::lemma_decimal(end as nat);
            let suffix = front + (seq!['-'] + back);
            assert forall|i: int| 0 <= i < front.len() implies suffix[i] != '-' by {
                assert(text::digit(front[i]));
            }
            text::lemma_first_of_unique(suffix, '-', front.len() as int);
            assert(suffix.take(front.len() as int) =~= front);
            assert(suffix.skip(front.len() as int + 1) =~= back);
            assert(suffix == spelled_range(start, Some(end)));
            assert forall|i: int| 0 <= i < suffix.len() implies #[trigger] suffix[i] != '#'
                && !text::white_space(suffix[i]) by {
                if i < front.len() {
                    assert(text::digit(front[i]));
                } else if i > front.len() {
                    assert(text::digit(back[i - front.len() - 1]));
                }
            }
        },
        None => {
            let suffix = front + Seq::<char>::empty();
            assert(suffix =~= front);
            assert forall|i: int| 0 <= i < front.len() implies suffix[i] != '-' by {
                assert(text::digit(front[i]));
            }
            text::lemma_first_of_unique(suffix, '-', front.len() as int);
            assert(suffix.take(front.len() as int) =~= front);
            assert(suffix == spelled_range(start, None));
            assert forall|i: int| 0 <= i < suffix.len() implies #[trigger] suffix[i] != '#'
                && !text::white_space(suffix[i]) by {
                assert(text::digit(front[i]));
            }
        },
    }
}

/// What stands behind the sigil of a rendered mention, which holds no
/// whitespace, mentions what was rendered.
proof fn lemma_rendered_token(mention: MentionView)
    requires
        writable(mention),
    ensures
        rendered(mention.path, mention.start, mention.end).len() > 1,
        rendered(mention.path, mention.start, mention.end)[0] == '@',
        unbroken(rendered(mention.path, mention.start, mention.end).skip(1)),
        mention_of(rendered(mention.path, mention.start, mention.end).skip(1)) == Some(mention),
{
    let whole = rendered(mention.path, mention.start, mention.end);
    let token = whole.skip(1);
    match mention.start {
        None => {
            assert(token =~= mention.path);
        },
        Some(start) => {
            let suffix = spelled_range(start, mention.end);
            lemma_range_reads_back(start, mention.end);
            let at = mention.path.len();
            assert(token =~= mention.path + seq!['#'] + suffix);
            assert(token[at as int] == '#');
            assert forall|i: int| at < i < token.len() implies token[i] != '#' by {
                assert(token[i] == suffix[i - at - 1]);
            }
            lemma_last_of_unique(token, '#', at as int);
            assert(token.skip(at as int + 1) =~= suffix);
            assert(token.take(at as int) =~= mention.path);
            assert forall|i: int| 0 <= i < token.len() implies !text::white_space(
                #[trigger] token[i],
            ) by {
                if i < at {
                    assert(token[i] == mention.path[i]);
                } else if i > at {
                    assert(token[i] == suffix[i - at - 1]);
                }
            }
        },
    }
}

/// A mention that can be written down is what scanning its own token finds.
pub proof fn law_a_rendered_mention_scans_back(mention: MentionView)
    requires
        writable(mention),
    ensures
        mentions(rendered(mention.path, mention.start, mention.end)) == seq![mention],
{
    let whole = rendered(mention.path, mention.start, mention.end);
    lemma_rendered_token(mention);
    let token = whole.skip(1);
    assert forall|i: int| 0 <= i < whole.len() implies whole[i] != '\n' by {
        if i > 0 {
            assert(whole[i] == token[i - 1]);
            assert(!text::white_space(token[i - 1]));
        }
    }
    text::lemma_first_of_unique(whole, '\n', whole.len() as int);
    let lines = text::split(whole, '\n');
    assert(lines =~= seq![whole]);
    text::lemma_word(token, token.len() as int);
    assert(token.take(token.len() as int) =~= token);
    assert(opens(whole, 0, '@'));
    reveal_with_fuel(tokens_of, 2);
    assert(tokens_of(whole, 0) =~= seq![token]);
    reveal_with_fuel(tokens_in, 2);
    assert(tokens_in(lines, 0) =~= seq![token]);
    reveal_with_fuel(collected, 2);
    assert(seq![token].skip(1) =~= Seq::empty());
    assert(with_token(Seq::empty(), token) =~= seq![mention]);
}

/// Every token of a line holds no whitespace.
proof fn lemma_tokens_unbroken(line: Seq<char>, i: nat)
    ensures
        forall|k: int|
            0 <= k < tokens_of(line, i).len() ==> unbroken(#[trigger] tokens_of(line, i)[k]),
    decreases line.len() - i,
{
    if i < line.len() {
        if opens(line, i as int, '@') {
            let rest = line.skip(i as int + 1);
            let token = text::word(rest);
            text::lemma_word_length(rest);
            lemma_word_unbroken(rest);
            lemma_tokens_unbroken(line, (i + token.len() + 1) as nat);
            let later = tokens_of(line, (i + token.len() + 1) as nat);
            assert(tokens_of(line, i) == seq![token] + later);
            assert forall|k: int| 0 <= k < tokens_of(line, i).len() implies unbroken(
                #[trigger] tokens_of(line, i)[k],
            ) by {
                if k > 0 {
                    assert(tokens_of(line, i)[k] == later[k - 1]);
                }
            }
        } else {
            lemma_tokens_unbroken(line, i + 1);
            assert(tokens_of(line, i) == tokens_of(line, i + 1));
        }
    } else {
        assert(tokens_of(line, i).len() == 0);
    }
}

proof fn lemma_word_unbroken(s: Seq<char>)
    ensures
        unbroken(text::word(s)),
    decreases s.len(),
{
    if s.len() > 0 && !text::white_space(s[0]) {
        lemma_word_unbroken(s.skip(1));
        let rest = text::word(s.skip(1));
        assert forall|i: int| 0 <= i < text::word(s).len() implies !text::white_space(
            #[trigger] text::word(s)[i],
        ) by {
            if i > 0 {
                assert(text::word(s)[i] == rest[i - 1]);
            }
        }
    }
}

proof fn lemma_all_tokens_unbroken(lines: Seq<Seq<char>>, l: nat)
    ensures
        forall|k: int|
            0 <= k < tokens_in(lines, l).len() ==> unbroken(#[trigger] tokens_in(lines, l)[k]),
    decreases lines.len() - l,
{
    if l < lines.len() {
        lemma_tokens_unbroken(lines[l as int], 0);
        lemma_all_tokens_unbroken(lines, l + 1);
        let first = tokens_of(lines[l as int], 0);
        let later = tokens_in(lines, l + 1);
        assert forall|k: int| 0 <= k < tokens_in(lines, l).len() implies unbroken(
            #[trigger] tokens_in(lines, l)[k],
        ) by {
            if k < first.len() {
                assert(tokens_in(lines, l)[k] == first[k]);
            } else {
                assert(tokens_in(lines, l)[k] == later[k - first.len()]);
            }
        }
    }
}

proof fn lemma_mention_writable(token: Seq<char>)
    requires
        unbroken(token),
    ensures
        mention_of(token) matches Some(mention) ==> writable(mention),
{
    let at = text::last_of(token, '#');
    text::lemma_last_of(token, '#');
    if at >= 0 {
        if let Some((start, end)) = range_of(token.skip(at + 1)) {
            let path = token.take(at);
            assert forall|i: int| 0 <= i < path.len() implies !text::white_space(
                #[trigger] path[i],
            ) by {
                assert(path[i] == token[i]);
            }
            let dash = text::first_of(token.skip(at + 1), '-');
            if let Some(end) = end {
                let from = text::digits_value(token.skip(at + 1).take(dash));
                let to = text::digits_value(token.skip(at + 1).skip(dash + 1));
                assert(start == from && end == to);
            }
        }
    }
}

proof fn lemma_collected(found: Seq<MentionView>, tokens: Seq<Seq<char>>)
    requires
        forall|k: int| 0 <= k < tokens.len() ==> unbroken(#[trigger] tokens[k]),
        forall|k: int| 0 <= k < found.len() ==> writable(#[trigger] found[k]),
        found.no_duplicates(),
    ensures
        forall|k: int|
            0 <= k < collected(found, tokens).len() ==> writable(
                #[trigger] collected(found, tokens)[k],
            ),
        collected(found, tokens).no_duplicates(),
    decreases tokens.len(),
{
    if tokens.len() > 0 {
        lemma_mention_writable(tokens[0]);
        let next = with_token(found, tokens[0]);
        assert forall|k: int| 0 <= k < next.len() implies writable(#[trigger] next[k]) by {
            if k < found.len() {
                assert(next[k] == found[k]);
            }
        }
        assert(next.no_duplicates());
        assert forall|k: int| 0 <= k < tokens.skip(1).len() implies unbroken(
            #[trigger] tokens.skip(1)[k],
        ) by {
            assert(tokens.skip(1)[k] == tokens[k + 1]);
        }
        lemma_collected(next, tokens.skip(1));
    }
}

/// Whatever a scan finds, rendered and scanned again is found as it was: the
/// two halves are one grammar. And no mention is found twice.
pub proof fn law_a_scanned_mention_scans_back(buffer: Seq<char>, i: int)
    requires
        0 <= i < mentions(buffer).len(),
    ensures
        ({
            let mention = mentions(buffer)[i];
            mentions(rendered(mention.path, mention.start, mention.end)) == seq![mention]
        }),
        mentions(buffer).no_duplicates(),
{
    let lines = text::split(buffer, '\n');
    lemma_all_tokens_unbroken(lines, 0);
    lemma_collected(Seq::empty(), tokens_in(lines, 0));
    law_a_rendered_mention_scans_back(mentions(buffer)[i]);
}

proof fn lemma_opened_is_read(line: Seq<char>, i: nat, start: int)
    requires
        i <= start < line.len(),
        opens(line, start, '@'),
    ensures
        tokens_of(line, i).contains(text::word(line.skip(start + 1))),
    decreases line.len() - i,
{
    let wanted = text::word(line.skip(start + 1));
    if i == start {
        assert(tokens_of(line, i)[0] == wanted);
    } else if opens(line, i as int, '@') {
        let rest = line.skip(i as int + 1);
        let token = text::word(rest);
        text::lemma_word_length(rest);
        lemma_word_unbroken(rest);
        let next = (i + token.len() + 1) as nat;
        if next > start {
            assert(start > 0);
            lemma_word_prefix(rest);
            assert(text::white_space(line[start - 1]));
            if start - 1 == i {
                assert(line[i as int] == '@');
            } else {
                assert(token[start - 2 - i] == rest[start - 2 - i]);
                assert(rest[start - 2 - i] == line[start - 1]);
            }
            assert(false);
        }
        lemma_opened_is_read(line, next, start);
        let later = tokens_of(line, next);
        let k = choose|k: int| 0 <= k < later.len() && later[k] == wanted;
        assert(tokens_of(line, i)[k + 1] == wanted);
    } else {
        lemma_opened_is_read(line, i + 1, start);
    }
}

proof fn lemma_word_prefix(s: Seq<char>)
    ensures
        text::word(s).len() <= s.len(),
        forall|i: int| 0 <= i < text::word(s).len() ==> text::word(s)[i] == s[i],
    decreases s.len(),
{
    if s.len() > 0 && !text::white_space(s[0]) {
        lemma_word_prefix(s.skip(1));
        let rest = text::word(s.skip(1));
        assert forall|i: int| 0 <= i < text::word(s).len() implies text::word(s)[i] == s[i] by {
            if i > 0 {
                assert(text::word(s)[i] == rest[i - 1]);
                assert(rest[i - 1] == s.skip(1)[i - 1]);
            }
        }
    }
}

/// What the menu opens on, a scan reads: behind the sigil stands a token of its
/// line, and what was typed so far is the front of it.
pub proof fn law_what_opens_is_read(buffer: Seq<char>, row: nat, column: nat)
    requires
        offered(buffer, row, column, '@') is Some,
    ensures
        ({
            let fragment = offered(buffer, row, column, '@').unwrap();
            let line = text::split(buffer, '\n')[row as int];
            let token = text::word(line.skip(fragment.start as int + 1));
            &&& tokens_of(line, 0).contains(token)
            &&& fragment.text.len() <= token.len()
            &&& token.take(fragment.text.len() as int) == fragment.text
        }),
{
    let line = text::split(buffer, '\n')[row as int];
    let prefix = before_cursor(line, column);
    let start = text::last_of(prefix, '@');
    text::lemma_last_of(prefix, '@');
    assert(prefix[start] == line[start]);
    if start > 0 {
        assert(prefix[start - 1] == line[start - 1]);
    }
    lemma_opened_is_read(line, 0, start);
    let rest = line.skip(start + 1);
    let typed = prefix.skip(start + 1);
    assert forall|k: int| 0 <= k < typed.len() implies !text::white_space(rest[k]) by {
        assert(rest[k] == line[start + 1 + k]);
        assert(typed[k] == prefix[start + 1 + k]);
        assert(!text::white_space(typed[k]));
    }
    lemma_word_reaches(rest, typed.len() as int);
    lemma_word_prefix(rest);
    let token = text::word(rest);
    assert forall|k: int| 0 <= k < typed.len() implies token[k] == typed[k] by {
        assert(rest[k] == line[start + 1 + k]);
        assert(typed[k] == prefix[start + 1 + k]);
    }
    assert(token.take(typed.len() as int) =~= typed);
}

proof fn lemma_word_reaches(s: Seq<char>, n: int)
    requires
        0 <= n <= s.len(),
        forall|k: int| 0 <= k < n ==> !text::white_space(s[k]),
    ensures
        text::word(s).len() >= n,
    decreases s.len(),
{
    if n > 0 {
        assert forall|k: int| 0 <= k < n - 1 implies !text::white_space(s.skip(1)[k]) by {
            assert(s.skip(1)[k] == s[k + 1]);
        }
        lemma_word_reaches(s.skip(1), n - 1);
    }
}

/// Of the mentions, those whose file is there.
pub open spec fn kept(mentions: Seq<MentionView>, present: Seq<bool>) -> Seq<MentionView>
    decreases mentions.len(),
{
    if mentions.len() == 0 {
        Seq::empty()
    } else {
        let front = kept(mentions.drop_last(), present);
        if mentions.len() <= present.len() && present[mentions.len() - 1] {
            front.push(mentions.last())
        } else {
            front
        }
    }
}

/// Every file a text mentions that is there, in the order it mentions them:
/// `present` says of each mention that [`scan`] finds whether its path is a
/// file. What is not stays in the text.
pub fn attachable(text: &str, present: &Vec<bool>) -> (out: Vec<Mention>)
    ensures
        mention_views(out@) == kept(mentions(text@), present@),
{
    let found = scan(text);
    let ghost all = mention_views(found@);
    let mut out: Vec<Mention> = Vec::new();
    let mut i: usize = 0;
    assert(mention_views(out@) =~= kept(all.take(0), present@));
    while i < found.len()
        invariant
            i <= found@.len(),
            all == mention_views(found@),
            mention_views(out@) == kept(all.take(i as int), present@),
        decreases found.len() - i,
    {
        let ghost before = mention_views(out@);
        assert(all.take(i + 1).drop_last() =~= all.take(i as int));
        if i < present.len() && present[i] {
            let mention = &found[i];
            out.push(
                Mention { path: mention.path.clone(), start: mention.start, end: mention.end },
            );
            assert(mention_views(out@) =~= before.push(all[i as int]));
        }
        i += 1;
    }
    assert(all.take(i as int) =~= all);
    out
}

/// Where the reading of a pasted text stands: the tokens that have ended, the
/// one being read, the quote it is inside of, whether one has begun, and
/// whether the next character is escaped.
#[verifier::ext_equal]
pub struct Lexing {
    pub done: Seq<Seq<char>>,
    pub current: Seq<char>,
    pub quote: Option<char>,
    pub begun: bool,
    pub escaped: bool,
}

impl Lexing {
    /// Where the reading starts.
    pub open spec fn start() -> Lexing {
        Lexing {
            done: Seq::empty(),
            current: Seq::empty(),
            quote: None,
            begun: false,
            escaped: false,
        }
    }

    /// One more character: whitespace ends a token outside quotes, quotes are
    /// consumed, and where a backslash escapes, it and what it escapes belong
    /// to the token.
    pub open spec fn read(self, c: char, escapes: bool) -> Lexing {
        if self.escaped {
            Lexing { current: self.current.push(c), escaped: false, ..self }
        } else if self.quote is Some {
            if self.quote == Some(c) {
                Lexing { quote: None, ..self }
            } else {
                Lexing { current: self.current.push(c), ..self }
            }
        } else if c == '\'' || c == '"' {
            Lexing { quote: Some(c), begun: true, ..self }
        } else if c == '\\' && escapes {
            Lexing { current: self.current.push(c), begun: true, escaped: true, ..self }
        } else if text::white_space(c) {
            if self.begun {
                Lexing {
                    done: self.done.push(self.current),
                    current: Seq::empty(),
                    begun: false,
                    ..self
                }
            } else {
                self
            }
        } else {
            Lexing { current: self.current.push(c), begun: true, ..self }
        }
    }

    /// A text more.
    pub open spec fn read_all(self, s: Seq<char>, escapes: bool) -> Lexing
        decreases s.len(),
    {
        if s.len() == 0 {
            self
        } else {
            self.read(s[0], escapes).read_all(s.skip(1), escapes)
        }
    }

    /// The tokens of what was read, the one that had begun among them.
    pub open spec fn tokens(self) -> Seq<Seq<char>> {
        if self.begun {
            self.done.push(self.current)
        } else {
            self.done
        }
    }
}

/// The tokens a pasted text is made of, as a shell would split it.
pub open spec fn pasted(s: Seq<char>, escapes: bool) -> Seq<Seq<char>> {
    Lexing::start().read_all(s, escapes).tokens()
}

/// Splits a pasted text into tokens; see [`pasted`]. `escapes` says whether a
/// backslash escapes here, which it does not where it separates paths.
pub fn tokenize(text: &str, escapes: bool) -> (tokens: Vec<String>)
    ensures
        text::texts(tokens@) == pasted(text@, escapes),
{
    let chars = to_chars(text);
    let mut tokens: Vec<String> = Vec::new();
    let mut current = String::new();
    let mut quote: Option<char> = None;
    let mut begun = false;
    let mut escaped = false;
    let mut i: usize = 0;
    let ghost mut state = Lexing::start();
    assert(text::texts(tokens@) =~= state.done);
    assert(current@ =~= state.current);
    assert(chars@.skip(0) =~= chars@);
    while i < chars.len()
        invariant
            i <= chars@.len(),
            chars@ == text@,
            Lexing::start().read_all(text@, escapes) == state.read_all(
                chars@.skip(i as int),
                escapes,
            ),
            text::texts(tokens@) == state.done,
            current@ == state.current,
            quote == state.quote,
            begun == state.begun,
            escaped == state.escaped,
        decreases chars.len() - i,
    {
        let c = chars[i];
        assert(chars@.skip(i as int).skip(1) =~= chars@.skip(i + 1));
        assert(chars@.skip(i as int)[0] == c);
        let ghost was = text::texts(tokens@);
        if escaped {
            current.push(c);
            escaped = false;
        } else if quote.is_some() {
            if quote == Some(c) {
                quote = None;
            } else {
                current.push(c);
            }
        } else if c == '\'' || c == '"' {
            quote = Some(c);
            begun = true;
        } else if c == '\\' && escapes {
            current.push(c);
            begun = true;
            escaped = true;
        } else if is_whitespace(c) {
            if begun {
                tokens.push(current);
                assert(text::texts(tokens@) =~= was.push(state.current));
                current = String::new();
                assert(current@ =~= Seq::empty());
                begun = false;
            }
        } else {
            current.push(c);
            begun = true;
        }
        proof {
            state = state.read(c, escapes);
        }
        i += 1;
    }
    let ghost was = text::texts(tokens@);
    if begun {
        tokens.push(current);
        assert(text::texts(tokens@) =~= was.push(state.current));
    }
    tokens
}

/// A text with the backslash of every escape undone.
pub open spec fn unescaped(s: Seq<char>) -> Seq<char>
    decreases s.len(),
{
    if s.len() == 0 {
        Seq::empty()
    } else if s[0] == '\\' && s.len() > 1 {
        seq![s[1]] + unescaped(s.skip(2))
    } else {
        seq![s[0]] + unescaped(s.skip(1))
    }
}

/// Undoes a shell's backslash escaping, where a backslash escapes; see
/// [`unescaped`].
pub fn unescape(token: &str, escapes: bool) -> (s: String)
    ensures
        s@ == (if escapes {
            unescaped(token@)
        } else {
            token@
        }),
{
    if !escapes {
        return token.to_string();
    }
    let chars = to_chars(token);
    let mut s = String::new();
    let mut i: usize = 0;
    assert(chars@.skip(0) =~= chars@);
    assert(s@ + unescaped(chars@) =~= unescaped(token@));
    while i < chars.len()
        invariant
            i <= chars@.len(),
            unescaped(token@) == s@ + unescaped(chars@.skip(i as int)),
        decreases chars.len() - i,
    {
        let ghost rest = chars@.skip(i as int);
        let ghost before = s@;
        if chars[i] == '\\' && i + 1 < chars.len() {
            s.push(chars[i + 1]);
            assert(rest.skip(2) =~= chars@.skip(i + 2));
            assert(before + (seq![rest[1]] + unescaped(rest.skip(2))) =~= s@ + unescaped(
                rest.skip(2),
            ));
            i += 2;
        } else {
            s.push(chars[i]);
            assert(rest.skip(1) =~= chars@.skip(i + 1));
            assert(before + (seq![rest[0]] + unescaped(rest.skip(1))) =~= s@ + unescaped(
                rest.skip(1),
            ));
            i += 1;
        }
    }
    assert(s@ + unescaped(chars@.skip(i as int)) =~= s@);
    s
}

/// The path that the `url` crate reads out of a file URL, in the bytes the
/// platform keeps paths in; none where the text is no URL or names no path.
pub uninterp spec fn url_path(url: Seq<char>) -> Option<Seq<u8>>;

/// The view of optional bytes.
pub open spec fn bytes_seen(bytes: Option<Vec<u8>>) -> Option<Seq<u8>> {
    match bytes {
        Some(bytes) => Some(bytes@),
        None => None,
    }
}

/// `url::Url::parse`, then `Url::to_file_path`: what path a file URL names,
/// percent-decoded, for the platform this is built for. The path is named, not
/// described.
#[verifier::external_body]
fn file_url_path(url: &str) -> (bytes: Option<Vec<u8>>)
    ensures
        bytes_seen(bytes) == url_path(url@),
{
    let path = url::Url::parse(url).ok()?.to_file_path().ok()?;
    Some(path.into_os_string().into_encoded_bytes())
}

/// What a dropped token may be the path of.
#[derive(Clone, Debug, PartialEq, Eq)]
pub enum Candidate {
    /// A path that was typed out.
    Text(String),
    /// A path a URL named, in the bytes the platform keeps paths in.
    Bytes(Vec<u8>),
}

/// A candidate as the contracts speak of it.
pub enum CandidateView {
    Text(Seq<char>),
    Bytes(Seq<u8>),
}

impl View for Candidate {
    type V = CandidateView;

    open spec fn view(&self) -> CandidateView {
        match self {
            Candidate::Text(path) => CandidateView::Text(path@),
            Candidate::Bytes(path) => CandidateView::Bytes(path@),
        }
    }
}

/// The view of an optional candidate.
pub open spec fn candidate_seen(candidate: Option<Candidate>) -> Option<CandidateView> {
    match candidate {
        Some(candidate) => Some(candidate@),
        None => None,
    }
}

/// Whether a token is a file URL.
pub open spec fn is_file_url(token: Seq<char>) -> bool {
    token.len() >= 7 && token.take(7) == "file://"@
}

/// The path a dropped token may be, given what its URL names where it is one.
pub open spec fn candidate_of(
    token: Seq<char>,
    named: Option<Seq<u8>>,
    escapes: bool,
) -> Option<CandidateView> {
    if is_file_url(token) {
        match named {
            Some(path) => Some(CandidateView::Bytes(path)),
            None => None,
        }
    } else if escapes {
        Some(CandidateView::Text(unescaped(token)))
    } else {
        Some(CandidateView::Text(token))
    }
}

/// One dropped token's own path; see [`candidate_of`].
pub fn resolve_dropped(token: &str, escapes: bool) -> (r: Option<Candidate>)
    ensures
        candidate_seen(r) == candidate_of(token@, url_path(token@), escapes),
{
    let chars = to_chars(token);
    let scheme = "file://";
    proof {
        reveal_strlit("file://");
    }
    if chars.len() >= 7 {
        let front = slice_chars(&chars, 0, 7);
        assert(front@ =~= token@.take(7));
        if chars_eq(&front, &to_chars(scheme)) {
            return match file_url_path(token) {
                Some(path) => Some(Candidate::Bytes(path)),
                None => None,
            };
        }
    }
    Some(Candidate::Text(unescape(token, escapes)))
}

/// The paths a pasted text may drop, token by token.
pub open spec fn candidates(s: Seq<char>, escapes: bool) -> Seq<Option<CandidateView>> {
    let tokens = pasted(s, escapes);
    Seq::new(tokens.len(), |i: int| candidate_of(tokens[i], url_path(tokens[i]), escapes))
}

/// The views of optional candidates.
pub open spec fn candidate_views(candidates: Seq<Option<Candidate>>) -> Seq<
    Option<CandidateView>,
> {
    Seq::new(candidates.len(), |i: int| candidate_seen(candidates[i]))
}

/// The paths a pasted text may drop; see [`candidates`]. The caller looks each
/// of them up below its root and hands what it found to [`classify_drop`].
pub fn drop_candidates(text: &str, escapes: bool) -> (out: Vec<Option<Candidate>>)
    ensures
        candidate_views(out@) == candidates(text@, escapes),
{
    let tokens = tokenize(text, escapes);
    let ghost all = candidates(text@, escapes);
    let mut out: Vec<Option<Candidate>> = Vec::new();
    let mut i: usize = 0;
    while i < tokens.len()
        invariant
            i <= tokens@.len(),
            text::texts(tokens@) == pasted(text@, escapes),
            all == candidates(text@, escapes),
            candidate_views(out@) =~= all.take(i as int),
        decreases tokens.len() - i,
    {
        let ghost before = candidate_views(out@);
        assert(text::texts(tokens@)[i as int] == tokens@[i as int]@);
        out.push(resolve_dropped(&tokens[i], escapes));
        assert(candidate_views(out@) =~= before.push(all[i as int]));
        i += 1;
    }
    assert(text::texts(tokens@).len() == tokens@.len());
    assert(candidate_views(out@) =~= all);
    out
}

/// A candidate that is there: the path to it, and the path below the root where
/// it is under it.
#[derive(Clone, Debug, PartialEq, Eq)]
pub struct Found {
    pub absolute: String,
    pub relative: Option<String>,
}

/// How a dropped path is shown: relative to the root when it is under it,
/// absolute otherwise.
pub open spec fn displayed(found: Found) -> Seq<char> {
    match found.relative {
        Some(path) => path@,
        None => found.absolute@,
    }
}

/// Whether every candidate is a path and every path is there.
pub open spec fn all_there(
    candidates: Seq<Option<CandidateView>>,
    found: Seq<Option<Found>>,
) -> bool {
    &&& candidates.len() > 0
    &&& found.len() >= candidates.len()
    &&& forall|i: int|
        0 <= i < candidates.len() ==> (#[trigger] candidates[i]) is Some && found[i] is Some
}

/// The paths a pasted text is a drop of, as they are shown, given its
/// candidates and what was found of each; none when it is not a drop. Every
/// token must be a path that is there: one miss and the whole paste is text.
pub open spec fn dropped(
    candidates: Seq<Option<CandidateView>>,
    found: Seq<Option<Found>>,
) -> Option<Seq<Seq<char>>> {
    if all_there(candidates, found) {
        Some(Seq::new(candidates.len(), |i: int| displayed(found[i].unwrap())))
    } else {
        None
    }
}

/// The view of optional texts.
pub open spec fn texts_seen(texts: Option<Vec<String>>) -> Option<Seq<Seq<char>>> {
    match texts {
        Some(texts) => Some(text::texts(texts@)),
        None => None,
    }
}

/// What the candidates of a paste are a drop of; see [`dropped`].
pub fn settle_drop(candidates: &Vec<Option<Candidate>>, found: &Vec<Option<Found>>) -> (r: Option<
    Vec<String>,
>)
    ensures
        texts_seen(r) == dropped(candidate_views(candidates@), found@),
{
    let ghost all = candidate_views(candidates@);
    if candidates.len() == 0 || found.len() < candidates.len() {
        return None;
    }
    let mut out: Vec<String> = Vec::new();
    let mut i: usize = 0;
    while i < candidates.len()
        invariant
            i <= candidates@.len() <= found@.len(),
            all == candidate_views(candidates@),
            forall|k: int| 0 <= k < i ==> (#[trigger] all[k]) is Some && found@[k] is Some,
            text::texts(out@) =~= Seq::new(
                i as nat,
                |k: int| displayed(found@[k].unwrap()),
            ),
        decreases candidates.len() - i,
    {
        assert(all[i as int] == candidate_seen(candidates@[i as int]));
        let ghost before = text::texts(out@);
        match (&candidates[i], &found[i]) {
            (Some(_), Some(there)) => {
                let shown = match &there.relative {
                    Some(path) => path.clone(),
                    None => there.absolute.clone(),
                };
                out.push(shown);
                assert(text::texts(out@) =~= before.push(displayed(*there)));
            },
            _ => {
                assert(!all_there(all, found@));
                return None;
            },
        }
        i += 1;
    }
    assert(all_there(all, found@));
    assert(text::texts(out@) =~= Seq::new(all.len(), |k: int| displayed(found@[k].unwrap())));
    Some(out)
}

/// The paths a pasted text is a drop of; see [`dropped`]. `found` says of each
/// of [`drop_candidates`] whether it is there, and where.
pub fn classify_drop(text: &str, escapes: bool, found: &Vec<Option<Found>>) -> (r: Option<
    Vec<String>,
>)
    ensures
        texts_seen(r) == dropped(candidates(text@, escapes), found@),
{
    settle_drop(&drop_candidates(text, escapes), found)
}

/// A text without quotes, blanks or backslashes is one token: itself.
pub proof fn law_a_plain_word_is_one_token(s: Seq<char>, escapes: bool)
    requires
        s.len() > 0,
        unbroken(s),
        forall|i: int| 0 <= i < s.len() ==> s[i] != '\'' && s[i] != '"' && s[i] != '\\',
    ensures
        pasted(s, escapes) == seq![s],
{
    lemma_plain_read(Lexing::start(), s, escapes);
    assert(Seq::<char>::empty() + s =~= s);
    assert(pasted(s, escapes) =~= seq![s]);
}

proof fn lemma_plain_read(state: Lexing, s: Seq<char>, escapes: bool)
    requires
        !state.escaped,
        state.quote is None,
        unbroken(s),
        forall|i: int| 0 <= i < s.len() ==> s[i] != '\'' && s[i] != '"' && s[i] != '\\',
    ensures
        state.read_all(s, escapes) == (Lexing {
            current: state.current + s,
            begun: state.begun || s.len() > 0,
            ..state
        }),
    decreases s.len(),
{
    if s.len() == 0 {
        assert(state.current + s =~= state.current);
    } else {
        let rest = s.skip(1);
        assert(forall|i: int| 0 <= i < rest.len() ==> rest[i] == s[i + 1]);
        assert(!text::white_space(s[0]));
        lemma_plain_read(state.read(s[0], escapes), rest, escapes);
        assert(state.current.push(s[0]) + rest =~= state.current + s);
    }
}

proof fn lemma_quoted_read(state: Lexing, s: Seq<char>, escapes: bool)
    requires
        !state.escaped,
        state.quote == Some('\''),
        forall|i: int| 0 <= i < s.len() ==> s[i] != '\'',
    ensures
        state.read_all(s.push('\''), escapes) == (Lexing {
            current: state.current + s,
            quote: None,
            ..state
        }),
    decreases s.len(),
{
    let whole = s.push('\'');
    if s.len() == 0 {
        assert(whole[0] == '\'');
        assert(whole.skip(1) =~= Seq::empty());
        reveal_with_fuel(Lexing::read_all, 2);
        assert(state.current + s =~= state.current);
    } else {
        let rest = s.skip(1);
        assert(forall|i: int| 0 <= i < rest.len() ==> rest[i] == s[i + 1]);
        assert(whole.skip(1) =~= rest.push('\''));
        lemma_quoted_read(state.read(s[0], escapes), rest, escapes);
        assert(state.current.push(s[0]) + rest =~= state.current + s);
    }
}

/// A quoted path is one token, whatever blanks it holds: the path.
pub proof fn law_a_quoted_path_is_one_token(path: Seq<char>, escapes: bool)
    requires
        forall|i: int| 0 <= i < path.len() ==> path[i] != '\'',
    ensures
        pasted(seq!['\''] + path + seq!['\''], escapes) == seq![path],
{
    let whole = seq!['\''] + path + seq!['\''];
    let opened = Lexing::start().read('\'', escapes);
    assert(whole.skip(1) =~= path.push('\''));
    lemma_quoted_read(opened, path, escapes);
    assert(Seq::<char>::empty() + path =~= path);
    assert(pasted(whole, escapes) =~= seq![path]);
}

/// Whether a shell would escape a character of a path.
pub open spec fn special(c: char) -> bool {
    text::white_space(c) || c == '\'' || c == '"' || c == '\\'
}

/// A path as a shell escapes it.
pub open spec fn escaped(path: Seq<char>) -> Seq<char>
    decreases path.len(),
{
    if path.len() == 0 {
        Seq::empty()
    } else if special(path[0]) {
        seq!['\\', path[0]] + escaped(path.skip(1))
    } else {
        seq![path[0]] + escaped(path.skip(1))
    }
}

proof fn lemma_escaped_read(state: Lexing, path: Seq<char>)
    requires
        !state.escaped,
        state.quote is None,
    ensures
        state.read_all(escaped(path), true) == (Lexing {
            current: state.current + escaped(path),
            begun: state.begun || path.len() > 0,
            ..state
        }),
        unescaped(escaped(path)) == path,
    decreases path.len(),
{
    let whole = escaped(path);
    if path.len() == 0 {
        assert(state.current + whole =~= state.current);
        assert(unescaped(whole) =~= path);
    } else {
        let rest = path.skip(1);
        let later = escaped(rest);
        assert(path =~= seq![path[0]] + rest);
        if special(path[0]) {
            assert(whole.skip(1).skip(1) =~= later);
            assert(whole.skip(2) =~= later);
            let next = state.read('\\', true).read(path[0], true);
            lemma_escaped_read(next, rest);
            reveal_with_fuel(Lexing::read_all, 3);
            assert(state.current.push('\\').push(path[0]) + later =~= state.current + whole);
        } else {
            assert(whole.skip(1) =~= later);
            let next = state.read(path[0], true);
            lemma_escaped_read(next, rest);
            assert(state.current.push(path[0]) + later =~= state.current + whole);
        }
    }
}

/// A path as a shell escapes it is one token, and resolves to the path, unless
/// it reads as a file URL.
pub proof fn law_an_escaped_path_resolves_to_itself(path: Seq<char>, named: Option<Seq<u8>>)
    requires
        path.len() > 0,
        !is_file_url(escaped(path)),
    ensures
        pasted(escaped(path), true) == seq![escaped(path)],
        candidate_of(escaped(path), named, true) == Some(CandidateView::Text(path)),
{
    lemma_escaped_read(Lexing::start(), path);
    assert(Seq::<char>::empty() + escaped(path) =~= escaped(path));
    assert(pasted(escaped(path), true) =~= seq![escaped(path)]);
}

/// One token that is no path, or whose path is not there, and nothing is
/// dropped: all of a paste is a drop, or none of it is.
pub proof fn law_one_miss_fails_the_whole_paste(
    candidates: Seq<Option<CandidateView>>,
    found: Seq<Option<Found>>,
    miss: int,
)
    requires
        0 <= miss < candidates.len(),
        candidates[miss] is None || miss >= found.len() || found[miss] is None,
    ensures
        dropped(candidates, found) is None,
{
}

/// The tokens of a line are the words behind its sigils, and a sigil is one
/// where it starts the line or follows whitespace.
pub proof fn law_tokens_stand_behind_sigils(line: Seq<char>, token: Seq<char>)
    ensures
        tokens_of(line, 0).contains(token) == exists|i: int|
            0 <= i < line.len() && #[trigger] line[i] == '@' && (i == 0 || text::white_space(
                line[i - 1],
            )) && token == text::word(line.skip(i + 1)),
{
    if exists|i: int|
        0 <= i < line.len() && #[trigger] line[i] == '@' && (i == 0 || text::white_space(
            line[i - 1],
        )) && token == text::word(line.skip(i + 1)) {
        let i = choose|i: int|
            0 <= i < line.len() && #[trigger] line[i] == '@' && (i == 0 || text::white_space(
                line[i - 1],
            )) && token == text::word(line.skip(i + 1));
        lemma_opened_is_read(line, 0, i);
    }
    if tokens_of(line, 0).contains(token) {
        lemma_read_was_opened(line, 0, token);
    }
}

proof fn lemma_read_was_opened(line: Seq<char>, from: nat, token: Seq<char>)
    requires
        tokens_of(line, from).contains(token),
    ensures
        exists|i: int|
            0 <= i < line.len() && #[trigger] line[i] == '@' && (i == 0 || text::white_space(
                line[i - 1],
            )) && token == text::word(line.skip(i + 1)),
    decreases line.len() - from,
{
    if from < line.len() {
        if opens(line, from as int, '@') {
            let first = text::word(line.skip(from as int + 1));
            let rest = tokens_of(line, from + first.len() + 1);
            if token == first {
                assert(line[from as int] == '@');
            } else {
                let k = choose|k: int|
                    0 <= k < tokens_of(line, from).len() && tokens_of(line, from)[k] == token;
                assert(rest[k - 1] == token);
                lemma_read_was_opened(line, from + first.len() + 1, token);
            }
        } else {
            lemma_read_was_opened(line, from + 1, token);
        }
    }
}

/// A text mentions what its tokens mention, and lists nothing twice.
pub proof fn law_every_mention_is_listed_once(buffer: Seq<char>, mention: MentionView)
    ensures
        mentions(buffer).no_duplicates(),
        mentions(buffer).contains(mention) == exists|k: int|
            0 <= k < tokens_in(text::split(buffer, '\n'), 0).len() && mention_of(
                #[trigger] tokens_in(text::split(buffer, '\n'), 0)[k],
            ) == Some(mention),
{
    lemma_collected_once(Seq::empty(), tokens_in(text::split(buffer, '\n'), 0), mention);
}

proof fn lemma_collected_once(found: Seq<MentionView>, tokens: Seq<Seq<char>>, mention: MentionView)
    requires
        found.no_duplicates(),
    ensures
        collected(found, tokens).no_duplicates(),
        collected(found, tokens).contains(mention) == (found.contains(mention) || exists|k: int|
            0 <= k < tokens.len() && mention_of(#[trigger] tokens[k]) == Some(mention)),
    decreases tokens.len(),
{
    if tokens.len() > 0 {
        let next = with_token(found, tokens[0]);
        let rest = tokens.skip(1);
        if let Some(m) = mention_of(tokens[0]) {
            if !found.contains(m) {
                assert(next == found.push(m));
                assert(next[found.len() as int] == m);
                if found.contains(mention) {
                    let i = choose|i: int| 0 <= i < found.len() && found[i] == mention;
                    assert(next[i] == mention);
                }
                if next.contains(mention) && mention != m {
                    let i = choose|i: int| 0 <= i < next.len() && next[i] == mention;
                    assert(found[i] == mention);
                }
            }
        }
        assert(next.contains(mention) == (found.contains(mention) || mention_of(tokens[0]) == Some(
            mention,
        )));
        lemma_collected_once(next, rest, mention);
        if exists|k: int| 0 <= k < tokens.len() && mention_of(#[trigger] tokens[k]) == Some(
            mention,
        ) {
            let k = choose|k: int|
                0 <= k < tokens.len() && mention_of(#[trigger] tokens[k]) == Some(mention);
            if k > 0 {
                assert(rest[k - 1] == tokens[k]);
            }
        }
        if exists|k: int| 0 <= k < rest.len() && mention_of(#[trigger] rest[k]) == Some(mention) {
            let k = choose|k: int|
                0 <= k < rest.len() && mention_of(#[trigger] rest[k]) == Some(mention);
            assert(tokens[k + 1] == rest[k]);
        }
    }
}

/// The lines a token names behind its path: one number is where the file is
/// read from, a second is where it is read to, and one that is not behind the
/// first is dropped.
pub proof fn law_a_range_is_two_numbers(path: Seq<char>, start: u32, end: u32)
    requires
        path.len() > 0,
    ensures
        mention_of(path + seq!['#'] + text::decimal(start as nat)) == Some(
            (MentionView { path, start: Some(start), end: None }),
        ),
        mention_of(
            path + seq!['#'] + text::decimal(start as nat) + seq!['-'] + text::decimal(end as nat),
        ) == Some(
            (MentionView {
                path,
                start: Some(start),
                end: if start < end {
                    Some(end)
                } else {
                    None
                },
            }),
        ),
        (forall|i: int| 0 <= i < path.len() ==> path[i] != '#') ==> mention_of(path) == Some(
            (MentionView { path, start: None, end: None }),
        ),
{
    let a = text::decimal(start as nat);
    let b = text::decimal(end as nat);
    text::lemma_decimal(start as nat);
    text::lemma_decimal(end as nat);
    assert forall|i: int| 0 <= i < a.len() implies a[i] != '-' && a[i] != '#' by {
        assert(text::digit(a[i]));
    }
    assert forall|i: int| 0 <= i < b.len() implies b[i] != '-' && b[i] != '#' by {
        assert(text::digit(b[i]));
    }
    let n = path.len() as int;
    let one = path + seq!['#'] + a;
    lemma_last_of_unique(one, '#', n);
    assert(one.skip(n + 1) =~= a);
    assert(one.take(n) =~= path);
    text::lemma_first_of_unique(a, '-', a.len() as int);
    assert(a.take(a.len() as int) =~= a);
    let two = path + seq!['#'] + a + seq!['-'] + b;
    let suffix = a + seq!['-'] + b;
    assert(two.skip(n + 1) =~= suffix);
    assert forall|i: int| n < i < two.len() implies two[i] != '#' by {
        assert(two[i] == suffix[i - n - 1]);
        if i - n - 1 < a.len() {
            assert(suffix[i - n - 1] == a[i - n - 1]);
        } else if i - n - 1 > a.len() {
            assert(suffix[i - n - 1] == b[i - n - 2 - a.len()]);
        }
    }
    lemma_last_of_unique(two, '#', n);
    assert(two.take(n) =~= path);
    assert forall|i: int| 0 <= i < a.len() implies suffix[i] != '-' by {
        assert(suffix[i] == a[i]);
    }
    text::lemma_first_of_unique(suffix, '-', a.len() as int);
    assert(suffix.take(a.len() as int) =~= a);
    assert(suffix.skip(a.len() as int + 1) =~= b);
    if forall|i: int| 0 <= i < path.len() ==> path[i] != '#' {
        text::lemma_last_of(path, '#');
    }
}

/// A mention is attached exactly where its file is there, and where all are, all
/// of them are attached in their order.
pub proof fn law_what_is_there_is_attached(
    mentions: Seq<MentionView>,
    present: Seq<bool>,
    mention: MentionView,
)
    ensures
        kept(mentions, present).contains(mention) == exists|i: int|
            0 <= i < mentions.len() && i < present.len() && present[i] && #[trigger] mentions[i]
                == mention,
        mentions.len() <= present.len() && (forall|i: int|
            0 <= i < mentions.len() ==> #[trigger] present[i]) ==> kept(mentions, present)
            == mentions,
        kept(mentions, present).len() <= mentions.len(),
    decreases mentions.len(),
{
    if mentions.len() > 0 {
        let front = mentions.drop_last();
        law_what_is_there_is_attached(front, present, mention);
        let before = kept(front, present);
        let after = kept(mentions, present);
        let last = mentions.len() - 1;
        if before.contains(mention) {
            let i = choose|i: int|
                0 <= i < front.len() && i < present.len() && present[i] && #[trigger] front[i]
                    == mention;
            assert(mentions[i] == mention);
            let k = choose|k: int| 0 <= k < before.len() && before[k] == mention;
            assert(after[k] == mention);
        }
        if mentions.len() <= present.len() && present[last] {
            assert(after[before.len() as int] == mentions[last]);
        }
        if exists|i: int|
            0 <= i < mentions.len() && i < present.len() && present[i] && #[trigger] mentions[i]
                == mention {
            let i = choose|i: int|
                0 <= i < mentions.len() && i < present.len() && present[i]
                    && #[trigger] mentions[i] == mention;
            if i < last {
                assert(front[i] == mention);
            }
        }
        if after.contains(mention) {
            let k = choose|k: int| 0 <= k < after.len() && after[k] == mention;
            if k < before.len() {
                assert(before[k] == mention);
            } else {
                assert(mentions[last] == mention);
            }
        }
        if mentions.len() <= present.len() && (forall|i: int|
            0 <= i < mentions.len() ==> #[trigger] present[i]) {
            assert(front.push(mentions.last()) =~= mentions);
        }
    }
}

proof fn lemma_read_all_in_turn(state: Lexing, a: Seq<char>, b: Seq<char>, escapes: bool)
    ensures
        state.read_all(a + b, escapes) == state.read_all(a, escapes).read_all(b, escapes),
    decreases a.len(),
{
    if a.len() == 0 {
        assert(a + b =~= b);
    } else {
        assert((a + b).skip(1) =~= a.skip(1) + b);
        lemma_read_all_in_turn(state.read(a[0], escapes), a.skip(1), b, escapes);
    }
}

/// What was done before does not change how the rest is read.
proof fn lemma_done_before(done: Seq<Seq<char>>, state: Lexing, s: Seq<char>, escapes: bool)
    ensures
        (Lexing { done: done + state.done, ..state }).read_all(s, escapes) == (Lexing {
            done: done + state.read_all(s, escapes).done,
            ..state.read_all(s, escapes)
        }),
    decreases s.len(),
{
    if s.len() > 0 {
        let more = Lexing { done: done + state.done, ..state };
        let next = state.read(s[0], escapes);
        assert(more.read(s[0], escapes).done =~= done + next.done);
        lemma_done_before(done, next, s.skip(1), escapes);
    }
}

/// Whitespace outside quotes separates: the tokens of two texts with it between
/// them are those of the first and those of the second.
pub proof fn law_whitespace_separates_tokens(a: Seq<char>, c: char, b: Seq<char>, escapes: bool)
    requires
        text::white_space(c),
        Lexing::start().read_all(a, escapes).quote is None,
        !Lexing::start().read_all(a, escapes).escaped,
    ensures
        pasted(a + seq![c] + b, escapes) == pasted(a, escapes) + pasted(b, escapes),
{
    let start = Lexing::start();
    let state = start.read_all(a, escapes);
    lemma_read_all_in_turn(start, a + seq![c], b, escapes);
    lemma_read_all_in_turn(start, a, seq![c], escapes);
    assert(seq![c].skip(1) =~= Seq::<char>::empty());
    reveal_with_fuel(Lexing::read_all, 2);
    let next = state.read(c, escapes);
    assert(start.read_all(a + seq![c], escapes) == next);
    let tokens = state.tokens();
    lemma_not_begun(start, a, escapes);
    assert(next.done == tokens);
    assert(tokens + start.done =~= tokens);
    assert(next == (Lexing { done: tokens + start.done, ..start }));
    lemma_done_before(tokens, start, b, escapes);
    let last = start.read_all(b, escapes);
    assert(pasted(a + seq![c] + b, escapes) =~= tokens + last.tokens());
}

/// What has not begun is empty.
proof fn lemma_not_begun(state: Lexing, s: Seq<char>, escapes: bool)
    requires
        !state.begun ==> state.current == Seq::<char>::empty() && !state.escaped && state.quote
            is None,
    ensures
        !state.read_all(s, escapes).begun ==> state.read_all(s, escapes).current == Seq::<
            char,
        >::empty(),
    decreases s.len(),
{
    if s.len() > 0 {
        lemma_not_begun(state.read(s[0], escapes), s.skip(1), escapes);
    }
}

/// A path in double quotes is one token too, whatever blanks and single quotes
/// it holds.
pub proof fn law_a_doubly_quoted_path_is_one_token(path: Seq<char>, escapes: bool)
    requires
        forall|i: int| 0 <= i < path.len() ==> path[i] != '"',
    ensures
        pasted(seq!['"'] + path + seq!['"'], escapes) == seq![path],
{
    let whole = seq!['"'] + path + seq!['"'];
    let opened = Lexing::start().read('"', escapes);
    assert(whole.skip(1) =~= path.push('"'));
    lemma_doubly_quoted_read(opened, path, escapes);
    assert(Seq::<char>::empty() + path =~= path);
    assert(pasted(whole, escapes) =~= seq![path]);
}

proof fn lemma_doubly_quoted_read(state: Lexing, s: Seq<char>, escapes: bool)
    requires
        !state.escaped,
        state.quote == Some('"'),
        forall|i: int| 0 <= i < s.len() ==> s[i] != '"',
    ensures
        state.read_all(s.push('"'), escapes) == (Lexing {
            current: state.current + s,
            quote: None,
            ..state
        }),
    decreases s.len(),
{
    let whole = s.push('"');
    if s.len() == 0 {
        assert(whole[0] == '"');
        assert(whole.skip(1) =~= Seq::empty());
        reveal_with_fuel(Lexing::read_all, 2);
        assert(state.current + s =~= state.current);
    } else {
        let rest = s.skip(1);
        assert(forall|i: int| 0 <= i < rest.len() ==> rest[i] == s[i + 1]);
        assert(whole.skip(1) =~= rest.push('"'));
        lemma_doubly_quoted_read(state.read(s[0], escapes), rest, escapes);
        assert(state.current.push(s[0]) + rest =~= state.current + s);
    }
}

/// Where every token is a path that is there, the paste is a drop of all of
/// them in order, each shown below the root where it is under it and absolute
/// where it is not.
pub proof fn law_a_drop_shows_every_path(
    candidates: Seq<Option<CandidateView>>,
    found: Seq<Option<Found>>,
    i: int,
)
    requires
        candidates.len() == found.len(),
        0 <= i < found.len(),
        forall|k: int|
            0 <= k < found.len() ==> (#[trigger] found[k]) is Some && candidates[k] is Some,
    ensures
        dropped(candidates, found) matches Some(shown) && shown.len() == found.len() && shown[i]
            == (match found[i].unwrap().relative {
            Some(path) => path@,
            None => found[i].unwrap().absolute@,
        }),
{
    assert forall|k: int| 0 <= k < candidates.len() implies (#[trigger] candidates[k]) is Some
        && found[k] is Some by {
        assert(found[k] is Some);
    }
}

/// A word typed behind a sigil is offered while the cursor is at its end,
/// where the sigil starts the line or follows whitespace, and is not where
/// anything else stands in front of it.
pub proof fn law_a_typed_word_is_offered(
    buffer: Seq<char>,
    row: nat,
    front: Seq<char>,
    sigil: char,
    word: Seq<char>,
    behind: Seq<char>,
)
    requires
        row < text::split(buffer, '\n').len(),
        text::split(buffer, '\n')[row as int] == front + seq![sigil] + word + behind,
        unbroken(word),
        forall|i: int| 0 <= i < word.len() ==> word[i] != sigil,
    ensures
        front.len() == 0 || text::white_space(front.last()) ==> offered(
            buffer,
            row,
            front.len() + 1 + word.len(),
            sigil,
        ) == Some((FragmentView { row, start: front.len(), text: word })),
        front.len() > 0 && !text::white_space(front.last()) ==> offered(
            buffer,
            row,
            front.len() + 1 + word.len(),
            sigil,
        ) is None,
{
    let line = front + seq![sigil] + word + behind;
    let column = front.len() + 1 + word.len();
    let prefix = before_cursor(line, column);
    assert(prefix =~= front + seq![sigil] + word);
    let at = front.len() as int;
    assert forall|i: int| at < i < prefix.len() implies prefix[i] != sigil by {
        assert(prefix[i] == word[i - at - 1]);
    }
    lemma_last_of_unique(prefix, sigil, at);
    assert(prefix.skip(at + 1) =~= word);
    if at > 0 {
        assert(prefix[at - 1] == front.last());
    }
}

} // verus!
