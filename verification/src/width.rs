//! Display width: how many terminal columns text occupies.

use vstd::prelude::*;

use crate::text::{slice_chars, to_chars};

verus! {

/// The columns a text occupies, as the `unicode-width` crate measures them.
pub uninterp spec fn width_of(text: Seq<char>) -> nat;

/// `unicode_width::char_iter_width`: the columns of a text, measured over its
/// characters as `UnicodeWidthStr::width` measures a string. The number is
/// named, not described.
#[verifier::external_body]
pub(crate) fn chars_width(text: &[char]) -> (columns: usize)
    ensures
        columns == width_of(text@),
{
    unicode_width::char_iter_width(text.iter().copied())
}

/// The sum of two column counts, capped at the largest the machine can count.
pub open spec fn columns(a: nat, b: nat) -> nat {
    if a + b <= usize::MAX {
        a + b
    } else {
        usize::MAX as nat
    }
}

/// What is left of `width` behind `used` columns.
pub open spec fn room(width: nat, used: nat) -> nat {
    if used <= width {
        (width - used) as nat
    } else {
        0
    }
}

/// How far a text reaches in `width` columns, given that its first `n`
/// characters are kept whatever they take: up to the first character with
/// which the front no longer fits. Measuring whole fronts keeps together the
/// characters that are drawn as one.
pub open spec fn fitting(text: Seq<char>, n: nat, width: nat) -> nat
    decreases text.len() - n,
{
    if n >= text.len() {
        text.len()
    } else if width_of(text.take(n as int + 1)) > width {
        n
    } else {
        fitting(text, n + 1, width)
    }
}

/// The columns a cut may use: `width`, and as many as the first character takes
/// at least.
pub open spec fn allowance(text: Seq<char>, width: nat) -> nat {
    if width_of(text.take(1)) > width {
        width_of(text.take(1))
    } else {
        width
    }
}

/// Where a text is cut to fit `width` columns: behind the last character that
/// still fits, and behind the first one whatever its width, with those that are
/// drawn as one with it.
pub open spec fn cut(text: Seq<char>, width: nat) -> nat {
    if text.len() == 0 {
        0
    } else {
        fitting(text, 1, allowance(text, width))
    }
}

/// What fits is at least what is kept anyway, at most the whole text, and takes
/// no more than `width` columns where more was kept than had to be.
pub proof fn lemma_fitting(text: Seq<char>, n: nat, width: nat)
    requires
        n <= text.len(),
    ensures
        n <= fitting(text, n, width) <= text.len(),
        fitting(text, n, width) > n ==> width_of(text.take(fitting(text, n, width) as int)) <= width,
    decreases text.len() - n,
{
    if n >= text.len() {
    } else if width_of(text.take(n as int + 1)) > width {
    } else {
        lemma_fitting(text, n + 1, width);
    }
}

/// A cut keeps at least one character of a text that has any, and takes no more
/// columns than it may use.
pub proof fn lemma_cut(text: Seq<char>, width: nat)
    ensures
        cut(text, width) <= text.len(),
        text.len() > 0 ==> cut(text, width) > 0,
        text.len() > 0 ==> width_of(text.take(cut(text, width) as int)) <= allowance(text, width),
{
    if text.len() > 0 {
        lemma_fitting(text, 1, allowance(text, width));
    }
}

/// The number of characters of `text` that [`fitting`] keeps.
pub fn fit_at(text: &[char], n: usize, width: usize) -> (at: usize)
    requires
        n <= text@.len(),
    ensures
        at == fitting(text@, n as nat, width as nat),
        n <= at <= text@.len(),
{
    let mut at: usize = n;
    let mut front = slice_chars(text, 0, n);
    assert(front@ =~= text@.take(n as int));
    while at < text.len()
        invariant
            n <= at <= text@.len(),
            front@ == text@.take(at as int),
            fitting(text@, n as nat, width as nat) == fitting(text@, at as nat, width as nat),
        decreases text.len() - at,
    {
        front.push(text[at]);
        assert(front@ =~= text@.take(at + 1));
        if chars_width(&front) > width {
            return at;
        }
        at += 1;
    }
    at
}

/// The number of characters of `text` that [`cut`] keeps.
pub fn cut_at(text: &[char], width: usize) -> (n: usize)
    ensures
        n == cut(text@, width as nat),
        n <= text@.len(),
        text@.len() > 0 ==> n > 0,
{
    if text.len() == 0 {
        0
    } else {
        let first = slice_chars(text, 0, 1);
        assert(first@ =~= text@.take(1));
        let least = chars_width(&first);
        fit_at(
            text,
            1,
            if least > width {
                least
            } else {
                width
            },
        )
    }
}

/// The columns a string occupies.
pub fn str_width(text: &str) -> (n: usize)
    ensures
        n == width_of(text@),
{
    let chars = to_chars(text);
    chars_width(&chars)
}

/// `n` copies of a character.
pub open spec fn repeated(c: char, n: nat) -> Seq<char> {
    Seq::new(n, |i: int| c)
}

/// `n` copies of a character.
pub fn repeat_char(c: char, n: usize) -> (s: String)
    ensures
        s@ == repeated(c, n as nat),
{
    let mut s = String::new();
    let mut i: usize = 0;
    while i < n
        invariant
            i <= n,
            s@ == repeated(c, i as nat),
        decreases n - i,
    {
        s.push(c);
        i += 1;
        assert(s@ =~= repeated(c, i as nat));
    }
    s
}

/// A cut is as far as a text reaches: every front of it up to there takes no
/// more than the columns it may use, and with one character more it would.
pub proof fn law_a_cut_reaches_as_far_as_it_fits(text: Seq<char>, width: nat)
    requires
        text.len() > 0,
    ensures
        1 <= cut(text, width) <= text.len(),
        forall|n: int|
            1 < n <= cut(text, width) ==> width_of(#[trigger] text.take(n)) <= allowance(
                text,
                width,
            ),
        width_of(text.take(1)) <= width ==> forall|n: int|
            1 <= n <= cut(text, width) ==> width_of(#[trigger] text.take(n)) <= width,
        cut(text, width) < text.len() ==> width_of(text.take(cut(text, width) as int + 1)) > width,
{
    lemma_fitting_fronts(text, 1, allowance(text, width));
}

/// What fits is all that does: every longer front up to there fits, and the one
/// behind it does not.
pub proof fn lemma_fitting_fronts(text: Seq<char>, n: nat, width: nat)
    requires
        n <= text.len(),
    ensures
        n <= fitting(text, n, width) <= text.len(),
        forall|m: int|
            n < m <= fitting(text, n, width) ==> width_of(#[trigger] text.take(m)) <= width,
        fitting(text, n, width) < text.len() ==> width_of(
            text.take(fitting(text, n, width) as int + 1),
        ) > width,
    decreases text.len() - n,
{
    if n < text.len() && width_of(text.take(n as int + 1)) <= width {
        lemma_fitting_fronts(text, n + 1, width);
    }
}

} // verus!
