//! Text as sequences of characters: the small vocabulary the other modules
//! state their contracts in, and its executable counterparts.

use vstd::prelude::*;

verus! {

/// `String::push` adds one character at the end.
pub assume_specification[ String::push ](s: &mut String, c: char)
    ensures
        final(s)@ == old(s)@.push(c),
;

/// `String::push_str` adds a whole string at the end.
pub assume_specification[ String::push_str ](s: &mut String, other: &str)
    ensures
        final(s)@ == old(s)@ + other@,
;

/// Unicode's `White_Space` property: the tab and the line breaks, the two
/// Latin-1 spaces and the typographic ones.
pub open spec fn white_space(c: char) -> bool {
    let n = c as u32;
    ||| 0x09 <= n <= 0x0d
    ||| n == 0x20
    ||| n == 0x85
    ||| n == 0xa0
    ||| n == 0x1680
    ||| 0x2000 <= n <= 0x200a
    ||| n == 0x2028
    ||| n == 0x2029
    ||| n == 0x202f
    ||| n == 0x205f
    ||| n == 0x3000
}

/// The general category `Cc`: the C0 and C1 controls and delete.
pub open spec fn control(c: char) -> bool {
    let n = c as u32;
    n <= 0x1f || 0x7f <= n <= 0x9f
}

/// `char::is_whitespace`: whether a character has the `White_Space` property.
#[verifier::external_body]
pub(crate) fn is_whitespace(c: char) -> (r: bool)
    ensures
        r == white_space(c),
{
    c.is_whitespace()
}

/// `char::is_control`: whether a character is in the general category `Cc`.
#[verifier::external_body]
pub(crate) fn is_control(c: char) -> (r: bool)
    ensures
        r == control(c),
{
    c.is_control()
}

/// Whether `c` is one of `0` to `9`.
pub open spec fn digit(c: char) -> bool {
    '0' <= c <= '9'
}

/// The value of a decimal digit.
pub open spec fn digit_value(c: char) -> nat {
    (c as nat - '0' as nat) as nat
}

/// The value of a run of decimal digits, most significant first.
pub open spec fn digits_value(s: Seq<char>) -> nat
    decreases s.len(),
{
    if s.len() == 0 {
        0
    } else {
        digits_value(s.drop_last()) * 10 + digit_value(s.last())
    }
}

/// One digit or more, and nothing else.
pub open spec fn all_digits(s: Seq<char>) -> bool {
    &&& s.len() > 0
    &&& forall|i: int| 0 <= i < s.len() ==> digit(#[trigger] s[i])
}

/// An unsigned number as Rust reads one: an optional `+`, then digits whose
/// value is at most `max`.
pub open spec fn parsed(s: Seq<char>, max: nat) -> Option<nat> {
    let digits = if s.len() > 0 && s[0] == '+' {
        s.skip(1)
    } else {
        s
    };
    if all_digits(digits) && digits_value(digits) <= max {
        Some(digits_value(digits))
    } else {
        None
    }
}

/// The character of a single decimal digit.
pub open spec fn digit_char(n: nat) -> char {
    ('0' as nat + n) as char
}

/// The decimal spelling of a number, without leading zeros.
pub open spec fn decimal(n: nat) -> Seq<char>
    decreases n,
{
    if n < 10 {
        seq![digit_char(n)]
    } else {
        decimal(n / 10).push(digit_char(n % 10))
    }
}

/// Where the first `sep` of a text stands, or its length where there is none.
pub open spec fn first_of(s: Seq<char>, sep: char) -> int
    decreases s.len(),
{
    if s.len() == 0 || s[0] == sep {
        0
    } else {
        1 + first_of(s.skip(1), sep)
    }
}

/// The pieces between the separators of a text; always one at least.
pub open spec fn split(s: Seq<char>, sep: char) -> Seq<Seq<char>>
    decreases s.len(),
    via split_decreases
{
    let at = first_of(s, sep);
    if at >= s.len() {
        seq![s]
    } else {
        seq![s.take(at)] + split(s.skip(at + 1), sep)
    }
}

#[via_fn]
proof fn split_decreases(s: Seq<char>, sep: char) {
    lemma_first_of(s, sep);
}

/// The first separator is within the text or at its end, and nothing before it
/// is one.
pub proof fn lemma_first_of(s: Seq<char>, sep: char)
    ensures
        0 <= first_of(s, sep) <= s.len(),
        first_of(s, sep) < s.len() ==> s[first_of(s, sep)] == sep,
        forall|i: int| 0 <= i < first_of(s, sep) ==> s[i] != sep,
    decreases s.len(),
{
    if s.len() == 0 || s[0] == sep {
    } else {
        let rest = s.skip(1);
        lemma_first_of(rest, sep);
        let at = first_of(rest, sep);
        assert forall|i: int| 0 <= i < first_of(s, sep) implies s[i] != sep by {
            if i > 0 {
                assert(rest[i - 1] == s[i]);
            }
        }
    }
}

/// The first separator is the only place that is one with none before it.
pub proof fn lemma_first_of_unique(s: Seq<char>, sep: char, at: int)
    requires
        0 <= at <= s.len(),
        at < s.len() ==> s[at] == sep,
        forall|i: int| 0 <= i < at ==> s[i] != sep,
    ensures
        first_of(s, sep) == at,
{
    lemma_first_of(s, sep);
    let first = first_of(s, sep);
    if first < at {
        assert(s[first] != sep);
    }
    if at < first {
        assert(s[at] != sep);
    }
}

/// A text without the whitespace in front of it.
pub open spec fn trim_start(s: Seq<char>) -> Seq<char>
    decreases s.len(),
{
    if s.len() > 0 && white_space(s[0]) {
        trim_start(s.skip(1))
    } else {
        s
    }
}

/// A text without the whitespace behind it.
pub open spec fn trim_end(s: Seq<char>) -> Seq<char>
    decreases s.len(),
{
    if s.len() > 0 && white_space(s.last()) {
        trim_end(s.drop_last())
    } else {
        s
    }
}

/// A text without the whitespace around it.
pub open spec fn trim(s: Seq<char>) -> Seq<char> {
    trim_end(trim_start(s))
}

/// A text without the copies of `c` behind it.
pub open spec fn trim_end_of(s: Seq<char>, c: char) -> Seq<char>
    decreases s.len(),
{
    if s.len() > 0 && s.last() == c {
        trim_end_of(s.drop_last(), c)
    } else {
        s
    }
}

/// The characters in front of the first whitespace of a text.
pub open spec fn word(s: Seq<char>) -> Seq<char>
    decreases s.len(),
{
    if s.len() == 0 || white_space(s[0]) {
        Seq::empty()
    } else {
        seq![s[0]] + word(s.skip(1))
    }
}

/// The first whitespace-separated word of a text.
pub open spec fn first_word(s: Seq<char>) -> Option<Seq<char>> {
    if trim_start(s).len() == 0 {
        None
    } else {
        Some(word(trim_start(s)))
    }
}

/// The lines of a text, each with the line break that ends it.
pub open spec fn whole_lines(s: Seq<char>) -> Seq<Seq<char>>
    decreases s.len(),
{
    if s.len() == 0 {
        Seq::empty()
    } else {
        proof {
            lemma_first_of(s, '\n');
        }
        let at = first_of(s, '\n');
        if at >= s.len() {
            seq![s]
        } else {
            seq![s.take(at + 1)] + whole_lines(s.skip(at + 1))
        }
    }
}

/// A longer run of digits never has a smaller value.
proof fn lemma_value_grows(s: Seq<char>, i: int)
    requires
        0 <= i <= s.len(),
    ensures
        digits_value(s.take(i)) <= digits_value(s),
    decreases s.len() - i,
{
    if i < s.len() {
        lemma_value_grows(s, i + 1);
        assert(s.take(i + 1).drop_last() =~= s.take(i));
    } else {
        assert(s.take(i) =~= s);
    }
}

/// The decimal spelling of a number is made of digits and has its value.
pub proof fn lemma_decimal(n: nat)
    ensures
        all_digits(decimal(n)),
        digits_value(decimal(n)) == n,
    decreases n,
{
    let last = digit_char(n % 10);
    assert(digit(last) && digit_value(last) == n % 10);
    if n < 10 {
        let s = decimal(n);
        assert(s.drop_last() =~= Seq::<char>::empty());
        assert(digits_value(s.drop_last()) == 0);
        assert(s.last() == last);
    } else {
        lemma_decimal(n / 10);
        let s = decimal(n);
        assert(s.drop_last() =~= decimal(n / 10));
        assert(s.last() == last);
        assert forall|i: int| 0 <= i < s.len() implies digit(#[trigger] s[i]) by {
            if i < s.len() - 1 {
                assert(s[i] == decimal(n / 10)[i]);
            }
        }
    }
}

/// What is spelled in decimal is read back as the same number.
pub proof fn law_decimal_reads_back(n: nat, max: nat)
    requires
        n <= max,
    ensures
        parsed(decimal(n), max) == Some(n),
{
    lemma_decimal(n);
    assert(digit(decimal(n)[0]));
}

/// The characters of a string, in order.
pub fn to_chars(s: &str) -> (v: Vec<char>)
    ensures
        v@ == s@,
{
    let mut v: Vec<char> = Vec::new();
    for c in it: s.chars()
        invariant
            v@ == s@.take(it.index()),
            it.seq() == s@,
    {
        assert(s@.take(it.index() + 1) =~= s@.take(it.index()).push(s@[it.index()]));
        v.push(c);
    }
    assert(s@.take(s@.len() as int) =~= s@);
    v
}

/// The string that holds exactly these characters.
pub fn from_chars(v: &[char]) -> (s: String)
    ensures
        s@ == v@,
{
    let mut s = String::new();
    let mut i: usize = 0;
    while i < v.len()
        invariant
            i <= v.len(),
            s@ == v@.take(i as int),
        decreases v.len() - i,
    {
        assert(v@.take(i + 1) =~= v@.take(i as int).push(v@[i as int]));
        s.push(v[i]);
        i += 1;
    }
    assert(v@.take(v@.len() as int) =~= v@);
    s
}

/// Whether two runs of characters are the same.
pub fn chars_eq(a: &[char], b: &[char]) -> (r: bool)
    ensures
        r == (a@ == b@),
{
    if a.len() != b.len() {
        return false;
    }
    let mut i: usize = 0;
    while i < a.len()
        invariant
            i <= a.len(),
            a.len() == b.len(),
            forall|k: int| 0 <= k < i ==> a@[k] == b@[k],
        decreases a.len() - i,
    {
        if a[i] != b[i] {
            return false;
        }
        i += 1;
    }
    assert(a@ =~= b@);
    true
}

/// Whether two strings hold the same characters.
pub fn str_eq(a: &str, b: &str) -> (r: bool)
    ensures
        r == (a@ == b@),
{
    let left = to_chars(a);
    let right = to_chars(b);
    chars_eq(&left, &right)
}

/// The characters from `from` up to `to`.
pub fn slice_chars(s: &[char], from: usize, to: usize) -> (v: Vec<char>)
    requires
        from <= to <= s@.len(),
    ensures
        v@ == s@.subrange(from as int, to as int),
{
    let mut v: Vec<char> = Vec::new();
    let mut i: usize = from;
    while i < to
        invariant
            from <= i <= to <= s@.len(),
            v@ == s@.subrange(from as int, i as int),
        decreases to - i,
    {
        assert(s@.subrange(from as int, i + 1) =~= s@.subrange(from as int, i as int).push(
            s@[i as int],
        ));
        v.push(s[i]);
        i += 1;
    }
    v
}

/// Splits a text at every `sep`; see [`split`].
pub fn split_chars(s: &[char], sep: char) -> (pieces: Vec<Vec<char>>)
    ensures
        pieces@.len() == split(s@, sep).len(),
        pieces@.len() > 0,
        forall|i: int| 0 <= i < pieces@.len() ==> (#[trigger] pieces@[i])@ == split(s@, sep)[i],
{
    let mut pieces: Vec<Vec<char>> = Vec::new();
    let mut start: usize = 0;
    let mut i: usize = 0;
    assert(s@.skip(0) =~= s@);
    while i < s.len()
        invariant
            start <= i <= s.len(),
            forall|k: int| start <= k < i ==> s@[k] != sep,
            pieces@.len() + split(s@.skip(start as int), sep).len() == split(s@, sep).len(),
            forall|k: int|
                0 <= k < pieces@.len() ==> (#[trigger] pieces@[k])@ == split(s@, sep)[k],
            forall|k: int|
                0 <= k < split(s@.skip(start as int), sep).len() ==> #[trigger] split(s@, sep)[k
                    + pieces@.len()] == split(s@.skip(start as int), sep)[k],
        decreases s.len() - i,
    {
        if s[i] == sep {
            let ghost rest = s@.skip(start as int);
            let ghost later = s@.skip(i + 1);
            let ghost done = pieces@;
            proof {
                assert(rest[i - start] == sep);
                assert forall|k: int| 0 <= k < i - start implies rest[k] != sep by {
                    assert(rest[k] == s@[k + start]);
                }
                lemma_first_of_unique(rest, sep, i - start);
                assert(rest.skip(i - start + 1) =~= later);
                assert(rest.take(i - start) =~= s@.subrange(start as int, i as int));
                assert(split(rest, sep) =~= seq![rest.take(i - start)] + split(later, sep));
                assert(split(s@, sep)[0int + done.len()] == split(rest, sep)[0]);
            }
            pieces.push(slice_chars(s, start, i));
            start = i + 1;
            proof {
                assert forall|k: int| 0 <= k < split(later, sep).len() implies #[trigger] split(
                    s@,
                    sep,
                )[k + pieces@.len()] == split(later, sep)[k] by {
                    assert(split(s@, sep)[(k + 1) + done.len()] == split(rest, sep)[k + 1]);
                }
            }
        }
        i += 1;
    }
    let ghost rest = s@.skip(start as int);
    let ghost done = pieces@;
    proof {
        assert forall|k: int| 0 <= k < rest.len() implies rest[k] != sep by {
            assert(rest[k] == s@[k + start]);
        }
        lemma_first_of_unique(rest, sep, rest.len() as int);
        assert(split(rest, sep) =~= seq![rest]);
        assert(rest =~= s@.subrange(start as int, s@.len() as int));
        assert(split(s@, sep)[0int + done.len()] == split(rest, sep)[0]);
    }
    pieces.push(slice_chars(s, start, s.len()));
    pieces
}

/// Whether `c` is one of `0` to `9`.
pub fn is_digit(c: char) -> (r: bool)
    ensures
        r == digit(c),
{
    '0' <= c && c <= '9'
}

/// Reads an unsigned number no greater than `max`; see [`parsed`].
pub fn parse_unsigned(s: &[char], max: u32) -> (r: Option<u32>)
    ensures
        r is Some <==> parsed(s@, max as nat) is Some,
        r matches Some(n) ==> parsed(s@, max as nat) == Some(n as nat),
{
    let start: usize = if s.len() > 0 && s[0] == '+' {
        1
    } else {
        0
    };
    let ghost digits = s@.skip(start as int);
    assert(start == 0 ==> digits =~= s@);
    if start == s.len() {
        return None;
    }
    let mut value: u64 = 0;
    let mut i: usize = start;
    while i < s.len()
        invariant
            start <= i <= s.len(),
            start < s.len(),
            digits == s@.skip(start as int),
            parsed(s@, max as nat) == (if all_digits(digits) && digits_value(digits) <= max {
                Some(digits_value(digits))
            } else {
                None
            }),
            forall|k: int| 0 <= k < i - start ==> digit(#[trigger] digits[k]),
            value == digits_value(digits.take(i - start)),
            value <= max,
        decreases s.len() - i,
    {
        let c = s[i];
        assert(digits[i - start] == c);
        if !is_digit(c) {
            return None;
        }
        value = value * 10 + (c as u64 - '0' as u64);
        assert(digits.take(i + 1 - start).drop_last() =~= digits.take(i - start));
        if value > max as u64 {
            proof {
                lemma_value_grows(digits, i + 1 - start);
            }
            return None;
        }
        i += 1;
    }
    assert(digits.take(i - start) =~= digits);
    Some(value as u32)
}

/// Adds the decimal spelling of `n` to a string.
pub fn push_decimal(out: &mut String, n: u64)
    ensures
        final(out)@ == old(out)@ + decimal(n as nat),
    decreases n,
{
    let c = (48u8 + (n % 10) as u8) as char;
    assert(c == digit_char(n as nat % 10));
    if n >= 10 {
        push_decimal(out, n / 10);
    }
    out.push(c);
    assert(out@ =~= old(out)@ + decimal(n as nat));
}

/// Drops the whitespace in front of a text.
pub fn trim_start_chars(s: &[char]) -> (v: Vec<char>)
    ensures
        v@ == trim_start(s@),
{
    let mut i: usize = 0;
    assert(s@.skip(0) =~= s@);
    while i < s.len() && is_whitespace(s[i])
        invariant
            i <= s.len(),
            trim_start(s@) == trim_start(s@.skip(i as int)),
        decreases s.len() - i,
    {
        assert(s@.skip(i as int).skip(1) =~= s@.skip(i + 1));
        i += 1;
    }
    let v = slice_chars(s, i, s.len());
    assert(v@ =~= s@.skip(i as int));
    v
}

/// Drops the whitespace behind a text.
pub fn trim_end_chars(s: &[char]) -> (v: Vec<char>)
    ensures
        v@ == trim_end(s@),
{
    let mut n: usize = s.len();
    assert(s@.take(n as int) =~= s@);
    while n > 0 && is_whitespace(s[n - 1])
        invariant
            n <= s.len(),
            trim_end(s@) == trim_end(s@.take(n as int)),
        decreases n,
    {
        assert(s@.take(n as int).drop_last() =~= s@.take(n - 1));
        n -= 1;
    }
    let v = slice_chars(s, 0, n);
    assert(v@ =~= s@.take(n as int));
    v
}

/// Drops the whitespace around a text.
pub fn trim_chars(s: &[char]) -> (v: Vec<char>)
    ensures
        v@ == trim(s@),
{
    let front = trim_start_chars(s);
    trim_end_chars(&front)
}

/// Drops the copies of `c` behind a text.
pub fn trim_end_of_chars(s: &[char], c: char) -> (v: Vec<char>)
    ensures
        v@ == trim_end_of(s@, c),
{
    let mut n: usize = s.len();
    assert(s@.take(n as int) =~= s@);
    while n > 0 && s[n - 1] == c
        invariant
            n <= s.len(),
            trim_end_of(s@, c) == trim_end_of(s@.take(n as int), c),
        decreases n,
    {
        assert(s@.take(n as int).drop_last() =~= s@.take(n - 1));
        n -= 1;
    }
    let v = slice_chars(s, 0, n);
    assert(v@ =~= s@.take(n as int));
    v
}

/// The first whitespace-separated word of a text.
pub fn first_word_of(s: &[char]) -> (r: Option<Vec<char>>)
    ensures
        r is Some <==> first_word(s@) is Some,
        r matches Some(w) ==> first_word(s@) == Some(w@),
{
    let front = trim_start_chars(s);
    if front.len() == 0 {
        return None;
    }
    let mut out: Vec<char> = Vec::new();
    let mut i: usize = 0;
    assert(front@.skip(0) =~= front@);
    assert(out@ + word(front@) =~= word(front@));
    while i < front.len() && !is_whitespace(front[i])
        invariant
            i <= front.len(),
            word(front@) == out@ + word(front@.skip(i as int)),
        decreases front.len() - i,
    {
        let ghost rest = front@.skip(i as int);
        assert(rest.skip(1) =~= front@.skip(i + 1));
        assert(out@ + (seq![rest[0]] + word(rest.skip(1))) =~= out@.push(rest[0]) + word(
            rest.skip(1),
        ));
        out.push(front[i]);
        i += 1;
    }
    assert(out@ + Seq::<char>::empty() =~= out@);
    Some(out)
}

/// The lines of a text, each with the line break that ends it.
pub fn whole_lines_of(s: &[char]) -> (lines: Vec<Vec<char>>)
    ensures
        lines@.len() == whole_lines(s@).len(),
        forall|i: int| 0 <= i < lines@.len() ==> (#[trigger] lines@[i])@ == whole_lines(s@)[i],
{
    let mut lines: Vec<Vec<char>> = Vec::new();
    let mut start: usize = 0;
    let mut i: usize = 0;
    assert(s@.skip(0) =~= s@);
    while i < s.len()
        invariant
            start <= i <= s.len(),
            forall|k: int| start <= k < i ==> s@[k] != '\n',
            lines@.len() + whole_lines(s@.skip(start as int)).len() == whole_lines(s@).len(),
            forall|k: int|
                0 <= k < lines@.len() ==> (#[trigger] lines@[k])@ == whole_lines(s@)[k],
            forall|k: int|
                0 <= k < whole_lines(s@.skip(start as int)).len() ==> #[trigger] whole_lines(s@)[k
                    + lines@.len()] == whole_lines(s@.skip(start as int))[k],
        decreases s.len() - i,
    {
        if s[i] == '\n' {
            let ghost rest = s@.skip(start as int);
            let ghost later = s@.skip(i + 1);
            let ghost done = lines@;
            proof {
                assert(rest[i - start] == '\n');
                assert forall|k: int| 0 <= k < i - start implies rest[k] != '\n' by {
                    assert(rest[k] == s@[k + start]);
                }
                lemma_first_of_unique(rest, '\n', i - start);
                assert(rest.skip(i - start + 1) =~= later);
                assert(rest.take(i - start + 1) =~= s@.subrange(start as int, i + 1));
                assert(whole_lines(rest) =~= seq![rest.take(i - start + 1)] + whole_lines(later));
                assert(whole_lines(s@)[0int + done.len()] == whole_lines(rest)[0]);
            }
            lines.push(slice_chars(s, start, i + 1));
            start = i + 1;
            proof {
                assert forall|k: int| 0 <= k < whole_lines(later).len() implies #[trigger] whole_lines(
                    s@,
                )[k + lines@.len()] == whole_lines(later)[k] by {
                    assert(whole_lines(s@)[(k + 1) + done.len()] == whole_lines(rest)[k + 1]);
                }
            }
        }
        i += 1;
    }
    let ghost rest = s@.skip(start as int);
    if start < s.len() {
        let ghost done = lines@;
        proof {
            assert forall|k: int| 0 <= k < rest.len() implies rest[k] != '\n' by {
                assert(rest[k] == s@[k + start]);
            }
            lemma_first_of_unique(rest, '\n', rest.len() as int);
            assert(whole_lines(rest) =~= seq![rest]);
            assert(rest =~= s@.subrange(start as int, s@.len() as int));
            assert(whole_lines(s@)[0int + done.len()] == whole_lines(rest)[0]);
        }
        lines.push(slice_chars(s, start, s.len()));
    } else {
        assert(rest.len() == 0);
    }
    lines
}

/// The text between two byte offsets of a string, where both are within it and
/// on character boundaries.
pub open spec fn byte_slice(s: Seq<char>, start: nat, end: nat) -> Option<Seq<char>> {
    let bytes = vstd::utf8::encode_utf8(s);
    if start <= end <= bytes.len() && vstd::utf8::is_char_boundary(bytes, start as int)
        && vstd::utf8::is_char_boundary(bytes, end as int) {
        Some(vstd::utf8::decode_utf8(bytes.subrange(start as int, end as int)))
    } else {
        None
    }
}

/// `str::get` with a range of byte offsets: the part of the string between
/// them, or nothing where an offset is out of bounds or splits a character.
#[verifier::external_body]
pub(crate) fn slice_bytes(s: &str, start: usize, end: usize) -> (r: Option<&str>)
    ensures
        r is Some <==> byte_slice(s@, start as nat, end as nat) is Some,
        r matches Some(part) ==> byte_slice(s@, start as nat, end as nat) == Some(part@),
{
    s.get(start..end)
}

/// Runs of characters as strings.
pub open spec fn texts(strings: Seq<String>) -> Seq<Seq<char>> {
    Seq::new(strings.len(), |i: int| strings[i]@)
}

/// Texts one behind the other, with a separator between any two.
pub open spec fn joined(parts: Seq<Seq<char>>, sep: Seq<char>) -> Seq<char>
    decreases parts.len(),
{
    if parts.len() == 0 {
        Seq::empty()
    } else if parts.len() == 1 {
        parts[0]
    } else {
        joined(parts.drop_last(), sep) + sep + parts.last()
    }
}

/// Joins strings; see [`joined`].
pub fn join(parts: &Vec<String>, sep: &str) -> (s: String)
    ensures
        s@ == joined(texts(parts@), sep@),
{
    let mut s = String::new();
    let ghost all = texts(parts@);
    let mut i: usize = 0;
    assert(s@ =~= joined(all.take(0), sep@));
    while i < parts.len()
        invariant
            i <= parts@.len(),
            all == texts(parts@),
            s@ == joined(all.take(i as int), sep@),
        decreases parts.len() - i,
    {
        if i > 0 {
            s.push_str(sep);
        }
        s.push_str(&parts[i]);
        assert(all.take(i + 1).drop_last() =~= all.take(i as int));
        assert(s@ =~= joined(all.take(i + 1), sep@));
        i += 1;
    }
    assert(all.take(i as int) =~= all);
    s
}

/// The first line of a text, without its line break.
pub open spec fn first_line(s: Seq<char>) -> Seq<char> {
    s.take(first_of(s, '\n'))
}

/// The first line of a text; see [`first_line`].
pub fn first_line_of(s: &[char]) -> (line: Vec<char>)
    ensures
        line@ == first_line(s@),
{
    let mut n: usize = 0;
    while n < s.len() && s[n] != '\n'
        invariant
            n <= s@.len(),
            forall|k: int| 0 <= k < n ==> s@[k] != '\n',
        decreases s.len() - n,
    {
        n += 1;
    }
    proof {
        lemma_first_of_unique(s@, '\n', n as int);
    }
    let line = slice_chars(s, 0, n);
    assert(line@ =~= s@.take(n as int));
    line
}

/// Where the last `c` of a text stands; before its start where there is none.
pub open spec fn last_of(s: Seq<char>, c: char) -> int
    decreases s.len(),
{
    if s.len() == 0 {
        -1
    } else if s.last() == c {
        s.len() - 1
    } else {
        last_of(s.drop_last(), c)
    }
}

/// The last `c` is one, and nothing behind it is.
pub proof fn lemma_last_of(s: Seq<char>, c: char)
    ensures
        -1 <= last_of(s, c) < s.len(),
        last_of(s, c) >= 0 ==> s[last_of(s, c)] == c,
        forall|i: int| last_of(s, c) < i < s.len() ==> s[i] != c,
    decreases s.len(),
{
    if s.len() > 0 && s.last() != c {
        let front = s.drop_last();
        lemma_last_of(front, c);
        assert forall|i: int| last_of(s, c) < i < s.len() implies s[i] != c by {
            if i < s.len() - 1 {
                assert(front[i] == s[i]);
            }
        }
    }
}

/// Finds the last `c` of a text; see [`last_of`].
pub fn last_index(s: &[char], c: char) -> (r: Option<usize>)
    ensures
        match r {
            Some(at) => at == last_of(s@, c) && at < s@.len(),
            None => last_of(s@, c) == -1,
        },
{
    let mut n: usize = s.len();
    while n > 0
        invariant
            n <= s@.len(),
            forall|k: int| n <= k < s@.len() ==> s@[k] != c,
        decreases n,
    {
        if s[n - 1] == c {
            proof {
                lemma_last_of(s@, c);
                if last_of(s@, c) < n - 1 {
                    assert(s@[n - 1] != c);
                }
            }
            return Some(n - 1);
        }
        n -= 1;
    }
    proof {
        lemma_last_of(s@, c);
    }
    None
}

/// A word is no longer than the text it stands in.
pub proof fn lemma_word_length(s: Seq<char>)
    ensures
        word(s).len() <= s.len(),
    decreases s.len(),
{
    if s.len() > 0 && !white_space(s[0]) {
        lemma_word_length(s.skip(1));
    }
}

/// The word in front of the first whitespace, given where that stands.
pub proof fn lemma_word(s: Seq<char>, n: int)
    requires
        0 <= n <= s.len(),
        forall|k: int| 0 <= k < n ==> !white_space(#[trigger] s[k]),
        n < s.len() ==> white_space(s[n]),
    ensures
        word(s) == s.take(n),
    decreases n,
{
    if n == 0 {
        assert(word(s) =~= s.take(0));
    } else {
        let rest = s.skip(1);
        assert forall|k: int| 0 <= k < n - 1 implies !white_space(#[trigger] rest[k]) by {
            assert(rest[k] == s[k + 1]);
        }
        lemma_word(rest, n - 1);
        assert(word(s) =~= s.take(n));
    }
}

/// The word that starts at `from`.
pub fn word_at(s: &[char], from: usize) -> (w: Vec<char>)
    requires
        from <= s@.len(),
    ensures
        w@ == word(s@.skip(from as int)),
        from + w@.len() <= s@.len(),
{
    let mut n: usize = from;
    let ghost rest = s@.skip(from as int);
    while n < s.len() && !is_whitespace(s[n])
        invariant
            from <= n <= s@.len(),
            rest == s@.skip(from as int),
            forall|k: int| 0 <= k < n - from ==> !white_space(#[trigger] rest[k]),
        decreases s.len() - n,
    {
        assert(rest[n - from] == s@[n as int]);
        n += 1;
    }
    proof {
        if n < s@.len() {
            assert(rest[n - from] == s@[n as int]);
        }
        lemma_word(rest, n - from);
    }
    let w = slice_chars(s, from, n);
    assert(w@ =~= rest.take(n - from));
    w
}

/// A text without its control characters.
pub open spec fn printable(s: Seq<char>) -> Seq<char>
    decreases s.len(),
{
    if s.len() == 0 {
        Seq::empty()
    } else if control(s.last()) {
        printable(s.drop_last())
    } else {
        printable(s.drop_last()).push(s.last())
    }
}

/// Nothing in what is left is a control character.
pub proof fn lemma_printable(s: Seq<char>)
    ensures
        forall|i: int|
            0 <= i < printable(s).len() ==> !control(#[trigger] printable(s)[i]),
    decreases s.len(),
{
    if s.len() > 0 {
        lemma_printable(s.drop_last());
        let front = printable(s.drop_last());
        assert forall|i: int| 0 <= i < printable(s).len() implies !control(
            #[trigger] printable(s)[i],
        ) by {
            if i < front.len() {
                assert(printable(s)[i] == front[i]);
            }
        }
    }
}

/// Drops control characters; see [`printable`].
pub fn drop_controls(s: &[char]) -> (v: Vec<char>)
    ensures
        v@ == printable(s@),
{
    let mut v: Vec<char> = Vec::new();
    let mut i: usize = 0;
    assert(v@ =~= printable(s@.take(0)));
    while i < s.len()
        invariant
            i <= s@.len(),
            v@ == printable(s@.take(i as int)),
        decreases s.len() - i,
    {
        assert(s@.take(i + 1).drop_last() =~= s@.take(i as int));
        assert(s@.take(i + 1).last() == s@[i as int]);
        if !is_control(s[i]) {
            v.push(s[i]);
        }
        i += 1;
    }
    assert(s@.take(i as int) =~= s@);
    v
}

/// A text in quotes, as the standard library's debug formatting writes it.
pub uninterp spec fn quoted(text: Seq<char>) -> Seq<char>;

/// `str`'s debug formatting: the text in quotes, with what is not printable
/// escaped. The spelling is named, not described.
#[verifier::external_body]
pub(crate) fn quote(text: &str) -> (s: String)
    ensures
        s@ == quoted(text@),
{
    format!("{:?}", text)
}

/// Whether one text comes before another, by its characters.
pub open spec fn earlier(a: Seq<char>, b: Seq<char>) -> bool
    decreases a.len(),
{
    if b.len() == 0 {
        false
    } else if a.len() == 0 {
        true
    } else if a[0] != b[0] {
        a[0] < b[0]
    } else {
        earlier(a.skip(1), b.skip(1))
    }
}

/// Whether one text comes before another; see [`earlier`].
pub fn is_earlier(a: &str, b: &str) -> (r: bool)
    ensures
        r == earlier(a@, b@),
{
    let left = to_chars(a);
    let right = to_chars(b);
    let mut i: usize = 0;
    assert(left@.skip(0) =~= left@);
    assert(right@.skip(0) =~= right@);
    while i < left.len() && i < right.len() && left[i] == right[i]
        invariant
            i <= left@.len(),
            i <= right@.len(),
            earlier(a@, b@) == earlier(left@.skip(i as int), right@.skip(i as int)),
        decreases left.len() - i,
    {
        assert(left@.skip(i as int).skip(1) =~= left@.skip(i + 1));
        assert(right@.skip(i as int).skip(1) =~= right@.skip(i + 1));
        i += 1;
    }
    if i == right.len() {
        false
    } else if i == left.len() {
        true
    } else {
        left[i] < right[i]
    }
}

/// No two texts come before each other.
pub proof fn lemma_earlier_asymmetric(a: Seq<char>, b: Seq<char>)
    ensures
        !(earlier(a, b) && earlier(b, a)),
    decreases a.len(),
{
    if a.len() > 0 && b.len() > 0 {
        lemma_earlier_asymmetric(a.skip(1), b.skip(1));
    }
}

/// "Does not come before" carries over.
pub proof fn lemma_earlier_carries(a: Seq<char>, b: Seq<char>, c: Seq<char>)
    requires
        !earlier(a, b),
        !earlier(b, c),
    ensures
        !earlier(a, c),
    decreases a.len(),
{
    if a.len() > 0 && b.len() > 0 && c.len() > 0 {
        if a[0] == b[0] && b[0] == c[0] {
            lemma_earlier_carries(a.skip(1), b.skip(1), c.skip(1));
        }
    }
}

/// Splitting loses nothing: the pieces, joined by the separator, are the text,
/// and none of them holds the separator.
pub proof fn law_split_pieces_join_again(s: Seq<char>, sep: char)
    ensures
        joined(split(s, sep), seq![sep]) == s,
        split(s, sep).len() > 0,
        forall|k: int, i: int|
            0 <= k < split(s, sep).len() && 0 <= i < split(s, sep)[k].len()
                ==> #[trigger] split(s, sep)[k][i] != sep,
    decreases s.len(),
{
    lemma_first_of(s, sep);
    let at = first_of(s, sep);
    let pieces = split(s, sep);
    if at >= s.len() {
        assert(joined(seq![s], seq![sep]) =~= s);
        assert(pieces == seq![s]);
    } else {
        let rest = s.skip(at + 1);
        law_split_pieces_join_again(rest, sep);
        let front = s.take(at);
        assert(pieces == seq![front] + split(rest, sep));
        lemma_joined_front(front, split(rest, sep), seq![sep]);
        assert(front + seq![sep] + rest =~= s);
        assert forall|k: int, i: int| 0 <= k < pieces.len() && 0 <= i < pieces[k].len() implies
            #[trigger] pieces[k][i] != sep by {
            if k > 0 {
                assert(pieces[k] == split(rest, sep)[k - 1]);
                assert(split(rest, sep)[k - 1][i] != sep);
            }
        }
    }
}

/// Joined texts begin with the first of them.
proof fn lemma_joined_front(first: Seq<char>, rest: Seq<Seq<char>>, sep: Seq<char>)
    requires
        rest.len() > 0,
    ensures
        joined(seq![first] + rest, sep) == first + sep + joined(rest, sep),
    decreases rest.len(),
{
    let all = seq![first] + rest;
    if rest.len() == 1 {
        assert(all.drop_last() =~= seq![first]);
        assert(joined(all.drop_last(), sep) =~= first);
        assert(joined(all, sep) =~= first + sep + joined(rest, sep));
    } else {
        assert(all.drop_last() =~= seq![first] + rest.drop_last());
        lemma_joined_front(first, rest.drop_last(), sep);
        assert(joined(all, sep) =~= first + sep + joined(rest, sep));
    }
}

/// Whether a text is nothing but whitespace.
pub open spec fn all_white(s: Seq<char>) -> bool {
    forall|i: int| 0 <= i < s.len() ==> white_space(#[trigger] s[i])
}

/// What is trimmed off the front is whitespace, and what is left does not begin
/// with any.
pub proof fn law_trimming_the_front_drops_whitespace(s: Seq<char>)
    ensures
        trim_start(s).len() <= s.len(),
        s == s.take(s.len() - trim_start(s).len()) + trim_start(s),
        all_white(s.take(s.len() - trim_start(s).len())),
        trim_start(s).len() > 0 ==> !white_space(trim_start(s)[0]),
    decreases s.len(),
{
    if s.len() > 0 && white_space(s[0]) {
        let rest = s.skip(1);
        law_trimming_the_front_drops_whitespace(rest);
        let n = s.len() - trim_start(s).len();
        assert forall|i: int| 0 <= i < n implies white_space(#[trigger] s.take(n)[i]) by {
            if i > 0 {
                assert(rest.take(n - 1)[i - 1] == s[i]);
            }
        }
        assert(s =~= s.take(n) + trim_start(s)) by {
            assert(rest == rest.take(n - 1) + trim_start(rest));
            assert forall|i: int| 0 <= i < s.len() implies s[i] == (s.take(n) + trim_start(s))[i] by {
                if i > 0 {
                    assert(rest[i - 1] == (rest.take(n - 1) + trim_start(rest))[i - 1]);
                }
            }
        }
    } else {
        assert(s =~= s.take(0) + s);
    }
}

/// What is trimmed off the end is whitespace, and what is left does not end in
/// any.
pub proof fn law_trimming_the_end_drops_whitespace(s: Seq<char>)
    ensures
        trim_end(s).len() <= s.len(),
        s == trim_end(s) + s.skip(trim_end(s).len() as int),
        all_white(s.skip(trim_end(s).len() as int)),
        trim_end(s).len() > 0 ==> !white_space(trim_end(s).last()),
    decreases s.len(),
{
    if s.len() > 0 && white_space(s.last()) {
        let front = s.drop_last();
        law_trimming_the_end_drops_whitespace(front);
        let n = trim_end(s).len() as int;
        assert forall|i: int| 0 <= i < s.skip(n).len() implies white_space(
            #[trigger] s.skip(n)[i],
        ) by {
            if i < s.skip(n).len() - 1 {
                assert(front.skip(n)[i] == s[n + i]);
            }
        }
        assert forall|i: int| 0 <= i < n implies trim_end(s)[i] == s[i] by {
            assert(front[i] == (trim_end(front) + front.skip(n))[i]);
        }
        assert(s =~= trim_end(s) + s.skip(n));
    } else {
        assert(s =~= s + s.skip(s.len() as int));
    }
}

/// Trimming takes whitespace off both ends and touches nothing between.
pub proof fn law_trimming_keeps_what_is_between(s: Seq<char>) -> (n: int)
    ensures
        0 <= n <= n + trim(s).len() <= s.len(),
        trim(s) == s.subrange(n, n + trim(s).len()),
        all_white(s.take(n)),
        all_white(s.skip(n + trim(s).len())),
        trim(s).len() > 0 ==> !white_space(trim(s)[0]) && !white_space(trim(s).last()),
{
    law_trimming_the_front_drops_whitespace(s);
    let mid = trim_start(s);
    law_trimming_the_end_drops_whitespace(mid);
    let n = s.len() - mid.len();
    let t = trim(s);
    assert forall|i: int| 0 <= i < mid.len() implies #[trigger] mid[i] == s[n + i] by {
        assert(s[n + i] == (s.take(n) + mid)[n + i]);
    }
    assert forall|i: int| 0 <= i < t.len() implies #[trigger] t[i] == s[n + i] by {
        assert(mid[i] == (t + mid.skip(t.len() as int))[i]);
    }
    assert(t =~= s.subrange(n, n + t.len()));
    assert forall|i: int| 0 <= i < s.skip(n + t.len()).len() implies white_space(
        #[trigger] s.skip(n + t.len())[i],
    ) by {
        assert(mid.skip(t.len() as int)[i] == mid[t.len() + i]);
    }
    n
}

/// Whitespace around a text that neither begins nor ends with any is trimmed
/// off, and nothing else.
pub proof fn law_trimming_leaves_the_middle(front: Seq<char>, name: Seq<char>, back: Seq<char>)
    requires
        all_white(front),
        all_white(back),
        name.len() > 0,
        !white_space(name[0]),
        !white_space(name.last()),
    ensures
        trim(front + name + back) == name,
{
    let whole = front + name + back;
    let n = law_trimming_keeps_what_is_between(whole);
    let t = trim(whole);
    let a = front.len() as int;
    let b = a + name.len();
    assert(whole[a] == name[0]);
    assert(whole[b - 1] == name.last());
    if n > a {
        assert(whole.take(n)[a] == whole[a]);
    }
    if n + t.len() < b {
        assert(whole.skip(n + t.len())[b - 1 - n - t.len()] == whole[b - 1]);
    }
    if t.len() > 0 {
        assert(t[0] == whole[n]);
        assert(t.last() == whole[n + t.len() - 1]);
        if n < a {
            assert(whole[n] == front[n]);
        }
        if n + t.len() > b {
            assert(whole[n + t.len() - 1] == back[n + t.len() - 1 - b]);
        }
    }
    assert(t =~= name);
}

/// The lines of a text, put together, are the text; each holds something, and
/// a line break in it ends it; only the last may lack one.
pub proof fn law_lines_put_together_are_the_text(s: Seq<char>)
    ensures
        joined(whole_lines(s), Seq::empty()) == s,
        forall|k: int| 0 <= k < whole_lines(s).len() ==> (#[trigger] whole_lines(s)[k]).len() > 0,
        forall|k: int, i: int|
            0 <= k < whole_lines(s).len() && 0 <= i < whole_lines(s)[k].len() - 1
                ==> #[trigger] whole_lines(s)[k][i] != '\n',
        forall|k: int|
            0 <= k < whole_lines(s).len() - 1 ==> (#[trigger] whole_lines(s)[k]).last() == '\n',
    decreases s.len(),
{
    lemma_first_of(s, '\n');
    let lines = whole_lines(s);
    if s.len() == 0 {
        assert(joined(lines, Seq::empty()) =~= s);
    } else {
        let at = first_of(s, '\n');
        if at >= s.len() {
            assert(joined(lines, Seq::empty()) =~= s);
        } else {
            let front = s.take(at + 1);
            let rest = s.skip(at + 1);
            law_lines_put_together_are_the_text(rest);
            assert(lines == seq![front] + whole_lines(rest));
            if whole_lines(rest).len() == 0 {
                assert(joined(whole_lines(rest), Seq::empty()) =~= Seq::<char>::empty());
                assert(rest =~= Seq::<char>::empty());
                assert(lines =~= seq![front]);
                assert(joined(lines, Seq::empty()) =~= s);
            } else {
                lemma_joined_front(front, whole_lines(rest), Seq::empty());
                assert(front + Seq::empty() + rest =~= s);
            }
            assert forall|k: int| 0 <= k < lines.len() implies (#[trigger] lines[k]).len() > 0 by {
                if k > 0 {
                    assert(lines[k] == whole_lines(rest)[k - 1]);
                }
            }
            assert forall|k: int, i: int|
                0 <= k < lines.len() && 0 <= i < lines[k].len() - 1 implies #[trigger] lines[k][i]
                != '\n' by {
                if k > 0 {
                    assert(lines[k] == whole_lines(rest)[k - 1]);
                    assert(whole_lines(rest)[k - 1][i] != '\n');
                } else {
                    assert(lines[k][i] == s[i]);
                }
            }
            assert forall|k: int| 0 <= k < lines.len() - 1 implies (#[trigger] lines[k]).last()
                == '\n' by {
                if k > 0 {
                    assert(lines[k] == whole_lines(rest)[k - 1]);
                }
            }
        }
    }
}

/// The first line reaches to the first line break, or to the end.
pub proof fn law_the_first_line_ends_at_the_first_break(s: Seq<char>)
    ensures
        first_line(s).len() <= s.len(),
        first_line(s) == s.take(first_line(s).len() as int),
        forall|i: int| 0 <= i < first_line(s).len() ==> #[trigger] first_line(s)[i] != '\n',
        first_line(s).len() < s.len() ==> s[first_line(s).len() as int] == '\n',
{
    lemma_first_of(s, '\n');
}

/// Only control characters are dropped, and the rest keeps its order: of a text
/// made of two, what is left is what is left of each.
pub proof fn law_only_controls_are_dropped(a: Seq<char>, b: Seq<char>, c: char)
    ensures
        printable(a + b) == printable(a) + printable(b),
        printable(seq![c]) == (if c as u32 <= 0x1f || 0x7f <= c as u32 <= 0x9f {
            Seq::empty()
        } else {
            seq![c]
        }),
    decreases b.len(),
{
    assert(seq![c].drop_last() =~= Seq::<char>::empty());
    assert(printable(Seq::<char>::empty()) =~= Seq::<char>::empty());
    assert(printable(seq![c]) =~= if c as u32 <= 0x1f || 0x7f <= c as u32 <= 0x9f {
        Seq::empty()
    } else {
        seq![c]
    });
    if b.len() == 0 {
        assert(a + b =~= a);
        assert(printable(a) + printable(b) =~= printable(a));
    } else {
        assert((a + b).drop_last() =~= a + b.drop_last());
        law_only_controls_are_dropped(a, b.drop_last(), c);
        assert(printable(a + b) =~= printable(a) + printable(b));
    }
}

/// Texts are ordered as words in a dictionary: behind a common front the first
/// character decides, the front itself comes before all that goes on behind it,
/// and none comes before itself.
pub proof fn law_texts_are_in_dictionary_order(
    front: Seq<char>,
    x: char,
    y: char,
    a: Seq<char>,
    b: Seq<char>,
)
    ensures
        x != y ==> earlier(front + seq![x] + a, front + seq![y] + b) == (x < y),
        earlier(front, front + seq![x] + a),
        !earlier(front + seq![x] + a, front),
        !earlier(front, front),
    decreases front.len(),
{
    let left = front + seq![x] + a;
    let right = front + seq![y] + b;
    if front.len() == 0 {
        assert(left[0] == x && right[0] == y);
    } else {
        let rest = front.skip(1);
        assert(left[0] == front[0] && right[0] == front[0]);
        assert(left.skip(1) =~= rest + seq![x] + a);
        assert(right.skip(1) =~= rest + seq![y] + b);
        law_texts_are_in_dictionary_order(rest, x, y, a, b);
    }
}

/// The first word is the first run of characters that are not whitespace.
pub proof fn law_the_first_word_is_the_first_run(s: Seq<char>)
    ensures
        first_word(s) is None == all_white(s),
        first_word(s) matches Some(w) ==> {
            let n = s.len() - trim_start(s).len();
            &&& w.len() > 0
            &&& n + w.len() <= s.len()
            &&& all_white(s.take(n))
            &&& w == s.subrange(n, n + w.len())
            &&& forall|i: int| 0 <= i < w.len() ==> !white_space(#[trigger] w[i])
            &&& n + w.len() < s.len() ==> white_space(s[n + w.len()])
        },
{
    law_trimming_the_front_drops_whitespace(s);
    let rest = trim_start(s);
    let n = s.len() - rest.len();
    assert forall|i: int| 0 <= i < rest.len() implies #[trigger] rest[i] == s[n + i] by {
        assert(s[n + i] == (s.take(n) + rest)[n + i]);
    }
    if rest.len() == 0 {
        assert(s.take(n) =~= s);
    } else {
        assert(!white_space(s[n]));
        lemma_word_run(rest);
        let w = word(rest);
        assert(w =~= s.subrange(n, n + w.len()));
    }
}

proof fn lemma_word_run(s: Seq<char>)
    ensures
        word(s).len() <= s.len(),
        word(s) == s.take(word(s).len() as int),
        forall|i: int| 0 <= i < word(s).len() ==> !white_space(#[trigger] word(s)[i]),
        word(s).len() < s.len() ==> white_space(s[word(s).len() as int]),
        s.len() > 0 && !white_space(s[0]) ==> word(s).len() > 0,
    decreases s.len(),
{
    if s.len() > 0 && !white_space(s[0]) {
        let rest = s.skip(1);
        lemma_word_run(rest);
        let w = word(s);
        assert forall|i: int| 0 <= i < w.len() implies !white_space(#[trigger] w[i]) && w[i]
            == s[i] by {
            if i > 0 {
                assert(w[i] == word(rest)[i - 1]);
                assert(word(rest)[i - 1] == rest.take(word(rest).len() as int)[i - 1]);
            }
        }
        assert(w =~= s.take(w.len() as int));
    } else {
        assert(word(s) =~= s.take(0));
    }
}

/// A number is spelled without leading zeros, in as many digits as it has.
pub proof fn law_no_leading_zeros(n: nat)
    ensures
        decimal(n).len() > 0,
        n > 0 ==> decimal(n)[0] != '0',
        n < 10 ==> decimal(n).len() == 1,
        decimal(10 * n + 10).len() == decimal(n + 1).len() + 1,
    decreases n,
{
    if n >= 10 {
        law_no_leading_zeros(n / 10);
    }
    assert((10 * n + 10) / 10 == n + 1);
}

/// A number is read where it is digits, a plus in front of them or not, and no
/// larger than it may be; anything else is none.
pub proof fn law_only_digits_are_a_number(n: nat, max: nat, s: Seq<char>, i: int)
    ensures
        n <= max ==> parsed(seq!['+'] + decimal(n), max) == Some(n),
        n > max ==> parsed(decimal(n), max) is None,
        parsed(Seq::empty(), max) is None,
        0 < i < s.len() && !digit(s[i]) ==> parsed(s, max) is None,
        s.len() > 0 && !digit(s[0]) && s[0] != '+' ==> parsed(s, max) is None,
{
    lemma_decimal(n);
    assert(digit(decimal(n)[0]));
    let signed = seq!['+'] + decimal(n);
    assert(signed.skip(1) =~= decimal(n));
    if 0 < i < s.len() && !digit(s[i]) {
        assert(s.skip(1)[i - 1] == s[i]);
        assert(!all_digits(s));
        assert(!all_digits(s.skip(1)));
    }
}

} // verus!
