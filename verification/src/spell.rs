//! How amounts are spelled: token counts, money, spans of time.

use vstd::prelude::*;

use crate::text::{self, push_decimal};

verus! {

/// The last `k` decimal digits of a number, leading zeros included.
pub open spec fn last_digits(n: nat, k: nat) -> Seq<char>
    decreases k,
{
    if k == 0 {
        Seq::empty()
    } else {
        last_digits(n / 10, (k - 1) as nat).push(text::digit_char(n % 10))
    }
}

/// Adds the last `k` decimal digits of a number.
pub fn push_last_digits(out: &mut String, n: u64, k: u32)
    ensures
        final(out)@ == old(out)@ + last_digits(n as nat, k as nat),
    decreases k,
{
    if k > 0 {
        let c = (48u8 + (n % 10) as u8) as char;
        assert(c == text::digit_char(n as nat % 10));
        push_last_digits(out, n / 10, k - 1);
        out.push(c);
        assert(out@ =~= old(out)@ + last_digits(n as nat, k as nat));
    } else {
        assert(out@ =~= old(out)@ + last_digits(n as nat, 0));
    }
}

/// A number of tenths with its decimal point.
pub open spec fn tenths(n: nat) -> Seq<char> {
    text::decimal(n / 10).push('.').push(text::digit_char(n % 10))
}

/// A token count, short enough for a bar: whole below a thousand, thousands and
/// then millions with one decimal above.
pub open spec fn compact(n: nat) -> Seq<char> {
    if n < 1_000 {
        text::decimal(n)
    } else if n < 1_000_000 {
        tenths((n + 50) / 100).push('k')
    } else {
        tenths((n + 50_000) / 100_000).push('M')
    }
}

fn push_tenths(out: &mut String, n: u64)
    ensures
        final(out)@ == old(out)@ + tenths(n as nat),
{
    push_decimal(out, n / 10);
    out.push('.');
    let c = (48u8 + (n % 10) as u8) as char;
    assert(c == text::digit_char(n as nat % 10));
    out.push(c);
    assert(out@ =~= old(out)@ + tenths(n as nat));
}

/// Spells a token count; see [`compact`].
pub fn compact_tokens(n: u64) -> (s: String)
    ensures
        s@ == compact(n as nat),
{
    let mut s = String::new();
    if n < 1_000 {
        push_decimal(&mut s, n);
    } else if n < 1_000_000 {
        push_tenths(&mut s, (n + 50) / 100);
        s.push('k');
    } else {
        let half: u64 = if n % 100_000 >= 50_000 {
            1
        } else {
            0
        };
        push_tenths(&mut s, n / 100_000 + half);
        s.push('M');
    }
    assert(s@ =~= compact(n as nat));
    s
}

/// A quotient to the nearest whole, ties to the even one.
pub open spec fn nearest_even(n: nat, d: nat) -> nat {
    let q = n / d;
    let r = n % d;
    if 2 * r < d || (2 * r == d && q % 2 == 0) {
        q
    } else {
        q + 1
    }
}

/// A quotient to the nearest whole; see [`nearest_even`].
pub fn round_even(n: u128, d: u128) -> (q: u128)
    requires
        0 < d,
        d < 0x1_0000_0000_0000_0000_0000_0000,
        n < 0x1_0000_0000_0000_0000_0000_0000,
    ensures
        q == nearest_even(n as nat, d as nat),
        q <= n + 1,
{
    let q: u128 = n / d;
    let r: u128 = n % d;
    assert(q <= n) by (nonlinear_arith)
        requires
            q == n / d,
            d > 0,
    ;
    if 2 * r < d || (2 * r == d && q % 2 == 0) {
        q
    } else {
        q + 1
    }
}

/// A dollar, in the parts that amounts of money are counted in: small enough
/// that an amount is exactly what it was reported as.
pub const DOLLAR: u128 = 0x1_0000_0000_0000_0000_0000;

/// An amount in parts of a dollar, `k` decimals of them.
pub open spec fn dollars(amount: nat, unit: nat, k: nat) -> Seq<char> {
    seq!['$'] + text::decimal(amount / unit).push('.') + last_digits(amount % unit, k)
}

/// An amount of money to the nearest of the `unit` parts of a dollar that `k`
/// decimals spell, ties to the even one.
pub open spec fn money(amount: nat, unit: nat, k: nat) -> Seq<char> {
    dollars(nearest_even(amount * unit, DOLLAR as nat), unit, k)
}

/// An amount of money in hundredths or ten-thousandths of a dollar.
fn rounded(amount: u128, unit: u64) -> (n: u64)
    requires
        unit == 100 || unit == 10_000,
    ensures
        n == nearest_even(amount as nat * unit as nat, DOLLAR as nat),
{
    let whole: u128 = amount / DOLLAR;
    let rest: u128 = amount % DOLLAR;
    let parts = round_even(rest * unit as u128, DOLLAR);
    assert(parts <= unit && whole <= 0xffff_ffff_ffff && whole * unit + parts == nearest_even(
        amount as nat * unit as nat,
        DOLLAR as nat,
    )) by {
        let d = DOLLAR as int;
        assert(amount == whole * d + rest);
        if unit == 100 {
            assert((amount * 100) / d == whole * 100 + (rest * 100) / d);
            assert((amount * 100) % d == (rest * 100) % d);
        } else {
            assert((amount * 10_000) / d == whole * 10_000 + (rest * 10_000) / d);
            assert((amount * 10_000) % d == (rest * 10_000) % d);
        }
    }
    whole as u64 * unit + parts as u64
}

/// Spells an amount of money to four decimals; see [`money`].
pub fn dollars_in_full(amount: u128) -> (s: String)
    ensures
        s@ == money(amount as nat, 10_000, 4),
{
    let parts = rounded(amount, 10_000);
    let mut s = String::new();
    s.push('$');
    push_decimal(&mut s, parts / 10_000);
    s.push('.');
    push_last_digits(&mut s, parts % 10_000, 4);
    assert(s@ =~= money(amount as nat, 10_000, 4));
    s
}

/// Spells an amount of money to the cent; see [`money`].
pub fn dollars_in_cents(amount: u128) -> (s: String)
    ensures
        s@ == money(amount as nat, 100, 2),
{
    let parts = rounded(amount, 100);
    let mut s = String::new();
    s.push('$');
    push_decimal(&mut s, parts / 100);
    s.push('.');
    push_last_digits(&mut s, parts % 100, 2);
    assert(s@ =~= money(amount as nat, 100, 2));
    s
}

/// The view of an optional string.
pub open spec fn seen(s: Option<String>) -> Option<Seq<char>> {
    match s {
        Some(s) => Some(s@),
        None => None,
    }
}

/// A copy of an optional string.
pub fn copied(s: &Option<String>) -> (r: Option<String>)
    ensures
        seen(r) == seen(*s),
{
    match s {
        Some(s) => Some(s.clone()),
        None => None,
    }
}

/// A text without one of its characters.
pub open spec fn without(s: Seq<char>, at: int) -> Seq<char> {
    s.take(at) + s.skip(at + 1)
}

proof fn lemma_digits_behind(front: Seq<char>, n: nat, k: nat)
    requires
        forall|i: int| 0 <= i < front.len() ==> text::digit(#[trigger] front[i]),
    ensures
        last_digits(n, k).len() == k,
        forall|i: int| 0 <= i < k ==> text::digit(#[trigger] last_digits(n, k)[i]),
        k == 1 && n < 10 ==> text::digits_value(front + last_digits(n, k)) == text::digits_value(
            front,
        ) * 10 + n,
        k == 2 && n < 100 ==> text::digits_value(front + last_digits(n, k)) == text::digits_value(
            front,
        ) * 100 + n,
        k == 4 && n < 10_000 ==> text::digits_value(front + last_digits(n, k))
            == text::digits_value(front) * 10_000 + n,
{
    lemma_digits_value(front, n, k);
    if k == 1 {
        reveal_with_fuel(power, 2);
        assert(power(k) == 10);
    } else if k == 2 {
        reveal_with_fuel(power, 3);
        assert(power(k) == 100);
    } else if k == 4 {
        reveal_with_fuel(power, 5);
        assert(power(k) == 10_000);
    }
}

/// Ten times ten, `k` times.
pub open spec fn power(k: nat) -> nat
    decreases k,
{
    if k == 0 {
        1
    } else {
        power((k - 1) as nat) * 10
    }
}

proof fn lemma_digits_value(front: Seq<char>, n: nat, k: nat)
    ensures
        last_digits(n, k).len() == k,
        forall|i: int| 0 <= i < k ==> text::digit(#[trigger] last_digits(n, k)[i]),
        n < power(k) ==> text::digits_value(front + last_digits(n, k)) == text::digits_value(front)
            * power(k) + n,
    decreases k,
{
    let s = last_digits(n, k);
    if k == 0 {
        assert(front + s =~= front);
        assert(power(k) == 1);
        assert(text::digits_value(front) * power(k) == text::digits_value(front))
            by (nonlinear_arith)
            requires
                power(k) == 1,
        ;
    } else {
        let less = (k - 1) as nat;
        lemma_digits_value(front, n / 10, less);
        let c = text::digit_char(n % 10);
        assert(text::digit(c) && text::digit_value(c) == n % 10);
        assert(s == last_digits(n / 10, less).push(c));
        assert forall|i: int| 0 <= i < k implies text::digit(#[trigger] s[i]) by {
            if i < k - 1 {
                assert(s[i] == last_digits(n / 10, less)[i]);
            }
        }
        assert((front + s).drop_last() =~= front + last_digits(n / 10, less));
        assert((front + s).last() == c);
        if n < power(k) {
            let a = text::digits_value(front);
            assert(n / 10 < power(less));
            assert((a * power(less) + n / 10) * 10 + n % 10 == a * power(k) + n)
                by (nonlinear_arith)
                requires
                    power(k) == power(less) * 10,
                    n == (n / 10) * 10 + n % 10,
            ;
        }
    }
}

/// A token count below a thousand is spelled out; above, what is spelled is the
/// count to the nearest tenth of a thousand or of a million, ties up, with one
/// decimal.
pub proof fn law_compact_counts_are_near(n: nat)
    ensures
        n < 1_000 ==> compact(n) == text::decimal(n),
        n >= 1_000 ==> ({
            let s = compact(n);
            let digits = without(s.drop_last(), s.len() - 3);
            let unit: nat = if n < 1_000_000 {
                100
            } else {
                100_000
            };
            &&& s.len() >= 4
            &&& s.last() == (if n < 1_000_000 {
                'k'
            } else {
                'M'
            })
            &&& s[s.len() - 3] == '.'
            &&& text::all_digits(digits)
            &&& 2 * text::digits_value(digits) * unit <= 2 * n + unit
            &&& 2 * n < 2 * text::digits_value(digits) * unit + unit
        }),
{
    if n >= 1_000 {
        let unit: nat = if n < 1_000_000 {
            100
        } else {
            100_000
        };
        let t: nat = if n < 1_000_000 {
            (n + 50) / 100
        } else {
            (n + 50_000) / 100_000
        };
        let s = compact(n);
        let d = text::decimal(t / 10);
        let c = text::digit_char(t % 10);
        text::lemma_decimal(t / 10);
        assert(text::digit(c) && text::digit_value(c) == t % 10);
        assert(s =~= d.push('.').push(c).push(
            if n < 1_000_000 {
                'k'
            } else {
                'M'
            },
        ));
        let digits = without(s.drop_last(), s.len() - 3);
        assert(digits =~= d.push(c));
        assert(digits.drop_last() =~= d);
        assert(text::digits_value(digits) == t);
    }
}

/// An amount of money is spelled as dollars and exactly two or four decimals,
/// and what is spelled is the amount to the nearest of them, an amount halfway
/// between two going to the even one.
pub proof fn law_money_is_near(amount: nat, full: bool)
    ensures
        ({
            let k: nat = if full {
                4
            } else {
                2
            };
            let unit: nat = if full {
                10_000
            } else {
                100
            };
            let s = money(amount, unit, k);
            let digits = without(s, s.len() - k - 1).skip(1);
            let v = text::digits_value(digits);
            let dollar: nat = 0x1_0000_0000_0000_0000_0000;
            &&& s.len() >= k + 3
            &&& s[0] == '$'
            &&& s[s.len() - k - 1] == '.'
            &&& text::all_digits(digits)
            &&& 2 * v * dollar <= 2 * amount * unit + dollar
            &&& 2 * amount * unit <= 2 * v * dollar + dollar
            &&& 2 * v * dollar == 2 * amount * unit + dollar || 2 * amount * unit == 2 * v * dollar
                + dollar ==> v % 2 == 0
        }),
{
    let k: nat = if full {
        4
    } else {
        2
    };
    let unit: nat = if full {
        10_000
    } else {
        100
    };
    let dollar: nat = 0x1_0000_0000_0000_0000_0000;
    let v = nearest_even(amount * unit, dollar);
    law_rounding_is_near(amount * unit, dollar);
    let s = money(amount, unit, k);
    let whole = text::decimal(v / unit);
    let tail = last_digits(v % unit, k);
    text::lemma_decimal(v / unit);
    lemma_digits_behind(whole, v % unit, k);
    assert(s =~= seq!['$'] + whole + seq!['.'] + tail);
    let digits = without(s, s.len() - k - 1).skip(1);
    assert(digits =~= whole + tail);
    assert forall|i: int| 0 <= i < digits.len() implies text::digit(#[trigger] digits[i]) by {
        if i < whole.len() {
            assert(digits[i] == whole[i]);
        } else {
            assert(digits[i] == tail[i - whole.len()]);
        }
    }
    assert(text::digits_value(digits) == v);
    assert(2 * amount * unit == 2 * (amount * unit)) by (nonlinear_arith);
}

/// Rounding goes to the nearest whole: it is off by no more than a half, and
/// where it is off by a half, it is even.
pub proof fn law_rounding_is_near(n: nat, d: nat)
    requires
        d > 0,
    ensures
        2 * nearest_even(n, d) * d <= 2 * n + d,
        2 * n <= 2 * nearest_even(n, d) * d + d,
        2 * nearest_even(n, d) * d == 2 * n + d || 2 * n == 2 * nearest_even(n, d) * d + d
            ==> nearest_even(n, d) % 2 == 0,
{
    let q = n / d;
    let r = n % d;
    let v = nearest_even(n, d);
    assert(n == q * d + r && 0 <= r < d) by (nonlinear_arith)
        requires
            q == n / d,
            r == n % d,
            d > 0,
    ;
    assert(2 * v * d == 2 * (v * d)) by (nonlinear_arith);
    assert((q + 1) * d == q * d + d) by (nonlinear_arith);
}

} // verus!
