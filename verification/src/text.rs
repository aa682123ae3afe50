//! Rendering of unsigned integers as text in a small radix.

use vstd::prelude::*;

verus! {

/// The character that stands for the digit `d`: `0` to `9`, then `a` to `f`.
pub open spec fn digit_char(d: nat) -> char
    recommends
        d < 16,
{
    if d < 10 {
        ((48 + d) as u8) as char
    } else {
        ((87 + d) as u8) as char
    }
}

/// The digits of `n` in radix `base`, most significant first, without
/// leading zeros; the number zero is the single digit `0`.
pub open spec fn digits_text(n: nat, base: nat) -> Seq<char>
    recommends
        2 <= base <= 16,
    decreases n,
    via digits_text_decreases
{
    if n < base || base < 2 {
        seq![digit_char(n)]
    } else {
        digits_text(n / base, base).push(digit_char(n % base))
    }
}

#[via_fn]
proof fn digits_text_decreases(n: nat, base: nat) {
    if n >= base && base >= 2 {
        lemma_quotient_smaller(n, base);
    }
}

/// Dividing by two or more makes a positive number smaller.
pub proof fn lemma_quotient_smaller(n: nat, base: nat)
    requires
        2 <= base <= n,
    ensures
        n / base < n,
        0 < n / base,
        n % base < base,
{
    assert(n / base < n && 0 < n / base && n % base < base) by (nonlinear_arith)
        requires
            2 <= base <= n,
    ;
}

/// The digit that a character stands for; the inverse of `digit_char`.
pub open spec fn digit_value(c: char) -> nat {
    if c as nat >= 87 {
        (c as nat - 87) as nat
    } else if c as nat >= 48 {
        (c as nat - 48) as nat
    } else {
        0
    }
}

/// The number that a text of digits denotes in radix `base`.
pub open spec fn text_value(digits: Seq<char>, base: nat) -> nat
    decreases digits.len(),
{
    if digits.len() == 0 {
        0
    } else {
        text_value(digits.drop_last(), base) * base + digit_value(digits.last())
    }
}

/// A digit's character stands for that digit.
pub proof fn lemma_digit_round_trip(d: nat)
    requires
        d < 16,
    ensures
        digit_value(digit_char(d)) == d,
{
    if d < 10 {
        assert(((48 + d) as u8) as char as nat == 48 + d);
    } else {
        assert(((87 + d) as u8) as char as nat == 87 + d);
    }
}

/// Reading the digits of a number gives the number back.
pub proof fn lemma_digits_round_trip(n: nat, base: nat)
    requires
        2 <= base <= 16,
    ensures
        text_value(digits_text(n, base), base) == n,
        digits_text(n, base).len() >= 1,
    decreases n,
{
    if n < base {
        lemma_digit_round_trip(n);
        assert(seq![digit_char(n)].drop_last() =~= Seq::<char>::empty());
        assert(text_value(Seq::<char>::empty(), base) == 0);
        assert(text_value(seq![digit_char(n)], base) == 0 * base + n);
    } else {
        lemma_quotient_smaller(n, base);
        lemma_digits_round_trip(n / base, base);
        lemma_digit_round_trip(n % base);
        let front = digits_text(n / base, base);
        assert(front.push(digit_char(n % base)).drop_last() =~= front);
        assert((n / base) * base + n % base == n) by (nonlinear_arith)
            requires
                base > 0,
        ;
    }
}

/// Two numbers with the same digits are the same number.
pub proof fn lemma_digits_injective(a: nat, b: nat, base: nat)
    requires
        2 <= base <= 16,
        digits_text(a, base) == digits_text(b, base),
    ensures
        a == b,
{
    lemma_digits_round_trip(a, base);
    lemma_digits_round_trip(b, base);
}

/// `base` multiplied by itself `exponent` times.
pub open spec fn radix_power(base: nat, exponent: nat) -> nat
    decreases exponent,
{
    if exponent == 0 {
        1
    } else {
        base * radix_power(base, (exponent - 1) as nat)
    }
}

/// Every character of a number's text is a digit of the radix.
pub proof fn lemma_digits_in_radix(n: nat, base: nat)
    requires
        2 <= base <= 16,
    ensures
        forall|i: int|
            0 <= i < digits_text(n, base).len() ==> exists|d: nat|
                d < base && #[trigger] digits_text(n, base)[i] == digit_char(d),
    decreases n,
{
    if n >= base {
        lemma_quotient_smaller(n, base);
        lemma_digits_in_radix(n / base, base);
        let front = digits_text(n / base, base);
        assert forall|i: int| 0 <= i < digits_text(n, base).len() implies exists|d: nat|
            d < base && #[trigger] digits_text(n, base)[i] == digit_char(d) by {
            if i < front.len() {
                assert(digits_text(n, base)[i] == front[i]);
            } else {
                assert(digits_text(n, base)[i] == digit_char(n % base));
            }
        }
    }
}

/// A number below the radix's `width`-th power has at most `width` digits.
pub proof fn lemma_digits_length(n: nat, base: nat, width: nat)
    requires
        2 <= base <= 16,
        1 <= width,
        n < radix_power(base, width),
    ensures
        1 <= digits_text(n, base).len() <= width,
    decreases n,
{
    if n >= base {
        lemma_quotient_smaller(n, base);
        let rest = radix_power(base, (width - 1) as nat);
        assert(radix_power(base, width) == base * rest);
        if width == 1 {
            assert(radix_power(base, 0) == 1);
            assert(base * 1 == base);
        } else {
            assert(n / base < rest) by (nonlinear_arith)
                requires
                    n < base * rest,
                    base >= 2,
            ;
            lemma_digits_length(n / base, base, (width - 1) as nat);
        }
    }
}

/// Whether one text comes before another in the order of a dictionary: it
/// is a proper beginning of the other, or at the first place where the two
/// differ it has the smaller character.
pub open spec fn precedes(a: Seq<char>, b: Seq<char>) -> bool {
    ||| a.len() < b.len() && b.take(a.len() as int) == a
    ||| exists|i: int|
        0 <= i < a.len() && i < b.len() && #[trigger] a.take(i) == b.take(i) && a[i] < b[i]
}

/// A smaller digit has the smaller character.
pub proof fn lemma_digit_order(c: nat, d: nat)
    requires
        c < d < 16,
    ensures
        digit_char(c) < digit_char(d),
{
    lemma_digit_round_trip(c);
    lemma_digit_round_trip(d);
    assert(digit_char(c) as nat == if c < 10 {
        48 + c
    } else {
        87 + c
    });
    assert(digit_char(d) as nat == if d < 10 {
        48 + d
    } else {
        87 + d
    });
}

/// Of two numbers with equally many digits, the smaller has the text that
/// comes first.
pub proof fn lemma_digits_order(a: nat, b: nat, base: nat)
    requires
        2 <= base <= 16,
        a < b,
        digits_text(a, base).len() == digits_text(b, base).len(),
    ensures
        precedes(digits_text(a, base), digits_text(b, base)),
    decreases b,
{
    let ta = digits_text(a, base);
    let tb = digits_text(b, base);
    if b < base {
        lemma_digit_order(a, b);
        assert(ta.take(0) =~= tb.take(0));
        assert(ta[0] < tb[0]);
    } else {
        lemma_quotient_smaller(b, base);
        lemma_digits_round_trip(b / base, base);
        let fb = digits_text(b / base, base);
        assert(tb.len() == fb.len() + 1);
        if a < base {
            assert(ta.len() == 1);
        } else {
            lemma_quotient_smaller(a, base);
            let fa = digits_text(a / base, base);
            assert(ta.len() == fa.len() + 1);
            assert(a / base <= b / base && (a / base == b / base ==> a % base < b % base))
                by (nonlinear_arith)
                requires
                    a < b,
                    base >= 2,
            ;
            if a / base < b / base {
                lemma_digits_order(a / base, b / base, base);
                let i = choose|i: int|
                    0 <= i < fa.len() && i < fb.len() && #[trigger] fa.take(i) == fb.take(i)
                        && fa[i] < fb[i];
                assert(ta.take(i) =~= fa.take(i));
                assert(tb.take(i) =~= fb.take(i));
                assert(ta[i] == fa[i] && tb[i] == fb[i]);
            } else {
                let i = fa.len() as int;
                lemma_digit_order(a % base, b % base);
                assert(ta.take(i) =~= fa);
                assert(tb.take(i) =~= fb);
                assert(ta[i] < tb[i]);
            }
        }
    }
}

/// `String::push` of std: the character is added at the end of the text and
/// nothing else changes.
#[verifier::external_body]
pub(crate) fn push_char(s: &mut String, c: char)
    ensures
        final(s)@ == old(s)@.push(c),
{
    s.push(c);
}

/// The character of one digit.
pub fn digit_to_char(d: u8) -> (c: char)
    requires
        d < 16,
    ensures
        c == digit_char(d as nat),
{
    if d < 10 {
        (48 + d) as char
    } else {
        (87 + d) as char
    }
}

/// Appends the digits of `n` in radix `base` to `out`.
pub fn append_digits(out: &mut String, n: u128, base: u8)
    requires
        2 <= base <= 16,
    ensures
        final(out)@ == old(out)@ + digits_text(n as nat, base as nat),
    decreases n,
{
    let b: u128 = base as u128;
    if n < b {
        push_char(out, digit_to_char(n as u8));
    } else {
        proof {
            lemma_quotient_smaller(n as nat, b as nat);
        }
        append_digits(out, n / b, base);
        push_char(out, digit_to_char((n % b) as u8));
    }
}

} // verus!
