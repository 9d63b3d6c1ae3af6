//! Character sequences: decimal numerals, joining with a separator, counting.

use vstd::prelude::*;

verus! {

/// `String::push` of the standard library: it appends the character to the
/// end of the string and changes nothing else.
pub assume_specification[ String::push ](s: &mut String, c: char)
    ensures
        final(s)@ == old(s)@.push(c),
;

/// The character that stands for a decimal digit.
pub open spec fn digit(d: nat) -> char {
    if d == 0 {
        '0'
    } else if d == 1 {
        '1'
    } else if d == 2 {
        '2'
    } else if d == 3 {
        '3'
    } else if d == 4 {
        '4'
    } else if d == 5 {
        '5'
    } else if d == 6 {
        '6'
    } else if d == 7 {
        '7'
    } else if d == 8 {
        '8'
    } else {
        '9'
    }
}

/// The decimal numeral of `n`: most significant digit first, no leading
/// zero, and `"0"` for zero.
pub open spec fn decimal(n: nat) -> Seq<char>
    decreases n,
{
    if n < 10 {
        seq![digit(n)]
    } else {
        decimal(n / 10).push(digit(n % 10))
    }
}

/// The parts in order, with `sep` between each two neighbours.
pub open spec fn join(parts: Seq<Seq<char>>, sep: char) -> Seq<char>
    decreases parts.len(),
{
    if parts.len() == 0 {
        Seq::empty()
    } else if parts.len() == 1 {
        parts[0]
    } else {
        join(parts.drop_last(), sep).push(sep) + parts.last()
    }
}

/// How often `c` occurs in `s`.
pub open spec fn count(s: Seq<char>, c: char) -> nat
    decreases s.len(),
{
    if s.len() == 0 {
        0
    } else {
        count(s.drop_last(), c) + if s.last() == c {
            1nat
        } else {
            0nat
        }
    }
}

/// Whether `c` is one of the ten decimal digits.
pub open spec fn is_digit(c: char) -> bool {
    exists|d: nat| d < 10 && c == digit(d)
}

/// The character of the digit `d`.
fn digit_char(d: u8) -> (c: char)
    requires
        d < 10,
    ensures
        c == digit(d as nat),
{
    if d == 0 {
        '0'
    } else if d == 1 {
        '1'
    } else if d == 2 {
        '2'
    } else if d == 3 {
        '3'
    } else if d == 4 {
        '4'
    } else if d == 5 {
        '5'
    } else if d == 6 {
        '6'
    } else if d == 7 {
        '7'
    } else if d == 8 {
        '8'
    } else {
        '9'
    }
}

/// Appends the decimal numeral of `n` to `out`.
pub fn push_decimal(out: &mut String, n: u64)
    ensures
        final(out)@ == old(out)@ + decimal(n as nat),
    decreases n,
{
    if n >= 10 {
        push_decimal(out, n / 10);
    }
    let d: u8 = (n % 10) as u8;
    out.push(digit_char(d));
}

/// The number that `high` and `low` hold together, `low` being its lowest
/// sixty-four bits.
pub open spec fn wide(high: u128, low: u64) -> nat {
    (high * 0x1_0000_0000_0000_0000 + low) as nat
}

/// Appends the decimal numeral of the number that `high` and `low` hold
/// together to `out`.
pub fn push_decimal_wide(out: &mut String, high: u128, low: u64)
    ensures
        final(out)@ == old(out)@ + decimal(wide(high, low)),
    decreases high,
{
    if high == 0 {
        push_decimal(out, low);
    } else {
        let upper: u128 = high / 10;
        let carried: u128 = (high % 10) * 0x1_0000_0000_0000_0000 + low as u128;
        let lower: u64 = (carried / 10) as u64;
        let d: u8 = (carried % 10) as u8;
        proof {
            let n = wide(high, low);
            let m = wide(upper, lower);
            assert(n == 10 * m + d);
            assert(n >= 10);
            assert(n / 10 == m && n % 10 == d as nat);
        }
        push_decimal_wide(out, upper, lower);
        out.push(digit_char(d));
    }
}

/// Joining one more part: the separator goes before it unless it is the
/// first.
pub proof fn lemma_join_push(parts: Seq<Seq<char>>, part: Seq<char>, sep: char)
    ensures
        join(parts.push(part), sep) == if parts.len() == 0 {
            part
        } else {
            join(parts, sep).push(sep) + part
        },
{
    let all = parts.push(part);
    assert(all.drop_last() =~= parts);
    assert(all.last() == part);
}

/// Counting in a sequence with one more character at its end.
pub proof fn lemma_count_push(s: Seq<char>, x: char, c: char)
    ensures
        count(s.push(x), c) == count(s, c) + if x == c {
            1nat
        } else {
            0nat
        },
{
    assert(s.push(x).drop_last() =~= s);
}

/// Counting in a concatenation: the counts add up.
pub proof fn lemma_count_concat(a: Seq<char>, b: Seq<char>, c: char)
    ensures
        count(a + b, c) == count(a, c) + count(b, c),
    decreases b.len(),
{
    if b.len() == 0 {
        assert(a + b =~= a);
    } else {
        assert((a + b).drop_last() =~= a + b.drop_last());
        lemma_count_concat(a, b.drop_last(), c);
    }
}

/// A decimal numeral holds digits only: no other character occurs in it.
pub proof fn lemma_decimal_count(n: nat, c: char)
    requires
        !is_digit(c),
    ensures
        count(decimal(n), c) == 0,
    decreases n,
{
    if n < 10 {
        assert(digit(n) != c);
        assert(decimal(n) =~= Seq::<char>::empty().push(digit(n)));
        lemma_count_push(Seq::<char>::empty(), digit(n), c);
    } else {
        assert(digit(n % 10) != c);
        lemma_decimal_count(n / 10, c);
        lemma_count_push(decimal(n / 10), digit(n % 10), c);
    }
}

/// Neither the space nor the line feed is a digit.
pub proof fn lemma_separators_are_no_digits()
    ensures
        !is_digit(' '),
        !is_digit('\n'),
{
}

/// Counting in a joined sequence whose parts each hold `c` exactly `k`
/// times: `k` for each part, and one more for each separator where `c` is
/// the separator.
pub proof fn lemma_join_count(parts: Seq<Seq<char>>, sep: char, c: char, k: nat)
    requires
        forall|i: int| 0 <= i < parts.len() ==> count(#[trigger] parts[i], c) == k,
    ensures
        count(join(parts, sep), c) == parts.len() * k + if c == sep && parts.len() > 0 {
            parts.len() - 1
        } else {
            0
        },
    decreases parts.len(),
{
    let n = parts.len();
    if n == 0 {
    } else if n == 1 {
        assert(1 * k == k);
    } else {
        let front = parts.drop_last();
        lemma_join_count(front, sep, c, k);
        lemma_count_push(join(front, sep), sep, c);
        lemma_count_concat(join(front, sep).push(sep), parts.last(), c);
        assert((n - 1) * k + k == n * k) by (nonlinear_arith);
    }
}

} // verus!
