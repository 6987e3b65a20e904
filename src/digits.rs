//! Digit runs as unsigned decimal numbers of any length.
use core::cmp::Ordering;
use vstd::prelude::*;

use crate::natural::{digit_order, lex_order, strip_zeros};
use crate::segment::is_digit;

verus! {

pub open spec fn pow10(n: nat) -> nat
    decreases n,
{
    if n == 0 {
        1
    } else {
        10 * pow10((n - 1) as nat)
    }
}

pub open spec fn all_digits(s: Seq<char>) -> bool {
    forall|i: int| 0 <= i < s.len() ==> is_digit(#[trigger] s[i])
}

/// Value of one decimal digit character.
pub open spec fn digit_value(c: char) -> int {
    (c as u32) as int - ('0' as u32) as int
}

/// Value of a digit string read as a decimal number, most significant digit
/// first; the empty string reads as zero.
pub open spec fn decimal_value(s: Seq<char>) -> int
    decreases s.len(),
{
    if s.len() == 0 {
        0
    } else {
        digit_value(s[0]) * pow10((s.len() - 1) as nat) + decimal_value(s.drop_first())
    }
}

pub open spec fn compare_int(a: int, b: int) -> Ordering {
    if a < b {
        Ordering::Less
    } else if a > b {
        Ordering::Greater
    } else {
        Ordering::Equal
    }
}

proof fn lemma_pow10_grows(m: nat, n: nat)
    requires
        m < n,
    ensures
        1 <= pow10(m),
        10 * pow10(m) <= pow10(n),
    decreases n,
{
    if m + 1 < n {
        lemma_pow10_grows(m, (n - 1) as nat);
    } else {
        lemma_pow10_positive(m);
    }
}

proof fn lemma_pow10_positive(n: nat)
    ensures
        1 <= pow10(n),
    decreases n,
{
    if n > 0 {
        lemma_pow10_positive((n - 1) as nat);
    }
}

proof fn lemma_digits_drop_first(s: Seq<char>)
    requires
        all_digits(s),
        s.len() > 0,
    ensures
        all_digits(s.drop_first()),
        0 <= digit_value(s[0]) <= 9,
{
    assert forall|i: int| 0 <= i < s.drop_first().len() implies is_digit(
        #[trigger] s.drop_first()[i],
    ) by {
        assert(s.drop_first()[i] == s[i + 1]);
    }
    assert(is_digit(s[0]));
}

/// A digit string of length `n` is worth less than `10^n`, and at least
/// `10^(n-1)` when it does not begin with `0`.
proof fn lemma_value_bounds(s: Seq<char>)
    requires
        all_digits(s),
    ensures
        0 <= decimal_value(s) < pow10(s.len()),
        s.len() > 0 && s[0] != '0' ==> pow10((s.len() - 1) as nat) <= decimal_value(s),
    decreases s.len(),
{
    if s.len() > 0 {
        lemma_digits_drop_first(s);
        lemma_value_bounds(s.drop_first());
        let d = digit_value(s[0]);
        let p = pow10((s.len() - 1) as nat);
        let rest = decimal_value(s.drop_first());
        lemma_pow10_positive((s.len() - 1) as nat);
        assert(0 <= d * p + rest < 10 * p) by (nonlinear_arith)
            requires
                0 <= d <= 9,
                0 <= rest < p,
        ;
        if s[0] != '0' {
            assert(p <= d * p + rest) by (nonlinear_arith)
                requires
                    1 <= d,
                    0 <= rest,
                    1 <= p,
            ;
        }
    }
}

proof fn lemma_strip_value(s: Seq<char>)
    requires
        all_digits(s),
    ensures
        all_digits(strip_zeros(s)),
        decimal_value(strip_zeros(s)) == decimal_value(s),
        strip_zeros(s).len() > 0 ==> strip_zeros(s)[0] != '0',
    decreases s.len(),
{
    if s.len() > 0 && s[0] == '0' {
        lemma_digits_drop_first(s);
        lemma_strip_value(s.drop_first());
    }
}

/// For digit strings of one length, digit-by-digit order is numeric order.
proof fn lemma_same_length_value(a: Seq<char>, b: Seq<char>)
    requires
        all_digits(a),
        all_digits(b),
        a.len() == b.len(),
    ensures
        lex_order(a, b) == compare_int(decimal_value(a), decimal_value(b)),
    decreases a.len(),
{
    if a.len() > 0 {
        lemma_digits_drop_first(a);
        lemma_digits_drop_first(b);
        lemma_value_bounds(a.drop_first());
        lemma_value_bounds(b.drop_first());
        let p = pow10((a.len() - 1) as nat);
        let (da, db) = (digit_value(a[0]), digit_value(b[0]));
        let (ra, rb) = (decimal_value(a.drop_first()), decimal_value(b.drop_first()));
        if a[0] == b[0] {
            lemma_same_length_value(a.drop_first(), b.drop_first());
        } else if a[0] < b[0] {
            assert(da * p + ra < db * p + rb) by (nonlinear_arith)
                requires
                    da + 1 <= db,
                    0 <= ra < p,
                    0 <= rb,
            ;
        } else {
            assert(db * p + rb < da * p + ra) by (nonlinear_arith)
                requires
                    db + 1 <= da,
                    0 <= rb < p,
                    0 <= ra,
            ;
        }
    }
}

/// On digit strings, the order of digit runs is the order of the numbers
/// they write, however many digits they have.
pub proof fn lemma_digit_order_is_numeric(a: Seq<char>, b: Seq<char>)
    requires
        all_digits(a),
        all_digits(b),
    ensures
        digit_order(a, b) == compare_int(decimal_value(a), decimal_value(b)),
{
    lemma_strip_value(a);
    lemma_strip_value(b);
    let (x, y) = (strip_zeros(a), strip_zeros(b));
    lemma_value_bounds(x);
    lemma_value_bounds(y);
    if x.len() < y.len() {
        lemma_pow10_grows(x.len(), y.len());
        lemma_pow10_positive(x.len());
        if x.len() + 1 < y.len() {
            lemma_pow10_grows(x.len(), (y.len() - 1) as nat);
        }
    } else if y.len() < x.len() {
        lemma_pow10_positive(y.len());
        if y.len() + 1 < x.len() {
            lemma_pow10_grows(y.len(), (x.len() - 1) as nat);
        }
    } else {
        lemma_same_length_value(x, y);
    }
}

} // verus!
