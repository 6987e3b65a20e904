//! The orders on characters, on digit runs, on segments and on whole strings.
use core::cmp::Ordering;
use vstd::prelude::*;

use crate::digits::{all_digits, compare_int, decimal_value, lemma_digit_order_is_numeric};
use crate::segment::{segments, Segment, StringElement, StringElementIter, lemma_run_len_bounds};

verus! {

/// Lexicographic order of two character sequences, by code point; a proper
/// prefix comes first.
pub open spec fn lex_order(a: Seq<char>, b: Seq<char>) -> Ordering
    decreases a.len(),
{
    if a.len() == 0 {
        if b.len() == 0 {
            Ordering::Equal
        } else {
            Ordering::Less
        }
    } else if b.len() == 0 {
        Ordering::Greater
    } else if a[0] < b[0] {
        Ordering::Less
    } else if a[0] > b[0] {
        Ordering::Greater
    } else {
        lex_order(a.drop_first(), b.drop_first())
    }
}

/// `s` with its leading `'0'` characters removed.
pub open spec fn strip_zeros(s: Seq<char>) -> Seq<char>
    decreases s.len(),
{
    if s.len() > 0 && s[0] == '0' {
        strip_zeros(s.drop_first())
    } else {
        s
    }
}

/// Order of two digit runs as unsigned decimal numbers of any length: once
/// leading zeros are gone, the longer is the larger, and runs of one length
/// compare digit by digit.
pub open spec fn digit_order(a: Seq<char>, b: Seq<char>) -> Ordering {
    let x = strip_zeros(a);
    let y = strip_zeros(b);
    if x.len() < y.len() {
        Ordering::Less
    } else if x.len() > y.len() {
        Ordering::Greater
    } else {
        lex_order(x, y)
    }
}

/// Two digit runs compare by value; any other pair by its text.
pub open spec fn segment_order(x: Segment, y: Segment) -> Ordering {
    match (x, y) {
        (Segment::Digits(a), Segment::Digits(b)) => digit_order(a, b),
        _ => lex_order(x.text(), y.text()),
    }
}

/// The first pair of segments, taken position by position up to the shorter
/// sequence, that does not compare `Equal`; `Equal` if there is none.
pub open spec fn first_difference(x: Seq<Segment>, y: Seq<Segment>) -> Ordering
    decreases x.len(),
{
    if x.len() == 0 || y.len() == 0 {
        Ordering::Equal
    } else if segment_order(x[0], y[0]) != Ordering::Equal {
        segment_order(x[0], y[0])
    } else {
        first_difference(x.drop_first(), y.drop_first())
    }
}

/// Natural order of two strings: the first differing segment pair decides,
/// and where there is none the strings compare lexicographically.
pub open spec fn natural_order(a: Seq<char>, b: Seq<char>) -> Ordering {
    let o = first_difference(segments(a), segments(b));
    if o != Ordering::Equal {
        o
    } else {
        lex_order(a, b)
    }
}

pub open spec fn reversed(o: Ordering) -> Ordering {
    match o {
        Ordering::Less => Ordering::Greater,
        Ordering::Equal => Ordering::Equal,
        Ordering::Greater => Ordering::Less,
    }
}

/// Compares two strings character by character.
pub fn cmp_chars(a: &str, b: &str) -> (r: Ordering)
    ensures
        r == lex_order(a@, b@),
{
    let n = a.unicode_len();
    let m = b.unicode_len();
    let mut i: usize = 0;
    proof {
        assert(a@.skip(0) =~= a@);
        assert(b@.skip(0) =~= b@);
    }
    while i < n && i < m
        invariant
            n == a@.len(),
            m == b@.len(),
            i <= n,
            i <= m,
            lex_order(a@, b@) == lex_order(a@.skip(i as int), b@.skip(i as int)),
        decreases n - i,
    {
        let x = a.get_char(i);
        let y = b.get_char(i);
        if x < y {
            return Ordering::Less;
        }
        if x > y {
            return Ordering::Greater;
        }
        proof {
            assert(a@.skip(i as int).drop_first() =~= a@.skip(i + 1));
            assert(b@.skip(i as int).drop_first() =~= b@.skip(i + 1));
        }
        i = i + 1;
    }
    if i < m {
        Ordering::Less
    } else if i < n {
        Ordering::Greater
    } else {
        Ordering::Equal
    }
}

/// `s` without its leading zeros, borrowed from `s`.
pub fn trim_leading_zeroes(s: &str) -> (r: &str)
    ensures
        r@ == strip_zeros(s@),
{
    let n = s.unicode_len();
    let mut i: usize = 0;
    proof {
        assert(s@.skip(0) =~= s@);
    }
    while i < n && s.get_char(i) == '0'
        invariant
            n == s@.len(),
            i <= n,
            strip_zeros(s@.skip(i as int)) == strip_zeros(s@),
        decreases n - i,
    {
        proof {
            assert(s@.skip(i as int).drop_first() =~= s@.skip(i + 1));
        }
        i = i + 1;
    }
    let r = s.substring_char(i, n);
    proof {
        assert(r@ =~= s@.skip(i as int));
    }
    r
}

/// Compares two digit runs by numeric value, without converting them to a
/// fixed-width integer.
pub fn cmp_digit_str(lhs: &str, rhs: &str) -> (r: Ordering)
    ensures
        r == digit_order(lhs@, rhs@),
        all_digits(lhs@) && all_digits(rhs@) ==> r == compare_int(
            decimal_value(lhs@),
            decimal_value(rhs@),
        ),
{
    proof {
        if all_digits(lhs@) && all_digits(rhs@) {
            lemma_digit_order_is_numeric(lhs@, rhs@);
        }
    }
    let x = trim_leading_zeroes(lhs);
    let y = trim_leading_zeroes(rhs);
    let n = x.unicode_len();
    let m = y.unicode_len();
    if n < m {
        Ordering::Less
    } else if n > m {
        Ordering::Greater
    } else {
        cmp_chars(x, y)
    }
}

/// Compares two segments: by value if both are digit runs, else by text.
pub fn cmp_elements(x: &StringElement, y: &StringElement) -> (r: Ordering)
    ensures
        r == segment_order(x@, y@),
{
    match (x, y) {
        (StringElement::Digits(a), StringElement::Digits(b)) => cmp_digit_str(a, b),
        (StringElement::Digits(a), StringElement::Characters(b)) => cmp_chars(a, b),
        (StringElement::Characters(a), StringElement::Digits(b)) => cmp_chars(a, b),
        (StringElement::Characters(a), StringElement::Characters(b)) => cmp_chars(a, b),
    }
}

/// Natural-order comparison of two strings, usable as a sort comparator.
pub fn natural_cmp(lhs: &str, rhs: &str) -> (r: Ordering)
    ensures
        r == natural_order(lhs@, rhs@),
{
    let mut left = StringElementIter::new(lhs);
    let mut right = StringElementIter::new(rhs);
    loop
        invariant
            first_difference(segments(lhs@), segments(rhs@)) == first_difference(
                segments(left.str@),
                segments(right.str@),
            ),
        ensures
            first_difference(segments(lhs@), segments(rhs@)) == Ordering::Equal,
        decreases left.str@.len(),
    {
        let ghost before_left = left.str@;
        let ghost before_right = right.str@;
        let a = left.next();
        let b = right.next();
        match (a, b) {
            (Some(x), Some(y)) => {
                proof {
                    lemma_run_len_bounds(before_left);
                }
                match cmp_elements(&x, &y) {
                    Ordering::Equal => {
                        proof {
                            let sl = segments(before_left);
                            let sr = segments(before_right);
                            assert(sl.drop_first() =~= segments(left.str@));
                            assert(sr.drop_first() =~= segments(right.str@));
                        }
                    },
                    o => {
                        return o;
                    },
                }
            },
            _ => {
                break ;
            },
        }
    }
    cmp_chars(lhs, rhs)
}

} // verus!
