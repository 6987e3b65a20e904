//! Order laws of the natural comparison.
use core::cmp::Ordering;
use vstd::prelude::*;

use crate::natural::{
    digit_order, first_difference, lex_order, natural_order, reversed, segment_order, strip_zeros,
};
use crate::segment::{
    flatten, is_digit, lemma_segments_cover, segments, well_formed_segment, Segment,
};

verus! {

/// Lexicographic order puts every sequence level with itself.
pub proof fn lemma_lex_reflexive(a: Seq<char>)
    ensures
        lex_order(a, a) == Ordering::Equal,
    decreases a.len(),
{
    if a.len() > 0 {
        lemma_lex_reflexive(a.drop_first());
    }
}

/// Swapping the arguments of the lexicographic order reverses its result.
pub proof fn lemma_lex_antisymmetric(a: Seq<char>, b: Seq<char>)
    ensures
        lex_order(b, a) == reversed(lex_order(a, b)),
    decreases a.len(),
{
    if a.len() > 0 && b.len() > 0 && a[0] == b[0] {
        lemma_lex_antisymmetric(a.drop_first(), b.drop_first());
    }
}

/// Lexicographic order calls two sequences `Equal` only when they are equal.
pub proof fn lemma_lex_equal(a: Seq<char>, b: Seq<char>)
    ensures
        lex_order(a, b) == Ordering::Equal <==> a == b,
    decreases a.len(),
{
    if a.len() > 0 && b.len() > 0 && a[0] == b[0] {
        lemma_lex_equal(a.drop_first(), b.drop_first());
        if a.drop_first() == b.drop_first() {
            assert forall|i: int| 0 <= i < a.len() implies a[i] == b[i] by {
                if i > 0 {
                    assert(a[i] == a.drop_first()[i - 1]);
                    assert(b[i] == b.drop_first()[i - 1]);
                }
            }
            assert(a =~= b);
        }
    }
    if a.len() == 0 && b.len() == 0 {
        assert(a =~= b);
    }
    if a == b {
        lemma_lex_reflexive(a);
    }
}

/// Lexicographic order is transitive.
pub proof fn lemma_lex_transitive(a: Seq<char>, b: Seq<char>, c: Seq<char>)
    requires
        lex_order(a, b) == Ordering::Less,
        lex_order(b, c) == Ordering::Less,
    ensures
        lex_order(a, c) == Ordering::Less,
    decreases a.len(),
{
    if a.len() > 0 && b.len() > 0 && c.len() > 0 && a[0] == b[0] && b[0] == c[0] {
        lemma_lex_transitive(a.drop_first(), b.drop_first(), c.drop_first());
    }
}

/// Every segment compares `Equal` with itself.
pub proof fn lemma_segment_reflexive(x: Segment)
    ensures
        segment_order(x, x) == Ordering::Equal,
{
    lemma_lex_reflexive(x.text());
    if let Segment::Digits(a) = x {
        lemma_lex_reflexive(strip_zeros(a));
    }
}

/// Swapping two segments reverses their order.
pub proof fn lemma_segment_antisymmetric(x: Segment, y: Segment)
    ensures
        segment_order(y, x) == reversed(segment_order(x, y)),
{
    lemma_lex_antisymmetric(x.text(), y.text());
    if let (Segment::Digits(a), Segment::Digits(b)) = (x, y) {
        lemma_lex_antisymmetric(strip_zeros(a), strip_zeros(b));
    }
}

proof fn lemma_first_difference_reflexive(x: Seq<Segment>)
    ensures
        first_difference(x, x) == Ordering::Equal,
    decreases x.len(),
{
    if x.len() > 0 {
        lemma_segment_reflexive(x[0]);
        lemma_first_difference_reflexive(x.drop_first());
    }
}

proof fn lemma_first_difference_antisymmetric(x: Seq<Segment>, y: Seq<Segment>)
    ensures
        first_difference(y, x) == reversed(first_difference(x, y)),
    decreases x.len(),
{
    if x.len() > 0 && y.len() > 0 {
        lemma_segment_antisymmetric(x[0], y[0]);
        lemma_first_difference_antisymmetric(x.drop_first(), y.drop_first());
    }
}

/// Every string, the empty one included, compares `Equal` with itself.
pub proof fn lemma_natural_reflexive(s: Seq<char>)
    ensures
        natural_order(s, s) == Ordering::Equal,
{
    lemma_first_difference_reflexive(segments(s));
    lemma_lex_reflexive(s);
}

/// Swapping the two strings reverses the result: `a < b` exactly when
/// `b > a`, and `a = b` exactly when `b = a`.
pub proof fn lemma_natural_antisymmetric(a: Seq<char>, b: Seq<char>)
    ensures
        natural_order(b, a) == reversed(natural_order(a, b)),
{
    lemma_first_difference_antisymmetric(segments(a), segments(b));
    lemma_lex_antisymmetric(a, b);
}

/// Two strings compare `Equal` exactly when they are the same string, so of
/// `a < b`, `a = b` and `a > b` exactly one holds, and `=` is equality.
pub proof fn lemma_natural_equal(a: Seq<char>, b: Seq<char>)
    ensures
        natural_order(a, b) == Ordering::Equal <==> a == b,
{
    lemma_lex_equal(a, b);
    if a == b {
        lemma_natural_reflexive(a);
    }
}

/// A digit run begins with `'0'` only when it is the single digit `0`.
pub open spec fn canonical_segment(x: Segment) -> bool {
    match x {
        Segment::Digits(t) => t.len() > 0 && t[0] == '0' ==> t.len() == 1,
        Segment::Characters(_) => true,
    }
}

/// No digit run of `s` has a superfluous leading zero.
pub open spec fn canonical_runs(s: Seq<char>) -> bool {
    forall|i: int| 0 <= i < segments(s).len() ==> canonical_segment(#[trigger] segments(s)[i])
}

pub open spec fn good_segments(x: Seq<Segment>) -> bool {
    forall|i: int|
        0 <= i < x.len() ==> well_formed_segment(#[trigger] x[i]) && canonical_segment(x[i])
}

/// Segment sequences ordered lexicographically, with a proper prefix first.
pub open spec fn sequence_order(x: Seq<Segment>, y: Seq<Segment>) -> Ordering {
    let o = first_difference(x, y);
    if o != Ordering::Equal {
        o
    } else if x.len() < y.len() {
        Ordering::Less
    } else if x.len() > y.len() {
        Ordering::Greater
    } else {
        Ordering::Equal
    }
}

proof fn lemma_strip_canonical(t: Seq<char>)
    requires
        t.len() > 0,
        t[0] == '0' ==> t.len() == 1,
    ensures
        t[0] == '0' ==> strip_zeros(t).len() == 0,
        t[0] != '0' ==> strip_zeros(t) == t,
{
    if t[0] == '0' {
        assert(strip_zeros(t) == strip_zeros(t.drop_first()));
    }
}

proof fn lemma_segment_equal(x: Segment, y: Segment)
    requires
        well_formed_segment(x),
        well_formed_segment(y),
        canonical_segment(x),
        canonical_segment(y),
        segment_order(x, y) == Ordering::Equal,
    ensures
        x == y,
{
    lemma_lex_equal(x.text(), y.text());
    if let (Segment::Digits(a), Segment::Digits(b)) = (x, y) {
        lemma_strip_canonical(a);
        lemma_strip_canonical(b);
        lemma_lex_equal(strip_zeros(a), strip_zeros(b));
        if a[0] == '0' {
            assert(a =~= b);
        }
    } else {
        let t = x.text();
        let u = y.text();
        assert(t[0] == u[0]);
    }
}

proof fn lemma_segment_transitive(x: Segment, y: Segment, z: Segment)
    requires
        well_formed_segment(x),
        well_formed_segment(y),
        well_formed_segment(z),
        segment_order(x, y) == Ordering::Less,
        segment_order(y, z) == Ordering::Less,
    ensures
        segment_order(x, z) == Ordering::Less,
{
    let (t, u, v) = (x.text(), y.text(), z.text());
    assert(is_digit(t[0]) || !is_digit(t[0]));
    assert(is_digit(u[0]) || !is_digit(u[0]));
    assert(is_digit(v[0]) || !is_digit(v[0]));
    match (x, y, z) {
        (Segment::Digits(a), Segment::Digits(b), Segment::Digits(c)) => {
            let (p, q, r) = (strip_zeros(a), strip_zeros(b), strip_zeros(c));
            if p.len() == q.len() && q.len() == r.len() {
                lemma_lex_transitive(p, q, r);
            }
        },
        (Segment::Digits(_), Segment::Digits(_), Segment::Characters(_)) => {},
        (Segment::Characters(_), Segment::Digits(_), Segment::Digits(_)) => {},
        (Segment::Digits(_), Segment::Characters(_), Segment::Digits(_)) => {},
        _ => {
            lemma_lex_transitive(t, u, v);
        },
    }
}

proof fn lemma_good_drop_first(x: Seq<Segment>)
    requires
        good_segments(x),
        x.len() > 0,
    ensures
        good_segments(x.drop_first()),
{
    assert forall|i: int| 0 <= i < x.drop_first().len() implies well_formed_segment(
        #[trigger] x.drop_first()[i],
    ) && canonical_segment(x.drop_first()[i]) by {
        assert(x.drop_first()[i] == x[i + 1]);
    }
}

proof fn lemma_lex_common_prefix(t: Seq<char>, p: Seq<char>, q: Seq<char>)
    ensures
        lex_order(t + p, t + q) == lex_order(p, q),
    decreases t.len(),
{
    if t.len() > 0 {
        assert((t + p).drop_first() =~= t.drop_first() + p);
        assert((t + q).drop_first() =~= t.drop_first() + q);
        lemma_lex_common_prefix(t.drop_first(), p, q);
    } else {
        assert(t + p =~= p);
        assert(t + q =~= q);
    }
}

/// Where no segment pair differs, the joined texts compare as the sequences'
/// lengths do.
proof fn lemma_fallback_by_length(x: Seq<Segment>, y: Seq<Segment>)
    requires
        good_segments(x),
        good_segments(y),
        first_difference(x, y) == Ordering::Equal,
    ensures
        lex_order(flatten(x), flatten(y)) == sequence_order(x, y),
    decreases x.len(),
{
    if x.len() == 0 && y.len() == 0 {
    } else if x.len() == 0 {
        assert(well_formed_segment(y[0]));
        assert(flatten(y)[0] == y[0].text()[0]);
    } else if y.len() == 0 {
        assert(well_formed_segment(x[0]));
        assert(flatten(x)[0] == x[0].text()[0]);
    } else {
        lemma_segment_equal(x[0], y[0]);
        lemma_good_drop_first(x);
        lemma_good_drop_first(y);
        lemma_fallback_by_length(x.drop_first(), y.drop_first());
        lemma_lex_common_prefix(x[0].text(), flatten(x.drop_first()), flatten(y.drop_first()));
    }
}

proof fn lemma_sequence_transitive(x: Seq<Segment>, y: Seq<Segment>, z: Seq<Segment>)
    requires
        good_segments(x),
        good_segments(y),
        good_segments(z),
        sequence_order(x, y) == Ordering::Less,
        sequence_order(y, z) == Ordering::Less,
    ensures
        sequence_order(x, z) == Ordering::Less,
    decreases x.len(),
{
    if x.len() > 0 && y.len() > 0 && z.len() > 0 {
        let (a, b, c) = (x[0], y[0], z[0]);
        let o1 = segment_order(a, b);
        let o2 = segment_order(b, c);
        if o1 == Ordering::Equal {
            lemma_segment_equal(a, b);
        }
        if o2 == Ordering::Equal {
            lemma_segment_equal(b, c);
        }
        if o1 == Ordering::Less && o2 == Ordering::Less {
            lemma_segment_transitive(a, b, c);
        } else if o1 == Ordering::Equal && o2 == Ordering::Equal {
            lemma_segment_reflexive(a);
            lemma_good_drop_first(x);
            lemma_good_drop_first(y);
            lemma_good_drop_first(z);
            lemma_sequence_transitive(x.drop_first(), y.drop_first(), z.drop_first());
        }
    }
}

proof fn lemma_natural_is_sequence_order(a: Seq<char>, b: Seq<char>)
    requires
        canonical_runs(a),
        canonical_runs(b),
    ensures
        natural_order(a, b) == sequence_order(segments(a), segments(b)),
{
    lemma_segments_cover(a);
    lemma_segments_cover(b);
    if first_difference(segments(a), segments(b)) == Ordering::Equal {
        lemma_fallback_by_length(segments(a), segments(b));
    }
}

/// Natural order is transitive on strings whose digit runs carry no
/// superfluous leading zero. (With such zeros it is not: `"1" < "1A"`,
/// `"1A" < "01a"` and `"01a" < "1"`.)
pub proof fn lemma_natural_transitive(a: Seq<char>, b: Seq<char>, c: Seq<char>)
    requires
        canonical_runs(a),
        canonical_runs(b),
        canonical_runs(c),
        natural_order(a, b) == Ordering::Less,
        natural_order(b, c) == Ordering::Less,
    ensures
        natural_order(a, c) == Ordering::Less,
{
    lemma_segments_cover(a);
    lemma_segments_cover(b);
    lemma_segments_cover(c);
    lemma_natural_is_sequence_order(a, b);
    lemma_natural_is_sequence_order(b, c);
    lemma_natural_is_sequence_order(a, c);
    lemma_sequence_transitive(segments(a), segments(b), segments(c));
}

} // verus!
