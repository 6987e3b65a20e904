//! Splitting a string into maximal runs of digits and of non-digits.
use vstd::prelude::*;

verus! {

/// A decimal digit: ASCII `0` to `9`, as `char::is_digit(10)` classifies it.
pub open spec fn is_digit(c: char) -> bool {
    '0' <= c && c <= '9'
}

pub fn char_is_digit(c: char) -> (r: bool)
    ensures
        r == is_digit(c),
{
    '0' <= c && c <= '9'
}

/// End of the run of characters of class `digits` that starts at or before `i`:
/// the first index at or after `i` whose class differs, or the length of `s`.
pub open spec fn run_end_from(s: Seq<char>, digits: bool, i: nat) -> nat
    decreases s.len() - i,
{
    if i >= s.len() {
        s.len()
    } else if is_digit(s[i as int]) != digits {
        i
    } else {
        run_end_from(s, digits, i + 1)
    }
}

/// Length of the maximal run at the start of `s` (zero for the empty string).
pub open spec fn run_len(s: Seq<char>) -> nat {
    if s.len() == 0 {
        0
    } else {
        run_end_from(s, is_digit(s[0]), 0)
    }
}

pub proof fn lemma_run_end_from_bounds(s: Seq<char>, digits: bool, i: nat)
    requires
        i <= s.len(),
    ensures
        i <= run_end_from(s, digits, i) <= s.len(),
    decreases s.len() - i,
{
    if i < s.len() && is_digit(s[i as int]) == digits {
        lemma_run_end_from_bounds(s, digits, i + 1);
    }
}

pub proof fn lemma_run_len_bounds(s: Seq<char>)
    requires
        s.len() > 0,
    ensures
        1 <= run_len(s) <= s.len(),
{
    lemma_run_end_from_bounds(s, is_digit(s[0]), 1);
}

/// A segment as a mathematical value: its kind and its characters.
pub enum Segment {
    Digits(Seq<char>),
    Characters(Seq<char>),
}

impl Segment {
    pub open spec fn text(self) -> Seq<char> {
        match self {
            Segment::Digits(t) => t,
            Segment::Characters(t) => t,
        }
    }
}

/// The first segment of a non-empty string.
pub open spec fn first_segment(s: Seq<char>) -> Segment {
    let t = s.take(run_len(s) as int);
    if is_digit(s[0]) {
        Segment::Digits(t)
    } else {
        Segment::Characters(t)
    }
}

/// The segmentation of `s`: its maximal runs of digits and of non-digits,
/// left to right.
pub open spec fn segments(s: Seq<char>) -> Seq<Segment>
    decreases s.len(),
{
    if s.len() == 0 {
        seq![]
    } else {
        proof {
            lemma_run_len_bounds(s);
        }
        seq![first_segment(s)] + segments(s.skip(run_len(s) as int))
    }
}

/// A segment as the segmenter produces it: non-empty, and all digits or no digit.
pub open spec fn well_formed_segment(x: Segment) -> bool {
    &&& x.text().len() > 0
    &&& match x {
        Segment::Digits(t) => forall|i: int| 0 <= i < t.len() ==> is_digit(#[trigger] t[i]),
        Segment::Characters(t) => forall|i: int| 0 <= i < t.len() ==> !is_digit(#[trigger] t[i]),
    }
}

/// The characters of a sequence of segments, joined in order.
pub open spec fn flatten(x: Seq<Segment>) -> Seq<char>
    decreases x.len(),
{
    if x.len() == 0 {
        Seq::<char>::empty()
    } else {
        x[0].text() + flatten(x.drop_first())
    }
}

proof fn lemma_run_end_from_class(s: Seq<char>, digits: bool, i: nat)
    requires
        i <= s.len(),
    ensures
        forall|j: int| i <= j < run_end_from(s, digits, i) ==> is_digit(#[trigger] s[j]) == digits,
    decreases s.len() - i,
{
    if i < s.len() && is_digit(s[i as int]) == digits {
        lemma_run_end_from_class(s, digits, i + 1);
    }
}

/// Every segment of `s` is well formed, and together they spell `s`.
pub proof fn lemma_segments_cover(s: Seq<char>)
    ensures
        forall|i: int| 0 <= i < segments(s).len() ==> well_formed_segment(#[trigger] segments(s)[i]),
        flatten(segments(s)) == s,
    decreases s.len(),
{
    if s.len() == 0 {
        assert(flatten(segments(s)) =~= s);
    } else {
        let k = run_len(s) as int;
        lemma_run_len_bounds(s);
        lemma_run_end_from_class(s, is_digit(s[0]), 0);
        let rest = s.skip(k);
        lemma_segments_cover(rest);
        let f = first_segment(s);
        assert(well_formed_segment(f));
        let x = segments(s);
        assert(x.drop_first() =~= segments(rest));
        assert forall|i: int| 0 <= i < x.len() implies well_formed_segment(#[trigger] x[i]) by {
            if i > 0 {
                assert(x[i] == segments(rest)[i - 1]);
            }
        }
        assert(s.take(k) + rest =~= s);
    }
}

/// One segment of a string, borrowed from it.
#[derive(PartialEq, Debug)]
pub enum StringElement<'a> {
    Digits(&'a str),
    Characters(&'a str),
}

impl<'a> View for StringElement<'a> {
    type V = Segment;

    open spec fn view(&self) -> Segment {
        match self {
            StringElement::Digits(t) => Segment::Digits(t@),
            StringElement::Characters(t) => Segment::Characters(t@),
        }
    }
}

/// A cursor over the segments of a string: holds the part not yet consumed.
pub struct StringElementIter<'a> {
    pub str: &'a str,
}

impl<'a> StringElementIter<'a> {
    pub fn new(s: &'a str) -> (r: Self)
        ensures
            r.str@ == s@,
    {
        StringElementIter { str: s }
    }

    /// Produces the next segment, or `None` once the string is consumed.
    pub fn next(&mut self) -> (r: Option<StringElement<'a>>)
        ensures
            old(self).str@.len() == 0 <==> r is None,
            r is None ==> final(self).str@ == old(self).str@,
            r is Some ==> r->0@ == first_segment(old(self).str@)
                && final(self).str@ == old(self).str@.skip(run_len(old(self).str@) as int),
            segments(old(self).str@) == match r {
                None => Seq::<Segment>::empty(),
                Some(e) => seq![e@] + segments(final(self).str@),
            },
    {
        let s = self.str;
        let n = s.unicode_len();
        if n == 0 {
            return None;
        }
        let digits = char_is_digit(s.get_char(0));
        let mut i: usize = 1;
        while i < n && char_is_digit(s.get_char(i)) == digits
            invariant
                n == s@.len(),
                1 <= i <= n,
                digits == is_digit(s@[0]),
                run_end_from(s@, digits, i as nat) == run_len(s@),
            decreases n - i,
        {
            i = i + 1;
        }
        let head = s.substring_char(0, i);
        let rest = s.substring_char(i, n);
        proof {
            assert(run_len(s@) == i);
            assert(head@ == s@.take(i as int));
            assert(rest@ == s@.skip(i as int));
        }
        self.str = rest;
        if digits {
            Some(StringElement::Digits(head))
        } else {
            Some(StringElement::Characters(head))
        }
    }
}

} // verus!
