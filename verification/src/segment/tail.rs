//! The bounded terminal emission of a segmenter.
use vstd::prelude::*;

use crate::segment::range::Range;

verus! {

/// Bounded terminal emission from
/// [`Segmenter::finish`](crate::segment::Segmenter::finish) and
/// [`Segmenter::discontinuity`](crate::segment::Segmenter::discontinuity): at most
/// two finalized ranges, drawn in ascending start order.
///
/// The ranges are held inline, so a tail allocates nothing.
#[derive(Debug)]
pub struct SegmentTail {
    /// The next range to draw.
    first: Option<Range>,
    /// The range after it.
    second: Option<Range>,
}

/// The sequence of the present ones of two optional ranges.
pub open spec fn present(first: Option<Range>, second: Option<Range>) -> Seq<Range> {
    match (first, second) {
        (Some(a), Some(b)) => seq![a, b],
        (Some(a), None) => seq![a],
        (None, Some(b)) => seq![b],
        (None, None) => Seq::empty(),
    }
}

impl View for SegmentTail {
    type V = Seq<Range>;

    /// The ranges not yet drawn.
    closed spec fn view(&self) -> Seq<Range> {
        present(self.first, self.second)
    }
}

impl Clone for SegmentTail {
    fn clone(&self) -> (r: Self)
        ensures
            r@ == self@,
    {
        proof {
            use_type_invariant(self);
        }
        SegmentTail { first: self.first, second: self.second }
    }
}

impl SegmentTail {
    /// A present range is always the first one.
    #[verifier::type_invariant]
    spec fn compact(self) -> bool {
        self.second is Some ==> self.first is Some
    }

    /// Build a tail from two candidate emissions, dropping the absent ones.
    #[must_use]
    pub fn new(first: Option<Range>, second: Option<Range>) -> (r: SegmentTail)
        ensures
            r@ == present(first, second),
    {
        match first {
            Some(_) => SegmentTail { first, second },
            None => SegmentTail { first: second, second: None },
        }
    }

    /// Draw the next range, if any is left.
    pub fn next(&mut self) -> (r: Option<Range>)
        ensures
            old(self)@.len() == 0 ==> r is None && final(self)@ == old(self)@,
            old(self)@.len() > 0 ==> r == Some(old(self)@[0]) && final(self)@
                == old(self)@.drop_first(),
    {
        proof {
            use_type_invariant(&*self);
        }
        let taken = self.first;
        let rest = self.second;
        *self = SegmentTail { first: rest, second: None };
        assert(self@ =~= if old(self)@.len() > 0 {
            old(self)@.drop_first()
        } else {
            old(self)@
        });
        taken
    }

    /// The number of ranges not yet drawn.
    #[must_use]
    pub fn len(&self) -> (r: usize)
        ensures
            r == self@.len(),
            r <= 2,
    {
        proof {
            use_type_invariant(self);
        }
        if self.second.is_some() {
            2
        } else if self.first.is_some() {
            1
        } else {
            0
        }
    }

    /// The number of ranges not yet drawn, as a lower and an upper bound that
    /// agree.
    #[must_use]
    pub fn size_hint(&self) -> (r: (usize, Option<usize>))
        ensures
            r.0 == self@.len(),
            r.1 == Some(r.0),
    {
        let len: usize = self.len();
        (len, Some(len))
    }

    /// The ranges not yet drawn, collected.
    #[must_use]
    pub fn into_vec(self) -> (r: Vec<Range>)
        ensures
            r@ == self@,
    {
        proof {
            use_type_invariant(&self);
        }
        let mut out: Vec<Range> = Vec::new();
        if let Some(range) = self.first {
            out.push(range);
        }
        if let Some(range) = self.second {
            out.push(range);
        }
        assert(out@ =~= self@);
        out
    }
}

/// A tail holds the ranges that it is given, the first one first, and draws them in that order.
pub proof fn tails_hold_their_ranges(first: Option<Range>, second: Option<Range>, tail: SegmentTail)
    requires
        call_ensures(SegmentTail::new, (first, second), tail),
    ensures
        first matches Some(a) ==> tail@.len() > 0 && tail@[0] == a,
        second matches Some(b) ==> tail@.len() > 0 && tail@.last() == b,
        tail@.len() == (if first is Some {
            1int
        } else {
            0
        }) + (if second is Some {
            1int
        } else {
            0
        }),
{
}

} // verus!
