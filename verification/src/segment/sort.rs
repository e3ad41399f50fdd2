//! A stable sort of ranges by descending length.
use vstd::prelude::*;

use crate::segment::range::Range;

verus! {

/// The ranges of a given length, in order.
pub open spec fn of_len(ranges: Seq<Range>, len: usize) -> Seq<Range>
    decreases ranges.len(),
{
    if ranges.len() == 0 {
        Seq::empty()
    } else if ranges.last().len() == len {
        of_len(ranges.drop_last(), len).push(ranges.last())
    } else {
        of_len(ranges.drop_last(), len)
    }
}

/// Whether lengths never increase.
pub open spec fn descending(ranges: Seq<Range>) -> bool {
    forall|i: int, j: int|
        0 <= i <= j < ranges.len() ==> (#[trigger] ranges[i]).len() >= (#[trigger] ranges[j]).len()
}

/// Whether `sorted` is the stable sort of `ranges` by descending length: lengths
/// never increase, and the ranges of each length are those of `ranges`, in the same
/// order.
pub open spec fn is_stable_sort(ranges: Seq<Range>, sorted: Seq<Range>) -> bool {
    &&& descending(sorted)
    &&& forall|len: usize| #[trigger] of_len(sorted, len) == of_len(ranges, len)
}

/// The ranges of one length in a concatenation.
proof fn lemma_of_len_concat(a: Seq<Range>, b: Seq<Range>, len: usize)
    ensures
        of_len(a + b, len) == of_len(a, len) + of_len(b, len),
    decreases b.len(),
{
    if b.len() == 0 {
        assert(a + b =~= a);
        assert(of_len(a, len) + of_len(b, len) =~= of_len(a, len));
    } else {
        lemma_of_len_concat(a, b.drop_last(), len);
        assert((a + b).drop_last() =~= a + b.drop_last());
        assert((a + b).last() == b.last());
        assert(of_len(a + b, len) =~= of_len(a, len) + of_len(b, len));
    }
}

/// The ranges of one length with one more range.
proof fn lemma_of_len_push(a: Seq<Range>, r: Range, len: usize)
    ensures
        of_len(a.push(r), len) == if r.len() == len {
            of_len(a, len).push(r)
        } else {
            of_len(a, len)
        },
{
    assert(a.push(r).drop_last() =~= a);
}

/// The ranges of a length that does not occur.
proof fn lemma_of_len_absent(a: Seq<Range>, len: usize)
    requires
        forall|i: int| 0 <= i < a.len() ==> (#[trigger] a[i]).len() != len,
    ensures
        of_len(a, len) == Seq::<Range>::empty(),
    decreases a.len(),
{
    if a.len() > 0 {
        assert(a.last() == a[a.len() - 1]);
        assert(forall|i: int| 0 <= i < a.drop_last().len() ==> a.drop_last()[i] == a[i]);
        lemma_of_len_absent(a.drop_last(), len);
    }
}

/// Every range occurs as often in a stable sort as in what was sorted.
pub proof fn stable_sort_is_a_permutation(ranges: Seq<Range>, sorted: Seq<Range>)
    requires
        is_stable_sort(ranges, sorted),
    ensures
        forall|r: Range|
            #[trigger] ranges.to_multiset().count(r) == sorted.to_multiset().count(r),
{
    assert forall|r: Range| #[trigger]
        ranges.to_multiset().count(r) == sorted.to_multiset().count(r) by {
        lemma_of_len_count(ranges, r);
        lemma_of_len_count(sorted, r);
        assert(of_len(sorted, r.len()) == of_len(ranges, r.len()));
    }
}

/// A range occurs as often among those of its length as among all.
proof fn lemma_of_len_count(a: Seq<Range>, r: Range)
    ensures
        a.to_multiset().count(r) == of_len(a, r.len()).to_multiset().count(r),
    decreases a.len(),
{
    broadcast use vstd::seq_lib::group_to_multiset_ensures;

    if a.len() > 0 {
        let before = a.drop_last();
        lemma_of_len_count(before, r);
        assert(before.push(a.last()) =~= a);
    }
}

/// Merge two descending runs of ranges, the first one's ranges ahead of the
/// second's where lengths are equal.
fn merge(a: &Vec<Range>, b: &Vec<Range>) -> (out: Vec<Range>)
    requires
        descending(a@),
        descending(b@),
    ensures
        is_stable_sort(a@ + b@, out@),
{
    let mut out: Vec<Range> = Vec::new();
    let mut i: usize = 0;
    let mut j: usize = 0;
    proof {
        assert(a@.take(0) =~= Seq::<Range>::empty());
        assert(b@.take(0) =~= Seq::<Range>::empty());
        assert forall|len: usize| #[trigger]
            of_len(out@, len) == of_len(a@.take(0), len) + of_len(b@.take(0), len) by {
            assert(of_len(a@.take(0), len) + of_len(b@.take(0), len) =~= Seq::<Range>::empty());
        }
    }
    while i < a.len() || j < b.len()
        invariant
            i <= a.len(),
            j <= b.len(),
            descending(a@),
            descending(b@),
            descending(out@),
            forall|len: usize| #[trigger]
                of_len(out@, len) == of_len(a@.take(i as int), len) + of_len(
                    b@.take(j as int),
                    len,
                ),
            forall|k: int, l: int|
                0 <= k < out@.len() && i <= l < a@.len() ==> (#[trigger] out@[k]).len() >= (
                #[trigger] a@[l]).len(),
            forall|k: int, l: int|
                0 <= k < out@.len() && j <= l < b@.len() ==> (#[trigger] out@[k]).len() >= (
                #[trigger] b@[l]).len(),
            forall|k: int, l: int|
                0 <= k < j && i <= l < a@.len() ==> (#[trigger] b@[k]).len() > (
                #[trigger] a@[l]).len(),
        decreases a.len() - i + b.len() - j,
    {
        let take_a = if i < a.len() {
            if j < b.len() {
                a[i].len() >= b[j].len()
            } else {
                true
            }
        } else {
            false
        };
        let ghost before = out@;
        if take_a {
            let r = a[i];
            out.push(r);
            proof {
                assert(a@.take(i + 1) =~= a@.take(i as int).push(r));
                assert forall|len: usize| #[trigger]
                    of_len(out@, len) == of_len(a@.take(i + 1), len) + of_len(
                        b@.take(j as int),
                        len,
                    ) by {
                    assert(of_len(before, len) == of_len(a@.take(i as int), len) + of_len(
                        b@.take(j as int),
                        len,
                    ));
                    lemma_of_len_push(before, r, len);
                    lemma_of_len_push(a@.take(i as int), r, len);
                    if r.len() == len {
                        assert forall|k: int| 0 <= k < b@.take(j as int).len() implies (
                        #[trigger] b@.take(j as int)[k]).len() != len by {
                            assert(b@[k].len() > a@[i as int].len());
                        }
                        lemma_of_len_absent(b@.take(j as int), len);
                        assert(of_len(out@, len) =~= of_len(a@.take(i + 1), len) + of_len(
                            b@.take(j as int),
                            len,
                        ));
                    }
                }
            }
            i = i + 1;
        } else {
            let r = b[j];
            out.push(r);
            proof {
                assert(b@.take(j + 1) =~= b@.take(j as int).push(r));
                assert forall|len: usize| #[trigger]
                    of_len(out@, len) == of_len(a@.take(i as int), len) + of_len(
                        b@.take(j + 1),
                        len,
                    ) by {
                    assert(of_len(before, len) == of_len(a@.take(i as int), len) + of_len(
                        b@.take(j as int),
                        len,
                    ));
                    lemma_of_len_push(before, r, len);
                    lemma_of_len_push(b@.take(j as int), r, len);
                    assert(of_len(out@, len) =~= of_len(a@.take(i as int), len) + of_len(
                        b@.take(j + 1),
                        len,
                    ));
                }
            }
            j = j + 1;
        }
    }
    proof {
        assert(a@.take(a@.len() as int) =~= a@);
        assert(b@.take(b@.len() as int) =~= b@);
        assert forall|len: usize| #[trigger] of_len(out@, len) == of_len(a@ + b@, len) by {
            lemma_of_len_concat(a@, b@, len);
        }
    }
    out
}

/// Sort ranges by length, longest first; ranges of equal length keep their order.
pub fn sort_by_len_descending(ranges: Vec<Range>) -> (out: Vec<Range>)
    ensures
        is_stable_sort(ranges@, out@),
    decreases ranges@.len(),
{
    let len: usize = ranges.len();
    if len <= 1 {
        return ranges;
    }
    let half: usize = len / 2;
    let mut first: Vec<Range> = Vec::new();
    let mut second: Vec<Range> = Vec::new();
    let mut i: usize = 0;
    while i < len
        invariant
            len == ranges@.len(),
            half == len / 2,
            i <= len,
            first@ == ranges@.take(if i <= half {
                i as int
            } else {
                half as int
            }),
            second@ == ranges@.subrange(
                half as int,
                if i <= half {
                    half as int
                } else {
                    i as int
                },
            ),
        decreases len - i,
    {
        if i < half {
            first.push(ranges[i]);
        } else {
            second.push(ranges[i]);
        }
        i = i + 1;
    }
    assert(first@ + second@ =~= ranges@);
    let ghost first_in = first@;
    let ghost second_in = second@;
    let first = sort_by_len_descending(first);
    let second = sort_by_len_descending(second);
    let out = merge(&first, &second);
    proof {
        assert forall|l: usize| #[trigger] of_len(out@, l) == of_len(ranges@, l) by {
            lemma_of_len_concat(first@, second@, l);
            lemma_of_len_concat(first_in, second_in, l);
            assert(of_len(out@, l) == of_len(first@ + second@, l));
            assert(of_len(first@, l) == of_len(first_in, l));
            assert(of_len(second@, l) == of_len(second_in, l));
        }
    }
    out
}

/// The ranges of one length are a filter.
proof fn lemma_of_len_filters(ranges: Seq<Range>, len: usize)
    requires
        forall|i: int| 0 <= i < ranges.len() ==> (#[trigger] ranges[i]).wf(),
    ensures
        of_len(ranges, len) == ranges.filter(|r: Range| r.end() - r.start() == len),
    decreases ranges.len(),
{
    reveal(Seq::filter);
    if ranges.len() > 0 {
        let before = ranges.drop_last();
        assert(forall|i: int| 0 <= i < before.len() ==> before[i] == ranges[i]);
        lemma_of_len_filters(before, len);
        assert(ranges.last() == ranges[ranges.len() - 1]);
    } else {
        assert(ranges.filter(|r: Range| r.end() - r.start() == len) =~= Seq::<Range>::empty());
    }
}

/// What sorting does, by the bounds of the ranges: no range is followed by one of more elements,
/// and those of any one number of elements are the same as before, in the same order.
pub proof fn sorting_puts_longer_ranges_first(ranges: Seq<Range>, sorted: Seq<Range>, len: usize)
    requires
        is_stable_sort(ranges, sorted),
        forall|i: int| 0 <= i < ranges.len() ==> (#[trigger] ranges[i]).wf(),
        forall|i: int| 0 <= i < sorted.len() ==> (#[trigger] sorted[i]).wf(),
    ensures
        forall|i: int, j: int|
            0 <= i < j < sorted.len() ==> (#[trigger] sorted[i]).end() - sorted[i].start() >= (
            #[trigger] sorted[j]).end() - sorted[j].start(),
        sorted.filter(|r: Range| r.end() - r.start() == len) == ranges.filter(
            |r: Range| r.end() - r.start() == len,
        ),
{
    lemma_of_len_filters(ranges, len);
    lemma_of_len_filters(sorted, len);
    assert(of_len(sorted, len) == of_len(ranges, len));
    assert forall|i: int, j: int| 0 <= i < j < sorted.len() implies (#[trigger] sorted[i]).end()
        - sorted[i].start() >= (#[trigger] sorted[j]).end() - sorted[j].start() by {
        assert(sorted[i].wf() && sorted[j].wf());
        assert(sorted[i].len() >= sorted[j].len());
    }
}

} // verus!
