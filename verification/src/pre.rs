//! Pre-processing: turn a span into a fixed-width, padded window and its mask.
//!
//! A [`Span`] from a [`WindowPlan`](crate::plan::WindowPlan) selects a run of real
//! input elements; [`slice_pad_mask`] copies them into a `window`-length buffer,
//! right-pads the remainder, and produces the matching attention mask (`1` for real
//! elements, `0` for padding).
use vstd::prelude::*;

use crate::aggregate::fold::try_vec_with_capacity;
use crate::error::WinditError;
use crate::plan::{self, Span, WindowOptions};

verus! {

/// The window a span selects: its elements, then padding up to the window size.
pub open spec fn padded<T>(elements: Seq<T>, span: Span, pad: T) -> Seq<T> {
    Seq::new(
        span.window() as nat,
        |i: int|
            if i < span.len() {
                elements[span.start() + i]
            } else {
                pad
            },
    )
}

/// The mask of a span's window: one for every real element, zero for padding.
pub open spec fn mask_of(span: Span) -> Seq<u8> {
    Seq::new(
        span.window() as nat,
        |i: int|
            if i < span.len() {
                1u8
            } else {
                0u8
            },
    )
}

/// Fill two empty buffers with the window that `span` selects and its mask.
fn pad_into<T: Copy>(
    elements: &[T],
    span: &Span,
    pad: T,
    values: Vec<T>,
    mask: Vec<u8>,
) -> (r: (Vec<T>, Vec<u8>))
    requires
        span.start() + span.len() <= elements@.len(),
        values@.len() == 0,
        mask@.len() == 0,
    ensures
        r.0@ == padded(elements@, *span, pad),
        r.1@ == mask_of(*span),
{
    let start: usize = span.start();
    let len: usize = span.len();
    let window: usize = span.window();
    let mut values = values;
    let mut mask = mask;
    let mut i: usize = 0;
    while i < window
        invariant
            start == span.start(),
            len == span.len(),
            window == span.window(),
            len <= window,
            start + len <= elements@.len(),
            start + len <= usize::MAX,
            i <= window,
            values@ == padded(elements@, *span, pad).take(i as int),
            mask@ == mask_of(*span).take(i as int),
        decreases window - i,
    {
        if i < len {
            values.push(elements[start + i]);
            mask.push(1u8);
        } else {
            values.push(pad);
            mask.push(0u8);
        }
        i = i + 1;
        assert(values@ =~= padded(elements@, *span, pad).take(i as int));
        assert(mask@ =~= mask_of(*span).take(i as int));
    }
    assert(values@ =~= padded(elements@, *span, pad));
    assert(mask@ =~= mask_of(*span));
    (values, mask)
}

/// Slice `elements` to `span`, right-pad to the span's window size with `pad`, and
/// build the matching mask.
///
/// Both returned vectors have the window's length. The span must be valid for
/// `elements`, i.e. produced by a [`WindowPlan`](crate::plan::WindowPlan) over the
/// same sequence; use [`try_slice_pad_mask`] for a checked variant.
///
/// # Panics
///
/// A window that cannot be buffered panics in the allocation;
/// [`try_slice_pad_mask`] reports it instead.
pub fn slice_pad_mask<T: Copy>(elements: &[T], span: &Span, pad: T) -> (r: (Vec<T>, Vec<u8>))
    requires
        span.start() + span.len() <= elements@.len(),
    ensures
        r.0@ == padded(elements@, *span, pad),
        r.1@ == mask_of(*span),
{
    let values: Vec<T> = Vec::with_capacity(span.window());
    let mask: Vec<u8> = Vec::with_capacity(span.window());
    pad_into(elements, span, pad, values, mask)
}

/// What slicing, padding and masking gives, where `reserved` says whether the allocator
/// granted both buffers: the window and its mask, [`WinditError::DimMismatch`] where the
/// span runs past the elements, and otherwise [`WinditError::AllocFailed`] where a buffer
/// was refused.
pub open spec fn padding_outcome<T>(
    elements: Seq<T>,
    span: Span,
    pad: T,
    reserved: bool,
    r: Result<(Vec<T>, Vec<u8>), WinditError>,
) -> bool {
    if span.start() + span.len() > elements.len() {
        r is Err && r->Err_0 == (WinditError::DimMismatch {
            got: elements.len() as usize,
            expected: span.end(),
        })
    } else if !reserved {
        r is Err && r->Err_0 == (WinditError::AllocFailed { elements: span.window() })
    } else {
        r is Ok && r->Ok_0.0@ == padded(elements, span, pad) && r->Ok_0.1@ == mask_of(span)
    }
}

/// Slice, pad and mask into the two buffers, each `None` where the allocator refused to
/// provide one.
pub fn slice_pad_mask_into<T: Copy>(
    elements: &[T],
    span: &Span,
    pad: T,
    values: Option<Vec<T>>,
    mask: Option<Vec<u8>>,
) -> (r: Result<(Vec<T>, Vec<u8>), WinditError>)
    ensures
        padding_outcome(elements@, *span, pad, values is Some && mask is Some, r),
{
    let required: usize = span.end();
    if required > elements.len() {
        return Err(WinditError::DimMismatch { got: elements.len(), expected: required });
    }
    match (values, mask) {
        (Some(values), Some(mask)) => {
            let mut values = values;
            let mut mask = mask;
            values.clear();
            mask.clear();
            Ok(pad_into(elements, span, pad, values, mask))
        },
        _ => Err(WinditError::AllocFailed { elements: span.window() }),
    }
}

/// The checked counterpart of [`slice_pad_mask`]: validate the span against
/// `elements`, and reserve both buffers, before slicing.
///
/// Returns [`WinditError::DimMismatch`] when the span runs past `elements`,
/// reporting the elements' length and the span's end, and
/// [`WinditError::AllocFailed`] when the window cannot be buffered. The mask is bytes, so
/// a window of more than `isize::MAX` elements never can; whether a smaller one can is
/// the allocator's answer, and [`slice_pad_mask_into`] is exact for either one.
pub fn try_slice_pad_mask<T: Copy>(elements: &[T], span: &Span, pad: T) -> (r: Result<
    (Vec<T>, Vec<u8>),
    WinditError,
>)
    ensures
        padding_outcome(elements@, *span, pad, true, r) || padding_outcome(
            elements@,
            *span,
            pad,
            false,
            r,
        ),
        span.window() > isize::MAX ==> padding_outcome(elements@, *span, pad, false, r),
{
    let window: usize = span.window();
    if span.end() > elements.len() || window > isize::MAX as usize {
        return slice_pad_mask_into(elements, span, pad, None, None);
    }
    let values: Option<Vec<T>> = match try_vec_with_capacity(window) {
        Ok(v) => Some(v),
        Err(_) => None,
    };
    let mask: Option<Vec<u8>> = match try_vec_with_capacity(window) {
        Ok(v) => Some(v),
        Err(_) => None,
    };
    slice_pad_mask_into(elements, span, pad, values, mask)
}

/// The mask marks exactly the real elements: it is one on a prefix as long as the
/// span, and the window holds the span's elements there.
pub proof fn mask_marks_the_real_elements<T>(elements: Seq<T>, span: Span, pad: T, i: int)
    requires
        span.wf(),
        span.start() + span.len() <= elements.len(),
        0 <= i < span.window(),
    ensures
        padded(elements, span, pad).len() == mask_of(span).len(),
        mask_of(span).len() == span.window(),
        mask_of(span)[i] == 1 <==> i < span.len(),
        mask_of(span)[i] == 1 ==> i < span.len() && padded(elements, span, pad)[i]
            == elements[span.start() + i],
        mask_of(span)[i] != 1 ==> mask_of(span)[i] == 0 && i >= span.len() && padded(
            elements,
            span,
            pad,
        )[i] == pad,
{
}

/// The values under a one of the mask, in order.
pub open spec fn unmasked<T>(values: Seq<T>, mask: Seq<u8>) -> Seq<T>
    decreases values.len(),
{
    if values.len() == 0 {
        Seq::empty()
    } else {
        let rest = unmasked(values.drop_last(), mask.drop_last());
        if mask.last() == 1 {
            rest.push(values.last())
        } else {
            rest
        }
    }
}

/// The unmasked values of the first `n` windows, one window after another.
pub open spec fn restored<T>(elements: Seq<T>, spans: Seq<Span>, pad: T, n: nat) -> Seq<T>
    decreases n,
{
    if n == 0 {
        Seq::empty()
    } else {
        restored(elements, spans, pad, (n - 1) as nat) + unmasked(
            padded(elements, spans[n - 1], pad),
            mask_of(spans[n - 1]),
        )
    }
}

/// The unmasked values among the first `n` places of a window.
proof fn lemma_unmasked<T>(elements: Seq<T>, span: Span, pad: T, n: nat)
    requires
        n <= span.window(),
        span.start() + span.len() <= elements.len(),
    ensures
        unmasked(padded(elements, span, pad).take(n as int), mask_of(span).take(n as int))
            == elements.subrange(
            span.start() as int,
            span.start() + if n <= span.len() {
                n as int
            } else {
                span.len() as int
            },
        ),
    decreases n,
{
    let (values, mask) = (padded(elements, span, pad), mask_of(span));
    let start = span.start() as int;
    if n == 0 {
        assert(elements.subrange(start, start) =~= Seq::empty());
    } else {
        let k = n - 1;
        lemma_unmasked(elements, span, pad, k as nat);
        assert(values.take(n as int).drop_last() =~= values.take(k));
        assert(mask.take(n as int).drop_last() =~= mask.take(k));
        if k < span.len() {
            assert(elements.subrange(start, start + k).push(elements[start + k])
                =~= elements.subrange(start, start + n));
        }
    }
}

/// The unmasked values of a window are the real elements of its span.
pub proof fn masks_select_the_real_elements<T>(elements: Seq<T>, span: Span, pad: T)
    requires
        span.wf(),
        span.start() + span.len() <= elements.len(),
    ensures
        unmasked(padded(elements, span, pad), mask_of(span)) == elements.subrange(
            span.start() as int,
            span.start() + span.len(),
        ),
{
    let n = span.window() as int;
    lemma_unmasked(elements, span, pad, span.window() as nat);
    assert(padded(elements, span, pad).take(n) =~= padded(elements, span, pad));
    assert(mask_of(span).take(n) =~= mask_of(span));
}

/// The first windows of a tiling plan restore the elements up to where the last of them ends.
proof fn lemma_restored<T>(
    opts: WindowOptions,
    elements: Seq<T>,
    spans: Seq<Span>,
    pad: T,
    n: nat,
)
    requires
        opts.validity() is Ok,
        opts.hop() == opts.window(),
        opts.is_plan(spans, elements.len() as int),
        forall|k: int| 0 <= k < spans.len() ==> (#[trigger] spans[k]).wf(),
        0 < n <= spans.len(),
    ensures
        restored(elements, spans, pad, n) == elements.take(
            spans[n - 1].start() + spans[n - 1].len(),
        ),
    decreases n,
{
    let k = n - 1;
    let span = spans[k];
    plan::plan_stays_inside_the_input(opts, spans, elements.len(), k);
    masks_select_the_real_elements(elements, span, pad);
    let here = elements.subrange(span.start() as int, span.start() + span.len());
    if k == 0 {
        let hop = opts.hop();
        assert(0 * hop == 0) by (nonlinear_arith);
        reveal_with_fuel(restored, 2);
        assert(Seq::<T>::empty() + here =~= elements.take(span.start() + span.len()));
    } else {
        lemma_restored(opts, elements, spans, pad, k as nat);
        plan::plan_stays_inside_the_input(opts, spans, elements.len(), k - 1);
        plan::plan_advances_by_the_hop(opts, spans, elements.len(), k - 1);
        assert(elements.take(span.start() as int) + here =~= elements.take(
            span.start() + span.len(),
        ));
    }
}

/// Slicing a tiling plan loses and adds nothing: the values under a one of the mask, window
/// after window, are the input again.
pub proof fn tiled_windows_restore_the_input<T>(
    opts: WindowOptions,
    elements: Seq<T>,
    spans: Seq<Span>,
    pad: T,
)
    requires
        opts.validity() is Ok,
        opts.hop() == opts.window(),
        opts.is_plan(spans, elements.len() as int),
        opts.keeps_last(elements.len() as int),
        forall|k: int| 0 <= k < spans.len() ==> (#[trigger] spans[k]).wf(),
    ensures
        restored(elements, spans, pad, spans.len()) == elements,
{
    let n = elements.len() as int;
    let (w, hop) = (opts.window() as int, opts.hop() as int);
    if n == 0 {
        assert(restored(elements, spans, pad, spans.len()) =~= elements);
    } else {
        plan::plan_covers_the_input(opts, spans, elements.len(), n - 1);
        let k = choose|k: int| 0 <= k < spans.len() && (#[trigger] spans[k]).covers(n - 1);
        lemma_restored(opts, elements, spans, pad, spans.len());
        let last = spans.len() - 1;
        plan::plan_stays_inside_the_input(opts, spans, elements.len(), last);
        plan::window_count_counts_placed_windows(w, hop, n, last + 1);
        assert((last + 1) * hop == last * hop + hop) by (nonlinear_arith);
        assert(elements.take(n) =~= elements);
    }
}

/// When a window is refused, by the numbers alone: where the span ends past the elements, with
/// their number and that end, and otherwise only where a buffer was refused.
pub proof fn windows_past_the_input_are_refused<T>(
    elements: Seq<T>,
    span: Span,
    pad: T,
    reserved: bool,
    r: Result<(Vec<T>, Vec<u8>), WinditError>,
)
    requires
        span.wf(),
        elements.len() <= usize::MAX,
        padding_outcome(elements, span, pad, reserved, r),
    ensures
        span.start() + span.len() > elements.len() <==> (r matches Err(e) && e is DimMismatch),
        r matches Err(WinditError::DimMismatch { got, expected }) ==> got == elements.len()
            && expected == span.start() + span.len(),
        span.start() + span.len() <= elements.len() && reserved ==> r is Ok,
        span.start() + span.len() <= elements.len() && !reserved ==> r == Err::<
            (Vec<T>, Vec<u8>),
            WinditError,
        >(WinditError::AllocFailed { elements: span.window() }),
        r matches Ok((values, mask)) ==> values@.len() == span.window() && mask@.len()
            == span.window() && (forall|i: int|
            0 <= i < span.window() ==> #[trigger] mask@[i] == (if i < span.len() {
                1u8
            } else {
                0u8
            })) && (forall|i: int|
            0 <= i < span.window() ==> #[trigger] values@[i] == (if i < span.len() {
                elements[span.start() + i]
            } else {
                pad
            })),
{
}

} // verus!
