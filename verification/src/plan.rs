//! Window geometry: configurable options, tail handling, spans, and the planner.
//!
//! A [`WindowPlan`] turns an input length plus a [`WindowOptions`] into a list of
//! [`Span`]s: plain `usize` element counts, unit-agnostic across samples, tokens,
//! patches, and frames. The same spans drive pre-processing (slice, pad, mask) and
//! post-processing (aggregate, segment).
use vstd::prelude::*;

use crate::binary::Binary64;
use crate::error::WinditError;

verus! {

/// A single window's placement over the input: where it starts, how many real
/// elements it covers, and the fixed window size it pads to.
///
/// [`len`](Span::len) is the number of *real* input elements (`0 < len <=
/// window`); the remaining `window - len` positions are padding.
/// [`coverage`](Span::coverage) reports the real fraction.
#[derive(Clone, Copy, Debug, PartialEq, Eq, Hash)]
pub struct Span {
    start: usize,
    len: usize,
    window: usize,
}

impl Span {
    /// The span invariant: at least one real element, no more than the window, and
    /// an end that is a `usize`.
    #[verifier::type_invariant]
    pub open spec fn wf(self) -> bool {
        0 < self.len() <= self.window() && self.start() + self.len() <= usize::MAX
    }

    /// The index of the first real element.
    pub closed spec fn spec_start(&self) -> usize {
        self.start
    }

    /// The number of real elements.
    pub closed spec fn spec_len(&self) -> usize {
        self.len
    }

    /// The window size.
    pub closed spec fn spec_window(&self) -> usize {
        self.window
    }

    /// One past the last real element.
    pub open spec fn spec_end(&self) -> usize {
        (self.start() + self.len()) as usize
    }

    /// Whether the span covers input element `x`.
    pub open spec fn covers(self, x: int) -> bool {
        self.start() <= x < self.start() + self.len()
    }

    /// A span starting at `start` that covers `len` real elements of a
    /// `window`-wide window, the remaining `window - len` positions being padding.
    ///
    /// Use [`try_new`](Span::try_new) to handle an untrusted geometry instead.
    #[must_use]
    pub fn new(start: usize, len: usize, window: usize) -> (span: Span)
        requires
            0 < len <= window,
            start + len <= usize::MAX,
        ensures
            span.start() == start,
            span.len() == len,
            span.window() == window,
    {
        Span { start, len, window }
    }

    /// The checked counterpart of [`new`](Span::new): validate the geometry.
    ///
    /// Returns [`WinditError::InvalidSpan`] unless `0 < len <= window` and
    /// `start + len` is representable as a `usize`.
    pub fn try_new(start: usize, len: usize, window: usize) -> (r: Result<Span, WinditError>)
        ensures
            r is Ok <==> 0 < len <= window && start + len <= usize::MAX,
            r matches Ok(span) ==> span.start() == start && span.len() == len && span.window()
                == window,
            r matches Err(e) ==> e == (WinditError::InvalidSpan { start, len, window }),
    {
        if len == 0 || len > window || start.checked_add(len).is_none() {
            return Err(WinditError::InvalidSpan { start, len, window });
        }
        Ok(Span { start, len, window })
    }

    /// Index of the first real element, in input elements.
    #[verifier::when_used_as_spec(spec_start)]
    #[must_use]
    pub fn start(&self) -> (r: usize)
        ensures
            r == self.start(),
    {
        self.start
    }

    /// Number of real elements in the window (`0 < len <= window`).
    #[verifier::when_used_as_spec(spec_len)]
    #[must_use]
    pub fn len(&self) -> (r: usize)
        ensures
            r == self.len(),
            self.wf(),
    {
        proof {
            use_type_invariant(self);
        }
        self.len
    }

    /// One past the last real element the span covers (`start + len`), in input
    /// elements.
    #[verifier::when_used_as_spec(spec_end)]
    #[must_use]
    pub fn end(&self) -> (r: usize)
        ensures
            r == self.end(),
            r == self.start() + self.len(),
            self.wf(),
    {
        proof {
            use_type_invariant(self);
        }
        self.start + self.len
    }

    /// The fixed window size this span pads to, in elements.
    #[verifier::when_used_as_spec(spec_window)]
    #[must_use]
    pub fn window(&self) -> (r: usize)
        ensures
            r == self.window(),
            self.wf(),
    {
        proof {
            use_type_invariant(self);
        }
        self.window
    }

    /// The fraction of the window filled by real elements, always in `(0, 1]`.
    ///
    /// This is the correctly rounded value of the exact rational `len / window`
    /// for every geometry a span can hold, with one deliberate exception: a ratio
    /// below one that would round to one is the largest value below one instead,
    /// so the coverage is one if and only if `len == window`.
    #[must_use]
    pub fn coverage(&self) -> (r: Binary64)
        ensures
            crate::ratio::is_ratio(r, self.len() as nat, self.window() as nat),
            (r.bits == crate::binary::ONE64) == (self.len() == self.window()),
            0 < r.bits <= crate::binary::ONE64,
    {
        proof {
            use_type_invariant(self);
        }
        let r = crate::ratio::ratio_to_f64(self.len, self.window);
        proof {
            crate::ratio::ratio_is_one_only_for_equal_counts(
                r,
                self.len as nat,
                self.window as nat,
            );
        }
        r
    }
}

/// The two constructors agree: what [`Span::try_new`] accepts, [`Span::new`] may be given, and
/// both make the same span of it; what it rejects is not well formed, so no span is made.
pub proof fn span_constructors_agree(
    start: usize,
    len: usize,
    window: usize,
    checked: Result<Span, WinditError>,
    span: Span,
)
    requires
        call_ensures(Span::try_new, (start, len, window), checked),
    ensures
        checked is Ok ==> call_requires(Span::new, (start, len, window)),
        checked is Ok && call_ensures(Span::new, (start, len, window), span) ==> checked == Ok::<
            Span,
            WinditError,
        >(span),
        checked is Err ==> (span.start() != start || span.len() != len || span.window() != window
            || !span.wf()),
{
}

/// How the planner treats a final window that does not fill a whole [`Span`].
#[derive(Clone, Copy, Debug, PartialEq, Eq, Structural)]
pub enum TailPolicy {
    /// Keep the ragged tail as a partial span; its [`Span::coverage`] is below
    /// one. This is the default.
    KeepWithCoverage,
    /// Drop a ragged tail whose real length is below the given minimum. A full
    /// window (`len == window`) is always kept.
    DropBelowMin(usize),
    /// Keep the ragged tail; pre-processing pads it to a full window. The produced
    /// span is identical to [`KeepWithCoverage`](TailPolicy::KeepWithCoverage);
    /// the two differ only in downstream padding and weighting intent.
    PadFull,
}

impl Default for TailPolicy {
    fn default() -> (r: Self)
        ensures
            r == TailPolicy::KeepWithCoverage,
    {
        TailPolicy::KeepWithCoverage
    }
}

impl TailPolicy {
    /// Whether a window of `len` real elements out of `window` is kept.
    pub open spec fn keeps(self, len: int, window: int) -> bool {
        match self {
            TailPolicy::DropBelowMin(min) => len >= min || len == window,
            _ => true,
        }
    }
}

/// Fully configurable window geometry: window size, hop or overlap, tail handling,
/// and an optional cap on the number of windows.
///
/// Construct with [`WindowOptions::new`] (non-overlapping windows that keep a
/// ragged tail) and refine with the `with_*` builders. Nothing is validated until
/// [`WindowPlan::spans`] runs, or [`validate`](WindowOptions::validate) is called
/// directly, so construction is infallible.
#[derive(Clone, Copy, Debug, Eq)]
pub struct WindowOptions {
    window: usize,
    hop: usize,
    requested: usize,
    tail: TailPolicy,
    max_windows: Option<usize>,
}

impl WindowOptions {
    /// The window size.
    pub closed spec fn spec_window(&self) -> usize {
        self.window
    }

    /// The stride between window starts.
    pub closed spec fn spec_hop(&self) -> usize {
        self.hop
    }

    /// The overlap that was asked for.
    pub closed spec fn spec_requested_overlap(&self) -> usize {
        self.requested
    }

    /// The tail policy.
    pub closed spec fn spec_tail(&self) -> &TailPolicy {
        &self.tail
    }

    /// The window cap.
    pub closed spec fn spec_max_windows(&self) -> Option<usize> {
        self.max_windows
    }

    /// A geometry with the given window size, no overlap (`hop == window`),
    /// [`TailPolicy::KeepWithCoverage`], and no window cap.
    ///
    /// The window size is not validated here; a zero window is rejected by
    /// [`validate`](WindowOptions::validate) and [`WindowPlan::spans`].
    #[must_use]
    pub fn new(window: usize) -> (r: WindowOptions)
        ensures
            r.window() == window,
            r.hop() == window,
            r.requested_overlap() == 0,
            r.tail() == TailPolicy::KeepWithCoverage,
            r.max_windows() == None::<usize>,
    {
        WindowOptions {
            window,
            hop: window,
            requested: 0,
            tail: TailPolicy::KeepWithCoverage,
            max_windows: None,
        }
    }

    /// Set the hop (stride between consecutive window starts), in elements.
    ///
    /// A hop below the window overlaps consecutive windows; a hop equal to the
    /// window tiles them. A zero hop is rejected by
    /// [`validate`](WindowOptions::validate). For full input coverage the hop
    /// should not exceed the window size.
    #[must_use]
    pub fn with_hop(self, hop: usize) -> (r: WindowOptions)
        ensures
            r.window() == self.window(),
            r.hop() == hop,
            r.requested_overlap() == (if hop <= self.window() {
                self.window() - hop
            } else {
                0
            }),
            r.tail() == self.tail(),
            r.max_windows() == self.max_windows(),
    {
        WindowOptions { hop, requested: self.window.saturating_sub(hop), ..self }
    }

    /// Set the overlap between consecutive windows, in elements
    /// (`hop == window - overlap`).
    ///
    /// The subtraction saturates, so an overlap of at least the window size yields
    /// a zero hop that [`validate`](WindowOptions::validate) reports as
    /// [`WinditError::OverlapGeWindow`], with the overlap asked for here.
    #[must_use]
    pub fn with_overlap(self, overlap: usize) -> (r: WindowOptions)
        ensures
            r.window() == self.window(),
            r.hop() == (if overlap <= self.window() {
                self.window() - overlap
            } else {
                0
            }),
            r.requested_overlap() == overlap,
            r.tail() == self.tail(),
            r.max_windows() == self.max_windows(),
    {
        WindowOptions {
            hop: self.window.saturating_sub(overlap),
            requested: overlap,
            ..self
        }
    }

    /// Set the tail policy for a final ragged window.
    #[must_use]
    pub fn with_tail(self, tail: TailPolicy) -> (r: WindowOptions)
        ensures
            r.window() == self.window(),
            r.hop() == self.hop(),
            r.requested_overlap() == self.requested_overlap(),
            r.tail() == tail,
            r.max_windows() == self.max_windows(),
    {
        WindowOptions { tail, ..self }
    }

    /// Cap the number of windows the plan may produce; exceeding it is an error.
    #[must_use]
    pub fn with_max_windows(self, max_windows: usize) -> (r: WindowOptions)
        ensures
            r.window() == self.window(),
            r.hop() == self.hop(),
            r.requested_overlap() == self.requested_overlap(),
            r.tail() == self.tail(),
            r.max_windows() == Some(max_windows),
    {
        WindowOptions { max_windows: Some(max_windows), ..self }
    }

    /// The window size, in elements.
    #[verifier::when_used_as_spec(spec_window)]
    #[must_use]
    pub fn window(&self) -> (r: usize)
        ensures
            r == self.window(),
    {
        self.window
    }

    /// The hop (stride between window starts), in elements.
    #[verifier::when_used_as_spec(spec_hop)]
    #[must_use]
    pub fn hop(&self) -> (r: usize)
        ensures
            r == self.hop(),
    {
        self.hop
    }

    /// The overlap between consecutive windows, in elements (`window - hop`,
    /// saturating at `0`).
    #[must_use]
    pub fn overlap(&self) -> (r: usize)
        ensures
            r == (if self.hop() <= self.window() {
                self.window() - self.hop()
            } else {
                0
            }),
    {
        self.window.saturating_sub(self.hop)
    }

    /// The overlap that was asked for, in elements: the one given to
    /// [`with_overlap`](WindowOptions::with_overlap), even past the window size, or what
    /// the hop leaves where that was set.
    #[verifier::when_used_as_spec(spec_requested_overlap)]
    #[must_use]
    pub fn requested_overlap(&self) -> (r: usize)
        ensures
            r == self.requested_overlap(),
    {
        self.requested
    }

    /// The tail policy.
    #[verifier::when_used_as_spec(spec_tail)]
    #[must_use]
    pub fn tail(&self) -> (r: &TailPolicy)
        ensures
            r == self.tail(),
    {
        &self.tail
    }

    /// The configured window cap, if any.
    #[verifier::when_used_as_spec(spec_max_windows)]
    #[must_use]
    pub fn max_windows(&self) -> (r: Option<usize>)
        ensures
            r == self.max_windows(),
    {
        self.max_windows
    }

    /// What [`validate`](WindowOptions::validate) reports.
    pub open spec fn validity(self) -> Result<(), WinditError> {
        if self.window() == 0 {
            Err(WinditError::ZeroWindow)
        } else if self.hop() == 0 {
            Err(
                WinditError::OverlapGeWindow {
                    overlap: self.requested_overlap(),
                    window: self.window(),
                },
            )
        } else {
            Ok(())
        }
    }

    /// Check the geometry: the window must be non-zero and the hop must advance
    /// (equivalently, the overlap must be below the window size).
    ///
    /// Returns [`WinditError::ZeroWindow`] if the window size is zero, else
    /// [`WinditError::OverlapGeWindow`] if the hop is zero, with the overlap that was
    /// asked for: the whole window where only a hop was set.
    pub fn validate(&self) -> (r: Result<(), WinditError>)
        ensures
            r == self.validity(),
    {
        if self.window == 0 {
            return Err(WinditError::ZeroWindow);
        }
        if self.hop == 0 {
            return Err(
                WinditError::OverlapGeWindow { overlap: self.requested, window: self.window },
            );
        }
        Ok(())
    }
}

/// Two geometries are equal where they plan alike; the overlap that was asked for does not
/// count.
impl PartialEq for WindowOptions {
    fn eq(&self, other: &WindowOptions) -> (r: bool) {
        self.window == other.window && self.hop == other.hop && self.tail == other.tail
            && self.max_windows == other.max_windows
    }
}

impl vstd::std_specs::cmp::PartialEqSpecImpl for WindowOptions {
    open spec fn obeys_eq_spec() -> bool {
        true
    }

    open spec fn eq_spec(&self, other: &WindowOptions) -> bool {
        &&& self.window() == other.window()
        &&& self.hop() == other.hop()
        &&& self.tail() == other.tail()
        &&& self.max_windows() == other.max_windows()
    }
}

/// Whether the planner places a `k`-th window, counting from zero: it must start
/// inside the input, and a window other than the first is placed only where the
/// window before it left input beyond itself.
pub open spec fn places_window(window: int, hop: int, input_len: int, k: int) -> bool {
    0 <= k && k * hop < input_len && (k == 0 || (k - 1) * hop + window < input_len)
}

/// The number of windows the planner places before the tail policy applies.
pub open spec fn window_count(window: int, hop: int, input_len: int) -> int {
    if input_len <= 0 {
        0
    } else if input_len <= window {
        1
    } else {
        let past_window = (input_len - window - 1) / hop + 1;
        let inside_input = (input_len - 1) / hop;
        1 + if past_window <= inside_input {
            past_window
        } else {
            inside_input
        }
    }
}

/// The number of real elements of the `k`-th window.
pub open spec fn window_len(window: int, hop: int, input_len: int, k: int) -> int {
    if window <= input_len - k * hop {
        window
    } else {
        input_len - k * hop
    }
}

/// A multiple fits where the factor is at most the quotient.
proof fn lemma_at_most_quotient(a: int, b: int, d: int)
    requires
        d > 0,
    ensures
        a * d <= b <==> a <= b / d,
{
    vstd::arithmetic::div_mod::lemma_fundamental_div_mod(b, d);
    vstd::arithmetic::div_mod::lemma_mod_bound(b, d);
    let q = b / d;
    assert(a <= q ==> a * d <= q * d) by (nonlinear_arith)
        requires
            d > 0,
    ;
    assert(a > q ==> a * d >= q * d + d) by (nonlinear_arith)
        requires
            d > 0,
    ;
    assert(d * q == q * d) by (nonlinear_arith);
}

/// The planner places exactly the windows below [`window_count`].
pub proof fn window_count_counts_placed_windows(window: int, hop: int, input_len: int, k: int)
    requires
        window > 0,
        hop > 0,
        k >= 0,
    ensures
        places_window(window, hop, input_len, k) <==> k < window_count(window, hop, input_len),
{
    if k > 0 {
        lemma_at_most_quotient(k - 1, input_len - window - 1, hop);
        lemma_at_most_quotient(k, input_len - 1, hop);
        assert((k - 1) * hop >= 0 && k * hop > 0) by (nonlinear_arith)
            requires
                k >= 1,
                hop > 0,
        ;
    }
}

impl WindowOptions {
    /// The number of windows placed over `input_len` elements before the tail
    /// policy applies.
    pub open spec fn placed(self, input_len: int) -> int {
        window_count(self.window() as int, self.hop() as int, input_len)
    }

    /// Whether the tail policy keeps the last window placed over `input_len`
    /// elements.
    pub open spec fn keeps_last(self, input_len: int) -> bool {
        self.tail().keeps(
            window_len(
                self.window() as int,
                self.hop() as int,
                input_len,
                self.placed(input_len) - 1,
            ),
            self.window() as int,
        )
    }

    /// The number of windows planned over `input_len` elements.
    pub open spec fn planned(self, input_len: int) -> int {
        if input_len > 0 && !self.keeps_last(input_len) {
            self.placed(input_len) - 1
        } else {
            self.placed(input_len)
        }
    }

    /// Whether `spans` is the plan of this geometry over `input_len` elements: the
    /// window after `k` hops covers what is left of the input up to its size, and
    /// only a last window that the tail policy refuses is missing.
    pub open spec fn is_plan(self, spans: Seq<Span>, input_len: int) -> bool {
        &&& spans.len() == self.planned(input_len)
        &&& forall|k: int|
            0 <= k < spans.len() ==> {
                &&& (#[trigger] spans[k]).start() == k * self.hop()
                &&& spans[k].len() == window_len(
                    self.window() as int,
                    self.hop() as int,
                    input_len,
                    k,
                )
                &&& spans[k].window() == self.window()
            }
    }

    /// The number of spans the planner asks the allocator for: what it would place
    /// with a hop inside the window, and never more than one past the cap.
    pub open spec fn reservation(self, input_len: int) -> int {
        let room = if input_len <= self.window() {
            1
        } else {
            (input_len - self.window() - 1) / (self.hop() as int) + 2
        };
        let room = if room <= usize::MAX {
            room
        } else {
            usize::MAX as int
        };
        match self.max_windows() {
            Some(max) if max < room => max + 1,
            _ => room,
        }
    }

    /// What planning over `input_len` elements gives, where `reserved` says whether
    /// the allocator granted the reservation.
    pub open spec fn plan_outcome(
        self,
        input_len: int,
        reserved: bool,
        r: Result<Vec<Span>, WinditError>,
    ) -> bool {
        if self.validity() is Err {
            r is Err && r->Err_0 == self.validity()->Err_0
        } else if input_len == 0 {
            r is Ok && r->Ok_0@ == Seq::<Span>::empty()
        } else if !reserved {
            r is Err && r->Err_0 == (WinditError::AllocFailed {
                elements: self.reservation(input_len) as usize,
            })
        } else if self.max_windows() is Some && self.planned(input_len)
            > self.max_windows()->Some_0 {
            r is Err && r->Err_0 == (WinditError::TooManyWindows {
                got: (self.max_windows()->Some_0 + 1) as usize,
                max: self.max_windows()->Some_0,
            })
        } else {
            r is Ok && self.is_plan(r->Ok_0@, input_len)
        }
    }
}

/// The window planner: turns an input length and [`WindowOptions`] into the list
/// of [`Span`]s that drives pre- and post-processing.
#[derive(Clone, Copy, Debug)]
pub struct WindowPlan;

impl WindowPlan {
    /// The number of spans to ask the allocator for.
    fn reservation(opts: &WindowOptions, input_len: usize) -> (r: usize)
        requires
            opts.window() > 0,
            opts.hop() > 0,
        ensures
            r == opts.reservation(input_len as int),
    {
        let room: usize = if input_len <= opts.window {
            1
        } else {
            ((input_len - opts.window - 1) / opts.hop).saturating_add(2)
        };
        match opts.max_windows {
            Some(max) => if max < room {
                max + 1
            } else {
                room
            },
            None => room,
        }
    }

    /// Place the windows one hop apart into the empty buffer `out`.
    fn place(opts: &WindowOptions, input_len: usize, out: Vec<Span>) -> (r: Result<
        Vec<Span>,
        WinditError,
    >)
        requires
            opts.validity() is Ok,
            input_len > 0,
            out@.len() == 0,
        ensures
            opts.plan_outcome(input_len as int, true, r),
    {
        let mut out = out;
        let w: usize = opts.window;
        let hop: usize = opts.hop;
        let mut start: usize = 0;
        let ghost mut k: int = 0;
        assert(0 * hop == 0) by (nonlinear_arith);
        loop
            invariant_except_break
                opts.window() == w,
                opts.hop() == hop,
                w > 0,
                hop > 0,
                input_len > 0,
                k >= 0,
                start == k * hop,
                k > 0 ==> places_window(w as int, hop as int, input_len as int, k - 1) && (k - 1)
                    * hop + w < input_len,
                k == 0 ==> start < input_len,
                out@.len() == k,
                opts.max_windows() is Some ==> k <= opts.max_windows()->Some_0,
                forall|j: int|
                    0 <= j < k ==> (#[trigger] out@[j]).start() == j * hop && out@[j].len()
                        == window_len(w as int, hop as int, input_len as int, j)
                        && out@[j].window() == w,
            invariant
                opts.window() == w,
                opts.hop() == hop,
            ensures
                opts.is_plan(out@, input_len as int),
                opts.max_windows() is Some ==> out@.len() <= opts.max_windows()->Some_0,
            decreases
                (if input_len >= start {
                    input_len - start
                } else {
                    0
                }),
        {
            proof {
                window_count_counts_placed_windows(w as int, hop as int, input_len as int, k);
                window_count_counts_placed_windows(w as int, hop as int, input_len as int, k + 1);
                if k > 0 {
                    window_count_counts_placed_windows(
                        w as int,
                        hop as int,
                        input_len as int,
                        k - 1,
                    );
                }
            }
            if start >= input_len {
                break;
            }
            let left: usize = input_len - start;
            let len: usize = if w <= left {
                w
            } else {
                left
            };
            let is_tail = left <= w;
            let keep = match opts.tail {
                TailPolicy::DropBelowMin(min) => len >= min || len == w,
                _ => true,
            };
            assert(opts.placed(input_len as int) > k);
            assert(is_tail ==> opts.placed(input_len as int) == k + 1);
            if keep {
                out.push(Span::new(start, len, w));
            }
            if let Some(max) = opts.max_windows {
                if out.len() > max {
                    return Err(WinditError::TooManyWindows { got: out.len(), max });
                }
            }
            if is_tail {
                break;
            }
            assert((k + 1) * hop == k * hop + hop) by (nonlinear_arith);
            match start.checked_add(hop) {
                Some(next) => {
                    start = next;
                },
                None => {
                    break;
                },
            }
            proof {
                k = k + 1;
            }
        }
        Ok(out)
    }

    /// Plan the windows covering `input_len` elements under `opts` into `buffer`,
    /// which is `None` where the allocator refused to provide one.
    pub fn spans_into(
        opts: &WindowOptions,
        input_len: usize,
        buffer: Option<Vec<Span>>,
    ) -> (r: Result<Vec<Span>, WinditError>)
        ensures
            opts.plan_outcome(input_len as int, buffer is Some, r),
    {
        match opts.validate() {
            Ok(()) => {},
            Err(e) => {
                return Err(e);
            },
        }
        if input_len == 0 {
            return Ok(Vec::new());
        }
        match buffer {
            None => Err(
                WinditError::AllocFailed { elements: WindowPlan::reservation(opts, input_len) },
            ),
            Some(buffer) => {
                let mut buffer = buffer;
                buffer.clear();
                WindowPlan::place(opts, input_len, buffer)
            },
        }
    }

    /// Plan the windows covering `input_len` elements under `opts`, in input order.
    ///
    /// An empty input yields an empty plan; a non-empty input can also yield an
    /// empty plan when [`TailPolicy::DropBelowMin`] drops the sole, too-short
    /// window. The final window may be ragged according to the [`TailPolicy`].
    ///
    /// Propagates [`WindowOptions::validate`], returns
    /// [`WinditError::TooManyWindows`] if the plan would exceed
    /// [`WindowOptions::max_windows`], and returns [`WinditError::AllocFailed`] if
    /// the plan itself cannot be allocated: whether it can is the allocator's
    /// answer, and the outcome is exact for either one.
    pub fn spans(opts: &WindowOptions, input_len: usize) -> (r: Result<Vec<Span>, WinditError>)
        ensures
            opts.plan_outcome(input_len as int, true, r) || opts.plan_outcome(
                input_len as int,
                false,
                r,
            ),
    {
        if opts.window == 0 || opts.hop == 0 || input_len == 0 {
            return WindowPlan::spans_into(opts, input_len, None);
        }
        let mut buffer: Vec<Span> = Vec::new();
        // Reserving the plan up front keeps an unservable one from being approached
        // a push at a time.
        match buffer.try_reserve(WindowPlan::reservation(opts, input_len)) {
            Ok(()) => WindowPlan::spans_into(opts, input_len, Some(buffer)),
            Err(_) => WindowPlan::spans_into(opts, input_len, None),
        }
    }
}

/// Every span of a plan covers at least one element, lies inside the input, and,
/// unless it is the last one, fills its window.
pub proof fn plan_stays_inside_the_input(
    opts: WindowOptions,
    spans: Seq<Span>,
    input_len: nat,
    k: int,
)
    requires
        opts.validity() is Ok,
        opts.is_plan(spans, input_len as int),
        0 <= k < spans.len(),
    ensures
        0 < spans[k].len() <= opts.window(),
        spans[k].start() + spans[k].len() <= input_len,
        k + 1 < spans.len() ==> spans[k].len() == opts.window(),
{
    let (w, hop) = (opts.window() as int, opts.hop() as int);
    window_count_counts_placed_windows(w, hop, input_len as int, k);
    window_count_counts_placed_windows(w, hop, input_len as int, k + 1);
}

/// Every window of a plan starts one hop after the window before it.
pub proof fn plan_advances_by_the_hop(opts: WindowOptions, spans: Seq<Span>, input_len: nat, k: int)
    requires
        opts.validity() is Ok,
        opts.is_plan(spans, input_len as int),
        0 <= k,
        k + 1 < spans.len(),
    ensures
        spans[k + 1].start() == spans[k].start() + opts.hop(),
{
    let hop = opts.hop() as int;
    assert((k + 1) * hop == k * hop + hop) by (nonlinear_arith);
}

/// Where the hop does not exceed the window and the tail is kept, every input
/// element is covered by at least one span.
pub proof fn plan_covers_the_input(opts: WindowOptions, spans: Seq<Span>, input_len: nat, x: int)
    requires
        opts.validity() is Ok,
        opts.hop() <= opts.window(),
        opts.is_plan(spans, input_len as int),
        opts.keeps_last(input_len as int),
        0 <= x < input_len,
    ensures
        exists|k: int| 0 <= k < spans.len() && (#[trigger] spans[k]).covers(x),
{
    let (w, hop, n) = (opts.window() as int, opts.hop() as int, input_len as int);
    let last = spans.len() - 1;
    window_count_counts_placed_windows(w, hop, n, 0);
    assert(0 * hop == 0) by (nonlinear_arith);
    window_count_counts_placed_windows(w, hop, n, last);
    window_count_counts_placed_windows(w, hop, n, last + 1);
    assert((last + 1) * hop == last * hop + hop) by (nonlinear_arith);
    vstd::arithmetic::div_mod::lemma_fundamental_div_mod(x, hop);
    vstd::arithmetic::div_mod::lemma_mod_bound(x, hop);
    let q = x / hop;
    assert(hop * q == q * hop) by (nonlinear_arith);
    vstd::arithmetic::div_mod::lemma_div_pos_is_pos(x, hop);
    if q <= last {
        assert(spans[q].covers(x));
    } else {
        assert(q * hop >= last * hop + hop) by (nonlinear_arith)
            requires
                q >= last + 1,
                hop > 0,
        ;
        assert(spans[last].covers(x));
    }
}

/// A hop beyond the window strides over the input: the elements between a window's
/// reach and the next hop are covered by no span.
pub proof fn wide_hop_leaves_gaps(
    opts: WindowOptions,
    spans: Seq<Span>,
    input_len: nat,
    k: int,
    x: int,
)
    requires
        opts.validity() is Ok,
        opts.is_plan(spans, input_len as int),
        0 <= k,
        k * opts.hop() + opts.window() <= x < (k + 1) * opts.hop(),
    ensures
        forall|j: int| 0 <= j < spans.len() ==> !(#[trigger] spans[j]).covers(x),
{
    let hop = opts.hop() as int;
    assert forall|j: int| 0 <= j < spans.len() implies !(#[trigger] spans[j]).covers(x) by {
        if j <= k {
            assert(j * hop <= k * hop) by (nonlinear_arith)
                requires
                    j <= k,
                    hop > 0,
            ;
        } else {
            assert(j * hop >= (k + 1) * hop) by (nonlinear_arith)
                requires
                    j >= k + 1,
                    hop > 0,
            ;
        }
    }
}

/// Keeping the tail and padding it plan the same spans: the two policies differ
/// only in what pre-processing does with the tail.
pub proof fn padding_plans_as_keeping(
    keep: WindowOptions,
    pad: WindowOptions,
    input_len: nat,
    reserved: bool,
    r: Result<Vec<Span>, WinditError>,
)
    requires
        keep.window() == pad.window(),
        keep.hop() == pad.hop(),
        keep.requested_overlap() == pad.requested_overlap(),
        keep.max_windows() == pad.max_windows(),
        keep.tail() == TailPolicy::KeepWithCoverage,
        pad.tail() == TailPolicy::PadFull,
    ensures
        keep.plan_outcome(input_len as int, reserved, r) == pad.plan_outcome(
            input_len as int,
            reserved,
            r,
        ),
{
    assert(keep.planned(input_len as int) == pad.planned(input_len as int));
    if let Ok(v) = r {
        assert(keep.is_plan(v@, input_len as int) == pad.is_plan(v@, input_len as int));
    }
}

/// A plan that succeeds holds no more windows than the cap allows.
pub proof fn plan_respects_the_cap(
    opts: WindowOptions,
    input_len: nat,
    reserved: bool,
    spans: Vec<Span>,
)
    requires
        opts.plan_outcome(input_len as int, reserved, Ok(spans)),
    ensures
        opts.max_windows() is Some ==> spans@.len() <= opts.max_windows()->Some_0,
{
}

/// The last window that fits, by arithmetic alone, is the last one that is counted.
proof fn lemma_last_window(window: int, hop: int, input_len: int, last: int)
    requires
        window > 0,
        hop > 0,
        last >= 0,
        last * hop < input_len,
        last == 0 || (last - 1) * hop + window < input_len,
        (last + 1) * hop >= input_len || last * hop + window >= input_len,
    ensures
        window_count(window, hop, input_len) == last + 1,
{
    window_count_counts_placed_windows(window, hop, input_len, last);
    window_count_counts_placed_windows(window, hop, input_len, last + 1);
    assert(places_window(window, hop, input_len, last));
    assert(!places_window(window, hop, input_len, last + 1));
}

/// Over a nonempty input there is a last window: it starts inside the input after a window that
/// left some of it over, and the one after it does not.
pub proof fn some_window_is_the_last(window: int, hop: int, input_len: int)
    requires
        window > 0,
        hop > 0,
        input_len > 0,
    ensures
        exists|last: int|
            last >= 0 && #[trigger] (last * hop) < input_len && (last == 0 || (last - 1) * hop
                + window < input_len) && ((last + 1) * hop >= input_len || last * hop + window
                >= input_len),
{
    let last = window_count(window, hop, input_len) - 1;
    window_count_counts_placed_windows(window, hop, input_len, 0);
    assert(0 * hop == 0) by (nonlinear_arith);
    window_count_counts_placed_windows(window, hop, input_len, last);
    window_count_counts_placed_windows(window, hop, input_len, last + 1);
    assert(last * hop < input_len);
}

/// How many windows a plan holds, by arithmetic alone. With `last` the last window that starts
/// inside the input after one that left some of it over, all windows up to it are planned; only
/// [`TailPolicy::DropBelowMin`] leaves that last one out, and only where it is shorter both than
/// the window and than the minimum. A cap refuses exactly the plans that hold more.
pub proof fn plan_drops_only_a_short_tail(
    opts: WindowOptions,
    input_len: usize,
    last: int,
    r: Result<Vec<Span>, WinditError>,
)
    requires
        opts.window() > 0,
        opts.hop() > 0,
        last >= 0,
        last * opts.hop() < input_len,
        last == 0 || (last - 1) * opts.hop() + opts.window() < input_len,
        (last + 1) * opts.hop() >= input_len || last * opts.hop() + opts.window() >= input_len,
        opts.plan_outcome(input_len as int, true, r),
    ensures
        ({
            let left = input_len - last * opts.hop();
            let dropped = *opts.tail() matches TailPolicy::DropBelowMin(min) && left < opts.window()
                && left < min;
            let count = if dropped {
                last
            } else {
                last + 1
            };
            match opts.max_windows() {
                Some(max) => if count > max {
                    r == Err::<Vec<Span>, WinditError>(
                        WinditError::TooManyWindows { got: (max + 1) as usize, max },
                    )
                } else {
                    r is Ok && r->Ok_0@.len() == count
                },
                None => r is Ok && r->Ok_0@.len() == count,
            }
        }),
{
    let (w, hop, n) = (opts.window() as int, opts.hop() as int, input_len as int);
    lemma_last_window(w, hop, n, last);
    assert(last * hop >= 0) by (nonlinear_arith)
        requires
            last >= 0,
            hop > 0,
    ;
}

/// Where the windows of a plan lie, by arithmetic alone: each starts as many hops in as there are
/// windows before it, and covers what is left of the input from there, up to the window.
pub proof fn plan_windows_lie_a_hop_apart(
    opts: WindowOptions,
    input_len: usize,
    spans: Vec<Span>,
    k: int,
)
    requires
        opts.plan_outcome(input_len as int, true, Ok(spans)),
        0 <= k < spans@.len(),
    ensures
        spans@[k].start() == k * opts.hop(),
        spans@[k].window() == opts.window(),
        spans@[k].start() < input_len,
        spans@[k].start() + opts.window() <= input_len ==> spans@[k].len() == opts.window(),
        spans@[k].start() + opts.window() > input_len ==> spans@[k].start() + spans@[k].len()
            == input_len,
{
    let (w, hop, n) = (opts.window() as int, opts.hop() as int, input_len as int);
    if n > 0 {
        window_count_counts_placed_windows(w, hop, n, k);
    }
}

/// When planning fails before any window is placed, by the inputs alone: a window of no elements,
/// a hop that does not advance, and a reservation that was refused; an empty input has an empty
/// plan whatever the allocator says.
pub proof fn plan_refusals(
    opts: WindowOptions,
    input_len: usize,
    reserved: bool,
    r: Result<Vec<Span>, WinditError>,
)
    requires
        opts.plan_outcome(input_len as int, reserved, r),
    ensures
        r == Err::<Vec<Span>, WinditError>(WinditError::ZeroWindow) <==> opts.window() == 0,
        (r matches Err(e) && e is OverlapGeWindow) <==> opts.window() > 0 && opts.hop() == 0,
        r matches Err(WinditError::OverlapGeWindow { overlap, window }) ==> overlap
            == opts.requested_overlap() && window == opts.window(),
        opts.window() > 0 && opts.hop() > 0 && input_len == 0 ==> r is Ok && r->Ok_0@.len() == 0,
        (r matches Err(e) && e is AllocFailed) <==> opts.window() > 0 && opts.hop() > 0 && input_len
            > 0 && !reserved,
        r matches Err(e) ==> e == WinditError::ZeroWindow || e is OverlapGeWindow || e is AllocFailed
            || e is TooManyWindows,
{
}

/// What is asked of the allocator, by arithmetic alone: with `last` the last window that follows
/// one that left input over, room for the windows up to it, and never for more than one past the
/// cap.
pub proof fn plan_reserves_its_windows(
    opts: WindowOptions,
    input_len: usize,
    last: int,
    r: Result<Vec<Span>, WinditError>,
)
    requires
        opts.window() > 0,
        opts.hop() > 0,
        input_len > 0,
        last >= 0,
        last == 0 || (last - 1) * opts.hop() + opts.window() < input_len,
        last * opts.hop() + opts.window() >= input_len,
        opts.plan_outcome(input_len as int, false, r),
    ensures
        ({
            let room = match opts.max_windows() {
                Some(max) if max < last + 1 => max + 1,
                _ => last + 1,
            };
            r matches Err(WinditError::AllocFailed { elements }) && (elements == room || (room
                > usize::MAX && elements == usize::MAX))
        }),
{
    let (w, hop, n) = (opts.window() as int, opts.hop() as int, input_len as int);
    if n > w {
        lemma_at_most_quotient(last - 1, n - w - 1, hop);
        lemma_at_most_quotient(last, n - w - 1, hop);
        assert(0 * hop == 0) by (nonlinear_arith);
    } else if last > 0 {
        assert((last - 1) * hop >= 0) by (nonlinear_arith)
            requires
                last >= 1,
                hop > 0,
        ;
    }
}

/// Hop and overlap are two ways to say one geometry: they add up to the window, and an overlap
/// that leaves no hop is refused under its own number.
pub proof fn hop_and_overlap_agree(
    opts: WindowOptions,
    hop: usize,
    overlap: usize,
    by_hop: WindowOptions,
    by_overlap: WindowOptions,
    shown: usize,
    input_len: usize,
    reserved: bool,
    r: Result<Vec<Span>, WinditError>,
)
    requires
        call_ensures(WindowOptions::with_hop, (opts, hop), by_hop),
        call_ensures(WindowOptions::with_overlap, (opts, overlap), by_overlap),
        call_ensures(WindowOptions::overlap, (&by_overlap,), shown),
        by_overlap.plan_outcome(input_len as int, reserved, r),
    ensures
        by_hop.hop() == hop,
        hop + overlap == opts.window() ==> by_hop.hop() == by_overlap.hop() && by_hop.window()
            == by_overlap.window() && by_hop.tail() == by_overlap.tail() && by_hop.max_windows()
            == by_overlap.max_windows() && by_hop.requested_overlap()
            == by_overlap.requested_overlap() && shown == overlap,
        0 < opts.window() <= overlap ==> r == Err::<Vec<Span>, WinditError>(
            WinditError::OverlapGeWindow { overlap, window: opts.window() },
        ),
        0 < opts.window() && overlap < opts.window() ==> !(r matches Err(e) && e is OverlapGeWindow),
{
}

/// The options hold what they are given, and the ones not given stay as they were.
pub proof fn window_options_are_kept(
    opts: WindowOptions,
    n: usize,
    tail: TailPolicy,
    plain: WindowOptions,
    by_tail: WindowOptions,
    by_cap: WindowOptions,
)
    requires
        call_ensures(WindowOptions::new, (n,), plain),
        call_ensures(WindowOptions::with_tail, (opts, tail), by_tail),
        call_ensures(WindowOptions::with_max_windows, (opts, n), by_cap),
    ensures
        plain.window() == n && plain.hop() == n && plain.tail() == TailPolicy::KeepWithCoverage
            && plain.max_windows() is None,
        by_tail.tail() == tail && by_tail.window() == opts.window() && by_tail.hop() == opts.hop()
            && by_tail.max_windows() == opts.max_windows(),
        by_cap.max_windows() == Some(n) && by_cap.window() == opts.window() && by_cap.hop()
            == opts.hop() && by_cap.tail() == opts.tail(),
{
}

/// Two valid geometries that are equal plan alike, whatever the input.
pub proof fn equal_geometries_plan_alike(
    a: WindowOptions,
    b: WindowOptions,
    input_len: int,
    reserved: bool,
    r: Result<Vec<Span>, WinditError>,
)
    requires
        vstd::std_specs::cmp::PartialEqSpec::eq_spec(&a, &b),
        a.window() > 0,
        a.hop() > 0,
    ensures
        a.plan_outcome(input_len, reserved, r) == b.plan_outcome(
            input_len,
            reserved,
            r,
        ),
        a.window() == b.window() && a.hop() == b.hop() && a.tail() == b.tail() && a.max_windows()
            == b.max_windows(),
{
    assert(a.planned(input_len) == b.planned(input_len));
    if let Ok(v) = r {
        assert(a.is_plan(v@, input_len) == b.is_plan(v@, input_len));
    }
}

/// Two geometries that differ in anything that counts are not equal.
pub proof fn unequal_geometries_differ(a: WindowOptions, b: WindowOptions)
    requires
        !vstd::std_specs::cmp::PartialEqSpec::eq_spec(&a, &b),
    ensures
        a.window() != b.window() || a.hop() != b.hop() || a.tail() != b.tail() || a.max_windows()
            != b.max_windows(),
{
}

} // verus!
