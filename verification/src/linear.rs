//! The linear scale: an affine map from a numeric domain interval to a
//! pixel interval, with "nice" domain rounding, zero extension, optional
//! output clamping, and tick generation.

use vstd::prelude::*;

use crate::num::{
    abs_val, clip, div_trunc, lemma_div_trunc_bounded, lemma_div_trunc_decomposition, trunc_rem,
    COORD_LIMIT, DOMAIN_LIMIT, RANGE_LIMIT,
};
use crate::scale::{
    format_number_chars, nice_ticks, spec_has_ticks, spec_nice_step, spec_tick_count,
    spec_tick_eps, spec_tick_start, Tick,
};

verus! {

/// The affine image of `v` under the map taking `[d0, d1]` to `[r0, r1]`,
/// with truncating division; `r0` when the domain is a single point.
pub open spec fn linear_at(d0: int, d1: int, r0: int, r1: int, v: int) -> int {
    if d1 == d0 {
        r0
    } else {
        r0 + div_trunc((v - d0) * (r1 - r0), d1 - d0)
    }
}

/// A continuous numeric-to-pixel affine mapping, in millionths of a unit
/// (domain) and millionths of a pixel (range).
#[derive(Debug, Clone)]
pub struct LinearScale {
    pub domain_min: i64,
    pub domain_max: i64,
    pub range_min: i64,
    pub range_max: i64,
    pub clamp: bool,
}

impl LinearScale {
    /// Well-formedness: the range lies in pixel space.  The domain may be
    /// any interval, descending or degenerate included.
    pub open spec fn wf(self) -> bool {
        &&& -RANGE_LIMIT <= self.range_min <= RANGE_LIMIT
        &&& -RANGE_LIMIT <= self.range_max <= RANGE_LIMIT
    }

    /// Whether the domain is small enough for tick generation.
    pub open spec fn tick_safe(self) -> bool {
        self.domain_min < self.domain_max ==> -COORD_LIMIT <= self.domain_min
            && self.domain_max <= COORD_LIMIT
    }

    /// The exact scaled value (before clipping or clamping): the affine
    /// image of `v`, with truncating division; `range_min` when the domain
    /// is a single point.
    pub open spec fn scale_at(self, v: int) -> int {
        linear_at(
            self.domain_min as int,
            self.domain_max as int,
            self.range_min as int,
            self.range_max as int,
            v,
        )
    }

    /// The exact inverse image of a pixel position; `domain_min` when the
    /// range is a single point.
    pub open spec fn invert_at(self, p: int) -> int {
        if self.range_max == self.range_min {
            self.domain_min as int
        } else {
            self.domain_min + div_trunc(
                (p - self.range_min) * (self.domain_max - self.domain_min),
                self.range_max - self.range_min,
            )
        }
    }

    pub open spec fn range_lo(self) -> int {
        if self.range_min <= self.range_max {
            self.range_min as int
        } else {
            self.range_max as int
        }
    }

    pub open spec fn range_hi(self) -> int {
        if self.range_min <= self.range_max {
            self.range_max as int
        } else {
            self.range_min as int
        }
    }

    /// A scale over the given domain and range, not clamping.
    pub fn new(domain: (i64, i64), range: (i64, i64)) -> (s: LinearScale)
        requires
            -RANGE_LIMIT <= range.0 <= RANGE_LIMIT,
            -RANGE_LIMIT <= range.1 <= RANGE_LIMIT,
        ensures
            s.domain_min == domain.0,
            s.domain_max == domain.1,
            s.range_min == range.0,
            s.range_max == range.1,
            !s.clamp,
            s.wf(),
    {
        LinearScale {
            domain_min: domain.0,
            domain_max: domain.1,
            range_min: range.0,
            range_max: range.1,
            clamp: false,
        }
    }

    /// Extend the domain to "nice" boundaries: the first and last of the
    /// ticks that ten-tick generation would produce.  A domain producing no
    /// ticks is left unchanged.
    pub fn nice(self) -> (s: LinearScale)
        requires
            self.tick_safe(),
        ensures
            s.range_min == self.range_min,
            s.range_max == self.range_max,
            s.clamp == self.clamp,
            s.domain_min == crate::scale::nice_lo(self.domain_min as int, self.domain_max as int),
            s.domain_max == crate::scale::nice_hi(self.domain_min as int, self.domain_max as int),
            ({
                let step = spec_nice_step(self.domain_min as int, self.domain_max as int, 10);
                let start = spec_tick_start(self.domain_min as int, step);
                let cnt = spec_tick_count(self.domain_min as int, self.domain_max as int, 10);
                if cnt > 0 {
                    &&& s.domain_min == start
                    &&& s.domain_max == start + (cnt - 1) * step
                    &&& self.domain_min <= s.domain_min
                    &&& s.domain_max <= self.domain_max + spec_tick_eps(step)
                    &&& 100 * spec_tick_eps(step) <= self.domain_max - self.domain_min
                } else {
                    s.domain_min == self.domain_min && s.domain_max == self.domain_max
                }
            }),
    {
        let ticks = nice_ticks(self.domain_min, self.domain_max, 10);
        proof {
            if ticks@.len() > 0 {
                let step = spec_nice_step(self.domain_min as int, self.domain_max as int, 10);
                crate::scale::lemma_tick_eps_small(
                    self.domain_min as int,
                    self.domain_max as int,
                    10,
                );
                crate::scale::lemma_tick_start_bounds(self.domain_min as int, step);
                assert(ticks@[0] == spec_tick_start(self.domain_min as int, step) + 0 * step);
                assert(0 * step == 0) by (nonlinear_arith);
            }
        }
        if ticks.len() > 0 {
            let first = ticks[0];
            let last = ticks[ticks.len() - 1];
            LinearScale { domain_min: first, domain_max: last, ..self }
        } else {
            self
        }
    }

    /// Extend the domain to include zero: a positive lower bound is pulled
    /// down to zero, a negative upper bound is pulled up to zero.
    pub fn zero(self) -> (s: LinearScale)
        ensures
            s.domain_min == if self.domain_min > 0 {
                0
            } else {
                self.domain_min as int
            },
            s.domain_max == if self.domain_max < 0 {
                0
            } else {
                self.domain_max as int
            },
            s.range_min == self.range_min,
            s.range_max == self.range_max,
            s.clamp == self.clamp,
    {
        let domain_min = if self.domain_min > 0 {
            0
        } else {
            self.domain_min
        };
        let domain_max = if self.domain_max < 0 {
            0
        } else {
            self.domain_max
        };
        LinearScale { domain_min, domain_max, ..self }
    }

    /// Switch output clamping on or off.
    pub fn clamp(self, clamp: bool) -> (s: LinearScale)
        ensures
            s.domain_min == self.domain_min,
            s.domain_max == self.domain_max,
            s.range_min == self.range_min,
            s.range_max == self.range_max,
            s.clamp == clamp,
    {
        LinearScale { clamp, ..self }
    }

    /// Map a domain value to a pixel position: exactly `scale_at`, clipped
    /// to the coordinate budget, or clamped into the range interval when
    /// clamping is on.  A degenerate domain maps everything to `range_min`.
    pub fn scale(&self, value: i64) -> (r: i64)
        requires
            self.wf(),
        ensures
            self.domain_max == self.domain_min ==> r == self.range_min,
            self.domain_max != self.domain_min && !self.clamp ==> r == clip(self.scale_at(
                value as int,
            )),
            self.domain_max != self.domain_min && self.clamp ==> r == if self.scale_at(
                value as int,
            ) < self.range_lo() {
                self.range_lo()
            } else if self.scale_at(value as int) > self.range_hi() {
                self.range_hi()
            } else {
                self.scale_at(value as int)
            },
    {
        if self.domain_max == self.domain_min {
            return self.range_min;
        }
        let dv: i128 = (value as i128) - (self.domain_min as i128);
        let dr: i128 = (self.range_max as i128) - (self.range_min as i128);
        proof {
            assert(-200_000_000_000_000_000_000_000_000_000_000_000 <= dv * dr
                <= 200_000_000_000_000_000_000_000_000_000_000_000) by (nonlinear_arith)
                requires
                    -20_000_000_000_000_000_000 <= dv <= 20_000_000_000_000_000_000,
                    -10_000_000_000_000_000 <= dr <= 10_000_000_000_000_000,
            ;
        }
        let num: i128 = dv * dr;
        let den: i128 = (self.domain_max as i128) - (self.domain_min as i128);
        let q = crate::num::div_trunc_i128(num, den);
        let exact: i128 = (self.range_min as i128) + q;
        if self.clamp {
            let lo = if self.range_min <= self.range_max {
                self.range_min
            } else {
                self.range_max
            };
            let hi = if self.range_min <= self.range_max {
                self.range_max
            } else {
                self.range_min
            };
            if exact < lo as i128 {
                lo
            } else if exact > hi as i128 {
                hi
            } else {
                exact as i64
            }
        } else {
            crate::num::clip_i128(exact)
        }
    }

    /// Map a pixel position back to a domain value: exactly `invert_at`,
    /// clipped to the coordinate budget.  A degenerate range maps
    /// everything to `domain_min`.
    pub fn invert(&self, value: i64) -> (r: i64)
        requires
            self.wf(),
            -COORD_LIMIT <= value <= COORD_LIMIT,
        ensures
            self.range_max == self.range_min ==> r == self.domain_min,
            self.range_max != self.range_min ==> r == clip(self.invert_at(value as int)),
    {
        if self.range_max == self.range_min {
            return self.domain_min;
        }
        let dp: i128 = (value as i128) - (self.range_min as i128);
        let dd: i128 = (self.domain_max as i128) - (self.domain_min as i128);
        proof {
            assert(-100_000_000_000_000_000_000_000_000_000_000_000_000 <= dp * dd
                <= 100_000_000_000_000_000_000_000_000_000_000_000_000) by (nonlinear_arith)
                requires
                    -5_000_000_000_000_000_000 <= dp <= 5_000_000_000_000_000_000,
                    -20_000_000_000_000_000_000 <= dd <= 20_000_000_000_000_000_000,
            ;
        }
        let num: i128 = dp * dd;
        let den: i128 = (self.range_max as i128) - (self.range_min as i128);
        let q = crate::num::div_trunc_i128(num, den);
        let exact: i128 = (self.domain_min as i128) + q;
        crate::num::clip_i128(exact)
    }

    /// Generate labelled ticks over the domain.
    pub fn ticks(&self, count: usize) -> (r: Vec<Tick>)
        requires
            self.tick_safe(),
        ensures
            r@.len() == spec_tick_count(self.domain_min as int, self.domain_max as int, count as int),
            ({
                let step = spec_nice_step(self.domain_min as int, self.domain_max as int, count as int);
                let start = spec_tick_start(self.domain_min as int, step);
                forall|i: int|
                    0 <= i < r@.len() ==> (#[trigger] r@[i]).value == start + i * step
                        && r@[i].label@ == format_number_chars(start + i * step)
            }),
    {
        let values = nice_ticks(self.domain_min, self.domain_max, count);
        let mut r: Vec<Tick> = Vec::new();
        let mut i: usize = 0;
        let n = values.len();
        while i < n
            invariant
                i <= n,
                n == values@.len(),
                r@.len() == i,
                forall|j: int|
                    0 <= j < i ==> (#[trigger] r@[j]).value == values@[j] && r@[j].label@
                        == format_number_chars(values@[j] as int),
            decreases n - i,
        {
            let v = values[i];
            let label = crate::scale::format_number(v);
            r.push(Tick { value: v, label });
            i = i + 1;
        }
        r
    }

    /// The domain interval.
    pub fn domain(&self) -> (r: (i64, i64))
        ensures
            r.0 == self.domain_min,
            r.1 == self.domain_max,
    {
        (self.domain_min, self.domain_max)
    }

    /// The range interval.
    pub fn range(&self) -> (r: (i64, i64))
        ensures
            r.0 == self.range_min,
            r.1 == self.range_max,
    {
        (self.range_min, self.range_max)
    }
}

/// An in-domain value maps into the range interval (whichever way the
/// range is oriented), so no clipping disturbs it.
pub proof fn lemma_scale_in_range(s: LinearScale, v: int)
    requires
        s.wf(),
        s.domain_min <= v <= s.domain_max,
    ensures
        s.range_lo() <= s.scale_at(v) <= s.range_hi(),
        clip(s.scale_at(v)) == s.scale_at(v),
{
    if s.domain_max != s.domain_min {
        let d = s.domain_max - s.domain_min;
        let rr = s.range_max - s.range_min;
        let n = (v - s.domain_min) * rr;
        let q = div_trunc(n, d);
        assert(abs_val(n) == (v - s.domain_min) * abs_val(rr)) by (nonlinear_arith)
            requires
                v - s.domain_min >= 0,
                n == (v - s.domain_min) * rr,
        ;
        assert(abs_val(n) <= abs_val(rr) * abs_val(d)) by (nonlinear_arith)
            requires
                abs_val(n) == (v - s.domain_min) * abs_val(rr),
                0 <= v - s.domain_min <= d,
                d == abs_val(d),
                abs_val(rr) >= 0,
        ;
        lemma_div_trunc_bounded(n, d, abs_val(rr));
        if rr >= 0 {
            assert(n >= 0) by (nonlinear_arith)
                requires
                    v - s.domain_min >= 0,
                    rr >= 0,
                    n == (v - s.domain_min) * rr,
            ;
            assert(abs_val(n) / abs_val(d) >= 0);
            assert(q >= 0);
        } else {
            assert(n <= 0) by (nonlinear_arith)
                requires
                    v - s.domain_min >= 0,
                    rr < 0,
                    n == (v - s.domain_min) * rr,
            ;
            assert(abs_val(n) / abs_val(d) >= 0);
            assert(q <= 0);
        }
    }
}

/// A pixel position inside the range interval inverts into the domain
/// interval (for an ascending domain).
pub proof fn lemma_invert_in_range(s: LinearScale, p: int)
    requires
        s.wf(),
        s.domain_min <= s.domain_max,
        s.range_lo() <= p <= s.range_hi(),
    ensures
        s.domain_min <= s.invert_at(p) <= s.domain_max,
        -COORD_LIMIT <= s.domain_min && s.domain_max <= COORD_LIMIT ==> clip(s.invert_at(p))
            == s.invert_at(p),
{
    if s.range_max != s.range_min {
        let d = s.domain_max - s.domain_min;
        let rr = s.range_max - s.range_min;
        let n = (p - s.range_min) * d;
        let q = div_trunc(n, rr);
        assert(abs_val(p - s.range_min) <= abs_val(rr));
        assert(abs_val(n) == abs_val(p - s.range_min) * d) by (nonlinear_arith)
            requires
                d >= 0,
                n == (p - s.range_min) * d,
        ;
        assert(abs_val(n) <= d * abs_val(rr)) by (nonlinear_arith)
            requires
                abs_val(n) == abs_val(p - s.range_min) * d,
                abs_val(p - s.range_min) <= abs_val(rr),
                d >= 0,
        ;
        lemma_div_trunc_bounded(n, rr, d);
        if rr > 0 {
            assert(n >= 0) by (nonlinear_arith)
                requires
                    p - s.range_min >= 0,
                    d >= 0,
                    n == (p - s.range_min) * d,
            ;
            assert(abs_val(n) / abs_val(rr) >= 0);
            assert(q >= 0);
        } else {
            assert(n <= 0) by (nonlinear_arith)
                requires
                    p - s.range_min <= 0,
                    d >= 0,
                    n == (p - s.range_min) * d,
            ;
            assert(abs_val(n) / abs_val(rr) >= 0);
            assert(q >= 0);
        }
    }
}

/// Scaling then inverting returns within one truncation error of the
/// original value: the drift times the range span is smaller than the
/// domain span plus the range span.  (A degenerate domain or range has no
/// such bound: everything collapses to one point.)
pub proof fn lemma_linear_round_trip(s: LinearScale, v: int)
    requires
        s.wf(),
        s.domain_min < s.domain_max,
        s.range_min != s.range_max,
        s.domain_min <= v <= s.domain_max,
    ensures
        abs_val(s.invert_at(s.scale_at(v)) - v) * abs_val(s.range_max - s.range_min) < (
        s.domain_max - s.domain_min) + abs_val(s.range_max - s.range_min),
        s.domain_min <= s.invert_at(s.scale_at(v)) <= s.domain_max,
{
    let d = s.domain_max - s.domain_min;
    let rr = s.range_max - s.range_min;
    let n = (v - s.domain_min) * rr;
    let q = div_trunc(n, d);
    let rem1 = trunc_rem(n, d);
    lemma_div_trunc_decomposition(n, d);
    let p = s.scale_at(v);
    assert(p - s.range_min == q);
    let n2 = (p - s.range_min) * d;
    let q2 = div_trunc(n2, rr);
    let rem2 = trunc_rem(n2, rr);
    lemma_div_trunc_decomposition(n2, rr);
    let w = s.invert_at(p);
    assert(w - s.domain_min == q2);
    assert(n2 == q * d) by (nonlinear_arith)
        requires
            n2 == (p - s.range_min) * d,
            p - s.range_min == q,
    ;
    // n == q*d + rem1 and q*d == q2*rr + rem2, so n == q2*rr + rem2 + rem1
    assert((v - s.domain_min) * rr == q2 * rr + rem2 + rem1);
    assert((v - w) * rr == rem1 + rem2) by (nonlinear_arith)
        requires
            (v - s.domain_min) * rr == q2 * rr + rem2 + rem1,
            w - s.domain_min == q2,
    ;
    assert(abs_val((v - w) * rr) == abs_val(v - w) * abs_val(rr)) by (nonlinear_arith);
    assert(abs_val(rem1 + rem2) <= abs_val(rem1) + abs_val(rem2));
    lemma_scale_in_range(s, v);
    lemma_invert_in_range(s, p);
}

/// Scaling the round-tripped value lands within a few truncation errors
/// of the first scaling: the pixel drift times the domain span is smaller
/// than three domain spans plus the range span.
pub proof fn lemma_linear_round_trip_pixels(s: LinearScale, v: int)
    requires
        s.wf(),
        s.domain_min < s.domain_max,
        s.range_min != s.range_max,
        s.domain_min <= v <= s.domain_max,
    ensures
        abs_val(s.scale_at(s.invert_at(s.scale_at(v))) - s.scale_at(v)) * (s.domain_max
            - s.domain_min) < 3 * (s.domain_max - s.domain_min) + abs_val(
            s.range_max - s.range_min,
        ),
{
    lemma_linear_round_trip(s, v);
    let d = s.domain_max - s.domain_min;
    let rr = s.range_max - s.range_min;
    let w = s.invert_at(s.scale_at(v));
    let nv = (v - s.domain_min) * rr;
    let nw = (w - s.domain_min) * rr;
    lemma_div_trunc_decomposition(nv, d);
    lemma_div_trunc_decomposition(nw, d);
    let qv = div_trunc(nv, d);
    let qw = div_trunc(nw, d);
    let rv = trunc_rem(nv, d);
    let rw = trunc_rem(nw, d);
    // the quotient difference scaled by the divisor
    assert((qw - qv) * d == (nw - nv) - rw + rv) by (nonlinear_arith)
        requires
            nv == qv * d + rv,
            nw == qw * d + rw,
    ;
    assert(nw - nv == (w - v) * rr) by (nonlinear_arith)
        requires
            nv == (v - s.domain_min) * rr,
            nw == (w - s.domain_min) * rr,
    ;
    assert(abs_val((w - v) * rr) == abs_val(w - v) * abs_val(rr)) by (nonlinear_arith);
    assert(abs_val(w - v) * abs_val(rr) < d + abs_val(rr));
    assert(abs_val((qw - qv) * d) == abs_val(qw - qv) * d) by (nonlinear_arith)
        requires
            d > 0,
    ;
    assert(abs_val(qw - qv) * d < 3 * d + abs_val(rr));
    assert(s.scale_at(w) - s.scale_at(v) == qw - qv);
}

} // verus!
