//! Tick generation and number formatting shared by the scales.

use vstd::prelude::*;

use crate::num::{
    abs_val, div_ceil, div_ceil_i128, div_trunc_i128, lemma_pow10_pos, pow10, COORD_LIMIT, SCALE,
};
use crate::text::{dec_digits, dec_digits_padded, digit_char};

verus! {

/// One tick mark: a value (raw domain value for linear scales, a pixel
/// position for band scales) and its label.
#[derive(Debug, Clone)]
pub struct Tick {
    pub value: i64,
    pub label: String,
}

/// The largest power of ten that is at most `r` (for `r >= 1`).
pub open spec fn magnitude_below(r: int) -> int
    decreases r,
{
    if r < 10 {
        1
    } else {
        10 * magnitude_below(r / 10)
    }
}

pub proof fn lemma_magnitude_bounds(r: int)
    requires
        r >= 1,
    ensures
        1 <= magnitude_below(r),
        magnitude_below(r) <= r,
        r < 10 * magnitude_below(r),
    decreases r,
{
    if r >= 10 {
        lemma_magnitude_bounds(r / 10);
    }
}

/// The magnitude is a power of ten.
pub proof fn lemma_magnitude_pow(r: int)
    requires
        r >= 1,
    ensures
        exists|k: int| 0 <= k && magnitude_below(r) == pow10(k),
    decreases r,
{
    if r < 10 {
        assert(magnitude_below(r) == pow10(0));
    } else {
        lemma_magnitude_pow(r / 10);
        let k = choose|k: int| 0 <= k && magnitude_below(r / 10) == pow10(k);
        assert(magnitude_below(r) == pow10(k + 1));
    }
}

/// The raw step before "nice" rounding: the span divided by the requested
/// tick count.
pub open spec fn spec_rough_step(min: int, max: int, count: int) -> int {
    (max - min) / count
}

/// Whether tick generation produces anything at all: a positive count, a
/// nonempty span, and a span of at least `count` subunits (below that the
/// step would be finer than the fixed-point resolution).
pub open spec fn spec_has_ticks(min: int, max: int, count: int) -> bool {
    count > 0 && min < max && spec_rough_step(min, max, count) >= 1
}

/// The "nice" step: the rough step snapped to 1, 2, 5 or 10 times its
/// decimal magnitude, using thresholds of 1.5, 3 and 7 on the residual.
pub open spec fn spec_nice_step(min: int, max: int, count: int) -> int {
    let r = spec_rough_step(min, max, count);
    let m = magnitude_below(r);
    if 2 * r <= 3 * m {
        m
    } else if r <= 3 * m {
        2 * m
    } else if r <= 7 * m {
        5 * m
    } else {
        10 * m
    }
}

/// The boundary tolerance: one thousandth of a step, truncated.
pub open spec fn spec_tick_eps(step: int) -> int {
    step / 1000
}

/// The first tick: the smallest multiple of the step at or above `min`.
pub open spec fn spec_tick_start(min: int, step: int) -> int {
    div_ceil(min, step) * step
}

/// How many ticks generation produces.
pub open spec fn spec_tick_count(min: int, max: int, count: int) -> int {
    if !spec_has_ticks(min, max, count) {
        0
    } else {
        let step = spec_nice_step(min, max, count);
        let start = spec_tick_start(min, step);
        let bound = max + spec_tick_eps(step);
        if start > bound {
            0
        } else {
            (bound - start) / step + 1
        }
    }
}

/// The boundary tolerance is at most a hundredth of the span.
pub proof fn lemma_tick_eps_small(min: int, max: int, count: int)
    requires
        spec_has_ticks(min, max, count),
    ensures
        0 <= spec_tick_eps(spec_nice_step(min, max, count)),
        100 * spec_tick_eps(spec_nice_step(min, max, count)) <= max - min,
        spec_nice_step(min, max, count) >= 1,
{
    let r = spec_rough_step(min, max, count);
    let m = magnitude_below(r);
    lemma_magnitude_bounds(r);
    let step = spec_nice_step(min, max, count);
    assert(step <= 10 * r);
    let eps = spec_tick_eps(step);
    assert(1000 * (step / 1000) <= step) by {
        vstd::arithmetic::div_mod::lemma_fundamental_div_mod(step, 1000);
        vstd::arithmetic::div_mod::lemma_mod_division_less_than_divisor(step, 1000);
    }
    assert(r <= max - min) by (nonlinear_arith)
        requires
            max - min >= 0,
            count >= 1,
            r == (max - min) / count,
    ;
}

/// The lower bound after "nice" domain extension with ten ticks.
pub open spec fn nice_lo(d0: int, d1: int) -> int {
    if spec_tick_count(d0, d1, 10) > 0 {
        spec_tick_start(d0, spec_nice_step(d0, d1, 10))
    } else {
        d0
    }
}

/// The upper bound after "nice" domain extension with ten ticks.
pub open spec fn nice_hi(d0: int, d1: int) -> int {
    if spec_tick_count(d0, d1, 10) > 0 {
        spec_tick_start(d0, spec_nice_step(d0, d1, 10)) + (spec_tick_count(d0, d1, 10) - 1)
            * spec_nice_step(d0, d1, 10)
    } else {
        d1
    }
}

/// A value of the form 1, 2 or 5 times a power of ten.
pub open spec fn is_nice_step(s: int) -> bool {
    exists|k: int|
        0 <= k && (s == pow10(k) || s == 2 * pow10(k) || s == 5 * pow10(k))
}

/// The nice step really has the 1/2/5/10 times power-of-ten form.
pub proof fn lemma_nice_step_form(min: int, max: int, count: int)
    requires
        spec_has_ticks(min, max, count),
    ensures
        is_nice_step(spec_nice_step(min, max, count)),
        spec_nice_step(min, max, count) >= 1,
{
    let r = spec_rough_step(min, max, count);
    let m = magnitude_below(r);
    lemma_magnitude_bounds(r);
    lemma_magnitude_pow(r);
    let k = choose|k: int| 0 <= k && m == pow10(k);
    let s = spec_nice_step(min, max, count);
    if 2 * r <= 3 * m {
        assert(s == pow10(k));
    } else if r <= 3 * m {
        assert(s == 2 * pow10(k));
    } else if r <= 7 * m {
        assert(s == 5 * pow10(k));
    } else {
        assert(pow10(k + 1) == 10 * pow10(k));
        assert(s == pow10(k + 1));
    }
}

/// The first tick is within one step below-or-at `min`'s ceiling:
/// `min <= start < min + step`.
pub proof fn lemma_tick_start_bounds(min: int, step: int)
    requires
        step >= 1,
    ensures
        min <= spec_tick_start(min, step),
        spec_tick_start(min, step) < min + step,
{
    let q = div_ceil(min, step);
    vstd::arithmetic::div_mod::lemma_fundamental_div_mod(min, step);
    let d = min / step;
    let m = min % step;
    assert(min == step * d + m);
    if m == 0 {
        assert(q * step == step * d) by (nonlinear_arith)
            requires
                q == d,
        ;
    } else {
        assert(q == d + 1);
        assert(q * step == step * d + step) by (nonlinear_arith)
            requires
                q == d + 1,
        ;
    }
}

/// Generated ticks cover the requested interval: the step is 1, 2 or 5
/// times a power of ten, the first tick is the smallest step multiple at
/// or above `min`, and the last tick reaches past `max` less one step
/// (with the boundary tolerance).  Together with the tick equations of
/// `nice_ticks` this pins the whole ascending, evenly spaced sequence.
pub proof fn lemma_nice_ticks_cover(min: int, max: int, count: int)
    requires
        spec_has_ticks(min, max, count),
    ensures
        spec_nice_step(min, max, count) >= 1,
        is_nice_step(spec_nice_step(min, max, count)),
        min <= spec_tick_start(min, spec_nice_step(min, max, count)) < min + spec_nice_step(
            min,
            max,
            count,
        ),
        spec_tick_count(min, max, count) > 0 ==> {
            let step = spec_nice_step(min, max, count);
            let start = spec_tick_start(min, step);
            let cnt = spec_tick_count(min, max, count);
            let last = start + (cnt - 1) * step;
            let bound = max + spec_tick_eps(step);
            last <= bound < last + step
        },
{
    lemma_nice_step_form(min, max, count);
    let step = spec_nice_step(min, max, count);
    lemma_tick_start_bounds(min, step);
    let start = spec_tick_start(min, step);
    let cnt = spec_tick_count(min, max, count);
    let bound = max + spec_tick_eps(step);
    if cnt > 0 {
        assert(start <= bound);
        let q = (bound - start) / step;
        vstd::arithmetic::div_mod::lemma_fundamental_div_mod(bound - start, step);
        vstd::arithmetic::div_mod::lemma_mod_division_less_than_divisor(bound - start, step);
        assert(bound - start == step * q + (bound - start) % step);
        assert(cnt - 1 == q);
        assert((cnt - 1) * step == step * q) by (nonlinear_arith)
            requires
                cnt - 1 == q,
        ;
    }
}

fn magnitude_i128(r: i128) -> (m: i128)
    requires
        1 <= r,
    ensures
        m == magnitude_below(r as int),
    decreases r,
{
    if r < 10 {
        1
    } else {
        let inner = magnitude_i128(r / 10);
        proof {
            lemma_magnitude_bounds(r as int / 10);
        }
        10 * inner
    }
}

/// Evenly spaced "nice" tick values covering `[min, max]`.
///
/// When `count` is zero, the span is empty, or the span is finer than
/// `count` subunits, no ticks are produced.  Otherwise the ticks start at
/// the smallest multiple of the nice step at or above `min` and step
/// upward while they stay within `max` plus a tolerance of a thousandth of
/// a step.
pub fn nice_ticks(min: i64, max: i64, count: usize) -> (r: Vec<i64>)
    requires
        (count > 0 && min < max) ==> (-COORD_LIMIT <= min && max <= COORD_LIMIT),
    ensures
        r@.len() == spec_tick_count(min as int, max as int, count as int),
        !spec_has_ticks(min as int, max as int, count as int) ==> r@.len() == 0,
        spec_has_ticks(min as int, max as int, count as int) ==> {
            let step = spec_nice_step(min as int, max as int, count as int);
            let start = spec_tick_start(min as int, step);
            let bound = max + spec_tick_eps(step);
            &&& forall|i: int| 0 <= i < r@.len() ==> r@[i] == start + i * step
            &&& (r@.len() == 0 <==> start > bound)
            &&& r@.len() > 0 ==> r@[r@.len() - 1] <= bound < r@[r@.len() - 1] + step
        },
{
    if count == 0 || min >= max {
        return Vec::new();
    }
    let span: i128 = (max as i128) - (min as i128);
    let rough: i128 = span / (count as i128);
    if rough == 0 {
        return Vec::new();
    }
    let m = magnitude_i128(rough);
    proof {
        lemma_magnitude_bounds(rough as int);
    }
    let step: i128 = if 2 * rough <= 3 * m {
        m
    } else if rough <= 3 * m {
        2 * m
    } else if rough <= 7 * m {
        5 * m
    } else {
        10 * m
    };
    proof {
        assert(step == spec_nice_step(min as int, max as int, count as int));
        assert(step <= 10 * rough);
    }
    let eps: i128 = step / 1000;
    proof {
        assert(1000 * (step / 1000) <= step);
        assert(rough <= span) by (nonlinear_arith)
            requires
                span >= 0,
                count >= 1,
                rough == span / (count as i128),
        ;
        assert(step <= 10 * rough);
        assert(100 * eps <= span);
    }
    let q = div_ceil_i128(min as i128, step);
    proof {
        lemma_tick_start_bounds(min as int, step as int);
        assert(q * step == spec_tick_start(min as int, step as int));
    }
    let start: i128 = q * step;
    let bound: i128 = (max as i128) + eps;
    let ghost gstep = step as int;
    let ghost gstart = start as int;
    let ghost geps = eps as int;
    let mut r: Vec<i64> = Vec::new();
    let mut tick: i128 = start;
    proof {
        assert(r@.len() == 0);
        assert(0 * gstep == 0) by (nonlinear_arith);
    }
    while tick <= bound
        invariant
            1 <= step,
            step == gstep,
            tick == gstart + r@.len() * gstep,
            gstart >= min,
            bound == max + geps,
            0 <= geps,
            100 * geps <= max - min,
            1 <= gstep <= 10 * (max - min),
            max <= COORD_LIMIT,
            min >= -COORD_LIMIT,
            forall|i: int| 0 <= i < r@.len() ==> r@[i] == gstart + i * gstep,
            forall|i: int| 0 <= i < r@.len() ==> gstart <= #[trigger] r@[i] <= bound,
        decreases bound + gstep - tick,
    {
        proof {
            assert(tick <= bound);
            assert(tick >= gstart >= min >= -COORD_LIMIT);
            assert(bound <= COORD_LIMIT + (max - min) / 100 + 1);
        }
        let ghost old_r = r@;
        r.push(tick as i64);
        proof {
            assert(r@ =~= old_r.push(tick as i64));
            assert forall|i: int| 0 <= i < r@.len() implies r@[i] == gstart + i * gstep by {
                if i < old_r.len() {
                    assert(r@[i] == old_r[i]);
                } else {
                    assert(r@[i] == tick as i64);
                }
            }
            assert((old_r.len() + 1) * gstep == old_r.len() * gstep + gstep) by (nonlinear_arith);
        }
        tick = tick + step;
    }
    proof {
        if r@.len() > 0 {
            let last = r@.len() - 1;
            assert(r@[last] == gstart + last * gstep);
            assert((last + 1) * gstep == last * gstep + gstep) by (nonlinear_arith);
            assert(tick == r@[last] + gstep);
            let e = (bound as int) - r@[last];
            assert(0 <= e < gstep);
            assert((bound as int) - gstart == last * gstep + e) by (nonlinear_arith)
                requires
                    r@[last] == gstart + last * gstep,
                    e == (bound as int) - r@[last],
            ;
            vstd::arithmetic::div_mod::lemma_fundamental_div_mod_converse_div(
                (bound as int) - gstart,
                gstep,
                last as int,
                e,
            );
            assert(r@.len() == spec_tick_count(min as int, max as int, count as int));
        } else {
            assert(gstart > bound);
            assert(r@.len() == spec_tick_count(min as int, max as int, count as int));
        }
    }
    r
}

/// The displayed text of a numeric value (in millionths of a unit):
/// magnitudes of a million or more render as tenths with an `M` suffix,
/// a thousand or more as tenths with a `K` suffix, integral values as a
/// bare integer, anything else with two decimal places.
///
/// Rounding policy: exact ties (a value halfway between two rendered
/// digits, such as 1250 at the `K` scale) round away from zero, so
/// 1250 renders as `1.3K`.  A formatter that rounds ties to even would
/// render `1.2K` there; every non-tie input renders the same either way.
pub open spec fn format_number_chars(v: int) -> Seq<char> {
    let a = abs_val(v);
    let sign: Seq<char> = if v < 0 {
        seq!['-']
    } else {
        Seq::<char>::empty()
    };
    if a >= 1_000_000_000_000 {
        let t = (a + 50_000_000_000) / 100_000_000_000;
        sign + dec_digits(t / 10) + seq!['.', digit_char(t % 10), 'M']
    } else if a >= 1_000_000_000 {
        let t = (a + 50_000_000) / 100_000_000;
        sign + dec_digits(t / 10) + seq!['.', digit_char(t % 10), 'K']
    } else if a % (SCALE as int) == 0 {
        sign + dec_digits(a / (SCALE as int))
    } else {
        let h = (a + 5_000) / 10_000;
        sign + dec_digits(h / 100) + seq!['.'] + dec_digits_padded(h % 100, 2)
    }
}

/// Render a value for an axis label.
pub fn format_number(v: i64) -> (r: String)
    ensures
        r@ == format_number_chars(v as int),
{
    proof {
        reveal_strlit("-");
        reveal_strlit(".");
        reveal_strlit("M");
        reveal_strlit("K");
    }
    let a: u64 = if v < 0 {
        (-(v as i128)) as u64
    } else {
        v as u64
    };
    let mut out = String::new();
    if v < 0 {
        out.append("-");
    }
    if a >= 1_000_000_000_000 {
        let t = (a + 50_000_000_000) / 100_000_000_000;
        crate::text::append_u64(&mut out, t / 10);
        out.append(".");
        out.append(crate::text::digit_str(t % 10));
        out.append("M");
    } else if a >= 1_000_000_000 {
        let t = (a + 50_000_000) / 100_000_000;
        crate::text::append_u64(&mut out, t / 10);
        out.append(".");
        out.append(crate::text::digit_str(t % 10));
        out.append("K");
    } else if a % (SCALE as u64) == 0 {
        crate::text::append_u64(&mut out, a / (SCALE as u64));
    } else {
        let h = (a + 5_000) / 10_000;
        crate::text::append_u64(&mut out, h / 100);
        out.append(".");
        crate::text::append_u64_padded(&mut out, h % 100, 2);
    }
    proof {
        assert(out@ =~= format_number_chars(v as int));
    }
    out
}

} // verus!
