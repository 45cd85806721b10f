//! The band scale: categorical position mapping with one fixed-width slot
//! per category label.

use vstd::prelude::*;

use crate::num::{
    abs_val, clip, div_trunc, lemma_div_trunc_bounded, COORD_LIMIT, MAX_ROWS, RANGE_LIMIT, SCALE,
};
use crate::scale::Tick;

verus! {

/// The first index of a label among the domain labels, or `-1`.
pub open spec fn spec_index_of(d: Seq<String>, label: Seq<char>) -> int
    decreases d.len(),
{
    if d.len() == 0 {
        -1
    } else if d[0]@ == label {
        0
    } else {
        let r = spec_index_of(d.drop_first(), label);
        if r < 0 {
            -1
        } else {
            1 + r
        }
    }
}

/// The first index of a label is at most the index of any occurrence.
pub proof fn lemma_index_of_present(d: Seq<String>, i: int)
    requires
        0 <= i < d.len(),
    ensures
        0 <= spec_index_of(d, d[i]@) <= i,
    decreases d.len(),
{
    if d[0]@ != d[i]@ {
        lemma_index_of_present(d.drop_first(), i - 1);
        assert(d.drop_first()[i - 1] == d[i]);
    }
}

/// What the first index means: a nonnegative result points at a matching
/// label, a negative result means no label matches.
pub proof fn lemma_index_of_semantics(d: Seq<String>, l: Seq<char>)
    ensures
        spec_index_of(d, l) >= 0 ==> spec_index_of(d, l) < d.len() && d[spec_index_of(d, l)]@ == l,
        spec_index_of(d, l) < 0 ==> forall|j: int| 0 <= j < d.len() ==> #[trigger] d[j]@ != l,
    decreases d.len(),
{
    if d.len() > 0 && d[0]@ != l {
        lemma_index_of_semantics(d.drop_first(), l);
        let r = spec_index_of(d.drop_first(), l);
        if r >= 0 {
            assert(d.drop_first()[r] == d[r + 1]);
        } else {
            assert forall|j: int| 0 <= j < d.len() implies #[trigger] d[j]@ != l by {
                if j >= 1 {
                    assert(d.drop_first()[j - 1] == d[j]);
                }
            }
        }
    }
}

/// Among labels with pairwise distinct texts, each label indexes itself.
pub proof fn lemma_index_of_distinct(d: Seq<String>, i: int)
    requires
        0 <= i < d.len(),
        forall|j: int, k: int| 0 <= j < k < d.len() ==> #[trigger] d[j]@ != #[trigger] d[k]@,
    ensures
        spec_index_of(d, d[i]@) == i,
    decreases d.len(),
{
    if i > 0 {
        assert(d[0]@ != d[i]@);
        lemma_index_of_distinct(d.drop_first(), i - 1);
        assert(d.drop_first()[i - 1] == d[i]);
    }
}

/// The first index of a label text among label texts, or `-1`.
pub open spec fn gindex_of(d: Seq<Seq<char>>, l: Seq<char>) -> int
    decreases d.len(),
{
    if d.len() == 0 {
        -1
    } else if d[0] == l {
        0
    } else {
        let r = gindex_of(d.drop_first(), l);
        if r < 0 {
            -1
        } else {
            1 + r
        }
    }
}

/// Indexing strings and indexing their texts agree.
pub proof fn lemma_index_of_views(d: Seq<String>, l: Seq<char>)
    ensures
        spec_index_of(d, l) == gindex_of(d.map_values(|x: String| x@), l),
    decreases d.len(),
{
    let dv = d.map_values(|x: String| x@);
    if d.len() > 0 {
        lemma_index_of_views(d.drop_first(), l);
        assert(dv.drop_first() =~= d.drop_first().map_values(|x: String| x@));
        assert(dv[0] == d[0]@);
    }
}

/// Among pairwise distinct texts, each text indexes itself.
pub proof fn lemma_gindex_distinct(d: Seq<Seq<char>>, i: int)
    requires
        0 <= i < d.len(),
        forall|j: int, k: int| 0 <= j < k < d.len() ==> #[trigger] d[j] != #[trigger] d[k],
    ensures
        gindex_of(d, d[i]) == i,
    decreases d.len(),
{
    if i > 0 {
        assert(d[0] != d[i]);
        assert(forall|j: int, k: int|
            0 <= j < k < d.len() - 1 ==> #[trigger] d.drop_first()[j] != #[trigger] d.drop_first()[k]);
        lemma_gindex_distinct(d.drop_first(), i - 1);
        assert(d.drop_first()[i - 1] == d[i]);
    }
}

/// The step between band starts, from the count, range, and paddings.
pub open spec fn band_step_v(n: int, r0: int, r1: int, pi: int, po: int) -> int {
    if n == 0 {
        0
    } else {
        let den = n * (SCALE as int) + 2 * po - pi;
        if den <= 0 {
            0
        } else {
            clip(div_trunc(abs_val(r1 - r0) * (SCALE as int), den))
        }
    }
}

/// The width of one band.
pub open spec fn band_width_v(n: int, r0: int, r1: int, pi: int, po: int) -> int {
    div_trunc(band_step_v(n, r0, r1, pi, po) * ((SCALE as int) - pi), SCALE as int)
}

/// The start position of band `i`.
pub open spec fn band_start_v(n: int, r0: int, r1: int, pi: int, po: int, i: int) -> int {
    clip(
        r0 + div_trunc(po * band_step_v(n, r0, r1, pi, po), SCALE as int) + i * band_step_v(
            n,
            r0,
            r1,
            pi,
            po,
        ),
    )
}

/// The center position of band `i`.
pub open spec fn band_center_v(n: int, r0: int, r1: int, pi: int, po: int, i: int) -> int {
    band_start_v(n, r0, r1, pi, po, i) + band_width_v(n, r0, r1, pi, po) / 2
}

/// Categorical position mapping: an ordered domain of labels, a pixel
/// interval, and inner/outer padding fractions (in millionths: `SCALE`
/// means a fraction of one).
#[derive(Debug, Clone)]
pub struct BandScale {
    pub domain: Vec<String>,
    pub range_min: i64,
    pub range_max: i64,
    pub padding_inner: i64,
    pub padding_outer: i64,
}

impl BandScale {
    /// Well-formedness: pixel-space range, padding fractions in `[0, 1]`,
    /// and a bounded number of categories.
    pub open spec fn wf(self) -> bool {
        &&& -RANGE_LIMIT <= self.range_min <= RANGE_LIMIT
        &&& -RANGE_LIMIT <= self.range_max <= RANGE_LIMIT
        &&& 0 <= self.padding_inner <= SCALE
        &&& 0 <= self.padding_outer <= SCALE
        &&& self.domain@.len() <= MAX_ROWS
    }

    /// The step between band starts: the range span divided by
    /// `n + 2*padding_outer - padding_inner` band widths (zero for an
    /// empty domain or a nonpositive divisor).
    pub open spec fn step_of(self) -> int {
        band_step_v(
            self.domain@.len() as int,
            self.range_min as int,
            self.range_max as int,
            self.padding_inner as int,
            self.padding_outer as int,
        )
    }

    /// The width of one band: the step shrunk by the inner padding.
    pub open spec fn bandwidth_of(self) -> int {
        band_width_v(
            self.domain@.len() as int,
            self.range_min as int,
            self.range_max as int,
            self.padding_inner as int,
            self.padding_outer as int,
        )
    }

    /// The start position of band `i`.
    pub open spec fn band_pos(self, i: int) -> int {
        band_start_v(
            self.domain@.len() as int,
            self.range_min as int,
            self.range_max as int,
            self.padding_inner as int,
            self.padding_outer as int,
            i,
        )
    }

    /// The center position of band `i`.
    pub open spec fn band_center(self, i: int) -> int {
        band_center_v(
            self.domain@.len() as int,
            self.range_min as int,
            self.range_max as int,
            self.padding_inner as int,
            self.padding_outer as int,
            i,
        )
    }

    /// A band scale with default paddings of a tenth.
    pub fn new(domain: Vec<String>, range: (i64, i64)) -> (s: BandScale)
        requires
            -RANGE_LIMIT <= range.0 <= RANGE_LIMIT,
            -RANGE_LIMIT <= range.1 <= RANGE_LIMIT,
            domain@.len() <= MAX_ROWS,
        ensures
            s.domain == domain,
            s.range_min == range.0,
            s.range_max == range.1,
            s.padding_inner == SCALE / 10,
            s.padding_outer == SCALE / 10,
            s.wf(),
    {
        BandScale {
            domain,
            range_min: range.0,
            range_max: range.1,
            padding_inner: SCALE / 10,
            padding_outer: SCALE / 10,
        }
    }

    /// Set the inner padding (between bands), clamped to `[0, 1]`.
    pub fn padding_inner(self, padding: i64) -> (s: BandScale)
        ensures
            s.domain == self.domain,
            s.range_min == self.range_min,
            s.range_max == self.range_max,
            s.padding_outer == self.padding_outer,
            s.padding_inner == if padding < 0 {
                0
            } else if padding > SCALE {
                SCALE as int
            } else {
                padding as int
            },
    {
        let p = if padding < 0 {
            0
        } else if padding > SCALE {
            SCALE
        } else {
            padding
        };
        BandScale { padding_inner: p, ..self }
    }

    /// Set the outer padding (at the edges), clamped to `[0, 1]`.
    pub fn padding_outer(self, padding: i64) -> (s: BandScale)
        ensures
            s.domain == self.domain,
            s.range_min == self.range_min,
            s.range_max == self.range_max,
            s.padding_inner == self.padding_inner,
            s.padding_outer == if padding < 0 {
                0
            } else if padding > SCALE {
                SCALE as int
            } else {
                padding as int
            },
    {
        let p = if padding < 0 {
            0
        } else if padding > SCALE {
            SCALE
        } else {
            padding
        };
        BandScale { padding_outer: p, ..self }
    }

    /// Set both paddings, clamped to `[0, 1]`.
    pub fn padding(self, padding: i64) -> (s: BandScale)
        ensures
            s.domain == self.domain,
            s.range_min == self.range_min,
            s.range_max == self.range_max,
            s.padding_inner == if padding < 0 {
                0
            } else if padding > SCALE {
                SCALE as int
            } else {
                padding as int
            },
            s.padding_outer == s.padding_inner,
    {
        self.padding_inner(padding).padding_outer(padding)
    }

    /// The step between band starts.
    pub fn step(&self) -> (r: i64)
        requires
            self.wf(),
        ensures
            r == self.step_of(),
            r >= 0,
    {
        let n = self.domain.len();
        if n == 0 {
            return 0;
        }
        let den: i128 = (n as i128) * (SCALE as i128) + 2 * (self.padding_outer as i128) - (
        self.padding_inner as i128);
        if den <= 0 {
            return 0;
        }
        let span: i128 = if self.range_max >= self.range_min {
            (self.range_max as i128) - (self.range_min as i128)
        } else {
            (self.range_min as i128) - (self.range_max as i128)
        };
        let num: i128 = span * (SCALE as i128);
        proof {
            assert(num >= 0 && num <= 8_000_000_000_000_000_000_000) by (nonlinear_arith)
                requires
                    0 <= span <= 8_000_000_000_000_000,
                    num == span * (SCALE as i128),
                    SCALE == 1_000_000i64,
            ;
        }
        let q = crate::num::div_trunc_i128(num, den);
        let r = crate::num::clip_i128(q);
        proof {
            assert(abs_val(q as int) / abs_val(den as int) >= 0);
        }
        r
    }

    /// The width of one band.
    pub fn bandwidth(&self) -> (r: i64)
        requires
            self.wf(),
        ensures
            r == self.bandwidth_of(),
            0 <= r <= self.step_of(),
    {
        let s = self.step();
        proof {
            assert(s <= COORD_LIMIT);
            assert(0 <= (s as int) * ((SCALE as int) - self.padding_inner) <= (s as int) * (
            SCALE as int) <= 5_000_000_000_000_000_000_000_000) by (nonlinear_arith)
                requires
                    0 <= s <= COORD_LIMIT,
                    0 <= (SCALE as int) - self.padding_inner <= SCALE as int,
                    SCALE == 1_000_000i64,
                    COORD_LIMIT == 4_500_000_000_000_000_000i64,
            ;
        }
        let num: i128 = (s as i128) * ((SCALE as i128) - (self.padding_inner as i128));
        proof {
            lemma_div_trunc_bounded(num as int, SCALE as int, s as int);
            assert(abs_val(num as int) / abs_val(SCALE as int) >= 0);
        }
        let q = crate::num::div_trunc_i128(num, SCALE as i128);
        q as i64
    }

    /// The start position of the band for `label`, or none for a label
    /// outside the domain.
    pub fn scale(&self, label: &String) -> (r: Option<i64>)
        requires
            self.wf(),
        ensures
            spec_index_of(self.domain@, label@) < 0 ==> r is None,
            spec_index_of(self.domain@, label@) >= 0 ==> r == Some(
                self.band_pos(spec_index_of(self.domain@, label@)) as i64,
            ),
    {
        let n = self.domain.len();
        let mut i: usize = 0;
        proof {
            assert(self.domain@.skip(0) =~= self.domain@);
        }
        while i < n
            invariant
                i <= n,
                n == self.domain@.len(),
                self.wf(),
                forall|j: int| 0 <= j < i ==> #[trigger] self.domain@[j]@ != label@,
                spec_index_of(self.domain@, label@) == if spec_index_of(
                    self.domain@.skip(i as int),
                    label@,
                ) < 0 {
                    -1
                } else {
                    i + spec_index_of(self.domain@.skip(i as int), label@)
                },
            decreases n - i,
        {
            proof {
                assert(self.domain@.skip(i as int)[0] == self.domain@[i as int]);
            }
            if self.domain[i] == *label {
                let step = self.step();
                proof {
                    assert(step <= COORD_LIMIT);
                    assert(0 <= (self.padding_outer as int) * (step as int) <= 5_000_000_000_000_000_000_000_000) by (nonlinear_arith)
                        requires
                            0 <= self.padding_outer <= 1_000_000,
                            0 <= step <= COORD_LIMIT,
                            COORD_LIMIT == 4_500_000_000_000_000_000i64,
                    ;
                    assert(0 <= (i as int) * (step as int) <= 50_000_000_000_000_000_000_000)
                        by (nonlinear_arith)
                        requires
                            0 <= i <= MAX_ROWS,
                            MAX_ROWS == 10_000usize,
                            0 <= step <= COORD_LIMIT,
                            COORD_LIMIT == 4_500_000_000_000_000_000i64,
                    ;
                }
                let offset_num: i128 = (self.padding_outer as i128) * (step as i128);
                proof {
                    assert(abs_val(offset_num as int) / abs_val(SCALE as int) >= 0);
                }
                let offset = crate::num::div_trunc_i128(offset_num, SCALE as i128);
                let idx_term: i128 = (i as i128) * (step as i128);
                let pos = crate::num::clip_i128(
                    (self.range_min as i128) + offset + idx_term,
                );
                return Some(pos);
            }
            proof {
                assert(self.domain@.skip(i as int).drop_first() =~= self.domain@.skip(
                    i as int + 1,
                ));
            }
            i = i + 1;
        }
        None
    }

    /// The center position of the band for `label`.
    pub fn scale_center(&self, label: &String) -> (r: Option<i64>)
        requires
            self.wf(),
        ensures
            spec_index_of(self.domain@, label@) < 0 ==> r is None,
            spec_index_of(self.domain@, label@) >= 0 ==> r == Some(
                self.band_center(spec_index_of(self.domain@, label@)) as i64,
            ),
    {
        match self.scale(label) {
            Some(start) => {
                let bw = self.bandwidth();
                let half = ((bw as u64) / 2) as i64;
                Some(start + half)
            },
            None => None,
        }
    }

    /// The domain labels.
    pub fn domain(&self) -> (r: &Vec<String>)
        ensures
            r == &self.domain,
    {
        &self.domain
    }

    /// The range interval.
    pub fn range(&self) -> (r: (i64, i64))
        ensures
            r.0 == self.range_min,
            r.1 == self.range_max,
    {
        (self.range_min, self.range_max)
    }

    /// One tick per category, positioned at the band center that the
    /// category's label maps to.
    pub fn ticks(&self) -> (r: Vec<Tick>)
        requires
            self.wf(),
        ensures
            r@.len() == self.domain@.len(),
            forall|i: int|
                0 <= i < r@.len() ==> (#[trigger] r@[i]).value == self.band_center(
                    spec_index_of(self.domain@, self.domain@[i]@),
                ) && r@[i].label@ == self.domain@[i]@,
    {
        let n = self.domain.len();
        let mut r: Vec<Tick> = Vec::new();
        let mut i: usize = 0;
        while i < n
            invariant
                i <= n,
                n == self.domain@.len(),
                self.wf(),
                r@.len() == i,
                forall|j: int|
                    0 <= j < i ==> (#[trigger] r@[j]).value == self.band_center(
                        spec_index_of(self.domain@, self.domain@[j]@),
                    ) && r@[j].label@ == self.domain@[j]@,
            decreases n - i,
        {
            let label = self.domain[i].clone();
            proof {
                lemma_index_of_present(self.domain@, i as int);
                assert(label@ == self.domain@[i as int]@);
                lemma_band_center_fits(*self, spec_index_of(self.domain@, self.domain@[i as int]@));
            }
            let ghost old_r = r@;
            match self.scale_center(&label) {
                Some(pos) => {
                    r.push(Tick { value: pos, label });
                    proof {
                        assert forall|j: int| 0 <= j < i + 1 implies (#[trigger] r@[j]).value
                            == self.band_center(spec_index_of(self.domain@, self.domain@[j]@))
                            && r@[j].label@ == self.domain@[j]@ by {
                            if j < i {
                                assert(r@[j] == old_r[j]);
                            } else {
                                assert(r@[j].value == pos);
                            }
                        }
                    }
                },
                None => {
                    proof {
                        assert(false);
                    }
                },
            }
            i = i + 1;
        }
        r
    }
}

/// Band geometry stays within the coordinate budget, so band centers fit
/// a machine coordinate.
pub proof fn lemma_band_center_fits(s: BandScale, i: int)
    requires
        s.wf(),
    ensures
        -COORD_LIMIT <= s.band_pos(i) <= COORD_LIMIT,
        0 <= s.bandwidth_of() <= COORD_LIMIT,
        -COORD_LIMIT <= s.band_center(i) <= COORD_LIMIT + (COORD_LIMIT as int) / 2,
{
    let step = s.step_of();
    assert(0 <= step <= COORD_LIMIT) by {
        if s.domain@.len() > 0 {
            let n = s.domain@.len() as int;
            let den = n * (SCALE as int) + 2 * s.padding_outer - s.padding_inner;
            if den > 0 {
                let span = abs_val(s.range_max - s.range_min);
                assert(abs_val(span * (SCALE as int)) / abs_val(den) >= 0);
            }
        }
    }
    let num = step * ((SCALE as int) - s.padding_inner);
    assert(0 <= num <= step * (SCALE as int)) by (nonlinear_arith)
        requires
            step >= 0,
            0 <= (SCALE as int) - s.padding_inner <= SCALE as int,
            num == step * ((SCALE as int) - s.padding_inner),
    ;
    lemma_div_trunc_bounded(num, SCALE as int, step);
    assert(abs_val(num) / abs_val(SCALE as int) >= 0);
}

/// With zero padding, the `n` bands exactly tile the range: the step is
/// the span divided by `n` and band `i` starts at `range_min + i * step`.
pub proof fn lemma_band_partition(s: BandScale, i: int)
    requires
        s.wf(),
        s.padding_inner == 0,
        s.padding_outer == 0,
        s.domain@.len() >= 1,
        0 <= i < s.domain@.len(),
        forall|j: int, k: int|
            0 <= j < k < s.domain@.len() ==> #[trigger] s.domain@[j]@ != #[trigger] s.domain@[k]@,
    ensures
        s.step_of() == abs_val(s.range_max - s.range_min) / (s.domain@.len() as int),
        spec_index_of(s.domain@, s.domain@[i]@) == i,
        s.band_pos(i) == s.range_min + i * s.step_of(),
{
    let n = s.domain@.len() as int;
    let span = abs_val(s.range_max - s.range_min);
    let den = n * (SCALE as int);
    assert(den > 0) by (nonlinear_arith)
        requires
            n >= 1,
            SCALE == 1_000_000i64,
            den == n * (SCALE as int),
    ;
    // (span * SCALE) / (n * SCALE) == span / n
    vstd::arithmetic::div_mod::lemma_div_multiples_vanish_quotient(SCALE as int, span, n);
    assert(span * (SCALE as int) == (SCALE as int) * span) by (nonlinear_arith);
    assert(n * (SCALE as int) == (SCALE as int) * n) by (nonlinear_arith);
    assert(div_trunc(span * (SCALE as int), den) == span / n) by {
        assert(abs_val(span * (SCALE as int)) == span * (SCALE as int)) by (nonlinear_arith)
            requires
                span >= 0,
        ;
    }
    // no clipping: span / n <= span <= 2 * RANGE_LIMIT
    assert(span / n <= span) by (nonlinear_arith)
        requires
            span >= 0,
            n >= 1,
    ;
    let step = s.step_of();
    lemma_index_of_distinct(s.domain@, i);
    // band_pos: offset is zero, and i * step stays within the span
    assert(div_trunc(0 * step, SCALE as int) == 0) by {
        assert(0 * step == 0) by (nonlinear_arith);
        assert(abs_val(0int) / abs_val(SCALE as int) == 0);
    }
    assert(i * step <= n * step && 0 <= i * step) by (nonlinear_arith)
        requires
            0 <= i < n,
            step >= 0,
    ;
    assert(n * step <= span) by {
        vstd::arithmetic::div_mod::lemma_fundamental_div_mod(span, n);
        vstd::arithmetic::div_mod::lemma_mod_division_less_than_divisor(span, n);
        assert(n * (span / n) <= span);
    }
}

} // verus!
