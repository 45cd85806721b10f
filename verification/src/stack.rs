//! The stack engine: groups rows by category and accumulates per-series
//! baseline/top pairs under a stacking mode.
//!
//! Grouping keeps categories in first-seen order and rows in their
//! original relative order within each category; callers that need the
//! category-domain order re-impose it themselves.

use vstd::prelude::*;

use crate::band::{lemma_index_of_semantics, spec_index_of};
use crate::chart::{StackConfig, StackMode};
use crate::datum::{gvalue_chars, row_lookup, value_to_string, GData, GField, Row};
use crate::num::{abs_val, clip, div_trunc, MAX_ROWS, SCALE, VALUE_LIMIT};

verus! {

/// The category/series key a row's field coerces to (the empty text when
/// the field is absent).
pub open spec fn key_of(rv: Seq<GField>, f: Seq<char>) -> Seq<char> {
    match row_lookup(rv, f) {
        Some(v) => gvalue_chars(v),
        None => Seq::<char>::empty(),
    }
}

/// The numeric value of a row's field (zero when absent or non-numeric).
pub open spec fn num_of(rv: Seq<GField>, f: Seq<char>) -> int {
    match row_lookup(rv, f) {
        Some(GData::Num(n)) => n,
        _ => 0,
    }
}

/// The distinct category keys of the rows, in first-seen order.
pub open spec fn first_seen(rows: Seq<Seq<GField>>, cf: Seq<char>) -> Seq<Seq<char>>
    decreases rows.len(),
{
    if rows.len() == 0 {
        Seq::<Seq<char>>::empty()
    } else {
        let rest = first_seen(rows.drop_last(), cf);
        let k = key_of(rows.last(), cf);
        if rest.contains(k) {
            rest
        } else {
            rest.push(k)
        }
    }
}

/// The rows of one category, in their original relative order.
pub open spec fn rows_of_cat(rows: Seq<Seq<GField>>, cf: Seq<char>, k: Seq<char>) -> Seq<
    Seq<GField>,
>
    decreases rows.len(),
{
    if rows.len() == 0 {
        Seq::<Seq<GField>>::empty()
    } else {
        let rest = rows_of_cat(rows.drop_last(), cf, k);
        if key_of(rows.last(), cf) == k {
            rest.push(rows.last())
        } else {
            rest
        }
    }
}

/// The sum of the rows' values.
pub open spec fn sum_vals(g: Seq<Seq<GField>>, vf: Seq<char>) -> int
    decreases g.len(),
{
    if g.len() == 0 {
        0
    } else {
        sum_vals(g.drop_last(), vf) + num_of(g.last(), vf)
    }
}

/// Splitting rows splits their category filter.
pub proof fn lemma_rows_of_cat_concat(a: Seq<Seq<GField>>, b: Seq<Seq<GField>>, cf: Seq<char>, k: Seq<char>)
    ensures
        rows_of_cat(a + b, cf, k) == rows_of_cat(a, cf, k) + rows_of_cat(b, cf, k),
    decreases b.len(),
{
    if b.len() == 0 {
        assert(a + b =~= a);
        assert(rows_of_cat(a, cf, k) + rows_of_cat(b, cf, k) =~= rows_of_cat(a, cf, k));
    } else {
        lemma_rows_of_cat_concat(a, b.drop_last(), cf, k);
        assert((a + b).drop_last() =~= a + b.drop_last());
        assert((a + b).last() == b.last());
        if key_of(b.last(), cf) == k {
            assert(rows_of_cat(a, cf, k) + rows_of_cat(b, cf, k) =~= (rows_of_cat(a, cf, k)
                + rows_of_cat(b.drop_last(), cf, k)).push(b.last()));
        }
    }
}

/// Splitting rows splits their value sum.
pub proof fn lemma_sum_vals_concat(a: Seq<Seq<GField>>, b: Seq<Seq<GField>>, vf: Seq<char>)
    ensures
        sum_vals(a + b, vf) == sum_vals(a, vf) + sum_vals(b, vf),
    decreases b.len(),
{
    if b.len() == 0 {
        assert(a + b =~= a);
    } else {
        lemma_sum_vals_concat(a, b.drop_last(), vf);
        assert((a + b).drop_last() =~= a + b.drop_last());
        assert((a + b).last() == b.last());
    }
}

/// The category filter of a row prefix is a prefix of the category filter.
pub proof fn lemma_rows_of_cat_prefix(rows: Seq<Seq<GField>>, cf: Seq<char>, k: Seq<char>, i: int)
    requires
        0 <= i <= rows.len(),
    ensures
        rows_of_cat(rows.take(i), cf, k).len() <= rows_of_cat(rows, cf, k).len(),
        rows_of_cat(rows.take(i), cf, k) == rows_of_cat(rows, cf, k).take(
            rows_of_cat(rows.take(i), cf, k).len() as int,
        ),
{
    lemma_rows_of_cat_concat(rows.take(i), rows.skip(i), cf, k);
    assert(rows.take(i) + rows.skip(i) =~= rows);
    let g = rows_of_cat(rows, cf, k);
    let p = rows_of_cat(rows.take(i), cf, k);
    let q = rows_of_cat(rows.skip(i), cf, k);
    assert(g == p + q);
    assert(p =~= g.take(p.len() as int));
}

/// Elements of the category filter keep the per-row value bound, so the
/// per-category sums stay within the machine budget.
pub proof fn lemma_rows_of_cat_bounds(rows: Seq<Seq<GField>>, cf: Seq<char>, k: Seq<char>, vf: Seq<char>, lim: int)
    requires
        forall|i: int| 0 <= i < rows.len() ==> abs_val(num_of(#[trigger] rows[i], vf)) <= lim,
        lim >= 0,
    ensures
        rows_of_cat(rows, cf, k).len() <= rows.len(),
        forall|j: int|
            0 <= j < rows_of_cat(rows, cf, k).len() ==> abs_val(
                num_of(#[trigger] rows_of_cat(rows, cf, k)[j], vf),
            ) <= lim,
    decreases rows.len(),
{
    if rows.len() > 0 {
        assert(forall|i: int|
            0 <= i < rows.drop_last().len() ==> abs_val(
                num_of(#[trigger] rows.drop_last()[i], vf),
            ) <= lim) by {
            assert(forall|i: int|
                0 <= i < rows.len() - 1 ==> rows.drop_last()[i] == #[trigger] rows[i]);
        }
        lemma_rows_of_cat_bounds(rows.drop_last(), cf, k, vf, lim);
        assert(rows.last() == rows[rows.len() - 1]);
    }
}

/// A sum of bounded values is bounded by the count times the bound.
pub proof fn lemma_sum_vals_bound(g: Seq<Seq<GField>>, vf: Seq<char>, lim: int)
    requires
        forall|j: int| 0 <= j < g.len() ==> abs_val(num_of(#[trigger] g[j], vf)) <= lim,
        lim >= 0,
    ensures
        abs_val(sum_vals(g, vf)) <= g.len() * lim,
    decreases g.len(),
{
    if g.len() == 0 {
        assert(0 * lim == 0) by (nonlinear_arith);
    } else {
        assert(forall|j: int| 0 <= j < g.len() - 1 ==> g.drop_last()[j] == #[trigger] g[j]);
        lemma_sum_vals_bound(g.drop_last(), vf, lim);
        assert(g.last() == g[g.len() - 1]);
        assert((g.len() - 1) * lim + lim == g.len() * lim) by (nonlinear_arith);
    }
}

/// The baseline of one stacked row, from the stacking mode, the category
/// total, and the sum of the earlier rows in the category.
pub open spec fn stack_lo(mode: StackMode, total: int, prefix: int) -> int {
    match mode {
        StackMode::Zero => prefix,
        StackMode::Normalize => if total == 0 {
            0
        } else {
            clip(div_trunc(prefix * (SCALE as int), total))
        },
        StackMode::Center => prefix - div_trunc(total, 2),
    }
}

/// The top of one stacked row.
pub open spec fn stack_hi(mode: StackMode, total: int, prefix: int, v: int) -> int {
    match mode {
        StackMode::Zero => prefix + v,
        StackMode::Normalize => if total == 0 {
            0
        } else {
            clip(div_trunc((prefix + v) * (SCALE as int), total))
        },
        StackMode::Center => prefix - div_trunc(total, 2) + v,
    }
}

/// One stacked row, in mathematical form.
pub struct GStacked {
    pub cat: Seq<char>,
    pub series: Seq<char>,
    pub y0: int,
    pub y1: int,
    pub row: Seq<GField>,
}

/// The stacked rows of one category, in row order.
pub open spec fn stack_cat(
    g: Seq<Seq<GField>>,
    k: Seq<char>,
    vf: Seq<char>,
    sf: Seq<char>,
    mode: StackMode,
) -> Seq<GStacked> {
    Seq::new(
        g.len(),
        |j: int|
            GStacked {
                cat: k,
                series: key_of(g[j], sf),
                y0: stack_lo(mode, sum_vals(g, vf), sum_vals(g.take(j), vf)),
                y1: stack_hi(
                    mode,
                    sum_vals(g, vf),
                    sum_vals(g.take(j), vf),
                    num_of(g[j], vf),
                ),
                row: g[j],
            },
    )
}

/// The stacked rows of the given categories, in category order.
pub open spec fn stack_cats(
    cats: Seq<Seq<char>>,
    rows: Seq<Seq<GField>>,
    cf: Seq<char>,
    vf: Seq<char>,
    sf: Seq<char>,
    mode: StackMode,
) -> Seq<GStacked>
    decreases cats.len(),
{
    if cats.len() == 0 {
        Seq::<GStacked>::empty()
    } else {
        stack_cats(cats.drop_last(), rows, cf, vf, sf, mode) + stack_cat(
            rows_of_cat(rows, cf, cats.last()),
            cats.last(),
            vf,
            sf,
            mode,
        )
    }
}

/// Everything the stack engine produces: categories in first-seen order,
/// each category's rows stacked in row order.
pub open spec fn stack_rows(
    rows: Seq<Seq<GField>>,
    cf: Seq<char>,
    vf: Seq<char>,
    sf: Seq<char>,
    mode: StackMode,
) -> Seq<GStacked> {
    stack_cats(first_seen(rows, cf), rows, cf, vf, sf, mode)
}

/// The mode a stacking configuration selects (none when disabled).
pub open spec fn mode_of(c: StackConfig) -> Option<StackMode> {
    match c {
        StackConfig::Enabled(false) => None,
        StackConfig::Enabled(true) => Some(StackMode::Zero),
        StackConfig::Mode(m) => Some(m),
    }
}

/// The machine budget on rows: a bounded count and bounded values.
pub open spec fn rows_ok(rows: Seq<Seq<GField>>, vf: Seq<char>) -> bool {
    &&& rows.len() <= MAX_ROWS
    &&& forall|i: int| 0 <= i < rows.len() ==> abs_val(num_of(#[trigger] rows[i], vf)) <= VALUE_LIMIT
}

/// Every numeric field of the row is within the value budget.
pub open spec fn gfield_ok(f: GField) -> bool {
    f.value matches GData::Num(n) ==> -VALUE_LIMIT <= n <= VALUE_LIMIT
}

/// The machine budget on rows, independent of any particular field name.
pub open spec fn rows_all_ok(rows: Seq<Seq<GField>>) -> bool {
    &&& rows.len() <= MAX_ROWS
    &&& forall|i: int, j: int|
        0 <= i < rows.len() && 0 <= j < rows[i].len() ==> gfield_ok(#[trigger] rows[i][j])
}

/// Bounded rows are bounded for every value field.
pub proof fn lemma_rows_all_ok_field(rows: Seq<Seq<GField>>, vf: Seq<char>)
    requires
        rows_all_ok(rows),
    ensures
        rows_ok(rows, vf),
{
    assert forall|i: int| 0 <= i < rows.len() implies abs_val(
        num_of(#[trigger] rows[i], vf),
    ) <= VALUE_LIMIT by {
        crate::datum::lemma_row_lookup_member(rows[i], vf);
        match row_lookup(rows[i], vf) {
            Some(GData::Num(n)) => {
                let j = choose|j: int|
                    0 <= j < rows[i].len() && (#[trigger] rows[i][j]).value == GData::Num(n);
                assert(gfield_ok(rows[i][j]));
            },
            _ => {},
        }
    }
}

/// One stacked output row: the original row, its category and series keys,
/// and the baseline/top pair (in value space, not pixels).
#[derive(Debug, Clone)]
pub struct StackedValue {
    /// The originating row.
    pub row: Row,
    /// The baseline.
    pub y0: i64,
    /// The top.
    pub y1: i64,
    /// The category key.
    pub category: String,
    /// The series key.
    pub series: String,
}

/// Whether an output row realizes a mathematical stacked row.
pub open spec fn sv_matches(sv: StackedValue, g: GStacked) -> bool {
    &&& sv.category@ == g.cat
    &&& sv.series@ == g.series
    &&& sv.y0 == g.y0
    &&& sv.y1 == g.y1
    &&& sv.row.deep_view() == g.row
}

/// The key a row's field coerces to.
pub(crate) fn row_key(r: &Row, f: &String) -> (k: String)
    ensures
        k@ == key_of(r.deep_view(), f@),
{
    match r.get(f) {
        Some(v) => value_to_string(v),
        None => String::new(),
    }
}

/// The numeric value a row's field carries (zero when absent).
pub(crate) fn row_num(r: &Row, f: &String) -> (v: i64)
    ensures
        v == num_of(r.deep_view(), f@),
{
    match r.get(f) {
        Some(v) => match v.as_number() {
            Some(n) => n,
            None => 0,
        },
        None => 0,
    }
}

/// The first index of a text among the strings, if any.
pub(crate) fn find_string(v: &Vec<String>, s: &String) -> (r: Option<usize>)
    ensures
        match r {
            Some(ix) => ix < v@.len() && spec_index_of(v@, s@) == ix,
            None => spec_index_of(v@, s@) < 0,
        },
{
    let n = v.len();
    let mut i: usize = 0;
    proof {
        assert(v@.skip(0) =~= v@);
    }
    while i < n
        invariant
            i <= n,
            n == v@.len(),
            spec_index_of(v@, s@) == if spec_index_of(v@.skip(i as int), s@) < 0 {
                -1
            } else {
                i + spec_index_of(v@.skip(i as int), s@)
            },
        decreases n - i,
    {
        proof {
            assert(v@.skip(i as int)[0] == v@[i as int]);
        }
        if v[i] == *s {
            return Some(i);
        }
        proof {
            assert(v@.skip(i as int).drop_first() =~= v@.skip(i as int + 1));
        }
        i = i + 1;
    }
    None
}

/// Group rows by category and stack each category's values under the
/// configured mode.  Disabled stacking produces nothing.
pub fn compute_stack(
    data: &Vec<Row>,
    category_field: &String,
    value_field: &String,
    series_field: &String,
    stack_config: &StackConfig,
) -> (r: Vec<StackedValue>)
    requires
        rows_ok(data.deep_view(), value_field@),
    ensures
        match mode_of(*stack_config) {
            None => r@.len() == 0,
            Some(mode) => {
                let gs = stack_rows(
                    data.deep_view(),
                    category_field@,
                    value_field@,
                    series_field@,
                    mode,
                );
                r@.len() == gs.len() && forall|i: int|
                    0 <= i < gs.len() ==> sv_matches(#[trigger] r@[i], gs[i])
            },
        },
{
    let mode = match stack_config {
        StackConfig::Enabled(false) => {
            return Vec::new();
        },
        StackConfig::Enabled(true) => StackMode::Zero,
        StackConfig::Mode(m) => *m,
    };
    let ghost rows = data.deep_view();
    let ghost cf = category_field@;
    let ghost vf = value_field@;
    let ghost sf = series_field@;
    let n = data.len();
    proof {
        assert(rows.len() == n);
    }
    // distinct category keys, in first-seen order
    let mut keys: Vec<String> = Vec::new();
    let mut i: usize = 0;
    proof {
        assert(rows.take(0) =~= Seq::<Seq<GField>>::empty());
    }
    while i < n
        invariant
            i <= n,
            n == rows.len(),
            rows == data.deep_view(),
            cf == category_field@,
            keys@.len() == first_seen(rows.take(i as int), cf).len(),
            forall|j: int|
                0 <= j < keys@.len() ==> #[trigger] keys@[j]@ == first_seen(
                    rows.take(i as int),
                    cf,
                )[j],
        decreases n - i,
    {
        let ghost pre = first_seen(rows.take(i as int), cf);
        let key = row_key(&data[i], category_field);
        proof {
            assert(data@[i as int].deep_view() == rows[i as int]);
            assert(rows.take(i as int + 1).drop_last() =~= rows.take(i as int));
            assert(rows.take(i as int + 1).last() == rows[i as int]);
            lemma_index_of_semantics(keys@, key@);
        }
        match find_string(&keys, &key) {
            Some(_) => {
                proof {
                    let ix = spec_index_of(keys@, key@);
                    assert(keys@[ix]@ == key@);
                    assert(pre.contains(key@)) by {
                        assert(pre[ix] == key@);
                    }
                }
            },
            None => {
                proof {
                    if pre.contains(key@) {
                        let j = choose|j: int| 0 <= j < pre.len() && pre[j] == key@;
                        assert(keys@[j]@ == key@);
                        assert(false);
                    }
                }
                keys.push(key);
            },
        }
        i = i + 1;
    }
    proof {
        assert(rows.take(n as int) =~= rows);
    }
    let ghost cats = first_seen(rows, cf);
    // stack each category
    let mut result: Vec<StackedValue> = Vec::new();
    let nk = keys.len();
    let mut ci: usize = 0;
    proof {
        assert(cats.take(0) =~= Seq::<Seq<char>>::empty());
    }
    while ci < nk
        invariant
            ci <= nk,
            n == rows.len(),
            rows == data.deep_view(),
            cf == category_field@,
            vf == value_field@,
            sf == series_field@,
            cats == first_seen(rows, cf),
            rows_ok(rows, vf),
            nk == keys@.len(),
            nk == cats.len(),
            forall|j: int| 0 <= j < nk ==> #[trigger] keys@[j]@ == cats[j],
            result@.len() == stack_cats(cats.take(ci as int), rows, cf, vf, sf, mode).len(),
            forall|j: int|
                0 <= j < result@.len() ==> sv_matches(
                    #[trigger] result@[j],
                    stack_cats(cats.take(ci as int), rows, cf, vf, sf, mode)[j],
                ),
        decreases nk - ci,
    {
        let key = keys[ci].clone();
        let ghost k = cats[ci as int];
        proof {
            assert(key@ == k);
            lemma_rows_of_cat_bounds(rows, cf, k, vf, VALUE_LIMIT as int);
        }
        let ghost g = rows_of_cat(rows, cf, k);
        // first pass: the category total
        let mut total: i64 = 0;
        let mut i: usize = 0;
        proof {
            assert(rows.take(0) =~= Seq::<Seq<GField>>::empty());
        }
        while i < n
            invariant
                i <= n,
                n == rows.len(),
                rows == data.deep_view(),
                cf == category_field@,
                vf == value_field@,
                key@ == k,
                rows_ok(rows, vf),
                g == rows_of_cat(rows, cf, k),
                total == sum_vals(rows_of_cat(rows.take(i as int), cf, k), vf),
                abs_val(total as int) <= rows_of_cat(rows.take(i as int), cf, k).len() * (
                VALUE_LIMIT as int),
            decreases n - i,
        {
            let ghost p = rows_of_cat(rows.take(i as int), cf, k);
            proof {
                assert(rows.take(i as int + 1).drop_last() =~= rows.take(i as int));
                assert(rows.take(i as int + 1).last() == rows[i as int]);
                assert(data@[i as int].deep_view() == rows[i as int]);
                lemma_rows_of_cat_prefix(rows, cf, k, i as int);
                lemma_rows_of_cat_bounds(rows, cf, k, vf, VALUE_LIMIT as int);
                assert(p.len() <= g.len() <= rows.len());
                assert((p.len() + 1) * (VALUE_LIMIT as int) == p.len() * (VALUE_LIMIT as int) + (
                VALUE_LIMIT as int)) by (nonlinear_arith);
                assert(p.len() * (VALUE_LIMIT as int) <= (MAX_ROWS as int) * (VALUE_LIMIT as int))
                    by (nonlinear_arith)
                    requires
                        0 <= p.len() <= MAX_ROWS as int,
                ;
            }
            let rowkey = row_key(&data[i], category_field);
            if rowkey == key {
                let v = row_num(&data[i], value_field);
                proof {
                    let q = rows_of_cat(rows.take(i as int + 1), cf, k);
                    assert(q == p.push(rows[i as int]));
                    assert(q.drop_last() =~= p);
                    assert(abs_val(v as int) <= VALUE_LIMIT as int);
                }
                total = total + v;
            }
            i = i + 1;
        }
        proof {
            assert(rows.take(n as int) =~= rows);
            assert(total == sum_vals(g, vf));
        }
        // second pass: emit one stacked value per row of the category
        let mut cum: i64 = 0;
        let ghost mut gi: int = 0;
        let mut i: usize = 0;
        proof {
            assert(rows.take(0) =~= Seq::<Seq<GField>>::empty());
            assert(g.take(0) =~= Seq::<Seq<GField>>::empty());
        }
        while i < n
            invariant
                i <= n,
                n == rows.len(),
                rows == data.deep_view(),
                cf == category_field@,
                vf == value_field@,
                sf == series_field@,
                key@ == k,
                rows_ok(rows, vf),
                cats == first_seen(rows, cf),
                nk == keys@.len(),
                nk == cats.len(),
                ci < nk,
                k == cats[ci as int],
                forall|j: int| 0 <= j < nk ==> #[trigger] keys@[j]@ == cats[j],
                g == rows_of_cat(rows, cf, k),
                total == sum_vals(g, vf),
                gi == rows_of_cat(rows.take(i as int), cf, k).len(),
                rows_of_cat(rows.take(i as int), cf, k) == g.take(gi),
                cum == sum_vals(g.take(gi), vf),
                abs_val(cum as int) <= gi * (VALUE_LIMIT as int),
                abs_val(total as int) <= g.len() * (VALUE_LIMIT as int),
                g.len() <= rows.len(),
                result@.len() == stack_cats(cats.take(ci as int), rows, cf, vf, sf, mode).len()
                    + gi,
                forall|j: int|
                    0 <= j < stack_cats(cats.take(ci as int), rows, cf, vf, sf, mode).len()
                        ==> sv_matches(
                        #[trigger] result@[j],
                        stack_cats(cats.take(ci as int), rows, cf, vf, sf, mode)[j],
                    ),
                forall|j: int|
                    0 <= j < gi ==> sv_matches(
                        #[trigger] result@[stack_cats(cats.take(ci as int), rows, cf, vf, sf, mode).len() + j],
                        stack_cat(g, k, vf, sf, mode)[j],
                    ),
            decreases n - i,
        {
            let ghost p = rows_of_cat(rows.take(i as int), cf, k);
            proof {
                assert(rows.take(i as int + 1).drop_last() =~= rows.take(i as int));
                assert(rows.take(i as int + 1).last() == rows[i as int]);
                assert(data@[i as int].deep_view() == rows[i as int]);
                lemma_rows_of_cat_prefix(rows, cf, k, i as int + 1);
                lemma_rows_of_cat_bounds(rows, cf, k, vf, VALUE_LIMIT as int);
                assert((gi + 1) * (VALUE_LIMIT as int) == gi * (VALUE_LIMIT as int) + (
                VALUE_LIMIT as int)) by (nonlinear_arith);
                assert(gi * (VALUE_LIMIT as int) <= (MAX_ROWS as int) * (VALUE_LIMIT as int))
                    by (nonlinear_arith)
                    requires
                        0 <= gi <= MAX_ROWS as int,
                ;
                assert(g.len() * (VALUE_LIMIT as int) <= (MAX_ROWS as int) * (VALUE_LIMIT as int))
                    by (nonlinear_arith)
                    requires
                        0 <= g.len() <= MAX_ROWS as int,
                ;
            }
            let rowkey = row_key(&data[i], category_field);
            if rowkey == key {
                let v = row_num(&data[i], value_field);
                proof {
                    let q = rows_of_cat(rows.take(i as int + 1), cf, k);
                    assert(q == p.push(rows[i as int]));
                    assert(q == g.take(gi + 1));
                    assert(g.take(gi + 1).drop_last() =~= g.take(gi));
                    assert(g.take(gi + 1).last() == g[gi]);
                    assert(g[gi] == rows[i as int]);
                    assert(abs_val(v as int) <= VALUE_LIMIT as int);
                }
                let (y0, y1): (i64, i64) = match mode {
                    StackMode::Zero => (cum, cum + v),
                    StackMode::Normalize => {
                        if total == 0 {
                            (0, 0)
                        } else {
                            let lo = crate::num::clip_i128(
                                crate::num::div_trunc_i128(
                                    (cum as i128) * (SCALE as i128),
                                    total as i128,
                                ),
                            );
                            let hi = crate::num::clip_i128(
                                crate::num::div_trunc_i128(
                                    ((cum as i128) + (v as i128)) * (SCALE as i128),
                                    total as i128,
                                ),
                            );
                            (lo, hi)
                        }
                    },
                    StackMode::Center => {
                        let half = if total >= 0 {
                            ((total as u64) / 2) as i64
                        } else {
                            -((((-(total as i128)) as u64) / 2) as i64)
                        };
                        proof {
                            assert(half == div_trunc(total as int, 2));
                        }
                        (cum - half, cum - half + v)
                    },
                };
                let series = row_key(&data[i], series_field);
                let category = key.clone();
                let sv = StackedValue { row: data[i].clone(), y0, y1, category, series };
                let ghost block = stack_cats(cats.take(ci as int), rows, cf, vf, sf, mode);
                let ghost old_result = result@;
                result.push(sv);
                proof {
                    assert(stack_cat(g, k, vf, sf, mode)[gi].y0 == y0);
                    assert(stack_cat(g, k, vf, sf, mode)[gi].y1 == y1);
                    assert(sv_matches(sv, stack_cat(g, k, vf, sf, mode)[gi]));
                    assert(forall|j: int|
                        0 <= j < old_result.len() ==> #[trigger] result@[j] == old_result[j]);
                    assert(result@[old_result.len() as int] == sv);
                }
                cum = cum + v;
                proof {
                    gi = gi + 1;
                }
            }
            i = i + 1;
        }
        proof {
            assert(rows.take(n as int) =~= rows);
            assert(gi == g.len());
            assert(g.take(gi) =~= g);
            // the finished block extends the accumulated prefix
            assert(cats.take(ci as int + 1).drop_last() =~= cats.take(ci as int));
            assert(cats.take(ci as int + 1).last() == cats[ci as int]);
            let whole = stack_cats(cats.take(ci as int + 1), rows, cf, vf, sf, mode);
            let block = stack_cats(cats.take(ci as int), rows, cf, vf, sf, mode);
            assert(whole == block + stack_cat(g, k, vf, sf, mode));
            assert forall|j: int| 0 <= j < whole.len() implies sv_matches(
                #[trigger] result@[j],
                whole[j],
            ) by {
                if j < block.len() {
                    assert(whole[j] == block[j]);
                } else {
                    let j2 = j - block.len();
                    assert(whole[j] == stack_cat(g, k, vf, sf, mode)[j2]);
                    assert(sv_matches(
                        result@[block.len() + j2],
                        stack_cat(g, k, vf, sf, mode)[j2],
                    ));
                }
            }
        }
        ci = ci + 1;
    }
    proof {
        assert(cats.take(nk as int) =~= cats);
    }
    result
}

proof fn lemma_sum_take_step(g: Seq<Seq<GField>>, vf: Seq<char>, j: int)
    requires
        0 <= j < g.len(),
    ensures
        sum_vals(g.take(j + 1), vf) == sum_vals(g.take(j), vf) + num_of(g[j], vf),
{
    assert(g.take(j + 1).drop_last() =~= g.take(j));
    assert(g.take(j + 1).last() == g[j]);
}

/// A sum of nonnegative values is nonnegative.
proof fn lemma_sum_nonneg(g: Seq<Seq<GField>>, vf: Seq<char>)
    requires
        forall|m: int| 0 <= m < g.len() ==> num_of(#[trigger] g[m], vf) >= 0,
    ensures
        sum_vals(g, vf) >= 0,
    decreases g.len(),
{
    if g.len() > 0 {
        assert(forall|m: int| 0 <= m < g.len() - 1 ==> g.drop_last()[m] == #[trigger] g[m]);
        lemma_sum_nonneg(g.drop_last(), vf);
        assert(g.last() == g[g.len() - 1]);
    }
}

/// With nonnegative values, the prefix sums grow from zero up to the
/// total.
proof fn lemma_sum_prefix_mono(g: Seq<Seq<GField>>, vf: Seq<char>, j: int)
    requires
        0 <= j <= g.len(),
        forall|m: int| 0 <= m < g.len() ==> num_of(#[trigger] g[m], vf) >= 0,
    ensures
        0 <= sum_vals(g.take(j), vf) <= sum_vals(g, vf),
{
    assert(forall|m: int| 0 <= m < j ==> g.take(j)[m] == #[trigger] g[m]);
    assert(forall|m: int|
        0 <= m < g.len() - j ==> g.skip(j)[m] == #[trigger] g[m + j] && num_of(g[m + j], vf)
            >= 0);
    assert(forall|m: int| 0 <= m < g.len() - j ==> num_of(#[trigger] g.skip(j)[m], vf) >= 0);
    lemma_sum_nonneg(g.take(j), vf);
    lemma_sum_nonneg(g.skip(j), vf);
    lemma_sum_vals_concat(g.take(j), g.skip(j), vf);
    assert(g.take(j) + g.skip(j) =~= g);
}

/// Zero-mode stacking partitions `[0, total]`: the first baseline is
/// zero, each top is its baseline plus the row's value, each next
/// baseline is the previous top (no gaps, no overlaps), and the last top
/// is the category total.  With nonnegative values the pairs are also in
/// ascending order as emitted.
pub proof fn lemma_stack_zero_partition(g: Seq<Seq<GField>>, k: Seq<char>, vf: Seq<char>, sf: Seq<char>)
    ensures
        stack_cat(g, k, vf, sf, StackMode::Zero).len() == g.len(),
        g.len() > 0 ==> stack_cat(g, k, vf, sf, StackMode::Zero)[0].y0 == 0,
        forall|j: int|
            0 <= j < g.len() ==> (#[trigger] stack_cat(g, k, vf, sf, StackMode::Zero)[j]).y1
                == stack_cat(g, k, vf, sf, StackMode::Zero)[j].y0 + num_of(g[j], vf),
        forall|j: int|
            0 <= j < g.len() - 1 ==> (#[trigger] stack_cat(g, k, vf, sf, StackMode::Zero)[j
                + 1]).y0 == stack_cat(g, k, vf, sf, StackMode::Zero)[j].y1,
        g.len() > 0 ==> stack_cat(g, k, vf, sf, StackMode::Zero)[g.len() - 1].y1 == sum_vals(
            g,
            vf,
        ),
        (forall|m: int| 0 <= m < g.len() ==> num_of(#[trigger] g[m], vf) >= 0) ==> forall|j: int|
            0 <= j < g.len() ==> (#[trigger] stack_cat(g, k, vf, sf, StackMode::Zero)[j]).y0
                <= stack_cat(g, k, vf, sf, StackMode::Zero)[j].y1,
{
    let sc = stack_cat(g, k, vf, sf, StackMode::Zero);
    if g.len() > 0 {
        assert(g.take(0) =~= Seq::<Seq<GField>>::empty());
        lemma_sum_take_step(g, vf, g.len() - 1);
        assert(g.take(g.len() as int) =~= g);
    }
    assert forall|j: int| 0 <= j < g.len() - 1 implies (#[trigger] sc[j + 1]).y0 == sc[j].y1 by {
        lemma_sum_take_step(g, vf, j);
    }
}

/// Normalize-mode stacking with nonnegative values keeps every baseline
/// and top inside `[0, 1]` (one unit being `SCALE`), the last top is
/// exactly one (or zero when the category total is zero), and each
/// segment's size matches its value's fraction of the category total to
/// within one subunit of truncating division.
pub proof fn lemma_stack_normalize_bounds(g: Seq<Seq<GField>>, k: Seq<char>, vf: Seq<char>, sf: Seq<char>)
    requires
        forall|m: int| 0 <= m < g.len() ==> num_of(#[trigger] g[m], vf) >= 0,
    ensures
        forall|j: int|
            0 <= j < g.len() ==> 0 <= (#[trigger] stack_cat(g, k, vf, sf, StackMode::Normalize)[j]).y0
                <= stack_cat(g, k, vf, sf, StackMode::Normalize)[j].y1 <= SCALE,
        g.len() > 0 && sum_vals(g, vf) != 0 ==> stack_cat(g, k, vf, sf, StackMode::Normalize)[g.len()
            - 1].y1 == SCALE,
        sum_vals(g, vf) == 0 ==> forall|j: int|
            0 <= j < g.len() ==> (#[trigger] stack_cat(g, k, vf, sf, StackMode::Normalize)[j]).y0
                == 0 && stack_cat(g, k, vf, sf, StackMode::Normalize)[j].y1 == 0,
        sum_vals(g, vf) != 0 ==> forall|j: int|
            0 <= j < g.len() ==> abs_val(
                ((#[trigger] stack_cat(g, k, vf, sf, StackMode::Normalize)[j]).y1 - stack_cat(
                    g,
                    k,
                    vf,
                    sf,
                    StackMode::Normalize,
                )[j].y0) * sum_vals(g, vf) - num_of(g[j], vf) * (SCALE as int),
            ) < sum_vals(g, vf),
{
    let sc = stack_cat(g, k, vf, sf, StackMode::Normalize);
    let total = sum_vals(g, vf);
    assert(g.take(g.len() as int) =~= g);
    lemma_sum_prefix_mono(g, vf, 0);
    if total != 0 {
        assert(total > 0) by {
            lemma_sum_prefix_mono(g, vf, g.len() as int);
            assert(g.take(g.len() as int) =~= g);
        }
        assert forall|j: int| 0 <= j < g.len() implies 0 <= (#[trigger] sc[j]).y0 <= sc[j].y1
            <= SCALE && abs_val((sc[j].y1 - sc[j].y0) * total - num_of(g[j], vf) * (SCALE as int))
            < total by {
            lemma_sum_prefix_mono(g, vf, j);
            lemma_sum_take_step(g, vf, j);
            lemma_sum_prefix_mono(g, vf, j + 1);
            let p = sum_vals(g.take(j), vf);
            let q = sum_vals(g.take(j + 1), vf);
            lemma_norm_quotient_bounds(p, total);
            lemma_norm_quotient_bounds(q, total);
            lemma_norm_quotient_mono(p, q, total);
            // the segment's size against its exact fraction
            let a = p * (SCALE as int);
            let b = q * (SCALE as int);
            assert(a >= 0) by (nonlinear_arith)
                requires
                    p >= 0,
                    a == p * (SCALE as int),
                    SCALE == 1_000_000i64,
            ;
            assert(b >= 0) by (nonlinear_arith)
                requires
                    q >= 0,
                    b == q * (SCALE as int),
                    SCALE == 1_000_000i64,
            ;
            assert(div_trunc(a, total) == a / total);
            assert(div_trunc(b, total) == b / total);
            vstd::arithmetic::div_mod::lemma_fundamental_div_mod(a, total);
            vstd::arithmetic::div_mod::lemma_fundamental_div_mod(b, total);
            vstd::arithmetic::div_mod::lemma_mod_division_less_than_divisor(a, total);
            vstd::arithmetic::div_mod::lemma_mod_division_less_than_divisor(b, total);
            assert((b / total - a / total) * total == (b - b % total) - (a - a % total))
                by (nonlinear_arith)
                requires
                    total * (a / total) == a - a % total,
                    total * (b / total) == b - b % total,
            ;
            assert(b - a == num_of(g[j], vf) * (SCALE as int)) by (nonlinear_arith)
                requires
                    a == p * (SCALE as int),
                    b == q * (SCALE as int),
                    q == p + num_of(g[j], vf),
            ;
        }
        if g.len() > 0 {
            lemma_sum_take_step(g, vf, g.len() - 1);
            assert(sum_vals(g.take(g.len() - 1), vf) + num_of(g[g.len() - 1], vf) == total);
            vstd::arithmetic::div_mod::lemma_div_by_multiple(SCALE as int, total);
            assert(total * (SCALE as int) == (SCALE as int) * total) by (nonlinear_arith);
            assert(div_trunc(total * (SCALE as int), total) == SCALE as int) by {
                assert(abs_val(total * (SCALE as int)) == total * (SCALE as int))
                    by (nonlinear_arith)
                    requires
                        total > 0,
                ;
            }
        }
    }
}

/// A normalized quotient of a prefix inside `[0, total]` lies in
/// `[0, SCALE]` and is unchanged by clipping.
proof fn lemma_norm_quotient_bounds(p: int, total: int)
    requires
        0 <= p <= total,
        total > 0,
    ensures
        0 <= clip(div_trunc(p * (SCALE as int), total)) <= SCALE,
        clip(div_trunc(p * (SCALE as int), total)) == div_trunc(p * (SCALE as int), total),
{
    let num = p * (SCALE as int);
    assert(num >= 0) by (nonlinear_arith)
        requires
            p >= 0,
            num == p * (SCALE as int),
            SCALE == 1_000_000i64,
    ;
    assert(num <= total * (SCALE as int)) by (nonlinear_arith)
        requires
            p <= total,
            num == p * (SCALE as int),
            SCALE == 1_000_000i64,
    ;
    assert(div_trunc(num, total) == num / total);
    vstd::arithmetic::div_mod::lemma_div_is_ordered(num, total * (SCALE as int), total);
    vstd::arithmetic::div_mod::lemma_div_multiples_vanish(SCALE as int, total);
    assert(total * (SCALE as int) == (SCALE as int) * total) by (nonlinear_arith);
}

/// Normalized quotients grow with the prefix.
proof fn lemma_norm_quotient_mono(p: int, q: int, total: int)
    requires
        0 <= p <= q,
        total > 0,
    ensures
        div_trunc(p * (SCALE as int), total) <= div_trunc(q * (SCALE as int), total),
{
    assert(0 <= p * (SCALE as int) <= q * (SCALE as int)) by (nonlinear_arith)
        requires
            0 <= p <= q,
    ;
    vstd::arithmetic::div_mod::lemma_div_is_ordered(
        p * (SCALE as int),
        q * (SCALE as int),
        total,
    );
}

/// The largest stacked top, with a floor of zero (the fold identity when
/// the input is empty).
pub open spec fn max_y1(s: Seq<StackedValue>) -> int
    decreases s.len(),
{
    if s.len() == 0 {
        0
    } else {
        let rest = max_y1(s.drop_last());
        if s.last().y1 > rest {
            s.last().y1 as int
        } else {
            rest
        }
    }
}

/// The smallest stacked baseline, with a ceiling sentinel of `i64::MAX`
/// when the input is empty (callers treat an empty stack as "no data").
pub open spec fn min_y0(s: Seq<StackedValue>) -> int
    decreases s.len(),
{
    if s.len() == 0 {
        i64::MAX as int
    } else {
        let rest = min_y0(s.drop_last());
        if (s.last().y0 as int) < rest {
            s.last().y0 as int
        } else {
            rest
        }
    }
}

/// Every stacked baseline and top stays within the coordinate budget.
proof fn lemma_stack_cat_bounded(g: Seq<Seq<GField>>, k: Seq<char>, vf: Seq<char>, sf: Seq<char>, mode: StackMode)
    requires
        g.len() <= MAX_ROWS,
        forall|j: int| 0 <= j < g.len() ==> abs_val(num_of(#[trigger] g[j], vf)) <= VALUE_LIMIT,
    ensures
        forall|j: int|
            0 <= j < g.len() ==> abs_val((#[trigger] stack_cat(g, k, vf, sf, mode)[j]).y0)
                <= crate::num::COORD_LIMIT && abs_val(stack_cat(g, k, vf, sf, mode)[j].y1)
                <= crate::num::COORD_LIMIT,
        mode != StackMode::Normalize ==> forall|j: int|
            0 <= j < g.len() ==> abs_val((#[trigger] stack_cat(g, k, vf, sf, mode)[j]).y0)
                <= 2_000_000_000_000_000_000 && abs_val(stack_cat(g, k, vf, sf, mode)[j].y1)
                <= 2_000_000_000_000_000_000,
{
    let total = sum_vals(g, vf);
    lemma_sum_vals_bound(g, vf, VALUE_LIMIT as int);
    assert(g.len() * (VALUE_LIMIT as int) <= (MAX_ROWS as int) * (VALUE_LIMIT as int))
        by (nonlinear_arith)
        requires
            0 <= g.len() <= MAX_ROWS as int,
    ;
    assert forall|j: int| 0 <= j < g.len() implies abs_val(
        (#[trigger] stack_cat(g, k, vf, sf, mode)[j]).y0,
    ) <= crate::num::COORD_LIMIT && abs_val(stack_cat(g, k, vf, sf, mode)[j].y1)
        <= crate::num::COORD_LIMIT && (mode != StackMode::Normalize ==> abs_val(
        stack_cat(g, k, vf, sf, mode)[j].y0,
    ) <= 2_000_000_000_000_000_000 && abs_val(stack_cat(g, k, vf, sf, mode)[j].y1)
        <= 2_000_000_000_000_000_000) by {
        let p = sum_vals(g.take(j), vf);
        assert(forall|m: int| 0 <= m < j ==> g.take(j)[m] == #[trigger] g[m]);
        lemma_sum_vals_bound(g.take(j), vf, VALUE_LIMIT as int);
        assert(j * (VALUE_LIMIT as int) <= (MAX_ROWS as int) * (VALUE_LIMIT as int))
            by (nonlinear_arith)
            requires
                0 <= j <= MAX_ROWS as int,
        ;
        let v = num_of(g[j], vf);
        match mode {
            StackMode::Zero => {},
            StackMode::Normalize => {},
            StackMode::Center => {
                assert(abs_val(div_trunc(total, 2)) <= abs_val(total)) by {
                    assert(abs_val(total) / 2 <= abs_val(total));
                }
            },
        }
    }
}

/// Every stacked baseline and top the engine can produce stays within the
/// coordinate budget.
pub proof fn lemma_stack_rows_bounded(rows: Seq<Seq<GField>>, cf: Seq<char>, vf: Seq<char>, sf: Seq<char>, mode: StackMode)
    requires
        rows_ok(rows, vf),
    ensures
        forall|i: int|
            0 <= i < stack_rows(rows, cf, vf, sf, mode).len() ==> abs_val(
                (#[trigger] stack_rows(rows, cf, vf, sf, mode)[i]).y0,
            ) <= crate::num::COORD_LIMIT && abs_val(stack_rows(rows, cf, vf, sf, mode)[i].y1)
                <= crate::num::COORD_LIMIT,
        mode != StackMode::Normalize ==> forall|i: int|
            0 <= i < stack_rows(rows, cf, vf, sf, mode).len() ==> abs_val(
                (#[trigger] stack_rows(rows, cf, vf, sf, mode)[i]).y0,
            ) <= 2_000_000_000_000_000_000 && abs_val(stack_rows(rows, cf, vf, sf, mode)[i].y1)
                <= 2_000_000_000_000_000_000,
{
    lemma_stack_cats_bounded(first_seen(rows, cf), rows, cf, vf, sf, mode);
}

proof fn lemma_stack_cats_bounded(cats: Seq<Seq<char>>, rows: Seq<Seq<GField>>, cf: Seq<char>, vf: Seq<char>, sf: Seq<char>, mode: StackMode)
    requires
        rows_ok(rows, vf),
    ensures
        forall|i: int|
            0 <= i < stack_cats(cats, rows, cf, vf, sf, mode).len() ==> abs_val(
                (#[trigger] stack_cats(cats, rows, cf, vf, sf, mode)[i]).y0,
            ) <= crate::num::COORD_LIMIT && abs_val(stack_cats(cats, rows, cf, vf, sf, mode)[i].y1)
                <= crate::num::COORD_LIMIT,
        mode != StackMode::Normalize ==> forall|i: int|
            0 <= i < stack_cats(cats, rows, cf, vf, sf, mode).len() ==> abs_val(
                (#[trigger] stack_cats(cats, rows, cf, vf, sf, mode)[i]).y0,
            ) <= 2_000_000_000_000_000_000 && abs_val(stack_cats(cats, rows, cf, vf, sf, mode)[i].y1)
                <= 2_000_000_000_000_000_000,
    decreases cats.len(),
{
    if cats.len() > 0 {
        lemma_stack_cats_bounded(cats.drop_last(), rows, cf, vf, sf, mode);
        let g = rows_of_cat(rows, cf, cats.last());
        lemma_rows_of_cat_bounds(rows, cf, cats.last(), vf, VALUE_LIMIT as int);
        lemma_stack_cat_bounded(g, cats.last(), vf, sf, mode);
        let whole = stack_cats(cats, rows, cf, vf, sf, mode);
        let pre = stack_cats(cats.drop_last(), rows, cf, vf, sf, mode);
        let blk = stack_cat(g, cats.last(), vf, sf, mode);
        assert forall|i: int| 0 <= i < whole.len() implies abs_val((#[trigger] whole[i]).y0)
            <= crate::num::COORD_LIMIT && abs_val(whole[i].y1) <= crate::num::COORD_LIMIT && (
        mode != StackMode::Normalize ==> abs_val(whole[i].y0) <= 2_000_000_000_000_000_000
            && abs_val(whole[i].y1) <= 2_000_000_000_000_000_000) by {
            if i < pre.len() {
                assert(whole[i] == pre[i]);
            } else {
                assert(whole[i] == blk[i - pre.len()]);
            }
        }
    }
}

/// Bounds on stacked rows bound the extrema folds.
pub proof fn lemma_gminmax_bounds(gs: Seq<GStacked>, b: int)
    requires
        b >= 0,
        forall|i: int|
            0 <= i < gs.len() ==> abs_val((#[trigger] gs[i]).y0) <= b && abs_val(gs[i].y1) <= b,
    ensures
        0 <= gmax_y1(gs) <= b,
        gs.len() > 0 ==> -b <= gmin_y0(gs) <= b,
        gs.len() == 0 ==> gmin_y0(gs) == i64::MAX as int,
    decreases gs.len(),
{
    if gs.len() > 0 {
        assert(forall|i: int| 0 <= i < gs.len() - 1 ==> gs.drop_last()[i] == #[trigger] gs[i]);
        lemma_gminmax_bounds(gs.drop_last(), b);
        assert(gs.last() == gs[gs.len() - 1]);
    }
}

/// The largest top among mathematical stacked rows (zero floor).
pub open spec fn gmax_y1(gs: Seq<GStacked>) -> int
    decreases gs.len(),
{
    if gs.len() == 0 {
        0
    } else {
        let rest = gmax_y1(gs.drop_last());
        if gs.last().y1 > rest {
            gs.last().y1
        } else {
            rest
        }
    }
}

/// The smallest baseline among mathematical stacked rows (`i64::MAX`
/// sentinel when empty).
pub open spec fn gmin_y0(gs: Seq<GStacked>) -> int
    decreases gs.len(),
{
    if gs.len() == 0 {
        i64::MAX as int
    } else {
        let rest = gmin_y0(gs.drop_last());
        if gs.last().y0 < rest {
            gs.last().y0
        } else {
            rest
        }
    }
}

/// Output rows that realize mathematical stacked rows have the same
/// extrema.
pub proof fn lemma_minmax_match(svs: Seq<StackedValue>, gs: Seq<GStacked>)
    requires
        svs.len() == gs.len(),
        forall|i: int| 0 <= i < gs.len() ==> sv_matches(#[trigger] svs[i], gs[i]),
    ensures
        max_y1(svs) == gmax_y1(gs),
        min_y0(svs) == gmin_y0(gs),
    decreases gs.len(),
{
    if gs.len() > 0 {
        assert(forall|i: int|
            0 <= i < gs.len() - 1 ==> svs.drop_last()[i] == #[trigger] svs[i] && gs.drop_last()[i]
                == gs[i]);
        lemma_minmax_match(svs.drop_last(), gs.drop_last());
        assert(svs.last() == svs[svs.len() - 1]);
        assert(gs.last() == gs[gs.len() - 1]);
        assert(sv_matches(svs[svs.len() - 1], gs[gs.len() - 1]));
    }
}

/// The largest stacked top (zero floor).
pub fn max_stacked_value(stacked: &Vec<StackedValue>) -> (r: i64)
    ensures
        r == max_y1(stacked@),
{
    let mut r: i64 = 0;
    let n = stacked.len();
    let mut i: usize = 0;
    while i < n
        invariant
            i <= n,
            n == stacked@.len(),
            r == max_y1(stacked@.take(i as int)),
        decreases n - i,
    {
        proof {
            assert(stacked@.take(i as int + 1).drop_last() =~= stacked@.take(i as int));
            assert(stacked@.take(i as int + 1).last() == stacked@[i as int]);
        }
        if stacked[i].y1 > r {
            r = stacked[i].y1;
        }
        i = i + 1;
    }
    proof {
        assert(stacked@.take(n as int) =~= stacked@);
    }
    r
}

/// The smallest stacked baseline (`i64::MAX` sentinel when empty).
pub fn min_stacked_value(stacked: &Vec<StackedValue>) -> (r: i64)
    ensures
        r == min_y0(stacked@),
{
    let mut r: i64 = i64::MAX;
    let n = stacked.len();
    let mut i: usize = 0;
    while i < n
        invariant
            i <= n,
            n == stacked@.len(),
            r == min_y0(stacked@.take(i as int)),
        decreases n - i,
    {
        proof {
            assert(stacked@.take(i as int + 1).drop_last() =~= stacked@.take(i as int));
            assert(stacked@.take(i as int + 1).last() == stacked@[i as int]);
        }
        if stacked[i].y0 < r {
            r = stacked[i].y0;
        }
        i = i + 1;
    }
    proof {
        assert(stacked@.take(n as int) =~= stacked@);
    }
    r
}

} // verus!
