//! The line/area mark compiler: the x axis is always a band over the
//! distinct x values, and the stacked path emits one filled area plus one
//! top line per series.

use vstd::prelude::*;

use crate::band::{band_center_v, band_start_v, band_width_v, gindex_of, lemma_band_center_fits, lemma_index_of_semantics, lemma_index_of_views, spec_index_of, BandScale};
use crate::bar::{
    bar_fields_ok, bar_x_field, bar_y_field, channel_title, color_field_of, palette_color,
    spec_palette, spec_should_stack, spec_stack_mode, stacked_domain, title_count,
    value_axis_ticks,
};
use crate::chart::{StackConfig, StackMode};
use crate::compile::{
    extract_categories, extract_numbers, lemma_categories_len, lemma_max_num_bound,
    lemma_numbers_bounded, max_number, num_opt, sel_rows, spec_domain, spec_numbers, str_views,
    unique_strings, CompileError, PlotArea,
};
use crate::datum::{row_lookup, GField, Row};
use crate::linear::{linear_at, LinearScale};
use crate::mark::{Geometry, Mark, MarkItem, MarkType, Point};
use crate::num::{clip, COORD_LIMIT, SCALE, VALUE_LIMIT};

use crate::scene::{Group, SceneNode, Transform};
use crate::stack::{
    compute_stack, key_of, lemma_rows_all_ok_field, lemma_stack_rows_bounded, max_stacked_value,
    min_stacked_value, mode_of, rows_all_ok, stack_rows, sv_matches, GStacked, StackedValue,
};
use crate::style::{Color, Stroke};

verus! {

/// The x position of a category's vertex: the band start (zero for an
/// unknown label) plus half the bandwidth.
pub open spec fn lx(dom: Seq<Seq<char>>, w: int, key: Seq<char>) -> int {
    let gi = gindex_of(dom, key);
    let start: int = if gi >= 0 {
        band_start_v(dom.len() as int, 0, w, 0, 0, gi)
    } else {
        0
    };
    start + band_width_v(dom.len() as int, 0, w, 0, 0) / 2
}

/// The y position of a value (the range always runs `height` down to 0).
pub open spec fn ly(dm: (int, int), h: int, v: int) -> int {
    clip(linear_at(dm.0, dm.1, h, 0, v))
}

/// One stroked polyline item.
pub open spec fn is_line_item(item: MarkItem, pts: Seq<Point>, color: Color) -> bool {
    &&& item.geometry matches Geometry::Line { points } && points@ == pts
    &&& item.fill is None
    &&& item.stroke matches Some(st) && st.color == color && st.width == 2 * SCALE && st.dash
        is None
    &&& item.opacity == SCALE
    &&& item.datum is None
}

/// One filled area item between a top line and a baseline.
pub open spec fn is_area_item(
    item: MarkItem,
    top: Seq<Point>,
    base: Seq<Point>,
    color: Color,
) -> bool {
    &&& item.geometry matches Geometry::Area { points, baseline } && points@ == top && baseline@
        == base
    &&& item.fill == Some(color)
    &&& item.stroke is None
    &&& item.opacity == 700_000
    &&& item.datum is None
}

/// The stacked rows of one series, in stack order (which follows the
/// category domain order).
pub open spec fn gs_of_series(gs: Seq<GStacked>, s: Seq<char>) -> Seq<GStacked>
    decreases gs.len(),
{
    if gs.len() == 0 {
        Seq::<GStacked>::empty()
    } else {
        let rest = gs_of_series(gs.drop_last(), s);
        if gs.last().series == s {
            rest.push(gs.last())
        } else {
            rest
        }
    }
}

/// The distinct series keys of the stacked rows, in first-seen order.
pub open spec fn series_keys(gs: Seq<GStacked>) -> Seq<Seq<char>>
    decreases gs.len(),
{
    if gs.len() == 0 {
        Seq::<Seq<char>>::empty()
    } else {
        let rest = series_keys(gs.drop_last());
        if rest.contains(gs.last().series) {
            rest
        } else {
            rest.push(gs.last().series)
        }
    }
}

/// The vertices of one stacked series' top line (or baseline).
pub open spec fn stacked_pts(
    gsx: Seq<GStacked>,
    dom: Seq<Seq<char>>,
    w: int,
    dm: (int, int),
    h: int,
    top: bool,
) -> Seq<Point> {
    Seq::new(
        gsx.len(),
        |j: int|
            Point {
                x: lx(dom, w, gsx[j].cat) as i64,
                y: ly(dm, h, if top {
                    gsx[j].y1
                } else {
                    gsx[j].y0
                }) as i64,
            },
    )
}

/// The splitting of the stacked rows splits the per-series filter.
pub proof fn lemma_gs_of_series_concat(a: Seq<GStacked>, b: Seq<GStacked>, s: Seq<char>)
    ensures
        gs_of_series(a + b, s) == gs_of_series(a, s) + gs_of_series(b, s),
    decreases b.len(),
{
    if b.len() == 0 {
        assert(a + b =~= a);
        assert(gs_of_series(a, s) + gs_of_series(b, s) =~= gs_of_series(a, s));
    } else {
        lemma_gs_of_series_concat(a, b.drop_last(), s);
        assert((a + b).drop_last() =~= a + b.drop_last());
        assert((a + b).last() == b.last());
        if b.last().series == s {
            assert(gs_of_series(a, s) + gs_of_series(b, s) =~= (gs_of_series(a, s)
                + gs_of_series(b.drop_last(), s)).push(b.last()));
        }
    }
}

/// The per-series filter of a prefix is a prefix of the filter.
pub proof fn lemma_gs_of_series_prefix(gs: Seq<GStacked>, s: Seq<char>, i: int)
    requires
        0 <= i <= gs.len(),
    ensures
        gs_of_series(gs.take(i), s).len() <= gs_of_series(gs, s).len(),
        gs_of_series(gs.take(i), s) == gs_of_series(gs, s).take(
            gs_of_series(gs.take(i), s).len() as int,
        ),
{
    lemma_gs_of_series_concat(gs.take(i), gs.skip(i), s);
    assert(gs.take(i) + gs.skip(i) =~= gs);
    let p = gs_of_series(gs.take(i), s);
    assert(p =~= gs_of_series(gs, s).take(p.len() as int));
}

/// The selection of the multi-series path for one series and category.
pub open spec fn multi_sel(
    xf: Seq<char>,
    yf: Seq<char>,
    colf: Seq<char>,
    s: Seq<char>,
    c: Seq<char>,
) -> spec_fn(Seq<GField>) -> bool {
    |rv: Seq<GField>|
        row_lookup(rv, xf) is Some && row_lookup(rv, colf) is Some && num_opt(rv, yf) is Some
            && key_of(rv, colf) == s && key_of(rv, xf) == c
}

/// The distinct series keys of the rows the multi-series path keeps, in
/// first-seen order.
pub open spec fn multi_series_keys(rows: Seq<Seq<GField>>, xf: Seq<char>, yf: Seq<char>, colf: Seq<char>) -> Seq<Seq<char>>
    decreases rows.len(),
{
    if rows.len() == 0 {
        Seq::<Seq<char>>::empty()
    } else {
        let rest = multi_series_keys(rows.drop_last(), xf, yf, colf);
        let r = rows.last();
        if row_lookup(r, xf) is Some && row_lookup(r, colf) is Some && num_opt(r, yf) is Some {
            if rest.contains(key_of(r, colf)) {
                rest
            } else {
                rest.push(key_of(r, colf))
            }
        } else {
            rest
        }
    }
}

/// The vertices one series contributes for one category.
pub open spec fn pts_for_cat(
    rows: Seq<Seq<GField>>,
    xf: Seq<char>,
    yf: Seq<char>,
    colf: Seq<char>,
    s: Seq<char>,
    c: Seq<char>,
    dom: Seq<Seq<char>>,
    w: int,
    dm: (int, int),
    h: int,
) -> Seq<Point> {
    let g = sel_rows(rows, multi_sel(xf, yf, colf, s, c));
    Seq::new(
        g.len(),
        |j: int|
            Point { x: lx(dom, w, c) as i64, y: ly(dm, h, num_opt(g[j], yf).unwrap()) as i64 },
    )
}

/// The polyline of one series up to the `k`-th category: its rows
/// re-imposed into category domain order (ties keep row order).
pub open spec fn multi_pts(
    rows: Seq<Seq<GField>>,
    xf: Seq<char>,
    yf: Seq<char>,
    colf: Seq<char>,
    s: Seq<char>,
    dom: Seq<Seq<char>>,
    k: int,
    w: int,
    dm: (int, int),
    h: int,
) -> Seq<Point>
    decreases k,
{
    if k <= 0 {
        Seq::<Point>::empty()
    } else {
        multi_pts(rows, xf, yf, colf, s, dom, k - 1, w, dm, h) + pts_for_cat(
            rows,
            xf,
            yf,
            colf,
            s,
            dom[k - 1],
            dom,
            w,
            dm,
            h,
        )
    }
}

/// The value the last row of a category contributes (later rows shadow
/// earlier ones), if any row carries both the category and a number.
pub open spec fn last_val(rows: Seq<Seq<GField>>, xf: Seq<char>, yf: Seq<char>, c: Seq<char>) -> Option<int>
    decreases rows.len(),
{
    if rows.len() == 0 {
        None
    } else {
        let r = rows.last();
        if row_lookup(r, xf) is Some && key_of(r, xf) == c && num_opt(r, yf) is Some {
            num_opt(r, yf)
        } else {
            last_val(rows.drop_last(), xf, yf, c)
        }
    }
}

/// The single polyline of the simple path, up to the `k`-th category:
/// one vertex per category that has data, in domain order.
pub open spec fn simple_pts(
    rows: Seq<Seq<GField>>,
    xf: Seq<char>,
    yf: Seq<char>,
    dom: Seq<Seq<char>>,
    k: int,
    w: int,
    dm: (int, int),
    h: int,
) -> Seq<Point>
    decreases k,
{
    if k <= 0 {
        Seq::<Point>::empty()
    } else {
        simple_pts(rows, xf, yf, dom, k - 1, w, dm, h) + match last_val(rows, xf, yf, dom[k - 1]) {
            Some(v) => seq![
                Point { x: lx(dom, w, dom[k - 1]) as i64, y: ly(dm, h, v) as i64 },
            ],
            None => Seq::<Point>::empty(),
        }
    }
}

/// The items the line compiler owes, per path, and where the axis marks
/// start among the children.
pub open spec fn line_group_ok(
    g: Group,
    e: crate::encoding::Encoding,
    rows: Seq<Seq<GField>>,
    plot: PlotArea,
    sc: Option<&StackConfig>,
) -> bool {
    let xt = title_count(e.x);
    let yt = title_count(e.y);
    let xf = bar_x_field(e);
    let yf = bar_y_field(e);
    let dom = spec_domain(rows, xf);
    let w = plot.width as int;
    let h = plot.height as int;
    &&& g.transform == (Transform {
        translate_x: plot.x,
        translate_y: plot.y,
        scale_x: SCALE as i64,
        scale_y: SCALE as i64,
        rotate: 0,
    })
    &&& g.clip is None
    &&& match color_field_of(e) {
        Some(colf) => {
            if spec_should_stack(e, sc) {
                let mode = spec_stack_mode(sc);
                let gs = stack_rows(rows, xf, yf, colf, mode);
                let dm = stacked_domain(mode, gs);
                let sks = series_keys(gs);
                let colors = spec_domain(rows, colf);
                let base: int = if sks.len() > 0 {
                    2
                } else {
                    1
                };
                &&& g.children@.len() == base + 6 + xt + yt
                &&& forall|j: int| base <= j < g.children@.len() ==> #[trigger] g.children@[j]
                    is Mark
                &&& (sks.len() > 0 ==> (g.children@[0] matches SceneNode::Mark(am) && am.mark_type
                    == MarkType::Area && am.items@.len() == sks.len() && (forall|si: int|
                    0 <= si < sks.len() ==> is_area_item(
                        #[trigger] am.items@[si],
                        stacked_pts(gs_of_series(gs, sks[si]), dom, w, dm, h, true),
                        stacked_pts(gs_of_series(gs, sks[si]), dom, w, dm, h, false),
                        spec_palette(series_color_idx(colors, sks[si]) % 10),
                    ))))
                &&& g.children@[base - 1] matches SceneNode::Mark(lm) && lm.mark_type
                    == MarkType::Line && lm.items@.len() == sks.len() && (forall|si: int|
                    0 <= si < sks.len() ==> is_line_item(
                        #[trigger] lm.items@[si],
                        stacked_pts(gs_of_series(gs, sks[si]), dom, w, dm, h, true),
                        spec_palette(series_color_idx(colors, sks[si]) % 10),
                    ))
                &&& line_axes_ok(g, plot, base, xt, dom, dm)
            } else {
                let sks = multi_series_keys(rows, xf, yf, colf);
                let dm = crate::bar::plain_domain(rows, yf);
                let colors = spec_domain(rows, colf);
                &&& g.children@.len() == 7 + xt + yt
                &&& forall|j: int| 1 <= j < g.children@.len() ==> #[trigger] g.children@[j] is Mark
                &&& g.children@[0] matches SceneNode::Mark(lm) && lm.mark_type == MarkType::Line
                    && lm.items@.len() == sks.len() && (forall|si: int|
                    0 <= si < sks.len() ==> is_line_item(
                        #[trigger] lm.items@[si],
                        multi_pts(rows, xf, yf, colf, sks[si], dom, dom.len() as int, w, dm, h),
                        spec_palette(series_color_idx(colors, sks[si]) % 10),
                    ))
                &&& line_axes_ok(g, plot, 1, xt, dom, dm)
            }
        },
        None => {
            let dm = crate::bar::plain_domain(rows, yf);
            &&& g.children@.len() == 7 + xt + yt
            &&& forall|j: int| 1 <= j < g.children@.len() ==> #[trigger] g.children@[j] is Mark
            &&& g.children@[0] matches SceneNode::Mark(lm) && lm.mark_type == MarkType::Line
                && lm.items@.len() == 1 && is_line_item(
                lm.items@[0],
                simple_pts(rows, xf, yf, dom, dom.len() as int, w, dm, h),
                spec_palette(0),
            )
            &&& line_axes_ok(g, plot, 1, xt, dom, dm)
        },
    }
}

/// Both axes follow the marks: the category axis on the bottom right
/// after them (zero-padding bands over the x domain), the value axis on
/// the left three (or four, with a title) marks later, its nice ticks
/// re-mapped through the value scale into pixel positions.
pub open spec fn line_axes_ok(
    g: Group,
    plot: PlotArea,
    base: int,
    xt: int,
    dom: Seq<Seq<char>>,
    dm: (int, int),
) -> bool {
    &&& crate::bar::cat_axis_marks_ok(
        g,
        base,
        crate::encoding::AxisOrient::Bottom,
        plot,
        dom,
        plot.width as int,
        0,
        0,
    )
    &&& crate::bar::val_axis_marks_ok(
        g,
        base + 3 + xt,
        crate::encoding::AxisOrient::Left,
        plot,
        dm,
        false,
    )
}

/// The palette slot of a series: its first index among the color keys,
/// falling back to the first slot for an unknown series.
pub open spec fn series_color_idx(colors: Seq<Seq<char>>, s: Seq<char>) -> int {
    let gi = gindex_of(colors, s);
    if gi >= 0 {
        gi
    } else {
        0
    }
}

/// Compile a line chart: the x axis is a band over the distinct x values
/// in first-seen order; the stacked path draws one filled area and one
/// top line per series, the multi-series path one line per series, and
/// the plain path a single line with one vertex per category with data.
///
/// Fails exactly when a positional channel is absent or carries no field;
/// every other input compiles.
pub fn compile_line(
    encoding: &crate::encoding::Encoding,
    data: &Vec<Row>,
    plot_area: &PlotArea,
    stack_config: Option<&StackConfig>,
) -> (r: Result<Group, CompileError>)
    requires
        plot_area.wf(),
        rows_all_ok(data.deep_view()),
    ensures
        ({
            let rows = data.deep_view();
            match r {
                Err(e) => !bar_fields_ok(*encoding) && crate::bar::fields_error_ok(e, *encoding),
                Ok(g) => bar_fields_ok(*encoding) && line_group_ok(
                    g,
                    *encoding,
                    rows,
                    *plot_area,
                    stack_config,
                ),
            }
        }),
{
    let ghost rows = data.deep_view();
    let x_channel = match &encoding.x {
        Some(c) => c,
        None => {
            return Err(CompileError::MissingField(String::from_str("encoding.x")));
        },
    };
    let y_channel = match &encoding.y {
        Some(c) => c,
        None => {
            return Err(CompileError::MissingField(String::from_str("encoding.y")));
        },
    };
    let x_field = match x_channel.field() {
        Some(f) => f,
        None => {
            return Err(CompileError::InvalidEncoding(String::from_str("x must have a field")));
        },
    };
    let y_field = match y_channel.field() {
        Some(f) => f,
        None => {
            return Err(CompileError::InvalidEncoding(String::from_str("y must have a field")));
        },
    };
    proof {
        assert(x_field@ == bar_x_field(*encoding));
        assert(y_field@ == bar_y_field(*encoding));
        lemma_categories_len(rows, x_field@);
    }
    let categories = extract_categories(data, x_field);
    let unique_categories = unique_strings(&categories);
    proof {
        assert(str_views(unique_categories@) == spec_domain(rows, x_field@));
        assert(unique_categories@.len() <= rows.len());
    }
    let cat_scale = BandScale::new(unique_categories, (0, plot_area.width)).padding(0);
    proof {
        assert(cat_scale.wf());
        crate::compile::lemma_dedup_distinct(
            crate::compile::spec_categories(rows, x_field@),
        );
        assert forall|j: int, k: int|
            0 <= j < k < cat_scale.domain@.len() implies #[trigger] cat_scale.domain@[j]@
            != #[trigger] cat_scale.domain@[k]@ by {
            let dv = str_views(cat_scale.domain@);
            assert(dv[j] == cat_scale.domain@[j]@ && dv[k] == cat_scale.domain@[k]@);
            assert(dv[j] != dv[k]);
        }
    }
    let color_field_opt: Option<&String> = match &encoding.color {
        Some(c) => c.field(),
        None => None,
    };
    let should_stack = color_field_opt.is_some() && match stack_config {
        Some(StackConfig::Enabled(false)) => false,
        Some(_) => true,
        None => true,
    };
    proof {
        assert(should_stack == spec_should_stack(*encoding, stack_config));
    }
    match color_field_opt {
        Some(color_field) => {
            let color_values = extract_categories(data, color_field);
            let unique_colors = unique_strings(&color_values);
            proof {
                assert(str_views(unique_colors@) == spec_domain(rows, color_field@));
            }
            if should_stack {
                let stack_cfg: StackConfig = match stack_config {
                    Some(StackConfig::Enabled(b)) => StackConfig::Enabled(*b),
                    Some(StackConfig::Mode(m)) => StackConfig::Mode(*m),
                    None => StackConfig::Enabled(true),
                };
                let ghost mode = spec_stack_mode(stack_config);
                proof {
                    lemma_rows_all_ok_field(rows, y_field@);
                    assert(mode_of(stack_cfg) == Some(mode));
                }
                let stacked = compute_stack(data, x_field, y_field, color_field, &stack_cfg);
                let ghost gs = stack_rows(rows, x_field@, y_field@, color_field@, mode);
                let max_val = max_stacked_value(&stacked);
                let min_val = min_stacked_value(&stacked);
                proof {
                    crate::stack::lemma_minmax_match(stacked@, gs);
                    lemma_stack_rows_bounded(rows, x_field@, y_field@, color_field@, mode);
                    crate::stack::lemma_gminmax_bounds(gs, COORD_LIMIT as int);
                    if mode != StackMode::Normalize {
                        crate::stack::lemma_gminmax_bounds(gs, 2_000_000_000_000_000_000);
                    }
                }
                let (domain_min, domain_max) = match &stack_cfg {
                    StackConfig::Mode(StackMode::Normalize) => (0, SCALE),
                    StackConfig::Mode(StackMode::Center) => (min_val, max_val),
                    _ => (0, max_val),
                };
                let val_scale = LinearScale::new(
                    (domain_min, domain_max),
                    (plot_area.height, 0),
                ).nice();
                proof {
                    assert((val_scale.domain_min as int, val_scale.domain_max as int)
                        == stacked_domain(mode, gs));
                    assert(val_scale.tick_safe());
                }
                let (line_items, area_items) = line_items_stacked(
                    &stacked,
                    Ghost(gs),
                    &unique_colors,
                    &cat_scale,
                    &val_scale,
                    plot_area,
                );
                proof {
                    if series_keys(gs).len() == 0 {
                        assert(area_items@.len() == 0);
                    }
                }
                return build_line_group(
                    line_items,
                    area_items,
                    &cat_scale,
                    &val_scale,
                    encoding,
                    plot_area,
                );
            } else {
                proof {
                    lemma_numbers_bounded(rows, y_field@);
                    lemma_max_num_bound(spec_numbers(rows, y_field@), VALUE_LIMIT as int);
                }
                let values = extract_numbers(data, y_field);
                let max_value = max_number(&values);
                let val_scale = LinearScale::new(
                    (0, max_value),
                    (plot_area.height, 0),
                ).nice().zero();
                proof {
                    assert((val_scale.domain_min as int, val_scale.domain_max as int)
                        == crate::bar::plain_domain(rows, y_field@));
                    assert(val_scale.tick_safe());
                }
                let line_items = line_items_multi(
                    data,
                    x_field,
                    y_field,
                    color_field,
                    &unique_colors,
                    &cat_scale,
                    &val_scale,
                    plot_area,
                );
                let area_items: Vec<MarkItem> = Vec::new();
                return build_line_group(
                    line_items,
                    area_items,
                    &cat_scale,
                    &val_scale,
                    encoding,
                    plot_area,
                );
            }
        },
        None => {},
    }
    // simple line: no color channel
    proof {
        lemma_numbers_bounded(rows, y_field@);
        lemma_max_num_bound(spec_numbers(rows, y_field@), VALUE_LIMIT as int);
    }
    let values = extract_numbers(data, y_field);
    let max_value = max_number(&values);
    let val_scale = LinearScale::new((0, max_value), (plot_area.height, 0)).nice().zero();
    proof {
        assert((val_scale.domain_min as int, val_scale.domain_max as int)
            == crate::bar::plain_domain(rows, y_field@));
        assert(val_scale.tick_safe());
    }
    let line_items = line_items_simple(data, x_field, y_field, &cat_scale, &val_scale, plot_area);
    let area_items: Vec<MarkItem> = Vec::new();
    build_line_group(line_items, area_items, &cat_scale, &val_scale, encoding, plot_area)
}

/// Whether a row carries the field at all.
fn row_has_field(r: &Row, f: &String) -> (b: bool)
    ensures
        b == (row_lookup(r.deep_view(), f@) is Some),
{
    match r.get(f) {
        Some(_) => true,
        None => false,
    }
}

/// Build the single polyline of the simple path: walk the category
/// domain, look each category's last value up, and skip categories with
/// no data.
fn line_items_simple(
    data: &Vec<Row>,
    x_field: &String,
    y_field: &String,
    cat_scale: &BandScale,
    val_scale: &LinearScale,
    plot: &PlotArea,
) -> (items: Vec<MarkItem>)
    requires
        plot.wf(),
        cat_scale.wf(),
        val_scale.wf(),
        !val_scale.clamp,
        cat_scale.range_min == 0,
        cat_scale.range_max == plot.width,
        cat_scale.padding_inner == 0,
        cat_scale.padding_outer == 0,
        val_scale.range_min == plot.height,
        val_scale.range_max == 0,
    ensures
        items@.len() == 1,
        is_line_item(
            items@[0],
            simple_pts(
                data.deep_view(),
                x_field@,
                y_field@,
                str_views(cat_scale.domain@),
                str_views(cat_scale.domain@).len() as int,
                plot.width as int,
                (val_scale.domain_min as int, val_scale.domain_max as int),
                plot.height as int,
            ),
            spec_palette(0),
        ),
{
    let ghost rows = data.deep_view();
    let ghost dom = str_views(cat_scale.domain@);
    let ghost dm = (val_scale.domain_min as int, val_scale.domain_max as int);
    let ghost w = plot.width as int;
    let ghost h = plot.height as int;
    let n = data.len();
    let nc = cat_scale.domain.len();
    let mut pts: Vec<Point> = Vec::new();
    let mut ci: usize = 0;
    while ci < nc
        invariant
            ci <= nc,
            n == rows.len(),
            rows == data.deep_view(),
            plot.wf(),
            cat_scale.wf(),
            val_scale.wf(),
            !val_scale.clamp,
            cat_scale.range_min == 0,
            cat_scale.range_max == plot.width,
            cat_scale.padding_inner == 0,
            cat_scale.padding_outer == 0,
            val_scale.range_min == plot.height,
            val_scale.range_max == 0,
            nc == cat_scale.domain@.len(),
            dom == str_views(cat_scale.domain@),
            dm == (val_scale.domain_min as int, val_scale.domain_max as int),
            w == plot.width as int,
            h == plot.height as int,
            pts@ == simple_pts(rows, x_field@, y_field@, dom, ci as int, w, dm, h),
        decreases nc - ci,
    {
        let label = &cat_scale.domain[ci];
        let ghost c = dom[ci as int];
        proof {
            assert(label@ == c);
        }
        let mut found: Option<i64> = None;
        let mut i: usize = 0;
        proof {
            assert(rows.take(0) =~= Seq::<Seq<GField>>::empty());
        }
        while i < n
            invariant
                i <= n,
                n == rows.len(),
                rows == data.deep_view(),
                label@ == c,
                match found {
                    Some(v) => last_val(rows.take(i as int), x_field@, y_field@, c) == Some(
                        v as int,
                    ),
                    None => last_val(rows.take(i as int), x_field@, y_field@, c) is None,
                },
            decreases n - i,
        {
            proof {
                assert(rows.take(i as int + 1).drop_last() =~= rows.take(i as int));
                assert(rows.take(i as int + 1).last() == rows[i as int]);
                assert(rows[i as int] == data@[i as int].deep_view());
            }
            let present = row_has_field(&data[i], x_field);
            if present {
                let key = crate::stack::row_key(&data[i], x_field);
                if key == *label {
                    match crate::compile::row_num_opt(&data[i], y_field) {
                        Some(v) => {
                            found = Some(v);
                        },
                        None => {},
                    }
                }
            }
            i = i + 1;
        }
        proof {
            assert(rows.take(n as int) =~= rows);
        }
        let ghost old_pts = pts@;
        match found {
            Some(v) => {
                let x = vertex_x(cat_scale, label);
                let y = val_scale.scale(v);
                pts.push(Point { x, y });
                proof {
                    assert(pts@ =~= simple_pts(rows, x_field@, y_field@, dom, ci as int + 1, w, dm, h));
                }
            },
            None => {
                proof {
                    assert(pts@ =~= simple_pts(rows, x_field@, y_field@, dom, ci as int + 1, w, dm, h));
                }
            },
        }
        ci = ci + 1;
    }
    let item = MarkItem::new(Geometry::Line { points: pts }).with_stroke(
        Stroke::solid(palette_color(0), 2 * SCALE),
    );
    let mut items: Vec<MarkItem> = Vec::new();
    items.push(item);
    items
}

/// Copy a vector of points.
fn copy_points(v: &Vec<Point>) -> (r: Vec<Point>)
    ensures
        r@ == v@,
{
    let n = v.len();
    let mut r: Vec<Point> = Vec::new();
    let mut i: usize = 0;
    while i < n
        invariant
            i <= n,
            n == v@.len(),
            r@ == v@.take(i as int),
        decreases n - i,
    {
        r.push(v[i]);
        proof {
            assert(r@ =~= v@.take(i as int + 1));
        }
        i = i + 1;
    }
    proof {
        assert(v@.take(n as int) =~= v@);
    }
    r
}

/// The vertex x position for a category label under the line compiler's
/// zero-padding band scale.
fn vertex_x(cat_scale: &BandScale, label: &String) -> (r: i64)
    requires
        cat_scale.wf(),
        cat_scale.range_min == 0,
        cat_scale.padding_inner == 0,
        cat_scale.padding_outer == 0,
    ensures
        r as int == lx(str_views(cat_scale.domain@), cat_scale.range_max as int, label@),
{
    proof {
        lemma_index_of_views(cat_scale.domain@, label@);
        lemma_band_center_fits(*cat_scale, spec_index_of(cat_scale.domain@, label@));
    }
    let start = match cat_scale.scale(label) {
        Some(p) => p,
        None => 0,
    };
    let bw = cat_scale.bandwidth();
    let half = ((bw as u64) / 2) as i64;
    start + half
}

/// Collect the distinct series keys of the stacked values, first seen
/// first.
fn stacked_series_list(stacked: &Vec<StackedValue>, Ghost(gs): Ghost<Seq<GStacked>>) -> (r: Vec<
    String,
>)
    requires
        stacked@.len() == gs.len(),
        forall|k: int| 0 <= k < gs.len() ==> sv_matches(#[trigger] stacked@[k], gs[k]),
    ensures
        str_views(r@) == series_keys(gs),
{
    let ghost sks = series_keys(gs);
    let n = stacked.len();
    let mut r: Vec<String> = Vec::new();
    let mut i: usize = 0;
    proof {
        assert(gs.take(0) =~= Seq::<GStacked>::empty());
        assert(str_views(r@) =~= series_keys(gs.take(0)));
    }
    while i < n
        invariant
            i <= n,
            n == stacked@.len(),
            n == gs.len(),
            forall|k: int| 0 <= k < gs.len() ==> sv_matches(#[trigger] stacked@[k], gs[k]),
            str_views(r@) == series_keys(gs.take(i as int)),
        decreases n - i,
    {
        let ghost pre = series_keys(gs.take(i as int));
        proof {
            assert(gs.take(i as int + 1).drop_last() =~= gs.take(i as int));
            assert(gs.take(i as int + 1).last() == gs[i as int]);
            assert(sv_matches(stacked@[i as int], gs[i as int]));
            lemma_index_of_semantics(r@, stacked@[i as int].series@);
        }
        match crate::stack::find_string(&r, &stacked[i].series) {
            Some(_) => {
                proof {
                    let ix = spec_index_of(r@, stacked@[i as int].series@);
                    assert(str_views(r@)[ix] == r@[ix]@);
                    assert(pre.contains(gs[i as int].series)) by {
                        assert(pre[ix] == gs[i as int].series);
                    }
                }
            },
            None => {
                proof {
                    if pre.contains(gs[i as int].series) {
                        let j = choose|j: int| 0 <= j < pre.len() && pre[j] == gs[i as int].series;
                        assert(str_views(r@)[j] == r@[j]@);
                        assert(false);
                    }
                }
                let ghost old_r = r@;
                r.push(stacked[i].series.clone());
                proof {
                    assert(str_views(r@) =~= str_views(old_r).push(gs[i as int].series));
                }
            },
        }
        i = i + 1;
    }
    proof {
        assert(gs.take(n as int) =~= gs);
    }
    r
}

/// Build the stacked path's items: per series, the filled band between
/// its baseline and top, and the stroked top line.
fn line_items_stacked(
    stacked: &Vec<StackedValue>,
    Ghost(gs): Ghost<Seq<GStacked>>,
    colors: &Vec<String>,
    cat_scale: &BandScale,
    val_scale: &LinearScale,
    plot: &PlotArea,
) -> (r: (Vec<MarkItem>, Vec<MarkItem>))
    requires
        plot.wf(),
        cat_scale.wf(),
        val_scale.wf(),
        !val_scale.clamp,
        cat_scale.range_min == 0,
        cat_scale.range_max == plot.width,
        cat_scale.padding_inner == 0,
        cat_scale.padding_outer == 0,
        val_scale.range_min == plot.height,
        val_scale.range_max == 0,
        stacked@.len() == gs.len(),
        forall|k: int| 0 <= k < gs.len() ==> sv_matches(#[trigger] stacked@[k], gs[k]),
    ensures
        ({
            let sks = series_keys(gs);
            let dom = str_views(cat_scale.domain@);
            let dm = (val_scale.domain_min as int, val_scale.domain_max as int);
            let w = plot.width as int;
            let h = plot.height as int;
            let colv = str_views(colors@);
            &&& r.0@.len() == sks.len()
            &&& r.1@.len() == sks.len()
            &&& forall|si: int|
                0 <= si < sks.len() ==> is_line_item(
                    #[trigger] r.0@[si],
                    stacked_pts(gs_of_series(gs, sks[si]), dom, w, dm, h, true),
                    spec_palette(series_color_idx(colv, sks[si]) % 10),
                )
            &&& forall|si: int|
                0 <= si < sks.len() ==> is_area_item(
                    #[trigger] r.1@[si],
                    stacked_pts(gs_of_series(gs, sks[si]), dom, w, dm, h, true),
                    stacked_pts(gs_of_series(gs, sks[si]), dom, w, dm, h, false),
                    spec_palette(series_color_idx(colv, sks[si]) % 10),
                )
        }),
{
    let ghost dom = str_views(cat_scale.domain@);
    let ghost dm = (val_scale.domain_min as int, val_scale.domain_max as int);
    let ghost w = plot.width as int;
    let ghost h = plot.height as int;
    let ghost colv = str_views(colors@);
    let skeys = stacked_series_list(stacked, Ghost(gs));
    let ghost sks = series_keys(gs);
    let n = stacked.len();
    let nk = skeys.len();
    let mut line_items: Vec<MarkItem> = Vec::new();
    let mut area_items: Vec<MarkItem> = Vec::new();
    let mut si: usize = 0;
    while si < nk
        invariant
            si <= nk,
            n == stacked@.len(),
            n == gs.len(),
            plot.wf(),
            cat_scale.wf(),
            val_scale.wf(),
            !val_scale.clamp,
            cat_scale.range_min == 0,
            cat_scale.range_max == plot.width,
            cat_scale.padding_inner == 0,
            cat_scale.padding_outer == 0,
            val_scale.range_min == plot.height,
            val_scale.range_max == 0,
            forall|k: int| 0 <= k < gs.len() ==> sv_matches(#[trigger] stacked@[k], gs[k]),
            str_views(skeys@) == sks,
            sks == series_keys(gs),
            nk == skeys@.len(),
            nk == sks.len(),
            dom == str_views(cat_scale.domain@),
            dm == (val_scale.domain_min as int, val_scale.domain_max as int),
            w == plot.width as int,
            h == plot.height as int,
            colv == str_views(colors@),
            line_items@.len() == si,
            area_items@.len() == si,
            forall|j: int|
                0 <= j < si ==> is_line_item(
                    #[trigger] line_items@[j],
                    stacked_pts(gs_of_series(gs, sks[j]), dom, w, dm, h, true),
                    spec_palette(series_color_idx(colv, sks[j]) % 10),
                ),
            forall|j: int|
                0 <= j < si ==> is_area_item(
                    #[trigger] area_items@[j],
                    stacked_pts(gs_of_series(gs, sks[j]), dom, w, dm, h, true),
                    stacked_pts(gs_of_series(gs, sks[j]), dom, w, dm, h, false),
                    spec_palette(series_color_idx(colv, sks[j]) % 10),
                ),
        decreases nk - si,
    {
        let series = &skeys[si];
        let ghost s = sks[si as int];
        proof {
            assert(series@ == s);
            lemma_index_of_views(colors@, series@);
            lemma_index_of_semantics(colors@, series@);
        }
        let cidx: usize = match crate::stack::find_string(colors, series) {
            Some(ix) => ix,
            None => 0,
        };
        let ghost gsx = gs_of_series(gs, s);
        let mut top: Vec<Point> = Vec::new();
        let mut base: Vec<Point> = Vec::new();
        let mut i: usize = 0;
        let ghost mut gi: int = 0;
        proof {
            assert(gs.take(0) =~= Seq::<GStacked>::empty());
        }
        while i < n
            invariant
                i <= n,
                n == stacked@.len(),
                n == gs.len(),
                plot.wf(),
                cat_scale.wf(),
                val_scale.wf(),
                !val_scale.clamp,
                cat_scale.range_min == 0,
                cat_scale.range_max == plot.width,
                cat_scale.padding_inner == 0,
                cat_scale.padding_outer == 0,
                val_scale.range_min == plot.height,
                val_scale.range_max == 0,
                forall|k: int| 0 <= k < gs.len() ==> sv_matches(#[trigger] stacked@[k], gs[k]),
                series@ == s,
                gsx == gs_of_series(gs, s),
                dom == str_views(cat_scale.domain@),
                dm == (val_scale.domain_min as int, val_scale.domain_max as int),
                w == plot.width as int,
                h == plot.height as int,
                gi == gs_of_series(gs.take(i as int), s).len(),
                gs_of_series(gs.take(i as int), s) == gsx.take(gi),
                top@.len() == gi,
                base@.len() == gi,
                forall|j: int|
                    0 <= j < gi ==> #[trigger] top@[j] == stacked_pts(gsx, dom, w, dm, h, true)[j],
                forall|j: int|
                    0 <= j < gi ==> #[trigger] base@[j] == stacked_pts(gsx, dom, w, dm, h, false)[j],
            decreases n - i,
        {
            proof {
                assert(gs.take(i as int + 1).drop_last() =~= gs.take(i as int));
                assert(gs.take(i as int + 1).last() == gs[i as int]);
                assert(sv_matches(stacked@[i as int], gs[i as int]));
                lemma_gs_of_series_prefix(gs, s, i as int + 1);
            }
            let sv = &stacked[i];
            if sv.series == *series {
                proof {
                    let q = gs_of_series(gs.take(i as int + 1), s);
                    assert(q == gs_of_series(gs.take(i as int), s).push(gs[i as int]));
                    assert(q == gsx.take(gi + 1));
                    assert(gsx.take(gi + 1).drop_last() =~= gsx.take(gi));
                    assert(gsx.take(gi + 1).last() == gsx[gi]);
                    assert(gsx[gi] == gs[i as int]);
                }
                let x = vertex_x(cat_scale, &sv.category);
                let y1 = val_scale.scale(sv.y1);
                let y0 = val_scale.scale(sv.y0);
                let ghost old_top = top@;
                let ghost old_base = base@;
                top.push(Point { x, y: y1 });
                base.push(Point { x, y: y0 });
                proof {
                    assert(forall|j: int|
                        0 <= j < old_top.len() ==> #[trigger] top@[j] == old_top[j]);
                    assert(forall|j: int|
                        0 <= j < old_base.len() ==> #[trigger] base@[j] == old_base[j]);
                    assert(top@[gi] == stacked_pts(gsx, dom, w, dm, h, true)[gi]);
                    assert(base@[gi] == stacked_pts(gsx, dom, w, dm, h, false)[gi]);
                    gi = gi + 1;
                }
            }
            i = i + 1;
        }
        proof {
            assert(gs.take(n as int) =~= gs);
            assert(gi == gsx.len());
            assert(top@ =~= stacked_pts(gsx, dom, w, dm, h, true));
            assert(base@ =~= stacked_pts(gsx, dom, w, dm, h, false));
        }
        let color = palette_color(cidx);
        let top_for_line = copy_points(&top);
        let ghost old_area = area_items@;
        let ghost old_line = line_items@;
        area_items.push(
            MarkItem::new(Geometry::Area { points: top, baseline: base }).with_fill(
                color,
            ).with_opacity(700_000),
        );
        line_items.push(
            MarkItem::new(Geometry::Line { points: top_for_line }).with_stroke(
                Stroke::solid(color, 2 * SCALE),
            ),
        );
        proof {
            assert(series_color_idx(colv, s) == cidx as int);
            assert(forall|j: int|
                0 <= j < old_area.len() ==> #[trigger] area_items@[j] == old_area[j]);
            assert(forall|j: int|
                0 <= j < old_line.len() ==> #[trigger] line_items@[j] == old_line[j]);
            assert(is_area_item(
                area_items@[si as int],
                stacked_pts(gsx, dom, w, dm, h, true),
                stacked_pts(gsx, dom, w, dm, h, false),
                spec_palette((cidx % 10) as int),
            ));
            assert(is_line_item(
                line_items@[si as int],
                stacked_pts(gsx, dom, w, dm, h, true),
                spec_palette((cidx % 10) as int),
            ));
        }
        si = si + 1;
    }
    (line_items, area_items)
}

/// Collect the distinct series keys of the rows the multi-series path
/// keeps, first seen first.
fn multi_series_list(data: &Vec<Row>, x_field: &String, y_field: &String, color_field: &String) -> (r: Vec<String>)
    ensures
        str_views(r@) == multi_series_keys(data.deep_view(), x_field@, y_field@, color_field@),
{
    let ghost rows = data.deep_view();
    let n = data.len();
    let mut r: Vec<String> = Vec::new();
    let mut i: usize = 0;
    proof {
        assert(rows.take(0) =~= Seq::<Seq<GField>>::empty());
        assert(str_views(r@) =~= multi_series_keys(rows.take(0), x_field@, y_field@, color_field@));
    }
    while i < n
        invariant
            i <= n,
            n == rows.len(),
            rows == data.deep_view(),
            str_views(r@) == multi_series_keys(rows.take(i as int), x_field@, y_field@, color_field@),
        decreases n - i,
    {
        let ghost pre = multi_series_keys(rows.take(i as int), x_field@, y_field@, color_field@);
        proof {
            assert(rows.take(i as int + 1).drop_last() =~= rows.take(i as int));
            assert(rows.take(i as int + 1).last() == rows[i as int]);
            assert(rows[i as int] == data@[i as int].deep_view());
        }
        let xp = row_has_field(&data[i], x_field);
        let cp = row_has_field(&data[i], color_field);
        let yn = match crate::compile::row_num_opt(&data[i], y_field) {
            Some(_) => true,
            None => false,
        };
        if xp && cp && yn {
            let key = crate::stack::row_key(&data[i], color_field);
            proof {
                lemma_index_of_semantics(r@, key@);
            }
            match crate::stack::find_string(&r, &key) {
                Some(_) => {
                    proof {
                        let ix = spec_index_of(r@, key@);
                        assert(str_views(r@)[ix] == r@[ix]@);
                        assert(pre.contains(key@)) by {
                            assert(pre[ix] == key@);
                        }
                    }
                },
                None => {
                    proof {
                        if pre.contains(key@) {
                            let j = choose|j: int| 0 <= j < pre.len() && pre[j] == key@;
                            assert(str_views(r@)[j] == r@[j]@);
                            assert(false);
                        }
                    }
                    let ghost old_r = r@;
                    r.push(key);
                    proof {
                        assert(str_views(r@) =~= str_views(old_r).push(
                            key_of(rows[i as int], color_field@),
                        ));
                    }
                },
            }
        }
        i = i + 1;
    }
    proof {
        assert(rows.take(n as int) =~= rows);
    }
    r
}

/// Build the multi-series path's polylines: one stroked line per series,
/// its vertices in category domain order.
fn line_items_multi(
    data: &Vec<Row>,
    x_field: &String,
    y_field: &String,
    color_field: &String,
    colors: &Vec<String>,
    cat_scale: &BandScale,
    val_scale: &LinearScale,
    plot: &PlotArea,
) -> (items: Vec<MarkItem>)
    requires
        plot.wf(),
        cat_scale.wf(),
        val_scale.wf(),
        !val_scale.clamp,
        cat_scale.range_min == 0,
        cat_scale.range_max == plot.width,
        cat_scale.padding_inner == 0,
        cat_scale.padding_outer == 0,
        val_scale.range_min == plot.height,
        val_scale.range_max == 0,
    ensures
        ({
            let rows = data.deep_view();
            let sks = multi_series_keys(rows, x_field@, y_field@, color_field@);
            let dom = str_views(cat_scale.domain@);
            let dm = (val_scale.domain_min as int, val_scale.domain_max as int);
            let w = plot.width as int;
            let h = plot.height as int;
            let colv = str_views(colors@);
            &&& items@.len() == sks.len()
            &&& forall|si: int|
                0 <= si < sks.len() ==> is_line_item(
                    #[trigger] items@[si],
                    multi_pts(rows, x_field@, y_field@, color_field@, sks[si], dom, dom.len() as int, w, dm, h),
                    spec_palette(series_color_idx(colv, sks[si]) % 10),
                )
        }),
{
    let ghost rows = data.deep_view();
    let ghost dom = str_views(cat_scale.domain@);
    let ghost dm = (val_scale.domain_min as int, val_scale.domain_max as int);
    let ghost w = plot.width as int;
    let ghost h = plot.height as int;
    let ghost colv = str_views(colors@);
    let skeys = multi_series_list(data, x_field, y_field, color_field);
    let ghost sks = multi_series_keys(rows, x_field@, y_field@, color_field@);
    let n = data.len();
    let nk = skeys.len();
    let nc = cat_scale.domain.len();
    let mut items: Vec<MarkItem> = Vec::new();
    let mut si: usize = 0;
    while si < nk
        invariant
            si <= nk,
            n == rows.len(),
            rows == data.deep_view(),
            plot.wf(),
            cat_scale.wf(),
            val_scale.wf(),
            !val_scale.clamp,
            cat_scale.range_min == 0,
            cat_scale.range_max == plot.width,
            cat_scale.padding_inner == 0,
            cat_scale.padding_outer == 0,
            val_scale.range_min == plot.height,
            val_scale.range_max == 0,
            nc == cat_scale.domain@.len(),
            str_views(skeys@) == sks,
            sks == multi_series_keys(rows, x_field@, y_field@, color_field@),
            nk == skeys@.len(),
            nk == sks.len(),
            dom == str_views(cat_scale.domain@),
            dm == (val_scale.domain_min as int, val_scale.domain_max as int),
            w == plot.width as int,
            h == plot.height as int,
            colv == str_views(colors@),
            items@.len() == si,
            forall|j: int|
                0 <= j < si ==> is_line_item(
                    #[trigger] items@[j],
                    multi_pts(rows, x_field@, y_field@, color_field@, sks[j], dom, dom.len() as int, w, dm, h),
                    spec_palette(series_color_idx(colv, sks[j]) % 10),
                ),
        decreases nk - si,
    {
        let series = &skeys[si];
        let ghost s = sks[si as int];
        proof {
            assert(series@ == s);
            lemma_index_of_views(colors@, series@);
            lemma_index_of_semantics(colors@, series@);
        }
        let cidx: usize = match crate::stack::find_string(colors, series) {
            Some(ix) => ix,
            None => 0,
        };
        let mut pts: Vec<Point> = Vec::new();
        let mut ci: usize = 0;
        while ci < nc
            invariant
                ci <= nc,
                n == rows.len(),
                rows == data.deep_view(),
                plot.wf(),
                cat_scale.wf(),
                val_scale.wf(),
                !val_scale.clamp,
                cat_scale.range_min == 0,
                cat_scale.range_max == plot.width,
                cat_scale.padding_inner == 0,
                cat_scale.padding_outer == 0,
                val_scale.range_min == plot.height,
                val_scale.range_max == 0,
                nc == cat_scale.domain@.len(),
                series@ == s,
                dom == str_views(cat_scale.domain@),
                dm == (val_scale.domain_min as int, val_scale.domain_max as int),
                w == plot.width as int,
                h == plot.height as int,
                pts@ == multi_pts(rows, x_field@, y_field@, color_field@, s, dom, ci as int, w, dm, h),
            decreases nc - ci,
        {
            let label = &cat_scale.domain[ci];
            let ghost c = dom[ci as int];
            proof {
                assert(label@ == c);
            }
            let x = vertex_x(cat_scale, label);
            let ghost p = multi_sel(x_field@, y_field@, color_field@, s, c);
            let ghost g = sel_rows(rows, p);
            let ghost base_pts = multi_pts(rows, x_field@, y_field@, color_field@, s, dom, ci as int, w, dm, h);
            let mut i: usize = 0;
            let ghost mut gi: int = 0;
            proof {
                assert(rows.take(0) =~= Seq::<Seq<GField>>::empty());
            }
            while i < n
                invariant
                    i <= n,
                    n == rows.len(),
                    rows == data.deep_view(),
                    val_scale.wf(),
                    !val_scale.clamp,
                    val_scale.range_min == plot.height,
                    val_scale.range_max == 0,
                    label@ == c,
                    series@ == s,
                    x as int == lx(dom, w, c),
                    dm == (val_scale.domain_min as int, val_scale.domain_max as int),
                    h == plot.height as int,
                    p == multi_sel(x_field@, y_field@, color_field@, s, c),
                    g == sel_rows(rows, p),
                    gi == sel_rows(rows.take(i as int), p).len(),
                    sel_rows(rows.take(i as int), p) == g.take(gi),
                    pts@.len() == base_pts.len() + gi,
                    forall|j: int| 0 <= j < base_pts.len() ==> #[trigger] pts@[j] == base_pts[j],
                    forall|j: int|
                        0 <= j < gi ==> #[trigger] pts@[base_pts.len() + j] == (Point {
                            x: lx(dom, w, c) as i64,
                            y: ly(dm, h, num_opt(g[j], y_field@).unwrap()) as i64,
                        }),
                decreases n - i,
            {
                proof {
                    assert(rows.take(i as int + 1).drop_last() =~= rows.take(i as int));
                    assert(rows.take(i as int + 1).last() == rows[i as int]);
                    assert(rows[i as int] == data@[i as int].deep_view());
                    crate::compile::lemma_sel_rows_prefix(rows, p, i as int + 1);
                }
                let xp = row_has_field(&data[i], x_field);
                let cp = row_has_field(&data[i], color_field);
                let vnum = crate::compile::row_num_opt(&data[i], y_field);
                let mut matched = false;
                let mut v: i64 = 0;
                match vnum {
                    Some(vv) => {
                        if xp && cp {
                            let skey = crate::stack::row_key(&data[i], color_field);
                            let ckey = crate::stack::row_key(&data[i], x_field);
                            if skey == *series && ckey == *label {
                                matched = true;
                                v = vv;
                            }
                        }
                    },
                    None => {},
                }
                if matched {
                    proof {
                        assert(p(rows[i as int]));
                        let q = sel_rows(rows.take(i as int + 1), p);
                        assert(q == sel_rows(rows.take(i as int), p).push(rows[i as int]));
                        assert(q == g.take(gi + 1));
                        assert(g.take(gi + 1).drop_last() =~= g.take(gi));
                        assert(g.take(gi + 1).last() == g[gi]);
                        assert(g[gi] == rows[i as int]);
                    }
                    let y = val_scale.scale(v);
                    let ghost old_pts = pts@;
                    pts.push(Point { x, y });
                    proof {
                        assert(forall|j: int|
                            0 <= j < old_pts.len() ==> #[trigger] pts@[j] == old_pts[j]);
                        assert(pts@[base_pts.len() + gi] == (Point {
                            x: lx(dom, w, c) as i64,
                            y: ly(dm, h, num_opt(g[gi], y_field@).unwrap()) as i64,
                        }));
                        gi = gi + 1;
                    }
                } else {
                    proof {
                        if p(rows[i as int]) {
                            assert(false);
                        }
                        assert(sel_rows(rows.take(i as int + 1), p) == sel_rows(
                            rows.take(i as int),
                            p,
                        ));
                    }
                }
                i = i + 1;
            }
            proof {
                assert(rows.take(n as int) =~= rows);
                assert(gi == g.len());
                let next = multi_pts(rows, x_field@, y_field@, color_field@, s, dom, ci as int + 1, w, dm, h);
                let block = pts_for_cat(rows, x_field@, y_field@, color_field@, s, c, dom, w, dm, h);
                assert(next == base_pts + block);
                assert(pts@.len() == next.len());
                assert forall|k: int| 0 <= k < pts@.len() implies pts@[k] == next[k] by {
                    if k < base_pts.len() {
                        assert(next[k] == base_pts[k]);
                    } else {
                        let j = k - base_pts.len();
                        assert(pts@[base_pts.len() + j] == (Point {
                            x: lx(dom, w, c) as i64,
                            y: ly(dm, h, num_opt(g[j], y_field@).unwrap()) as i64,
                        }));
                        assert(next[k] == block[j]);
                    }
                }
                assert(pts@ =~= next);
            }
            ci = ci + 1;
        }
        let color = palette_color(cidx);
        let ghost old_items = items@;
        items.push(
            MarkItem::new(Geometry::Line { points: pts }).with_stroke(
                Stroke::solid(color, 2 * SCALE),
            ),
        );
        proof {
            assert(series_color_idx(colv, s) == cidx as int);
            assert(forall|j: int|
                0 <= j < old_items.len() ==> #[trigger] items@[j] == old_items[j]);
            assert(is_line_item(
                items@[si as int],
                multi_pts(rows, x_field@, y_field@, color_field@, s, dom, dom.len() as int, w, dm, h),
                spec_palette((cidx % 10) as int),
            ));
        }
        si = si + 1;
    }
    items
}

/// Assemble the plot group: the optional area mark, the line mark, then
/// the marks of the bottom axis and the left axis.
fn build_line_group(
    line_items: Vec<MarkItem>,
    area_items: Vec<MarkItem>,
    cat_scale: &BandScale,
    val_scale: &LinearScale,
    encoding: &crate::encoding::Encoding,
    plot_area: &PlotArea,
) -> (r: Result<Group, CompileError>)
    requires
        plot_area.wf(),
        cat_scale.wf(),
        val_scale.wf(),
        val_scale.tick_safe(),
        !val_scale.clamp,
        cat_scale.range_min == 0,
        cat_scale.range_max == plot_area.width,
        cat_scale.padding_inner == 0,
        cat_scale.padding_outer == 0,
        val_scale.range_min == plot_area.height,
        val_scale.range_max == 0,
        forall|j: int, k: int|
            0 <= j < k < cat_scale.domain@.len() ==> #[trigger] cat_scale.domain@[j]@
                != #[trigger] cat_scale.domain@[k]@,
    ensures
        r matches Ok(g) && {
            let xt = title_count(encoding.x);
            let yt = title_count(encoding.y);
            let base: int = if area_items@.len() > 0 {
                2
            } else {
                1
            };
            &&& g.transform == (Transform {
                translate_x: plot_area.x,
                translate_y: plot_area.y,
                scale_x: SCALE as i64,
                scale_y: SCALE as i64,
                rotate: 0,
            })
            &&& g.clip is None
            &&& g.children@.len() == base + 6 + xt + yt
            &&& forall|j: int| base <= j < g.children@.len() ==> #[trigger] g.children@[j] is Mark
            &&& (area_items@.len() > 0 ==> (g.children@[0] matches SceneNode::Mark(am)
                && am.mark_type == MarkType::Area && am.items@ == area_items@))
            &&& g.children@[base - 1] matches SceneNode::Mark(lm) && lm.mark_type == MarkType::Line
                && lm.items@ == line_items@
            &&& line_axes_ok(
                g,
                *plot_area,
                base,
                xt,
                str_views(cat_scale.domain@),
                (val_scale.domain_min as int, val_scale.domain_max as int),
            )
        },
{
    let ghost glitems = line_items@;
    let ghost gaitems = area_items@;
    let ghost dom = str_views(cat_scale.domain@);
    let ghost dm = (val_scale.domain_min as int, val_scale.domain_max as int);
    let ghost plot = *plot_area;
    let mut root = Group::new().with_transform(Transform::translate(plot_area.x, plot_area.y));
    let has_area = area_items.len() > 0;
    if has_area {
        root.add_mark(Mark { mark_type: MarkType::Area, items: area_items });
    }
    root.add_mark(Mark { mark_type: MarkType::Line, items: line_items });
    let ghost base: int = if gaitems.len() > 0 {
        2
    } else {
        1
    };
    // category ticks sit at band centers; value ticks are mapped back
    // through the value scale into pixel positions
    let x_axis_ticks = crate::bar::cat_axis_ticks(cat_scale);
    let y_axis_ticks = crate::bar::value_axis_ticks(val_scale, 5);
    let x_title = channel_title(&encoding.x);
    let y_title = channel_title(&encoding.y);
    let ghost xt: int = title_count(encoding.x);
    let ghost yt: int = title_count(encoding.y);
    let mut x_marks = crate::axis::generate_axis(
        crate::encoding::AxisOrient::Bottom,
        &x_axis_ticks,
        plot_area,
        x_title,
    );
    proof {
        assert(x_marks@.len() == 3 + xt);
    }
    let ghost xm0 = x_marks@;
    while x_marks.len() > 0
        invariant
            base == 1 || base == 2,
            root.children@.len() >= base,
            root.children@.len() + x_marks@.len() == base + 3 + xt,
            xm0.len() == 3 + xt,
            x_marks@ == xm0.skip(root.children@.len() - base),
            forall|j: int|
                base <= j < root.children@.len() ==> #[trigger] root.children@[j]
                    == SceneNode::Mark(xm0[j - base]),
            root.transform == (Transform {
                translate_x: plot_area.x,
                translate_y: plot_area.y,
                scale_x: SCALE as i64,
                scale_y: SCALE as i64,
                rotate: 0,
            }),
            root.clip is None,
            base == 2 ==> (root.children@[0] matches SceneNode::Mark(am) && am.mark_type
                == MarkType::Area && am.items@ == gaitems),
            root.children@[base - 1] matches SceneNode::Mark(lm) && lm.mark_type == MarkType::Line
                && lm.items@ == glitems,
        decreases x_marks@.len(),
    {
        let ghost old_marks = x_marks@;
        let ghost c = root.children@.len() - base;
        let m = x_marks.remove(0);
        let ghost old_children = root.children@;
        root.add_mark(m);
        proof {
            assert(forall|j: int|
                0 <= j < old_children.len() ==> #[trigger] root.children@[j] == old_children[j]);
            assert(root.children@[base - 1] == old_children[base - 1]);
            if base == 2 {
                assert(root.children@[0] == old_children[0]);
            }
            assert(0 <= c && c < xm0.len());
            assert(old_marks == xm0.skip(c));
            assert(m == old_marks[0]);
            assert(old_marks[0] == xm0.skip(c)[0]);
            assert(xm0.skip(c)[0] == xm0[c]);
            assert(root.children@[old_children.len() as int] == SceneNode::Mark(m));
            assert(x_marks@ =~= xm0.skip(c + 1));
            assert forall|j: int|
                base <= j < root.children@.len() implies #[trigger] root.children@[j]
                == SceneNode::Mark(xm0[j - base]) by {
                if j - base < c {
                    assert(root.children@[j] == old_children[j]);
                } else {
                    assert(j - base == c);
                }
            }
        }
    }
    let mut y_marks = crate::axis::generate_axis(
        crate::encoding::AxisOrient::Left,
        &y_axis_ticks,
        plot_area,
        y_title,
    );
    proof {
        assert(y_marks@.len() == 3 + yt);
    }
    let ghost mid = root.children@.len();
    let ghost ym0 = y_marks@;
    while y_marks.len() > 0
        invariant
            base == 1 || base == 2,
            base + 3 <= mid == base + 3 + xt,
            root.children@.len() >= mid,
            root.children@.len() + y_marks@.len() == mid + 3 + yt,
            xm0.len() == 3 + xt,
            ym0.len() == 3 + yt,
            y_marks@ == ym0.skip(root.children@.len() - mid),
            forall|j: int|
                base <= j < mid ==> #[trigger] root.children@[j] == SceneNode::Mark(
                    xm0[j - base],
                ),
            forall|j: int|
                mid <= j < root.children@.len() ==> #[trigger] root.children@[j]
                    == SceneNode::Mark(ym0[j - mid]),
            root.transform == (Transform {
                translate_x: plot_area.x,
                translate_y: plot_area.y,
                scale_x: SCALE as i64,
                scale_y: SCALE as i64,
                rotate: 0,
            }),
            root.clip is None,
            base == 2 ==> (root.children@[0] matches SceneNode::Mark(am) && am.mark_type
                == MarkType::Area && am.items@ == gaitems),
            root.children@[base - 1] matches SceneNode::Mark(lm) && lm.mark_type == MarkType::Line
                && lm.items@ == glitems,
        decreases y_marks@.len(),
    {
        let ghost old_marks = y_marks@;
        let ghost c = root.children@.len() - mid;
        let m = y_marks.remove(0);
        let ghost old_children = root.children@;
        root.add_mark(m);
        proof {
            assert(forall|j: int|
                0 <= j < old_children.len() ==> #[trigger] root.children@[j] == old_children[j]);
            assert(root.children@[base - 1] == old_children[base - 1]);
            if base == 2 {
                assert(root.children@[0] == old_children[0]);
            }
            assert(0 <= c && c < ym0.len());
            assert(old_marks == ym0.skip(c));
            assert(m == old_marks[0]);
            assert(old_marks[0] == ym0.skip(c)[0]);
            assert(ym0.skip(c)[0] == ym0[c]);
            assert(root.children@[old_children.len() as int] == SceneNode::Mark(m));
            assert(y_marks@ =~= ym0.skip(c + 1));
            assert forall|j: int| base <= j < mid implies #[trigger] root.children@[j]
                == SceneNode::Mark(xm0[j - base]) by {
                assert(root.children@[j] == old_children[j]);
            }
            assert forall|j: int|
                mid <= j < root.children@.len() implies #[trigger] root.children@[j]
                == SceneNode::Mark(ym0[j - mid]) by {
                if j - mid < c {
                    assert(root.children@[j] == old_children[j]);
                } else {
                    assert(j - mid == c);
                }
            }
        }
    }
    proof {
        assert(root.children@.len() == base + 6 + xt + yt);
        assert(root.children@[base as int] == SceneNode::Mark(xm0[0]));
        assert(root.children@[base + 1] == SceneNode::Mark(xm0[1]));
        assert(root.children@[base + 2] == SceneNode::Mark(xm0[2]));
        assert(root.children@[mid as int] == SceneNode::Mark(ym0[0]));
        assert(root.children@[mid as int + 1] == SceneNode::Mark(ym0[1]));
        assert(root.children@[mid as int + 2] == SceneNode::Mark(ym0[2]));
        let cnt = crate::scale::spec_tick_count(dm.0, dm.1, 5);
        // bottom: category axis over the x domain
        assert(x_axis_ticks@.len() == dom.len());
        assert forall|i: int| 0 <= i < dom.len() implies crate::axis::is_axis_rule(
            #[trigger] xm0[1].items@[i],
            crate::axis::tick_rule(
                crate::encoding::AxisOrient::Bottom,
                plot,
                band_center_v(dom.len() as int, 0, plot.width as int, 0, 0, i) as i64,
            ),
        ) by {
            assert(crate::axis::is_axis_rule(
                xm0[1].items@[i],
                crate::axis::tick_rule(
                    crate::encoding::AxisOrient::Bottom,
                    plot,
                    x_axis_ticks@[i].value,
                ),
            ));
        }
        assert forall|i: int| 0 <= i < dom.len() implies crate::axis::is_tick_label_v(
            #[trigger] xm0[2].items@[i],
            crate::encoding::AxisOrient::Bottom,
            plot,
            band_center_v(dom.len() as int, 0, plot.width as int, 0, 0, i) as i64,
            dom[i],
        ) by {
            assert(crate::axis::is_tick_label(
                xm0[2].items@[i],
                crate::encoding::AxisOrient::Bottom,
                plot,
                x_axis_ticks@[i],
            ));
        }
        assert(crate::bar::cat_axis_marks_ok(
            root,
            base,
            crate::encoding::AxisOrient::Bottom,
            plot,
            dom,
            plot.width as int,
            0,
            0,
        ));
        // left: value axis with re-mapped ticks
        assert(y_axis_ticks@.len() == cnt);
        assert forall|i: int| 0 <= i < cnt implies crate::axis::is_axis_rule(
            #[trigger] ym0[1].items@[i],
            crate::axis::tick_rule(
                crate::encoding::AxisOrient::Left,
                plot,
                crate::bar::vpos(dm, false, plot, crate::bar::val_tick_value(dm, 5, i)) as i64,
            ),
        ) by {
            assert(crate::axis::is_axis_rule(
                ym0[1].items@[i],
                crate::axis::tick_rule(
                    crate::encoding::AxisOrient::Left,
                    plot,
                    y_axis_ticks@[i].value,
                ),
            ));
        }
        assert forall|i: int| 0 <= i < cnt implies crate::axis::is_tick_label_v(
            #[trigger] ym0[2].items@[i],
            crate::encoding::AxisOrient::Left,
            plot,
            crate::bar::vpos(dm, false, plot, crate::bar::val_tick_value(dm, 5, i)) as i64,
            crate::scale::format_number_chars(crate::bar::val_tick_value(dm, 5, i)),
        ) by {
            assert(crate::axis::is_tick_label(
                ym0[2].items@[i],
                crate::encoding::AxisOrient::Left,
                plot,
                y_axis_ticks@[i],
            ));
        }
        assert(crate::bar::val_axis_marks_ok(
            root,
            base + 3 + xt,
            crate::encoding::AxisOrient::Left,
            plot,
            dm,
            false,
        ));
    }
    Ok(root)
}

} // verus!
