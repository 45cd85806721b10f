//! The bar mark compiler: orientation, scales, optional stacking, and the
//! positioned rectangles, with both axes.

use vstd::prelude::*;

use crate::band::{
    band_center_v, band_start_v, band_width_v, gindex_of, lemma_band_center_fits,
    lemma_index_of_semantics, lemma_index_of_views, spec_index_of, BandScale,
};
use crate::chart::{StackConfig, StackMode};
use crate::compile::{
    cat_opt, extract_categories, extract_numbers, infer_data_type, lemma_max_num_bound,
    lemma_numbers_bounded, max_number, num_opt, row_cat_opt, row_num_opt, sel_rows, spec_domain,
    spec_infer_data_type, spec_max_num, spec_numbers, str_views, unique_strings, CompileError,
    PlotArea,
};
use crate::datum::{GField, Row};
use crate::encoding::{ChannelDef, DataType, Encoding};
use crate::linear::{linear_at, LinearScale};
use crate::mark::{Geometry, Mark, MarkItem, MarkType};
use crate::num::{abs_val, clip, div_trunc, COORD_LIMIT, MAX_ROWS, SCALE, VALUE_LIMIT};
use crate::scale::{nice_hi, nice_lo, Tick};
use crate::scene::{Group, SceneNode, Transform};
use crate::stack::{
    compute_stack, gmax_y1, gmin_y0, lemma_gminmax_bounds, lemma_minmax_match,
    lemma_rows_all_ok_field, lemma_stack_rows_bounded, max_stacked_value, min_stacked_value,
    mode_of, rows_all_ok, stack_rows, sv_matches, GStacked, StackedValue,
};
use crate::style::Color;

verus! {

/// The band padding fraction the bar compiler uses (a fifth).
pub const BAR_PADDING: i64 = 200_000;

/// The fixed ten-color palette; series indexes wrap around it.
pub open spec fn spec_palette(j: int) -> Color {
    if j == 0 {
        Color { r: 255, g: 105, b: 180, a: 255 }
    } else if j == 1 {
        Color { r: 242, g: 142, b: 43, a: 255 }
    } else if j == 2 {
        Color { r: 225, g: 87, b: 89, a: 255 }
    } else if j == 3 {
        Color { r: 118, g: 183, b: 178, a: 255 }
    } else if j == 4 {
        Color { r: 89, g: 161, b: 79, a: 255 }
    } else if j == 5 {
        Color { r: 237, g: 201, b: 73, a: 255 }
    } else if j == 6 {
        Color { r: 175, g: 122, b: 161, a: 255 }
    } else if j == 7 {
        Color { r: 255, g: 157, b: 167, a: 255 }
    } else if j == 8 {
        Color { r: 156, g: 117, b: 95, a: 255 }
    } else {
        Color { r: 186, g: 176, b: 171, a: 255 }
    }
}

/// The palette color of a series index (wrapping modulo ten).
pub fn palette_color(i: usize) -> (c: Color)
    ensures
        c == spec_palette((i % 10) as int),
{
    let j = i % 10;
    if j == 0 {
        Color::rgb(255, 105, 180)
    } else if j == 1 {
        Color::rgb(242, 142, 43)
    } else if j == 2 {
        Color::rgb(225, 87, 89)
    } else if j == 3 {
        Color::rgb(118, 183, 178)
    } else if j == 4 {
        Color::rgb(89, 161, 79)
    } else if j == 5 {
        Color::rgb(237, 201, 73)
    } else if j == 6 {
        Color::rgb(175, 122, 161)
    } else if j == 7 {
        Color::rgb(255, 157, 167)
    } else if j == 8 {
        Color::rgb(156, 117, 95)
    } else {
        Color::rgb(186, 176, 171)
    }
}

/// Horizontal bars: a quantitative `x` against a categorical `y`.
pub open spec fn spec_horizontal(xt: DataType, yt: DataType) -> bool {
    xt == DataType::Quantitative && (yt == DataType::Nominal || yt == DataType::Ordinal)
}

/// A channel's resolved type: declared, or else inferred from the rows.
pub open spec fn resolved_type(c: ChannelDef, rows: Seq<Seq<GField>>, f: Seq<char>) -> DataType {
    match c.spec_data_type() {
        Some(t) => t,
        None => spec_infer_data_type(rows, f),
    }
}

/// Whether the encoding has both positional channels with fields.
pub open spec fn bar_fields_ok(e: Encoding) -> bool {
    &&& e.x matches Some(xc) && xc.spec_field() is Some
    &&& e.y matches Some(yc) && yc.spec_field() is Some
}

/// The error a failed channel resolution owes, checked in order: a
/// missing `x` channel, a missing `y` channel, an `x` channel without a
/// field, a `y` channel without a field.
pub open spec fn fields_error_ok(e: CompileError, enc: Encoding) -> bool {
    &&& (enc.x is None ==> (e matches CompileError::MissingField(s) && s@ == "encoding.x"@))
    &&& (enc.x is Some && enc.y is None ==> (e matches CompileError::MissingField(s) && s@
        == "encoding.y"@))
    &&& (enc.x is Some && enc.y is Some && enc.x.unwrap().spec_field() is None ==> (e
        matches CompileError::InvalidEncoding(s) && s@ == "x must have a field"@))
    &&& (enc.x is Some && enc.y is Some && enc.x.unwrap().spec_field() is Some
        && enc.y.unwrap().spec_field() is None ==> (e matches CompileError::InvalidEncoding(s)
        && s@ == "y must have a field"@))
}

pub open spec fn bar_x_field(e: Encoding) -> Seq<char> {
    e.x.unwrap().spec_field().unwrap()@
}

pub open spec fn bar_y_field(e: Encoding) -> Seq<char> {
    e.y.unwrap().spec_field().unwrap()@
}

pub open spec fn bar_horizontal(e: Encoding, rows: Seq<Seq<GField>>) -> bool {
    spec_horizontal(
        resolved_type(e.x.unwrap(), rows, bar_x_field(e)),
        resolved_type(e.y.unwrap(), rows, bar_y_field(e)),
    )
}

/// The category field (the non-quantitative side).
pub open spec fn bar_cat_field(e: Encoding, rows: Seq<Seq<GField>>) -> Seq<char> {
    if bar_horizontal(e, rows) {
        bar_y_field(e)
    } else {
        bar_x_field(e)
    }
}

/// The value field (the quantitative side).
pub open spec fn bar_val_field(e: Encoding, rows: Seq<Seq<GField>>) -> Seq<char> {
    if bar_horizontal(e, rows) {
        bar_x_field(e)
    } else {
        bar_y_field(e)
    }
}

/// The color channel's field, if any.
pub open spec fn color_field_of(e: Encoding) -> Option<Seq<char>> {
    match e.color {
        Some(c) => match c.spec_field() {
            Some(f) => Some(f@),
            None => None,
        },
        None => None,
    }
}

/// Stacking is selected: a color field exists and the configuration does
/// not explicitly disable it.  An omitted configuration stacks.
pub open spec fn spec_should_stack(e: Encoding, sc: Option<&StackConfig>) -> bool {
    &&& color_field_of(e) is Some
    &&& match sc {
        Some(c) => !(*c matches StackConfig::Enabled(false)),
        None => true,
    }
}

/// The stacking mode a configuration selects (`Zero` when it only says
/// "on").
pub open spec fn spec_stack_mode(sc: Option<&StackConfig>) -> StackMode {
    match sc {
        Some(c) => match mode_of(*c) {
            Some(m) => m,
            None => StackMode::Zero,
        },
        None => StackMode::Zero,
    }
}

/// The pixel extent of the category axis.
pub open spec fn cat_extent(horiz: bool, plot: PlotArea) -> int {
    if horiz {
        plot.height as int
    } else {
        plot.width as int
    }
}

/// The pixel interval of the value axis.
pub open spec fn val_range(horiz: bool, plot: PlotArea) -> (int, int) {
    if horiz {
        (0int, plot.width as int)
    } else {
        (plot.height as int, 0int)
    }
}

/// The pixel position of a value under the value scale.
pub open spec fn vpos(dm: (int, int), horiz: bool, plot: PlotArea, v: int) -> int {
    clip(linear_at(dm.0, dm.1, val_range(horiz, plot).0, val_range(horiz, plot).1, v))
}

/// The start of a category's band (an unknown label falls back to zero).
pub open spec fn cat_pos(dom: Seq<Seq<char>>, extent: int, key: Seq<char>) -> int {
    let gi = gindex_of(dom, key);
    if gi >= 0 {
        band_start_v(dom.len() as int, 0, extent, BAR_PADDING as int, BAR_PADDING as int, gi)
    } else {
        0
    }
}

/// The width of a category band.
pub open spec fn cat_bw(dom_len: int, extent: int) -> int {
    band_width_v(dom_len, 0, extent, BAR_PADDING as int, BAR_PADDING as int)
}

/// The value-scale domain for the non-stacked paths: `[0, max]`, nice
/// rounded, zero extended.
pub open spec fn plain_domain(rows: Seq<Seq<GField>>, vf: Seq<char>) -> (int, int) {
    let mx = spec_max_num(spec_numbers(rows, vf));
    let lo = nice_lo(0, mx);
    let hi = nice_hi(0, mx);
    ((if lo > 0 {
        0int
    } else {
        lo
    }), (if hi < 0 {
        0int
    } else {
        hi
    }))
}

/// The value-scale domain for the stacked path, by mode, nice rounded.
pub open spec fn stacked_domain(mode: StackMode, gs: Seq<GStacked>) -> (int, int) {
    let raw: (int, int) = match mode {
        StackMode::Normalize => (0int, SCALE as int),
        StackMode::Center => (gmin_y0(gs), gmax_y1(gs)),
        StackMode::Zero => (0int, gmax_y1(gs)),
    };
    (nice_lo(raw.0, raw.1), nice_hi(raw.0, raw.1))
}

/// One bar rectangle: geometry, fill, full opacity, originating row.
pub open spec fn is_bar_rect(
    item: MarkItem,
    x: int,
    y: int,
    w: int,
    h: int,
    color: Color,
    row: Seq<GField>,
) -> bool {
    &&& item.geometry matches Geometry::Rect { x: gx, y: gy, width, height, corner_radius } && {
        &&& gx == x
        &&& gy == y
        &&& width == w
        &&& height == h
        &&& corner_radius == 0
    }
    &&& item.fill == Some(color)
    &&& item.stroke is None
    &&& item.opacity == SCALE
    &&& item.datum matches Some(r) && r.deep_view() == row
}

/// The selection for the simple path: rows whose category and value both
/// resolve.
pub open spec fn plain_sel(cf: Seq<char>, vf: Seq<char>) -> spec_fn(Seq<GField>) -> bool {
    |rv: Seq<GField>| cat_opt(rv, cf) is Some && num_opt(rv, vf) is Some
}

/// The selection for the grouped path: category, value, and color all
/// resolve.
pub open spec fn grouped_sel(cf: Seq<char>, vf: Seq<char>, colf: Seq<char>) -> spec_fn(
    Seq<GField>,
) -> bool {
    |rv: Seq<GField>| cat_opt(rv, cf) is Some && num_opt(rv, vf) is Some && cat_opt(rv, colf)
        is Some
}

/// One simple-path bar.
pub open spec fn simple_bar_ok(
    item: MarkItem,
    dom: Seq<Seq<char>>,
    dm: (int, int),
    horiz: bool,
    plot: PlotArea,
    rv: Seq<GField>,
    cf: Seq<char>,
    vf: Seq<char>,
) -> bool {
    &&& cat_opt(rv, cf) matches Some(cat) && num_opt(rv, vf) matches Some(v) && {
        let cpos = cat_pos(dom, cat_extent(horiz, plot), cat);
        let bw = cat_bw(dom.len() as int, cat_extent(horiz, plot));
        if horiz {
            is_bar_rect(item, 0, cpos, vpos(dm, horiz, plot, v), bw, spec_palette(0), rv)
        } else {
            let y = vpos(dm, horiz, plot, v);
            is_bar_rect(item, cpos, y, bw, plot.height - y, spec_palette(0), rv)
        }
    }
}

/// The sub-band width of one series in the grouped path.
pub open spec fn grouped_nbw(bw: int, ncolors: int) -> int {
    if ncolors == 0 {
        0
    } else {
        div_trunc(bw, ncolors)
    }
}

/// One grouped-path bar.
pub open spec fn grouped_bar_ok(
    item: MarkItem,
    dom: Seq<Seq<char>>,
    colors: Seq<Seq<char>>,
    dm: (int, int),
    horiz: bool,
    plot: PlotArea,
    rv: Seq<GField>,
    cf: Seq<char>,
    vf: Seq<char>,
    colf: Seq<char>,
) -> bool {
    &&& cat_opt(rv, cf) matches Some(cat) && num_opt(rv, vf) matches Some(v) && cat_opt(
        rv,
        colf,
    ) matches Some(cv) && {
        let cpos = cat_pos(dom, cat_extent(horiz, plot), cat);
        let bw = cat_bw(dom.len() as int, cat_extent(horiz, plot));
        let gi = gindex_of(colors, cv);
        let ci: int = if gi >= 0 {
            gi
        } else {
            0
        };
        let nbw = grouped_nbw(bw, colors.len() as int);
        let shrink = div_trunc(nbw * 9, 10);
        let color = spec_palette(ci % 10);
        if horiz {
            is_bar_rect(item, 0, cpos + ci * nbw, vpos(dm, horiz, plot, v), shrink, color, rv)
        } else {
            let y = vpos(dm, horiz, plot, v);
            is_bar_rect(item, cpos + ci * nbw, y, shrink, plot.height - y, color, rv)
        }
    }
}

/// One stacked-path bar segment.
pub open spec fn stacked_bar_ok(
    item: MarkItem,
    dom: Seq<Seq<char>>,
    colors: Seq<Seq<char>>,
    dm: (int, int),
    horiz: bool,
    plot: PlotArea,
    g: GStacked,
) -> bool {
    let cpos = cat_pos(dom, cat_extent(horiz, plot), g.cat);
    let bw = cat_bw(dom.len() as int, cat_extent(horiz, plot));
    let gi = gindex_of(colors, g.series);
    let ci: int = if gi >= 0 {
        gi
    } else {
        0
    };
    let color = spec_palette(ci % 10);
    if horiz {
        let xa = vpos(dm, horiz, plot, g.y0);
        let xb = vpos(dm, horiz, plot, g.y1);
        is_bar_rect(item, xa, cpos, xb - xa, bw, color, g.row)
    } else {
        let ya = vpos(dm, horiz, plot, g.y0);
        let yb = vpos(dm, horiz, plot, g.y1);
        is_bar_rect(item, cpos, yb, bw, ya - yb, color, g.row)
    }
}

/// Whether a channel declares an axis title.
pub open spec fn has_title(c: ChannelDef) -> bool {
    c.spec_axis() matches Some(a) && a.title is Some
}

/// One extra axis mark when the channel has a title.
pub open spec fn title_count(c: Option<ChannelDef>) -> int {
    if c matches Some(cd) && has_title(cd) {
        1
    } else {
        0
    }
}

/// The bar items the compiler owes, per path.
pub open spec fn bar_items_ok(
    items: Seq<MarkItem>,
    e: Encoding,
    rows: Seq<Seq<GField>>,
    plot: PlotArea,
    sc: Option<&StackConfig>,
) -> bool {
    let horiz = bar_horizontal(e, rows);
    let cf = bar_cat_field(e, rows);
    let vf = bar_val_field(e, rows);
    let dom = spec_domain(rows, cf);
    match color_field_of(e) {
        Some(colf) => {
            let colors = spec_domain(rows, colf);
            if spec_should_stack(e, sc) {
                let mode = spec_stack_mode(sc);
                let gs = stack_rows(rows, cf, vf, colf, mode);
                let dm = stacked_domain(mode, gs);
                &&& items.len() == gs.len()
                &&& forall|k: int|
                    0 <= k < gs.len() ==> stacked_bar_ok(
                        #[trigger] items[k],
                        dom,
                        colors,
                        dm,
                        horiz,
                        plot,
                        gs[k],
                    )
            } else {
                let sel = sel_rows(rows, grouped_sel(cf, vf, colf));
                let dm = plain_domain(rows, vf);
                &&& items.len() == sel.len()
                &&& forall|k: int|
                    0 <= k < sel.len() ==> grouped_bar_ok(
                        #[trigger] items[k],
                        dom,
                        colors,
                        dm,
                        horiz,
                        plot,
                        sel[k],
                        cf,
                        vf,
                        colf,
                    )
            }
        },
        None => {
            let sel = sel_rows(rows, plain_sel(cf, vf));
            let dm = plain_domain(rows, vf);
            &&& items.len() == sel.len()
            &&& forall|k: int|
                0 <= k < sel.len() ==> simple_bar_ok(
                    #[trigger] items[k],
                    dom,
                    dm,
                    horiz,
                    plot,
                    sel[k],
                    cf,
                    vf,
                )
        },
    }
}

/// Build the rectangles of the simple (uncolored) path: one bar per row
/// whose category and value both resolve, spanning the whole band.
fn bar_items_simple(
    data: &Vec<Row>,
    cat_field: &String,
    val_field: &String,
    cat_scale: &BandScale,
    val_scale: &LinearScale,
    horiz: bool,
    plot: &PlotArea,
) -> (items: Vec<MarkItem>)
    requires
        plot.wf(),
        cat_scale.wf(),
        val_scale.wf(),
        !val_scale.clamp,
        cat_scale.range_min == 0,
        cat_scale.range_max as int == cat_extent(horiz, *plot),
        cat_scale.padding_inner == BAR_PADDING,
        cat_scale.padding_outer == BAR_PADDING,
        val_scale.range_min as int == val_range(horiz, *plot).0,
        val_scale.range_max as int == val_range(horiz, *plot).1,
    ensures
        ({
            let rows = data.deep_view();
            let sel = sel_rows(rows, plain_sel(cat_field@, val_field@));
            let dom = str_views(cat_scale.domain@);
            let dm = (val_scale.domain_min as int, val_scale.domain_max as int);
            &&& items@.len() == sel.len()
            &&& forall|k: int|
                0 <= k < sel.len() ==> simple_bar_ok(
                    #[trigger] items@[k],
                    dom,
                    dm,
                    horiz,
                    *plot,
                    sel[k],
                    cat_field@,
                    val_field@,
                )
        }),
{
    let ghost rows = data.deep_view();
    let ghost p = plain_sel(cat_field@, val_field@);
    let ghost sel = sel_rows(rows, p);
    let ghost dom = str_views(cat_scale.domain@);
    let ghost dm = (val_scale.domain_min as int, val_scale.domain_max as int);
    let n = data.len();
    let mut items: Vec<MarkItem> = Vec::new();
    let mut i: usize = 0;
    proof {
        assert(rows.take(0) =~= Seq::<Seq<GField>>::empty());
    }
    while i < n
        invariant
            i <= n,
            n == rows.len(),
            rows == data.deep_view(),
            plot.wf(),
            cat_scale.wf(),
            val_scale.wf(),
            !val_scale.clamp,
            cat_scale.range_min == 0,
            cat_scale.range_max as int == cat_extent(horiz, *plot),
            cat_scale.padding_inner == BAR_PADDING,
            cat_scale.padding_outer == BAR_PADDING,
            val_scale.range_min as int == val_range(horiz, *plot).0,
            val_scale.range_max as int == val_range(horiz, *plot).1,
            p == plain_sel(cat_field@, val_field@),
            sel == sel_rows(rows, p),
            dom == str_views(cat_scale.domain@),
            dm == (val_scale.domain_min as int, val_scale.domain_max as int),
            items@.len() == sel_rows(rows.take(i as int), p).len(),
            sel_rows(rows.take(i as int), p) == sel.take(items@.len() as int),
            forall|k: int|
                0 <= k < items@.len() ==> simple_bar_ok(
                    #[trigger] items@[k],
                    dom,
                    dm,
                    horiz,
                    *plot,
                    sel[k],
                    cat_field@,
                    val_field@,
                ),
        decreases n - i,
    {
        let ghost pre = sel_rows(rows.take(i as int), p);
        proof {
            assert(rows.take(i as int + 1).drop_last() =~= rows.take(i as int));
            assert(rows.take(i as int + 1).last() == rows[i as int]);
            assert(rows[i as int] == data@[i as int].deep_view());
            crate::compile::lemma_sel_rows_prefix(rows, p, i as int + 1);
        }
        let cat = row_cat_opt(&data[i], cat_field);
        let val = row_num_opt(&data[i], val_field);
        match (cat, val) {
            (Some(cat), Some(val)) => {
                proof {
                    assert(p(rows[i as int]));
                    let q = sel_rows(rows.take(i as int + 1), p);
                    assert(q == pre.push(rows[i as int]));
                    assert(q.len() == pre.len() + 1);
                    assert(q == sel.take(pre.len() as int + 1));
                    assert(pre.len() + 1 <= sel.len());
                    assert(q[pre.len() as int] == rows[i as int]);
                    assert(sel.take(pre.len() as int + 1)[pre.len() as int] == sel[pre.len() as int]);
                    assert(sel[pre.len() as int] == rows[i as int]);
                    lemma_index_of_views(cat_scale.domain@, cat@);
                }
                let pos = match cat_scale.scale(&cat) {
                    Some(pc) => pc,
                    None => 0,
                };
                proof {
                    assert(pos as int == cat_pos(dom, cat_extent(horiz, *plot), cat@));
                }
                let bw = cat_scale.bandwidth();
                let vp = val_scale.scale(val);
                let ghost old_items = items@;
                let item = if horiz {
                    MarkItem::new(
                        Geometry::Rect { x: 0, y: pos, width: vp, height: bw, corner_radius: 0 },
                    )
                } else {
                    MarkItem::new(
                        Geometry::Rect {
                            x: pos,
                            y: vp,
                            width: bw,
                            height: plot.height - vp,
                            corner_radius: 0,
                        },
                    )
                };
                let item = item.with_fill(palette_color(0)).with_datum(data[i].clone());
                items.push(item);
                proof {
                    assert(simple_bar_ok(
                        item,
                        dom,
                        dm,
                        horiz,
                        *plot,
                        sel[old_items.len() as int],
                        cat_field@,
                        val_field@,
                    ));
                    assert(forall|k: int|
                        0 <= k < old_items.len() ==> #[trigger] items@[k] == old_items[k]);
                    assert(items@[old_items.len() as int] == item);
                }
            },
            _ => {
                proof {
                    assert(!p(rows[i as int]));
                    assert(sel_rows(rows.take(i as int + 1), p) == pre);
                }
            },
        }
        i = i + 1;
    }
    proof {
        assert(rows.take(n as int) =~= rows);
        assert(sel.take(sel.len() as int) =~= sel);
    }
    items
}

/// Build the rectangles of the grouped path: each category's band split
/// into one sub-band per series, with a tenth shaved off for gaps.
fn bar_items_grouped(
    data: &Vec<Row>,
    cat_field: &String,
    val_field: &String,
    color_field: &String,
    colors: &Vec<String>,
    cat_scale: &BandScale,
    val_scale: &LinearScale,
    horiz: bool,
    plot: &PlotArea,
) -> (items: Vec<MarkItem>)
    requires
        plot.wf(),
        cat_scale.wf(),
        val_scale.wf(),
        !val_scale.clamp,
        cat_scale.range_min == 0,
        cat_scale.range_max as int == cat_extent(horiz, *plot),
        cat_scale.padding_inner == BAR_PADDING,
        cat_scale.padding_outer == BAR_PADDING,
        val_scale.range_min as int == val_range(horiz, *plot).0,
        val_scale.range_max as int == val_range(horiz, *plot).1,
        colors@.len() <= MAX_ROWS,
    ensures
        ({
            let rows = data.deep_view();
            let sel = sel_rows(rows, grouped_sel(cat_field@, val_field@, color_field@));
            let dom = str_views(cat_scale.domain@);
            let dm = (val_scale.domain_min as int, val_scale.domain_max as int);
            &&& items@.len() == sel.len()
            &&& forall|k: int|
                0 <= k < sel.len() ==> grouped_bar_ok(
                    #[trigger] items@[k],
                    dom,
                    str_views(colors@),
                    dm,
                    horiz,
                    *plot,
                    sel[k],
                    cat_field@,
                    val_field@,
                    color_field@,
                )
        }),
{
    let ghost rows = data.deep_view();
    let ghost p = grouped_sel(cat_field@, val_field@, color_field@);
    let ghost sel = sel_rows(rows, p);
    let ghost dom = str_views(cat_scale.domain@);
    let ghost gcolors = str_views(colors@);
    let ghost dm = (val_scale.domain_min as int, val_scale.domain_max as int);
    let bw = cat_scale.bandwidth();
    let ncolors = colors.len();
    let nbw: i64 = if ncolors == 0 {
        0
    } else {
        ((bw as u64) / (ncolors as u64)) as i64
    };
    proof {
        assert(nbw as int == grouped_nbw(bw as int, gcolors.len() as int));
        assert(0 <= nbw <= bw);
    }
    let shrink128: i128 = crate::num::div_trunc_i128((nbw as i128) * 9, 10);
    proof {
        assert(abs_val(nbw as int * 9) <= nbw as int * 10) by (nonlinear_arith)
            requires
                nbw >= 0,
        ;
        crate::num::lemma_div_trunc_bounded(nbw as int * 9, 10, nbw as int);
        assert(abs_val(nbw as int * 9) / abs_val(10int) >= 0);
    }
    let shrink: i64 = shrink128 as i64;
    proof {
        assert(shrink as int == div_trunc(nbw as int * 9, 10));
    }
    let n = data.len();
    let mut items: Vec<MarkItem> = Vec::new();
    let mut i: usize = 0;
    proof {
        assert(rows.take(0) =~= Seq::<Seq<GField>>::empty());
    }
    while i < n
        invariant
            i <= n,
            n == rows.len(),
            rows == data.deep_view(),
            plot.wf(),
            cat_scale.wf(),
            val_scale.wf(),
            !val_scale.clamp,
            cat_scale.range_min == 0,
            cat_scale.range_max as int == cat_extent(horiz, *plot),
            cat_scale.padding_inner == BAR_PADDING,
            cat_scale.padding_outer == BAR_PADDING,
            val_scale.range_min as int == val_range(horiz, *plot).0,
            val_scale.range_max as int == val_range(horiz, *plot).1,
            p == grouped_sel(cat_field@, val_field@, color_field@),
            sel == sel_rows(rows, p),
            dom == str_views(cat_scale.domain@),
            gcolors == str_views(colors@),
            gcolors.len() == colors@.len(),
            ncolors == colors@.len(),
            ncolors <= MAX_ROWS,
            dm == (val_scale.domain_min as int, val_scale.domain_max as int),
            0 <= nbw <= bw,
            bw == cat_scale.bandwidth_of(),
            nbw as int == grouped_nbw(bw as int, gcolors.len() as int),
            shrink as int == div_trunc(nbw as int * 9, 10),
            items@.len() == sel_rows(rows.take(i as int), p).len(),
            sel_rows(rows.take(i as int), p) == sel.take(items@.len() as int),
            forall|k: int|
                0 <= k < items@.len() ==> grouped_bar_ok(
                    #[trigger] items@[k],
                    dom,
                    gcolors,
                    dm,
                    horiz,
                    *plot,
                    sel[k],
                    cat_field@,
                    val_field@,
                    color_field@,
                ),
        decreases n - i,
    {
        let ghost pre = sel_rows(rows.take(i as int), p);
        proof {
            assert(rows.take(i as int + 1).drop_last() =~= rows.take(i as int));
            assert(rows.take(i as int + 1).last() == rows[i as int]);
            assert(rows[i as int] == data@[i as int].deep_view());
            crate::compile::lemma_sel_rows_prefix(rows, p, i as int + 1);
        }
        let cat = row_cat_opt(&data[i], cat_field);
        let val = row_num_opt(&data[i], val_field);
        let cv = row_cat_opt(&data[i], color_field);
        match (cat, val, cv) {
            (Some(cat), Some(val), Some(cv)) => {
                proof {
                    assert(p(rows[i as int]));
                    let q = sel_rows(rows.take(i as int + 1), p);
                    assert(q == pre.push(rows[i as int]));
                    assert(q.len() == pre.len() + 1);
                    assert(q == sel.take(pre.len() as int + 1));
                    assert(pre.len() + 1 <= sel.len());
                    assert(q[pre.len() as int] == rows[i as int]);
                    assert(sel.take(pre.len() as int + 1)[pre.len() as int] == sel[pre.len() as int]);
                    assert(sel[pre.len() as int] == rows[i as int]);
                    lemma_index_of_views(cat_scale.domain@, cat@);
                    lemma_index_of_views(colors@, cv@);
                    lemma_index_of_semantics(colors@, cv@);
                }
                let pos = match cat_scale.scale(&cat) {
                    Some(pc) => pc,
                    None => 0,
                };
                let cidx: usize = match crate::stack::find_string(colors, &cv) {
                    Some(ix) => ix,
                    None => 0,
                };
                proof {
                    assert(cidx < ncolors || cidx == 0);
                    assert(ncolors > 0 ==> (ncolors as int) * (nbw as int) <= bw as int) by {
                        if ncolors > 0 {
                            assert(nbw as int == (bw as int) / (ncolors as int));
                            vstd::arithmetic::div_mod::lemma_fundamental_div_mod(
                                bw as int,
                                ncolors as int,
                            );
                            vstd::arithmetic::div_mod::lemma_mod_division_less_than_divisor(
                                bw as int,
                                ncolors as int,
                            );
                            assert((ncolors as int) * ((bw as int) / (ncolors as int)) <= bw as int);
                        }
                    }
                    assert((cidx as int) * (nbw as int) <= bw as int) by (nonlinear_arith)
                        requires
                            0 <= nbw,
                            0 <= bw,
                            ncolors >= 0,
                            cidx < ncolors || cidx == 0,
                            ncolors > 0 ==> (ncolors as int) * (nbw as int) <= bw as int,
                    ;
                    assert(0 <= (cidx as int) * (nbw as int)) by (nonlinear_arith)
                        requires
                            0 <= nbw,
                            0 <= cidx,
                    ;
                    assert(abs_val(pos as int) <= COORD_LIMIT);
                    assert(bw <= COORD_LIMIT) by {
                        crate::band::lemma_band_center_fits(*cat_scale, 0);
                    }
                }
                let offset: i64 = (cidx as i64) * nbw;
                let xpos: i64 = pos + offset;
                let vp = val_scale.scale(val);
                let ghost old_items = items@;
                let item = if horiz {
                    MarkItem::new(
                        Geometry::Rect {
                            x: 0,
                            y: xpos,
                            width: vp,
                            height: shrink,
                            corner_radius: 0,
                        },
                    )
                } else {
                    MarkItem::new(
                        Geometry::Rect {
                            x: xpos,
                            y: vp,
                            width: shrink,
                            height: plot.height - vp,
                            corner_radius: 0,
                        },
                    )
                };
                let item = item.with_fill(palette_color(cidx)).with_datum(data[i].clone());
                items.push(item);
                proof {
                    let gi = gindex_of(gcolors, cv@);
                    let ci: int = if gi >= 0 {
                        gi
                    } else {
                        0
                    };
                    assert(ci == cidx as int);
                    assert((cidx % 10) as int == ci % 10);
                    assert(grouped_bar_ok(
                        item,
                        dom,
                        gcolors,
                        dm,
                        horiz,
                        *plot,
                        sel[old_items.len() as int],
                        cat_field@,
                        val_field@,
                        color_field@,
                    ));
                    assert(forall|k: int|
                        0 <= k < old_items.len() ==> #[trigger] items@[k] == old_items[k]);
                    assert(items@[old_items.len() as int] == item);
                }
            },
            _ => {
                proof {
                    assert(!p(rows[i as int]));
                    assert(sel_rows(rows.take(i as int + 1), p) == pre);
                }
            },
        }
        i = i + 1;
    }
    proof {
        assert(rows.take(n as int) =~= rows);
        assert(sel.take(sel.len() as int) =~= sel);
    }
    items
}

/// Build the rectangles of the stacked path: one segment per stacked row,
/// sized by its baseline/top pair under the value scale.
fn bar_items_stacked(
    stacked: &Vec<StackedValue>,
    Ghost(gs): Ghost<Seq<GStacked>>,
    colors: &Vec<String>,
    cat_scale: &BandScale,
    val_scale: &LinearScale,
    horiz: bool,
    plot: &PlotArea,
) -> (items: Vec<MarkItem>)
    requires
        plot.wf(),
        cat_scale.wf(),
        val_scale.wf(),
        !val_scale.clamp,
        cat_scale.range_min == 0,
        cat_scale.range_max as int == cat_extent(horiz, *plot),
        cat_scale.padding_inner == BAR_PADDING,
        cat_scale.padding_outer == BAR_PADDING,
        val_scale.range_min as int == val_range(horiz, *plot).0,
        val_scale.range_max as int == val_range(horiz, *plot).1,
        stacked@.len() == gs.len(),
        colors@.len() <= MAX_ROWS,
        forall|k: int| 0 <= k < gs.len() ==> sv_matches(#[trigger] stacked@[k], gs[k]),
    ensures
        items@.len() == gs.len(),
        forall|k: int|
            0 <= k < gs.len() ==> stacked_bar_ok(
                #[trigger] items@[k],
                str_views(cat_scale.domain@),
                str_views(colors@),
                (val_scale.domain_min as int, val_scale.domain_max as int),
                horiz,
                *plot,
                gs[k],
            ),
{
    let ghost dom = str_views(cat_scale.domain@);
    let ghost gcolors = str_views(colors@);
    let ghost dm = (val_scale.domain_min as int, val_scale.domain_max as int);
    let n = stacked.len();
    let mut items: Vec<MarkItem> = Vec::new();
    let mut i: usize = 0;
    while i < n
        invariant
            i <= n,
            n == stacked@.len(),
            n == gs.len(),
            plot.wf(),
            cat_scale.wf(),
            val_scale.wf(),
            !val_scale.clamp,
            cat_scale.range_min == 0,
            cat_scale.range_max as int == cat_extent(horiz, *plot),
            cat_scale.padding_inner == BAR_PADDING,
            cat_scale.padding_outer == BAR_PADDING,
            val_scale.range_min as int == val_range(horiz, *plot).0,
            val_scale.range_max as int == val_range(horiz, *plot).1,
            dom == str_views(cat_scale.domain@),
            gcolors == str_views(colors@),
            dm == (val_scale.domain_min as int, val_scale.domain_max as int),
            forall|k: int| 0 <= k < gs.len() ==> sv_matches(#[trigger] stacked@[k], gs[k]),
            items@.len() == i,
            forall|k: int|
                0 <= k < i ==> stacked_bar_ok(
                    #[trigger] items@[k],
                    dom,
                    gcolors,
                    dm,
                    horiz,
                    *plot,
                    gs[k],
                ),
        decreases n - i,
    {
        proof {
            assert(sv_matches(stacked@[i as int], gs[i as int]));
            lemma_index_of_views(cat_scale.domain@, stacked@[i as int].category@);
            lemma_index_of_views(colors@, stacked@[i as int].series@);
            lemma_index_of_semantics(colors@, stacked@[i as int].series@);
        }
        let sv = &stacked[i];
        let pos = match cat_scale.scale(&sv.category) {
            Some(pc) => pc,
            None => 0,
        };
        let cidx: usize = match crate::stack::find_string(colors, &sv.series) {
            Some(ix) => ix,
            None => 0,
        };
        let bw = cat_scale.bandwidth();
        let a = val_scale.scale(sv.y0);
        let b = val_scale.scale(sv.y1);
        let ghost old_items = items@;
        let item = if horiz {
            MarkItem::new(
                Geometry::Rect { x: a, y: pos, width: b - a, height: bw, corner_radius: 0 },
            )
        } else {
            MarkItem::new(
                Geometry::Rect { x: pos, y: b, width: bw, height: a - b, corner_radius: 0 },
            )
        };
        let item = item.with_fill(palette_color(cidx)).with_datum(sv.row.clone());
        items.push(item);
        proof {
            let gi = gindex_of(gcolors, gs[i as int].series);
            let ci: int = if gi >= 0 {
                gi
            } else {
                0
            };
            assert(ci == cidx as int);
            assert((cidx % 10) as int == ci % 10);
            assert(stacked_bar_ok(item, dom, gcolors, dm, horiz, *plot, gs[i as int]));
            assert(forall|k: int|
                0 <= k < old_items.len() ==> #[trigger] items@[k] == old_items[k]);
            assert(items@[old_items.len() as int] == item);
        }
        i = i + 1;
    }
    items
}

/// The value-scale domain the bar compiler uses, per path.
pub open spec fn bar_val_domain(
    e: Encoding,
    rows: Seq<Seq<GField>>,
    sc: Option<&StackConfig>,
) -> (int, int) {
    let cf = bar_cat_field(e, rows);
    let vf = bar_val_field(e, rows);
    match color_field_of(e) {
        Some(colf) => if spec_should_stack(e, sc) {
            stacked_domain(spec_stack_mode(sc), stack_rows(rows, cf, vf, colf, spec_stack_mode(sc)))
        } else {
            plain_domain(rows, vf)
        },
        None => plain_domain(rows, vf),
    }
}

/// The group a successful bar compile owes: the translated plot group
/// holding the bar rectangles first, then the marks of the bottom axis
/// and the left axis (category bands on the categorical side, re-mapped
/// nice ticks on the value side).
pub open spec fn bar_group_ok(
    g: Group,
    e: Encoding,
    rows: Seq<Seq<GField>>,
    plot: PlotArea,
    sc: Option<&StackConfig>,
) -> bool {
    let xt = title_count(e.x);
    let yt = title_count(e.y);
    let horiz = bar_horizontal(e, rows);
    let dom = spec_domain(rows, bar_cat_field(e, rows));
    let dm = bar_val_domain(e, rows, sc);
    &&& g.transform == (Transform {
        translate_x: plot.x,
        translate_y: plot.y,
        scale_x: SCALE as i64,
        scale_y: SCALE as i64,
        rotate: 0,
    })
    &&& g.clip is None
    &&& g.children@.len() == 7 + xt + yt
    &&& forall|j: int| 1 <= j < g.children@.len() ==> #[trigger] g.children@[j] is Mark
    &&& g.children@[0] matches SceneNode::Mark(m) && m.mark_type == MarkType::Rect
        && bar_items_ok(m.items@, e, rows, plot, sc)
    &&& (horiz ==> val_axis_marks_ok(
        g,
        1,
        crate::encoding::AxisOrient::Bottom,
        plot,
        dm,
        true,
    ) && cat_axis_marks_ok(
        g,
        4 + xt,
        crate::encoding::AxisOrient::Left,
        plot,
        dom,
        plot.height as int,
        BAR_PADDING as int,
        BAR_PADDING as int,
    ))
    &&& (!horiz ==> cat_axis_marks_ok(
        g,
        1,
        crate::encoding::AxisOrient::Bottom,
        plot,
        dom,
        plot.width as int,
        BAR_PADDING as int,
        BAR_PADDING as int,
    ) && val_axis_marks_ok(g, 4 + xt, crate::encoding::AxisOrient::Left, plot, dm, false))
}

/// Compile a bar chart: resolve the positional channels, pick the
/// orientation, build the category and value scales, optionally run the
/// stack engine, and emit one rectangle per datum (or per stacked
/// segment), followed by both axes.
///
/// Fails exactly when a positional channel is absent or carries no field;
/// every other input compiles.
pub fn compile_bar(
    encoding: &Encoding,
    data: &Vec<Row>,
    plot_area: &PlotArea,
    stack_config: Option<&StackConfig>,
) -> (r: Result<Group, CompileError>)
    requires
        plot_area.wf(),
        rows_all_ok(data.deep_view()),
    ensures
        ({
            let rows = data.deep_view();
            match r {
                Err(e) => !bar_fields_ok(*encoding) && fields_error_ok(e, *encoding),
                Ok(g) => bar_fields_ok(*encoding) && bar_group_ok(
                    g,
                    *encoding,
                    rows,
                    *plot_area,
                    stack_config,
                ),
            }
        }),
{
    let ghost rows = data.deep_view();
    let x_channel = match &encoding.x {
        Some(c) => c,
        None => {
            return Err(CompileError::MissingField(String::from_str("encoding.x")));
        },
    };
    let y_channel = match &encoding.y {
        Some(c) => c,
        None => {
            return Err(CompileError::MissingField(String::from_str("encoding.y")));
        },
    };
    let x_field = match x_channel.field() {
        Some(f) => f,
        None => {
            return Err(CompileError::InvalidEncoding(String::from_str("x must have a field")));
        },
    };
    let y_field = match y_channel.field() {
        Some(f) => f,
        None => {
            return Err(CompileError::InvalidEncoding(String::from_str("y must have a field")));
        },
    };
    let x_type = match x_channel.data_type() {
        Some(t) => t,
        None => infer_data_type(data, x_field),
    };
    let y_type = match y_channel.data_type() {
        Some(t) => t,
        None => infer_data_type(data, y_field),
    };
    let is_horizontal = matches!(x_type, DataType::Quantitative) && matches!(
        y_type,
        DataType::Nominal | DataType::Ordinal,
    );
    proof {
        assert(x_field@ == bar_x_field(*encoding));
        assert(y_field@ == bar_y_field(*encoding));
        assert(is_horizontal == bar_horizontal(*encoding, rows));
    }
    let (cat_field, val_field) = if is_horizontal {
        (y_field, x_field)
    } else {
        (x_field, y_field)
    };
    proof {
        assert(cat_field@ == bar_cat_field(*encoding, rows));
        assert(val_field@ == bar_val_field(*encoding, rows));
        crate::compile::lemma_categories_len(rows, cat_field@);
    }
    let categories = extract_categories(data, cat_field);
    let unique_categories = unique_strings(&categories);
    proof {
        assert(str_views(unique_categories@) == spec_domain(rows, cat_field@));
        assert(unique_categories@.len() == str_views(unique_categories@).len());
        assert(unique_categories@.len() <= rows.len());
    }
    let extent = if is_horizontal {
        plot_area.height
    } else {
        plot_area.width
    };
    let cat_scale = BandScale::new(unique_categories, (0, extent)).padding(BAR_PADDING);
    proof {
        assert(cat_scale.wf());
        assert(cat_scale.range_max as int == cat_extent(is_horizontal, *plot_area));
        crate::compile::lemma_dedup_distinct(
            crate::compile::spec_categories(rows, cat_field@),
        );
        assert forall|j: int, k: int|
            0 <= j < k < cat_scale.domain@.len() implies #[trigger] cat_scale.domain@[j]@
            != #[trigger] cat_scale.domain@[k]@ by {
            let dv = str_views(cat_scale.domain@);
            assert(dv[j] == cat_scale.domain@[j]@ && dv[k] == cat_scale.domain@[k]@);
            assert(dv[j] != dv[k]);
        }
    }
    let vr = if is_horizontal {
        (0, plot_area.width)
    } else {
        (plot_area.height, 0)
    };
    let color_field_opt: Option<&String> = match &encoding.color {
        Some(c) => c.field(),
        None => None,
    };
    let should_stack = color_field_opt.is_some() && match stack_config {
        Some(StackConfig::Enabled(false)) => false,
        Some(_) => true,
        None => true,
    };
    proof {
        assert(should_stack == spec_should_stack(*encoding, stack_config));
    }
    match color_field_opt {
        Some(color_field) => {
            let color_values = extract_categories(data, color_field);
            let unique_colors = unique_strings(&color_values);
            proof {
                assert(str_views(unique_colors@) == spec_domain(rows, color_field@));
                crate::compile::lemma_categories_len(rows, color_field@);
                assert(unique_colors@.len() <= rows.len());
            }
            if should_stack {
                let stack_cfg: StackConfig = match stack_config {
                    Some(StackConfig::Enabled(b)) => StackConfig::Enabled(*b),
                    Some(StackConfig::Mode(m)) => StackConfig::Mode(*m),
                    None => StackConfig::Enabled(true),
                };
                let ghost mode = spec_stack_mode(stack_config);
                proof {
                    lemma_rows_all_ok_field(rows, val_field@);
                    assert(mode_of(stack_cfg) == Some(mode));
                }
                let stacked = compute_stack(
                    data,
                    cat_field,
                    val_field,
                    color_field,
                    &stack_cfg,
                );
                let ghost gs = stack_rows(rows, cat_field@, val_field@, color_field@, mode);
                let max_val = max_stacked_value(&stacked);
                let min_val = min_stacked_value(&stacked);
                proof {
                    lemma_minmax_match(stacked@, gs);
                    lemma_stack_rows_bounded(rows, cat_field@, val_field@, color_field@, mode);
                    lemma_gminmax_bounds(gs, COORD_LIMIT as int);
                    if mode != StackMode::Normalize {
                        lemma_gminmax_bounds(gs, 2_000_000_000_000_000_000);
                    }
                }
                let (domain_min, domain_max) = match &stack_cfg {
                    StackConfig::Mode(StackMode::Normalize) => (0, SCALE),
                    StackConfig::Mode(StackMode::Center) => (min_val, max_val),
                    _ => (0, max_val),
                };
                let val_scale = LinearScale::new((domain_min, domain_max), vr).nice();
                proof {
                    assert((val_scale.domain_min as int, val_scale.domain_max as int)
                        == stacked_domain(mode, gs));
                    assert(val_scale.tick_safe());
                }
                let bar_items = bar_items_stacked(
                    &stacked,
                    Ghost(gs),
                    &unique_colors,
                    &cat_scale,
                    &val_scale,
                    is_horizontal,
                    plot_area,
                );
                let result = build_bar_group(
                    bar_items,
                    &cat_scale,
                    &val_scale,
                    encoding,
                    plot_area,
                    is_horizontal,
                );
                return result;
            } else {
                proof {
                    lemma_numbers_bounded(rows, val_field@);
                    lemma_max_num_bound(spec_numbers(rows, val_field@), VALUE_LIMIT as int);
                }
                let values = extract_numbers(data, val_field);
                let max_value = max_number(&values);
                let val_scale = LinearScale::new((0, max_value), vr).nice().zero();
                proof {
                    assert((val_scale.domain_min as int, val_scale.domain_max as int)
                        == plain_domain(rows, val_field@));
                    assert(val_scale.tick_safe());
                }
                let bar_items = bar_items_grouped(
                    data,
                    cat_field,
                    val_field,
                    color_field,
                    &unique_colors,
                    &cat_scale,
                    &val_scale,
                    is_horizontal,
                    plot_area,
                );
                let result = build_bar_group(
                    bar_items,
                    &cat_scale,
                    &val_scale,
                    encoding,
                    plot_area,
                    is_horizontal,
                );
                return result;
            }
        },
        None => {},
    }
    // simple bars: no color channel
    proof {
        lemma_numbers_bounded(rows, val_field@);
        lemma_max_num_bound(spec_numbers(rows, val_field@), VALUE_LIMIT as int);
    }
    let values = extract_numbers(data, val_field);
    let max_value = max_number(&values);
    let val_scale = LinearScale::new((0, max_value), vr).nice().zero();
    proof {
        assert((val_scale.domain_min as int, val_scale.domain_max as int) == plain_domain(
            rows,
            val_field@,
        ));
        assert(val_scale.tick_safe());
    }
    let bar_items = bar_items_simple(
        data,
        cat_field,
        val_field,
        &cat_scale,
        &val_scale,
        is_horizontal,
        plot_area,
    );
    let result = build_bar_group(
        bar_items,
        &cat_scale,
        &val_scale,
        encoding,
        plot_area,
        is_horizontal,
    );
    result
}

/// The raw domain value of the `i`-th nice tick of a value domain.
pub open spec fn val_tick_value(dm: (int, int), count: int, i: int) -> int {
    crate::scale::spec_tick_start(dm.0, crate::scale::spec_nice_step(dm.0, dm.1, count)) + i
        * crate::scale::spec_nice_step(dm.0, dm.1, count)
}

/// Map a value scale's ticks back through the scale itself, so the tick
/// values become pixel positions (ticks carry raw domain values; the
/// re-mapping is required for every value axis).
pub(crate) fn value_axis_ticks(val_scale: &LinearScale, count: usize) -> (r: Vec<Tick>)
    requires
        val_scale.wf(),
        val_scale.tick_safe(),
        !val_scale.clamp,
    ensures
        crate::axis::ticks_in_budget(r@),
        r@.len() == crate::scale::spec_tick_count(
            val_scale.domain_min as int,
            val_scale.domain_max as int,
            count as int,
        ),
        forall|i: int|
            0 <= i < r@.len() ==> {
                let tv = val_tick_value(
                    (val_scale.domain_min as int, val_scale.domain_max as int),
                    count as int,
                    i,
                );
                (#[trigger] r@[i]).value == clip(val_scale.scale_at(tv)) && r@[i].label@
                    == crate::scale::format_number_chars(tv)
            },
{
    let ghost dm = (val_scale.domain_min as int, val_scale.domain_max as int);
    let raw = val_scale.ticks(count);
    let n = raw.len();
    let mut r: Vec<Tick> = Vec::new();
    let mut i: usize = 0;
    proof {
        if n > 0 {
            assert(crate::scale::spec_has_ticks(dm.0, dm.1, count as int));
        }
    }
    while i < n
        invariant
            i <= n,
            n == raw@.len(),
            val_scale.wf(),
            !val_scale.clamp,
            dm == (val_scale.domain_min as int, val_scale.domain_max as int),
            n > 0 ==> dm.0 < dm.1,
            forall|j: int|
                0 <= j < n ==> (#[trigger] raw@[j]).value == val_tick_value(dm, count as int, j)
                    && raw@[j].label@ == crate::scale::format_number_chars(
                    val_tick_value(dm, count as int, j),
                ),
            r@.len() == i,
            crate::axis::ticks_in_budget(r@),
            forall|j: int|
                0 <= j < i ==> (#[trigger] r@[j]).value == clip(
                    val_scale.scale_at(val_tick_value(dm, count as int, j)),
                ) && r@[j].label@ == crate::scale::format_number_chars(
                    val_tick_value(dm, count as int, j),
                ),
        decreases n - i,
    {
        let ghost old_r = r@;
        let v = val_scale.scale(raw[i].value);
        let label = raw[i].label.clone();
        r.push(Tick { value: v, label });
        proof {
            assert(forall|j: int| 0 <= j < old_r.len() ==> #[trigger] r@[j] == old_r[j]);
            assert(abs_val(v as int) <= COORD_LIMIT);
        }
        i = i + 1;
    }
    r
}

/// Extract a channel's axis title, if any.
pub(crate) fn channel_title(c: &Option<ChannelDef>) -> (r: Option<&String>)
    ensures
        match r {
            Some(t) => c matches Some(cd) && has_title(*cd),
            None => !(c matches Some(cd) && has_title(*cd)),
        },
{
    match c {
        Some(cd) => match cd.axis() {
            Some(a) => match &a.title {
                Some(t) => Some(t),
                None => None,
            },
            None => None,
        },
        None => None,
    }
}

/// One tick per category, each at its own band center, labeled with the
/// category text (the domain labels are pairwise distinct here, so each
/// label indexes itself).
pub(crate) fn cat_axis_ticks(cat_scale: &BandScale) -> (r: Vec<Tick>)
    requires
        cat_scale.wf(),
        forall|j: int, k: int|
            0 <= j < k < cat_scale.domain@.len() ==> #[trigger] cat_scale.domain@[j]@
                != #[trigger] cat_scale.domain@[k]@,
    ensures
        crate::axis::ticks_in_budget(r@),
        r@.len() == cat_scale.domain@.len(),
        forall|i: int|
            0 <= i < r@.len() ==> (#[trigger] r@[i]).value as int == band_center_v(
                cat_scale.domain@.len() as int,
                cat_scale.range_min as int,
                cat_scale.range_max as int,
                cat_scale.padding_inner as int,
                cat_scale.padding_outer as int,
                i,
            ) && r@[i].label@ == str_views(cat_scale.domain@)[i],
{
    let t = cat_scale.ticks();
    proof {
        let ghost dom = str_views(cat_scale.domain@);
        assert forall|i: int| 0 <= i < t@.len() implies -crate::num::AXIS_POS_LIMIT <= (
        #[trigger] t@[i]).value <= crate::num::AXIS_POS_LIMIT && t@[i].value as int
            == cat_scale.band_center(i) && t@[i].label@ == dom[i] by {
            lemma_band_center_fits(
                *cat_scale,
                spec_index_of(cat_scale.domain@, cat_scale.domain@[i]@),
            );
            lemma_index_of_views(cat_scale.domain@, cat_scale.domain@[i]@);
            assert(forall|j: int, k: int|
                0 <= j < k < dom.len() ==> #[trigger] dom[j] != #[trigger] dom[k]) by {
                assert(forall|j: int|
                    0 <= j < dom.len() ==> #[trigger] dom[j] == cat_scale.domain@[j]@);
            }
            assert(dom[i] == cat_scale.domain@[i]@);
            crate::band::lemma_gindex_distinct(dom, i);
            assert(spec_index_of(cat_scale.domain@, cat_scale.domain@[i]@) == i);
        }
    }
    t
}

/// The three mark runs of a category axis: the baseline, one tick rule
/// per category at its band center, and one label per category carrying
/// its text.
pub open spec fn cat_axis_marks_ok(
    g: Group,
    at: int,
    orient: crate::encoding::AxisOrient,
    plot: PlotArea,
    dom: Seq<Seq<char>>,
    extent: int,
    pi: int,
    po: int,
) -> bool {
    &&& g.children@[at] matches SceneNode::Mark(bm) && bm.mark_type == MarkType::Rule
        && bm.items@.len() == 1 && crate::axis::is_axis_rule(
        bm.items@[0],
        crate::axis::axis_line_rule(orient, plot),
    )
    &&& g.children@[at + 1] matches SceneNode::Mark(tm) && tm.mark_type == MarkType::Rule
        && tm.items@.len() == dom.len() && (forall|i: int|
        0 <= i < dom.len() ==> crate::axis::is_axis_rule(
            #[trigger] tm.items@[i],
            crate::axis::tick_rule(
                orient,
                plot,
                band_center_v(dom.len() as int, 0, extent, pi, po, i) as i64,
            ),
        ))
    &&& g.children@[at + 2] matches SceneNode::Mark(lm) && lm.mark_type == MarkType::Text
        && lm.items@.len() == dom.len() && (forall|i: int|
        0 <= i < dom.len() ==> crate::axis::is_tick_label_v(
            #[trigger] lm.items@[i],
            orient,
            plot,
            band_center_v(dom.len() as int, 0, extent, pi, po, i) as i64,
            dom[i],
        ))
}

/// The three mark runs of a value axis: the baseline, then the domain's
/// nice ticks mapped back through the same scale into pixel positions
/// (the required re-mapping: ticks carry raw domain values), each with
/// its formatted label.
pub open spec fn val_axis_marks_ok(
    g: Group,
    at: int,
    orient: crate::encoding::AxisOrient,
    plot: PlotArea,
    dm: (int, int),
    horiz: bool,
) -> bool {
    let cnt = crate::scale::spec_tick_count(dm.0, dm.1, 5);
    &&& g.children@[at] matches SceneNode::Mark(bm) && bm.mark_type == MarkType::Rule
        && bm.items@.len() == 1 && crate::axis::is_axis_rule(
        bm.items@[0],
        crate::axis::axis_line_rule(orient, plot),
    )
    &&& g.children@[at + 1] matches SceneNode::Mark(tm) && tm.mark_type == MarkType::Rule
        && tm.items@.len() == cnt && (forall|i: int|
        0 <= i < cnt ==> crate::axis::is_axis_rule(
            #[trigger] tm.items@[i],
            crate::axis::tick_rule(
                orient,
                plot,
                vpos(dm, horiz, plot, val_tick_value(dm, 5, i)) as i64,
            ),
        ))
    &&& g.children@[at + 2] matches SceneNode::Mark(lm) && lm.mark_type == MarkType::Text
        && lm.items@.len() == cnt && (forall|i: int|
        0 <= i < cnt ==> crate::axis::is_tick_label_v(
            #[trigger] lm.items@[i],
            orient,
            plot,
            vpos(dm, horiz, plot, val_tick_value(dm, 5, i)) as i64,
            crate::scale::format_number_chars(val_tick_value(dm, 5, i)),
        ))
}

/// Assemble the plot group: the bar mark first, then the marks of the
/// bottom axis and the left axis.
fn build_bar_group(
    bar_items: Vec<MarkItem>,
    cat_scale: &BandScale,
    val_scale: &LinearScale,
    encoding: &Encoding,
    plot_area: &PlotArea,
    is_horizontal: bool,
) -> (r: Result<Group, CompileError>)
    requires
        plot_area.wf(),
        cat_scale.wf(),
        val_scale.wf(),
        val_scale.tick_safe(),
        !val_scale.clamp,
        cat_scale.range_min == 0,
        cat_scale.range_max as int == cat_extent(is_horizontal, *plot_area),
        cat_scale.padding_inner == BAR_PADDING,
        cat_scale.padding_outer == BAR_PADDING,
        val_scale.range_min as int == val_range(is_horizontal, *plot_area).0,
        val_scale.range_max as int == val_range(is_horizontal, *plot_area).1,
        forall|j: int, k: int|
            0 <= j < k < cat_scale.domain@.len() ==> #[trigger] cat_scale.domain@[j]@
                != #[trigger] cat_scale.domain@[k]@,
    ensures
        r matches Ok(g) && {
            let xt = title_count(encoding.x);
            let yt = title_count(encoding.y);
            let dom = str_views(cat_scale.domain@);
            let dm = (val_scale.domain_min as int, val_scale.domain_max as int);
            &&& g.transform == (Transform {
                translate_x: plot_area.x,
                translate_y: plot_area.y,
                scale_x: SCALE as i64,
                scale_y: SCALE as i64,
                rotate: 0,
            })
            &&& g.clip is None
            &&& g.children@.len() == 7 + xt + yt
            &&& forall|j: int| 1 <= j < g.children@.len() ==> #[trigger] g.children@[j] is Mark
            &&& g.children@[0] matches SceneNode::Mark(m) && m.mark_type == MarkType::Rect
                && m.items@ == bar_items@
            &&& (is_horizontal ==> val_axis_marks_ok(
                g,
                1,
                crate::encoding::AxisOrient::Bottom,
                *plot_area,
                dm,
                true,
            ) && cat_axis_marks_ok(
                g,
                4 + xt,
                crate::encoding::AxisOrient::Left,
                *plot_area,
                dom,
                plot_area.height as int,
                BAR_PADDING as int,
                BAR_PADDING as int,
            ))
            &&& (!is_horizontal ==> cat_axis_marks_ok(
                g,
                1,
                crate::encoding::AxisOrient::Bottom,
                *plot_area,
                dom,
                plot_area.width as int,
                BAR_PADDING as int,
                BAR_PADDING as int,
            ) && val_axis_marks_ok(
                g,
                4 + xt,
                crate::encoding::AxisOrient::Left,
                *plot_area,
                dm,
                false,
            ))
        },
{
    let ghost gitems = bar_items@;
    let ghost dom = str_views(cat_scale.domain@);
    let ghost dm = (val_scale.domain_min as int, val_scale.domain_max as int);
    let ghost plot = *plot_area;
    let mut root = Group::new().with_transform(Transform::translate(plot_area.x, plot_area.y));
    root.add_mark(Mark { mark_type: MarkType::Rect, items: bar_items });
    // category ticks sit at band centers; value ticks are mapped back
    // through the value scale into pixel positions
    let x_axis_ticks = if is_horizontal {
        value_axis_ticks(val_scale, 5)
    } else {
        cat_axis_ticks(cat_scale)
    };
    let y_axis_ticks = if is_horizontal {
        cat_axis_ticks(cat_scale)
    } else {
        value_axis_ticks(val_scale, 5)
    };
    let x_title = channel_title(&encoding.x);
    let y_title = channel_title(&encoding.y);
    let ghost xt: int = title_count(encoding.x);
    let ghost yt: int = title_count(encoding.y);
    let mut x_marks = crate::axis::generate_axis(
        crate::encoding::AxisOrient::Bottom,
        &x_axis_ticks,
        plot_area,
        x_title,
    );
    proof {
        assert(x_marks@.len() == 3 + xt);
    }
    let ghost base = root.children@.len();
    let ghost xm0 = x_marks@;
    while x_marks.len() > 0
        invariant
            base == 1,
            root.children@.len() >= 1,
            root.children@.len() + x_marks@.len() == base + 3 + xt,
            xm0.len() == 3 + xt,
            x_marks@ == xm0.skip(root.children@.len() - base),
            forall|j: int|
                base <= j < root.children@.len() ==> #[trigger] root.children@[j]
                    == SceneNode::Mark(xm0[j - base]),
            root.transform == (Transform {
                translate_x: plot_area.x,
                translate_y: plot_area.y,
                scale_x: SCALE as i64,
                scale_y: SCALE as i64,
                rotate: 0,
            }),
            root.clip is None,
            forall|j: int| 1 <= j < root.children@.len() ==> #[trigger] root.children@[j] is Mark,
            root.children@[0] matches SceneNode::Mark(m) && m.mark_type == MarkType::Rect
                && m.items@ == gitems,
        decreases x_marks@.len(),
    {
        let ghost old_marks = x_marks@;
        let ghost c = root.children@.len() - base;
        let m = x_marks.remove(0);
        let ghost old_children = root.children@;
        root.add_mark(m);
        proof {
            assert(forall|j: int|
                0 <= j < old_children.len() ==> #[trigger] root.children@[j] == old_children[j]);
            assert(root.children@[0] == old_children[0]);
            assert(0 <= c && c < xm0.len());
            assert(old_marks == xm0.skip(c));
            assert(m == old_marks[0]);
            assert(old_marks[0] == xm0.skip(c)[0]);
            assert(xm0.skip(c)[0] == xm0[c]);
            assert(root.children@[old_children.len() as int] == SceneNode::Mark(m));
            assert(x_marks@ =~= xm0.skip(c + 1));
            assert forall|j: int|
                base <= j < root.children@.len() implies #[trigger] root.children@[j]
                == SceneNode::Mark(xm0[j - base]) by {
                if j - base < c {
                    assert(root.children@[j] == old_children[j]);
                } else {
                    assert(j - base == c);
                }
            }
        }
    }
    let mut y_marks = crate::axis::generate_axis(
        crate::encoding::AxisOrient::Left,
        &y_axis_ticks,
        plot_area,
        y_title,
    );
    proof {
        assert(y_marks@.len() == 3 + yt);
    }
    let ghost mid = root.children@.len();
    let ghost ym0 = y_marks@;
    while y_marks.len() > 0
        invariant
            4 <= mid == 4 + xt,
            root.children@.len() >= mid,
            root.children@.len() + y_marks@.len() == mid + 3 + yt,
            xm0.len() == 3 + xt,
            ym0.len() == 3 + yt,
            y_marks@ == ym0.skip(root.children@.len() - mid),
            forall|j: int|
                1 <= j < 4 + xt ==> #[trigger] root.children@[j] == SceneNode::Mark(xm0[j - 1]),
            forall|j: int|
                mid <= j < root.children@.len() ==> #[trigger] root.children@[j]
                    == SceneNode::Mark(ym0[j - mid]),
            root.transform == (Transform {
                translate_x: plot_area.x,
                translate_y: plot_area.y,
                scale_x: SCALE as i64,
                scale_y: SCALE as i64,
                rotate: 0,
            }),
            root.clip is None,
            forall|j: int| 1 <= j < root.children@.len() ==> #[trigger] root.children@[j] is Mark,
            root.children@[0] matches SceneNode::Mark(m) && m.mark_type == MarkType::Rect
                && m.items@ == gitems,
        decreases y_marks@.len(),
    {
        let ghost old_marks = y_marks@;
        let ghost c = root.children@.len() - mid;
        let m = y_marks.remove(0);
        let ghost old_children = root.children@;
        root.add_mark(m);
        proof {
            assert(forall|j: int|
                0 <= j < old_children.len() ==> #[trigger] root.children@[j] == old_children[j]);
            assert(root.children@[0] == old_children[0]);
            assert(0 <= c && c < ym0.len());
            assert(old_marks == ym0.skip(c));
            assert(m == old_marks[0]);
            assert(old_marks[0] == ym0.skip(c)[0]);
            assert(ym0.skip(c)[0] == ym0[c]);
            assert(root.children@[old_children.len() as int] == SceneNode::Mark(m));
            assert(y_marks@ =~= ym0.skip(c + 1));
            assert forall|j: int| 1 <= j < 4 + xt implies #[trigger] root.children@[j]
                == SceneNode::Mark(xm0[j - 1]) by {
                assert(root.children@[j] == old_children[j]);
            }
            assert forall|j: int|
                mid <= j < root.children@.len() implies #[trigger] root.children@[j]
                == SceneNode::Mark(ym0[j - mid]) by {
                if j - mid < c {
                    assert(root.children@[j] == old_children[j]);
                } else {
                    assert(j - mid == c);
                }
            }
        }
    }
    proof {
        assert(root.children@.len() == 7 + xt + yt);
        assert(root.children@[1] == SceneNode::Mark(xm0[0]));
        assert(root.children@[2] == SceneNode::Mark(xm0[1]));
        assert(root.children@[3] == SceneNode::Mark(xm0[2]));
        assert(root.children@[mid as int] == SceneNode::Mark(ym0[0]));
        assert(root.children@[mid as int + 1] == SceneNode::Mark(ym0[1]));
        assert(root.children@[mid as int + 2] == SceneNode::Mark(ym0[2]));
        let cnt = crate::scale::spec_tick_count(dm.0, dm.1, 5);
        if is_horizontal {
            // bottom: value axis; left: category axis
            assert(x_axis_ticks@.len() == cnt);
            assert forall|i: int| 0 <= i < cnt implies crate::axis::is_axis_rule(
                #[trigger] xm0[1].items@[i],
                crate::axis::tick_rule(
                    crate::encoding::AxisOrient::Bottom,
                    plot,
                    vpos(dm, true, plot, val_tick_value(dm, 5, i)) as i64,
                ),
            ) by {
                assert(crate::axis::is_axis_rule(
                    xm0[1].items@[i],
                    crate::axis::tick_rule(
                        crate::encoding::AxisOrient::Bottom,
                        plot,
                        x_axis_ticks@[i].value,
                    ),
                ));
            }
            assert forall|i: int| 0 <= i < cnt implies crate::axis::is_tick_label_v(
                #[trigger] xm0[2].items@[i],
                crate::encoding::AxisOrient::Bottom,
                plot,
                vpos(dm, true, plot, val_tick_value(dm, 5, i)) as i64,
                crate::scale::format_number_chars(val_tick_value(dm, 5, i)),
            ) by {
                assert(crate::axis::is_tick_label(
                    xm0[2].items@[i],
                    crate::encoding::AxisOrient::Bottom,
                    plot,
                    x_axis_ticks@[i],
                ));
            }
            assert(val_axis_marks_ok(root, 1, crate::encoding::AxisOrient::Bottom, plot, dm, true));
            assert(y_axis_ticks@.len() == dom.len());
            assert forall|i: int| 0 <= i < dom.len() implies crate::axis::is_axis_rule(
                #[trigger] ym0[1].items@[i],
                crate::axis::tick_rule(
                    crate::encoding::AxisOrient::Left,
                    plot,
                    band_center_v(
                        dom.len() as int,
                        0,
                        plot.height as int,
                        BAR_PADDING as int,
                        BAR_PADDING as int,
                        i,
                    ) as i64,
                ),
            ) by {
                assert(crate::axis::is_axis_rule(
                    ym0[1].items@[i],
                    crate::axis::tick_rule(
                        crate::encoding::AxisOrient::Left,
                        plot,
                        y_axis_ticks@[i].value,
                    ),
                ));
            }
            assert forall|i: int| 0 <= i < dom.len() implies crate::axis::is_tick_label_v(
                #[trigger] ym0[2].items@[i],
                crate::encoding::AxisOrient::Left,
                plot,
                band_center_v(
                    dom.len() as int,
                    0,
                    plot.height as int,
                    BAR_PADDING as int,
                    BAR_PADDING as int,
                    i,
                ) as i64,
                dom[i],
            ) by {
                assert(crate::axis::is_tick_label(
                    ym0[2].items@[i],
                    crate::encoding::AxisOrient::Left,
                    plot,
                    y_axis_ticks@[i],
                ));
            }
            assert(cat_axis_marks_ok(
                root,
                4 + xt,
                crate::encoding::AxisOrient::Left,
                plot,
                dom,
                plot.height as int,
                BAR_PADDING as int,
                BAR_PADDING as int,
            ));
        } else {
            // bottom: category axis; left: value axis
            assert(x_axis_ticks@.len() == dom.len());
            assert forall|i: int| 0 <= i < dom.len() implies crate::axis::is_axis_rule(
                #[trigger] xm0[1].items@[i],
                crate::axis::tick_rule(
                    crate::encoding::AxisOrient::Bottom,
                    plot,
                    band_center_v(
                        dom.len() as int,
                        0,
                        plot.width as int,
                        BAR_PADDING as int,
                        BAR_PADDING as int,
                        i,
                    ) as i64,
                ),
            ) by {
                assert(crate::axis::is_axis_rule(
                    xm0[1].items@[i],
                    crate::axis::tick_rule(
                        crate::encoding::AxisOrient::Bottom,
                        plot,
                        x_axis_ticks@[i].value,
                    ),
                ));
            }
            assert forall|i: int| 0 <= i < dom.len() implies crate::axis::is_tick_label_v(
                #[trigger] xm0[2].items@[i],
                crate::encoding::AxisOrient::Bottom,
                plot,
                band_center_v(
                    dom.len() as int,
                    0,
                    plot.width as int,
                    BAR_PADDING as int,
                    BAR_PADDING as int,
                    i,
                ) as i64,
                dom[i],
            ) by {
                assert(crate::axis::is_tick_label(
                    xm0[2].items@[i],
                    crate::encoding::AxisOrient::Bottom,
                    plot,
                    x_axis_ticks@[i],
                ));
            }
            assert(cat_axis_marks_ok(
                root,
                1,
                crate::encoding::AxisOrient::Bottom,
                plot,
                dom,
                plot.width as int,
                BAR_PADDING as int,
                BAR_PADDING as int,
            ));
            assert(y_axis_ticks@.len() == cnt);
            assert forall|i: int| 0 <= i < cnt implies crate::axis::is_axis_rule(
                #[trigger] ym0[1].items@[i],
                crate::axis::tick_rule(
                    crate::encoding::AxisOrient::Left,
                    plot,
                    vpos(dm, false, plot, val_tick_value(dm, 5, i)) as i64,
                ),
            ) by {
                assert(crate::axis::is_axis_rule(
                    ym0[1].items@[i],
                    crate::axis::tick_rule(
                        crate::encoding::AxisOrient::Left,
                        plot,
                        y_axis_ticks@[i].value,
                    ),
                ));
            }
            assert forall|i: int| 0 <= i < cnt implies crate::axis::is_tick_label_v(
                #[trigger] ym0[2].items@[i],
                crate::encoding::AxisOrient::Left,
                plot,
                vpos(dm, false, plot, val_tick_value(dm, 5, i)) as i64,
                crate::scale::format_number_chars(val_tick_value(dm, 5, i)),
            ) by {
                assert(crate::axis::is_tick_label(
                    ym0[2].items@[i],
                    crate::encoding::AxisOrient::Left,
                    plot,
                    y_axis_ticks@[i],
                ));
            }
            assert(val_axis_marks_ok(root, 4 + xt, crate::encoding::AxisOrient::Left, plot, dm, false));
        }
    }
    Ok(root)
}

} // verus!
