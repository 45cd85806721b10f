//! The axis generator: one baseline rule, one rule and one label per
//! tick, and an optional title, for one side of the plot.

use vstd::prelude::*;

use crate::compile::PlotArea;
use crate::encoding::AxisOrient;
use crate::mark::{Geometry, Mark, MarkItem, MarkType};
use crate::num::{AXIS_POS_LIMIT, SCALE};
use crate::scale::Tick;
use crate::style::{Color, Font, FontStyle, FontWeight, Stroke, TextAnchor, TextBaseline};

verus! {

/// Tick length, in millionths of a pixel.
pub const TICK_LENGTH: i64 = 6_000_000;

/// Offset between a tick's end and its label, in millionths of a pixel.
pub const LABEL_OFFSET: i64 = 10_000_000;

/// The color of axis lines, ticks, and labels.
pub open spec fn axis_color() -> Color {
    Color { r: 100, g: 100, b: 100, a: 255 }
}

/// The color of axis titles.
pub open spec fn title_color() -> Color {
    Color { r: 50, g: 50, b: 50, a: 255 }
}

/// The baseline rule spanning the plot edge.
pub open spec fn axis_line_rule(orient: AxisOrient, plot: PlotArea) -> Geometry {
    match orient {
        AxisOrient::Bottom => Geometry::Rule {
            x1: 0,
            y1: plot.height,
            x2: plot.width,
            y2: plot.height,
        },
        AxisOrient::Left => Geometry::Rule { x1: 0, y1: 0, x2: 0, y2: plot.height },
        AxisOrient::Top => Geometry::Rule { x1: 0, y1: 0, x2: plot.width, y2: 0 },
        AxisOrient::Right => Geometry::Rule {
            x1: plot.width,
            y1: 0,
            x2: plot.width,
            y2: plot.height,
        },
    }
}

/// The rule of one tick at position `v`.
pub open spec fn tick_rule(orient: AxisOrient, plot: PlotArea, v: i64) -> Geometry {
    match orient {
        AxisOrient::Bottom => Geometry::Rule {
            x1: v,
            y1: plot.height,
            x2: v,
            y2: (plot.height + TICK_LENGTH) as i64,
        },
        AxisOrient::Left => Geometry::Rule { x1: 0, y1: v, x2: (-TICK_LENGTH) as i64, y2: v },
        AxisOrient::Top => Geometry::Rule { x1: v, y1: 0, x2: v, y2: (-TICK_LENGTH) as i64 },
        AxisOrient::Right => Geometry::Rule {
            x1: plot.width,
            y1: v,
            x2: (plot.width + TICK_LENGTH) as i64,
            y2: v,
        },
    }
}

/// Where the label of a tick at position `v` sits.
pub open spec fn label_pos(orient: AxisOrient, plot: PlotArea, v: i64) -> (int, int) {
    match orient {
        AxisOrient::Bottom => (v as int, plot.height + TICK_LENGTH + LABEL_OFFSET),
        AxisOrient::Left => (-TICK_LENGTH - LABEL_OFFSET, v as int),
        AxisOrient::Top => (v as int, -TICK_LENGTH - LABEL_OFFSET),
        AxisOrient::Right => (plot.width + TICK_LENGTH + LABEL_OFFSET, v as int),
    }
}

/// How a tick label is anchored.
pub open spec fn label_anchor(orient: AxisOrient) -> TextAnchor {
    match orient {
        AxisOrient::Bottom => TextAnchor::Middle,
        AxisOrient::Left => TextAnchor::End,
        AxisOrient::Top => TextAnchor::Middle,
        AxisOrient::Right => TextAnchor::Start,
    }
}

/// Which text baseline a tick label uses.
pub open spec fn label_baseline(orient: AxisOrient) -> TextBaseline {
    match orient {
        AxisOrient::Bottom => TextBaseline::Top,
        AxisOrient::Left => TextBaseline::Middle,
        AxisOrient::Top => TextBaseline::Bottom,
        AxisOrient::Right => TextBaseline::Middle,
    }
}

/// The stroke shared by axis lines and ticks: one pixel of the axis color.
pub open spec fn is_axis_stroke(s: Option<Stroke>) -> bool {
    s matches Some(st) && st.color == axis_color() && st.width == SCALE && st.dash is None
}

/// One drawable axis rule (the baseline or a tick).
pub open spec fn is_axis_rule(item: MarkItem, g: Geometry) -> bool {
    &&& item.geometry == g
    &&& item.fill is None
    &&& is_axis_stroke(item.stroke)
    &&& item.opacity == SCALE
    &&& item.datum is None
}

/// One tick label: the given text at the label position of the tick
/// position `v`, in the default font, anchored per side.
pub open spec fn is_tick_label_v(
    item: MarkItem,
    orient: AxisOrient,
    plot: PlotArea,
    v: i64,
    label: Seq<char>,
) -> bool {
    &&& item.geometry matches Geometry::Text { x, y, text, font, anchor, baseline, angle } && {
        &&& x == label_pos(orient, plot, v).0
        &&& y == label_pos(orient, plot, v).1
        &&& text@ == label
        &&& font.size == 12 * SCALE
        &&& font.family@ == "sans-serif"@
        &&& font.weight == FontWeight::Normal
        &&& font.style == FontStyle::Normal
        &&& anchor == label_anchor(orient)
        &&& baseline == label_baseline(orient)
        &&& angle == 0
    }
    &&& item.fill == Some(axis_color())
    &&& item.stroke is None
    &&& item.opacity == SCALE
    &&& item.datum is None
}

/// One tick label, phrased over a tick value.
pub open spec fn is_tick_label(item: MarkItem, orient: AxisOrient, plot: PlotArea, t: Tick) -> bool {
    is_tick_label_v(item, orient, plot, t.value, t.label@)
}

/// Where an axis title sits, and how it is rotated (in millionths of a
/// degree).
pub open spec fn title_pos(orient: AxisOrient, plot: PlotArea) -> (int, int, int) {
    match orient {
        AxisOrient::Bottom => (
            crate::num::div_trunc(plot.width as int, 2),
            plot.height + 35 * SCALE,
            0int,
        ),
        AxisOrient::Left => (
            -40 * (SCALE as int),
            crate::num::div_trunc(plot.height as int, 2),
            -90 * (SCALE as int),
        ),
        AxisOrient::Top => (crate::num::div_trunc(plot.width as int, 2), -35 * (SCALE as int), 0int),
        AxisOrient::Right => (
            plot.width + 40 * SCALE,
            crate::num::div_trunc(plot.height as int, 2),
            90 * (SCALE as int),
        ),
    }
}

/// Which text baseline an axis title uses.
pub open spec fn title_baseline(orient: AxisOrient) -> TextBaseline {
    match orient {
        AxisOrient::Bottom => TextBaseline::Top,
        AxisOrient::Left => TextBaseline::Bottom,
        AxisOrient::Top => TextBaseline::Bottom,
        AxisOrient::Right => TextBaseline::Top,
    }
}

/// One axis title: centered along the plot edge, pushed further out than
/// the labels, rotated for the vertical sides, in a 14-pixel font.
pub open spec fn is_axis_title(item: MarkItem, orient: AxisOrient, plot: PlotArea, title: Seq<char>) -> bool {
    &&& item.geometry matches Geometry::Text { x, y, text, font, anchor, baseline, angle } && {
        &&& x == title_pos(orient, plot).0
        &&& y == title_pos(orient, plot).1
        &&& angle == title_pos(orient, plot).2
        &&& text@ == title
        &&& font.size == 14 * SCALE
        &&& font.family@ == "sans-serif"@
        &&& font.weight == FontWeight::Normal
        &&& font.style == FontStyle::Normal
        &&& anchor == TextAnchor::Middle
        &&& baseline == title_baseline(orient)
    }
    &&& item.fill == Some(title_color())
    &&& item.stroke is None
    &&& item.opacity == SCALE
    &&& item.datum is None
}

/// Whether every tick position fits the axis budget.
pub open spec fn ticks_in_budget(ticks: Seq<Tick>) -> bool {
    forall|i: int|
        0 <= i < ticks.len() ==> -AXIS_POS_LIMIT <= (#[trigger] ticks[i]).value <= AXIS_POS_LIMIT
}

/// Emit the marks of one axis: the baseline rule, one rule per tick, one
/// label per tick, and, when a title is supplied, the title text.
pub fn generate_axis(
    orient: AxisOrient,
    ticks: &Vec<Tick>,
    plot_area: &PlotArea,
    title: Option<&String>,
) -> (r: Vec<Mark>)
    requires
        plot_area.wf(),
        ticks_in_budget(ticks@),
    ensures
        r@.len() == if title is Some {
            4int
        } else {
            3int
        },
        r@[0].mark_type == MarkType::Rule,
        r@[0].items@.len() == 1,
        is_axis_rule(r@[0].items@[0], axis_line_rule(orient, *plot_area)),
        r@[1].mark_type == MarkType::Rule,
        r@[1].items@.len() == ticks@.len(),
        forall|i: int|
            0 <= i < ticks@.len() ==> is_axis_rule(
                #[trigger] r@[1].items@[i],
                tick_rule(orient, *plot_area, ticks@[i].value),
            ),
        r@[2].mark_type == MarkType::Text,
        r@[2].items@.len() == ticks@.len(),
        forall|i: int|
            0 <= i < ticks@.len() ==> is_tick_label(
                #[trigger] r@[2].items@[i],
                orient,
                *plot_area,
                ticks@[i],
            ),
        match title {
            Some(t) => r@[3].mark_type == MarkType::Text && r@[3].items@.len() == 1
                && is_axis_title(r@[3].items@[0], orient, *plot_area, t@),
            None => true,
        },
{
    let mut marks: Vec<Mark> = Vec::new();
    // baseline rule
    let line_geom = match orient {
        AxisOrient::Bottom => Geometry::Rule {
            x1: 0,
            y1: plot_area.height,
            x2: plot_area.width,
            y2: plot_area.height,
        },
        AxisOrient::Left => Geometry::Rule { x1: 0, y1: 0, x2: 0, y2: plot_area.height },
        AxisOrient::Top => Geometry::Rule { x1: 0, y1: 0, x2: plot_area.width, y2: 0 },
        AxisOrient::Right => Geometry::Rule {
            x1: plot_area.width,
            y1: 0,
            x2: plot_area.width,
            y2: plot_area.height,
        },
    };
    let line_item = MarkItem::new(line_geom).with_stroke(
        Stroke::solid(Color::rgb(100, 100, 100), SCALE),
    );
    let mut line_items: Vec<MarkItem> = Vec::new();
    line_items.push(line_item);
    marks.push(Mark { mark_type: MarkType::Rule, items: line_items });
    // tick rules and labels
    let n = ticks.len();
    let mut tick_items: Vec<MarkItem> = Vec::new();
    let mut label_items: Vec<MarkItem> = Vec::new();
    let mut i: usize = 0;
    while i < n
        invariant
            i <= n,
            n == ticks@.len(),
            plot_area.wf(),
            ticks_in_budget(ticks@),
            tick_items@.len() == i,
            label_items@.len() == i,
            forall|j: int|
                0 <= j < i ==> is_axis_rule(
                    #[trigger] tick_items@[j],
                    tick_rule(orient, *plot_area, ticks@[j].value),
                ),
            forall|j: int|
                0 <= j < i ==> is_tick_label(#[trigger] label_items@[j], orient, *plot_area, ticks@[j]),
        decreases n - i,
    {
        let v = ticks[i].value;
        let (rule_geom, lx, ly) = match orient {
            AxisOrient::Bottom => (
                Geometry::Rule {
                    x1: v,
                    y1: plot_area.height,
                    x2: v,
                    y2: plot_area.height + TICK_LENGTH,
                },
                v,
                plot_area.height + TICK_LENGTH + LABEL_OFFSET,
            ),
            AxisOrient::Left => (
                Geometry::Rule { x1: 0, y1: v, x2: -TICK_LENGTH, y2: v },
                -TICK_LENGTH - LABEL_OFFSET,
                v,
            ),
            AxisOrient::Top => (
                Geometry::Rule { x1: v, y1: 0, x2: v, y2: -TICK_LENGTH },
                v,
                -TICK_LENGTH - LABEL_OFFSET,
            ),
            AxisOrient::Right => (
                Geometry::Rule {
                    x1: plot_area.width,
                    y1: v,
                    x2: plot_area.width + TICK_LENGTH,
                    y2: v,
                },
                plot_area.width + TICK_LENGTH + LABEL_OFFSET,
                v,
            ),
        };
        let (anchor, baseline) = match orient {
            AxisOrient::Bottom => (TextAnchor::Middle, TextBaseline::Top),
            AxisOrient::Left => (TextAnchor::End, TextBaseline::Middle),
            AxisOrient::Top => (TextAnchor::Middle, TextBaseline::Bottom),
            AxisOrient::Right => (TextAnchor::Start, TextBaseline::Middle),
        };
        tick_items.push(
            MarkItem::new(rule_geom).with_stroke(Stroke::solid(Color::rgb(100, 100, 100), SCALE)),
        );
        label_items.push(
            MarkItem::new(
                Geometry::Text {
                    x: lx,
                    y: ly,
                    text: ticks[i].label.clone(),
                    font: Font::default(),
                    anchor,
                    baseline,
                    angle: 0,
                },
            ).with_fill(Color::rgb(100, 100, 100)),
        );
        i = i + 1;
    }
    marks.push(Mark { mark_type: MarkType::Rule, items: tick_items });
    marks.push(Mark { mark_type: MarkType::Text, items: label_items });
    // title
    match title {
        Some(title_text) => {
            let (tx, ty, anchor, baseline, angle): (i64, i64, TextAnchor, TextBaseline, i64) =
                match orient {
                AxisOrient::Bottom => (
                    crate::num::div_trunc_i128(plot_area.width as i128, 2) as i64,
                    plot_area.height + 35 * SCALE,
                    TextAnchor::Middle,
                    TextBaseline::Top,
                    0,
                ),
                AxisOrient::Left => (
                    -40 * SCALE,
                    crate::num::div_trunc_i128(plot_area.height as i128, 2) as i64,
                    TextAnchor::Middle,
                    TextBaseline::Bottom,
                    -90 * SCALE,
                ),
                AxisOrient::Top => (
                    crate::num::div_trunc_i128(plot_area.width as i128, 2) as i64,
                    -35 * SCALE,
                    TextAnchor::Middle,
                    TextBaseline::Bottom,
                    0,
                ),
                AxisOrient::Right => (
                    plot_area.width + 40 * SCALE,
                    crate::num::div_trunc_i128(plot_area.height as i128, 2) as i64,
                    TextAnchor::Middle,
                    TextBaseline::Top,
                    90 * SCALE,
                ),
            };
            let mut font = Font::default();
            font.size = 14 * SCALE;
            let mut title_items: Vec<MarkItem> = Vec::new();
            title_items.push(
                MarkItem::new(
                    Geometry::Text {
                        x: tx,
                        y: ty,
                        text: title_text.clone(),
                        font,
                        anchor,
                        baseline,
                        angle,
                    },
                ).with_fill(Color::rgb(50, 50, 50)),
            );
            marks.push(Mark { mark_type: MarkType::Text, items: title_items });
        },
        None => {},
    }
    marks
}

} // verus!
