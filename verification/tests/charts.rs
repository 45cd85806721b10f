//! End-to-end compile scenarios: simple bars, orientation, grouped
//! versus stacked selection, and normalized stacking.

use vis_core::chart::{ChartSpec, DataSpec, MarkSpec, MarkType, StackConfig};
use vis_core::compile::{compile, compile_mark, CompileError, PlotArea};
use vis_core::datum::{DataValue, Row};
use vis_core::encoding::{ChannelDef, Encoding};
use vis_core::mark::{Geometry, Mark, MarkItem, MarkType as IrMarkType};
use vis_core::num::SCALE;
use vis_core::scene::{Padding, SceneNode};

const S: i64 = SCALE;

fn empty_encoding() -> Encoding {
    Encoding {
        x: None,
        y: None,
        x2: None,
        y2: None,
        color: None,
        fill: None,
        stroke: None,
        size: None,
        opacity: None,
        shape: None,
        text: None,
    }
}

fn xy(x: &str, y: &str) -> Encoding {
    Encoding {
        x: Some(ChannelDef::Field(x.to_string())),
        y: Some(ChannelDef::Field(y.to_string())),
        ..empty_encoding()
    }
}

fn xyc(x: &str, y: &str, c: &str) -> Encoding {
    Encoding { color: Some(ChannelDef::Field(c.to_string())), ..xy(x, y) }
}

fn row2(cat: &str, value: i64) -> Row {
    let mut r = Row::new();
    r.push_field("category".to_string(), DataValue::Str(cat.to_string()));
    r.push_field("value".to_string(), DataValue::Num(value));
    r
}

fn row3(cat: &str, series: &str, value: i64) -> Row {
    let mut r = row2(cat, value);
    r.push_field("series".to_string(), DataValue::Str(series.to_string()));
    r
}

fn plot100() -> PlotArea {
    PlotArea { x: 0, y: 0, width: 100 * S, height: 100 * S }
}

fn bar_rects(group: &vis_core::scene::Group) -> Vec<MarkItem> {
    match &group.children[0] {
        SceneNode::Mark(Mark { mark_type, items }) => {
            assert_eq!(*mark_type, IrMarkType::Rect);
            items.clone()
        },
        _ => panic!("first child is not a mark"),
    }
}

fn rect_of(item: &MarkItem) -> (i64, i64, i64, i64) {
    match item.geometry {
        Geometry::Rect { x, y, width, height, .. } => (x, y, width, height),
        _ => panic!("not a rectangle"),
    }
}

#[test]
fn simple_vertical_bars() {
    let data = vec![row2("A", 10 * S), row2("B", 20 * S)];
    let group = vis_core::bar::compile_bar(&xy("category", "value"), &data, &plot100(), None)
        .unwrap();
    let items = bar_rects(&group);
    assert_eq!(items.len(), 2);
    let (_, ya, wa, ha) = rect_of(&items[0]);
    let (_, yb, wb, hb) = rect_of(&items[1]);
    // value domain is [0, 20]: B spans the full height, A half of it
    assert_eq!(ha, 50 * S);
    assert_eq!(hb, 100 * S);
    assert_eq!(hb, 2 * ha);
    // both anchor on the value-scale zero line, the bottom of the plot
    assert_eq!(ya + ha, 100 * S);
    assert_eq!(yb + hb, 100 * S);
    // full-band bars share one width
    assert_eq!(wa, wb);
}

#[test]
fn horizontal_orientation_trigger() {
    // x quantitative against y nominal flips the orientation
    let data = vec![row2("A", 10 * S), row2("B", 20 * S)];
    let group = vis_core::bar::compile_bar(&xy("value", "category"), &data, &plot100(), None)
        .unwrap();
    let items = bar_rects(&group);
    assert_eq!(items.len(), 2);
    let (xa, _, wa, ha) = rect_of(&items[0]);
    let (xb, _, wb, hb) = rect_of(&items[1]);
    // bars grow rightward from x = 0, width proportional to the value
    assert_eq!(xa, 0);
    assert_eq!(xb, 0);
    assert_eq!(wa, 50 * S);
    assert_eq!(wb, 100 * S);
    assert_eq!(ha, hb);
}

#[test]
fn grouped_versus_stacked_selection() {
    let data = vec![
        row3("A", "x", 10 * S),
        row3("A", "y", 20 * S),
        row3("B", "x", 15 * S),
        row3("B", "y", 25 * S),
    ];
    let enc = xyc("category", "value", "series");
    // stack: false puts the two series side by side within each band
    let grouped = vis_core::bar::compile_bar(
        &enc,
        &data,
        &plot100(),
        Some(&StackConfig::Enabled(false)),
    ).unwrap();
    let gitems = bar_rects(&grouped);
    assert_eq!(gitems.len(), 4);
    let (gx0, _, _, _) = rect_of(&gitems[0]);
    let (gx1, _, _, _) = rect_of(&gitems[1]);
    assert!(gx0 < gx1, "series sit side by side");
    // stack: true stacks them into one bar per category
    let stacked = vis_core::bar::compile_bar(
        &enc,
        &data,
        &plot100(),
        Some(&StackConfig::Enabled(true)),
    ).unwrap();
    let sitems = bar_rects(&stacked);
    assert_eq!(sitems.len(), 4);
    let (sx0, sy0, _, sh0) = rect_of(&sitems[0]);
    let (sx1, sy1, _, sh1) = rect_of(&sitems[1]);
    assert_eq!(sx0, sx1, "segments of one category share the x position");
    // segments are contiguous: the second sits directly above the first
    assert_eq!(sy1 + sh1, sy0);
    // both reach the same total height as the category sum of 30 out of
    // the [0, 40] value domain (the largest stacked top)
    assert_eq!(sy0 + sh0, 100 * S);
    assert_eq!(sh0 + sh1, 30 * (100 * S) / 40);
}

#[test]
fn omitted_stack_config_stacks() {
    // with a color field and no stacking configuration, stacking is on
    let data = vec![row3("A", "x", 10 * S), row3("A", "y", 20 * S)];
    let enc = xyc("category", "value", "series");
    let group = vis_core::bar::compile_bar(&enc, &data, &plot100(), None).unwrap();
    let items = bar_rects(&group);
    assert_eq!(items.len(), 2);
    let (x0, y0, w0, h0) = rect_of(&items[0]);
    let (x1, y1, w1, h1) = rect_of(&items[1]);
    // one bar per category: stacked segments share x and width, and the
    // second sits directly on top of the first
    assert_eq!(x0, x1);
    assert_eq!(w0, w1);
    assert_eq!(y1 + h1, y0);
    // a row without the series field still stacks (empty series key)
    let mut bare = Row::new();
    bare.push_field("category".to_string(), DataValue::Str("A".to_string()));
    bare.push_field("value".to_string(), DataValue::Num(10 * S));
    let group = vis_core::bar::compile_bar(&enc, &vec![bare], &plot100(), None).unwrap();
    assert_eq!(bar_rects(&group).len(), 1);
}

#[test]
fn normalize_stacking() {
    // three series per category, summing to 40: each segment's height
    // is its value's fraction, and they fill the whole value range
    let data = vec![
        row3("A", "x", 10 * S),
        row3("A", "y", 10 * S),
        row3("A", "z", 20 * S),
    ];
    let enc = xyc("category", "value", "series");
    let group = vis_core::bar::compile_bar(
        &enc,
        &data,
        &plot100(),
        Some(&StackConfig::Mode(vis_core::chart::StackMode::Normalize)),
    ).unwrap();
    let items = bar_rects(&group);
    assert_eq!(items.len(), 3);
    let (_, _, _, h0) = rect_of(&items[0]);
    let (_, _, _, h1) = rect_of(&items[1]);
    let (_, _, _, h2) = rect_of(&items[2]);
    assert_eq!(h0, 25 * S);
    assert_eq!(h1, 25 * S);
    assert_eq!(h2, 50 * S);
    assert_eq!(h0 + h1 + h2, 100 * S);
}

#[test]
fn compile_builds_a_scene() {
    let chart = ChartSpec {
        width: 140 * S,
        height: 120 * S,
        padding: Padding { top: 10 * S, right: 10 * S, bottom: 10 * S, left: 30 * S },
        background: Some("#ffffff".to_string()),
        data: DataSpec::Inline { values: vec![row2("A", 10 * S)] },
        mark: Some(MarkSpec::Simple(MarkType::Bar)),
        encoding: Some(xy("category", "value")),
        layer: None,
        stack: None,
        title: None,
    };
    let scene = compile(&chart).unwrap();
    assert_eq!(scene.width, 140 * S);
    assert_eq!(scene.height, 120 * S);
    let bg = scene.background.unwrap();
    assert_eq!((bg.r, bg.g, bg.b, bg.a), (255, 255, 255, 255));
    // the root group carries the plot-area translation
    assert_eq!(scene.root.transform.translate_x, 30 * S);
    assert_eq!(scene.root.transform.translate_y, 10 * S);
    // bars plus two axes of three mark runs each
    assert_eq!(scene.root.children.len(), 7);
}

#[test]
fn compile_line_builds_polylines() {
    let data = vec![row2("A", 10 * S), row2("B", 20 * S), row2("C", 15 * S)];
    let group = vis_core::line::compile_line(&xy("category", "value"), &data, &plot100(), None)
        .unwrap();
    match &group.children[0] {
        SceneNode::Mark(Mark { mark_type, items }) => {
            assert_eq!(*mark_type, IrMarkType::Line);
            assert_eq!(items.len(), 1);
            match &items[0].geometry {
                Geometry::Line { points } => {
                    assert_eq!(points.len(), 3);
                    // vertices sit at ascending band centers
                    assert!(points[0].x < points[1].x && points[1].x < points[2].x);
                },
                _ => panic!("not a line"),
            }
        },
        _ => panic!("first child is not a mark"),
    }
}

#[test]
fn multiple_series_draw_one_line_each() {
    let data = vec![
        row3("A", "x", 10 * S),
        row3("B", "x", 12 * S),
        row3("A", "y", 20 * S),
        row3("B", "y", 22 * S),
    ];
    let enc = xyc("category", "value", "series");
    // a color field without stacking gives one polyline per series
    let group = vis_core::line::compile_line(
        &enc,
        &data,
        &plot100(),
        Some(&StackConfig::Enabled(false)),
    ).unwrap();
    match &group.children[0] {
        SceneNode::Mark(Mark { mark_type, items }) => {
            assert_eq!(*mark_type, IrMarkType::Line);
            assert_eq!(items.len(), 2);
            for item in items {
                match &item.geometry {
                    Geometry::Line { points } => {
                        assert_eq!(points.len(), 2);
                        assert!(points[0].x < points[1].x);
                    },
                    _ => panic!("not a line"),
                }
            }
            // distinct series take distinct palette colors
            assert_ne!(items[0].stroke.as_ref().unwrap().color, items[1].stroke.as_ref().unwrap().color);
        },
        _ => panic!("first child is not a mark"),
    }
}

#[test]
fn stacked_lines_carry_areas_below() {
    let data = vec![
        row3("A", "x", 10 * S),
        row3("A", "y", 20 * S),
        row3("B", "x", 15 * S),
        row3("B", "y", 25 * S),
    ];
    let enc = xyc("category", "value", "series");
    let group = vis_core::line::compile_line(
        &enc,
        &data,
        &plot100(),
        Some(&StackConfig::Enabled(true)),
    ).unwrap();
    // areas come first so the lines render on top
    match &group.children[0] {
        SceneNode::Mark(Mark { mark_type, items }) => {
            assert_eq!(*mark_type, IrMarkType::Area);
            assert_eq!(items.len(), 2);
        },
        _ => panic!("first child is not a mark"),
    }
    match &group.children[1] {
        SceneNode::Mark(Mark { mark_type, items }) => {
            assert_eq!(*mark_type, IrMarkType::Line);
            assert_eq!(items.len(), 2);
        },
        _ => panic!("second child is not a mark"),
    }
}

#[test]
fn value_axis_ticks_sit_at_pixel_positions() {
    // the value scale's ticks carry raw domain values; the axis needs
    // them mapped back through the same scale into pixels
    let data = vec![row2("A", 10 * S), row2("B", 20 * S)];
    let group = vis_core::bar::compile_bar(&xy("category", "value"), &data, &plot100(), None)
        .unwrap();
    // children: bars, three bottom-axis runs, three left-axis runs
    assert_eq!(group.children.len(), 7);
    let tick_rules = match &group.children[5] {
        SceneNode::Mark(Mark { mark_type, items }) => {
            assert_eq!(*mark_type, IrMarkType::Rule);
            items.clone()
        },
        _ => panic!("expected the left axis tick rules"),
    };
    // domain [0, 20] with ticks every 2: the zero tick sits at the plot
    // bottom, the last at the top
    match tick_rules.first().unwrap().geometry {
        Geometry::Rule { y1, .. } => assert_eq!(y1, 100 * S),
        _ => panic!("not a rule"),
    }
    match tick_rules.last().unwrap().geometry {
        Geometry::Rule { y1, .. } => assert_eq!(y1, 0),
        _ => panic!("not a rule"),
    }
}

#[test]
fn linear_ticks_carry_formatted_labels() {
    let ticks = vis_core::linear::LinearScale::new((0, 10 * S), (0, 100 * S)).ticks(5);
    // rough step 2 stays 2
    assert_eq!(ticks.len(), 6);
    assert_eq!(ticks[0].value, 0);
    assert_eq!(ticks[0].label, "0");
    assert_eq!(ticks[1].value, 2 * S);
    assert_eq!(ticks[1].label, "2");
    assert_eq!(ticks[5].label, "10");
}

#[test]
fn compile_reports_missing_pieces() {
    let base = ChartSpec {
        width: 100 * S,
        height: 100 * S,
        padding: Padding { top: 0, right: 0, bottom: 0, left: 0 },
        background: None,
        data: DataSpec::Inline { values: vec![] },
        mark: None,
        encoding: None,
        layer: None,
        stack: None,
        title: None,
    };
    match compile(&base) {
        Err(e) => assert_eq!(e.message(), "Missing required field: mark or layer"),
        Ok(_) => panic!("expected an error"),
    }
    let no_encoding = ChartSpec { mark: Some(MarkSpec::Simple(MarkType::Bar)), ..base.clone() };
    match compile(&no_encoding) {
        Err(e) => assert_eq!(e.message(), "Missing required field: encoding"),
        Ok(_) => panic!("expected an error"),
    }
    let named_data = ChartSpec {
        mark: Some(MarkSpec::Simple(MarkType::Bar)),
        encoding: Some(xy("category", "value")),
        data: DataSpec::Named { name: "elsewhere".to_string() },
        ..base.clone()
    };
    match compile(&named_data) {
        Err(e) => assert_eq!(e.message(), "Invalid data: inline data required"),
        Ok(_) => panic!("expected an error"),
    }
    let unsupported = ChartSpec {
        mark: Some(MarkSpec::Simple(MarkType::Point)),
        encoding: Some(xy("category", "value")),
        ..base.clone()
    };
    match compile(&unsupported) {
        Err(e) => assert_eq!(e.message(), "Unsupported mark type: Point"),
        Ok(_) => panic!("expected an error"),
    }
    // a channel failure inside the mark compiler propagates unchanged
    let no_x = ChartSpec {
        mark: Some(MarkSpec::Simple(MarkType::Bar)),
        encoding: Some(Encoding { y: Some(ChannelDef::Field("v".to_string())), ..empty_encoding() }),
        ..base.clone()
    };
    match compile(&no_x) {
        Err(e) => assert_eq!(e.message(), "Missing required field: encoding.x"),
        Ok(_) => panic!("expected an error"),
    }
}

#[test]
fn compile_mark_reports_channel_problems() {
    let data: Vec<Row> = vec![];
    let missing_x = Encoding { y: Some(ChannelDef::Field("v".to_string())), ..empty_encoding() };
    match compile_mark(MarkType::Bar, &missing_x, &data, &plot100(), None) {
        Err(CompileError::MissingField(f)) => assert_eq!(f, "encoding.x"),
        _ => panic!("expected a missing-field error"),
    }
    let fieldless = Encoding {
        x: Some(ChannelDef::Full(vis_core::encoding::ChannelDefFull {
            field: None,
            value: None,
            data_type: None,
            scale: None,
            aggregate: None,
            axis: None,
        })),
        y: Some(ChannelDef::Field("v".to_string())),
        ..empty_encoding()
    };
    match compile_mark(MarkType::Bar, &fieldless, &data, &plot100(), None) {
        Err(CompileError::InvalidEncoding(m)) => assert_eq!(m, "x must have a field"),
        _ => panic!("expected an invalid-encoding error"),
    }
}
