//! Data-type inference, field extraction, and axis mark generation.

use vis_core::axis::{generate_axis, LABEL_OFFSET, TICK_LENGTH};
use vis_core::compile::{extract_categories, extract_numbers, infer_data_type, PlotArea};
use vis_core::datum::{DataValue, Row};
use vis_core::encoding::{AxisOrient, DataType};
use vis_core::mark::{Geometry, MarkType};
use vis_core::num::SCALE;
use vis_core::scale::Tick;

const S: i64 = SCALE;

fn row_with(field: &str, value: DataValue) -> Row {
    let mut r = Row::new();
    r.push_field(field.to_string(), value);
    r
}

#[test]
fn inference_follows_the_first_carrier() {
    let f = "v".to_string();
    let nums = vec![row_with("v", DataValue::Num(S))];
    assert_eq!(infer_data_type(&nums, &f), DataType::Quantitative);
    let dates = vec![row_with("v", DataValue::Str("2024-01-05".to_string()))];
    assert_eq!(infer_data_type(&dates, &f), DataType::Temporal);
    let words = vec![row_with("v", DataValue::Str("abc".to_string()))];
    assert_eq!(infer_data_type(&words, &f), DataType::Nominal);
    // a short dashed string is still nominal
    let short = vec![row_with("v", DataValue::Str("a-b".to_string()))];
    assert_eq!(infer_data_type(&short, &f), DataType::Nominal);
    // booleans and nulls are passed over; the next carrier decides
    let mixed = vec![
        row_with("v", DataValue::Bool(true)),
        row_with("v", DataValue::Num(S)),
    ];
    assert_eq!(infer_data_type(&mixed, &f), DataType::Quantitative);
    // absent everywhere: the default
    let empty: Vec<Row> = vec![];
    assert_eq!(infer_data_type(&empty, &f), DataType::Nominal);
}

#[test]
fn extraction_keeps_row_order_and_skips_absentees() {
    let f = "v".to_string();
    let data = vec![
        row_with("v", DataValue::Str("b".to_string())),
        row_with("other", DataValue::Str("skip".to_string())),
        row_with("v", DataValue::Num(3 * S)),
        row_with("v", DataValue::Bool(false)),
    ];
    assert_eq!(extract_categories(&data, &f), vec!["b", "3", "false"]);
    assert_eq!(extract_numbers(&data, &f), vec![3 * S]);
}

#[test]
fn axis_marks_follow_their_side() {
    let plot = PlotArea { x: 0, y: 0, width: 100 * S, height: 80 * S };
    let ticks = vec![
        Tick { value: 10 * S, label: "10".to_string() },
        Tick { value: 60 * S, label: "60".to_string() },
    ];
    let title = "amount".to_string();
    let marks = generate_axis(AxisOrient::Bottom, &ticks, &plot, Some(&title));
    assert_eq!(marks.len(), 4);
    // the baseline rule spans the bottom edge
    assert_eq!(marks[0].mark_type, MarkType::Rule);
    match marks[0].items[0].geometry {
        Geometry::Rule { x1, y1, x2, y2 } => {
            assert_eq!((x1, y1, x2, y2), (0, 80 * S, 100 * S, 80 * S));
        },
        _ => panic!("not a rule"),
    }
    // each tick drops below the edge, its label further down
    assert_eq!(marks[1].items.len(), 2);
    match marks[1].items[0].geometry {
        Geometry::Rule { x1, y1, x2, y2 } => {
            assert_eq!((x1, y1, x2, y2), (10 * S, 80 * S, 10 * S, 80 * S + TICK_LENGTH));
        },
        _ => panic!("not a rule"),
    }
    assert_eq!(marks[2].mark_type, MarkType::Text);
    match &marks[2].items[1].geometry {
        Geometry::Text { x, y, text, .. } => {
            assert_eq!(*x, 60 * S);
            assert_eq!(*y, 80 * S + TICK_LENGTH + LABEL_OFFSET);
            assert_eq!(text, "60");
        },
        _ => panic!("not a text"),
    }
    // the title sits centered under the axis
    match &marks[3].items[0].geometry {
        Geometry::Text { x, text, .. } => {
            assert_eq!(*x, 50 * S);
            assert_eq!(text, "amount");
        },
        _ => panic!("not a text"),
    }
    // without a title only the three tick runs appear
    let untitled = generate_axis(AxisOrient::Left, &ticks, &plot, None);
    assert_eq!(untitled.len(), 3);
}
