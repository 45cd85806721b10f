//! Stack engine behavior: zero-mode partitioning, normalize-mode bounds,
//! center-mode placement, and the extrema helpers.

use vis_core::chart::{StackConfig, StackMode};
use vis_core::datum::{DataValue, Row};
use vis_core::num::SCALE;
use vis_core::stack::{compute_stack, max_stacked_value, min_stacked_value};

const S: i64 = SCALE;

fn row(cat: &str, series: &str, value: i64) -> Row {
    let mut r = Row::new();
    r.push_field("cat".to_string(), DataValue::Str(cat.to_string()));
    r.push_field("series".to_string(), DataValue::Str(series.to_string()));
    r.push_field("value".to_string(), DataValue::Num(value));
    r
}

fn fields() -> (String, String, String) {
    ("cat".to_string(), "value".to_string(), "series".to_string())
}

#[test]
fn zero_mode_partitions_each_category() {
    let data = vec![
        row("A", "x", 10 * S),
        row("A", "y", 20 * S),
        row("B", "x", 5 * S),
        row("A", "z", 30 * S),
    ];
    let (cf, vf, sf) = fields();
    let stacked = compute_stack(&data, &cf, &vf, &sf, &StackConfig::Enabled(true));
    assert_eq!(stacked.len(), 4);
    // categories come out grouped in first-seen order: A's rows, then B's
    let a: Vec<_> = stacked.iter().filter(|s| s.category == "A").collect();
    assert_eq!(a.len(), 3);
    assert_eq!((a[0].y0, a[0].y1), (0, 10 * S));
    assert_eq!((a[1].y0, a[1].y1), (10 * S, 30 * S));
    assert_eq!((a[2].y0, a[2].y1), (30 * S, 60 * S));
    // no gaps, no overlaps, final top is the category sum
    assert_eq!(a[1].y0, a[0].y1);
    assert_eq!(a[2].y0, a[1].y1);
    assert_eq!(a[2].y1, (10 + 20 + 30) * S);
    let b: Vec<_> = stacked.iter().filter(|s| s.category == "B").collect();
    assert_eq!((b[0].y0, b[0].y1), (0, 5 * S));
}

#[test]
fn normalize_mode_stays_within_the_unit_interval() {
    let data = vec![
        row("A", "x", 10 * S),
        row("A", "y", 10 * S),
        row("A", "z", 20 * S),
    ];
    let (cf, vf, sf) = fields();
    let stacked = compute_stack(&data, &cf, &vf, &sf, &StackConfig::Mode(StackMode::Normalize));
    assert_eq!(stacked.len(), 3);
    for s in &stacked {
        assert!(0 <= s.y0 && s.y0 <= s.y1 && s.y1 <= S);
    }
    // fractions of the category total of 40
    assert_eq!((stacked[0].y0, stacked[0].y1), (0, S / 4));
    assert_eq!((stacked[1].y0, stacked[1].y1), (S / 4, S / 2));
    assert_eq!((stacked[2].y0, stacked[2].y1), (S / 2, S));
    // the final top is exactly one
    assert_eq!(stacked[2].y1, S);
}

#[test]
fn normalize_mode_with_zero_total_collapses() {
    let data = vec![row("A", "x", 0), row("A", "y", 0)];
    let (cf, vf, sf) = fields();
    let stacked = compute_stack(&data, &cf, &vf, &sf, &StackConfig::Mode(StackMode::Normalize));
    for s in &stacked {
        assert_eq!((s.y0, s.y1), (0, 0));
    }
}

#[test]
fn center_mode_straddles_zero() {
    let data = vec![row("A", "x", 10 * S), row("A", "y", 30 * S)];
    let (cf, vf, sf) = fields();
    let stacked = compute_stack(&data, &cf, &vf, &sf, &StackConfig::Mode(StackMode::Center));
    // total 40: the stack runs from -20 to +20
    assert_eq!((stacked[0].y0, stacked[0].y1), (-20 * S, -10 * S));
    assert_eq!((stacked[1].y0, stacked[1].y1), (-10 * S, 20 * S));
}

#[test]
fn stacking_disabled_produces_nothing() {
    let data = vec![row("A", "x", 10 * S)];
    let (cf, vf, sf) = fields();
    let stacked = compute_stack(&data, &cf, &vf, &sf, &StackConfig::Enabled(false));
    assert!(stacked.is_empty());
}

#[test]
fn missing_fields_fall_back_to_defaults() {
    // a row without the category field lands in the empty-string
    // category, and a missing value counts as zero
    let mut bare = Row::new();
    bare.push_field("series".to_string(), DataValue::Str("x".to_string()));
    let data = vec![bare, row("A", "y", 7 * S)];
    let (cf, vf, sf) = fields();
    let stacked = compute_stack(&data, &cf, &vf, &sf, &StackConfig::Enabled(true));
    assert_eq!(stacked.len(), 2);
    assert_eq!(stacked[0].category, "");
    assert_eq!((stacked[0].y0, stacked[0].y1), (0, 0));
    assert_eq!(stacked[1].category, "A");
}

#[test]
fn numeric_category_keys_use_canonical_text() {
    let mut r1 = Row::new();
    r1.push_field("cat".to_string(), DataValue::Num(42 * S));
    r1.push_field("value".to_string(), DataValue::Num(S));
    let mut r2 = Row::new();
    r2.push_field("cat".to_string(), DataValue::Str("42".to_string()));
    r2.push_field("value".to_string(), DataValue::Num(2 * S));
    let (cf, vf, sf) = fields();
    let stacked = compute_stack(&vec![r1, r2], &cf, &vf, &sf, &StackConfig::Enabled(true));
    // `42` and `"42"` collide into one category by design
    assert_eq!(stacked.len(), 2);
    assert_eq!(stacked[0].category, "42");
    assert_eq!(stacked[1].category, "42");
    assert_eq!((stacked[1].y0, stacked[1].y1), (S, 3 * S));
}

#[test]
fn extrema_fold_with_sentinels() {
    let data = vec![row("A", "x", 10 * S), row("A", "y", 30 * S)];
    let (cf, vf, sf) = fields();
    let stacked = compute_stack(&data, &cf, &vf, &sf, &StackConfig::Mode(StackMode::Center));
    assert_eq!(max_stacked_value(&stacked), 20 * S);
    assert_eq!(min_stacked_value(&stacked), -20 * S);
    // empty input: the fold identities stand in for "no data"
    let empty: Vec<vis_core::stack::StackedValue> = Vec::new();
    assert_eq!(max_stacked_value(&empty), 0);
    assert_eq!(min_stacked_value(&empty), i64::MAX);
}
