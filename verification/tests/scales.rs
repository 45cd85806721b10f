//! Scale behavior: band partitioning, linear mapping and inversion,
//! domain extension, and tick generation.  All values are in millionths
//! of a unit (`SCALE`).

use vis_core::band::BandScale;
use vis_core::linear::LinearScale;
use vis_core::num::SCALE;
use vis_core::scale::nice_ticks;

const S: i64 = SCALE;

fn labels(names: &[&str]) -> Vec<String> {
    names.iter().map(|n| n.to_string()).collect()
}

#[test]
fn test_band_scale() {
    let scale = BandScale::new(labels(&["A", "B", "C"]), (0, 300 * S)).padding(0);

    assert_eq!(scale.bandwidth(), 100 * S);
    assert_eq!(scale.scale(&"A".to_string()), Some(0));
    assert_eq!(scale.scale(&"B".to_string()), Some(100 * S));
    assert_eq!(scale.scale(&"C".to_string()), Some(200 * S));
}

#[test]
fn test_band_scale_with_padding() {
    let scale = BandScale::new(labels(&["A", "B"]), (0, 200 * S))
        .padding_inner(S / 5)
        .padding_outer(0);

    // With 2 bands and 20% inner padding:
    // step = 200 / (2 + 0 - 0.2) = 200 / 1.8 = 111.11
    // bandwidth = step * 0.8 = 88.89
    assert!((scale.step() - 111_110_000).abs() < S / 10);
    assert!((scale.bandwidth() - 88_890_000).abs() < S / 10);
}

#[test]
fn test_linear_scale() {
    let scale = LinearScale::new((0, 100 * S), (0, 500 * S));
    assert_eq!(scale.scale(0), 0);
    assert_eq!(scale.scale(50 * S), 250 * S);
    assert_eq!(scale.scale(100 * S), 500 * S);
}

#[test]
fn test_linear_scale_invert() {
    let scale = LinearScale::new((0, 100 * S), (0, 500 * S));
    assert_eq!(scale.invert(0), 0);
    assert_eq!(scale.invert(250 * S), 50 * S);
    assert_eq!(scale.invert(500 * S), 100 * S);
}

#[test]
fn test_linear_scale_zero() {
    let scale = LinearScale::new((10 * S, 100 * S), (0, 500 * S)).zero();
    assert_eq!(scale.domain(), (0, 100 * S));
}

#[test]
fn round_trip_returns_close_to_input() {
    // scale then invert comes back within the truncation budget
    let scale = LinearScale::new((0, 7 * S), (0, 3 * S));
    for v in [0, 1_234_567, 3 * S, 6_999_999] {
        let back = scale.invert(scale.scale(v));
        let err = (back - v).abs();
        // |err| * |range span| < domain span + range span
        assert!(err * (3 * S) < 7 * S + 3 * S);
    }
}

#[test]
fn degenerate_domain_collapses_to_range_min() {
    let scale = LinearScale::new((5 * S, 5 * S), (10 * S, 90 * S));
    assert_eq!(scale.scale(0), 10 * S);
    assert_eq!(scale.scale(5 * S), 10 * S);
    assert_eq!(scale.invert(123), 5 * S);
}

#[test]
fn descending_range_maps_upward() {
    // the y axis runs from the plot height down to zero
    let scale = LinearScale::new((0, 10 * S), (100 * S, 0));
    assert_eq!(scale.scale(0), 100 * S);
    assert_eq!(scale.scale(10 * S), 0);
    assert_eq!(scale.scale(5 * S), 50 * S);
}

#[test]
fn clamp_restricts_output_to_range() {
    let scale = LinearScale::new((0, 10 * S), (0, 100 * S)).clamp(true);
    assert_eq!(scale.scale(20 * S), 100 * S);
    assert_eq!(scale.scale(-5 * S), 0);
    assert_eq!(scale.scale(5 * S), 50 * S);
}

#[test]
fn nice_ticks_cover_the_domain() {
    // span 10 with ten ticks: unit steps from 0 to 10
    let ticks = nice_ticks(0, 10 * S, 10);
    assert_eq!(ticks.len(), 11);
    for (i, t) in ticks.iter().enumerate() {
        assert_eq!(*t, i as i64 * S);
    }
    // span 0..7 with ten ticks: rough step 0.7 snaps to 0.5
    let ticks = nice_ticks(0, 7 * S, 10);
    assert_eq!(ticks.len(), 15);
    assert_eq!(ticks[1] - ticks[0], S / 2);
    assert_eq!(*ticks.last().unwrap(), 7 * S);
    // residual over 3 snaps to 5
    let ticks = nice_ticks(0, 45 * S, 10);
    assert_eq!(ticks.first(), Some(&0));
    assert_eq!(ticks.last(), Some(&(45 * S)));
    assert_eq!(ticks[1] - ticks[0], 5 * S);
}

#[test]
fn nice_ticks_empty_cases() {
    assert!(nice_ticks(10 * S, 0, 10).is_empty());
    assert!(nice_ticks(0, 10 * S, 0).is_empty());
    assert!(nice_ticks(0, 0, 10).is_empty());
}

#[test]
fn nice_extends_domain_to_tick_bounds() {
    let scale = LinearScale::new((14 * S / 10, 86 * S / 10), (0, 100 * S)).nice();
    // rough step 0.72 snaps to 1: first tick at 2, last at 8
    assert_eq!(scale.domain(), (2 * S, 8 * S));
}

#[test]
fn band_ticks_sit_at_band_centers() {
    let scale = BandScale::new(labels(&["A", "B"]), (0, 200 * S)).padding(0);
    let ticks = scale.ticks();
    assert_eq!(ticks.len(), 2);
    assert_eq!(ticks[0].value, 50 * S);
    assert_eq!(ticks[0].label, "A");
    assert_eq!(ticks[1].value, 150 * S);
    assert_eq!(ticks[1].label, "B");
}

#[test]
fn band_scale_rejects_unknown_labels() {
    let scale = BandScale::new(labels(&["A"]), (0, 100 * S));
    assert_eq!(scale.scale(&"missing".to_string()), None);
}
