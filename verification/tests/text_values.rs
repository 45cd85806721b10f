//! Text handling: number formatting, value coercion, numeric parsing,
//! colors, and XML escaping.

use vis_core::datum::{parse_number, value_to_num, value_to_string, DataValue};
use vis_core::num::SCALE;
use vis_core::scale::format_number;
use vis_core::compile::CompileError;
use vis_core::style::Color;
use vis_core::text::{escape_xml, i64_to_string};

const S: i64 = SCALE;

#[test]
fn format_number_picks_magnitude_suffixes() {
    assert_eq!(format_number(1_500_000 * S), "1.5M");
    assert_eq!(format_number(2_000_000 * S), "2.0M");
    assert_eq!(format_number(12_345 * S), "12.3K");
    assert_eq!(format_number(1_000 * S), "1.0K");
    assert_eq!(format_number(42 * S), "42");
    assert_eq!(format_number(0), "0");
    assert_eq!(format_number(3_140_000), "3.14");
    assert_eq!(format_number(-3_140_000), "-3.14");
    assert_eq!(format_number(-1_500_000 * S), "-1.5M");
    // two decimals round the third away
    assert_eq!(format_number(1_005_000), "1.01");
    assert_eq!(format_number(-1), "-0.00");
    // exact ties round away from zero (not to even)
    assert_eq!(format_number(1_250 * S), "1.3K");
    assert_eq!(format_number(-1_250 * S), "-1.3K");
    assert_eq!(format_number(2_250_000 * S), "2.3M");
}

#[test]
fn value_to_string_coerces_every_scalar() {
    assert_eq!(value_to_string(&DataValue::Str("hi".to_string())), "hi");
    assert_eq!(value_to_string(&DataValue::Num(42 * S)), "42");
    assert_eq!(value_to_string(&DataValue::Num(42 * S + 500_000)), "42.5");
    assert_eq!(value_to_string(&DataValue::Num(-3 * S - 140_000)), "-3.14");
    assert_eq!(value_to_string(&DataValue::Bool(true)), "true");
    assert_eq!(value_to_string(&DataValue::Bool(false)), "false");
    assert_eq!(value_to_string(&DataValue::Null), "null");
}

#[test]
fn parse_number_accepts_the_plain_decimal_shape() {
    assert_eq!(parse_number("42"), Some(42 * S));
    assert_eq!(parse_number("-3.5"), Some(-3 * S - 500_000));
    assert_eq!(parse_number("0.25"), Some(250_000));
    // fractional digits beyond the sixth are ignored
    assert_eq!(parse_number("3.14159265"), Some(3_141_592));
    assert_eq!(parse_number(""), None);
    assert_eq!(parse_number("-"), None);
    assert_eq!(parse_number("12."), None);
    assert_eq!(parse_number(".5"), None);
    assert_eq!(parse_number("1e3"), None);
    assert_eq!(parse_number("12a"), None);
    // beyond the value budget
    assert_eq!(parse_number("999999999999999"), None);
}

#[test]
fn value_to_num_reads_numbers_and_numeric_text() {
    assert_eq!(value_to_num(&DataValue::Num(7 * S)), Some(7 * S));
    assert_eq!(value_to_num(&DataValue::Str("7.5".to_string())), Some(7_500_000));
    assert_eq!(value_to_num(&DataValue::Str("x".to_string())), None);
    assert_eq!(value_to_num(&DataValue::Bool(true)), None);
    assert_eq!(value_to_num(&DataValue::Null), None);
}

#[test]
fn colors_render_and_parse() {
    assert_eq!(Color::rgb(255, 105, 180).to_css(), "#ff69b4");
    assert_eq!(Color::rgba(255, 0, 0, 128).to_css(), "rgba(255,0,0,0.502)");
    assert_eq!(Color::rgba(0, 0, 0, 0).to_css(), "rgba(0,0,0,0.000)");
    assert_eq!(Color::from_hex("#ff69b4"), Some(Color::rgb(255, 105, 180)));
    assert_eq!(Color::from_hex("ff69b4"), Some(Color::rgb(255, 105, 180)));
    assert_eq!(Color::from_hex("##ff69b4"), Some(Color::rgb(255, 105, 180)));
    assert_eq!(Color::from_hex("#FF69B4"), Some(Color::rgb(255, 105, 180)));
    assert_eq!(Color::from_hex("#11223344"), Some(Color::rgba(0x11, 0x22, 0x33, 0x44)));
    assert_eq!(Color::from_hex("#ff69b"), None);
    assert_eq!(Color::from_hex("#gg0000"), None);
    assert_eq!(Color::from_hex(""), None);
}

#[test]
fn palette_matches_its_hex_notation() {
    // the palette colors are the parsed forms of their hex names
    assert_eq!(Some(vis_core::bar::palette_color(0)), Color::from_hex("#ff69b4"));
    assert_eq!(Some(vis_core::bar::palette_color(1)), Color::from_hex("#f28e2b"));
    assert_eq!(Some(vis_core::bar::palette_color(9)), Color::from_hex("#bab0ab"));
    // indexes wrap modulo the palette size
    assert_eq!(vis_core::bar::palette_color(10), vis_core::bar::palette_color(0));
}

#[test]
fn escape_xml_replaces_markup_characters() {
    assert_eq!(escape_xml("a<b>&\"c'"), "a&lt;b&gt;&amp;&quot;c&apos;");
    assert_eq!(escape_xml("plain"), "plain");
    assert_eq!(escape_xml(""), "");
}

#[test]
fn integers_render_in_decimal() {
    assert_eq!(i64_to_string(0), "0");
    assert_eq!(i64_to_string(12345), "12345");
    assert_eq!(i64_to_string(-7), "-7");
    assert_eq!(i64_to_string(i64::MIN), "-9223372036854775808");
}

#[test]
fn error_messages_name_their_cause() {
    let e = CompileError::InvalidEncoding("y must have a field".to_string());
    assert_eq!(e.message(), "Invalid encoding: y must have a field");
}
