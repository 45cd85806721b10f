//! Visual style primitives: colors, strokes, fonts, and text alignment.

use vstd::prelude::*;

use crate::text::{dec_digits, dec_digits_padded};

verus! {

/// An RGBA color with 8-bit channels.
#[derive(Debug, Clone, Copy, PartialEq, Eq, Structural)]
pub struct Color {
    pub r: u8,
    pub g: u8,
    pub b: u8,
    pub a: u8,
}

/// The character for one lowercase hexadecimal digit.
pub open spec fn hex_digit_char(d: int) -> char {
    if d < 10 {
        crate::text::digit_char(d)
    } else if d == 10 {
        'a'
    } else if d == 11 {
        'b'
    } else if d == 12 {
        'c'
    } else if d == 13 {
        'd'
    } else if d == 14 {
        'e'
    } else {
        'f'
    }
}

/// Two lowercase hex digits for one byte.
pub open spec fn hex_byte_chars(n: int) -> Seq<char> {
    seq![hex_digit_char(n / 16), hex_digit_char(n % 16)]
}

/// The CSS text of a color: `#rrggbb` for opaque colors, otherwise
/// `rgba(r,g,b,0.aaa)` with the alpha fraction `a/255` rounded to three
/// decimal places.
pub open spec fn css_chars(c: Color) -> Seq<char> {
    if c.a == 255 {
        seq!['#'] + hex_byte_chars(c.r as int) + hex_byte_chars(c.g as int) + hex_byte_chars(
            c.b as int,
        )
    } else {
        seq!['r', 'g', 'b', 'a', '('] + dec_digits(c.r as int) + seq![','] + dec_digits(
            c.g as int,
        ) + seq![','] + dec_digits(c.b as int) + seq![',', '0', '.'] + dec_digits_padded(
            (400 * (c.a as int) + 51) / 102,
            3,
        ) + seq![')']
    }
}

fn hex_digit_str(d: u8) -> (r: &'static str)
    requires
        d < 16,
    ensures
        r@ == seq![hex_digit_char(d as int)],
{
    proof {
        reveal_strlit("a");
        reveal_strlit("b");
        reveal_strlit("c");
        reveal_strlit("d");
        reveal_strlit("e");
        reveal_strlit("f");
    }
    let r = if d < 10 {
        crate::text::digit_str(d as u64)
    } else if d == 10 {
        "a"
    } else if d == 11 {
        "b"
    } else if d == 12 {
        "c"
    } else if d == 13 {
        "d"
    } else if d == 14 {
        "e"
    } else {
        "f"
    };
    proof {
        assert(r@ =~= seq![hex_digit_char(d as int)]);
    }
    r
}

fn append_hex_byte(out: &mut String, n: u8)
    ensures
        final(out)@ == old(out)@ + hex_byte_chars(n as int),
{
    out.append(hex_digit_str(n / 16));
    out.append(hex_digit_str(n % 16));
    proof {
        assert(final(out)@ =~= old(out)@ + hex_byte_chars(n as int));
    }
}

impl Color {
    /// An opaque color from red, green, and blue channels.
    pub fn rgb(r: u8, g: u8, b: u8) -> (c: Color)
        ensures
            c == (Color { r, g, b, a: 255 }),
    {
        Color { r, g, b, a: 255 }
    }

    /// A color from red, green, blue, and alpha channels.
    pub fn rgba(r: u8, g: u8, b: u8, a: u8) -> (c: Color)
        ensures
            c == (Color { r, g, b, a }),
    {
        Color { r, g, b, a }
    }

    /// Render the color as CSS text.
    pub fn to_css(&self) -> (r: String)
        ensures
            r@ == css_chars(*self),
    {
        let mut out = String::new();
        if self.a == 255 {
            proof {
                reveal_strlit("#");
            }
            out.append("#");
            append_hex_byte(&mut out, self.r);
            append_hex_byte(&mut out, self.g);
            append_hex_byte(&mut out, self.b);
        } else {
            proof {
                reveal_strlit("rgba(");
                reveal_strlit(",");
                reveal_strlit(",0.");
                reveal_strlit(")");
            }
            out.append("rgba(");
            crate::text::append_u64(&mut out, self.r as u64);
            out.append(",");
            crate::text::append_u64(&mut out, self.g as u64);
            out.append(",");
            crate::text::append_u64(&mut out, self.b as u64);
            out.append(",0.");
            let thousandths: u64 = (400 * (self.a as u64) + 51) / 102;
            crate::text::append_u64_padded(&mut out, thousandths, 3);
            out.append(")");
        }
        proof {
            assert(out@ =~= css_chars(*self));
        }
        out
    }

    /// Parse a color from hex notation: any number of leading `#` marks,
    /// then exactly six (rgb) or eight (rgba) hex digits.
    pub fn from_hex(hex: &str) -> (r: Option<Color>)
        ensures
            r == spec_from_hex(hex@),
    {
        let len = hex.unicode_len();
        let mut st: usize = 0;
        let mut stopped = false;
        proof {
            assert(hex@.skip(0) =~= hex@);
        }
        while st < len && !stopped
            invariant
                st <= len,
                len == hex@.len(),
                strip_hashes(hex@) == strip_hashes(hex@.skip(st as int)),
                stopped ==> st < len && hex@[st as int] != '#',
            decreases len - st, 1int - if stopped {
                1int
            } else {
                0int
            },
        {
            if hex.get_char(st) == '#' {
                proof {
                    assert(hex@.skip(st as int)[0] == hex@[st as int]);
                    assert(hex@.skip(st as int).drop_first() =~= hex@.skip(st as int + 1));
                }
                st = st + 1;
            } else {
                stopped = true;
            }
        }
        let ghost h = hex@.skip(st as int);
        proof {
            if st < len {
                assert(h[0] == hex@[st as int]);
            }
            assert(strip_hashes(h) == h);
            assert(h.len() == len - st);
        }
        let n = len - st;
        if n != 6 && n != 8 {
            return None;
        }
        let r = match hex_byte_at(hex, st) {
            Some(v) => v,
            None => {
                return None;
            },
        };
        let g = match hex_byte_at(hex, st + 2) {
            Some(v) => v,
            None => {
                return None;
            },
        };
        let b = match hex_byte_at(hex, st + 4) {
            Some(v) => v,
            None => {
                return None;
            },
        };
        if n == 6 {
            proof {
                assert(forall|m: int| 0 <= m < 6 ==> #[trigger] h[m] == hex@[st + m]);
            }
            Some(Color { r, g, b, a: 255 })
        } else {
            let a = match hex_byte_at(hex, st + 6) {
                Some(v) => v,
                None => {
                    return None;
                },
            };
            proof {
                assert(forall|m: int| 0 <= m < 8 ==> #[trigger] h[m] == hex@[st + m]);
            }
            Some(Color { r, g, b, a })
        }
    }
}

/// Leading `#` marks removed.
pub open spec fn strip_hashes(s: Seq<char>) -> Seq<char>
    decreases s.len(),
{
    if s.len() > 0 && s[0] == '#' {
        strip_hashes(s.drop_first())
    } else {
        s
    }
}

/// Whether a character is a hexadecimal digit (either case).
pub open spec fn is_hex_char(c: char) -> bool {
    (48 <= c as u32 <= 57) || (97 <= c as u32 <= 102) || (65 <= c as u32 <= 70)
}

/// The numeric value of a hexadecimal digit character.
pub open spec fn hex_char_val(c: char) -> int {
    if 48 <= c as u32 <= 57 {
        c as u32 - 48
    } else if 97 <= c as u32 <= 102 {
        c as u32 - 87
    } else {
        c as u32 - 55
    }
}

/// The byte two hex digit characters denote.
pub open spec fn hex_pair_val(s: Seq<char>, i: int) -> int {
    hex_char_val(s[i]) * 16 + hex_char_val(s[i + 1])
}

/// What `Color::from_hex` accepts and produces.
pub open spec fn spec_from_hex(s: Seq<char>) -> Option<Color> {
    let h = strip_hashes(s);
    if h.len() == 6 && (forall|i: int| 0 <= i < 6 ==> is_hex_char(#[trigger] h[i])) {
        Some(
            Color {
                r: hex_pair_val(h, 0) as u8,
                g: hex_pair_val(h, 2) as u8,
                b: hex_pair_val(h, 4) as u8,
                a: 255,
            },
        )
    } else if h.len() == 8 && (forall|i: int| 0 <= i < 8 ==> is_hex_char(#[trigger] h[i])) {
        Some(
            Color {
                r: hex_pair_val(h, 0) as u8,
                g: hex_pair_val(h, 2) as u8,
                b: hex_pair_val(h, 4) as u8,
                a: hex_pair_val(h, 6) as u8,
            },
        )
    } else {
        None
    }
}

/// Read one hex digit character of `s`.
fn hex_char_at(s: &str, i: usize) -> (r: Option<u8>)
    requires
        i < s@.len(),
    ensures
        match r {
            Some(v) => is_hex_char(s@[i as int]) && v == hex_char_val(s@[i as int]) && v < 16,
            None => !is_hex_char(s@[i as int]),
        },
{
    let c = s.get_char(i);
    let cu = c as u32;
    if 48 <= cu && cu <= 57 {
        Some((cu - 48) as u8)
    } else if 97 <= cu && cu <= 102 {
        Some((cu - 87) as u8)
    } else if 65 <= cu && cu <= 70 {
        Some((cu - 55) as u8)
    } else {
        None
    }
}

/// Read one byte of two hex digit characters of `s`.
fn hex_byte_at(s: &str, i: usize) -> (r: Option<u8>)
    requires
        i + 1 < s@.len(),
        i + 2 <= usize::MAX,
    ensures
        match r {
            Some(v) => is_hex_char(s@[i as int]) && is_hex_char(s@[i as int + 1]) && v
                == hex_pair_val(s@, i as int),
            None => !(is_hex_char(s@[i as int]) && is_hex_char(s@[i as int + 1])),
        },
{
    let hi = match hex_char_at(s, i) {
        Some(v) => v,
        None => {
            return None;
        },
    };
    let lo = match hex_char_at(s, i + 1) {
        Some(v) => v,
        None => {
            return None;
        },
    };
    Some(hi * 16 + lo)
}

/// A stroke style: color, width (in millionths of a pixel), and an optional
/// dash pattern.
#[derive(Debug, Clone)]
pub struct Stroke {
    pub color: Color,
    pub width: i64,
    pub dash: Option<Vec<i64>>,
}

impl Stroke {
    /// A solid stroke.
    pub fn solid(color: Color, width: i64) -> (s: Stroke)
        ensures
            s.color == color,
            s.width == width,
            s.dash is None,
    {
        Stroke { color, width, dash: None }
    }

    /// A dashed stroke.
    pub fn dashed(color: Color, width: i64, dash: Vec<i64>) -> (s: Stroke)
        ensures
            s.color == color,
            s.width == width,
            s.dash == Some(dash),
    {
        Stroke { color, width, dash: Some(dash) }
    }
}

/// A font: family name, size (in millionths of a pixel), weight, and style.
#[derive(Debug, Clone)]
pub struct Font {
    pub family: String,
    pub size: i64,
    pub weight: FontWeight,
    pub style: FontStyle,
}

impl Default for Font {
    /// A 12-pixel normal-weight sans-serif font.
    fn default() -> (f: Font)
        ensures
            f.family@ == "sans-serif"@,
            f.size == 12 * crate::num::SCALE,
            f.weight == FontWeight::Normal,
            f.style == FontStyle::Normal,
    {
        Font {
            family: String::from_str("sans-serif"),
            size: 12 * crate::num::SCALE,
            weight: FontWeight::Normal,
            style: FontStyle::Normal,
        }
    }
}

#[derive(Debug, Clone, Copy, PartialEq, Eq, Structural)]
pub enum FontWeight {
    Normal,
    Bold,
}

#[derive(Debug, Clone, Copy, PartialEq, Eq, Structural)]
pub enum FontStyle {
    Normal,
    Italic,
}

/// Horizontal anchoring of a text mark.
#[derive(Debug, Clone, Copy, PartialEq, Eq, Structural)]
pub enum TextAnchor {
    Start,
    Middle,
    End,
}

impl Default for TextAnchor {
    fn default() -> (a: TextAnchor)
        ensures
            a == TextAnchor::Start,
    {
        TextAnchor::Start
    }
}

/// Vertical baseline of a text mark.
#[derive(Debug, Clone, Copy, PartialEq, Eq, Structural)]
pub enum TextBaseline {
    Top,
    Middle,
    Bottom,
    Alphabetic,
}

impl Default for TextBaseline {
    fn default() -> (b: TextBaseline)
        ensures
            b == TextBaseline::Alphabetic,
    {
        TextBaseline::Alphabetic
    }
}

} // verus!
