//! The data model: rows are flat records mapping field names to scalar
//! values.  Numbers are fixed-point integers in millionths of a unit.

use vstd::prelude::*;

use crate::num::{lemma_pow10_mul, lemma_pow10_pos, lemma_pow10_vals, pow10, SCALE, VALUE_LIMIT};
use crate::text::{dec_digits, dec_digits_padded, digit_char};

verus! {

/// One scalar value of a data row.
#[derive(Debug)]
pub enum DataValue {
    Null,
    Bool(bool),
    /// A number, in millionths of a unit.
    Num(i64),
    Str(String),
}

/// The mathematical shape of a scalar value.
pub enum GData {
    Null,
    Bool(bool),
    Num(int),
    Str(Seq<char>),
}

impl DeepView for DataValue {
    type V = GData;

    open spec fn deep_view(&self) -> GData {
        match self {
            DataValue::Null => GData::Null,
            DataValue::Bool(b) => GData::Bool(*b),
            DataValue::Num(n) => GData::Num(*n as int),
            DataValue::Str(s) => GData::Str(s@),
        }
    }
}

impl Clone for DataValue {
    fn clone(&self) -> (r: DataValue)
        ensures
            r.deep_view() == self.deep_view(),
    {
        match self {
            DataValue::Null => DataValue::Null,
            DataValue::Bool(b) => DataValue::Bool(*b),
            DataValue::Num(n) => DataValue::Num(*n),
            DataValue::Str(s) => DataValue::Str(s.clone()),
        }
    }
}

impl DataValue {
    /// The number a value directly carries, if any (no string coercion).
    pub fn as_number(&self) -> (r: Option<i64>)
        ensures
            r == self.spec_number(),
    {
        match self {
            DataValue::Num(n) => Some(*n),
            _ => None,
        }
    }

    pub open spec fn spec_number(&self) -> Option<i64> {
        match self {
            DataValue::Num(n) => Some(*n),
            _ => None,
        }
    }
}

/// One named field of a row.
#[derive(Debug)]
pub struct Field {
    pub name: String,
    pub value: DataValue,
}

/// The mathematical shape of a field.
pub struct GField {
    pub name: Seq<char>,
    pub value: GData,
}

impl DeepView for Field {
    type V = GField;

    open spec fn deep_view(&self) -> GField {
        GField { name: self.name@, value: self.value.deep_view() }
    }
}

impl Clone for Field {
    fn clone(&self) -> (r: Field)
        ensures
            r.deep_view() == self.deep_view(),
    {
        Field { name: self.name.clone(), value: self.value.clone() }
    }
}

/// A data row: an ordered list of named scalar fields.  Lookups take the
/// first field with the requested name.
#[derive(Debug)]
pub struct Row {
    pub fields: Vec<Field>,
}

impl DeepView for Row {
    type V = Seq<GField>;

    open spec fn deep_view(&self) -> Seq<GField> {
        self.fields.deep_view()
    }
}

impl Clone for Row {
    fn clone(&self) -> (r: Row)
        ensures
            r.deep_view() == self.deep_view(),
    {
        let n = self.fields.len();
        let mut fields: Vec<Field> = Vec::new();
        let mut i: usize = 0;
        while i < n
            invariant
                i <= n,
                n == self.fields@.len(),
                fields@.len() == i,
                forall|j: int|
                    0 <= j < i ==> (#[trigger] fields@[j]).deep_view()
                        == self.fields@[j].deep_view(),
            decreases n - i,
        {
            fields.push(self.fields[i].clone());
            i = i + 1;
        }
        let r = Row { fields };
        proof {
            assert(r.deep_view() =~= self.deep_view());
        }
        r
    }
}

/// The value of the first field named `name`, if any.
pub open spec fn row_lookup(fields: Seq<GField>, name: Seq<char>) -> Option<GData>
    decreases fields.len(),
{
    if fields.len() == 0 {
        None
    } else if fields[0].name == name {
        Some(fields[0].value)
    } else {
        row_lookup(fields.drop_first(), name)
    }
}

/// A successful lookup returns one of the fields' values.
pub proof fn lemma_row_lookup_member(fields: Seq<GField>, name: Seq<char>)
    ensures
        row_lookup(fields, name) matches Some(v) ==> exists|j: int|
            0 <= j < fields.len() && (#[trigger] fields[j]).value == v,
    decreases fields.len(),
{
    if fields.len() > 0 && fields[0].name != name {
        lemma_row_lookup_member(fields.drop_first(), name);
        if row_lookup(fields, name) is Some {
            let v = row_lookup(fields, name).unwrap();
            let j = choose|j: int|
                0 <= j < fields.drop_first().len() && (#[trigger] fields.drop_first()[j]).value
                    == v;
            assert(fields[j + 1].value == v);
        }
    }
}

impl Row {
    pub open spec fn spec_get(&self, name: Seq<char>) -> Option<GData> {
        row_lookup(self.deep_view(), name)
    }

    pub fn new() -> (r: Row)
        ensures
            r.deep_view() =~= Seq::<GField>::empty(),
    {
        Row { fields: Vec::new() }
    }

    /// Append a field.  An earlier field with the same name shadows it.
    pub fn push_field(&mut self, name: String, value: DataValue)
        ensures
            final(self).deep_view() == old(self).deep_view() + seq![
                GField { name: name@, value: value.deep_view() },
            ],
    {
        let ghost gf = GField { name: name@, value: value.deep_view() };
        self.fields.push(Field { name, value });
        proof {
            assert(final(self).deep_view() =~= old(self).deep_view() + seq![gf]);
        }
    }

    /// Look up the first field with the given name.
    pub fn get(&self, name: &String) -> (r: Option<&DataValue>)
        ensures
            match r {
                Some(v) => self.spec_get(name@) == Some(v.deep_view()),
                None => self.spec_get(name@) == None::<GData>,
            },
    {
        let ghost gfields = self.deep_view();
        let n = self.fields.len();
        let mut i: usize = 0;
        proof {
            assert(gfields.skip(0) =~= gfields);
        }
        while i < n
            invariant
                i <= n,
                n == self.fields@.len(),
                gfields == self.deep_view(),
                gfields.len() == n,
                row_lookup(gfields, name@) == row_lookup(gfields.skip(i as int), name@),
            decreases n - i,
        {
            proof {
                assert(gfields.skip(i as int)[0] == gfields[i as int]);
                assert(gfields[i as int] == self.fields@[i as int].deep_view());
            }
            if self.fields[i].name == *name {
                return Some(&self.fields[i].value);
            }
            proof {
                assert(gfields.skip(i as int).drop_first() =~= gfields.skip(i as int + 1));
            }
            i = i + 1;
        }
        None
    }
}

/// Trailing `'0'` characters removed.
pub open spec fn trim_zeros(s: Seq<char>) -> Seq<char>
    decreases s.len(),
{
    if s.len() > 0 && s.last() == '0' {
        trim_zeros(s.drop_last())
    } else {
        s
    }
}

/// The canonical text of a number: the integral part in decimal, and, when
/// the fractional part is nonzero, a `.` followed by the fractional digits
/// with trailing zeros removed.  Integral numbers render with no decimal
/// point, so a numeric field `42` and a string field `"42"` coerce to the
/// same category key.
pub open spec fn num_chars(n: int) -> Seq<char> {
    let m = if n < 0 {
        -n
    } else {
        n
    };
    let sign: Seq<char> = if n < 0 {
        seq!['-']
    } else {
        Seq::<char>::empty()
    };
    if m % (SCALE as int) == 0 {
        sign + dec_digits(m / (SCALE as int))
    } else {
        sign + dec_digits(m / (SCALE as int)) + seq!['.'] + trim_zeros(
            dec_digits_padded(m % (SCALE as int), 6),
        )
    }
}

/// `trim_zeros` removes one trailing zero digit of the padded rendering.
proof fn lemma_trim_step(d: int, w: int)
    requires
        w > 1,
        d % 10 == 0,
        d >= 0,
    ensures
        trim_zeros(dec_digits_padded(d, w)) == trim_zeros(dec_digits_padded(d / 10, w - 1)),
{
    let s = dec_digits_padded(d / 10, w - 1) + seq![digit_char(d % 10)];
    assert(dec_digits_padded(d, w) == s);
    assert(s.last() == '0');
    assert(s.drop_last() =~= dec_digits_padded(d / 10, w - 1));
}

/// Once the last digit is nonzero, trimming is the identity.
proof fn lemma_trim_done(d: int, w: int)
    requires
        d >= 0,
        d % 10 != 0,
    ensures
        trim_zeros(dec_digits_padded(d, w)) == dec_digits_padded(d, w),
    decreases w,
{
    if w <= 1 {
        assert(dec_digits_padded(d, w) == seq![digit_char(d % 10)]);
        assert(dec_digits_padded(d, w).last() == digit_char(d % 10));
    } else {
        let s = dec_digits_padded(d / 10, w - 1) + seq![digit_char(d % 10)];
        assert(dec_digits_padded(d, w) == s);
        assert(s.last() == digit_char(d % 10));
    }
}

/// Append the canonical text of the number `n` (in millionths) to `out`.
pub fn append_number(out: &mut String, n: i64)
    ensures
        final(out)@ == old(out)@ + num_chars(n as int),
{
    proof {
        reveal_strlit("-");
        reveal_strlit(".");
    }
    let m: u64 = if n < 0 {
        (-(n as i128)) as u64
    } else {
        n as u64
    };
    if n < 0 {
        out.append("-");
    }
    let s: u64 = SCALE as u64;
    crate::text::append_u64(out, m / s);
    let frac: u64 = m % s;
    if frac > 0 {
        out.append(".");
        let mut d: u64 = frac;
        let mut w: u64 = 6;
        proof {
            assert(frac < 1000000) by {
                assert(m % s < s);
            }
            assert(dec_digits_padded(frac as int, 6) == dec_digits_padded(d as int, w as int));
            assert(pow10(0) == 1 && pow10(1) == 10 && pow10(2) == 100 && pow10(3) == 1000 && pow10(
                4,
            ) == 10000 && pow10(5) == 100000 && pow10(6) == 1000000);
        }
        while w > 1 && d % 10 == 0
            invariant
                1 <= w <= 6,
                d >= 1,
                d < pow10(w as int),
                trim_zeros(dec_digits_padded(frac as int, 6)) == trim_zeros(
                    dec_digits_padded(d as int, w as int),
                ),
            decreases w,
        {
            proof {
                lemma_trim_step(d as int, w as int);
                assert(d / 10 >= 1) by {
                    assert(d % 10 == 0 && d >= 1);
                }
                lemma_pow10_pos(w as int - 1);
                assert(pow10(w as int) == 10 * pow10(w as int - 1));
                assert((d as int) / 10 < pow10(w as int - 1)) by (nonlinear_arith)
                    requires
                        0 < d < pow10(w as int),
                        pow10(w as int) == 10 * pow10(w as int - 1),
                        pow10(w as int - 1) >= 1,
                ;
            }
            d = d / 10;
            w = w - 1;
        }
        proof {
            if d % 10 == 0 {
                // then w == 1, so d < 10 and d % 10 == d >= 1: impossible
                assert(pow10(1) == 10);
                assert(false);
            }
            lemma_trim_done(d as int, w as int);
        }
        crate::text::append_u64_padded(out, d, w);
    }
    proof {
        assert(final(out)@ =~= old(out)@ + num_chars(n as int));
    }
}

/// The text a value coerces to when used as a category or series key.
/// Numbers use their canonical text, so `42` and `"42"` collide by design.
pub open spec fn gvalue_chars(v: GData) -> Seq<char> {
    match v {
        GData::Str(t) => t,
        GData::Num(n) => num_chars(n),
        GData::Bool(b) => if b {
            seq!['t', 'r', 'u', 'e']
        } else {
            seq!['f', 'a', 'l', 's', 'e']
        },
        GData::Null => seq!['n', 'u', 'l', 'l'],
    }
}

/// The key coercion of an exec value.
pub open spec fn value_chars(v: DataValue) -> Seq<char> {
    gvalue_chars(v.deep_view())
}

/// Coerce a value to its text form (the category-key coercion).
pub fn value_to_string(v: &DataValue) -> (r: String)
    ensures
        r@ == value_chars(*v),
{
    match v {
        DataValue::Str(s) => s.clone(),
        DataValue::Num(n) => {
            let mut out = String::new();
            append_number(&mut out, *n);
            proof {
                assert(out@ =~= value_chars(*v));
            }
            out
        },
        DataValue::Bool(b) => {
            proof {
                reveal_strlit("true");
                reveal_strlit("false");
            }
            let r = if *b {
                String::from_str("true")
            } else {
                String::from_str("false")
            };
            proof {
                assert(r@ =~= value_chars(*v));
            }
            r
        },
        DataValue::Null => {
            proof {
                reveal_strlit("null");
            }
            let r = String::from_str("null");
            proof {
                assert(r@ =~= value_chars(*v));
            }
            r
        },
    }
}

/// Whether a character is a decimal digit.
pub open spec fn is_digit(c: char) -> bool {
    48 <= c as u32 <= 57
}

/// The numeric value of a digit character.
pub open spec fn digit_val(c: char) -> int {
    c as u32 - 48
}

/// All characters of the sequence are decimal digits.
pub open spec fn all_digits(s: Seq<char>) -> bool {
    forall|i: int| 0 <= i < s.len() ==> is_digit(#[trigger] s[i])
}

/// The number a digit sequence denotes, most significant digit first.
pub open spec fn digits_val(s: Seq<char>) -> int
    decreases s.len(),
{
    if s.len() == 0 {
        0
    } else {
        digits_val(s.drop_last()) * 10 + digit_val(s.last())
    }
}

/// Index of the first `'.'`, or the length when there is none.
pub open spec fn dot_pos(s: Seq<char>) -> int
    decreases s.len(),
{
    if s.len() == 0 {
        0
    } else if s[0] == '.' {
        0
    } else {
        1 + dot_pos(s.drop_first())
    }
}

proof fn lemma_dot_pos(s: Seq<char>)
    ensures
        0 <= dot_pos(s) <= s.len(),
        forall|m: int| 0 <= m < dot_pos(s) ==> #[trigger] s[m] != '.',
        dot_pos(s) < s.len() ==> s[dot_pos(s)] == '.',
    decreases s.len(),
{
    if s.len() > 0 && s[0] != '.' {
        lemma_dot_pos(s.drop_first());
        assert forall|m: int| 0 <= m < dot_pos(s) implies #[trigger] s[m] != '.' by {
            if m >= 1 {
                assert(s[m] == s.drop_first()[m - 1]);
            }
        }
    }
}

proof fn lemma_digits_val_nonneg(s: Seq<char>)
    requires
        all_digits(s),
    ensures
        digits_val(s) >= 0,
    decreases s.len(),
{
    if s.len() > 0 {
        assert(all_digits(s.drop_last())) by {
            assert(forall|i: int|
                0 <= i < s.len() - 1 ==> s.drop_last()[i] == #[trigger] s[i]);
        }
        lemma_digits_val_nonneg(s.drop_last());
    }
}

/// Appending one digit multiplies the value by ten and adds the digit.
proof fn lemma_digits_val_snoc(s: Seq<char>, i: int)
    requires
        0 <= i < s.len(),
    ensures
        digits_val(s.take(i + 1)) == digits_val(s.take(i)) * 10 + digit_val(s[i]),
{
    assert(s.take(i + 1).drop_last() =~= s.take(i));
    assert(s.take(i + 1).last() == s[i]);
}

/// A digit string's value only grows as more digits are read.
proof fn lemma_digits_val_prefix_le(s: Seq<char>, i: int, k: int)
    requires
        0 <= i <= k <= s.len(),
        forall|m: int| 0 <= m < k ==> is_digit(#[trigger] s[m]),
    ensures
        digits_val(s.take(i)) <= digits_val(s.take(k)),
    decreases k - i,
{
    if i < k {
        lemma_digits_val_snoc(s, i);
        assert(all_digits(s.take(i))) by {
            assert(forall|m: int| 0 <= m < i ==> s.take(i)[m] == #[trigger] s[m]);
        }
        lemma_digits_val_nonneg(s.take(i));
        lemma_digits_val_prefix_le(s, i + 1, k);
    }
}

/// The fractional digits of a number, expressed in millionths: the first
/// six fractional digits, with shorter runs scaled up.
pub open spec fn frac_micro(f: Seq<char>) -> int {
    if f.len() >= 6 {
        digits_val(f.take(6))
    } else {
        digits_val(f) * pow10(6 - f.len())
    }
}

/// Whether a numeric string starts with a minus sign.
pub open spec fn number_neg(s: Seq<char>) -> bool {
    s.len() > 0 && s[0] == '-'
}

/// The string with a leading minus sign removed.
pub open spec fn unsigned_part(s: Seq<char>) -> Seq<char> {
    if number_neg(s) {
        s.skip(1)
    } else {
        s
    }
}

/// The shape this crate's numeric parser accepts: an optional minus sign,
/// one or more integral digits, and optionally a `'.'` followed by one or
/// more fractional digits.  (No exponent form, no leading `+`.)
pub open spec fn number_shape_ok(s: Seq<char>) -> bool {
    let t = unsigned_part(s);
    let k = dot_pos(t);
    &&& k >= 1
    &&& all_digits(t.take(k))
    &&& (k == t.len() || (k + 1 < t.len() && all_digits(t.skip(k + 1))))
}

/// The number (in millionths) a well-shaped numeric string denotes, with
/// fractional digits beyond the sixth ignored.
pub open spec fn number_val(s: Seq<char>) -> int {
    let t = unsigned_part(s);
    let k = dot_pos(t);
    let m = digits_val(t.take(k)) * (SCALE as int) + if k < t.len() {
        frac_micro(t.skip(k + 1))
    } else {
        0
    };
    if number_neg(s) {
        -m
    } else {
        m
    }
}

proof fn lemma_dot_pos_at(s: Seq<char>, p: int)
    requires
        0 <= p < s.len(),
        forall|m: int| 0 <= m < p ==> #[trigger] s[m] != '.',
        s[p] == '.',
    ensures
        dot_pos(s) == p,
    decreases p,
{
    if p > 0 {
        lemma_dot_pos_at(s.drop_first(), p - 1);
    }
}

proof fn lemma_frac_micro_nonneg(f: Seq<char>)
    requires
        all_digits(f),
    ensures
        frac_micro(f) >= 0,
{
    if f.len() >= 6 {
        assert(all_digits(f.take(6))) by {
            assert(forall|m: int| 0 <= m < 6 ==> f.take(6)[m] == #[trigger] f[m]);
        }
        lemma_digits_val_nonneg(f.take(6));
    } else {
        lemma_digits_val_nonneg(f);
        lemma_pow10_pos(6 - f.len());
        assert(digits_val(f) * pow10(6 - f.len()) >= 0) by (nonlinear_arith)
            requires
                digits_val(f) >= 0,
                pow10(6 - f.len()) >= 1,
        ;
    }
}

/// If the integral digits read so far already exceed the integral budget,
/// any well-shaped completion exceeds `VALUE_LIMIT` in magnitude.
proof fn lemma_int_part_large(s: Seq<char>, p: int)
    requires
        number_shape_ok(s),
        0 <= p <= unsigned_part(s).len(),
        forall|m: int| 0 <= m < p ==> is_digit(#[trigger] unsigned_part(s)[m]),
        digits_val(unsigned_part(s).take(p)) > 100_000_000,
    ensures
        number_val(s) > VALUE_LIMIT as int || number_val(s) < -(VALUE_LIMIT as int),
{
    let t = unsigned_part(s);
    let k = dot_pos(t);
    lemma_dot_pos(t);
    if k < p {
        assert(t[k] == '.');
        assert(is_digit(t[k]));
        assert(false);
    }
    assert(forall|m: int| 0 <= m < k ==> is_digit(#[trigger] t[m])) by {
        assert(forall|m: int| 0 <= m < k ==> t.take(k)[m] == #[trigger] t[m]);
    }
    lemma_digits_val_prefix_le(t, p, k);
    let ip = digits_val(t.take(k));
    let fm: int = if k < t.len() {
        frac_micro(t.skip(k + 1))
    } else {
        0
    };
    if k < t.len() {
        lemma_frac_micro_nonneg(t.skip(k + 1));
    }
    assert(ip * (SCALE as int) > VALUE_LIMIT as int) by (nonlinear_arith)
        requires
            ip > 100_000_000,
            SCALE == 1_000_000i64,
            VALUE_LIMIT == 100_000_000_000_000i64,
    ;
}

fn pow10_u64(e: u64) -> (r: u64)
    requires
        e <= 6,
    ensures
        r == pow10(e as int),
{
    proof {
        assert(pow10(0) == 1 && pow10(1) == 10 && pow10(2) == 100 && pow10(3) == 1000 && pow10(4)
            == 10000 && pow10(5) == 100000 && pow10(6) == 1000000);
    }
    if e == 0 {
        1
    } else if e == 1 {
        10
    } else if e == 2 {
        100
    } else if e == 3 {
        1000
    } else if e == 4 {
        10000
    } else if e == 5 {
        100000
    } else {
        1000000
    }
}

/// Parse the canonical numeric shape `[-]digits[.digits]` into millionths of
/// a unit; fractional digits beyond the sixth are ignored.  Returns `None`
/// for any other shape and for magnitudes above [`VALUE_LIMIT`].
#[verifier::rlimit(50)]
pub fn parse_number(s: &str) -> (r: Option<i64>)
    ensures
        r == if number_shape_ok(s@) && -(VALUE_LIMIT as int) <= number_val(s@) <= (
        VALUE_LIMIT as int) {
            Some(number_val(s@) as i64)
        } else {
            None::<i64>
        },
{
    let len = s.unicode_len();
    if len == 0 {
        return None;
    }
    let neg = s.get_char(0) == '-';
    let off: usize = if neg {
        1
    } else {
        0
    };
    let ghost t: Seq<char> = unsigned_part(s@);
    proof {
        assert(t.len() == len - off);
        assert(forall|m: int| 0 <= m < t.len() ==> #[trigger] t[m] == s@[m + off]);
    }
    // integral digits
    let mut i: usize = off;
    let mut acc: u64 = 0;
    let mut stopped = false;
    while i < len && !stopped
        invariant
            off <= i <= len,
            off <= 1,
            len == s@.len(),
            t == unsigned_part(s@),
            t.len() == len - off,
            forall|m: int| 0 <= m < t.len() ==> #[trigger] t[m] == s@[m + off],
            neg == number_neg(s@),
            forall|m: int| 0 <= m < i - off ==> is_digit(#[trigger] t[m]),
            acc == digits_val(t.take(i - off)),
            acc <= 100_000_000,
            stopped ==> i < len && !is_digit(t[i - off]),
        decreases len - i, 1int - if stopped { 1int } else { 0int },
    {
        let c = s.get_char(i);
        let cu = c as u32;
        if 48 <= cu && cu <= 57 {
            proof {
                lemma_digits_val_snoc(t, i - off);
            }
            acc = acc * 10 + ((cu - 48) as u64);
            i = i + 1;
            if acc > 100_000_000 {
                proof {
                    if number_shape_ok(s@) {
                        lemma_int_part_large(s@, i - off);
                    }
                }
                return None;
            }
        } else {
            stopped = true;
        }
    }
    let ghost p = i - off;
    if i == off {
        // no integral digits: the shape is rejected
        proof {
            lemma_dot_pos(t);
            if number_shape_ok(s@) {
                let k = dot_pos(t);
                assert(k >= 1);
                assert(t.len() > 0);
                assert(is_digit(t.take(k)[0]));
                assert(false);
            }
        }
        return None;
    }
    if !stopped {
        // ran out of characters: an integral number
        proof {
            lemma_dot_pos(t);
            if dot_pos(t) < t.len() {
                assert(t[dot_pos(t)] == '.');
                assert(is_digit(t[dot_pos(t)]));
                assert(('.' as u32) < 48);
                assert(false);
            }
            assert(all_digits(t.take(t.len() as int))) by {
                assert(forall|m: int|
                    0 <= m < t.len() ==> t.take(t.len() as int)[m] == #[trigger] t[m]);
            }
            assert(t.take(t.len() as int) =~= t);
            assert(number_shape_ok(s@));
        }
        let total: u64 = acc * 1_000_000;
        let signed: i64 = if neg {
            -(total as i64)
        } else {
            total as i64
        };
        return Some(signed);
    }
    // the integral digits stopped before the end: expect a dot
    let c = s.get_char(i);
    if c != '.' {
        proof {
            lemma_dot_pos(t);
            if number_shape_ok(s@) {
                let k = dot_pos(t);
                if k < p {
                    assert(t[k] == '.');
                    assert(is_digit(t.take(k + 1)[k]));
                    assert(('.' as u32) < 48);
                    assert(false);
                }
                if k == p {
                    assert(t[k] == '.');
                    assert(false);
                }
                assert(is_digit(t.take(k)[p]));
                assert(false);
            }
        }
        return None;
    }
    proof {
        lemma_dot_pos_at(t, p);
    }
    let fs = i + 1;
    if fs == len {
        // a trailing dot with no fractional digits is rejected
        proof {
            assert(dot_pos(t) == p && p + 1 == t.len());
        }
        return None;
    }
    let ghost f = t.skip(p + 1);
    let mut j = fs;
    let mut facc: u64 = 0;
    while j < len
        invariant
            fs <= j <= len,
            off + 1 <= fs < len,
            len == s@.len(),
            t == unsigned_part(s@),
            t.len() == len - off,
            forall|m: int| 0 <= m < t.len() ==> #[trigger] t[m] == s@[m + off],
            neg == number_neg(s@),
            p == fs - 1 - off,
            dot_pos(t) == p,
            1 <= p < t.len(),
            forall|m: int| 0 <= m < p ==> is_digit(#[trigger] t[m]),
            acc == digits_val(t.take(p)),
            acc <= 100_000_000,
            f == t.skip(p + 1),
            f.len() == len - fs,
            forall|m: int| 0 <= m < j - fs ==> is_digit(#[trigger] f[m]),
            j - fs <= 6 ==> facc == digits_val(f.take(j - fs)) && facc < pow10(j - fs),
            j - fs > 6 ==> facc == digits_val(f.take(6)) && facc < pow10(6),
        decreases len - j,
    {
        proof {
            lemma_pow10_vals();
            assert(f[j - fs] == t[j - off] && t[j - off] == s@[j as int]);
        }
        let c = s.get_char(j);
        let cu = c as u32;
        if 48 <= cu && cu <= 57 {
            if j - fs < 6 {
                proof {
                    lemma_digits_val_snoc(f, j - fs);
                }
                facc = facc * 10 + ((cu - 48) as u64);
            }
            j = j + 1;
        } else {
            // a non-digit in the fractional part: the shape is rejected
            proof {
                if number_shape_ok(s@) {
                    assert(all_digits(t.skip(p + 1)));
                    assert(is_digit(f[j - fs]));
                    assert(false);
                }
            }
            return None;
        }
    }
    proof {
        assert(all_digits(f));
        assert(all_digits(t.take(p))) by {
            assert(forall|m: int| 0 <= m < p ==> t.take(p)[m] == #[trigger] t[m]);
        }
        assert(number_shape_ok(s@));
    }
    let fcount = len - fs;
    let fm: u64 = if fcount >= 6 {
        facc
    } else {
        proof {
            assert(f.take(f.len() as int) =~= f);
            lemma_digits_val_nonneg(f);
            lemma_pow10_vals();
            lemma_pow10_mul(fcount as int, 6 - fcount);
            assert((facc as int) * pow10(6 - fcount) < pow10(fcount as int) * pow10(6 - fcount))
                by (nonlinear_arith)
                requires
                    0 <= facc < pow10(fcount as int),
                    pow10(6 - fcount) >= 1,
            ;
        }
        facc * pow10_u64((6 - fcount) as u64)
    };
    proof {
        lemma_pow10_vals();
        assert(fm == frac_micro(f));
        assert(fm < 1000000) by {
            lemma_pow10_vals();
            if fcount < 6 {
                assert((facc as int) * pow10(6 - fcount) < pow10(fcount as int) * pow10(
                    6 - fcount,
                )) by (nonlinear_arith)
                    requires
                        facc < pow10(fcount as int),
                        pow10(6 - fcount) >= 1,
                ;
                lemma_pow10_mul(fcount as int, 6 - fcount);
            }
        }
    }
    let total: u64 = acc * 1_000_000 + fm;
    if total > 100_000_000_000_000 {
        return None;
    }
    let signed: i64 = if neg {
        -(total as i64)
    } else {
        total as i64
    };
    Some(signed)
}

/// The numeric reading of a value: numbers read as themselves, strings are
/// parsed with [`parse_number`], everything else has none.
pub fn value_to_num(v: &DataValue) -> (r: Option<i64>)
    ensures
        r == match v {
            DataValue::Num(n) => Some(*n),
            DataValue::Str(s) => if number_shape_ok(s@) && -(VALUE_LIMIT as int) <= number_val(s@)
                <= (VALUE_LIMIT as int) {
                Some(number_val(s@) as i64)
            } else {
                None::<i64>
            },
            _ => None::<i64>,
        },
{
    match v {
        DataValue::Num(n) => Some(*n),
        DataValue::Str(s) => parse_number(s.as_str()),
        _ => None,
    }
}

} // verus!
