//! Compilation entry points and shared helpers: error kinds, the plot
//! area, data-type inference, and field extraction.

use vstd::prelude::*;

use crate::chart::MarkType;
use crate::datum::{gvalue_chars, row_lookup, value_to_string, GData, GField, Row};
use crate::encoding::DataType;
use crate::num::RANGE_LIMIT;

verus! {

/// Why a compile pass failed.  Compilation is all-or-nothing: no partial
/// scene graph accompanies an error.
#[derive(Debug)]
pub enum CompileError {
    /// A required top-level element (encoding, mark, a channel's field) is
    /// absent.
    MissingField(String),
    /// The data source cannot be used (only inline data is supported).
    InvalidData(String),
    /// The mark type is recognized but not compiled.
    UnsupportedMark(MarkType),
    /// A channel exists but cannot be resolved into a usable field.
    InvalidEncoding(String),
}

/// The displayed name of a mark type.
pub open spec fn mark_type_name(t: MarkType) -> Seq<char> {
    match t {
        MarkType::Bar => seq!['B', 'a', 'r'],
        MarkType::Line => seq!['L', 'i', 'n', 'e'],
        MarkType::Point => seq!['P', 'o', 'i', 'n', 't'],
        MarkType::Area => seq!['A', 'r', 'e', 'a'],
        MarkType::Rule => seq!['R', 'u', 'l', 'e'],
        MarkType::Text => seq!['T', 'e', 'x', 't'],
        MarkType::Rect => seq!['R', 'e', 'c', 't'],
        MarkType::Boxplot => seq!['B', 'o', 'x', 'p', 'l', 'o', 't'],
        MarkType::Bullet => seq!['B', 'u', 'l', 'l', 'e', 't'],
        MarkType::Funnel => seq!['F', 'u', 'n', 'n', 'e', 'l'],
    }
}

fn mark_type_str(t: MarkType) -> (r: &'static str)
    ensures
        r@ == mark_type_name(t),
{
    proof {
        reveal_strlit("Bar");
        reveal_strlit("Line");
        reveal_strlit("Point");
        reveal_strlit("Area");
        reveal_strlit("Rule");
        reveal_strlit("Text");
        reveal_strlit("Rect");
        reveal_strlit("Boxplot");
        reveal_strlit("Bullet");
        reveal_strlit("Funnel");
    }
    let r = match t {
        MarkType::Bar => "Bar",
        MarkType::Line => "Line",
        MarkType::Point => "Point",
        MarkType::Area => "Area",
        MarkType::Rule => "Rule",
        MarkType::Text => "Text",
        MarkType::Rect => "Rect",
        MarkType::Boxplot => "Boxplot",
        MarkType::Bullet => "Bullet",
        MarkType::Funnel => "Funnel",
    };
    proof {
        assert(r@ =~= mark_type_name(t));
    }
    r
}

impl CompileError {
    /// The human-readable text of the error.
    pub fn message(&self) -> (r: String)
        ensures
            match self {
                CompileError::MissingField(s) => r@ == "Missing required field: "@ + s@,
                CompileError::InvalidData(s) => r@ == "Invalid data: "@ + s@,
                CompileError::UnsupportedMark(t) => r@ == "Unsupported mark type: "@
                    + mark_type_name(*t),
                CompileError::InvalidEncoding(s) => r@ == "Invalid encoding: "@ + s@,
            },
    {
        match self {
            CompileError::MissingField(s) => {
                let mut out = String::from_str("Missing required field: ");
                out.append(s.as_str());
                out
            },
            CompileError::InvalidData(s) => {
                let mut out = String::from_str("Invalid data: ");
                out.append(s.as_str());
                out
            },
            CompileError::UnsupportedMark(t) => {
                let mut out = String::from_str("Unsupported mark type: ");
                out.append(mark_type_str(*t));
                out
            },
            CompileError::InvalidEncoding(s) => {
                let mut out = String::from_str("Invalid encoding: ");
                out.append(s.as_str());
                out
            },
        }
    }
}

/// The rectangle the marks are drawn into, inside the chart's padding.
#[derive(Debug, Clone, Copy, PartialEq, Eq, Structural)]
pub struct PlotArea {
    pub x: i64,
    pub y: i64,
    pub width: i64,
    pub height: i64,
}

impl PlotArea {
    /// Well-formedness: all coordinates in pixel space.
    pub open spec fn wf(self) -> bool {
        &&& -RANGE_LIMIT <= self.x <= RANGE_LIMIT
        &&& -RANGE_LIMIT <= self.y <= RANGE_LIMIT
        &&& -RANGE_LIMIT <= self.width <= RANGE_LIMIT
        &&& -RANGE_LIMIT <= self.height <= RANGE_LIMIT
    }
}

/// The plot area a chart declares: its padding insets applied to its
/// size.
pub open spec fn plot_of(c: crate::chart::ChartSpec) -> PlotArea {
    PlotArea {
        x: c.padding.left,
        y: c.padding.top,
        width: (c.width - c.padding.left - c.padding.right) as i64,
        height: (c.height - c.padding.top - c.padding.bottom) as i64,
    }
}

/// The machine budget on a chart: pixel sizes and paddings within the
/// pixel-space bound, and inline rows within the row budget.
pub open spec fn chart_ok(c: crate::chart::ChartSpec) -> bool {
    &&& 0 <= c.width <= crate::num::PIXEL_LIMIT
    &&& 0 <= c.height <= crate::num::PIXEL_LIMIT
    &&& 0 <= c.padding.top <= crate::num::PIXEL_LIMIT
    &&& 0 <= c.padding.right <= crate::num::PIXEL_LIMIT
    &&& 0 <= c.padding.bottom <= crate::num::PIXEL_LIMIT
    &&& 0 <= c.padding.left <= crate::num::PIXEL_LIMIT
    &&& (c.data matches crate::chart::DataSpec::Inline { values } ==> crate::stack::rows_all_ok(
        values.deep_view(),
    ))
}

/// Compile one mark: bar and line marks have compilers, everything else
/// is refused.
pub fn compile_mark(
    mark_type: MarkType,
    encoding: &crate::encoding::Encoding,
    data: &Vec<Row>,
    plot_area: &PlotArea,
    stack_config: Option<&crate::chart::StackConfig>,
) -> (r: Result<crate::scene::Group, CompileError>)
    requires
        plot_area.wf(),
        crate::stack::rows_all_ok(data.deep_view()),
    ensures
        mark_type == MarkType::Bar ==> (match r {
            Ok(g) => crate::bar::bar_fields_ok(*encoding) && crate::bar::bar_group_ok(
                g,
                *encoding,
                data.deep_view(),
                *plot_area,
                stack_config,
            ),
            Err(e) => !crate::bar::bar_fields_ok(*encoding) && crate::bar::fields_error_ok(
                e,
                *encoding,
            ),
        }),
        mark_type == MarkType::Line ==> (match r {
            Ok(g) => crate::bar::bar_fields_ok(*encoding) && crate::line::line_group_ok(
                g,
                *encoding,
                data.deep_view(),
                *plot_area,
                stack_config,
            ),
            Err(e) => !crate::bar::bar_fields_ok(*encoding) && crate::bar::fields_error_ok(
                e,
                *encoding,
            ),
        }),
        mark_type != MarkType::Bar && mark_type != MarkType::Line ==> (r
            matches Err(CompileError::UnsupportedMark(t)) && t == mark_type),
{
    match mark_type {
        MarkType::Bar => crate::bar::compile_bar(encoding, data, plot_area, stack_config),
        MarkType::Line => crate::line::compile_line(encoding, data, plot_area, stack_config),
        _ => Err(CompileError::UnsupportedMark(mark_type)),
    }
}

/// Compile a chart description into a scene graph.
///
/// Succeeds exactly when the description names a mark, an encoding with
/// both positional channels carrying fields, inline data, and a mark type
/// with a compiler; the scene then holds the declared size, the parsed
/// background color, and the compiled plot group.
pub fn compile(chart: &crate::chart::ChartSpec) -> (r: Result<crate::scene::Scene, CompileError>)
    requires
        chart_ok(*chart),
    ensures
        ({
            let plot = plot_of(*chart);
            match r {
                Ok(s) => {
                    &&& chart.mark matches Some(ms)
                    &&& chart.encoding matches Some(e)
                    &&& chart.data matches crate::chart::DataSpec::Inline { values }
                    &&& s.width == chart.width
                    &&& s.height == chart.height
                    &&& (match chart.background {
                        Some(b) => s.background == crate::style::spec_from_hex(b@),
                        None => s.background is None,
                    })
                    &&& chart.mark.unwrap().spec_mark_type() == crate::chart::MarkType::Bar
                        ==> crate::bar::bar_group_ok(
                        s.root,
                        chart.encoding.unwrap(),
                        values.deep_view(),
                        plot,
                        match chart.stack {
                            Some(ref sc) => Some(sc),
                            None => None,
                        },
                    )
                    &&& chart.mark.unwrap().spec_mark_type() == crate::chart::MarkType::Line
                        ==> crate::line::line_group_ok(
                        s.root,
                        chart.encoding.unwrap(),
                        values.deep_view(),
                        plot,
                        match chart.stack {
                            Some(ref sc) => Some(sc),
                            None => None,
                        },
                    )
                    &&& (chart.mark.unwrap().spec_mark_type() == crate::chart::MarkType::Bar
                        || chart.mark.unwrap().spec_mark_type() == crate::chart::MarkType::Line)
                },
                Err(e) => {
                    &&& (chart.mark is Some && chart.encoding is None ==> (e
                        matches CompileError::MissingField(s) && s@ == "encoding"@))
                    &&& (chart.mark is Some && chart.encoding is Some && (chart.data
                        matches crate::chart::DataSpec::Named { .. }) ==> (e
                        matches CompileError::InvalidData(s) && s@ == "inline data required"@))
                    &&& (chart.mark is Some && chart.encoding is Some && (chart.data
                        matches crate::chart::DataSpec::Inline { .. })
                        && chart.mark.unwrap().spec_mark_type() != crate::chart::MarkType::Bar
                        && chart.mark.unwrap().spec_mark_type() != crate::chart::MarkType::Line
                        ==> (e matches CompileError::UnsupportedMark(t) && t
                        == chart.mark.unwrap().spec_mark_type()))
                    &&& (chart.mark is Some && chart.encoding is Some && (chart.data
                        matches crate::chart::DataSpec::Inline { .. })
                        && (chart.mark.unwrap().spec_mark_type() == crate::chart::MarkType::Bar
                        || chart.mark.unwrap().spec_mark_type() == crate::chart::MarkType::Line)
                        ==> !crate::bar::bar_fields_ok(chart.encoding.unwrap())
                        && crate::bar::fields_error_ok(e, chart.encoding.unwrap()))
                    &&& (chart.mark is None && chart.layer is Some ==> (e
                        matches CompileError::UnsupportedMark(t) && t
                        == crate::chart::MarkType::Line))
                    &&& (chart.mark is None && chart.layer is None ==> (e
                        matches CompileError::MissingField(s) && s@ == "mark or layer"@))
                },
            }
        }),
        // success is owed: a mark with a compiler, an encoding whose
        // positional channels carry fields, and inline data always compile
        (chart.mark is Some && chart.encoding is Some && (chart.data
            matches crate::chart::DataSpec::Inline { .. }) && (chart.mark.unwrap().spec_mark_type()
            == crate::chart::MarkType::Bar || chart.mark.unwrap().spec_mark_type()
            == crate::chart::MarkType::Line) && crate::bar::bar_fields_ok(chart.encoding.unwrap()))
            ==> r is Ok,
{
    let mut scene = crate::scene::Scene::new(chart.width, chart.height);
    match &chart.background {
        Some(bg) => {
            match crate::style::Color::from_hex(bg.as_str()) {
                Some(color) => {
                    scene.background = Some(color);
                },
                None => {},
            }
        },
        None => {},
    }
    let plot_area = PlotArea {
        x: chart.padding.left,
        y: chart.padding.top,
        width: chart.width - chart.padding.left - chart.padding.right,
        height: chart.height - chart.padding.top - chart.padding.bottom,
    };
    match &chart.mark {
        Some(mark_spec) => {
            let encoding = match &chart.encoding {
                Some(e) => e,
                None => {
                    return Err(CompileError::MissingField(String::from_str("encoding")));
                },
            };
            let data = match chart.data.values() {
                Some(v) => v,
                None => {
                    return Err(
                        CompileError::InvalidData(String::from_str("inline data required")),
                    );
                },
            };
            let stack_ref: Option<&crate::chart::StackConfig> = match &chart.stack {
                Some(sc) => Some(sc),
                None => None,
            };
            let compiled = compile_mark(
                mark_spec.mark_type(),
                encoding,
                data,
                &plot_area,
                stack_ref,
            );
            match compiled {
                Ok(g) => {
                    scene.root = g;
                    Ok(scene)
                },
                Err(e) => Err(e),
            }
        },
        None => {
            if chart.layer.is_some() {
                // multi-layer charts are recognized but not compiled
                Err(CompileError::UnsupportedMark(crate::chart::MarkType::Line))
            } else {
                Err(CompileError::MissingField(String::from_str("mark or layer")))
            }
        },
    }
}

/// The type inferred for a field: the first row carrying the field as a
/// number or text decides (numbers are quantitative; text with a `-` and
/// at least eight characters reads as a date; other text is nominal);
/// rows carrying it as a boolean or null are passed over, and a field
/// never carried as either defaults to nominal.
pub open spec fn spec_infer_data_type(rows: Seq<Seq<GField>>, f: Seq<char>) -> DataType
    decreases rows.len(),
{
    if rows.len() == 0 {
        DataType::Nominal
    } else {
        match row_lookup(rows[0], f) {
            Some(GData::Num(_)) => DataType::Quantitative,
            Some(GData::Str(t)) => if t.contains('-') && t.len() >= 8 {
                DataType::Temporal
            } else {
                DataType::Nominal
            },
            _ => spec_infer_data_type(rows.drop_first(), f),
        }
    }
}

/// Whether a string holds a character.
pub(crate) fn string_contains_char(s: &String, c: char) -> (r: bool)
    ensures
        r == s@.contains(c),
{
    let str = s.as_str();
    let len = str.unicode_len();
    let mut i: usize = 0;
    while i < len
        invariant
            i <= len,
            len == s@.len(),
            str@ == s@,
            forall|j: int| 0 <= j < i ==> s@[j] != c,
        decreases len - i,
    {
        if str.get_char(i) == c {
            return true;
        }
        i = i + 1;
    }
    proof {
        if s@.contains(c) {
            let j = choose|j: int| 0 <= j < s@.len() && s@[j] == c;
            assert(false);
        }
    }
    false
}

/// Infer the data type of a field from the rows.
pub fn infer_data_type(values: &Vec<Row>, field: &String) -> (r: DataType)
    ensures
        r == spec_infer_data_type(values.deep_view(), field@),
{
    let ghost rows = values.deep_view();
    let n = values.len();
    let mut i: usize = 0;
    proof {
        assert(rows.skip(0) =~= rows);
    }
    while i < n
        invariant
            i <= n,
            n == rows.len(),
            rows == values.deep_view(),
            spec_infer_data_type(rows, field@) == spec_infer_data_type(
                rows.skip(i as int),
                field@,
            ),
        decreases n - i,
    {
        proof {
            assert(rows.skip(i as int)[0] == rows[i as int]);
            assert(rows[i as int] == values@[i as int].deep_view());
            assert(rows.skip(i as int).drop_first() =~= rows.skip(i as int + 1));
        }
        match values[i].get(field) {
            Some(v) => match v {
                crate::datum::DataValue::Num(_) => {
                    return DataType::Quantitative;
                },
                crate::datum::DataValue::Str(s) => {
                    let dash = string_contains_char(s, '-');
                    let long_enough = s.as_str().unicode_len() >= 8;
                    if dash && long_enough {
                        return DataType::Temporal;
                    }
                    return DataType::Nominal;
                },
                _ => {},
            },
            None => {},
        }
        i = i + 1;
    }
    proof {
        assert(rows.skip(n as int) =~= Seq::<Seq<GField>>::empty());
    }
    DataType::Nominal
}

/// The key texts of the rows that carry the field, in row order (rows
/// without the field contribute nothing here).
pub open spec fn spec_categories(rows: Seq<Seq<GField>>, f: Seq<char>) -> Seq<Seq<char>>
    decreases rows.len(),
{
    if rows.len() == 0 {
        Seq::<Seq<char>>::empty()
    } else {
        let rest = spec_categories(rows.drop_last(), f);
        match row_lookup(rows.last(), f) {
            Some(v) => rest.push(gvalue_chars(v)),
            None => rest,
        }
    }
}

/// The numbers of the rows that carry the field as a number, in row
/// order.
pub open spec fn spec_numbers(rows: Seq<Seq<GField>>, f: Seq<char>) -> Seq<int>
    decreases rows.len(),
{
    if rows.len() == 0 {
        Seq::<int>::empty()
    } else {
        let rest = spec_numbers(rows.drop_last(), f);
        match row_lookup(rows.last(), f) {
            Some(GData::Num(n)) => rest.push(n),
            _ => rest,
        }
    }
}

/// The view texts of a string sequence.
pub open spec fn str_views(s: Seq<String>) -> Seq<Seq<char>> {
    s.map_values(|x: String| x@)
}

/// The sequence with later repetitions removed (first occurrences kept,
/// in order).
pub open spec fn dedup_first(s: Seq<Seq<char>>) -> Seq<Seq<char>>
    decreases s.len(),
{
    if s.len() == 0 {
        Seq::<Seq<char>>::empty()
    } else {
        let rest = dedup_first(s.drop_last());
        if rest.contains(s.last()) {
            rest
        } else {
            rest.push(s.last())
        }
    }
}

/// Deduplicated texts are pairwise distinct.
pub proof fn lemma_dedup_distinct(s: Seq<Seq<char>>)
    ensures
        forall|j: int, k: int|
            0 <= j < k < dedup_first(s).len() ==> #[trigger] dedup_first(s)[j]
                != #[trigger] dedup_first(s)[k],
    decreases s.len(),
{
    if s.len() > 0 {
        lemma_dedup_distinct(s.drop_last());
        let rest = dedup_first(s.drop_last());
        let whole = dedup_first(s);
        if !rest.contains(s.last()) {
            assert forall|j: int, k: int| 0 <= j < k < whole.len() implies #[trigger] whole[j]
                != #[trigger] whole[k] by {
                if k < rest.len() {
                    assert(whole[j] == rest[j] && whole[k] == rest[k]);
                } else {
                    assert(whole[k] == s.last());
                    assert(whole[j] == rest[j]);
                    if rest[j] == s.last() {
                        assert(rest.contains(s.last()));
                    }
                }
            }
        }
    }
}

/// Extract the field's values as category key texts.
pub fn extract_categories(data: &Vec<Row>, field: &String) -> (r: Vec<String>)
    ensures
        str_views(r@) == spec_categories(data.deep_view(), field@),
{
    let ghost rows = data.deep_view();
    let n = data.len();
    let mut r: Vec<String> = Vec::new();
    let mut i: usize = 0;
    proof {
        assert(rows.take(0) =~= Seq::<Seq<GField>>::empty());
        assert(str_views(r@) =~= spec_categories(rows.take(0), field@));
    }
    while i < n
        invariant
            i <= n,
            n == rows.len(),
            rows == data.deep_view(),
            str_views(r@) == spec_categories(rows.take(i as int), field@),
        decreases n - i,
    {
        proof {
            assert(rows.take(i as int + 1).drop_last() =~= rows.take(i as int));
            assert(rows.take(i as int + 1).last() == rows[i as int]);
            assert(rows[i as int] == data@[i as int].deep_view());
        }
        let ghost old_r = r@;
        match data[i].get(field) {
            Some(v) => {
                let s = value_to_string(v);
                r.push(s);
                proof {
                    assert(str_views(r@) =~= str_views(old_r).push(s@));
                }
            },
            None => {},
        }
        proof {
            assert(str_views(r@) =~= spec_categories(rows.take(i as int + 1), field@));
        }
        i = i + 1;
    }
    proof {
        assert(rows.take(n as int) =~= rows);
    }
    r
}

/// Extract the field's values as numbers.
pub fn extract_numbers(data: &Vec<Row>, field: &String) -> (r: Vec<i64>)
    ensures
        r@.map_values(|x: i64| x as int) == spec_numbers(data.deep_view(), field@),
{
    let ghost rows = data.deep_view();
    let n = data.len();
    let mut r: Vec<i64> = Vec::new();
    let mut i: usize = 0;
    proof {
        assert(rows.take(0) =~= Seq::<Seq<GField>>::empty());
        assert(r@.map_values(|x: i64| x as int) =~= spec_numbers(rows.take(0), field@));
    }
    while i < n
        invariant
            i <= n,
            n == rows.len(),
            rows == data.deep_view(),
            r@.map_values(|x: i64| x as int) == spec_numbers(rows.take(i as int), field@),
        decreases n - i,
    {
        proof {
            assert(rows.take(i as int + 1).drop_last() =~= rows.take(i as int));
            assert(rows.take(i as int + 1).last() == rows[i as int]);
            assert(rows[i as int] == data@[i as int].deep_view());
        }
        let ghost old_r = r@;
        match data[i].get(field) {
            Some(v) => match v.as_number() {
                Some(num) => {
                    r.push(num);
                    proof {
                        assert(r@.map_values(|x: i64| x as int) =~= old_r.map_values(
                            |x: i64| x as int,
                        ).push(num as int));
                    }
                },
                None => {},
            },
            None => {},
        }
        proof {
            assert(r@.map_values(|x: i64| x as int) =~= spec_numbers(
                rows.take(i as int + 1),
                field@,
            ));
        }
        i = i + 1;
    }
    proof {
        assert(rows.take(n as int) =~= rows);
    }
    r
}

/// The category key of a row for the non-stacked mark paths: only text
/// and numeric fields yield one (booleans and nulls are skipped here,
/// unlike in the stack engine, where they coerce to key texts).
pub open spec fn cat_opt(rv: Seq<GField>, f: Seq<char>) -> Option<Seq<char>> {
    match row_lookup(rv, f) {
        Some(GData::Str(t)) => Some(t),
        Some(GData::Num(n)) => Some(crate::datum::num_chars(n)),
        _ => None,
    }
}

/// The numeric value of a row's field, if it carries one.
pub open spec fn num_opt(rv: Seq<GField>, f: Seq<char>) -> Option<int> {
    match row_lookup(rv, f) {
        Some(GData::Num(n)) => Some(n),
        _ => None,
    }
}

/// The category key of a row, for the non-stacked paths.
pub(crate) fn row_cat_opt(r: &Row, f: &String) -> (k: Option<String>)
    ensures
        match k {
            Some(s) => cat_opt(r.deep_view(), f@) == Some(s@),
            None => cat_opt(r.deep_view(), f@) is None,
        },
{
    match r.get(f) {
        Some(v) => match v {
            crate::datum::DataValue::Str(s) => Some(s.clone()),
            crate::datum::DataValue::Num(n) => {
                let mut out = String::new();
                crate::datum::append_number(&mut out, *n);
                proof {
                    assert(out@ =~= crate::datum::num_chars(*n as int));
                }
                Some(out)
            },
            _ => None,
        },
        None => None,
    }
}

/// The numeric value of a row's field, if it carries one.
pub(crate) fn row_num_opt(r: &Row, f: &String) -> (v: Option<i64>)
    ensures
        match v {
            Some(n) => num_opt(r.deep_view(), f@) == Some(n as int),
            None => num_opt(r.deep_view(), f@) is None,
        },
{
    match r.get(f) {
        Some(val) => val.as_number(),
        None => None,
    }
}

/// The rows a selection predicate keeps, in row order.
pub open spec fn sel_rows(rows: Seq<Seq<GField>>, p: spec_fn(Seq<GField>) -> bool) -> Seq<
    Seq<GField>,
>
    decreases rows.len(),
{
    if rows.len() == 0 {
        Seq::<Seq<GField>>::empty()
    } else {
        let rest = sel_rows(rows.drop_last(), p);
        if p(rows.last()) {
            rest.push(rows.last())
        } else {
            rest
        }
    }
}

/// Splitting rows splits their selection.
pub proof fn lemma_sel_rows_concat(a: Seq<Seq<GField>>, b: Seq<Seq<GField>>, p: spec_fn(Seq<GField>) -> bool)
    ensures
        sel_rows(a + b, p) == sel_rows(a, p) + sel_rows(b, p),
    decreases b.len(),
{
    if b.len() == 0 {
        assert(a + b =~= a);
        assert(sel_rows(a, p) + sel_rows(b, p) =~= sel_rows(a, p));
    } else {
        lemma_sel_rows_concat(a, b.drop_last(), p);
        assert((a + b).drop_last() =~= a + b.drop_last());
        assert((a + b).last() == b.last());
        if p(b.last()) {
            assert(sel_rows(a, p) + sel_rows(b, p) =~= (sel_rows(a, p) + sel_rows(
                b.drop_last(),
                p,
            )).push(b.last()));
        }
    }
}

/// The selection of a row prefix is a prefix of the selection.
pub proof fn lemma_sel_rows_prefix(rows: Seq<Seq<GField>>, p: spec_fn(Seq<GField>) -> bool, i: int)
    requires
        0 <= i <= rows.len(),
    ensures
        sel_rows(rows.take(i), p).len() <= sel_rows(rows, p).len(),
        sel_rows(rows.take(i), p) == sel_rows(rows, p).take(
            sel_rows(rows.take(i), p).len() as int,
        ),
{
    lemma_sel_rows_concat(rows.take(i), rows.skip(i), p);
    assert(rows.take(i) + rows.skip(i) =~= rows);
    let g = sel_rows(rows, p);
    let q = sel_rows(rows.take(i), p);
    assert(q =~= g.take(q.len() as int));
}

/// The largest of the numbers, with a floor of zero.
pub open spec fn spec_max_num(s: Seq<int>) -> int
    decreases s.len(),
{
    if s.len() == 0 {
        0
    } else {
        let rest = spec_max_num(s.drop_last());
        if s.last() > rest {
            s.last()
        } else {
            rest
        }
    }
}

/// The largest of the numbers (zero floor).
pub(crate) fn max_number(v: &Vec<i64>) -> (r: i64)
    ensures
        r == spec_max_num(v@.map_values(|x: i64| x as int)),
        r >= 0,
{
    let ghost gv = v@.map_values(|x: i64| x as int);
    let mut r: i64 = 0;
    let n = v.len();
    let mut i: usize = 0;
    proof {
        assert(gv.take(0) =~= Seq::<int>::empty());
    }
    while i < n
        invariant
            i <= n,
            n == gv.len(),
            gv == v@.map_values(|x: i64| x as int),
            r == spec_max_num(gv.take(i as int)),
            r >= 0,
        decreases n - i,
    {
        proof {
            assert(gv.take(i as int + 1).drop_last() =~= gv.take(i as int));
            assert(gv.take(i as int + 1).last() == gv[i as int]);
            assert(gv[i as int] == v@[i as int] as int);
        }
        if v[i] > r {
            r = v[i];
        }
        i = i + 1;
    }
    proof {
        assert(gv.take(n as int) =~= gv);
    }
    r
}

/// The numbers extracted from budget-respecting rows respect the budget.
pub proof fn lemma_numbers_bounded(rows: Seq<Seq<GField>>, f: Seq<char>)
    requires
        forall|i: int, j: int|
            0 <= i < rows.len() && 0 <= j < rows[i].len() ==> crate::stack::gfield_ok(
                #[trigger] rows[i][j],
            ),
    ensures
        forall|m: int|
            0 <= m < spec_numbers(rows, f).len() ==> -crate::num::VALUE_LIMIT <= #[trigger] spec_numbers(rows, f)[m] <= crate::num::VALUE_LIMIT,
    decreases rows.len(),
{
    if rows.len() > 0 {
        assert(forall|i: int, j: int|
            0 <= i < rows.len() - 1 && 0 <= j < rows.drop_last()[i].len()
                ==> crate::stack::gfield_ok(#[trigger] rows.drop_last()[i][j])) by {
            assert(forall|i: int|
                0 <= i < rows.len() - 1 ==> rows.drop_last()[i] == #[trigger] rows[i]);
        }
        lemma_numbers_bounded(rows.drop_last(), f);
        assert(rows.last() == rows[rows.len() - 1]);
        let nums = spec_numbers(rows, f);
        let rest = spec_numbers(rows.drop_last(), f);
        match row_lookup(rows.last(), f) {
            Some(GData::Num(n)) => {
                crate::datum::lemma_row_lookup_member(rows.last(), f);
                let j = choose|j: int|
                    0 <= j < rows.last().len() && (#[trigger] rows.last()[j]).value == GData::Num(
                        n,
                    );
                assert(crate::stack::gfield_ok(rows[rows.len() - 1][j]));
                assert(nums == rest.push(n));
                assert forall|m: int|
                    0 <= m < nums.len() implies -crate::num::VALUE_LIMIT <= #[trigger] nums[m]
                    <= crate::num::VALUE_LIMIT by {
                    if m < rest.len() {
                        assert(nums[m] == rest[m]);
                    } else {
                        assert(nums[m] == n);
                    }
                }
            },
            _ => {
                assert(nums == rest);
            },
        }
    }
}

/// A fold maximum of bounded numbers is bounded.
pub proof fn lemma_max_num_bound(s: Seq<int>, b: int)
    requires
        b >= 0,
        forall|m: int| 0 <= m < s.len() ==> -b <= #[trigger] s[m] <= b,
    ensures
        0 <= spec_max_num(s) <= b,
    decreases s.len(),
{
    if s.len() > 0 {
        assert(forall|m: int| 0 <= m < s.len() - 1 ==> s.drop_last()[m] == #[trigger] s[m]);
        lemma_max_num_bound(s.drop_last(), b);
        assert(s.last() == s[s.len() - 1]);
    }
}

/// The category domain: the distinct key texts of the rows carrying the
/// field, in first-seen order.
pub open spec fn spec_domain(rows: Seq<Seq<GField>>, f: Seq<char>) -> Seq<Seq<char>> {
    dedup_first(spec_categories(rows, f))
}

/// A domain never holds more labels than there are rows.
pub proof fn lemma_domain_len(rows: Seq<Seq<GField>>, f: Seq<char>)
    ensures
        spec_domain(rows, f).len() <= rows.len(),
{
    lemma_categories_len(rows, f);
    lemma_dedup_len(spec_categories(rows, f));
}

pub proof fn lemma_categories_len(rows: Seq<Seq<GField>>, f: Seq<char>)
    ensures
        spec_categories(rows, f).len() <= rows.len(),
    decreases rows.len(),
{
    if rows.len() > 0 {
        lemma_categories_len(rows.drop_last(), f);
    }
}

proof fn lemma_dedup_len(s: Seq<Seq<char>>)
    ensures
        dedup_first(s).len() <= s.len(),
    decreases s.len(),
{
    if s.len() > 0 {
        lemma_dedup_len(s.drop_last());
    }
}

/// Keep the first occurrence of each text, in order.
pub(crate) fn unique_strings(v: &Vec<String>) -> (r: Vec<String>)
    ensures
        str_views(r@) == dedup_first(str_views(v@)),
        r@.len() <= v@.len(),
{
    let n = v.len();
    let mut r: Vec<String> = Vec::new();
    let mut i: usize = 0;
    proof {
        assert(str_views(v@).take(0) =~= Seq::<Seq<char>>::empty());
        assert(str_views(r@) =~= dedup_first(str_views(v@).take(0)));
        assert(dedup_first(Seq::<Seq<char>>::empty()).len() == 0);
    }
    while i < n
        invariant
            i <= n,
            n == v@.len(),
            str_views(r@) == dedup_first(str_views(v@).take(i as int)),
            r@.len() <= i,
        decreases n - i,
    {
        proof {
            assert(str_views(v@).take(i as int + 1).drop_last() =~= str_views(v@).take(i as int));
            assert(str_views(v@).take(i as int + 1).last() == v@[i as int]@);
            crate::band::lemma_index_of_semantics(r@, v@[i as int]@);
        }
        let ghost pre = dedup_first(str_views(v@).take(i as int));
        match crate::stack::find_string(&r, &v[i]) {
            Some(_) => {
                proof {
                    let ix = crate::band::spec_index_of(r@, v@[i as int]@);
                    assert(str_views(r@)[ix] == r@[ix]@);
                    assert(pre.contains(v@[i as int]@)) by {
                        assert(pre[ix] == v@[i as int]@);
                    }
                }
            },
            None => {
                proof {
                    if pre.contains(v@[i as int]@) {
                        let j = choose|j: int| 0 <= j < pre.len() && pre[j] == v@[i as int]@;
                        assert(str_views(r@)[j] == r@[j]@);
                        assert(false);
                    }
                }
                let ghost old_r = r@;
                r.push(v[i].clone());
                proof {
                    assert(str_views(r@) =~= str_views(old_r).push(v@[i as int]@));
                }
            },
        }
        i = i + 1;
    }
    proof {
        assert(str_views(v@).take(n as int) =~= str_views(v@));
    }
    r
}

} // verus!
