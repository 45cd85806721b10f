//! Marks: drawable primitives with style and a back-reference to the data
//! row they came from.  All coordinates are in millionths of a pixel.

use vstd::prelude::*;

use crate::datum::Row;
use crate::style::{Color, Font, Stroke, TextAnchor, TextBaseline};

verus! {

/// The kind of primitive a mark's items share.
#[derive(Debug, Clone, Copy, PartialEq, Eq, Structural)]
pub enum MarkType {
    Rect,
    Symbol,
    Line,
    Area,
    Rule,
    Text,
    Arc,
    Path,
}

/// A run of items of one mark type.
#[derive(Debug, Clone)]
pub struct Mark {
    pub mark_type: MarkType,
    pub items: Vec<MarkItem>,
}

/// One drawable item: a geometry with optional fill and stroke, an opacity
/// (in millionths, `SCALE` meaning fully opaque), and the originating row.
#[derive(Debug, Clone)]
pub struct MarkItem {
    pub geometry: Geometry,
    pub fill: Option<Color>,
    pub stroke: Option<Stroke>,
    pub opacity: i64,
    pub datum: Option<Row>,
}

impl MarkItem {
    /// A fully opaque, unstyled item.
    pub fn new(geometry: Geometry) -> (r: MarkItem)
        ensures
            r.geometry == geometry,
            r.fill is None,
            r.stroke is None,
            r.opacity == crate::num::SCALE,
            r.datum is None,
    {
        MarkItem { geometry, fill: None, stroke: None, opacity: crate::num::SCALE, datum: None }
    }

    pub fn with_fill(self, color: Color) -> (r: MarkItem)
        ensures
            r.geometry == self.geometry,
            r.fill == Some(color),
            r.stroke == self.stroke,
            r.opacity == self.opacity,
            r.datum == self.datum,
    {
        MarkItem { fill: Some(color), ..self }
    }

    pub fn with_stroke(self, stroke: Stroke) -> (r: MarkItem)
        ensures
            r.geometry == self.geometry,
            r.fill == self.fill,
            r.stroke == Some(stroke),
            r.opacity == self.opacity,
            r.datum == self.datum,
    {
        MarkItem { stroke: Some(stroke), ..self }
    }

    pub fn with_opacity(self, opacity: i64) -> (r: MarkItem)
        ensures
            r.geometry == self.geometry,
            r.fill == self.fill,
            r.stroke == self.stroke,
            r.opacity == opacity,
            r.datum == self.datum,
    {
        MarkItem { opacity, ..self }
    }

    pub fn with_datum(self, datum: Row) -> (r: MarkItem)
        ensures
            r.geometry == self.geometry,
            r.fill == self.fill,
            r.stroke == self.stroke,
            r.opacity == self.opacity,
            r.datum == Some(datum),
    {
        MarkItem { datum: Some(datum), ..self }
    }
}

/// One concrete geometry instance.
#[derive(Debug, Clone)]
pub enum Geometry {
    Rect { x: i64, y: i64, width: i64, height: i64, corner_radius: i64 },
    Circle { cx: i64, cy: i64, r: i64 },
    Line { points: Vec<Point> },
    Area { points: Vec<Point>, baseline: Vec<Point> },
    Rule { x1: i64, y1: i64, x2: i64, y2: i64 },
    Text {
        x: i64,
        y: i64,
        text: String,
        font: Font,
        anchor: TextAnchor,
        baseline: TextBaseline,
        /// Rotation in millionths of a degree.
        angle: i64,
    },
    Arc {
        cx: i64,
        cy: i64,
        inner_radius: i64,
        outer_radius: i64,
        start_angle: i64,
        end_angle: i64,
    },
    Path { d: String },
    Symbol { x: i64, y: i64, size: i64, shape: SymbolShape },
}

/// A point in millionths of a pixel.
#[derive(Debug, Clone, Copy, PartialEq, Eq, Structural, Default)]
pub struct Point {
    pub x: i64,
    pub y: i64,
}

impl Point {
    pub fn new(x: i64, y: i64) -> (p: Point)
        ensures
            p == (Point { x, y }),
    {
        Point { x, y }
    }
}

/// The shape of a symbol mark.
#[derive(Debug, Clone, Copy, PartialEq, Eq, Structural, Default)]
pub enum SymbolShape {
    #[default]
    Circle,
    Square,
    Cross,
    Diamond,
    Triangle,
    Star,
}

} // verus!
