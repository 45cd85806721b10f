//! The chart description: size, padding, data, mark, encoding, stacking.

use vstd::prelude::*;

use crate::datum::Row;
use crate::encoding::Encoding;
use crate::scene::Padding;

verus! {

/// A resolved chart description, the input of one compile pass.  Pixel
/// sizes are in millionths of a pixel.
#[derive(Debug, Clone)]
pub struct ChartSpec {
    /// Chart width.
    pub width: i64,
    /// Chart height.
    pub height: i64,
    /// Padding around the plot area.
    pub padding: Padding,
    /// Background color (CSS hex string).
    pub background: Option<String>,
    /// Data source.
    pub data: DataSpec,
    /// Mark for single-layer charts.
    pub mark: Option<MarkSpec>,
    /// Encoding channels for single-layer charts.
    pub encoding: Option<Encoding>,
    /// Layers for multi-layer charts (not compiled).
    pub layer: Option<Vec<LayerSpec>>,
    /// Stacking configuration.
    pub stack: Option<StackConfig>,
    /// Title.
    pub title: Option<String>,
}

/// A data source.
#[derive(Debug, Clone)]
pub enum DataSpec {
    /// Inline rows.
    Inline { values: Vec<Row> },
    /// A named dataset reference (no resolver in scope).
    Named { name: String },
}

impl DataSpec {
    /// The inline rows, if the source is inline.
    pub fn values(&self) -> (r: Option<&Vec<Row>>)
        ensures
            match r {
                Some(v) => self matches DataSpec::Inline { values } && v == values,
                None => self matches DataSpec::Named { .. },
            },
    {
        match self {
            DataSpec::Inline { values } => Some(values),
            DataSpec::Named { .. } => None,
        }
    }
}

/// A mark: a bare type or a type with configuration.
#[derive(Debug, Clone)]
pub enum MarkSpec {
    Simple(MarkType),
    WithConfig { mark_type: MarkType, config: MarkConfig },
}

impl MarkSpec {
    pub open spec fn spec_mark_type(self) -> MarkType {
        match self {
            MarkSpec::Simple(t) => t,
            MarkSpec::WithConfig { mark_type, .. } => mark_type,
        }
    }

    pub fn mark_type(&self) -> (r: MarkType)
        ensures
            r == self.spec_mark_type(),
    {
        match self {
            MarkSpec::Simple(t) => *t,
            MarkSpec::WithConfig { mark_type, .. } => *mark_type,
        }
    }
}

/// The mark types the description can name (only some are compiled).
#[derive(Debug, Clone, Copy, PartialEq, Eq, Structural)]
pub enum MarkType {
    Bar,
    Line,
    Point,
    Area,
    Rule,
    Text,
    Rect,
    Boxplot,
    Bullet,
    Funnel,
}

/// Default presentation settings of a mark.
#[derive(Debug, Clone)]
pub struct MarkConfig {
    /// Default fill color.
    pub fill: Option<String>,
    /// Default stroke color.
    pub stroke: Option<String>,
    /// Default stroke width, in millionths of a pixel.
    pub stroke_width: Option<i64>,
    /// Default opacity, in millionths.
    pub opacity: Option<i64>,
    /// Corner radius for rect/bar marks, in millionths of a pixel.
    pub corner_radius: Option<i64>,
}

impl Default for MarkConfig {
    fn default() -> (c: MarkConfig)
        ensures
            c.fill is None && c.stroke is None && c.stroke_width is None && c.opacity is None
                && c.corner_radius is None,
    {
        MarkConfig { fill: None, stroke: None, stroke_width: None, opacity: None, corner_radius: None }
    }
}

/// One layer of a multi-layer chart.
#[derive(Debug, Clone)]
pub struct LayerSpec {
    pub mark: MarkSpec,
    pub encoding: Encoding,
    pub data: Option<DataSpec>,
}

/// Stacking configuration: a plain on/off switch or a named mode.
#[derive(Debug, Clone)]
pub enum StackConfig {
    Enabled(bool),
    Mode(StackMode),
}

/// How series accumulate within a category.
#[derive(Debug, Clone, Copy, PartialEq, Eq, Structural)]
pub enum StackMode {
    /// Running sum from zero.
    Zero,
    /// Normalized to a unit total per category.
    Normalize,
    /// Centered around zero.
    Center,
}

} // verus!
