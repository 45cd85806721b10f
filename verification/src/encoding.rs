//! Encoding channels: how data fields map to visual properties.

use vstd::prelude::*;

use crate::datum::DataValue;

verus! {

/// The encoding: an optional channel definition per visual role.
#[derive(Debug, Clone)]
pub struct Encoding {
    pub x: Option<ChannelDef>,
    pub y: Option<ChannelDef>,
    pub x2: Option<ChannelDef>,
    pub y2: Option<ChannelDef>,
    pub color: Option<ChannelDef>,
    pub fill: Option<ChannelDef>,
    pub stroke: Option<ChannelDef>,
    pub size: Option<ChannelDef>,
    pub opacity: Option<ChannelDef>,
    pub shape: Option<ChannelDef>,
    pub text: Option<ChannelDef>,
}

impl Default for Encoding {
    /// An encoding with every channel unset.
    fn default() -> (e: Encoding)
        ensures
            e.x is None && e.y is None && e.x2 is None && e.y2 is None && e.color is None
                && e.fill is None && e.stroke is None && e.size is None && e.opacity is None
                && e.shape is None && e.text is None,
    {
        Encoding {
            x: None,
            y: None,
            x2: None,
            y2: None,
            color: None,
            fill: None,
            stroke: None,
            size: None,
            opacity: None,
            shape: None,
            text: None,
        }
    }
}

/// One channel: either a full definition or the field-name shorthand.
#[derive(Debug, Clone)]
pub enum ChannelDef {
    Full(ChannelDefFull),
    Field(String),
}

impl ChannelDef {
    /// The bound field name, if any.
    pub open spec fn spec_field(self) -> Option<String> {
        match self {
            ChannelDef::Full(d) => d.field,
            ChannelDef::Field(f) => Some(f),
        }
    }

    /// The explicitly declared data type, if any.
    pub open spec fn spec_data_type(self) -> Option<DataType> {
        match self {
            ChannelDef::Full(d) => d.data_type,
            ChannelDef::Field(_) => None,
        }
    }

    /// The axis configuration, if any.
    pub open spec fn spec_axis(self) -> Option<AxisConfig> {
        match self {
            ChannelDef::Full(d) => d.axis,
            ChannelDef::Field(_) => None,
        }
    }

    pub fn field(&self) -> (r: Option<&String>)
        ensures
            match r {
                Some(f) => self.spec_field() == Some(*f),
                None => self.spec_field() is None,
            },
    {
        match self {
            ChannelDef::Full(d) => d.field.as_ref(),
            ChannelDef::Field(f) => Some(f),
        }
    }

    pub fn value(&self) -> (r: Option<&DataValue>)
        ensures
            match r {
                Some(v) => match self {
                    ChannelDef::Full(d) => d.value == Some(*v),
                    ChannelDef::Field(_) => false,
                },
                None => match self {
                    ChannelDef::Full(d) => d.value is None,
                    ChannelDef::Field(_) => true,
                },
            },
    {
        match self {
            ChannelDef::Full(d) => d.value.as_ref(),
            ChannelDef::Field(_) => None,
        }
    }

    pub fn data_type(&self) -> (r: Option<DataType>)
        ensures
            r == self.spec_data_type(),
    {
        match self {
            ChannelDef::Full(d) => d.data_type,
            ChannelDef::Field(_) => None,
        }
    }

    pub fn aggregate(&self) -> (r: Option<Aggregate>)
        ensures
            r == match self {
                ChannelDef::Full(d) => d.aggregate,
                ChannelDef::Field(_) => None,
            },
    {
        match self {
            ChannelDef::Full(d) => d.aggregate,
            ChannelDef::Field(_) => None,
        }
    }

    pub fn scale_name(&self) -> (r: Option<&String>)
        ensures
            match r {
                Some(s) => match self {
                    ChannelDef::Full(d) => d.scale == Some(*s),
                    ChannelDef::Field(_) => false,
                },
                None => match self {
                    ChannelDef::Full(d) => d.scale is None,
                    ChannelDef::Field(_) => true,
                },
            },
    {
        match self {
            ChannelDef::Full(d) => d.scale.as_ref(),
            ChannelDef::Field(_) => None,
        }
    }

    pub fn axis(&self) -> (r: Option<&AxisConfig>)
        ensures
            match r {
                Some(a) => self.spec_axis() == Some(*a),
                None => self.spec_axis() is None,
            },
    {
        match self {
            ChannelDef::Full(d) => d.axis.as_ref(),
            ChannelDef::Field(_) => None,
        }
    }
}

/// A full channel definition.
#[derive(Debug, Clone)]
pub struct ChannelDefFull {
    /// Data field name.
    pub field: Option<String>,
    /// Constant value (alternative to a field).
    pub value: Option<DataValue>,
    /// Declared data type; inferred from the data when absent.
    pub data_type: Option<DataType>,
    /// Named scale reference.
    pub scale: Option<String>,
    /// Aggregation (must be explicit).
    pub aggregate: Option<Aggregate>,
    /// Axis configuration.
    pub axis: Option<AxisConfig>,
}

/// The classification of a field's data.
#[derive(Debug, Clone, Copy, PartialEq, Eq, Structural)]
pub enum DataType {
    /// Categorical without order.
    Nominal,
    /// Categorical with order.
    Ordinal,
    /// Continuous numeric.
    Quantitative,
    /// Date/time.
    Temporal,
}

/// An aggregation operator.
#[derive(Debug, Clone, Copy, PartialEq, Eq, Structural)]
pub enum Aggregate {
    Count,
    Sum,
    Mean,
    Median,
    Min,
    Max,
    Distinct,
}

/// Per-axis presentation settings.
#[derive(Debug, Clone)]
pub struct AxisConfig {
    pub orient: Option<AxisOrient>,
    pub title: Option<String>,
    pub grid: Option<bool>,
    pub ticks: Option<bool>,
    pub labels: Option<bool>,
    pub tick_count: Option<u32>,
}

/// Which side of the plot an axis sits on.
#[derive(Debug, Clone, Copy, PartialEq, Eq, Structural)]
pub enum AxisOrient {
    Top,
    Bottom,
    Left,
    Right,
}

} // verus!
