//! A declarative chart compiler: turns a chart description (data rows, mark
//! type, encoding channels, stacking mode) into a renderer-agnostic scene
//! graph of positioned geometric primitives.
//!
//! Every coordinate and data value is a fixed-point integer counted in
//! millionths of a unit (see [`num::SCALE`]), so the whole pipeline is exact
//! integer arithmetic.
//!
//! The pieces, roughly bottom up: [`datum`] holds the row model, [`scale`],
//! [`linear`] and [`band`] the numeric and categorical scales with tick
//! generation, [`stack`] the per-category accumulation of series, [`axis`]
//! the tick and label marks of one plot side, and [`bar`], [`line`] and
//! [`compile`] the mark compilers and the driver that assembles a
//! [`scene::Scene`].  Serialized input and drawing output are left to the
//! caller, which hands in plain rows and walks the scene graph.

pub mod axis;
pub mod band;
pub mod bar;
pub mod chart;
pub mod compile;
pub mod datum;
pub mod encoding;
pub mod line;
pub mod linear;
pub mod mark;
pub mod num;
pub mod scale;
pub mod stack;
pub mod scene;
pub mod style;
pub mod text;

pub use chart::ChartSpec;
pub use compile::compile;
pub use scene::Scene;
