//! Map data of the OpenStreetMap JSON exchange format.
//!
//! A text is read as JSON and decoded into a data set of nodes and ways
//! (`parser`, `json`, `types`). Of a data set the exact rectangle of its nodes
//! can be had, and its nodes can be taken to the plane of a projection and
//! back (`convert`).
//!
//! Numbers are binary64 numbers held by their encoding (`float`), and their
//! arithmetic is done on the encoding, rounded to nearest (`rounding`,
//! `arithmetic`). What the rounding keeps is shown in `accuracy`, and that
//! a longitude comes back from the plane but for rounding in `round_trip`.

pub mod accuracy;
pub mod arithmetic;
pub mod convert;
pub mod float;
pub mod json;
pub mod parser;
pub mod round_trip;
pub mod rounding;
pub mod tags;
pub mod types;

pub use float::Float;
pub use parser::{parse, ParseError};
pub use tags::{merge_tags, Tags};
pub use types::{Bounds, Coordinate, Id, Node, Nodes, OsmData, Way, Ways};
