//! Conversion of an OpenStreetMap extract into a routable graph: unique
//! intersection nodes and edges between them, each edge annotated with
//! per-mode, per-direction accessibility.
//!
//! The crate holds the verified core of the pipeline: the tag categorizer,
//! the usage counter, the way splitter and the optional edge merger.  File
//! ingestion (PBF streaming) and output serialization are left to callers,
//! which feed plain values through the reader and collect the result.

mod categorize;
mod merge;
mod models;
mod reader;
mod text;

pub use categorize::{
    BikeAccessibility, CarAccessibility, EdgeProperties, FootAccessibility, TrainAccessibility,
};
pub use models::{Coord, Edge, Node, Tag};
pub use merge::{merge_stable, mergeable_at, slots};
pub use reader::{GraphError, Reader, Way};
pub use text::str_eq;
