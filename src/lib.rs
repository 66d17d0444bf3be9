//! Converts the path data of an SVG document into flat polylines.
//!
//! Coordinates are carried as the bit patterns of IEEE-754 binary64 values:
//! the interpreter never computes with them, it only copies them, so the
//! bit pattern is an exact stand-in for the number.
use vstd::prelude::*;

pub mod document;
pub mod geometry;
pub mod interpreter;

pub use document::{conversion_status, is_scannable, parse, polylines_of_paths};
pub use geometry::{CoordinatePair, CurrentLine, Polyline};
pub use interpreter::{CurveKind, PathError, SegmentData, interpret_segments, parse_segment_data};
