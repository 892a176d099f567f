//! location2gpx - GPX track generator for positions from many location sources.
//!
//! The crate turns a batch of timestamped device positions into tracks:
//! positions are grouped per device and route (or UTC day), every group is
//! ordered by time and cut into fixed, epoch-aligned time windows, and each
//! window's points may be thinned out by a path simplifier.
//!
//! Coordinates, speeds, altitudes and tolerances are binary64 numbers that the
//! crate never interprets: it carries their IEEE-754 bit patterns as `u64`.
//! Instants are nanoseconds since the Unix epoch, counted in UTC, as `i128`.
//! What works on such numbers is handed in by the caller: the simplifier of a
//! path, and the parser of the numbers of a CSV file.

mod generator;
pub mod sources;

pub use generator::gpx::{Gpx, GpxGenerator, GpxVersion};
pub use generator::grouping::{group_positions, PositionGroup};
pub use generator::position::{Coordinates, DevicePosition, RawPosition};
pub use generator::segmenter::segment_positions;
pub use generator::text::{is_blank, is_white_space};
pub use generator::track::{Track, TrackSegment, Waypoint};
pub use generator::tracker::{SourceToTracks, TrackSegmentOptions, Tracker};
pub use sources::{CsvSource, FieldsConfiguration, PositionsSource};
