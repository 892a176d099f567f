//! Track construction: model, ordering, segmentation, simplification, assembly.

pub mod day;
pub mod gpx;
pub mod grouping;
pub mod order;
pub mod position;
pub mod rearranged;
pub mod segmenter;
pub mod simplifier;
pub mod text;
pub mod track;
pub mod tracker;
pub mod window;
