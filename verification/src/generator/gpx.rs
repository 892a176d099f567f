//! GPX generator API

use vstd::prelude::*;
use vstd::string::StringExecFns;

use super::track::Track;

verus! {

/// The version of the GPX schema that a document follows
#[derive(Clone, Copy, Debug, PartialEq, Eq)]
pub enum GpxVersion {
    Unknown,
    Gpx10,
    Gpx11,
}

/// A GPX document: what a writer turns into XML
#[derive(Debug)]
pub struct Gpx {
    pub version: GpxVersion,
    /// The program that made the document
    pub creator: Option<String>,
    pub tracks: Vec<Track>,
}

/// The tracks of a GPX document in the making
pub struct GpxGenerator {
    pub tracks: Vec<Track>,
}

impl GpxGenerator {
    /// A generator without tracks
    pub fn empty() -> (generator: Self)
        ensures
            generator.tracks@ == Seq::<Track>::empty(),
    {
        Self { tracks: Vec::new() }
    }

    /// The document of the generator's tracks, in their order: GPX 1.1, made
    /// by `location2gpx`.
    pub fn generate(self) -> (doc: Result<Gpx, String>)
        ensures
            doc is Ok,
            doc->Ok_0.version == GpxVersion::Gpx11,
            doc->Ok_0.creator is Some,
            doc->Ok_0.creator->Some_0@ == "location2gpx"@,
            doc->Ok_0.tracks == self.tracks,
    {
        Ok(
            Gpx {
                version: GpxVersion::Gpx11,
                creator: Some(String::from_str("location2gpx")),
                tracks: self.tracks,
            },
        )
    }
}

} // verus!
