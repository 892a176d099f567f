//! Track model: what the generator hands to a GPX writer

use vstd::prelude::*;

use super::position::{text_view, Coordinates, RawPosition};

verus! {

/// One exported point of a track
#[derive(Clone, Copy, Debug, PartialEq, Eq)]
pub struct Waypoint {
    pub coordinates: Coordinates,
    /// Nanoseconds since the Unix epoch, in UTC
    pub time: Option<i128>,
    /// in m
    pub elevation: Option<u64>,
    /// in m/s
    pub speed: Option<u64>,
}

/// The waypoint that stands for a recorded position: same place and instant,
/// altitude and speed carried over, absent where the position has none.
pub open spec fn waypoint_of(p: RawPosition) -> Waypoint {
    Waypoint {
        coordinates: p.coordinates,
        time: Some(p.time),
        elevation: p.altitude,
        speed: p.speed,
    }
}

impl Waypoint {
    /// A waypoint of which only the place is known
    pub fn new(coordinates: Coordinates) -> (w: Self)
        ensures
            w == (Waypoint { coordinates, time: None, elevation: None, speed: None }),
    {
        Waypoint { coordinates, time: None, elevation: None, speed: None }
    }

    /// The waypoint of a recorded position.
    pub fn from_position(p: &RawPosition) -> (w: Self)
        ensures
            w == waypoint_of(*p),
    {
        Waypoint {
            coordinates: p.coordinates,
            time: Some(p.time),
            elevation: p.altitude,
            speed: p.speed,
        }
    }

    /// The place of the waypoint
    pub fn point(&self) -> (c: Coordinates)
        ensures
            c == self.coordinates,
    {
        self.coordinates
    }

    /// The instant of the waypoint; the epoch where it has none.
    pub open spec fn instant(self) -> int {
        match self.time {
            Some(t) => t as int,
            None => 0,
        }
    }
}

/// A run of waypoints of one time window
#[derive(Clone, Debug, PartialEq, Eq)]
pub struct TrackSegment {
    pub points: Vec<Waypoint>,
}

impl View for TrackSegment {
    type V = Seq<Waypoint>;

    open spec fn view(&self) -> Seq<Waypoint> {
        self.points@
    }
}

impl TrackSegment {
    /// A segment without waypoints
    pub fn new() -> (s: Self)
        ensures
            s@ == Seq::<Waypoint>::empty(),
    {
        TrackSegment { points: Vec::new() }
    }
}

/// The segments of a track, each as the sequence of its waypoints.
pub open spec fn segments_view(segments: Seq<TrackSegment>) -> Seq<Seq<Waypoint>> {
    segments.map_values(|s: TrackSegment| s@)
}

/// Named, described collection of segments of one device and one route or day
#[derive(Debug)]
pub struct Track {
    pub name: Option<String>,
    pub description: Option<String>,
    pub source: Option<String>,
    pub segments: Vec<TrackSegment>,
}

/// What a [`Track`] holds, with texts as character sequences and segments as
/// sequences of waypoints.
pub ghost struct TrackView {
    pub name: Option<Seq<char>>,
    pub description: Option<Seq<char>>,
    pub source: Option<Seq<char>>,
    pub segments: Seq<Seq<Waypoint>>,
}

impl View for Track {
    type V = TrackView;

    open spec fn view(&self) -> TrackView {
        TrackView {
            name: text_view(self.name),
            description: text_view(self.description),
            source: text_view(self.source),
            segments: segments_view(self.segments@),
        }
    }
}

impl Track {
    /// A track without name, description, source and segments
    pub fn new() -> (t: Self)
        ensures
            t@ == (TrackView {
                name: None,
                description: None,
                source: None,
                segments: Seq::<Seq<Waypoint>>::empty(),
            }),
    {
        let t = Track { name: None, description: None, source: None, segments: Vec::new() };
        assert(t@.segments =~= Seq::<Seq<Waypoint>>::empty());
        t
    }
}

} // verus!
