//! Position definition

use vstd::prelude::*;

verus! {

/// A longitude/latitude pair, each held as the bit pattern of a binary64 number.
#[derive(Clone, Copy, Debug, PartialEq, Eq)]
pub struct Coordinates {
    /// Longitude (x) in degrees
    pub lng: u64,
    /// Latitude (y) in degrees
    pub lat: u64,
}

impl Coordinates {
    /// The pair of a longitude and a latitude
    pub fn new(lng: u64, lat: u64) -> (c: Self)
        ensures
            c == (Coordinates { lng, lat }),
    {
        Coordinates { lng, lat }
    }
}

/// Raw version of a recorded position
#[derive(Clone, Copy, Debug, PartialEq, Eq)]
pub struct RawPosition {
    pub coordinates: Coordinates,
    /// Nanoseconds since the Unix epoch, in UTC
    pub time: i128,
    /// in m/s
    pub speed: Option<u64>,
    /// in m
    pub precision: Option<u64>,
    /// in m
    pub altitude: Option<u64>,
}

impl RawPosition {
    /// A position of which only place and instant are known
    pub fn basic(coordinates: Coordinates, time: i128) -> (p: Self)
        ensures
            p == (RawPosition { coordinates, time, speed: None, precision: None, altitude: None }),
    {
        Self { coordinates, time, speed: None, precision: None, altitude: None }
    }
}

/// Position with device and other context datas
pub struct DevicePosition {
    /// Device unique ID
    pub device_id: String,
    pub pos: RawPosition,
    /// Route numer or name
    pub route_name: Option<String>,
    /// Tracker app or software
    pub tracker: Option<String>,
}

/// What a [`DevicePosition`] holds, with its texts as character sequences.
pub ghost struct DevicePositionView {
    pub device_id: Seq<char>,
    pub pos: RawPosition,
    pub route_name: Option<Seq<char>>,
    pub tracker: Option<Seq<char>>,
}

/// The characters of an optional text.
pub open spec fn text_view(text: Option<String>) -> Option<Seq<char>> {
    match text {
        Some(t) => Some(t@),
        None => None,
    }
}

impl View for DevicePosition {
    type V = DevicePositionView;

    open spec fn view(&self) -> DevicePositionView {
        DevicePositionView {
            device_id: self.device_id@,
            pos: self.pos,
            route_name: text_view(self.route_name),
            tracker: text_view(self.tracker),
        }
    }
}

impl DevicePosition {
    /// A position of a device without route and tracker app
    pub fn basic(device_id: String, coordinates: Coordinates, time: i128) -> (p: Self)
        ensures
            p@ == (DevicePositionView {
                device_id: device_id@,
                pos: RawPosition {
                    coordinates,
                    time,
                    speed: None,
                    precision: None,
                    altitude: None,
                },
                route_name: None,
                tracker: None,
            }),
    {
        Self {
            device_id,
            pos: RawPosition::basic(coordinates, time),
            route_name: None,
            tracker: None,
        }
    }
}

} // verus!
