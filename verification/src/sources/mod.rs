//! Positions sources API

use vstd::prelude::*;
use vstd::string::StringExecFns;

use crate::generator::position::DevicePosition;

pub mod csv_file;
pub mod mongo;
pub mod numbers;
pub use csv_file::CsvSource;

verus! {

/// Position source
pub trait PositionsSource {
    /// Whether `found` is an answer that the source, as it stands, may give
    /// when it is asked for the positions between `start` and `end`. What the
    /// answers of a source are is for the source to say; one that does not
    /// say may give any answer.
    open spec fn answers(
        &self,
        start: i128,
        end: i128,
        found: Result<Vec<DevicePosition>, String>,
    ) -> bool {
        true
    }

    /// Fetch the raw positing during the period: the positions whose instant
    /// is not before `start` and not after `end`, both in nanoseconds since the
    /// Unix epoch
    fn fetch(&mut self, start: i128, end: i128) -> (found: Result<Vec<DevicePosition>, String>)
        ensures
            old(self).answers(start, end, found),
    ;
}

/// Fields of source customization
#[derive(Clone, Debug, PartialEq)]
pub struct FieldsConfiguration {
    /// Device name or ID
    pub device_id: String,
    pub time: String,
    /// Route name or ID
    pub route: String,
    pub coordinates: String,
    pub speed: String,
    pub elevation: String,
    /// Flip the lat,lng coordinates order
    pub flip_coordinates: bool,
}

/// What a [`FieldsConfiguration`] holds, with the names as character sequences.
pub ghost struct FieldsConfigurationView {
    pub device_id: Seq<char>,
    pub time: Seq<char>,
    pub route: Seq<char>,
    pub coordinates: Seq<char>,
    pub speed: Seq<char>,
    pub elevation: Seq<char>,
    pub flip_coordinates: bool,
}

impl View for FieldsConfiguration {
    type V = FieldsConfigurationView;

    open spec fn view(&self) -> FieldsConfigurationView {
        FieldsConfigurationView {
            device_id: self.device_id@,
            time: self.time@,
            route: self.route@,
            coordinates: self.coordinates@,
            speed: self.speed@,
            elevation: self.elevation@,
            flip_coordinates: self.flip_coordinates,
        }
    }
}

/// The field names that a source goes by where none are configured.
pub open spec fn default_fields() -> FieldsConfigurationView {
    FieldsConfigurationView {
        device_id: "device"@,
        time: "time"@,
        route: "route"@,
        coordinates: "coordinates"@,
        speed: "speed"@,
        elevation: "elevation"@,
        flip_coordinates: false,
    }
}

impl Default for FieldsConfiguration {
    fn default() -> (fields: Self)
        ensures
            fields@ == default_fields(),
    {
        Self {
            device_id: String::from_str("device"),
            time: String::from_str("time"),
            route: String::from_str("route"),
            coordinates: String::from_str("coordinates"),
            speed: String::from_str("speed"),
            elevation: String::from_str("elevation"),
            flip_coordinates: false,
        }
    }
}

} // verus!
