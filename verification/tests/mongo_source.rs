use bson::{Bson, Document};
use geo::SimplifyVwIdx;
use location2gpx::sources::mongo::{read_documents, Field, Item, StoredDocument, Value};
use location2gpx::{
    Coordinates, DevicePosition, FieldsConfiguration, PositionsSource, SourceToTracks,
    TrackSegmentOptions, Waypoint,
};

fn moment(year: i32, month: u8, day: u8, hour: u8, minute: u8) -> time::OffsetDateTime {
    let month = time::Month::try_from(month).unwrap();
    time::Date::from_calendar_date(year, month, day)
        .unwrap()
        .with_hms(hour, minute, 0)
        .unwrap()
        .assume_utc()
}

fn nanos(year: i32, month: u8, day: u8, hour: u8, minute: u8) -> i128 {
    moment(year, month, day, hour, minute).unix_timestamp_nanos()
}

fn stamp(year: i32, month: u8, day: u8, hour: u8, minute: u8) -> Bson {
    Bson::DateTime(bson::DateTime::from_time_0_3(moment(year, month, day, hour, minute)))
}

fn doubles(values: &[f64]) -> Bson {
    Bson::Array(values.iter().map(|v| Bson::Double(*v)).collect())
}

fn document(entries: Vec<(&str, Bson)>) -> Document {
    let mut doc = Document::new();
    doc.insert("_id", bson::oid::ObjectId::new());
    for (name, value) in entries {
        doc.insert(name, value);
    }
    doc
}

fn lonlat(lng: f64, lat: f64) -> Coordinates {
    Coordinates::new(lng.to_bits(), lat.to_bits())
}

fn reduce(points: &Vec<Waypoint>, tolerance: u64) -> Vec<usize> {
    let line: geo::LineString<f64> = points
        .iter()
        .map(|w| geo::Coord {
            x: f64::from_bits(w.coordinates.lng),
            y: f64::from_bits(w.coordinates.lat),
        })
        .collect();
    line.simplify_vw_idx(&f64::from_bits(tolerance))
}

fn item_of(item: &Bson) -> Item {
    match item {
        Bson::String(t) => Item::Text(t.clone()),
        Bson::Int32(n) => Item::Int32(*n),
        Bson::Double(d) => Item::Double(d.to_bits()),
        _ => Item::Other,
    }
}

fn value_of(value: &Bson) -> Value {
    match value {
        Bson::String(t) => Value::Text(t.clone()),
        Bson::Int32(n) => Value::Int32(*n),
        Bson::Int64(n) => Value::Int64(*n),
        Bson::Double(d) => Value::Double(d.to_bits(), d.to_string()),
        Bson::DateTime(tm) => Value::DateTime(tm.to_time_0_3().unix_timestamp_nanos()),
        Bson::Timestamp(tm) => Value::Timestamp(tm.time),
        Bson::Array(items) => Value::Array(items.iter().map(item_of).collect()),
        _ => Value::Other,
    }
}

fn stored(doc: &Document) -> StoredDocument {
    StoredDocument {
        id: doc.get_object_id("_id").map(|id| id.to_string()).map_err(|e| e.to_string()),
        fields: doc
            .iter()
            .map(|(name, value)| Field { name: name.clone(), value: value_of(value) })
            .collect(),
    }
}

/// A collection held in memory. It answers as the store answers the query of
/// the source: with the documents whose time lies in the period and whose
/// coordinates are an array of two.
struct Collection {
    docs: Vec<Document>,
    fields: FieldsConfiguration,
}

impl Collection {
    fn new(docs: Vec<Document>, fields: Option<FieldsConfiguration>) -> Self {
        Self { docs, fields: fields.unwrap_or_default() }
    }
}

impl PositionsSource for Collection {
    fn fetch(&mut self, start: i128, end: i128) -> Result<Vec<DevicePosition>, String> {
        let found: Vec<Result<StoredDocument, String>> = self
            .docs
            .iter()
            .filter(|doc| match doc.get(&self.fields.time) {
                Some(Bson::DateTime(tm)) => {
                    let at = tm.to_time_0_3().unix_timestamp_nanos();
                    start <= at && at <= end
                }
                _ => false,
            })
            .filter(|doc| match doc.get(&self.fields.coordinates) {
                Some(Bson::Array(items)) => items.len() == 2,
                _ => false,
            })
            .map(|doc| Ok(stored(doc)))
            .collect();
        read_documents(&self.fields, &found)
    }
}

#[test]
fn mongo_track() -> Result<(), String> {
    let docs = vec![
        document(vec![("device", "AA251".into()), ("coordinates", doubles(&[-48.8702222, -26.31832])), ("time", stamp(2022, 2, 7, 0, 1))]),
        document(vec![("device", "AA251".into()), ("coordinates", doubles(&[-48.8802222, -26.31832])), ("time", stamp(2022, 2, 7, 0, 2))]),
        document(vec![("device", "AA251".into()), ("coordinates", doubles(&[-48.8902222, -26.31832])), ("time", stamp(2022, 2, 7, 0, 3))]),
    ];

    let source = Collection::new(docs, None);
    let op = TrackSegmentOptions::default();

    let tracks = SourceToTracks::build(
        source,
        nanos(2021, 5, 24, 0, 0),
        nanos(2023, 5, 24, 0, 0),
        op,
        reduce,
    )?;
    assert_eq!(1, tracks.len());

    let track = &tracks[0];
    assert_eq!(1, track.segments.len());
    assert_eq!(Some("2022-02-07".to_string()), track.name);
    assert_eq!(Some("Tracked by `AA251`".to_string()), track.description);
    let segment = &track.segments[0];
    assert_eq!(3, segment.points.len());
    assert_eq!(lonlat(-48.8702222, -26.31832), segment.points[0].point());

    Ok(())
}

#[test]
fn track_flip_coordinates() -> Result<(), String> {
    let docs = vec![
        document(vec![("device", "AA251".into()), ("coordinates", doubles(&[-26.31832, -48.8702222])), ("time", stamp(2022, 2, 7, 0, 1))]),
        document(vec![("device", "AA251".into()), ("coordinates", doubles(&[-26.31832, -48.8802222])), ("time", stamp(2022, 2, 7, 0, 2))]),
        document(vec![("device", "AA251".into()), ("coordinates", doubles(&[-26.31832, -48.8902222])), ("time", stamp(2022, 2, 7, 0, 3))]),
    ];

    let op = TrackSegmentOptions::default();
    let mut fields = FieldsConfiguration::default();
    fields.flip_coordinates = true;

    let source = Collection::new(docs, Some(fields));

    let tracks = SourceToTracks::build(
        source,
        nanos(2021, 5, 24, 0, 0),
        nanos(2023, 5, 24, 0, 0),
        op,
        reduce,
    )?;
    assert_eq!(1, tracks.len());
    let track = &tracks[0];
    assert_eq!(1, track.segments.len());
    let segment = &track.segments[0];
    assert_eq!(3, segment.points.len());
    assert_eq!(lonlat(-48.8702222, -26.31832), segment.points[0].point());

    Ok(())
}

#[test]
fn track_others_fields_types() -> Result<(), String> {
    let docs = vec![
        document(vec![("device", Bson::Int32(251)), ("coordinates", doubles(&[-48.8702222, -26.31832])), ("time", stamp(2023, 5, 24, 0, 0))]),
        document(vec![("device", Bson::Int32(251)), ("coordinates", doubles(&[-48.8802222, -26.31832])), ("time", stamp(2023, 5, 24, 0, 0))]),
        document(vec![("device", Bson::Int32(251)), ("coordinates", doubles(&[-48.8902222, -26.31832])), ("time", stamp(2023, 5, 24, 0, 0))]),
    ];

    let op = TrackSegmentOptions::default();
    let source = Collection::new(docs, None);

    let tracks = SourceToTracks::build(
        source,
        nanos(2021, 5, 24, 0, 0),
        nanos(2023, 5, 24, 0, 0),
        op,
        reduce,
    )?;
    assert_eq!(1, tracks.len());
    let track = &tracks[0];
    assert_eq!(1, track.segments.len());
    let segment = &track.segments[0];
    assert_eq!(3, segment.points.len());

    Ok(())
}

#[test]
fn mongo_track_filter() -> Result<(), String> {
    let docs = vec![
        document(vec![("device", "AA251".into()), ("coordinates", doubles(&[-48.8702222, -26.31832])), ("time", stamp(2022, 2, 7, 0, 1))]),
        document(vec![("device", "AA251".into()), ("coordinates", doubles(&[-48.8802222, -26.31832])), ("time", stamp(2022, 2, 6, 0, 1))]),
        document(vec![("device", "AA251".into()), ("coordinates", doubles(&[-48.8902222, -26.31832])), ("time", stamp(2022, 2, 3, 0, 1))]),
    ];

    let op = TrackSegmentOptions::default();
    let source = Collection::new(docs, None);

    let tracks = SourceToTracks::build(
        source,
        nanos(2022, 2, 6, 0, 0),
        nanos(2022, 2, 6, 5, 0),
        op,
        reduce,
    )?;
    assert_eq!(1, tracks.len());
    let track = &tracks[0];
    assert_eq!(1, track.segments.len());
    let segment = &track.segments[0];
    assert_eq!(1, segment.points.len());

    Ok(())
}

#[test]
fn track_custom_fields() -> Result<(), String> {
    let docs = vec![
        document(vec![("dev", "AA251".into()), ("coords", doubles(&[-48.8702222, -26.31832])), ("dev_time", stamp(2022, 2, 7, 0, 1))]),
        document(vec![("dev", "AA251".into()), ("coords", doubles(&[-48.8802222, -26.31832])), ("dev_time", stamp(2022, 2, 6, 0, 1))]),
        document(vec![("dev", "AA251".into()), ("coords", doubles(&[-48.8902222, -26.31832])), ("dev_time", stamp(2022, 2, 3, 0, 1))]),
    ];

    let mut fields = FieldsConfiguration::default();
    fields.device_id = "dev".to_string();
    fields.coordinates = "coords".to_string();
    fields.time = "dev_time".to_string();

    let op = TrackSegmentOptions::default();
    let source = Collection::new(docs, Some(fields));

    let tracks = SourceToTracks::build(
        source,
        nanos(2022, 2, 6, 0, 0),
        nanos(2022, 2, 6, 5, 0),
        op,
        reduce,
    )?;
    assert_eq!(1, tracks.len());
    let track = &tracks[0];
    assert_eq!(1, track.segments.len());
    let segment = &track.segments[0];
    assert_eq!(1, segment.points.len());

    Ok(())
}

#[test]
fn mongo_track_filter_out_failed_positions() -> Result<(), String> {
    let docs = vec![
        document(vec![("device", "AA251".into()), ("coordinates", doubles(&[-48.8702222, -26.31832])), ("time", stamp(2022, 2, 6, 0, 1))]),
        document(vec![("device", "AA251".into()), ("coordinates", Bson::Null), ("time", stamp(2022, 2, 7, 0, 1))]),
        document(vec![("device", "AA251".into()), ("coordinates", doubles(&[])), ("time", stamp(2022, 2, 6, 0, 1))]),
        document(vec![("device", "AA251".into()), ("time", stamp(2022, 2, 3, 0, 1))]),
    ];

    let op = TrackSegmentOptions::default();
    let source = Collection::new(docs, None);

    let tracks = SourceToTracks::build(
        source,
        nanos(2022, 1, 6, 0, 0),
        nanos(2022, 3, 6, 5, 0),
        op,
        reduce,
    )?;
    assert_eq!(1, tracks.len());
    let track = &tracks[0];
    assert_eq!(1, track.segments.len());
    let segment = &track.segments[0];
    assert_eq!(1, segment.points.len());

    Ok(())
}

#[test]
fn track_route_field() -> Result<(), String> {
    let texts = |items: &[&str]| Bson::Array(items.iter().map(|t| Bson::String(t.to_string())).collect());
    let docs = vec![
        document(vec![("device", "AA251".into()), ("coordinates", doubles(&[-48.8702222, -26.31832])), ("time", stamp(2022, 2, 7, 0, 1)), ("route", texts(&["01"]))]),
        document(vec![("device", "AA251".into()), ("coordinates", doubles(&[-48.8802222, -26.31832])), ("time", stamp(2022, 2, 7, 0, 2)), ("route", texts(&["01", "02"]))]),
        document(vec![("device", "AA251".into()), ("coordinates", doubles(&[-48.8902222, -26.31832])), ("time", stamp(2022, 2, 7, 0, 3)), ("route", texts(&["01"]))]),
        document(vec![("device", "AA251".into()), ("coordinates", doubles(&[-48.8902222, -26.31832])), ("time", stamp(2022, 2, 7, 0, 3)), ("route", Bson::Null)]),
        document(vec![("device", "AA251".into()), ("coordinates", doubles(&[-48.8902222, -26.31832])), ("time", stamp(2022, 2, 7, 0, 3)), ("route", "04".into())]),
        document(vec![("device", "AA251".into()), ("coordinates", doubles(&[-48.8702222, -26.31832])), ("time", stamp(2022, 2, 7, 0, 1)), ("route", Bson::Array(vec![Bson::Int32(12)]))]),
        document(vec![("device", "AA251".into()), ("coordinates", doubles(&[-48.8702222, -26.31832])), ("time", stamp(2022, 2, 7, 0, 1)), ("route", Bson::Int32(12))]),
    ];

    let op = TrackSegmentOptions::default();
    let source = Collection::new(docs, None);

    let tracks = SourceToTracks::build(
        source,
        nanos(2021, 5, 24, 0, 0),
        nanos(2023, 5, 24, 0, 0),
        op,
        reduce,
    )?;
    assert_eq!(4, tracks.len());

    let track = &tracks[0];
    assert_eq!(1, track.segments.len());
    assert_eq!(Some("01".to_string()), track.name);
    let segment = &track.segments[0];
    assert_eq!(3, segment.points.len());

    let track = &tracks[1];
    assert_eq!(1, track.segments.len());
    assert_eq!(Some("04".to_string()), track.name);
    let segment = &track.segments[0];
    assert_eq!(1, segment.points.len());

    let track = &tracks[2];
    assert_eq!(1, track.segments.len());
    assert_eq!(Some("12".to_string()), track.name);
    let segment = &track.segments[0];
    assert_eq!(2, segment.points.len());

    let track = &tracks[3];
    assert_eq!(1, track.segments.len());
    assert_eq!(Some("2022-02-07".to_string()), track.name);
    let segment = &track.segments[0];
    assert_eq!(1, segment.points.len());

    Ok(())
}
