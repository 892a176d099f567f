use geo::SimplifyVwIdx;
use location2gpx::{
    Coordinates, DevicePosition, PositionsSource, RawPosition, SourceToTracks, TrackSegmentOptions,
    Tracker, Waypoint,
};

fn point(lng: f64, lat: f64) -> Coordinates {
    Coordinates::new(lng.to_bits(), lat.to_bits())
}

fn utc(year: i32, month: u8, day: u8, hour: u8, minute: u8) -> i128 {
    let month = time::Month::try_from(month).unwrap();
    time::Date::from_calendar_date(year, month, day)
        .unwrap()
        .with_hms(hour, minute, 0)
        .unwrap()
        .assume_utc()
        .unix_timestamp_nanos()
}

fn vw(points: &Vec<Waypoint>, tolerance: u64) -> Vec<usize> {
    let line: geo::LineString<f64> = points
        .iter()
        .map(|w| geo::Coord {
            x: f64::from_bits(w.coordinates.lng),
            y: f64::from_bits(w.coordinates.lat),
        })
        .collect();
    line.simplify_vw_idx(&f64::from_bits(tolerance))
}

#[test]
fn simple_track() -> Result<(), String> {
    let p1 = RawPosition::basic(point(-48.8702222, -26.31832), utc(2021, 5, 24, 0, 0));
    let p2 = RawPosition::basic(point(-48.8619776, -26.3185919), utc(2021, 5, 24, 0, 2));
    let p3 = RawPosition::basic(point(-48.8619871, -26.3185861), utc(2021, 5, 24, 0, 4));

    let track = Tracker::new("my dev 1".to_string(), "running in joinville".to_string())
        .source("my app v0.1".to_string())
        .build(vec![&p1, &p2, &p3], vw)?;
    assert_eq!(1, track.segments.len());
    assert_eq!(Some("running in joinville".to_string()), track.name);
    assert_eq!(Some("Tracked by `my dev 1`".to_string()), track.description);
    assert_eq!(Some("my app v0.1".to_string()), track.source);

    let segment = &track.segments[0];
    assert_eq!(3, segment.points.len());
    assert_eq!(p1.coordinates, segment.points[0].point());
    assert_eq!(Some(p1.time), segment.points[0].time);
    assert_eq!(p2.coordinates, segment.points[1].point());
    assert_eq!(Some(p2.time), segment.points[1].time);
    assert_eq!(p3.coordinates, segment.points[2].point());
    assert_eq!(Some(p3.time), segment.points[2].time);

    Ok(())
}

#[test]
fn simple_track_reversed() -> Result<(), String> {
    let p1 = RawPosition::basic(point(-48.8702222, -26.31832), utc(2021, 5, 24, 0, 0));
    let p2 = RawPosition::basic(point(-48.8619776, -26.3185919), utc(2021, 5, 24, 0, 1));
    let p3 = RawPosition::basic(point(-48.8619871, -26.3185861), utc(2021, 5, 24, 0, 2));

    let track = Tracker::new("my dev 1".to_string(), "running in joinville".to_string())
        .build(vec![&p3, &p2, &p1], vw)?;
    assert_eq!(1, track.segments.len());

    let segment = &track.segments[0];
    assert_eq!(3, segment.points.len());
    assert_eq!(p1.coordinates, segment.points[0].point());
    assert_eq!(Some(p1.time), segment.points[0].time);
    assert_eq!(p2.coordinates, segment.points[1].point());
    assert_eq!(Some(p2.time), segment.points[1].time);
    assert_eq!(p3.coordinates, segment.points[2].point());
    assert_eq!(Some(p3.time), segment.points[2].time);

    Ok(())
}

struct PlainSource {}

impl PositionsSource for PlainSource {
    fn fetch(&mut self, _start: i128, _end: i128) -> Result<Vec<DevicePosition>, String> {
        let mut pos = vec![];

        pos.push(DevicePosition::basic(
            "dev 1".to_string(),
            point(-48.8702222, -26.31832),
            utc(2021, 5, 24, 0, 0),
        ));
        pos.push(DevicePosition::basic(
            "dev 1".to_string(),
            point(-48.8619776, -26.3185919),
            utc(2021, 5, 24, 0, 1),
        ));
        pos.push(DevicePosition::basic(
            "dev 1".to_string(),
            point(-48.8619871, -26.3185861),
            utc(2021, 5, 24, 0, 2),
        ));
        pos.push(DevicePosition::basic(
            "dev 2".to_string(),
            point(-48.8619871, -26.3385861),
            utc(2021, 5, 24, 0, 2),
        ));

        Ok(pos)
    }
}

#[test]
fn source2tracks() -> Result<(), String> {
    let op = TrackSegmentOptions::new();
    let tracks = SourceToTracks::build(
        PlainSource {},
        utc(2021, 5, 24, 0, 0),
        utc(2022, 5, 24, 0, 0),
        op,
        vw,
    )?;
    assert_eq!(2, tracks.len());

    let track = &tracks[0];
    assert_eq!(Some("2021-05-24".to_string()), track.name);
    assert_eq!(Some("Tracked by `dev 1`".to_string()), track.description);
    assert_eq!(None, track.source);
    assert_eq!(1, track.segments.len());
    let segment = &track.segments[0];
    assert_eq!(3, segment.points.len());

    let track = &tracks[1];
    assert_eq!(Some("2021-05-24".to_string()), track.name);
    assert_eq!(Some("Tracked by `dev 2`".to_string()), track.description);
    assert_eq!(None, track.source);
    assert_eq!(1, track.segments.len());
    let segment = &track.segments[0];
    assert_eq!(1, segment.points.len());

    Ok(())
}

fn routed(device: &str, lng: f64, lat: f64, route: &str) -> DevicePosition {
    let mut p = DevicePosition::basic(device.to_string(), point(lng, lat), utc(2021, 5, 24, 0, 0));
    p.route_name = Some(route.to_string());
    p.tracker = Some("my app".to_string());
    p
}

struct RoutedSource {}

impl PositionsSource for RoutedSource {
    fn fetch(&mut self, _start: i128, _end: i128) -> Result<Vec<DevicePosition>, String> {
        let mut pos = vec![];

        pos.push(routed("dev 1", -48.8702222, -26.31832, "125"));
        pos.push(routed("dev 1", -48.8702222, -23.31832, "125"));
        pos.push(routed("dev 1", -48.8702222, -22.31832, "123"));
        pos.push(routed("dev 2", -48.3702222, -26.31832, "125"));

        Ok(pos)
    }
}

#[test]
fn source2tracks_with_rotes() -> Result<(), String> {
    let op = TrackSegmentOptions::new();
    let tracks = SourceToTracks::build(
        RoutedSource {},
        utc(2021, 5, 24, 0, 0),
        utc(2022, 5, 24, 0, 0),
        op,
        vw,
    )?;
    assert_eq!(3, tracks.len());

    let track = &tracks[0];
    assert_eq!(Some("123".to_string()), track.name);
    assert_eq!(Some("Tracked by `dev 1`".to_string()), track.description);
    assert_eq!(Some("my app".to_string()), track.source);
    assert_eq!(1, track.segments.len());
    let segment = &track.segments[0];
    assert_eq!(1, segment.points.len());

    let track = &tracks[1];
    assert_eq!(Some("125".to_string()), track.name);
    assert_eq!(Some("Tracked by `dev 1`".to_string()), track.description);
    assert_eq!(Some("my app".to_string()), track.source);
    assert_eq!(1, track.segments.len());
    let segment = &track.segments[0];
    assert_eq!(2, segment.points.len());

    let track = &tracks[2];
    assert_eq!(Some("125".to_string()), track.name);
    assert_eq!(Some("Tracked by `dev 2`".to_string()), track.description);
    assert_eq!(Some("my app".to_string()), track.source);
    assert_eq!(1, track.segments.len());
    let segment = &track.segments[0];
    assert_eq!(1, segment.points.len());

    Ok(())
}

#[test]
fn speed_and_elevation_info() -> Result<(), String> {
    let mut p1 = RawPosition::basic(point(-48.8702222, -26.31832), utc(2021, 5, 24, 0, 0));
    p1.altitude = Some(50.0_f64.to_bits());
    p1.speed = Some(7.0_f64.to_bits());

    let track = Tracker::new("my dev 1".to_string(), "running in joinville".to_string())
        .build(vec![&p1], vw)?;
    assert_eq!(1, track.segments.len());

    let segment = &track.segments[0];
    assert_eq!(1, segment.points.len());
    assert_eq!(p1.coordinates, segment.points[0].point());
    assert_eq!(Some(p1.time), segment.points[0].time);
    assert_eq!(Some(7.0), segment.points[0].speed.map(f64::from_bits));
    assert_eq!(Some(50.0), segment.points[0].elevation.map(f64::from_bits));

    Ok(())
}

#[test]
fn time_segmented_track() -> Result<(), String> {
    let times = vec![
        utc(2021, 5, 24, 0, 0),
        utc(2021, 5, 24, 0, 1),
        utc(2021, 5, 24, 0, 2),
        utc(2021, 5, 24, 0, 3),
        utc(2021, 5, 24, 0, 4),
        utc(2021, 5, 24, 0, 5),
        utc(2021, 5, 24, 0, 6),
        utc(2021, 5, 24, 0, 7),
        utc(2021, 5, 24, 0, 8),
        utc(2021, 5, 24, 0, 9),
        utc(2021, 5, 24, 0, 17),
        utc(2021, 5, 24, 0, 18),
        utc(2021, 5, 24, 0, 19),
        utc(2021, 5, 24, 0, 21),
        utc(2021, 5, 24, 0, 22),
        utc(2021, 5, 24, 0, 24),
        utc(2021, 5, 24, 1, 21),
    ];

    let raw: Vec<RawPosition> = times
        .iter()
        .map(|tm| RawPosition::basic(point(-48.8702222, -26.31832), *tm))
        .collect();
    let pos = raw.iter().map(|p| p).collect();
    let track = Tracker::new("my dev 1".to_string(), "running in joinville".to_string())
        .build(pos, vw)?;
    assert_eq!(5, track.segments.len());

    let segment = &track.segments[0];
    assert_eq!(5, segment.points.len());
    assert_eq!(Some(utc(2021, 5, 24, 0, 0)), segment.points[0].time);
    assert_eq!(Some(utc(2021, 5, 24, 0, 4)), segment.points[4].time);

    let segment = &track.segments[1];
    assert_eq!(5, segment.points.len());
    assert_eq!(Some(utc(2021, 5, 24, 0, 5)), segment.points[0].time);
    assert_eq!(Some(utc(2021, 5, 24, 0, 9)), segment.points[4].time);

    let segment = &track.segments[2];
    assert_eq!(3, segment.points.len());
    assert_eq!(Some(utc(2021, 5, 24, 0, 17)), segment.points[0].time);
    assert_eq!(Some(utc(2021, 5, 24, 0, 19)), segment.points[2].time);

    let segment = &track.segments[3];
    assert_eq!(3, segment.points.len());
    assert_eq!(Some(utc(2021, 5, 24, 0, 21)), segment.points[0].time);
    assert_eq!(Some(utc(2021, 5, 24, 0, 24)), segment.points[2].time);

    let segment = &track.segments[4];
    assert_eq!(1, segment.points.len());
    assert_eq!(Some(utc(2021, 5, 24, 1, 21)), segment.points[0].time);
    assert_eq!(Some(utc(2021, 5, 24, 1, 21)), segment.points[0].time);

    Ok(())
}

#[test]
fn simplify_track() -> Result<(), String> {
    let locs = vec![
        point(5.0, 2.0),
        point(3.0, 8.0),
        point(6.0, 20.0),
        point(7.0, 25.0),
        point(10.0, 10.0),
    ];

    let raw: Vec<RawPosition> = locs
        .iter()
        .map(|loc| RawPosition::basic(*loc, utc(2021, 5, 24, 0, 0)))
        .collect();
    let pos = raw.iter().map(|p| p).collect();
    let mut op = TrackSegmentOptions::new();
    op.simplify_with_vw(30.0_f64.to_bits());
    let track = Tracker::new("my dev 1".to_string(), "running in joinville".to_string())
        .configure_segments(&op)
        .build(pos, vw)?;
    assert_eq!(1, track.segments.len());

    let segment = &track.segments[0];
    assert_eq!(3, segment.points.len());
    assert_eq!(point(5.0, 2.0), segment.points[0].point());
    assert_eq!(point(7.0, 25.0), segment.points[1].point());
    assert_eq!(point(10.0, 10.0), segment.points[2].point());

    Ok(())
}
