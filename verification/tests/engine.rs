use geo::SimplifyVwIdx;
use location2gpx::{
    group_positions, is_blank, is_white_space, segment_positions, Coordinates, DevicePosition, FieldsConfiguration,
    GpxGenerator, GpxVersion, PositionsSource, RawPosition, SourceToTracks, Track, TrackSegment,
    TrackSegmentOptions, Tracker, Waypoint,
};

const SECOND: i128 = 1_000_000_000;

fn spot(lng: f64, lat: f64) -> Coordinates {
    Coordinates::new(lng.to_bits(), lat.to_bits())
}

fn at_second(second: i128) -> RawPosition {
    RawPosition::basic(spot(1.0, 2.0), second * SECOND)
}

fn visvalingam(points: &Vec<Waypoint>, tolerance: u64) -> Vec<usize> {
    let line: geo::LineString<f64> = points
        .iter()
        .map(|w| geo::Coord {
            x: f64::from_bits(w.coordinates.lng),
            y: f64::from_bits(w.coordinates.lat),
        })
        .collect();
    line.simplify_vw_idx(&f64::from_bits(tolerance))
}

fn seconds_of(segment: &TrackSegment) -> Vec<i128> {
    segment.points.iter().map(|w| w.time.unwrap() / SECOND).collect()
}

fn device_at(device: &str, second: i128) -> DevicePosition {
    DevicePosition::basic(device.to_string(), spot(1.0, 2.0), second * SECOND)
}

struct Fixed {
    batch: Option<Result<Vec<DevicePosition>, String>>,
    asked: Vec<(i128, i128)>,
}

impl PositionsSource for &mut Fixed {
    fn fetch(&mut self, start: i128, end: i128) -> Result<Vec<DevicePosition>, String> {
        self.asked.push((start, end));
        self.batch.take().unwrap()
    }
}

#[test]
fn three_positions_of_one_day_make_one_segment() {
    // 2021-05-24 00:00:00 UTC
    let midnight: i128 = 1_621_814_400;
    let mut source = Fixed {
        batch: Some(Ok(vec![
            device_at("dev1", midnight),
            device_at("dev1", midnight + 120),
            device_at("dev1", midnight + 240),
        ])),
        asked: vec![],
    };
    let mut options = TrackSegmentOptions::new();
    options.max_duration = 300;
    let tracks =
        SourceToTracks::build(&mut source, 0, midnight * 2 * SECOND, options, visvalingam).unwrap();
    assert_eq!(1, tracks.len());
    assert_eq!(Some("2021-05-24".to_string()), tracks[0].name);
    assert_eq!(1, tracks[0].segments.len());
    assert_eq!(3, tracks[0].segments[0].points.len());
    assert_eq!(vec![(0, midnight * 2 * SECOND)], source.asked);
}

#[test]
fn windows_without_positions_make_no_segment() {
    let positions = vec![at_second(10), at_second(299), at_second(300), at_second(599), at_second(900), at_second(1199)];
    let refs: Vec<&RawPosition> = positions.iter().collect();
    let segments = segment_positions(&refs, 300);
    assert_eq!(3, segments.len());
    assert_eq!(vec![10, 299], seconds_of(&segments[0]));
    assert_eq!(vec![300, 599], seconds_of(&segments[1]));
    assert_eq!(vec![900, 1199], seconds_of(&segments[2]));
}

#[test]
fn positions_a_window_apart_are_cut_at_the_border() {
    // two seconds apart, on the two sides of a border
    let positions = vec![at_second(301), at_second(299)];
    let refs: Vec<&RawPosition> = positions.iter().collect();
    let segments = segment_positions(&refs, 300);
    assert_eq!(2, segments.len());
    assert_eq!(vec![299], seconds_of(&segments[0]));
    assert_eq!(vec![301], seconds_of(&segments[1]));
}

#[test]
fn instants_before_the_epoch_round_towards_the_past() {
    // -1 s is in the window [-300, 0), and so is half a second before the epoch
    let positions = vec![
        at_second(0),
        at_second(-1),
        at_second(-300),
        at_second(-301),
        RawPosition::basic(spot(1.0, 2.0), -SECOND / 2),
    ];
    let refs: Vec<&RawPosition> = positions.iter().collect();
    let segments = segment_positions(&refs, 300);
    assert_eq!(3, segments.len());
    assert_eq!(vec![-301], seconds_of(&segments[0]));
    assert_eq!(3, segments[1].points.len());
    assert_eq!(Some(-300 * SECOND), segments[1].points[0].time);
    assert_eq!(Some(-SECOND), segments[1].points[1].time);
    assert_eq!(Some(-SECOND / 2), segments[1].points[2].time);
    assert_eq!(vec![0], seconds_of(&segments[2]));
}

#[test]
fn a_duration_under_one_second_counts_as_one() {
    let positions = vec![at_second(7), at_second(5), RawPosition::basic(spot(3.0, 4.0), 5 * SECOND + 1), at_second(6)];
    let refs: Vec<&RawPosition> = positions.iter().collect();
    let segments = segment_positions(&refs, 0);
    assert_eq!(3, segments.len());
    assert_eq!(2, segments[0].points.len());
    assert_eq!(Some(5 * SECOND), segments[0].points[0].time);
    assert_eq!(Some(5 * SECOND + 1), segments[0].points[1].time);
    assert_eq!(vec![6], seconds_of(&segments[1]));
    assert_eq!(vec![7], seconds_of(&segments[2]));
    let by_one = segment_positions(&refs, 1);
    assert_eq!(segments, by_one);
}

#[test]
fn positions_of_one_instant_keep_the_order_of_the_list() {
    let positions = vec![
        RawPosition::basic(spot(3.0, 0.0), 20 * SECOND),
        RawPosition::basic(spot(1.0, 0.0), 10 * SECOND),
        RawPosition::basic(spot(2.0, 0.0), 10 * SECOND),
        RawPosition::basic(spot(4.0, 0.0), 20 * SECOND),
        RawPosition::basic(spot(0.0, 0.0), 10 * SECOND),
    ];
    let refs: Vec<&RawPosition> = positions.iter().collect();
    let segments = segment_positions(&refs, 300);
    assert_eq!(1, segments.len());
    let places: Vec<f64> =
        segments[0].points.iter().map(|w| f64::from_bits(w.coordinates.lng)).collect();
    assert_eq!(vec![1.0, 2.0, 0.0, 3.0, 4.0], places);
}

#[test]
fn no_positions_make_a_track_without_segments() {
    let track = Tracker::new("d".to_string(), "n".to_string()).build(vec![], visvalingam).unwrap();
    assert_eq!(0, track.segments.len());
    assert_eq!(Some("n".to_string()), track.name);
    assert_eq!(Some("Tracked by `d`".to_string()), track.description);
    assert_eq!(None, track.source);
}

#[test]
fn many_positions_come_out_in_time_order() {
    let mut positions = vec![];
    let mut seed: i128 = 12345;
    for _ in 0..1000 {
        seed = (seed * 1103515245 + 12345) % 2147483648;
        positions.push(at_second(seed % 5000 - 2500));
    }
    let refs: Vec<&RawPosition> = positions.iter().collect();
    let segments = segment_positions(&refs, 60);
    let mut count = 0;
    let mut last: Option<i128> = None;
    let mut last_window: Option<i128> = None;
    for segment in &segments {
        assert!(!segment.points.is_empty());
        let window = segment.points[0].time.unwrap().div_euclid(60 * SECOND);
        assert!(last_window.map_or(true, |w| w < window));
        last_window = Some(window);
        for w in &segment.points {
            let t = w.time.unwrap();
            assert_eq!(window, t.div_euclid(60 * SECOND));
            assert!(last.map_or(true, |l| l <= t));
            last = Some(t);
            count += 1;
        }
    }
    assert_eq!(1000, count);
}

#[test]
fn without_a_tolerance_the_simplifier_is_not_asked() {
    let positions = vec![at_second(1), at_second(2), at_second(3)];
    let refs: Vec<&RawPosition> = positions.iter().collect();
    let track = Tracker::new("d".to_string(), "n".to_string())
        .build(refs, |_: &Vec<Waypoint>, _: u64| -> Vec<usize> { panic!("asked") })
        .unwrap();
    assert_eq!(1, track.segments.len());
    assert_eq!(vec![1, 2, 3], seconds_of(&track.segments[0]));
}

#[test]
fn each_segment_is_simplified_by_itself() {
    let positions = vec![at_second(1), at_second(2), at_second(3), at_second(301), at_second(302), at_second(303), at_second(304)];
    let refs: Vec<&RawPosition> = positions.iter().collect();
    let mut options = TrackSegmentOptions::new();
    options.simplify_with_vw(9.5_f64.to_bits());
    let track = Tracker::new("d".to_string(), "n".to_string())
        .configure_segments(&options)
        .build(refs, |points: &Vec<Waypoint>, tolerance: u64| {
            assert_eq!(9.5, f64::from_bits(tolerance));
            vec![0, points.len() - 1]
        })
        .unwrap();
    assert_eq!(2, track.segments.len());
    assert_eq!(vec![1, 3], seconds_of(&track.segments[0]));
    assert_eq!(vec![301, 304], seconds_of(&track.segments[1]));
}

#[test]
fn an_answer_that_is_no_selection_leaves_the_segment_whole() {
    let positions = vec![at_second(1), at_second(2), at_second(3), at_second(4)];
    let mut options = TrackSegmentOptions::new();
    options.simplify_with_vw(1.0_f64.to_bits());
    let answers: Vec<Vec<usize>> = vec![
        vec![],
        vec![0],
        vec![1, 3],
        vec![0, 2],
        vec![0, 2, 1, 3],
        vec![0, 1, 1, 3],
        vec![0, 3, 4],
        vec![0, 7, 3],
    ];
    for answer in answers {
        let refs: Vec<&RawPosition> = positions.iter().collect();
        let track = Tracker::new("d".to_string(), "n".to_string())
            .configure_segments(&options)
            .build(refs, |_: &Vec<Waypoint>, _: u64| answer.clone())
            .unwrap();
        assert_eq!(vec![1, 2, 3, 4], seconds_of(&track.segments[0]));
    }
}

#[test]
fn retain_picks_the_named_waypoints() {
    let mut a = Waypoint::new(spot(1.0, 1.0));
    a.speed = Some(3.5_f64.to_bits());
    let mut b = Waypoint::new(spot(2.0, 2.0));
    b.elevation = Some(8.0_f64.to_bits());
    let c = Waypoint::new(spot(3.0, 3.0));
    let segment = TrackSegment { points: vec![a, b, c] };
    assert_eq!(vec![c, a, a], segment.retain(&vec![2, 0, 0]).points);
    assert_eq!(Vec::<Waypoint>::new(), segment.retain(&vec![]).points);
    assert!(segment.accepts(&vec![0, 2]));
    assert!(segment.accepts(&vec![0, 1, 2]));
    assert!(!segment.accepts(&vec![0, 1]));
    assert!(!segment.accepts(&vec![2, 0]));
    assert!(!segment.accepts(&vec![0, 2, 3]));
    assert_eq!(vec![a, c], segment.simplified(&vec![0, 2]).points);
    assert_eq!(vec![a, b, c], segment.simplified(&vec![1, 2]).points);
    let none = TrackSegment::new();
    assert!(none.accepts(&vec![]));
    assert!(!none.accepts(&vec![0]));
    assert_eq!(0, none.simplified(&vec![0]).points.len());
}

#[test]
fn groups_come_by_device_then_route_or_day() {
    let mut batch = vec![];
    let mut p = device_at("b", 10);
    p.route_name = Some("z".to_string());
    batch.push(p);
    batch.push(device_at("b", 86_400 + 5));
    let mut p = device_at("a", 20);
    p.route_name = Some("  ".to_string());
    batch.push(p);
    batch.push(device_at("ab", 30));
    let mut p = device_at("b", 40);
    p.route_name = Some("Z".to_string());
    batch.push(p);
    let mut p = device_at("b", 50);
    p.route_name = Some("z".to_string());
    batch.push(p);
    let mut p = device_at("b", 60);
    p.route_name = Some("".to_string());
    batch.push(p);
    let mut p = device_at("b", 70);
    p.route_name = Some(" z".to_string());
    batch.push(p);
    batch.push(device_at("", 80));

    let groups = group_positions(batch).unwrap();
    let keys: Vec<(String, String, Vec<i128>)> = groups
        .iter()
        .map(|g| {
            (
                g.device_id.clone(),
                g.route.clone(),
                g.members.iter().map(|m| m.pos.time / SECOND).collect(),
            )
        })
        .collect();
    let expected: Vec<(String, String, Vec<i128>)> = vec![
        ("".to_string(), "1970-01-01".to_string(), vec![80]),
        ("a".to_string(), "1970-01-01".to_string(), vec![20]),
        ("ab".to_string(), "1970-01-01".to_string(), vec![30]),
        ("b".to_string(), " z".to_string(), vec![70]),
        ("b".to_string(), "1970-01-01".to_string(), vec![60]),
        ("b".to_string(), "1970-01-02".to_string(), vec![86_405]),
        ("b".to_string(), "Z".to_string(), vec![40]),
        ("b".to_string(), "z".to_string(), vec![10, 50]),
    ];
    assert_eq!(expected, keys);
}

#[test]
fn texts_are_ordered_by_code_point() {
    let names = vec!["é", "z", "a", "Z", "aa", "日本", "", "a\u{10000}"];
    let batch: Vec<DevicePosition> = names.iter().map(|n| device_at(n, 0)).collect();
    let groups = group_positions(batch).unwrap();
    let got: Vec<String> = groups.iter().map(|g| g.device_id.clone()).collect();
    let mut sorted: Vec<String> = names.iter().map(|n| n.to_string()).collect();
    sorted.sort();
    assert_eq!(sorted, got);
}

#[test]
fn grouping_does_not_go_by_the_order_of_the_batch() {
    let make = |order: &[usize]| -> Vec<DevicePosition> {
        let all = vec![
            ("x", 10, Some("r1")),
            ("y", 20, None),
            ("x", 30, None),
            ("x", 40, Some("r1")),
            ("y", 90_000, None),
            ("x", 50, Some("r0")),
        ];
        order
            .iter()
            .map(|&i| {
                let (device, second, route) = all[i];
                let mut p = device_at(device, second);
                p.route_name = route.map(|r| r.to_string());
                p
            })
            .collect()
    };
    let summary = |batch: Vec<DevicePosition>| -> Vec<(String, String, Vec<i128>)> {
        group_positions(batch)
            .unwrap()
            .iter()
            .map(|g| {
                let mut seconds: Vec<i128> = g.members.iter().map(|m| m.pos.time / SECOND).collect();
                seconds.sort();
                (g.device_id.clone(), g.route.clone(), seconds)
            })
            .collect()
    };
    let first = summary(make(&[0, 1, 2, 3, 4, 5]));
    assert_eq!(5, first.len());
    assert_eq!(first, summary(make(&[5, 4, 3, 2, 1, 0])));
    assert_eq!(first, summary(make(&[3, 0, 5, 1, 4, 2])));
}

#[test]
fn an_empty_batch_makes_no_track() {
    let mut source = Fixed { batch: Some(Ok(vec![])), asked: vec![] };
    let tracks =
        SourceToTracks::build(&mut source, 1, 2, TrackSegmentOptions::default(), visvalingam)
            .unwrap();
    assert!(tracks.is_empty());
    assert_eq!(vec![(1, 2)], source.asked);
}

#[test]
fn a_failed_fetch_is_handed_on() {
    let mut source = Fixed { batch: Some(Err("no connection".to_string())), asked: vec![] };
    let built = SourceToTracks::build(&mut source, 1, 2, TrackSegmentOptions::default(), visvalingam);
    assert_eq!(Some("no connection".to_string()), built.err());
}

#[test]
fn an_instant_without_a_day_fails_the_whole_build() {
    let mut labelled = DevicePosition::basic("d".to_string(), spot(1.0, 2.0), i128::MAX);
    labelled.route_name = Some("r".to_string());
    let tracks = SourceToTracks::tracks_of(
        vec![device_at("d", 1), labelled],
        &TrackSegmentOptions::default(),
        &visvalingam,
    )
    .unwrap();
    assert_eq!(2, tracks.len());

    let unlabelled = DevicePosition::basic("d".to_string(), spot(1.0, 2.0), i128::MAX);
    let built = SourceToTracks::tracks_of(
        vec![device_at("d", 1), unlabelled, device_at("e", 2)],
        &TrackSegmentOptions::default(),
        &visvalingam,
    );
    assert!(built.is_err());
    let far = DevicePosition::basic("d".to_string(), spot(1.0, 2.0), i128::MIN);
    assert!(group_positions(vec![far]).is_err());
}

#[test]
fn the_day_is_that_of_utc() {
    // 2021-05-24 23:59:59.999999999 UTC and the nanosecond after it
    let last: i128 = 1_621_900_799 * SECOND + 999_999_999;
    let groups = group_positions(vec![
        DevicePosition::basic("d".to_string(), spot(1.0, 2.0), last),
        DevicePosition::basic("d".to_string(), spot(1.0, 2.0), last + 1),
        DevicePosition::basic("d".to_string(), spot(1.0, 2.0), -1),
    ])
    .unwrap();
    let days: Vec<String> = groups.iter().map(|g| g.route.clone()).collect();
    assert_eq!(vec!["1969-12-31", "2021-05-24", "2021-05-25"], days);
}

#[test]
fn the_source_tag_is_that_of_the_first_member_that_has_one() {
    let mut batch = vec![];
    let mut p = device_at("walker", 10);
    p.route_name = Some("loop".to_string());
    batch.push(p);
    let mut p = device_at("walker", 20);
    p.route_name = Some("loop".to_string());
    p.tracker = Some("app one".to_string());
    batch.push(p);
    let mut p = device_at("walker", 30);
    p.route_name = Some("loop".to_string());
    p.tracker = Some("app two".to_string());
    batch.push(p);
    let mut p = device_at("rider", 1_621_814_400);
    p.tracker = Some("bike app".to_string());
    batch.push(p);
    batch.push(device_at("silent", 5));

    let tracks =
        SourceToTracks::tracks_of(batch, &TrackSegmentOptions::default(), &visvalingam).unwrap();
    assert_eq!(3, tracks.len());
    assert_eq!(Some("2021-05-24".to_string()), tracks[0].name);
    assert_eq!(Some("Tracked by `rider`".to_string()), tracks[0].description);
    assert_eq!(Some("bike app".to_string()), tracks[0].source);
    assert_eq!(Some("1970-01-01".to_string()), tracks[1].name);
    assert_eq!(Some("Tracked by `silent`".to_string()), tracks[1].description);
    assert_eq!(None, tracks[1].source);
    assert_eq!(Some("loop".to_string()), tracks[2].name);
    assert_eq!(Some("Tracked by `walker`".to_string()), tracks[2].description);
    assert_eq!(Some("app one".to_string()), tracks[2].source);
    assert_eq!(3, tracks[2].segments[0].points.len());
}

#[test]
fn a_sharp_turn_survives_simplification() {
    let places = vec![(0.0, 0.0), (1.0, 0.01), (2.0, 0.0), (3.0, 0.01), (3.0, 10.0)];
    let positions: Vec<RawPosition> = places
        .iter()
        .enumerate()
        .map(|(i, (x, y))| RawPosition::basic(spot(*x, *y), i as i128 * SECOND))
        .collect();
    let refs: Vec<&RawPosition> = positions.iter().collect();
    let mut options = TrackSegmentOptions::new();
    options.simplify_with_vw(1.0_f64.to_bits());
    let track = Tracker::new("d".to_string(), "n".to_string())
        .configure_segments(&options)
        .build(refs, visvalingam)
        .unwrap();
    assert_eq!(1, track.segments.len());
    let kept: Vec<Coordinates> = track.segments[0].points.iter().map(|w| w.point()).collect();
    assert_eq!(vec![spot(0.0, 0.0), spot(3.0, 0.01), spot(3.0, 10.0)], kept);
    assert_eq!(Some(3 * SECOND), track.segments[0].points[1].time);
}

#[test]
fn defaults_are_as_documented() {
    let options = TrackSegmentOptions::default();
    assert_eq!(300, options.max_duration);
    assert_eq!(None, options.vw_tolerance);
    assert_eq!(options, TrackSegmentOptions::new());
    assert_eq!(300, options.window());
    let mut zero = TrackSegmentOptions::new();
    zero.max_duration = 0;
    assert_eq!(1, zero.window());

    let fields = FieldsConfiguration::default();
    assert_eq!("device", fields.device_id);
    assert_eq!("time", fields.time);
    assert_eq!("route", fields.route);
    assert_eq!("coordinates", fields.coordinates);
    assert_eq!("speed", fields.speed);
    assert_eq!("elevation", fields.elevation);
    assert!(!fields.flip_coordinates);
}

#[test]
fn the_document_holds_the_tracks_as_given() {
    let empty = GpxGenerator::empty();
    assert!(empty.tracks.is_empty());

    let mut generator = GpxGenerator::empty();
    let mut first = Track::new();
    first.name = Some("first".to_string());
    generator.tracks.push(first);
    let positions = vec![at_second(1)];
    let refs: Vec<&RawPosition> = positions.iter().collect();
    generator
        .tracks
        .push(Tracker::new("d".to_string(), "second".to_string()).build(refs, visvalingam).unwrap());
    let doc = generator.generate().unwrap();
    assert_eq!(GpxVersion::Gpx11, doc.version);
    assert_eq!(Some("location2gpx".to_string()), doc.creator);
    assert_eq!(2, doc.tracks.len());
    assert_eq!(Some("first".to_string()), doc.tracks[0].name);
    assert_eq!(Some("second".to_string()), doc.tracks[1].name);
    assert_eq!(1, doc.tracks[1].segments[0].points.len());
}

#[test]
fn white_space_is_what_the_standard_library_takes_for_it() {
    let mut count = 0;
    for code in 0..=0x10FFFF_u32 {
        if let Some(c) = char::from_u32(code) {
            assert_eq!(c.is_whitespace(), is_white_space(c), "{:x}", code);
            if is_white_space(c) {
                count += 1;
            }
        }
    }
    assert_eq!(25, count);
    assert!(is_blank(""));
    assert!(is_blank(" \t\u{3000}\u{85}\n"));
    assert!(!is_blank(" a "));
    assert!(!is_blank("\u{200B}"));
}

#[test]
fn building_does_not_go_by_the_order_of_the_batch() {
    let make = |order: &[usize], tie: bool| -> Vec<DevicePosition> {
        let all: Vec<(&str, i128, f64)> = vec![
            ("x", 10, 1.0),
            ("y", 20, 2.0),
            ("x", 400, 3.0),
            ("x", if tie { 10 } else { 40 }, 4.0),
            ("y", 90_000, 5.0),
            ("x", 290, 6.0),
        ];
        order
            .iter()
            .map(|&i| {
                let (device, second, lng) = all[i];
                DevicePosition::basic(device.to_string(), spot(lng, 0.0), second * SECOND)
            })
            .collect()
    };
    let build = |batch: Vec<DevicePosition>, sort: bool| -> Vec<(Option<String>, Vec<Vec<(i128, u64)>>)> {
        SourceToTracks::tracks_of(batch, &TrackSegmentOptions::default(), &visvalingam)
            .unwrap()
            .iter()
            .map(|track| {
                let segments = track
                    .segments
                    .iter()
                    .map(|segment| {
                        let mut points: Vec<(i128, u64)> = segment
                            .points
                            .iter()
                            .map(|w| (w.time.unwrap(), w.coordinates.lng))
                            .collect();
                        if sort {
                            points.sort();
                        }
                        points
                    })
                    .collect();
                (track.description.clone(), segments)
            })
            .collect()
    };
    let first = build(make(&[0, 1, 2, 3, 4, 5], false), false);
    assert_eq!(3, first.len());
    assert_eq!(2, first[0].1.len());
    assert_eq!(first, build(make(&[5, 4, 3, 2, 1, 0], false), false));
    assert_eq!(first, build(make(&[3, 0, 5, 1, 4, 2], false), false));

    let tied = build(make(&[0, 1, 2, 3, 4, 5], true), true);
    assert_eq!(tied, build(make(&[5, 4, 3, 2, 1, 0], true), true));
    assert_ne!(
        build(make(&[0, 1, 2, 3, 4, 5], true), false),
        build(make(&[5, 4, 3, 2, 1, 0], true), false)
    );
}
