//! Track generator API

use vstd::prelude::*;
use vstd::string::StringExecFns;

use super::grouping::{
    all_keyed, batch_view, group_positions, grouped, groups_view, key_failure,
    lemma_grouping_ignores_order, PositionGroup, PositionGroupView,
};
use super::rearranged::lemma_map_rearranged;
use super::position::{text_view, DevicePosition, DevicePositionView, RawPosition};
use super::segmenter::{
    chronological, lemma_windows_ignore_order, positions_view, segment_key, segment_positions,
    waypoint_key, well_cut, window_width, windows_of,
};
use super::simplifier::{
    is_reduction_of, lemma_reduction_keeps_order, lemma_reduction_member,
    lemma_reduction_reflexive, simplified_points,
};
use super::track::{segments_view, Track, TrackSegment, TrackView, Waypoint};
use crate::sources::PositionsSource;

verus! {

/// Segments configurations
#[derive(Clone, Copy, Debug, PartialEq, Eq)]
pub struct TrackSegmentOptions {
    /// Max segment duration in seconds; less than one counts as one
    pub max_duration: u16,
    /// Tolerance value to simplify with Visvalingam-Whyatt algorithm, as the
    /// bit pattern of a binary64 number; simplification is on where it is set
    pub vw_tolerance: Option<u64>,
}

impl Default for TrackSegmentOptions {
    fn default() -> (options: Self)
        ensures
            options == (TrackSegmentOptions { max_duration: 300, vw_tolerance: None }),
    {
        Self {
            max_duration: 300,  // 5 minutes
            vw_tolerance: None,
        }
    }
}

impl TrackSegmentOptions {
    /// Segments of five minutes, not simplified
    pub fn new() -> (options: Self)
        ensures
            options == (TrackSegmentOptions { max_duration: 300, vw_tolerance: None }),
    {
        Self { max_duration: 300, vw_tolerance: None }
    }

    /// Simplify the segments with the Visvalingam-Whyatt algorithm
    pub fn simplify_with_vw(&mut self, tolerance: u64) -> (options: &mut Self)
        ensures
            *options == (TrackSegmentOptions {
                max_duration: old(self).max_duration,
                vw_tolerance: Some(tolerance),
            }),
            *final(self) == *final(options),
    {
        self.vw_tolerance = Some(tolerance);
        self
    }

    /// The width of the time windows in seconds: the maximum duration, and
    /// one second where that is less.
    pub fn window(&self) -> (width: u16)
        ensures
            width == window_width(self.max_duration),
            width >= 1,
    {
        if self.max_duration < 1 {
            1
        } else {
            self.max_duration
        }
    }
}

/// Builder of the track of one device on one route or day
pub struct Tracker {
    /// Device name, number...
    device: String,
    /// Route/Track/Category name, number...
    name: String,
    /// Data source, eg.: track app
    source: Option<String>,
    segment_confs: TrackSegmentOptions,
}

/// What a [`Tracker`] is set up with.
pub ghost struct TrackerView {
    pub device: Seq<char>,
    pub name: Seq<char>,
    pub source: Option<Seq<char>>,
    pub segment_confs: TrackSegmentOptions,
}

impl View for Tracker {
    type V = TrackerView;

    closed spec fn view(&self) -> TrackerView {
        TrackerView {
            device: self.device@,
            name: self.name@,
            source: text_view(self.source),
            segment_confs: self.segment_confs,
        }
    }
}

/// The description of a track of the device `device`.
pub open spec fn description_of(device: Seq<char>) -> Seq<char> {
    "Tracked by `"@ + device + "`"@
}

/// Whether `part` may come out of simplifying the segment `whole` with
/// `simplifier` at `tolerance`: the simplifier can answer the segment's
/// waypoints with indices `keep`, and `part` is what those leave of it.
pub open spec fn is_simplifier_outcome<F: Fn(&Vec<Waypoint>, u64) -> Vec<usize>>(
    simplifier: F,
    tolerance: u64,
    whole: Seq<Waypoint>,
    part: Seq<Waypoint>,
) -> bool {
    exists|points: Vec<Waypoint>, keep: Vec<usize>|
        points@ == whole && #[trigger] call_ensures(simplifier, (&points, tolerance), keep) && part
            == simplified_points(whole, keep@)
}

/// Whether `segments` are what simplification makes of the segments `whole`:
/// as many, each a reduction of the one in its place, and each the same as
/// that one where no tolerance is set, else an outcome of the simplifier.
pub open spec fn is_simplification<F: Fn(&Vec<Waypoint>, u64) -> Vec<usize>>(
    simplifier: F,
    vw_tolerance: Option<u64>,
    whole: Seq<Seq<Waypoint>>,
    segments: Seq<Seq<Waypoint>>,
) -> bool {
    &&& segments.len() == whole.len()
    &&& forall|s: int| 0 <= s < whole.len() ==> is_reduction_of(#[trigger] segments[s], whole[s])
    &&& match vw_tolerance {
        None => segments == whole,
        Some(tolerance) => forall|s: int|
            0 <= s < whole.len() ==> is_simplifier_outcome(
                simplifier,
                tolerance,
                whole[s],
                #[trigger] segments[s],
            ),
    }
}

/// Simplification keeps the layout of a track: segments that are reductions
/// of well cut segments, one for one, are well cut.
pub proof fn lemma_reductions_well_cut(
    whole: Seq<Seq<Waypoint>>,
    segments: Seq<Seq<Waypoint>>,
    width: int,
)
    requires
        well_cut(whole, width),
        segments.len() == whole.len(),
        forall|s: int| 0 <= s < whole.len() ==> is_reduction_of(#[trigger] segments[s], whole[s]),
    ensures
        well_cut(segments, width),
{
    assert forall|s: int| 0 <= s < segments.len() implies (#[trigger] segments[s]).len() > 0 by {
        assert(whole[s].len() > 0);
    }
    assert forall|s: int, i: int|
        0 <= s < segments.len() && 0 <= i < segments[s].len() implies waypoint_key(
        #[trigger] segments[s][i],
        width,
    ) == segment_key(segments[s], width) by {
        assert(is_reduction_of(segments[s], whole[s]));
        let k = lemma_reduction_member(segments[s], whole[s], i);
        assert(waypoint_key(whole[s][k], width) == segment_key(whole[s], width));
    }
    assert forall|s: int, t: int| 0 <= s < t < segments.len() implies segment_key(
        #[trigger] segments[s],
        width,
    ) < segment_key(#[trigger] segments[t], width) by {
        assert(is_reduction_of(segments[s], whole[s]));
        assert(is_reduction_of(segments[t], whole[t]));
        assert(segment_key(whole[s], width) < segment_key(whole[t], width));
    }
    assert forall|s: int| 0 <= s < segments.len() implies chronological(
        #[trigger] segments[s],
    ) by {
        assert(is_reduction_of(segments[s], whole[s]));
        assert(chronological(whole[s]));
        lemma_reduction_keeps_order(segments[s], whole[s]);
    }
}

impl Tracker {
    /// Start a new tracker instance
    pub fn new(device: String, name: String) -> (tracker: Self)
        ensures
            tracker@ == (TrackerView {
                device: device@,
                name: name@,
                source: None,
                segment_confs: TrackSegmentOptions { max_duration: 300, vw_tolerance: None },
            }),
    {
        Self { device, name, source: None, segment_confs: TrackSegmentOptions::new() }
    }

    /// Change the segment confs
    pub fn configure_segments(&mut self, conf: &TrackSegmentOptions) -> (tracker: &mut Self)
        ensures
            tracker@ == (TrackerView { segment_confs: *conf, ..old(self)@ }),
            *final(self) == *final(tracker),
    {
        self.segment_confs = *conf;
        self
    }

    /// App or other source name of data
    pub fn source(&mut self, source: String) -> (tracker: &mut Self)
        ensures
            tracker@ == (TrackerView { source: Some(source@), ..old(self)@ }),
            *final(self) == *final(tracker),
    {
        self.source = Some(source);
        self
    }

    /// Build the track with the tracker params.
    ///
    /// The positions are ordered by time and cut into segments at the borders
    /// of the time windows. Where a tolerance is set, `simplifier` is asked,
    /// segment by segment, which waypoints to retain; an answer that is no
    /// selection of the segment's waypoints leaves the segment whole.
    pub fn build<F: Fn(&Vec<Waypoint>, u64) -> Vec<usize>>(
        &self,
        positions: Vec<&RawPosition>,
        simplifier: F,
    ) -> (built: Result<Track, String>)
        requires
            forall|points: &Vec<Waypoint>, tolerance: u64|
                call_requires(simplifier, (points, tolerance)),
        ensures
            built is Ok,
            built->Ok_0@.name == Some(self@.name),
            built->Ok_0@.description == Some(description_of(self@.device)),
            built->Ok_0@.source == self@.source,
            is_simplification(
                simplifier,
                self@.segment_confs.vw_tolerance,
                windows_of(positions_view(positions@), self@.segment_confs.max_duration),
                built->Ok_0@.segments,
            ),
            well_cut(built->Ok_0@.segments, window_width(self@.segment_confs.max_duration)),
    {
        Ok(self.assemble(positions, &simplifier))
    }

    /// The track of `positions`, with `simplifier` lent for the time of the call.
    pub(crate) fn assemble<F: Fn(&Vec<Waypoint>, u64) -> Vec<usize>>(
        &self,
        positions: Vec<&RawPosition>,
        simplifier: &F,
    ) -> (track: Track)
        requires
            forall|points: &Vec<Waypoint>, tolerance: u64|
                call_requires(*simplifier, (points, tolerance)),
        ensures
            track@.name == Some(self@.name),
            track@.description == Some(description_of(self@.device)),
            track@.source == self@.source,
            is_simplification(
                *simplifier,
                self@.segment_confs.vw_tolerance,
                windows_of(positions_view(positions@), self@.segment_confs.max_duration),
                track@.segments,
            ),
            well_cut(track@.segments, window_width(self@.segment_confs.max_duration)),
    {
        let mut description = String::from_str("Tracked by `");
        description.append(self.device.as_str());
        description.append("`");
        let source: Option<String> = match &self.source {
            Some(s) => Some(s.clone()),
            None => None,
        };
        let whole = segment_positions(&positions, self.segment_confs.max_duration);
        let ghost base = segments_view(whole@);
        let segments = match self.segment_confs.vw_tolerance {
            None => whole,
            Some(tolerance) => {
                let mut out: Vec<TrackSegment> = Vec::new();
                let mut s: usize = 0;
                while s < whole.len()
                    invariant
                        s <= whole.len(),
                        out.len() == s,
                        base == segments_view(whole@),
                        forall|points: &Vec<Waypoint>, tolerance: u64|
                            call_requires(*simplifier, (points, tolerance)),
                        forall|t: int|
                            0 <= t < s ==> is_reduction_of(#[trigger] out[t]@, base[t])
                                && is_simplifier_outcome(*simplifier, tolerance, base[t], out[t]@),
                    decreases whole.len() - s,
                {
                    let keep = simplifier(&whole[s].points, tolerance);
                    let kept = whole[s].simplified(&keep);
                    proof {
                        assert(whole[s as int].points@ == base[s as int]);
                        assert(call_ensures(
                            *simplifier,
                            (&whole[s as int].points, tolerance),
                            keep,
                        ));
                    }
                    out.push(kept);
                    s = s + 1;
                }
                out
            },
        };
        proof {
            let got = segments_view(segments@);
            assert(got.len() == base.len());
            assert forall|s: int| 0 <= s < base.len() implies is_reduction_of(
                #[trigger] got[s],
                base[s],
            ) by {
                if self.segment_confs.vw_tolerance is None {
                    lemma_reduction_reflexive(base[s]);
                }
            }
            lemma_reductions_well_cut(base, got, window_width(self.segment_confs.max_duration));
        }
        Track { name: Some(self.name.clone()), description: Some(description), source, segments }
    }
}

/// The recorded positions of the members of a group.
pub open spec fn raw_of(members: Seq<DevicePositionView>) -> Seq<RawPosition> {
    members.map_values(|p: DevicePositionView| p.pos)
}

/// The application tag of a group: that of its first member that carries one.
pub open spec fn first_tracker(members: Seq<DevicePositionView>) -> Option<Seq<char>>
    decreases members.len(),
{
    if members.len() == 0 {
        None
    } else if members[0].tracker is Some {
        members[0].tracker
    } else {
        first_tracker(members.drop_first())
    }
}

/// Whether `track` is the track of `group`: named by the group's route or
/// day, described by its device, tagged with its first application tag, and
/// made of the segments of its positions.
pub open spec fn is_track_of<F: Fn(&Vec<Waypoint>, u64) -> Vec<usize>>(
    simplifier: F,
    segment_confs: TrackSegmentOptions,
    group: PositionGroupView,
    track: TrackView,
) -> bool {
    &&& track.name == Some(group.route)
    &&& track.description == Some(description_of(group.device_id))
    &&& track.source == first_tracker(group.members)
    &&& is_simplification(
        simplifier,
        segment_confs.vw_tolerance,
        windows_of(raw_of(group.members), segment_confs.max_duration),
        track.segments,
    )
    &&& well_cut(track.segments, window_width(segment_confs.max_duration))
}

/// Whether two lists of segments are as many and hold, segment by segment,
/// the same waypoints, which may stand in another order.
pub open spec fn same_segments(first: Seq<Seq<Waypoint>>, second: Seq<Seq<Waypoint>>) -> bool {
    &&& first.len() == second.len()
    &&& forall|s: int|
        0 <= s < first.len() ==> (#[trigger] first[s]).to_multiset() == second[s].to_multiset()
}

/// Building does not go by the order of the batch: two batches of the same
/// positions, however ordered, have the same groups in the same order, and
/// the positions of each group make as many segments, which hold, segment by
/// segment, the same waypoints. Where no tolerance is set, these are the
/// segments of the tracks.
pub proof fn lemma_tracks_ignore_order(
    a: Seq<DevicePositionView>,
    b: Seq<DevicePositionView>,
    max_duration: u16,
)
    requires
        a.to_multiset() == b.to_multiset(),
        all_keyed(a),
    ensures
        all_keyed(b),
        grouped(a).len() == grouped(b).len(),
        forall|g: int|
            0 <= g < grouped(a).len() ==> (#[trigger] grouped(a)[g]).device_id == grouped(
                b,
            )[g].device_id && grouped(a)[g].route == grouped(b)[g].route && same_segments(
                windows_of(raw_of(grouped(a)[g].members), max_duration),
                windows_of(raw_of(grouped(b)[g].members), max_duration),
            ),
{
    lemma_grouping_ignores_order(a, b);
    assert forall|g: int| 0 <= g < grouped(a).len() implies same_segments(
        windows_of(raw_of((#[trigger] grouped(a)[g]).members), max_duration),
        windows_of(raw_of(grouped(b)[g].members), max_duration),
    ) by {
        let ma = grouped(a)[g].members;
        let mb = grouped(b)[g].members;
        lemma_map_rearranged(ma, mb, |p: DevicePositionView| p.pos);
        lemma_windows_ignore_order(raw_of(ma), raw_of(mb), max_duration);
    }
}

/// What a list of tracks holds.
pub open spec fn tracks_view(tracks: Seq<Track>) -> Seq<TrackView> {
    tracks.map_values(|t: Track| t@)
}

/// Whether `tracks` are the tracks of `groups`: one for each group, in the
/// order of the groups.
pub open spec fn are_tracks_of<F: Fn(&Vec<Waypoint>, u64) -> Vec<usize>>(
    simplifier: F,
    segment_confs: TrackSegmentOptions,
    groups: Seq<PositionGroupView>,
    tracks: Seq<TrackView>,
) -> bool {
    &&& tracks.len() == groups.len()
    &&& forall|g: int|
        0 <= g < groups.len() ==> is_track_of(
            simplifier,
            segment_confs,
            groups[g],
            #[trigger] tracks[g],
        )
}

/// The application tag of a group's first member that carries one.
fn first_tracker_of(members: &Vec<DevicePosition>) -> (tag: Option<String>)
    ensures
        text_view(tag) == first_tracker(batch_view(members@)),
{
    let ghost all = batch_view(members@);
    let mut i: usize = 0;
    proof {
        assert(all.skip(0) =~= all);
    }
    while i < members.len()
        invariant
            i <= members.len(),
            all == batch_view(members@),
            first_tracker(all) == first_tracker(all.skip(i as int)),
        decreases members.len() - i,
    {
        proof {
            assert(all.skip(i as int)[0] == all[i as int]);
            assert(all.skip(i as int).drop_first() =~= all.skip(i + 1));
        }
        match &members[i].tracker {
            Some(t) => {
                return Some(t.clone());
            },
            None => {},
        }
        i = i + 1;
    }
    None
}

/// The track of one group.
fn track_of<F: Fn(&Vec<Waypoint>, u64) -> Vec<usize>>(
    group: &PositionGroup,
    segment_confs: &TrackSegmentOptions,
    simplifier: &F,
) -> (track: Track)
    requires
        forall|points: &Vec<Waypoint>, tolerance: u64|
            call_requires(*simplifier, (points, tolerance)),
    ensures
        is_track_of(*simplifier, *segment_confs, group@, track@),
{
    let mut tracker = Tracker::new(group.device_id.clone(), group.route.clone());
    match first_tracker_of(&group.members) {
        Some(tag) => {
            tracker.source(tag);
        },
        None => {},
    }
    tracker.configure_segments(segment_confs);
    let mut raw: Vec<&RawPosition> = Vec::new();
    let mut i: usize = 0;
    while i < group.members.len()
        invariant
            i <= group.members.len(),
            raw.len() == i,
            forall|k: int| 0 <= k < i ==> *(#[trigger] raw[k]) == group.members[k].pos,
        decreases group.members.len() - i,
    {
        raw.push(&group.members[i].pos);
        i = i + 1;
    }
    proof {
        assert(positions_view(raw@) =~= raw_of(batch_view(group.members@)));
    }
    tracker.assemble(raw, simplifier)
}

/// Whether `built` is what building makes of the answer `found` of a source:
/// its failure where it failed, and else the tracks of the batch that it
/// fetched, one for each group of the batch in the order of the groups, or a
/// failure where a position of the batch has no route or day to be grouped by.
pub open spec fn is_build_of<F: Fn(&Vec<Waypoint>, u64) -> Vec<usize>>(
    simplifier: F,
    segment_confs: TrackSegmentOptions,
    found: Result<Vec<DevicePosition>, String>,
    built: Result<Vec<Track>, String>,
) -> bool {
    match found {
        Err(e) => built is Err && built->Err_0@ == e@,
        Ok(batch) => match built {
            Ok(tracks) => all_keyed(batch_view(batch@)) && are_tracks_of(
                simplifier,
                segment_confs,
                grouped(batch_view(batch@)),
                tracks_view(tracks@),
            ),
            Err(e) => !all_keyed(batch_view(batch@)) && key_failure(batch_view(batch@)) == Some(
                e@,
            ),
        },
    }
}

/// Default tracks generator from source
pub struct SourceToTracks {}

impl SourceToTracks {
    /// Run the source and build the tracks.
    ///
    /// The source is asked once for the positions between `start` and `end`.
    /// Where it fails, its error is handed on and no track is built. Else the
    /// tracks are those of the batch that it fetched, as
    /// [`SourceToTracks::tracks_of`] builds them.
    pub fn build<SU: PositionsSource, F: Fn(&Vec<Waypoint>, u64) -> Vec<usize>>(
        source: SU,
        start: i128,
        end: i128,
        segment_confs: TrackSegmentOptions,
        simplifier: F,
    ) -> (built: Result<Vec<Track>, String>)
        requires
            forall|points: &Vec<Waypoint>, tolerance: u64|
                call_requires(simplifier, (points, tolerance)),
        ensures
            exists|found: Result<Vec<DevicePosition>, String>|
                source.answers(start, end, found) && #[trigger] is_build_of(
                    simplifier,
                    segment_confs,
                    found,
                    built,
                ),
    {
        let mut source = source;
        let found = source.fetch(start, end);
        let ghost answer = found;
        let built = match found {
            Ok(batch) => Self::tracks_of(batch, &segment_confs, &simplifier),
            Err(e) => Err(e),
        };
        proof {
            assert(is_build_of(simplifier, segment_confs, answer, built));
        }
        built
    }

    /// The tracks of a batch of positions: one for each device and route or
    /// day, ascending by device and then by route or day. It fails, and gives
    /// no track at all, where a position names no route and the day of its
    /// instant cannot be had.
    pub fn tracks_of<F: Fn(&Vec<Waypoint>, u64) -> Vec<usize>>(
        batch: Vec<DevicePosition>,
        segment_confs: &TrackSegmentOptions,
        simplifier: &F,
    ) -> (built: Result<Vec<Track>, String>)
        requires
            forall|points: &Vec<Waypoint>, tolerance: u64|
                call_requires(*simplifier, (points, tolerance)),
        ensures
            match built {
                Ok(tracks) => all_keyed(batch_view(batch@)) && are_tracks_of(
                    *simplifier,
                    *segment_confs,
                    grouped(batch_view(batch@)),
                    tracks_view(tracks@),
                ),
                Err(e) => !all_keyed(batch_view(batch@)) && key_failure(batch_view(batch@))
                    == Some(e@),
            },
    {
        let groups = match group_positions(batch) {
            Ok(groups) => groups,
            Err(e) => {
                return Err(e);
            },
        };
        let mut tracks: Vec<Track> = Vec::new();
        let mut g: usize = 0;
        while g < groups.len()
            invariant
                g <= groups.len(),
                tracks.len() == g,
                forall|points: &Vec<Waypoint>, tolerance: u64|
                    call_requires(*simplifier, (points, tolerance)),
                forall|h: int|
                    0 <= h < g ==> is_track_of(
                        *simplifier,
                        *segment_confs,
                        groups[h]@,
                        (#[trigger] tracks[h])@,
                    ),
            decreases groups.len() - g,
        {
            let track = track_of(&groups[g], segment_confs, simplifier);
            tracks.push(track);
            g = g + 1;
        }
        proof {
            assert forall|h: int| 0 <= h < groups.len() implies is_track_of(
                *simplifier,
                *segment_confs,
                groups_view(groups@)[h],
                #[trigger] tracks_view(tracks@)[h],
            ) by {
                assert(tracks_view(tracks@)[h] == tracks[h]@);
            }
        }
        Ok(tracks)
    }
}

} // verus!
