//! Track segmenter: one group's positions, in time order, cut at the borders
//! of fixed time windows

use vstd::prelude::*;

use super::order::{
    as_ints, by_time, index_range, instants, lemma_by_time_total, lemma_time_order, time_order,
    time_sorted_indices,
};
use super::rearranged::{lemma_filter_rearranged, lemma_map_rearranged, lemma_same_elements};
use super::position::RawPosition;
use super::track::{segments_view, waypoint_of, TrackSegment, Waypoint};
use super::window::{bucket_key, bucket_of, lemma_bucket_key_monotonic};

verus! {

/// The positions behind a list of references.
pub open spec fn positions_view(positions: Seq<&RawPosition>) -> Seq<RawPosition> {
    positions.map_values(|p: &RawPosition| *p)
}

/// The instants of a list of positions.
pub open spec fn times_of(positions: Seq<RawPosition>) -> Seq<int> {
    positions.map_values(|p: RawPosition| p.time as int)
}

/// The waypoints of a list of positions in time order: ascending by instant,
/// positions of one instant in the order in which the list holds them.
pub open spec fn waypoints_in_time_order(positions: Seq<RawPosition>) -> Seq<Waypoint> {
    time_order(times_of(positions)).map_values(|k: int| waypoint_of(positions[k]))
}

/// The width in seconds of the windows for a configured maximum duration: the
/// duration itself, and one second where it is less than that.
pub open spec fn window_width(max_duration: u16) -> int {
    if max_duration < 1 {
        1
    } else {
        max_duration as int
    }
}

/// The key of the window that holds a waypoint.
pub open spec fn waypoint_key(w: Waypoint, width: int) -> int {
    bucket_key(w.instant(), width)
}

/// Whether a waypoint falls into the window `key`.
pub open spec fn falls_into(key: int, width: int) -> spec_fn(Waypoint) -> bool {
    |w: Waypoint| waypoint_key(w, width) == key
}

/// The waypoints of `ws` that fall into the window `key`, in the order of `ws`.
pub open spec fn in_bucket(ws: Seq<Waypoint>, key: int, width: int) -> Seq<Waypoint> {
    ws.filter(falls_into(key, width))
}

/// The key of the window of a segment: that of its first waypoint.
pub open spec fn segment_key(segment: Seq<Waypoint>, width: int) -> int {
    waypoint_key(segment[0], width)
}

/// Whether one of `segments` is that of the window `key`.
pub open spec fn has_window(segments: Seq<Seq<Waypoint>>, key: int, width: int) -> bool {
    exists|s: int| 0 <= s < segments.len() && segment_key(#[trigger] segments[s], width) == key
}

/// Whether `segments` is `ws` cut into windows of `width` seconds: one
/// segment for each window that holds a waypoint, with all the waypoints of
/// that window in the order of `ws`, and the segments ascending by window.
pub open spec fn is_segmentation(
    segments: Seq<Seq<Waypoint>>,
    ws: Seq<Waypoint>,
    width: int,
) -> bool {
    &&& forall|s: int|
        0 <= s < segments.len() ==> (#[trigger] segments[s]).len() > 0 && segments[s] == in_bucket(
            ws,
            segment_key(segments[s], width),
            width,
        )
    &&& forall|s: int, t: int|
        0 <= s < t < segments.len() ==> segment_key(#[trigger] segments[s], width) < segment_key(
            #[trigger] segments[t],
            width,
        )
    &&& forall|i: int|
        0 <= i < ws.len() ==> has_window(segments, waypoint_key(#[trigger] ws[i], width), width)
}

/// Whether the instants of a run of waypoints never decrease.
pub open spec fn chronological(ws: Seq<Waypoint>) -> bool {
    forall|a: int, b: int| 0 <= a < b < ws.len() ==> ws[a].instant() <= ws[b].instant()
}

/// Whether each of `segments` is chronological.
pub open spec fn all_chronological(segments: Seq<Seq<Waypoint>>) -> bool {
    forall|s: int| 0 <= s < segments.len() ==> chronological(#[trigger] segments[s])
}

/// Whether `segments` are laid out as the segments of a track are: none of
/// them empty, each within one window, no two in the same window and the
/// windows ascending, and each chronological.
pub open spec fn well_cut(segments: Seq<Seq<Waypoint>>, width: int) -> bool {
    &&& forall|s: int| 0 <= s < segments.len() ==> (#[trigger] segments[s]).len() > 0
    &&& forall|s: int, i: int|
        0 <= s < segments.len() && 0 <= i < segments[s].len() ==> waypoint_key(
            #[trigger] segments[s][i],
            width,
        ) == segment_key(segments[s], width)
    &&& forall|s: int, t: int|
        0 <= s < t < segments.len() ==> segment_key(#[trigger] segments[s], width) < segment_key(
            #[trigger] segments[t],
            width,
        )
    &&& all_chronological(segments)
}

/// No waypoint of `ws` falls into a window that none of them is in.
proof fn lemma_in_bucket_none(ws: Seq<Waypoint>, key: int, width: int)
    requires
        forall|i: int| 0 <= i < ws.len() ==> waypoint_key(#[trigger] ws[i], width) != key,
    ensures
        in_bucket(ws, key, width) == Seq::<Waypoint>::empty(),
    decreases ws.len(),
{
    reveal(Seq::filter);
    if ws.len() > 0 {
        lemma_in_bucket_none(ws.drop_last(), key, width);
    }
}

/// Every waypoint of a window's selection is a waypoint of `ws`.
proof fn lemma_in_bucket_member(ws: Seq<Waypoint>, key: int, width: int, i: int) -> (k: int)
    requires
        0 <= i < in_bucket(ws, key, width).len(),
    ensures
        0 <= k < ws.len(),
        ws[k] == in_bucket(ws, key, width)[i],
{
    let sel = in_bucket(ws, key, width);
    assert(sel.contains(sel[i]));
    ws.lemma_filter_contains_rev(falls_into(key, width), sel[i]);
    choose|k: int| 0 <= k < ws.len() && ws[k] == sel[i]
}

/// The segments after one more waypoint: it joins the last segment where it
/// falls into that segment's window, and starts a segment of its own otherwise.
pub open spec fn extended(segments: Seq<Seq<Waypoint>>, w: Waypoint, width: int) -> Seq<
    Seq<Waypoint>,
> {
    if segments.len() > 0 && segment_key(segments.last(), width) == waypoint_key(w, width) {
        segments.update(segments.len() - 1, segments.last().push(w))
    } else {
        segments.push(seq![w])
    }
}

/// A run of waypoints cut into segments: each waypoint in turn joins the last
/// segment or starts the next one.
pub open spec fn cut(ws: Seq<Waypoint>, width: int) -> Seq<Seq<Waypoint>>
    decreases ws.len(),
{
    if ws.len() == 0 {
        Seq::empty()
    } else {
        extended(cut(ws.drop_last(), width), ws.last(), width)
    }
}

/// The segments of a list of positions for a configured maximum duration:
/// their waypoints in time order, cut at the borders of the time windows.
pub open spec fn windows_of(positions: Seq<RawPosition>, max_duration: u16) -> Seq<Seq<Waypoint>> {
    cut(waypoints_in_time_order(positions), window_width(max_duration))
}

/// Cutting stays right when a waypoint that is no earlier than all before it
/// is taken up.
proof fn lemma_extended(segments: Seq<Seq<Waypoint>>, ws: Seq<Waypoint>, w: Waypoint, width: int)
    requires
        width >= 1,
        is_segmentation(segments, ws, width),
        all_chronological(segments),
        forall|k: int| 0 <= k < ws.len() ==> (#[trigger] ws[k]).instant() <= w.instant(),
    ensures
        is_segmentation(extended(segments, w, width), ws.push(w), width),
        all_chronological(extended(segments, w, width)),
{
    let key = waypoint_key(w, width);
    let next = extended(segments, w, width);
    let wsn = ws.push(w);
    // every waypoint of every segment is one of `ws`, so it is no later than `w`
    assert forall|s: int, i: int| 0 <= s < segments.len() && 0 <= i < segments[s].len() implies (
    #[trigger] segments[s][i]).instant() <= w.instant() && waypoint_key(segments[s][i], width)
        <= key by {
        let k = lemma_in_bucket_member(ws, segment_key(segments[s], width), width, i);
        lemma_bucket_key_monotonic(ws[k].instant(), w.instant(), width);
    }
    assert forall|s: int| 0 <= s < segments.len() implies segment_key(#[trigger] segments[s], width)
        <= key by {
        assert(segments[s][0].instant() <= w.instant());
    }
    let joins = segments.len() > 0 && segment_key(segments.last(), width) == key;
    let last = segments.len() - 1;
    assert forall|s: int| 0 <= s < next.len() implies (#[trigger] next[s]).len() > 0 && next[s]
        == in_bucket(wsn, segment_key(next[s], width), width) by {
        if joins && s == last {
            ws.lemma_filter_push(w, falls_into(key, width));
        } else if s < segments.len() {
            let sk = segment_key(segments[s], width);
            if joins {
                assert(sk < segment_key(segments[last], width));
            }
            assert(sk != key);
            ws.lemma_filter_push(w, falls_into(sk, width));
        } else {
            assert(next[s] == seq![w]);
            assert forall|i: int| 0 <= i < ws.len() implies waypoint_key(#[trigger] ws[i], width)
                != key by {
                assert(has_window(segments, waypoint_key(ws[i], width), width));
                let t = choose|t: int|
                    0 <= t < segments.len() && segment_key(#[trigger] segments[t], width)
                        == waypoint_key(ws[i], width);
                assert(segment_key(segments[t], width) <= key);
                if segments.len() > 0 {
                    if t < last {
                        assert(segment_key(segments[t], width) < segment_key(
                            segments[last],
                            width,
                        ));
                    }
                }
            }
            lemma_in_bucket_none(ws, key, width);
            ws.lemma_filter_push(w, falls_into(key, width));
            assert(next[s] =~= in_bucket(wsn, key, width));
        }
    }
    assert forall|s: int, t: int| 0 <= s < t < next.len() implies segment_key(
        #[trigger] next[s],
        width,
    ) < segment_key(#[trigger] next[t], width) by {
        if t < segments.len() {
            assert(segment_key(segments[s], width) < segment_key(segments[t], width));
        } else {
            assert(segment_key(segments[s], width) <= key);
            if segments.len() > 0 && s < last {
                assert(segment_key(segments[s], width) < segment_key(segments[last], width));
            }
        }
    }
    assert forall|i: int| 0 <= i < wsn.len() implies has_window(
        next,
        waypoint_key(#[trigger] wsn[i], width),
        width,
    ) by {
        if i < ws.len() {
            assert(has_window(segments, waypoint_key(ws[i], width), width));
            let t = choose|t: int|
                0 <= t < segments.len() && segment_key(#[trigger] segments[t], width)
                    == waypoint_key(ws[i], width);
            assert(segment_key(next[t], width) == waypoint_key(wsn[i], width));
        } else {
            let t = next.len() - 1;
            assert(segment_key(next[t], width) == waypoint_key(wsn[i], width));
        }
    }
    assert forall|s: int| 0 <= s < next.len() implies chronological(#[trigger] next[s]) by {
        if s < segments.len() {
            assert(chronological(segments[s]));
        }
    }
}

/// Cutting loses nothing and moves nothing: the segments, one behind the
/// other, are the waypoints that were cut.
pub proof fn lemma_cut_keeps_all(ws: Seq<Waypoint>, width: int)
    ensures
        cut(ws, width).flatten() == ws,
    decreases ws.len(),
{
    if ws.len() > 0 {
        let init = ws.drop_last();
        let w = ws.last();
        let segments = cut(init, width);
        lemma_cut_keeps_all(init, width);
        if segments.len() > 0 && segment_key(segments.last(), width) == waypoint_key(w, width) {
            let front = segments.drop_last();
            assert(segments =~= front.push(segments.last()));
            assert(extended(segments, w, width) =~= front.push(segments.last().push(w)));
            front.lemma_flatten_push(segments.last());
            front.lemma_flatten_push(segments.last().push(w));
            assert(front.flatten() + segments.last().push(w) =~= (front.flatten()
                + segments.last()).push(w));
        } else {
            segments.lemma_flatten_push(seq![w]);
        }
        assert(init.push(w) =~= ws);
    }
}

/// What cutting gives for waypoints in time order: one segment for each
/// window that holds a waypoint, in it all the waypoints of that window in
/// their order, the segments ascending by window and each of them
/// chronological.
pub proof fn lemma_cut(ws: Seq<Waypoint>, width: int)
    requires
        width >= 1,
        chronological(ws),
    ensures
        is_segmentation(cut(ws, width), ws, width),
        all_chronological(cut(ws, width)),
    decreases ws.len(),
{
    if ws.len() > 0 {
        let init = ws.drop_last();
        assert(chronological(init)) by {
            assert forall|a: int, b: int| 0 <= a < b < init.len() implies init[a].instant()
                <= init[b].instant() by {
                assert(ws[a].instant() <= ws[b].instant());
            }
        }
        lemma_cut(init, width);
        assert forall|k: int| 0 <= k < init.len() implies (#[trigger] init[k]).instant()
            <= ws.last().instant() by {
            assert(ws[k].instant() <= ws[ws.len() - 1].instant());
        }
        lemma_extended(cut(init, width), init, ws.last(), width);
        assert(init.push(ws.last()) =~= ws);
    }
}

/// Segments that are some waypoints cut into windows, each of them
/// chronological, are laid out as the segments of a track are.
pub proof fn lemma_segmentation_well_cut(
    segments: Seq<Seq<Waypoint>>,
    ws: Seq<Waypoint>,
    width: int,
)
    requires
        is_segmentation(segments, ws, width),
        all_chronological(segments),
    ensures
        well_cut(segments, width),
{
    assert forall|s: int, i: int|
        0 <= s < segments.len() && 0 <= i < segments[s].len() implies waypoint_key(
        #[trigger] segments[s][i],
        width,
    ) == segment_key(segments[s], width) by {
        let key = segment_key(segments[s], width);
        ws.lemma_filter_pred(falls_into(key, width), i);
    }
}

/// Whether two runs of waypoints hold the same waypoints.
pub open spec fn same_waypoints(wa: Seq<Waypoint>, wb: Seq<Waypoint>) -> bool {
    forall|w: Waypoint| wa.contains(w) <==> wb.contains(w)
}

/// Every window of a segmentation is one of a segmentation of the same
/// waypoints.
proof fn lemma_same_windows(
    first: Seq<Seq<Waypoint>>,
    second: Seq<Seq<Waypoint>>,
    wa: Seq<Waypoint>,
    wb: Seq<Waypoint>,
    width: int,
    s: int,
)
    requires
        is_segmentation(first, wa, width),
        is_segmentation(second, wb, width),
        same_waypoints(wa, wb),
        0 <= s < first.len(),
    ensures
        has_window(second, segment_key(first[s], width), width),
{
    let key = segment_key(first[s], width);
    let k = lemma_in_bucket_member(wa, key, width, 0);
    assert(wa.contains(wa[k]));
    assert(wb.contains(wa[k]));
    let j = choose|j: int| 0 <= j < wb.len() && wb[j] == wa[k];
    assert(has_window(second, waypoint_key(wb[j], width), width));
}

/// Two segmentations of the same waypoints have the same window at each place
/// that both have.
proof fn lemma_same_window_at(
    first: Seq<Seq<Waypoint>>,
    second: Seq<Seq<Waypoint>>,
    wa: Seq<Waypoint>,
    wb: Seq<Waypoint>,
    width: int,
    i: int,
)
    requires
        is_segmentation(first, wa, width),
        is_segmentation(second, wb, width),
        same_waypoints(wa, wb),
        0 <= i < first.len(),
        0 <= i < second.len(),
    ensures
        segment_key(first[i], width) == segment_key(second[i], width),
    decreases i,
{
    lemma_same_windows(first, second, wa, wb, width, i);
    lemma_same_windows(second, first, wb, wa, width, i);
    let m = choose|m: int|
        0 <= m < second.len() && segment_key(#[trigger] second[m], width) == segment_key(
            first[i],
            width,
        );
    let n = choose|n: int|
        0 <= n < first.len() && segment_key(#[trigger] first[n], width) == segment_key(
            second[i],
            width,
        );
    if m < i {
        lemma_same_window_at(first, second, wa, wb, width, m);
        assert(segment_key(first[m], width) < segment_key(first[i], width));
    } else if n < i {
        lemma_same_window_at(first, second, wa, wb, width, n);
        assert(segment_key(second[n], width) < segment_key(second[i], width));
    } else if m > i && n > i {
        assert(segment_key(second[i], width) < segment_key(second[m], width));
        assert(segment_key(first[i], width) < segment_key(first[n], width));
    }
}

/// Of two segmentations of the same waypoints none has more segments.
proof fn lemma_same_segment_count(
    first: Seq<Seq<Waypoint>>,
    second: Seq<Seq<Waypoint>>,
    wa: Seq<Waypoint>,
    wb: Seq<Waypoint>,
    width: int,
)
    requires
        is_segmentation(first, wa, width),
        is_segmentation(second, wb, width),
        same_waypoints(wa, wb),
    ensures
        first.len() <= second.len(),
{
    if first.len() > second.len() {
        let i = second.len() as int;
        lemma_same_windows(first, second, wa, wb, width, i);
        let m = choose|m: int|
            0 <= m < second.len() && segment_key(#[trigger] second[m], width) == segment_key(
                first[i],
                width,
            );
        lemma_same_window_at(first, second, wa, wb, width, m);
        assert(segment_key(first[m], width) < segment_key(first[i], width));
    }
}

/// There is one segmentation of a run of waypoints: whatever cuts it into
/// windows as [`is_segmentation`] says is the same list of segments.
pub proof fn lemma_segmentation_unique(
    first: Seq<Seq<Waypoint>>,
    second: Seq<Seq<Waypoint>>,
    ws: Seq<Waypoint>,
    width: int,
)
    requires
        is_segmentation(first, ws, width),
        is_segmentation(second, ws, width),
    ensures
        first == second,
{
    lemma_same_segment_count(first, second, ws, ws, width);
    lemma_same_segment_count(second, first, ws, ws, width);
    assert forall|s: int| 0 <= s < first.len() implies first[s] == second[s] by {
        lemma_same_window_at(first, second, ws, ws, width, s);
    }
    assert(first =~= second);
}

/// The waypoints of a list of positions in time order are the waypoints of
/// the positions, in another order.
pub proof fn lemma_time_order_rearranges(positions: Seq<RawPosition>)
    ensures
        waypoints_in_time_order(positions).to_multiset() == positions.map_values(
            |p: RawPosition| waypoint_of(p),
        ).to_multiset(),
{
    let times = times_of(positions);
    let order = time_order(times);
    let all = index_range(0, times.len() as int);
    let g = |k: int| waypoint_of(positions[k]);
    lemma_by_time_total(times);
    all.lemma_sort_by_ensures(by_time(times));
    lemma_map_rearranged(order, all, g);
    assert(order.map_values(g) =~= waypoints_in_time_order(positions));
    assert(all.map_values(g) =~= positions.map_values(|p: RawPosition| waypoint_of(p)));
}

/// Segmenting does not go by the order of the list: two lists of the same
/// positions, however ordered, have as many segments, and segment by segment
/// the same waypoints, which may stand in another order where positions
/// share an instant.
pub proof fn lemma_windows_ignore_order(
    a: Seq<RawPosition>,
    b: Seq<RawPosition>,
    max_duration: u16,
)
    requires
        a.to_multiset() == b.to_multiset(),
    ensures
        windows_of(a, max_duration).len() == windows_of(b, max_duration).len(),
        forall|s: int|
            0 <= s < windows_of(a, max_duration).len() ==> (#[trigger] windows_of(
                a,
                max_duration,
            )[s]).to_multiset() == windows_of(b, max_duration)[s].to_multiset(),
{
    let width = window_width(max_duration);
    let wa = waypoints_in_time_order(a);
    let wb = waypoints_in_time_order(b);
    let first = windows_of(a, max_duration);
    let second = windows_of(b, max_duration);
    lemma_time_order_rearranges(a);
    lemma_time_order_rearranges(b);
    lemma_map_rearranged(a, b, |p: RawPosition| waypoint_of(p));
    lemma_same_elements(wa, wb);
    lemma_waypoints_in_time_order(a);
    lemma_waypoints_in_time_order(b);
    lemma_cut(wa, width);
    lemma_cut(wb, width);
    lemma_same_segment_count(first, second, wa, wb, width);
    lemma_same_segment_count(second, first, wb, wa, width);
    assert forall|s: int| 0 <= s < first.len() implies (#[trigger] first[s]).to_multiset()
        == second[s].to_multiset() by {
        lemma_same_window_at(first, second, wa, wb, width, s);
        let f = falls_into(segment_key(first[s], width), width);
        lemma_filter_rearranged(wa, f);
        lemma_filter_rearranged(wb, f);
    }
}

/// Whether no two positions of a list share an instant.
pub open spec fn distinct_instants(positions: Seq<RawPosition>) -> bool {
    forall|i: int, j: int|
        0 <= i < j < positions.len() ==> (#[trigger] positions[i]).time != (
        #[trigger] positions[j]).time
}

/// Two chronological runs of the same waypoints, no two of an instant, have
/// the same waypoint at each place.
proof fn lemma_same_waypoint_at(wa: Seq<Waypoint>, wb: Seq<Waypoint>, i: int)
    requires
        same_waypoints(wa, wb),
        wa.len() == wb.len(),
        forall|p: int, q: int| 0 <= p < q < wa.len() ==> wa[p].instant() < wa[q].instant(),
        forall|p: int, q: int| 0 <= p < q < wb.len() ==> wb[p].instant() < wb[q].instant(),
        0 <= i < wa.len(),
    ensures
        wa[i] == wb[i],
    decreases i,
{
    assert(wa.contains(wa[i]));
    assert(wb.contains(wb[i]));
    let m = choose|m: int| 0 <= m < wb.len() && wb[m] == wa[i];
    let n = choose|n: int| 0 <= n < wa.len() && wa[n] == wb[i];
    if m < i {
        lemma_same_waypoint_at(wa, wb, m);
        assert(wa[m].instant() < wa[i].instant());
    } else if n < i {
        lemma_same_waypoint_at(wa, wb, n);
        assert(wb[n].instant() < wb[i].instant());
    } else if m > i && n > i {
        assert(wb[i].instant() < wb[m].instant());
        assert(wa[i].instant() < wa[n].instant());
    }
}

/// The waypoints of positions of distinct instants, in time order, are each
/// later than the one before.
proof fn lemma_strictly_chronological(positions: Seq<RawPosition>)
    requires
        distinct_instants(positions),
    ensures
        forall|p: int, q: int|
            0 <= p < q < positions.len() ==> waypoints_in_time_order(positions)[p].instant()
                < waypoints_in_time_order(positions)[q].instant(),
        waypoints_in_time_order(positions).len() == positions.len(),
{
    let times = times_of(positions);
    let order = time_order(times);
    lemma_time_order(times);
    assert forall|p: int, q: int| 0 <= p < q < positions.len() implies waypoints_in_time_order(
        positions,
    )[p].instant() < waypoints_in_time_order(positions)[q].instant() by {
        let a = order[p];
        let b = order[q];
        assert(a != b);
        if a < b {
            assert(positions[a].time != positions[b].time);
        } else {
            assert(positions[b].time != positions[a].time);
        }
    }
}

/// Where no two positions share an instant, segmenting does not go by the
/// order of the list at all: two lists of the same positions, however
/// ordered, have the same segments.
pub proof fn lemma_windows_of_distinct_instants(
    a: Seq<RawPosition>,
    b: Seq<RawPosition>,
    max_duration: u16,
)
    requires
        a.to_multiset() == b.to_multiset(),
        distinct_instants(a),
        distinct_instants(b),
    ensures
        windows_of(a, max_duration) == windows_of(b, max_duration),
{
    let wa = waypoints_in_time_order(a);
    let wb = waypoints_in_time_order(b);
    lemma_time_order_rearranges(a);
    lemma_time_order_rearranges(b);
    lemma_map_rearranged(a, b, |p: RawPosition| waypoint_of(p));
    lemma_same_elements(wa, wb);
    lemma_strictly_chronological(a);
    lemma_strictly_chronological(b);
    assert forall|i: int| 0 <= i < wa.len() implies wa[i] == wb[i] by {
        lemma_same_waypoint_at(wa, wb, i);
    }
    assert(wa =~= wb);
}

/// All the waypoints of `ws` fall into a window that each of them is in.
proof fn lemma_in_bucket_all(ws: Seq<Waypoint>, key: int, width: int)
    requires
        forall|i: int| 0 <= i < ws.len() ==> waypoint_key(#[trigger] ws[i], width) == key,
    ensures
        in_bucket(ws, key, width) == ws,
    decreases ws.len(),
{
    reveal(Seq::filter);
    if ws.len() > 0 {
        lemma_in_bucket_all(ws.drop_last(), key, width);
        assert(ws.drop_last().push(ws.last()) =~= ws);
    }
}

/// Positions of one time window make one segment: where there is a position
/// at all and the instants of all of them fall into the same window, the
/// segments are exactly one, and it holds the waypoints of all the positions
/// in time order. Positions of one window are less than its width apart; the
/// reverse does not hold, for positions that close may lie on the two sides
/// of a border, and then make two segments.
pub proof fn lemma_one_window(positions: Seq<RawPosition>, max_duration: u16)
    requires
        positions.len() > 0,
        forall|i: int, j: int|
            0 <= i < positions.len() && 0 <= j < positions.len() ==> bucket_key(
                positions[i].time as int,
                window_width(max_duration),
            ) == bucket_key(positions[j].time as int, window_width(max_duration)),
    ensures
        windows_of(positions, max_duration) == seq![waypoints_in_time_order(positions)],
        waypoints_in_time_order(positions).len() == positions.len(),
        chronological(waypoints_in_time_order(positions)),
{
    let width = window_width(max_duration);
    let ws = waypoints_in_time_order(positions);
    let segments = windows_of(positions, max_duration);
    let key = bucket_key(positions[0].time as int, width);
    lemma_waypoints_in_time_order(positions);
    lemma_time_order(times_of(positions));
    lemma_cut(ws, width);
    assert forall|i: int| 0 <= i < ws.len() implies waypoint_key(#[trigger] ws[i], width)
        == key by {
        let k = time_order(times_of(positions))[i];
        assert(ws[i] == waypoint_of(positions[k]));
    }
    lemma_in_bucket_all(ws, key, width);
    assert(has_window(segments, waypoint_key(ws[0], width), width));
    assert forall|s: int| 0 <= s < segments.len() implies segment_key(
        #[trigger] segments[s],
        width,
    ) == key by {
        let k = lemma_in_bucket_member(ws, segment_key(segments[s], width), width, 0);
        assert(ws[k] == segments[s][0]);
    }
    if segments.len() > 1 {
        assert(segment_key(segments[0], width) < segment_key(segments[1], width));
    }
    assert(segments =~= seq![ws]);
}

/// The waypoints of a list of positions in time order are chronological, and
/// as many as the positions.
pub proof fn lemma_waypoints_in_time_order(positions: Seq<RawPosition>)
    ensures
        waypoints_in_time_order(positions).len() == positions.len(),
        chronological(waypoints_in_time_order(positions)),
{
    lemma_time_order(times_of(positions));
}

/// The waypoints of `positions`, ordered by time and cut into segments at the
/// borders of windows of `max_duration` seconds (of one second where the
/// duration is less). Positions of one instant keep the order of the list.
pub fn segment_positions(positions: &Vec<&RawPosition>, max_duration: u16) -> (segments: Vec<
    TrackSegment,
>)
    ensures
        segments_view(segments@) == windows_of(positions_view(positions@), max_duration),
        is_segmentation(
            segments_view(segments@),
            waypoints_in_time_order(positions_view(positions@)),
            window_width(max_duration),
        ),
        well_cut(segments_view(segments@), window_width(max_duration)),
{
    let width: u16 = if max_duration < 1 {
        1
    } else {
        max_duration
    };
    let ghost ps = positions_view(positions@);
    let ghost ws = waypoints_in_time_order(ps);
    let mut times: Vec<i128> = Vec::new();
    for i in 0..positions.len()
        invariant
            times.len() == i,
            forall|k: int| 0 <= k < i ==> times[k] == positions[k].time,
    {
        times.push(positions[i].time);
    }
    let order = time_sorted_indices(&times);
    proof {
        assert(instants(times@) =~= times_of(ps));
        lemma_time_order(times_of(ps));
        assert(ws.len() == positions.len());
    }
    let mut segments: Vec<TrackSegment> = Vec::new();
    let mut last_key: i128 = 0;
    let mut i: usize = 0;
    proof {
        assert(ws.take(0) =~= Seq::<Waypoint>::empty());
        assert(segments_view(segments@) =~= Seq::<Seq<Waypoint>>::empty());
    }
    while i < order.len()
        invariant
            i <= order.len(),
            order.len() == positions.len(),
            ws.len() == positions.len(),
            width as int == window_width(max_duration),
            width >= 1,
            ps == positions_view(positions@),
            ws == waypoints_in_time_order(ps),
            as_ints(order@) == time_order(times_of(ps)),
            forall|k: int| 0 <= k < order.len() ==> order[k] < positions.len(),
            forall|a: int, b: int| 0 <= a < b < ws.len() ==> ws[a].instant() <= ws[b].instant(),
            segments_view(segments@) == cut(ws.take(i as int), width as int),
            is_segmentation(segments_view(segments@), ws.take(i as int), width as int),
            all_chronological(segments_view(segments@)),
            segments.len() > 0 ==> last_key == segment_key(
                segments_view(segments@).last(),
                width as int,
            ),
        decreases order.len() - i,
    {
        let p: &RawPosition = positions[order[i]];
        let w = Waypoint::from_position(p);
        let key: i128 = bucket_of(p.time, width);
        let ghost before = segments_view(segments@);
        proof {
            assert(as_ints(order@)[i as int] == order[i as int] as int);
            assert(ws[i as int] == w);
            assert(ws.take(i + 1) =~= ws.take(i as int).push(w));
            assert(ws.take(i + 1).drop_last() =~= ws.take(i as int));
            assert forall|k: int| 0 <= k < ws.take(i as int).len() implies (
            #[trigger] ws.take(i as int)[k]).instant() <= w.instant() by {
                assert(ws[k].instant() <= ws[i as int].instant());
            }
            lemma_extended(before, ws.take(i as int), w, width as int);
        }
        let n: usize = segments.len();
        if n > 0 && key == last_key {
            segments[n - 1].points.push(w);
            proof {
                assert(segments_view(segments@) =~= extended(before, w, width as int));
            }
        } else {
            let mut points: Vec<Waypoint> = Vec::new();
            points.push(w);
            segments.push(TrackSegment { points });
            last_key = key;
            proof {
                assert(segments_view(segments@) =~= extended(before, w, width as int));
            }
        }
        i = i + 1;
    }
    proof {
        assert(ws.take(i as int) =~= ws);
        lemma_segmentation_well_cut(segments_view(segments@), ws, width as int);
    }
    segments
}

} // verus!
