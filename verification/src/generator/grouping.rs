//! Grouping engine: a batch of device positions, parted by device and by
//! route or day

use vstd::prelude::*;

use super::day::{day_of, day_text};
use super::position::{DevicePosition, DevicePositionView};
use super::rearranged::lemma_filter_rearranged;
use super::text::{
    blank, chars_of, is_blank, lemma_text_before_asymmetric, lemma_text_before_connected,
    lemma_text_before_irreflexive, lemma_text_before_transitive, precedes, same_text, text_before,
};

verus! {

/// The positions of one device on one route, or on one day where they name
/// no route, in the order in which the batch held them
pub struct PositionGroup {
    /// Device unique ID
    pub device_id: String,
    /// Route label, or the calendar day in UTC as `YYYY-MM-DD`
    pub route: String,
    pub members: Vec<DevicePosition>,
}

/// What a [`PositionGroup`] holds, with its texts as character sequences.
pub ghost struct PositionGroupView {
    pub device_id: Seq<char>,
    pub route: Seq<char>,
    pub members: Seq<DevicePositionView>,
}

/// What a batch holds.
pub open spec fn batch_view(batch: Seq<DevicePosition>) -> Seq<DevicePositionView> {
    batch.map_values(|p: DevicePosition| p@)
}

impl View for PositionGroup {
    type V = PositionGroupView;

    open spec fn view(&self) -> PositionGroupView {
        PositionGroupView {
            device_id: self.device_id@,
            route: self.route@,
            members: batch_view(self.members@),
        }
    }
}

/// What a list of groups holds.
pub open spec fn groups_view(groups: Seq<PositionGroup>) -> Seq<PositionGroupView> {
    groups.map_values(|g: PositionGroup| g@)
}

/// The route or day by which a position is grouped: its route label where it
/// has one that is not blank, else the calendar day in UTC of its instant;
/// `None` where that day cannot be had.
pub open spec fn route_key(p: DevicePositionView) -> Option<Seq<char>> {
    match route_or_failure(p) {
        Ok(route) => Some(route),
        Err(_) => None,
    }
}

/// The route or day by which a position is grouped, as [`route_key`] has it,
/// or why the day of its instant cannot be had.
pub open spec fn route_or_failure(p: DevicePositionView) -> Result<Seq<char>, Seq<char>> {
    match p.route_name {
        Some(label) => if blank(label) {
            day_text(p.pos.time as int)
        } else {
            Ok(label)
        },
        None => day_text(p.pos.time as int),
    }
}

/// Why a batch cannot be grouped, if it cannot: the failure of the first of
/// its positions that has no route or day to be grouped by.
pub open spec fn key_failure(batch: Seq<DevicePositionView>) -> Option<Seq<char>>
    decreases batch.len(),
{
    if batch.len() == 0 {
        None
    } else {
        match route_or_failure(batch[0]) {
            Err(why) => Some(why),
            Ok(_) => key_failure(batch.drop_first()),
        }
    }
}

/// A batch can be grouped exactly where each of its positions has a route or
/// day to be grouped by.
pub proof fn lemma_key_failure(batch: Seq<DevicePositionView>)
    ensures
        key_failure(batch) is None <==> all_keyed(batch),
    decreases batch.len(),
{
    if batch.len() > 0 {
        let rest = batch.drop_first();
        lemma_key_failure(rest);
        if all_keyed(batch) {
            assert(route_key(batch[0]) is Some);
            assert forall|i: int| 0 <= i < rest.len() implies route_key(#[trigger] rest[i])
                is Some by {
                assert(rest[i] == batch[i + 1]);
            }
        }
        if route_key(batch[0]) is Some && all_keyed(rest) {
            assert forall|i: int| 0 <= i < batch.len() implies route_key(#[trigger] batch[i])
                is Some by {
                if i > 0 {
                    assert(batch[i] == rest[i - 1]);
                }
            }
        }
    }
}

/// The failure of a batch is that of its first position without a route or
/// day.
proof fn lemma_key_failure_at(batch: Seq<DevicePositionView>, n: int)
    requires
        0 <= n < batch.len(),
        all_keyed(batch.take(n)),
        route_or_failure(batch[n]) is Err,
    ensures
        key_failure(batch) == Some(route_or_failure(batch[n])->Err_0),
    decreases n,
{
    if n > 0 {
        let rest = batch.drop_first();
        assert(route_key(batch.take(n)[0]) is Some);
        assert(all_keyed(rest.take(n - 1))) by {
            assert forall|i: int| 0 <= i < n - 1 implies route_key(
                #[trigger] rest.take(n - 1)[i],
            ) is Some by {
                assert(rest.take(n - 1)[i] == batch.take(n)[i + 1]);
            }
        }
        assert(rest[n - 1] == batch[n]);
        lemma_key_failure_at(rest, n - 1);
    }
}

/// Whether every position of a batch has a route or day to be grouped by.
pub open spec fn all_keyed(batch: Seq<DevicePositionView>) -> bool {
    forall|i: int| 0 <= i < batch.len() ==> route_key(#[trigger] batch[i]) is Some
}

/// Whether a position is one of the device `device` on the route or day `route`.
pub open spec fn fits(device: Seq<char>, route: Seq<char>) -> spec_fn(DevicePositionView) -> bool {
    |p: DevicePositionView| p.device_id == device && route_key(p) == Some(route)
}

/// The positions of a batch for one device and one route or day, in the
/// order of the batch.
pub open spec fn members_of(
    batch: Seq<DevicePositionView>,
    device: Seq<char>,
    route: Seq<char>,
) -> Seq<DevicePositionView> {
    batch.filter(fits(device, route))
}

/// Whether the group key `(d1, r1)` comes before `(d2, r2)`: by device, and
/// for one device by route or day.
pub open spec fn key_before(d1: Seq<char>, r1: Seq<char>, d2: Seq<char>, r2: Seq<char>) -> bool {
    text_before(d1, d2) || (d1 == d2 && text_before(r1, r2))
}

/// Whether a group's key comes before that of another.
pub open spec fn group_before(g: PositionGroupView, h: PositionGroupView) -> bool {
    key_before(g.device_id, g.route, h.device_id, h.route)
}

/// Whether one of `groups` is that of the key `(device, route)`.
pub open spec fn has_group(
    groups: Seq<PositionGroupView>,
    device: Seq<char>,
    route: Seq<char>,
) -> bool {
    exists|g: int|
        0 <= g < groups.len() && (#[trigger] groups[g]).device_id == device && groups[g].route
            == route
}

/// Whether `groups` is the batch parted by device and route or day: one group
/// for each key that a position of the batch has, in it all the positions of
/// that key in the order of the batch, and the groups ascending by key.
pub open spec fn is_grouping(
    groups: Seq<PositionGroupView>,
    batch: Seq<DevicePositionView>,
) -> bool {
    &&& forall|g: int|
        0 <= g < groups.len() ==> (#[trigger] groups[g]).members.len() > 0 && groups[g].members
            == members_of(batch, groups[g].device_id, groups[g].route)
    &&& forall|g: int, h: int|
        0 <= g < h < groups.len() ==> group_before(#[trigger] groups[g], #[trigger] groups[h])
    &&& forall|i: int|
        0 <= i < batch.len() ==> has_group(
            groups,
            (#[trigger] batch[i]).device_id,
            route_key(batch[i])->Some_0,
        )
}

/// How many of `groups`, from the first on, have a key before `(device, route)`.
pub open spec fn rank(groups: Seq<PositionGroupView>, device: Seq<char>, route: Seq<char>) -> int
    decreases groups.len(),
{
    if groups.len() > 0 && key_before(groups[0].device_id, groups[0].route, device, route) {
        1 + rank(groups.drop_first(), device, route)
    } else {
        0
    }
}

/// The groups after one more position: it joins the group of its key, or
/// makes one at the place that the key has among the others.
pub open spec fn inserted(groups: Seq<PositionGroupView>, p: DevicePositionView) -> Seq<
    PositionGroupView,
> {
    let route = route_key(p)->Some_0;
    let at = rank(groups, p.device_id, route);
    if at < groups.len() && groups[at].device_id == p.device_id && groups[at].route == route {
        groups.update(
            at,
            PositionGroupView {
                device_id: p.device_id,
                route,
                members: groups[at].members.push(p),
            },
        )
    } else {
        groups.insert(at, PositionGroupView { device_id: p.device_id, route, members: seq![p] })
    }
}

/// The groups of a batch: its positions, taken up one after the other.
pub open spec fn grouped(batch: Seq<DevicePositionView>) -> Seq<PositionGroupView>
    decreases batch.len(),
{
    if batch.len() == 0 {
        Seq::empty()
    } else {
        inserted(grouped(batch.drop_last()), batch.last())
    }
}

/// No key comes before itself.
pub proof fn lemma_key_before_irreflexive(d: Seq<char>, r: Seq<char>)
    ensures
        !key_before(d, r, d, r),
{
    lemma_text_before_irreflexive(d);
    lemma_text_before_irreflexive(r);
}

/// Of two different keys one comes before the other, and never both.
pub proof fn lemma_key_before_total(d1: Seq<char>, r1: Seq<char>, d2: Seq<char>, r2: Seq<char>)
    ensures
        (d1 == d2 && r1 == r2) || key_before(d1, r1, d2, r2) || key_before(d2, r2, d1, r1),
        !(key_before(d1, r1, d2, r2) && key_before(d2, r2, d1, r1)),
{
    lemma_text_before_connected(d1, d2);
    lemma_text_before_connected(r1, r2);
    lemma_text_before_irreflexive(d1);
    if text_before(d1, d2) {
        lemma_text_before_asymmetric(d1, d2);
    }
    if text_before(r1, r2) {
        lemma_text_before_asymmetric(r1, r2);
    }
}

/// What comes before a key comes before all that the key comes before.
pub proof fn lemma_key_before_transitive(
    d1: Seq<char>,
    r1: Seq<char>,
    d2: Seq<char>,
    r2: Seq<char>,
    d3: Seq<char>,
    r3: Seq<char>,
)
    requires
        key_before(d1, r1, d2, r2),
        key_before(d2, r2, d3, r3),
    ensures
        key_before(d1, r1, d3, r3),
{
    if text_before(d1, d2) && text_before(d2, d3) {
        lemma_text_before_transitive(d1, d2, d3);
    }
    if !text_before(d1, d2) && !text_before(d2, d3) {
        lemma_text_before_transitive(r1, r2, r3);
    }
}

/// The rank of a key is a place among the groups: the groups before it have
/// keys before the key, and the group at it, if there is one, has not.
pub proof fn lemma_rank(groups: Seq<PositionGroupView>, device: Seq<char>, route: Seq<char>)
    ensures
        0 <= rank(groups, device, route) <= groups.len(),
        forall|g: int|
            0 <= g < rank(groups, device, route) ==> key_before(
                (#[trigger] groups[g]).device_id,
                groups[g].route,
                device,
                route,
            ),
        rank(groups, device, route) < groups.len() ==> !key_before(
            groups[rank(groups, device, route)].device_id,
            groups[rank(groups, device, route)].route,
            device,
            route,
        ),
    decreases groups.len(),
{
    if groups.len() > 0 && key_before(groups[0].device_id, groups[0].route, device, route) {
        let rest = groups.drop_first();
        lemma_rank(rest, device, route);
        assert forall|g: int| 0 <= g < rank(groups, device, route) implies key_before(
            (#[trigger] groups[g]).device_id,
            groups[g].route,
            device,
            route,
        ) by {
            if g > 0 {
                assert(groups[g] == rest[g - 1]);
            }
        }
        if rank(groups, device, route) < groups.len() {
            assert(groups[rank(groups, device, route)] == rest[rank(rest, device, route)]);
        }
    }
}

/// No position of a batch fits a key that none of them has.
proof fn lemma_members_none(batch: Seq<DevicePositionView>, device: Seq<char>, route: Seq<char>)
    requires
        forall|i: int| 0 <= i < batch.len() ==> !fits(device, route)(#[trigger] batch[i]),
    ensures
        members_of(batch, device, route) == Seq::<DevicePositionView>::empty(),
    decreases batch.len(),
{
    reveal(Seq::filter);
    if batch.len() > 0 {
        lemma_members_none(batch.drop_last(), device, route);
    }
}

/// Grouping stays right when one more position with a route or day is taken up.
pub proof fn lemma_inserted(
    groups: Seq<PositionGroupView>,
    batch: Seq<DevicePositionView>,
    p: DevicePositionView,
)
    requires
        is_grouping(groups, batch),
        route_key(p) is Some,
    ensures
        is_grouping(inserted(groups, p), batch.push(p)),
{
    let d = p.device_id;
    let r = route_key(p)->Some_0;
    let at = rank(groups, d, r);
    let next = inserted(groups, p);
    let more = batch.push(p);
    lemma_rank(groups, d, r);
    let joins = at < groups.len() && groups[at].device_id == d && groups[at].route == r;
    // the key of `p` is that of no group but, where it joins, the one at its rank
    assert forall|g: int| 0 <= g < groups.len() && !(joins && g == at) implies !(
    (#[trigger] groups[g]).device_id == d && groups[g].route == r) by {
        lemma_key_before_irreflexive(d, r);
        if g > at {
            assert(group_before(groups[at], groups[g]));
        }
    }
    if joins {
        assert forall|g: int| 0 <= g < next.len() implies (#[trigger] next[g]).members.len() > 0
            && next[g].members == members_of(more, next[g].device_id, next[g].route) by {
            batch.lemma_filter_push(p, fits(groups[g].device_id, groups[g].route));
        }
        assert forall|g: int, h: int| 0 <= g < h < next.len() implies group_before(
            #[trigger] next[g],
            #[trigger] next[h],
        ) by {
            assert(group_before(groups[g], groups[h]));
        }
        assert forall|i: int| 0 <= i < more.len() implies has_group(
            next,
            (#[trigger] more[i]).device_id,
            route_key(more[i])->Some_0,
        ) by {
            if i < batch.len() {
                assert(has_group(groups, batch[i].device_id, route_key(batch[i])->Some_0));
                let t = choose|t: int|
                    0 <= t < groups.len() && (#[trigger] groups[t]).device_id == batch[i].device_id
                        && groups[t].route == route_key(batch[i])->Some_0;
                assert(next[t].device_id == groups[t].device_id);
            } else {
                assert(next[at].device_id == d);
            }
        }
    } else {
        let made = PositionGroupView { device_id: d, route: r, members: seq![p] };
        groups.insert_ensures(at, made);
        assert forall|i: int| 0 <= i < batch.len() implies !fits(d, r)(#[trigger] batch[i]) by {
            assert(has_group(groups, batch[i].device_id, route_key(batch[i])->Some_0));
        }
        lemma_members_none(batch, d, r);
        assert forall|g: int| 0 <= g < next.len() implies (#[trigger] next[g]).members.len() > 0
            && next[g].members == members_of(more, next[g].device_id, next[g].route) by {
            if g < at {
                assert(next[g] == groups[g]);
                batch.lemma_filter_push(p, fits(groups[g].device_id, groups[g].route));
            } else if g == at {
                batch.lemma_filter_push(p, fits(d, r));
                assert(next[g].members =~= members_of(more, d, r));
            } else {
                assert(next[g] == groups[g - 1]);
                batch.lemma_filter_push(p, fits(groups[g - 1].device_id, groups[g - 1].route));
            }
        }
        // the key of `p` comes before the keys of the groups from its rank on
        assert forall|g: int| at <= g < groups.len() implies key_before(
            d,
            r,
            (#[trigger] groups[g]).device_id,
            groups[g].route,
        ) by {
            lemma_key_before_total(d, r, groups[at].device_id, groups[at].route);
            if g > at {
                assert(group_before(groups[at], groups[g]));
                lemma_key_before_transitive(
                    d,
                    r,
                    groups[at].device_id,
                    groups[at].route,
                    groups[g].device_id,
                    groups[g].route,
                );
            }
        }
        assert forall|g: int, h: int| 0 <= g < h < next.len() implies group_before(
            #[trigger] next[g],
            #[trigger] next[h],
        ) by {
            if h < at {
                assert(group_before(groups[g], groups[h]));
            } else if h == at {
                assert(next[g] == groups[g]);
            } else if g < at {
                assert(next[h] == groups[h - 1]);
                assert(group_before(groups[g], groups[h - 1]));
            } else if g == at {
                assert(next[h] == groups[h - 1]);
            } else {
                assert(next[g] == groups[g - 1]);
                assert(next[h] == groups[h - 1]);
                assert(group_before(groups[g - 1], groups[h - 1]));
            }
        }
        assert forall|i: int| 0 <= i < more.len() implies has_group(
            next,
            (#[trigger] more[i]).device_id,
            route_key(more[i])->Some_0,
        ) by {
            if i < batch.len() {
                assert(has_group(groups, batch[i].device_id, route_key(batch[i])->Some_0));
                let t = choose|t: int|
                    0 <= t < groups.len() && (#[trigger] groups[t]).device_id == batch[i].device_id
                        && groups[t].route == route_key(batch[i])->Some_0;
                if t < at {
                    assert(next[t] == groups[t]);
                } else {
                    assert(next[t + 1] == groups[t]);
                }
            } else {
                assert(next[at] == made);
            }
        }
    }
}

/// What grouping gives for a batch whose positions all have a route or day:
/// one group for each key, in it all the positions of that key in the order
/// of the batch, and the groups ascending by key.
pub proof fn lemma_grouped(batch: Seq<DevicePositionView>)
    requires
        all_keyed(batch),
    ensures
        is_grouping(grouped(batch), batch),
    decreases batch.len(),
{
    if batch.len() > 0 {
        let init = batch.drop_last();
        assert(all_keyed(init)) by {
            assert forall|i: int| 0 <= i < init.len() implies route_key(#[trigger] init[i])
                is Some by {
                assert(init[i] == batch[i]);
            }
        }
        lemma_grouped(init);
        lemma_inserted(grouped(init), init, batch.last());
        assert(init.push(batch.last()) =~= batch);
    }
}

/// Two batches of the same positions have members for the same keys.
proof fn lemma_same_positions_same_keys(
    a: Seq<DevicePositionView>,
    b: Seq<DevicePositionView>,
    ga: Seq<PositionGroupView>,
    gb: Seq<PositionGroupView>,
    g: int,
)
    requires
        a.to_multiset() == b.to_multiset(),
        is_grouping(ga, a),
        is_grouping(gb, b),
        0 <= g < ga.len(),
    ensures
        has_group(gb, ga[g].device_id, ga[g].route),
{
    broadcast use vstd::seq_lib::group_to_multiset_ensures;

    let d = ga[g].device_id;
    let r = ga[g].route;
    let first = ga[g].members[0];
    assert(members_of(a, d, r).contains(first));
    a.lemma_filter_contains_rev(fits(d, r), first);
    a.lemma_filter_pred(fits(d, r), 0);
    assert(a.to_multiset().count(first) > 0);
    assert(b.contains(first));
    let i = choose|i: int| 0 <= i < b.len() && b[i] == first;
    assert(has_group(gb, b[i].device_id, route_key(b[i])->Some_0));
}

/// Groupings of two batches of the same positions have the same key at each
/// place that both have.
proof fn lemma_same_key_at(
    a: Seq<DevicePositionView>,
    b: Seq<DevicePositionView>,
    ga: Seq<PositionGroupView>,
    gb: Seq<PositionGroupView>,
    i: int,
)
    requires
        a.to_multiset() == b.to_multiset(),
        is_grouping(ga, a),
        is_grouping(gb, b),
        0 <= i < ga.len(),
        0 <= i < gb.len(),
    ensures
        ga[i].device_id == gb[i].device_id,
        ga[i].route == gb[i].route,
    decreases i,
{
    lemma_same_positions_same_keys(a, b, ga, gb, i);
    lemma_same_positions_same_keys(b, a, gb, ga, i);
    let m = choose|m: int|
        0 <= m < gb.len() && (#[trigger] gb[m]).device_id == ga[i].device_id && gb[m].route
            == ga[i].route;
    let n = choose|n: int|
        0 <= n < ga.len() && (#[trigger] ga[n]).device_id == gb[i].device_id && ga[n].route
            == gb[i].route;
    lemma_key_before_irreflexive(ga[i].device_id, ga[i].route);
    lemma_key_before_irreflexive(gb[i].device_id, gb[i].route);
    if m < i {
        lemma_same_key_at(a, b, ga, gb, m);
        assert(group_before(ga[m], ga[i]));
    } else if n < i {
        lemma_same_key_at(a, b, ga, gb, n);
        assert(group_before(gb[n], gb[i]));
    } else if m > i && n > i {
        assert(group_before(gb[i], gb[m]));
        assert(group_before(ga[i], ga[n]));
        lemma_key_before_total(ga[i].device_id, ga[i].route, gb[i].device_id, gb[i].route);
    }
}

/// Groupings of two batches of the same positions have as many groups.
proof fn lemma_same_count(
    a: Seq<DevicePositionView>,
    b: Seq<DevicePositionView>,
    ga: Seq<PositionGroupView>,
    gb: Seq<PositionGroupView>,
)
    requires
        a.to_multiset() == b.to_multiset(),
        is_grouping(ga, a),
        is_grouping(gb, b),
    ensures
        ga.len() <= gb.len(),
{
    if ga.len() > gb.len() {
        let i = gb.len() as int;
        lemma_same_positions_same_keys(a, b, ga, gb, i);
        let m = choose|m: int|
            0 <= m < gb.len() && (#[trigger] gb[m]).device_id == ga[i].device_id && gb[m].route
                == ga[i].route;
        lemma_same_key_at(a, b, ga, gb, m);
        assert(group_before(ga[m], ga[i]));
        lemma_key_before_irreflexive(ga[i].device_id, ga[i].route);
    }
}

/// The members of a group are positions of the batch, all of the group's
/// device and of its route or day: those that name no route, or a blank one,
/// are all of the one calendar day in UTC that the group goes by.
pub proof fn lemma_members_share_key(
    groups: Seq<PositionGroupView>,
    batch: Seq<DevicePositionView>,
    g: int,
    i: int,
)
    requires
        is_grouping(groups, batch),
        0 <= g < groups.len(),
        0 <= i < groups[g].members.len(),
    ensures
        batch.contains(groups[g].members[i]),
        groups[g].members[i].device_id == groups[g].device_id,
        route_key(groups[g].members[i]) == Some(groups[g].route),
{
    let f = fits(groups[g].device_id, groups[g].route);
    let member = groups[g].members[i];
    batch.lemma_filter_pred(f, i);
    assert(batch.filter(f).contains(member));
    batch.lemma_filter_contains_rev(f, member);
}

/// There is one grouping of a batch: whatever parts it by device and route or
/// day as [`is_grouping`] says is the same list of groups.
pub proof fn lemma_grouping_unique(
    first: Seq<PositionGroupView>,
    second: Seq<PositionGroupView>,
    batch: Seq<DevicePositionView>,
)
    requires
        is_grouping(first, batch),
        is_grouping(second, batch),
    ensures
        first == second,
{
    lemma_same_count(batch, batch, first, second);
    lemma_same_count(batch, batch, second, first);
    assert forall|g: int| 0 <= g < first.len() implies first[g] == second[g] by {
        lemma_same_key_at(batch, batch, first, second, g);
    }
    assert(first =~= second);
}

/// Grouping does not go by the order of the batch: two batches of the same
/// positions, however ordered, have the same groups in the same order, and
/// each group has the same members, which may stand in another order.
pub proof fn lemma_grouping_ignores_order(a: Seq<DevicePositionView>, b: Seq<DevicePositionView>)
    requires
        a.to_multiset() == b.to_multiset(),
        all_keyed(a),
    ensures
        all_keyed(b),
        grouped(a).len() == grouped(b).len(),
        forall|g: int|
            0 <= g < grouped(a).len() ==> (#[trigger] grouped(a)[g]).device_id == grouped(
                b,
            )[g].device_id && grouped(a)[g].route == grouped(b)[g].route && grouped(
                a,
            )[g].members.to_multiset() == grouped(b)[g].members.to_multiset(),
{
    broadcast use vstd::seq_lib::group_to_multiset_ensures;

    assert forall|i: int| 0 <= i < b.len() implies route_key(#[trigger] b[i]) is Some by {
        assert(b.to_multiset().count(b[i]) > 0);
        assert(a.contains(b[i]));
        let j = choose|j: int| 0 <= j < a.len() && a[j] == b[i];
        assert(route_key(a[j]) is Some);
    }
    let ga = grouped(a);
    let gb = grouped(b);
    lemma_grouped(a);
    lemma_grouped(b);
    lemma_same_count(a, b, ga, gb);
    lemma_same_count(b, a, gb, ga);
    assert forall|g: int| 0 <= g < ga.len() implies (#[trigger] ga[g]).device_id
        == gb[g].device_id && ga[g].route == gb[g].route && ga[g].members.to_multiset()
        == gb[g].members.to_multiset() by {
        lemma_same_key_at(a, b, ga, gb, g);
        let f = fits(ga[g].device_id, ga[g].route);
        lemma_filter_rearranged(a, f);
        lemma_filter_rearranged(b, f);
        assert(gb[g].members == members_of(b, gb[g].device_id, gb[g].route));
    }
}

/// The route or day by which a position is grouped; an error where it names
/// no route and the day of its instant cannot be had.
pub fn route_of(p: &DevicePosition) -> (route: Result<String, String>)
    ensures
        route_or_failure(p@) == match route {
            Ok(t) => Ok::<Seq<char>, Seq<char>>(t@),
            Err(e) => Err::<Seq<char>, Seq<char>>(e@),
        },
{
    match &p.route_name {
        Some(label) => {
            if is_blank(label.as_str()) {
                day_of(p.pos.time)
            } else {
                Ok(label.clone())
            }
        },
        None => day_of(p.pos.time),
    }
}

/// The place of the key `(device, route)` among groups in key order.
fn rank_of(groups: &Vec<PositionGroup>, device: &Vec<char>, route: &Vec<char>) -> (at: usize)
    ensures
        at == rank(groups_view(groups@), device@, route@),
        at <= groups.len(),
{
    let ghost all = groups_view(groups@);
    let mut at: usize = 0;
    proof {
        assert(all.skip(0) =~= all);
    }
    loop
        invariant
            at <= groups.len(),
            all == groups_view(groups@),
            rank(all, device@, route@) == at + rank(all.skip(at as int), device@, route@),
        decreases groups.len() - at,
    {
        if at >= groups.len() {
            return at;
        }
        let d = chars_of(groups[at].device_id.as_str());
        let before: bool = if precedes(&d, device) {
            true
        } else if same_text(&d, device) {
            let r = chars_of(groups[at].route.as_str());
            precedes(&r, route)
        } else {
            false
        };
        proof {
            assert(all.skip(at as int)[0] == all[at as int]);
            assert(all.skip(at as int).drop_first() =~= all.skip(at + 1));
        }
        if !before {
            return at;
        }
        at = at + 1;
    }
}

/// The batch parted by device and by route or day, the groups ascending by
/// device and then by route or day. It fails, and gives no group at all, where
/// a position names no route and the day of its instant cannot be had.
pub fn group_positions(batch: Vec<DevicePosition>) -> (groups: Result<Vec<PositionGroup>, String>)
    ensures
        match groups {
            Ok(gs) => all_keyed(batch_view(batch@)) && groups_view(gs@) == grouped(
                batch_view(batch@),
            ) && is_grouping(groups_view(gs@), batch_view(batch@)),
            Err(e) => !all_keyed(batch_view(batch@)) && key_failure(batch_view(batch@)) == Some(
                e@,
            ),
        },
{
    let ghost whole = batch_view(batch@);
    let mut groups: Vec<PositionGroup> = Vec::new();
    proof {
        assert(groups_view(groups@) =~= grouped(whole.take(0)));
    }
    for p in it: batch
        invariant
            whole == batch_view(it.seq()),
            all_keyed(whole.take(it.index() as int)),
            groups_view(groups@) == grouped(whole.take(it.index() as int)),
            is_grouping(groups_view(groups@), whole.take(it.index() as int)),
    {
        let ghost n = it.index() as int;
        let ghost before = groups_view(groups@);
        proof {
            assert(whole[n] == p@);
            assert(whole.take(n + 1) =~= whole.take(n).push(p@));
            assert(whole.take(n + 1).drop_last() =~= whole.take(n));
        }
        let route: String = match route_of(&p) {
            Ok(r) => r,
            Err(e) => {
                proof {
                    assert(whole.take(n) == whole.take(it.index() as int));
                    lemma_key_failure_at(whole, n);
                }
                return Err(e);
            },
        };
        proof {
            lemma_inserted(before, whole.take(n), p@);
            lemma_rank(before, p@.device_id, route@);
        }
        let device_chars = chars_of(p.device_id.as_str());
        let route_chars = chars_of(route.as_str());
        let at: usize = rank_of(&groups, &device_chars, &route_chars);
        let joins: bool = if at < groups.len() {
            let d = chars_of(groups[at].device_id.as_str());
            let r = chars_of(groups[at].route.as_str());
            same_text(&d, &device_chars) && same_text(&r, &route_chars)
        } else {
            false
        };
        if joins {
            groups[at].members.push(p);
            proof {
                assert(groups_view(groups@) =~= inserted(before, p@)) by {
                    assert(groups@[at as int]@.members =~= before[at as int].members.push(p@));
                }
            }
        } else {
            let device_id = p.device_id.clone();
            let mut members: Vec<DevicePosition> = Vec::new();
            members.push(p);
            let made = PositionGroup { device_id, route, members };
            proof {
                assert(made@.members =~= seq![p@]);
                before.insert_ensures(at as int, made@);
            }
            groups.insert(at, made);
            proof {
                groups@.insert_ensures(at as int, made);
                assert(groups_view(groups@) =~= inserted(before, p@));
            }
        }
        proof {
            assert forall|i: int| 0 <= i < n + 1 implies route_key(
                #[trigger] whole.take(n + 1)[i],
            ) is Some by {
                if i < n {
                    assert(whole.take(n)[i] == whole.take(n + 1)[i]);
                }
            }
        }
    }
    proof {
        assert(whole.take(whole.len() as int) =~= whole);
    }
    Ok(groups)
}

} // verus!
