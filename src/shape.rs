//! Grouping of predictions by stop, then by route and destination, with each
//! group's arrivals kept in ascending order of seconds.

use vstd::prelude::*;
use crate::model::{
    ArrivalView, BusArrival, GroupView, PredictionView, RawPrediction, RouteGroup, StopGroups,
    StopView, arrivals_view, groups_view, predictions_view, stops_view,
};
use crate::stamp::{arrival_offset, offset_of};

verus! {

/// Arrivals in ascending order of seconds.
pub open spec fn sorted_by_seconds(a: Seq<ArrivalView>) -> bool {
    forall|i: int, j: int| 0 <= i < j < a.len() ==> a[i].seconds <= a[j].seconds
}

/// `x` appended to `a` and moved left past every later entry with more
/// seconds: what appending and then sorting stably by seconds gives when `a`
/// is already sorted.
pub open spec fn sorted_insert(a: Seq<ArrivalView>, x: ArrivalView) -> Seq<ArrivalView>
    decreases a.len(),
{
    if a.len() == 0 || a.last().seconds <= x.seconds {
        a.push(x)
    } else {
        sorted_insert(a.drop_last(), x).push(a.last())
    }
}

/// Index of the group for `route` and `destination`, or -1 when there is none.
pub open spec fn group_index(gs: Seq<GroupView>, route: Seq<char>, destination: Seq<char>) -> int
    decreases gs.len(),
{
    if gs.len() == 0 {
        -1
    } else if gs.last().route == route && gs.last().destination == destination {
        gs.len() - 1
    } else {
        group_index(gs.drop_last(), route, destination)
    }
}

/// `x` added to the group for `route` and `destination`, or to a new group at
/// the end when there is none.
pub open spec fn add_arrival(
    gs: Seq<GroupView>,
    route: Seq<char>,
    destination: Seq<char>,
    x: ArrivalView,
) -> Seq<GroupView> {
    let i = group_index(gs, route, destination);
    if i >= 0 {
        gs.update(
            i,
            GroupView {
                route: gs[i].route,
                destination: gs[i].destination,
                arrivals: sorted_insert(gs[i].arrivals, x),
            },
        )
    } else {
        gs.push(GroupView { route, destination, arrivals: seq![x] })
    }
}

/// Index of the entry for `stop`, or -1 when there is none.
pub open spec fn stop_index(ss: Seq<StopView>, stop: Seq<char>) -> int
    decreases ss.len(),
{
    if ss.len() == 0 {
        -1
    } else if ss.last().stop == stop {
        ss.len() - 1
    } else {
        stop_index(ss.drop_last(), stop)
    }
}

/// The arrival that prediction `p` stands for, `seconds` away.
pub open spec fn arrival_of(p: PredictionView, seconds: int) -> ArrivalView {
    ArrivalView { bus_id: p.vid, seconds, capacity: p.psgld }
}

/// `p`, arriving in `seconds`, added under its stop; a stop seen for the first
/// time is added at the end.
pub open spec fn add_prediction(ss: Seq<StopView>, p: PredictionView, seconds: int) -> Seq<
    StopView,
> {
    let x = arrival_of(p, seconds);
    let i = stop_index(ss, p.stpid);
    if i >= 0 {
        ss.update(i, StopView { stop: ss[i].stop, groups: add_arrival(ss[i].groups, p.rt, p.des, x) })
    } else {
        ss.push(StopView { stop: p.stpid, groups: add_arrival(Seq::empty(), p.rt, p.des, x) })
    }
}

/// The stops that the predictions `ps` give, taken in order, where `offs[i]`
/// is the offset of `ps[i]`: a prediction without one is left out.
pub open spec fn grouped(ps: Seq<PredictionView>, offs: Seq<Option<i64>>) -> Seq<StopView>
    decreases ps.len(),
{
    if ps.len() == 0 {
        Seq::empty()
    } else {
        let prev = grouped(ps.drop_last(), offs.drop_last());
        match offs.last() {
            Some(s) => add_prediction(prev, ps.last(), s as int),
            None => prev,
        }
    }
}

/// The offset of each prediction, read from its timestamps.
pub open spec fn offsets_of(ps: Seq<PredictionView>) -> Seq<Option<i64>> {
    ps.map_values(|p: PredictionView| offset_of(p.tmstmp, p.prdtm))
}

/// The stops that the predictions `ps` give; a prediction whose timestamps do
/// not read is left out.
pub open spec fn shaped(ps: Seq<PredictionView>) -> Seq<StopView> {
    grouped(ps, offsets_of(ps))
}

pub proof fn lemma_group_index_range(
    gs: Seq<GroupView>,
    route: Seq<char>,
    destination: Seq<char>,
)
    ensures
        -1 <= group_index(gs, route, destination) < gs.len(),
        group_index(gs, route, destination) == -1 ==> forall|k: int|
            0 <= k < gs.len() ==> !(gs[k].route == route && gs[k].destination == destination),
        group_index(gs, route, destination) >= 0 ==> ({
            let i = group_index(gs, route, destination);
            gs[i].route == route && gs[i].destination == destination
        }),
    decreases gs.len(),
{
    if gs.len() > 0 {
        lemma_group_index_range(gs.drop_last(), route, destination);
        assert(forall|k: int| 0 <= k < gs.len() - 1 ==> gs.drop_last()[k] == gs[k]);
    }
}

pub proof fn lemma_stop_index_range(ss: Seq<StopView>, stop: Seq<char>)
    ensures
        -1 <= stop_index(ss, stop) < ss.len(),
        stop_index(ss, stop) == -1 ==> forall|k: int| 0 <= k < ss.len() ==> ss[k].stop != stop,
        stop_index(ss, stop) >= 0 ==> ss[stop_index(ss, stop)].stop == stop,
    decreases ss.len(),
{
    if ss.len() > 0 {
        lemma_stop_index_range(ss.drop_last(), stop);
        assert(forall|k: int| 0 <= k < ss.len() - 1 ==> ss.drop_last()[k] == ss[k]);
    }
}

/// Adds `x` after every arrival with at most as many seconds.
fn insert_arrival(arrivals: &mut Vec<BusArrival>, x: BusArrival)
    ensures
        arrivals_view(final(arrivals)@) == sorted_insert(arrivals_view(old(arrivals)@), x@),
{
    let ghost a = arrivals_view(arrivals@);
    let mut j: usize = arrivals.len();
    proof {
        assert(a.take(j as int) =~= a);
        assert(sorted_insert(a, x@) + a.skip(j as int) =~= sorted_insert(a, x@));
    }
    while j > 0 && arrivals[j - 1].seconds > x.seconds
        invariant
            j <= arrivals@.len(),
            a == arrivals_view(arrivals@),
            sorted_insert(a, x@) == sorted_insert(a.take(j as int), x@) + a.skip(j as int),
        decreases j,
    {
        proof {
            let t = a.take(j as int);
            assert(t.drop_last() =~= a.take(j - 1));
            assert(a.skip(j - 1) =~= seq![a[j - 1]] + a.skip(j as int));
            assert(sorted_insert(t, x@) == sorted_insert(a.take(j - 1), x@).push(a[j - 1]));
            assert(sorted_insert(a.take(j - 1), x@).push(a[j - 1]) + a.skip(j as int)
                =~= sorted_insert(a.take(j - 1), x@) + a.skip(j - 1));
        }
        j = j - 1;
    }
    let ghost xv = x@;
    arrivals.insert(j, x);
    proof {
        assert(sorted_insert(a.take(j as int), xv) == a.take(j as int).push(xv));
        assert(arrivals_view(arrivals@) =~= a.take(j as int).push(xv) + a.skip(j as int));
    }
}

/// Position of the group for `route` and `destination`.
fn find_group(groups: &Vec<RouteGroup>, route: &String, destination: &String) -> (r: Option<usize>)
    ensures
        r matches Some(i) ==> i as int == group_index(groups_view(groups@), route@, destination@),
        r is None ==> group_index(groups_view(groups@), route@, destination@) == -1,
{
    let ghost gs = groups_view(groups@);
    let mut j: usize = groups.len();
    assert(gs.take(j as int) =~= gs);
    while j > 0
        invariant
            j <= groups@.len(),
            gs == groups_view(groups@),
            group_index(gs, route@, destination@) == group_index(gs.take(j as int), route@, destination@),
        decreases j,
    {
        assert(gs.take(j as int).drop_last() =~= gs.take(j - 1));
        if groups[j - 1].route == *route && groups[j - 1].destination == *destination {
            return Some(j - 1);
        }
        j = j - 1;
    }
    assert(gs.take(0) =~= Seq::<GroupView>::empty());
    None
}

/// Adds `x` to the group for `route` and `destination`, opening that group at
/// the end when there is none.
fn add_to_groups(groups: &mut Vec<RouteGroup>, route: &String, destination: &String, x: BusArrival)
    ensures
        groups_view(final(groups)@) == add_arrival(
            groups_view(old(groups)@),
            route@,
            destination@,
            x@,
        ),
{
    let ghost gs = groups_view(groups@);
    let ghost xv = x@;
    proof {
        lemma_group_index_range(gs, route@, destination@);
    }
    match find_group(groups, route, destination) {
        Some(i) => {
            let mut g = groups.remove(i);
            insert_arrival(&mut g.arrivals, x);
            groups.insert(i, g);
            assert(groups_view(groups@) =~= add_arrival(gs, route@, destination@, xv));
        },
        None => {
            let mut arrivals: Vec<BusArrival> = Vec::new();
            arrivals.push(x);
            assert(arrivals_view(arrivals@) =~= seq![xv]);
            groups.push(
                RouteGroup { route: route.clone(), destination: destination.clone(), arrivals },
            );
            assert(groups_view(groups@) =~= add_arrival(gs, route@, destination@, xv));
        },
    }
}

/// Position of the entry for `stop`.
fn find_stop(stops: &Vec<StopGroups>, stop: &String) -> (r: Option<usize>)
    ensures
        r matches Some(i) ==> i as int == stop_index(stops_view(stops@), stop@),
        r is None ==> stop_index(stops_view(stops@), stop@) == -1,
{
    let ghost ss = stops_view(stops@);
    let mut j: usize = stops.len();
    assert(ss.take(j as int) =~= ss);
    while j > 0
        invariant
            j <= stops@.len(),
            ss == stops_view(stops@),
            stop_index(ss, stop@) == stop_index(ss.take(j as int), stop@),
        decreases j,
    {
        assert(ss.take(j as int).drop_last() =~= ss.take(j - 1));
        if stops[j - 1].stop == *stop {
            return Some(j - 1);
        }
        j = j - 1;
    }
    assert(ss.take(0) =~= Seq::<StopView>::empty());
    None
}

/// Adds prediction `p`, arriving in `seconds`, under its stop.
fn add_to_stops(stops: &mut Vec<StopGroups>, p: &RawPrediction, seconds: i64)
    ensures
        stops_view(final(stops)@) == add_prediction(stops_view(old(stops)@), p@, seconds as int),
{
    let ghost ss = stops_view(stops@);
    let x = BusArrival { bus_id: p.vid.clone(), seconds, capacity: p.psgld.clone() };
    assert(x@ == arrival_of(p@, seconds as int));
    proof {
        lemma_stop_index_range(ss, p@.stpid);
    }
    match find_stop(stops, &p.stpid) {
        Some(i) => {
            let mut entry = stops.remove(i);
            add_to_groups(&mut entry.groups, &p.rt, &p.des, x);
            stops.insert(i, entry);
            assert(stops_view(stops@) =~= add_prediction(ss, p@, seconds as int));
        },
        None => {
            let mut groups: Vec<RouteGroup> = Vec::new();
            assert(groups_view(groups@) =~= Seq::<GroupView>::empty());
            add_to_groups(&mut groups, &p.rt, &p.des, x);
            stops.push(StopGroups { stop: p.stpid.clone(), groups });
            assert(stops_view(stops@) =~= add_prediction(ss, p@, seconds as int));
        },
    }
}

/// Groups the predictions by stop, then by route and destination, where
/// `offsets[i]` is the number of seconds until `predictions[i]` arrives, and
/// `None` leaves that prediction out. Stops and groups come in the order in
/// which they are first seen; each group's arrivals are in ascending order of
/// seconds, equal ones in the order given.
pub fn group_with_offsets(predictions: &Vec<RawPrediction>, offsets: &Vec<Option<i64>>) -> (r: Vec<
    StopGroups,
>)
    requires
        offsets@.len() == predictions@.len(),
    ensures
        stops_view(r@) == grouped(predictions_view(predictions@), offsets@),
{
    let ghost ps = predictions_view(predictions@);
    let mut out: Vec<StopGroups> = Vec::new();
    let mut i: usize = 0;
    assert(ps.take(0) =~= Seq::<PredictionView>::empty());
    assert(stops_view(out@) =~= Seq::<StopView>::empty());
    while i < predictions.len()
        invariant
            i <= predictions@.len(),
            offsets@.len() == predictions@.len(),
            ps == predictions_view(predictions@),
            stops_view(out@) == grouped(ps.take(i as int), offsets@.take(i as int)),
        decreases predictions@.len() - i,
    {
        let p = &predictions[i];
        assert(ps.take(i + 1).drop_last() =~= ps.take(i as int));
        assert(offsets@.take(i + 1).drop_last() =~= offsets@.take(i as int));
        assert(ps.take(i + 1).last() == p@);
        match offsets[i] {
            Some(seconds) => add_to_stops(&mut out, p, seconds),
            None => {},
        }
        i = i + 1;
    }
    assert(ps.take(i as int) =~= ps);
    assert(offsets@.take(i as int) =~= offsets@);
    out
}

/// Groups the predictions as `group_with_offsets` does, with each offset read
/// from the prediction's own timestamps. A prediction whose timestamps do not
/// read is left out and affects nothing else.
pub fn group_predictions(predictions: &Vec<RawPrediction>) -> (r: Vec<StopGroups>)
    ensures
        stops_view(r@) == shaped(predictions_view(predictions@)),
{
    let ghost ps = predictions_view(predictions@);
    let mut offsets: Vec<Option<i64>> = Vec::new();
    let mut i: usize = 0;
    while i < predictions.len()
        invariant
            i <= predictions@.len(),
            ps == predictions_view(predictions@),
            offsets@ == offsets_of(ps).take(i as int),
        decreases predictions@.len() - i,
    {
        let p = &predictions[i];
        let off = arrival_offset(&p.tmstmp, &p.prdtm);
        offsets.push(off);
        assert(offsets_of(ps).take(i + 1) =~= offsets_of(ps).take(i as int).push(off));
        i = i + 1;
    }
    assert(offsets_of(ps).take(i as int) =~= offsets_of(ps));
    group_with_offsets(predictions, &offsets)
}

} // verus!
