//! Properties of the grouping that hold for every batch of predictions.

use vstd::prelude::*;
use vstd::multiset::Multiset;
use crate::model::{ArrivalView, GroupView, PredictionView, StopView};
use crate::shape::{
    add_arrival, add_prediction, arrival_of, group_index, grouped, lemma_group_index_range,
    lemma_stop_index_range, offsets_of, shaped, sorted_by_seconds, sorted_insert, stop_index,
};
use crate::stamp::offset_of;

verus! {

broadcast use vstd::multiset::group_multiset_axioms;

/// Every group of every stop holds its arrivals in ascending order of seconds.
pub open spec fn all_sorted(ss: Seq<StopView>) -> bool {
    forall|i: int, j: int|
        0 <= i < ss.len() && 0 <= j < ss[i].groups.len() ==> sorted_by_seconds(
            #[trigger] ss[i].groups[j].arrivals,
        )
}

proof fn lemma_sorted_insert_bound(a: Seq<ArrivalView>, x: ArrivalView, b: int)
    requires
        forall|i: int| 0 <= i < a.len() ==> a[i].seconds <= b,
        x.seconds <= b,
    ensures
        forall|k: int|
            0 <= k < sorted_insert(a, x).len() ==> #[trigger] sorted_insert(a, x)[k].seconds <= b,
    decreases a.len(),
{
    if a.len() > 0 && a.last().seconds > x.seconds {
        let d = a.drop_last();
        assert(forall|i: int| 0 <= i < d.len() ==> d[i] == a[i]);
        lemma_sorted_insert_bound(d, x, b);
        let r = sorted_insert(d, x);
        assert(forall|k: int| 0 <= k < r.len() ==> r.push(a.last())[k] == r[k]);
    } else {
        assert(forall|k: int| 0 <= k < a.len() ==> a.push(x)[k] == a[k]);
    }
}

proof fn lemma_sorted_insert_sorted(a: Seq<ArrivalView>, x: ArrivalView)
    requires
        sorted_by_seconds(a),
    ensures
        sorted_by_seconds(sorted_insert(a, x)),
    decreases a.len(),
{
    if a.len() > 0 && a.last().seconds > x.seconds {
        let d = a.drop_last();
        lemma_sorted_insert_sorted(d, x);
        lemma_sorted_insert_bound(d, x, a.last().seconds);
    }
}

proof fn lemma_add_arrival_sorted(
    gs: Seq<GroupView>,
    route: Seq<char>,
    destination: Seq<char>,
    x: ArrivalView,
)
    requires
        forall|j: int| 0 <= j < gs.len() ==> sorted_by_seconds(#[trigger] gs[j].arrivals),
    ensures
        forall|j: int|
            0 <= j < add_arrival(gs, route, destination, x).len() ==> sorted_by_seconds(
                #[trigger] add_arrival(gs, route, destination, x)[j].arrivals,
            ),
{
    lemma_group_index_range(gs, route, destination);
    let i = group_index(gs, route, destination);
    if i >= 0 {
        lemma_sorted_insert_sorted(gs[i].arrivals, x);
    }
}

/// Whatever the predictions and their offsets, every group's arrivals come
/// out in ascending order of seconds.
pub proof fn lemma_arrivals_sorted(ps: Seq<PredictionView>, offs: Seq<Option<i64>>)
    requires
        offs.len() == ps.len(),
    ensures
        all_sorted(grouped(ps, offs)),
    decreases ps.len(),
{
    if ps.len() > 0 {
        let prev = grouped(ps.drop_last(), offs.drop_last());
        let p = ps.last();
        lemma_arrivals_sorted(ps.drop_last(), offs.drop_last());
        if let Some(s) = offs.last() {
            let x = arrival_of(p, s as int);
            lemma_stop_index_range(prev, p.stpid);
            let i = stop_index(prev, p.stpid);
            if i >= 0 {
                lemma_add_arrival_sorted(prev[i].groups, p.rt, p.des, x);
            } else {
                lemma_add_arrival_sorted(Seq::empty(), p.rt, p.des, x);
            }
            assert(all_sorted(add_prediction(prev, p, s as int)));
        }
    }
}

/// Every group's arrivals in the grouping of a batch are in ascending order of
/// seconds.
pub proof fn lemma_shaped_sorted(ps: Seq<PredictionView>)
    ensures
        all_sorted(shaped(ps)),
{
    lemma_arrivals_sorted(ps, offsets_of(ps));
}

proof fn lemma_missing_offset_ignored(
    before: Seq<PredictionView>,
    before_offs: Seq<Option<i64>>,
    bad: PredictionView,
    after: Seq<PredictionView>,
    after_offs: Seq<Option<i64>>,
)
    requires
        before_offs.len() == before.len(),
        after_offs.len() == after.len(),
    ensures
        grouped(before.push(bad) + after, before_offs.push(None) + after_offs) == grouped(
            before + after,
            before_offs + after_offs,
        ),
    decreases after.len(),
{
    if after.len() == 0 {
        assert(before.push(bad) + after =~= before.push(bad));
        assert(before_offs.push(None) + after_offs =~= before_offs.push(None));
        assert(before + after =~= before);
        assert(before_offs + after_offs =~= before_offs);
        assert(before.push(bad).drop_last() =~= before);
        assert(before_offs.push(None).drop_last() =~= before_offs);
    } else {
        lemma_missing_offset_ignored(
            before,
            before_offs,
            bad,
            after.drop_last(),
            after_offs.drop_last(),
        );
        assert((before.push(bad) + after).drop_last() =~= before.push(bad) + after.drop_last());
        assert((before_offs.push(None) + after_offs).drop_last() =~= before_offs.push(None)
            + after_offs.drop_last());
        assert((before + after).drop_last() =~= before + after.drop_last());
        assert((before_offs + after_offs).drop_last() =~= before_offs + after_offs.drop_last());
    }
}

/// A prediction whose timestamps do not read changes nothing, wherever it
/// stands in the batch: the others are grouped exactly as without it.
pub proof fn lemma_unreadable_ignored(
    before: Seq<PredictionView>,
    bad: PredictionView,
    after: Seq<PredictionView>,
)
    requires
        offset_of(bad.tmstmp, bad.prdtm) is None,
    ensures
        shaped(before.push(bad) + after) == shaped(before + after),
{
    lemma_missing_offset_ignored(before, offsets_of(before), bad, after, offsets_of(after));
    assert(offsets_of(before.push(bad) + after) =~= offsets_of(before).push(None) + offsets_of(
        after,
    ));
    assert(offsets_of(before + after) =~= offsets_of(before) + offsets_of(after));
}

/// Number of arrivals over all groups `gs`.
pub open spec fn group_total(gs: Seq<GroupView>) -> int
    decreases gs.len(),
{
    if gs.len() == 0 {
        0
    } else {
        group_total(gs.drop_last()) + gs.last().arrivals.len()
    }
}

/// Number of arrivals over all stops `ss`.
pub open spec fn stop_total(ss: Seq<StopView>) -> int
    decreases ss.len(),
{
    if ss.len() == 0 {
        0
    } else {
        stop_total(ss.drop_last()) + group_total(ss.last().groups)
    }
}

/// Number of offsets in `offs` that are present.
pub open spec fn present_count(offs: Seq<Option<i64>>) -> int
    decreases offs.len(),
{
    if offs.len() == 0 {
        0
    } else {
        present_count(offs.drop_last()) + if offs.last() is Some {
            1int
        } else {
            0int
        }
    }
}

proof fn lemma_sorted_insert_len(a: Seq<ArrivalView>, x: ArrivalView)
    ensures
        sorted_insert(a, x).len() == a.len() + 1,
    decreases a.len(),
{
    if a.len() > 0 && a.last().seconds > x.seconds {
        lemma_sorted_insert_len(a.drop_last(), x);
    }
}

proof fn lemma_group_total_update(gs: Seq<GroupView>, i: int, g: GroupView)
    requires
        0 <= i < gs.len(),
    ensures
        group_total(gs.update(i, g)) == group_total(gs) - gs[i].arrivals.len() + g.arrivals.len(),
    decreases gs.len(),
{
    let u = gs.update(i, g);
    if i == gs.len() - 1 {
        assert(u.drop_last() =~= gs.drop_last());
    } else {
        lemma_group_total_update(gs.drop_last(), i, g);
        assert(u.drop_last() =~= gs.drop_last().update(i, g));
    }
}

proof fn lemma_stop_total_update(ss: Seq<StopView>, i: int, s: StopView)
    requires
        0 <= i < ss.len(),
    ensures
        stop_total(ss.update(i, s)) == stop_total(ss) - group_total(ss[i].groups) + group_total(
            s.groups,
        ),
    decreases ss.len(),
{
    let u = ss.update(i, s);
    if i == ss.len() - 1 {
        assert(u.drop_last() =~= ss.drop_last());
    } else {
        lemma_stop_total_update(ss.drop_last(), i, s);
        assert(u.drop_last() =~= ss.drop_last().update(i, s));
    }
}

proof fn lemma_add_arrival_total(
    gs: Seq<GroupView>,
    route: Seq<char>,
    destination: Seq<char>,
    x: ArrivalView,
)
    ensures
        group_total(add_arrival(gs, route, destination, x)) == group_total(gs) + 1,
{
    lemma_group_index_range(gs, route, destination);
    let i = group_index(gs, route, destination);
    if i >= 0 {
        lemma_sorted_insert_len(gs[i].arrivals, x);
        lemma_group_total_update(
            gs,
            i,
            GroupView {
                route: gs[i].route,
                destination: gs[i].destination,
                arrivals: sorted_insert(gs[i].arrivals, x),
            },
        );
    } else {
        let g = GroupView { route, destination, arrivals: seq![x] };
        assert(gs.push(g).drop_last() =~= gs);
    }
}

/// No arrival is lost or invented: the groups hold, all told, one arrival for
/// each prediction that has an offset.
pub proof fn lemma_no_arrival_lost(ps: Seq<PredictionView>, offs: Seq<Option<i64>>)
    requires
        offs.len() == ps.len(),
    ensures
        stop_total(grouped(ps, offs)) == present_count(offs),
    decreases ps.len(),
{
    if ps.len() > 0 {
        let prev = grouped(ps.drop_last(), offs.drop_last());
        let p = ps.last();
        lemma_no_arrival_lost(ps.drop_last(), offs.drop_last());
        if let Some(s) = offs.last() {
            let x = arrival_of(p, s as int);
            lemma_stop_index_range(prev, p.stpid);
            let i = stop_index(prev, p.stpid);
            if i >= 0 {
                lemma_add_arrival_total(prev[i].groups, p.rt, p.des, x);
                lemma_stop_total_update(
                    prev,
                    i,
                    StopView { stop: prev[i].stop, groups: add_arrival(prev[i].groups, p.rt, p.des, x) },
                );
            } else {
                lemma_add_arrival_total(Seq::empty(), p.rt, p.des, x);
                let e = StopView { stop: p.stpid, groups: add_arrival(Seq::empty(), p.rt, p.des, x) };
                assert(prev.push(e).drop_last() =~= prev);
            }
        }
    }
}

/// No two groups `gs` share both route and destination.
pub open spec fn groups_distinct(gs: Seq<GroupView>) -> bool {
    forall|i: int, j: int|
        0 <= i < j < gs.len() ==> !(gs[i].route == gs[j].route && gs[i].destination
            == gs[j].destination)
}

/// Each stop appears once, and within it each route and destination once.
pub open spec fn keys_distinct(ss: Seq<StopView>) -> bool {
    &&& forall|i: int, j: int| 0 <= i < j < ss.len() ==> ss[i].stop != ss[j].stop
    &&& forall|i: int| 0 <= i < ss.len() ==> groups_distinct(#[trigger] ss[i].groups)
}

proof fn lemma_add_arrival_distinct(
    gs: Seq<GroupView>,
    route: Seq<char>,
    destination: Seq<char>,
    x: ArrivalView,
)
    requires
        groups_distinct(gs),
    ensures
        groups_distinct(add_arrival(gs, route, destination, x)),
{
    lemma_group_index_range(gs, route, destination);
}

/// Predictions that share a stop, a route and a destination always land in one
/// group: no stop is listed twice, and no stop holds two groups for the same
/// route and destination.
pub proof fn lemma_keys_distinct(ps: Seq<PredictionView>, offs: Seq<Option<i64>>)
    requires
        offs.len() == ps.len(),
    ensures
        keys_distinct(grouped(ps, offs)),
    decreases ps.len(),
{
    if ps.len() > 0 {
        let prev = grouped(ps.drop_last(), offs.drop_last());
        let p = ps.last();
        lemma_keys_distinct(ps.drop_last(), offs.drop_last());
        if let Some(s) = offs.last() {
            let x = arrival_of(p, s as int);
            lemma_stop_index_range(prev, p.stpid);
            let i = stop_index(prev, p.stpid);
            if i >= 0 {
                lemma_add_arrival_distinct(prev[i].groups, p.rt, p.des, x);
            } else {
                lemma_add_arrival_distinct(Seq::empty(), p.rt, p.des, x);
            }
            assert(keys_distinct(add_prediction(prev, p, s as int)));
        }
    }
}

/// Two predictions with offsets, at one stop and with the same route and
/// destination, give one stop holding one group, with both arrivals in it.
pub proof fn lemma_same_route_merged(p: PredictionView, sp: i64, q: PredictionView, sq: i64)
    requires
        p.stpid == q.stpid,
        p.rt == q.rt,
        p.des == q.des,
    ensures
        grouped(seq![p, q], seq![Some(sp), Some(sq)]).len() == 1,
        grouped(seq![p, q], seq![Some(sp), Some(sq)])[0].groups.len() == 1,
        grouped(seq![p, q], seq![Some(sp), Some(sq)])[0].groups[0].arrivals.len() == 2,
{
    let both = seq![p, q];
    let offs = seq![Some(sp), Some(sq)];
    assert(both.drop_last() =~= seq![p]);
    assert(offs.drop_last() =~= seq![Some(sp)]);
    assert(seq![p].drop_last() =~= Seq::<PredictionView>::empty());
    assert(seq![Some(sp)].drop_last() =~= Seq::<Option<i64>>::empty());
    let xp = arrival_of(p, sp as int);
    let xq = arrival_of(q, sq as int);
    let g0 = add_arrival(Seq::empty(), p.rt, p.des, xp);
    assert(group_index(Seq::<GroupView>::empty(), p.rt, p.des) == -1);
    assert(g0 == seq![GroupView { route: p.rt, destination: p.des, arrivals: seq![xp] }]);
    let one = grouped(seq![p], seq![Some(sp)]);
    assert(grouped(Seq::<PredictionView>::empty(), Seq::<Option<i64>>::empty())
        == Seq::<StopView>::empty());
    assert(seq![Some(sp)].last() == Some(sp));
    assert(stop_index(Seq::<StopView>::empty(), p.stpid) == -1);
    assert(one =~= seq![StopView { stop: p.stpid, groups: g0 }]);
    assert(one.drop_last() =~= Seq::<StopView>::empty());
    assert(stop_index(one, q.stpid) == 0);
    assert(g0.drop_last() =~= Seq::<GroupView>::empty());
    assert(group_index(g0, q.rt, q.des) == 0);
    lemma_sorted_insert_len(seq![xp], xq);
}

/// Two readable predictions at one stop with the same route and destination
/// are merged into a single group of two arrivals.
pub proof fn lemma_shaped_same_route_merged(p: PredictionView, q: PredictionView)
    requires
        offset_of(p.tmstmp, p.prdtm) is Some,
        offset_of(q.tmstmp, q.prdtm) is Some,
        p.stpid == q.stpid,
        p.rt == q.rt,
        p.des == q.des,
    ensures
        shaped(seq![p, q]).len() == 1,
        shaped(seq![p, q])[0].groups.len() == 1,
        shaped(seq![p, q])[0].groups[0].arrivals.len() == 2,
{
    let sp = offset_of(p.tmstmp, p.prdtm)->0;
    let sq = offset_of(q.tmstmp, q.prdtm)->0;
    assert(offsets_of(seq![p, q]) =~= seq![Some(sp), Some(sq)]);
    lemma_same_route_merged(p, sp, q, sq);
}

/// Every stop holds at least one group, and every group at least one arrival.
pub open spec fn none_empty(ss: Seq<StopView>) -> bool {
    forall|i: int|
        0 <= i < ss.len() ==> {
            &&& (#[trigger] ss[i]).groups.len() > 0
            &&& forall|j: int|
                0 <= j < ss[i].groups.len() ==> (#[trigger] ss[i].groups[j]).arrivals.len() > 0
        }
}

proof fn lemma_add_arrival_nonempty(
    gs: Seq<GroupView>,
    route: Seq<char>,
    destination: Seq<char>,
    x: ArrivalView,
)
    requires
        forall|j: int| 0 <= j < gs.len() ==> (#[trigger] gs[j]).arrivals.len() > 0,
    ensures
        add_arrival(gs, route, destination, x).len() > 0,
        forall|j: int|
            0 <= j < add_arrival(gs, route, destination, x).len() ==> (
            #[trigger] add_arrival(gs, route, destination, x)[j]).arrivals.len() > 0,
{
    lemma_group_index_range(gs, route, destination);
    let i = group_index(gs, route, destination);
    if i >= 0 {
        lemma_sorted_insert_len(gs[i].arrivals, x);
    }
}

/// No stop is listed without a group, and no group without an arrival.
pub proof fn lemma_none_empty(ps: Seq<PredictionView>, offs: Seq<Option<i64>>)
    requires
        offs.len() == ps.len(),
    ensures
        none_empty(grouped(ps, offs)),
    decreases ps.len(),
{
    if ps.len() > 0 {
        let prev = grouped(ps.drop_last(), offs.drop_last());
        let p = ps.last();
        lemma_none_empty(ps.drop_last(), offs.drop_last());
        if let Some(s) = offs.last() {
            let x = arrival_of(p, s as int);
            lemma_stop_index_range(prev, p.stpid);
            let i = stop_index(prev, p.stpid);
            if i >= 0 {
                lemma_add_arrival_nonempty(prev[i].groups, p.rt, p.des, x);
            } else {
                lemma_add_arrival_nonempty(Seq::empty(), p.rt, p.des, x);
            }
            assert(none_empty(add_prediction(prev, p, s as int)));
        }
    }
}

/// Adding an arrival to a sorted group is a stable insertion: it lands after
/// every arrival with at most as many seconds and before every arrival with
/// more, and the others keep their order.
pub proof fn lemma_insert_stable(a: Seq<ArrivalView>, x: ArrivalView)
    requires
        sorted_by_seconds(a),
    ensures
        exists|k: int|
            0 <= k <= a.len() && sorted_insert(a, x) == a.take(k).push(x) + a.skip(k) && (forall|
                i: int,
            |
                0 <= i < k ==> (#[trigger] a[i]).seconds <= x.seconds) && (forall|i: int|
                k <= i < a.len() ==> (#[trigger] a[i]).seconds > x.seconds),
    decreases a.len(),
{
    if a.len() == 0 || a.last().seconds <= x.seconds {
        let k = a.len() as int;
        assert(a.take(k) =~= a);
        assert(a.skip(k) =~= Seq::<ArrivalView>::empty());
        assert(a.push(x) =~= a.take(k).push(x) + a.skip(k));
    } else {
        let d = a.drop_last();
        assert(sorted_by_seconds(d));
        lemma_insert_stable(d, x);
        let k = choose|k: int|
            0 <= k <= d.len() && sorted_insert(d, x) == d.take(k).push(x) + d.skip(k) && (forall|
                i: int,
            |
                0 <= i < k ==> (#[trigger] d[i]).seconds <= x.seconds) && (forall|i: int|
                k <= i < d.len() ==> (#[trigger] d[i]).seconds > x.seconds);
        assert(d.take(k) =~= a.take(k));
        assert(d.skip(k).push(a.last()) =~= a.skip(k));
        assert(sorted_insert(a, x) =~= a.take(k).push(x) + a.skip(k));
        assert(forall|i: int| k <= i < a.len() ==> (#[trigger] a[i]).seconds > x.seconds) by {
            assert forall|i: int| k <= i < a.len() implies (#[trigger] a[i]).seconds > x.seconds by {
                if i < d.len() {
                    assert(d[i] == a[i]);
                }
            }
        }
        assert(forall|i: int| 0 <= i < k ==> (#[trigger] a[i]).seconds <= x.seconds) by {
            assert forall|i: int| 0 <= i < k implies (#[trigger] a[i]).seconds <= x.seconds by {
                assert(d[i] == a[i]);
            }
        }
    }
}

/// An arrival together with the stop, route and destination it is listed under.
pub type Listing = (Seq<char>, Seq<char>, Seq<char>, ArrivalView);

/// The arrivals `a`, each listed under `stop`, `route` and `destination`.
pub open spec fn tagged(
    stop: Seq<char>,
    route: Seq<char>,
    destination: Seq<char>,
    a: Seq<ArrivalView>,
) -> Multiset<Listing>
    decreases a.len(),
{
    if a.len() == 0 {
        Multiset::empty()
    } else {
        tagged(stop, route, destination, a.drop_last()).insert((stop, route, destination, a.last()))
    }
}

/// Every arrival of the groups `gs` of `stop`, with where it is listed.
pub open spec fn group_listings(stop: Seq<char>, gs: Seq<GroupView>) -> Multiset<Listing>
    decreases gs.len(),
{
    if gs.len() == 0 {
        Multiset::empty()
    } else {
        group_listings(stop, gs.drop_last()).add(
            tagged(stop, gs.last().route, gs.last().destination, gs.last().arrivals),
        )
    }
}

/// Every arrival of the stops `ss`, with where it is listed.
pub open spec fn stop_listings(ss: Seq<StopView>) -> Multiset<Listing>
    decreases ss.len(),
{
    if ss.len() == 0 {
        Multiset::empty()
    } else {
        stop_listings(ss.drop_last()).add(group_listings(ss.last().stop, ss.last().groups))
    }
}

/// What each prediction with an offset should become: its arrival, listed
/// under its own stop, route and destination.
pub open spec fn batch_listings(ps: Seq<PredictionView>, offs: Seq<Option<i64>>) -> Multiset<
    Listing,
>
    decreases ps.len(),
{
    if ps.len() == 0 {
        Multiset::empty()
    } else {
        let prev = batch_listings(ps.drop_last(), offs.drop_last());
        let p = ps.last();
        match offs.last() {
            Some(s) => prev.insert((p.stpid, p.rt, p.des, arrival_of(p, s as int))),
            None => prev,
        }
    }
}

proof fn lemma_tagged_insert(
    stop: Seq<char>,
    route: Seq<char>,
    destination: Seq<char>,
    a: Seq<ArrivalView>,
    x: ArrivalView,
)
    ensures
        tagged(stop, route, destination, sorted_insert(a, x)) =~= tagged(
            stop,
            route,
            destination,
            a,
        ).insert((stop, route, destination, x)),
    decreases a.len(),
{
    if a.len() == 0 || a.last().seconds <= x.seconds {
        assert(a.push(x).drop_last() =~= a);
    } else {
        let d = a.drop_last();
        lemma_tagged_insert(stop, route, destination, d, x);
        let r = sorted_insert(d, x);
        assert(r.push(a.last()).drop_last() =~= r);
    }
}

proof fn lemma_group_listings_update(stop: Seq<char>, gs: Seq<GroupView>, i: int, g: GroupView)
    requires
        0 <= i < gs.len(),
    ensures
        group_listings(stop, gs.update(i, g)).add(
            tagged(stop, gs[i].route, gs[i].destination, gs[i].arrivals),
        ) =~= group_listings(stop, gs).add(tagged(stop, g.route, g.destination, g.arrivals)),
    decreases gs.len(),
{
    let u = gs.update(i, g);
    let t_old = tagged(stop, gs[i].route, gs[i].destination, gs[i].arrivals);
    let t_new = tagged(stop, g.route, g.destination, g.arrivals);
    let t_last = tagged(stop, gs.last().route, gs.last().destination, gs.last().arrivals);
    let t_ulast = tagged(stop, u.last().route, u.last().destination, u.last().arrivals);
    assert(group_listings(stop, u) == group_listings(stop, u.drop_last()).add(t_ulast));
    assert(group_listings(stop, gs) == group_listings(stop, gs.drop_last()).add(t_last));
    if i == gs.len() - 1 {
        assert(u.drop_last() =~= gs.drop_last());
        assert(t_ulast == t_new);
        assert(t_last == t_old);
    } else {
        lemma_group_listings_update(stop, gs.drop_last(), i, g);
        assert(u.drop_last() =~= gs.drop_last().update(i, g));
        assert(t_ulast == t_last);
        assert(gs.drop_last()[i] == gs[i]);
        let ih_l = group_listings(stop, gs.drop_last().update(i, g)).add(t_old);
        let ih_r = group_listings(stop, gs.drop_last()).add(t_new);
        assert forall|v: Listing| ih_l.count(v) == ih_r.count(v) by {
            assert(ih_l =~= ih_r);
        }
    }
    let lhs = group_listings(stop, u).add(t_old);
    let rhs = group_listings(stop, gs).add(t_new);
    let lu = group_listings(stop, u.drop_last());
    let lg = group_listings(stop, gs.drop_last());
    assert forall|v: Listing| lhs.count(v) == rhs.count(v) by {
        assert(lhs.count(v) == lu.count(v) + t_ulast.count(v) + t_old.count(v));
        assert(rhs.count(v) == lg.count(v) + t_last.count(v) + t_new.count(v));
        if i < gs.len() - 1 {
            let ih_l = group_listings(stop, gs.drop_last().update(i, g)).add(t_old);
            let ih_r = group_listings(stop, gs.drop_last()).add(t_new);
            assert(ih_l.count(v) == ih_r.count(v));
        }
    }
    assert(lhs =~= rhs);
}

proof fn lemma_stop_listings_update(ss: Seq<StopView>, i: int, e: StopView)
    requires
        0 <= i < ss.len(),
    ensures
        stop_listings(ss.update(i, e)).add(group_listings(ss[i].stop, ss[i].groups))
            =~= stop_listings(ss).add(group_listings(e.stop, e.groups)),
    decreases ss.len(),
{
    let u = ss.update(i, e);
    let l_old = group_listings(ss[i].stop, ss[i].groups);
    let l_new = group_listings(e.stop, e.groups);
    let l_last = group_listings(ss.last().stop, ss.last().groups);
    let l_ulast = group_listings(u.last().stop, u.last().groups);
    assert(stop_listings(u) == stop_listings(u.drop_last()).add(l_ulast));
    assert(stop_listings(ss) == stop_listings(ss.drop_last()).add(l_last));
    if i == ss.len() - 1 {
        assert(u.drop_last() =~= ss.drop_last());
        assert(l_ulast == l_new);
        assert(l_last == l_old);
    } else {
        lemma_stop_listings_update(ss.drop_last(), i, e);
        assert(u.drop_last() =~= ss.drop_last().update(i, e));
        assert(l_ulast == l_last);
        assert(ss.drop_last()[i] == ss[i]);
        let ih_l = stop_listings(ss.drop_last().update(i, e)).add(l_old);
        let ih_r = stop_listings(ss.drop_last()).add(l_new);
        assert forall|v: Listing| ih_l.count(v) == ih_r.count(v) by {
            assert(ih_l =~= ih_r);
        }
    }
    let lhs = stop_listings(u).add(l_old);
    let rhs = stop_listings(ss).add(l_new);
    let lu = stop_listings(u.drop_last());
    let lg = stop_listings(ss.drop_last());
    assert forall|v: Listing| lhs.count(v) == rhs.count(v) by {
        assert(lhs.count(v) == lu.count(v) + l_ulast.count(v) + l_old.count(v));
        assert(rhs.count(v) == lg.count(v) + l_last.count(v) + l_new.count(v));
        if i < ss.len() - 1 {
            let ih_l = stop_listings(ss.drop_last().update(i, e)).add(l_old);
            let ih_r = stop_listings(ss.drop_last()).add(l_new);
            assert(ih_l.count(v) == ih_r.count(v));
        }
    }
    assert(lhs =~= rhs);
}

proof fn lemma_add_arrival_listings(
    stop: Seq<char>,
    gs: Seq<GroupView>,
    route: Seq<char>,
    destination: Seq<char>,
    x: ArrivalView,
)
    ensures
        group_listings(stop, add_arrival(gs, route, destination, x)) =~= group_listings(
            stop,
            gs,
        ).insert((stop, route, destination, x)),
{
    lemma_group_index_range(gs, route, destination);
    let i = group_index(gs, route, destination);
    if i >= 0 {
        let g = GroupView {
            route: gs[i].route,
            destination: gs[i].destination,
            arrivals: sorted_insert(gs[i].arrivals, x),
        };
        lemma_tagged_insert(stop, route, destination, gs[i].arrivals, x);
        lemma_group_listings_update(stop, gs, i, g);
        let t_old = tagged(stop, gs[i].route, gs[i].destination, gs[i].arrivals);
        let t_new = tagged(stop, g.route, g.destination, g.arrivals);
        let lhs = group_listings(stop, gs.update(i, g));
        let rhs = group_listings(stop, gs).insert((stop, route, destination, x));
        assert forall|v: Listing| lhs.count(v) == rhs.count(v) by {
            assert(lhs.add(t_old).count(v) == group_listings(stop, gs).add(t_new).count(v));
            assert(t_new.count(v) == t_old.insert((stop, route, destination, x)).count(v));
        }
        assert(lhs =~= rhs);
    } else {
        let g = GroupView { route, destination, arrivals: seq![x] };
        assert(gs.push(g).drop_last() =~= gs);
        assert(seq![x].drop_last() =~= Seq::<ArrivalView>::empty());
        let t = tagged(stop, route, destination, seq![x]);
        assert(t == tagged(stop, route, destination, Seq::<ArrivalView>::empty()).insert(
            (stop, route, destination, x),
        ));
        let lhs = group_listings(stop, gs.push(g));
        let rhs = group_listings(stop, gs).insert((stop, route, destination, x));
        assert(lhs == group_listings(stop, gs).add(t));
        assert forall|v: Listing| lhs.count(v) == rhs.count(v) by {}
        assert(lhs =~= rhs);
    }
}

/// Every arrival is kept, each exactly as often as it was given: the arrivals
/// listed under each stop, route and destination are, as a multiset, those of
/// the predictions with offsets at that stop, route and destination. Buses
/// that appear twice stay twice.
pub proof fn lemma_every_arrival_kept(ps: Seq<PredictionView>, offs: Seq<Option<i64>>)
    requires
        offs.len() == ps.len(),
    ensures
        stop_listings(grouped(ps, offs)) =~= batch_listings(ps, offs),
    decreases ps.len(),
{
    if ps.len() > 0 {
        let prev = grouped(ps.drop_last(), offs.drop_last());
        let p = ps.last();
        lemma_every_arrival_kept(ps.drop_last(), offs.drop_last());
        if let Some(s) = offs.last() {
            let x = arrival_of(p, s as int);
            lemma_stop_index_range(prev, p.stpid);
            let i = stop_index(prev, p.stpid);
            if i >= 0 {
                let e = StopView {
                    stop: prev[i].stop,
                    groups: add_arrival(prev[i].groups, p.rt, p.des, x),
                };
                lemma_add_arrival_listings(prev[i].stop, prev[i].groups, p.rt, p.des, x);
                lemma_stop_listings_update(prev, i, e);
                let l_old = group_listings(prev[i].stop, prev[i].groups);
                let l_new = group_listings(e.stop, e.groups);
                let lhs = stop_listings(prev.update(i, e));
                let rhs = stop_listings(prev).insert((p.stpid, p.rt, p.des, x));
                assert forall|v: Listing| lhs.count(v) == rhs.count(v) by {
                    assert(lhs.add(l_old).count(v) == stop_listings(prev).add(l_new).count(v));
                    assert(l_new.count(v) == l_old.insert((p.stpid, p.rt, p.des, x)).count(v));
                }
                assert(lhs =~= rhs);
            } else {
                let e = StopView { stop: p.stpid, groups: add_arrival(Seq::empty(), p.rt, p.des, x) };
                lemma_add_arrival_listings(p.stpid, Seq::empty(), p.rt, p.des, x);
                assert(prev.push(e).drop_last() =~= prev);
                assert(group_listings(p.stpid, Seq::<GroupView>::empty()) == Multiset::<
                    Listing,
                >::empty());
                let lhs = stop_listings(prev.push(e));
                let rhs = stop_listings(prev).insert((p.stpid, p.rt, p.des, x));
                assert(lhs == stop_listings(prev).add(group_listings(e.stop, e.groups)));
                assert forall|v: Listing| lhs.count(v) == rhs.count(v) by {}
                assert(lhs =~= rhs);
            }
        }
    }
}

} // verus!
