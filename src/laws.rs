use vstd::multiset::Multiset;
use vstd::prelude::*;
use crate::engine::{
    arrived_by, delivered_points, final_score, insert_desc, lemma_pick_up_keeps, lemma_staying,
    penalty_points, pick_up, queues_penalty, sort_desc, staying, step, trip_points, Action,
    ActionError, Passenger, SimView,
};

verus! {

/// The state after each `(car, action, pick-up positions)` of `script` is applied
/// in turn, whatever each outcome.
pub open spec fn run(s: SimView, script: Seq<(usize, Action, Seq<usize>)>) -> SimView
    decreases script.len(),
{
    if script.len() == 0 {
        s
    } else {
        run(step(s, script[0].0, script[0].1, script[0].2).0, script.drop_first())
    }
}

proof fn lemma_delivered_nonneg(ps: Seq<Passenger>, floor: nat, turn: nat)
    ensures
        delivered_points(ps, floor, turn) >= 0,
    decreases ps.len(),
{
    if ps.len() > 0 {
        lemma_delivered_nonneg(ps.drop_last(), floor, turn);
        let d = turn - ps.last().arrival_turn + 1;
        assert(d * d >= 0) by (nonlinear_arith);
    }
}

/// Every action, valid or not, leaves a well-formed state well-formed: each car
/// on a floor of the building and within its capacity.
pub proof fn lemma_step_keeps_wf(s: SimView, e: usize, action: Action, picks: Seq<usize>)
    requires
        s.wf(),
    ensures
        step(s, e, action, picks).0.wf(),
{
    if e < s.m {
        let el = s.elevators[e as int];
        if action == Action::Open {
            let gained = delivered_points(el.passengers, el.floor, s.turn);
            lemma_delivered_nonneg(el.passengers, el.floor, s.turn);
            if s.score + gained <= u64::MAX {
                lemma_staying(el.passengers, el.floor, s.turn);
                lemma_pick_up_keeps(
                    s.waiting[el.floor as int],
                    staying(el.passengers, el.floor),
                    el.capacity,
                    sort_desc(picks),
                    s.turn,
                );
            }
        }
        let n = step(s, e, action, picks).0;
        assert(n.n == s.n && n.m == s.m && n.t == s.t && n.turn == s.turn && n.c == s.c);
        assert(n.elevators.len() == s.m);
        assert(n.waiting.len() == s.n);
        assert(n.score <= u64::MAX);
        assert forall|i: int| 0 <= i < n.elevators.len() implies {
            let x = #[trigger] n.elevators[i];
            &&& x.floor < n.n
            &&& x.capacity == n.c
            &&& x.passengers.len() <= x.capacity
            &&& arrived_by(x.passengers, n.turn)
        } by {
            if i != e {
                assert(n.elevators[i] == s.elevators[i]);
            }
        }
        assert forall|f: int| 0 <= f < n.waiting.len() implies arrived_by(#[trigger] n.waiting[f], n.turn) by {
            if f != el.floor {
                assert(n.waiting[f] == s.waiting[f]);
            }
        }
    }
}

/// Whatever the actions, every car stays on a floor in `[0, n - 1]` and within
/// its capacity.
pub proof fn lemma_floors_stay_in_building(s: SimView, script: Seq<(usize, Action, Seq<usize>)>)
    requires
        s.wf(),
    ensures
        run(s, script).wf(),
        forall|i: int| 0 <= i < s.m ==> (#[trigger] run(s, script).elevators[i]).floor < s.n,
    decreases script.len(),
{
    if script.len() > 0 {
        lemma_step_keeps_wf(s, script[0].0, script[0].1, script[0].2);
        lemma_floors_stay_in_building(step(s, script[0].0, script[0].1, script[0].2).0, script.drop_first());
    }
    let r = run(s, script);
    assert forall|i: int| 0 <= i < s.m implies (#[trigger] r.elevators[i]).floor < s.n by {
        assert(r.elevators.len() == r.m);
    }
}

/// Moving down at the ground floor, or up at the top floor, leaves the car where it is.
pub proof fn lemma_moves_saturate(s: SimView, e: usize)
    requires
        s.wf(),
        e < s.m,
    ensures
        s.elevators[e as int].floor == 0 ==> step(s, e, Action::Down, seq![]).0.elevators[e as int].floor == 0,
        s.elevators[e as int].floor == s.n - 1 ==> step(s, e, Action::Up, seq![]).0.elevators[e as int].floor
            == s.n - 1,
{
}

/// `OPEN` never leaves a car holding more than its capacity, whatever the pick-up positions.
pub proof fn lemma_open_respects_capacity(s: SimView, e: usize, picks: Seq<usize>)
    requires
        s.wf(),
        e < s.m,
    ensures
        step(s, e, Action::Open, picks).0.elevators[e as int].passengers.len() <= s.c,
{
    lemma_step_keeps_wf(s, e, Action::Open, picks);
}

/// Delivering a passenger who arrived at turn `a`, by `OPEN` at its destination at
/// turn `b >= a`, adds exactly `(b - a + 1)²` to the score and takes it off the car.
pub proof fn lemma_delivery_points(s: SimView, e: usize, p: Passenger)
    requires
        s.wf(),
        e < s.m,
        s.elevators[e as int].passengers == seq![p],
        p.target_floor == s.elevators[e as int].floor,
        s.score + trip_points(s.turn, p.arrival_turn as nat) <= u64::MAX,
    ensures
        ({
            let (n, r) = step(s, e, Action::Open, seq![]);
            &&& r is Ok
            &&& n.score == s.score + (s.turn - p.arrival_turn + 1) * (s.turn - p.arrival_turn + 1)
            &&& n.elevators[e as int].passengers.len() == 0
        }),
{
    let ps = seq![p];
    let el = s.elevators[e as int];
    assert(ps.drop_last() =~= Seq::<Passenger>::empty());
    assert(ps.last() == p);
    assert(delivered_points(Seq::<Passenger>::empty(), el.floor, s.turn) == 0);
    assert(staying(Seq::<Passenger>::empty(), el.floor) == Seq::<Passenger>::empty());
    lemma_delivered_nonneg(ps, el.floor, s.turn);
    assert(delivered_points(ps, el.floor, s.turn) == trip_points(s.turn, p.arrival_turn as nat));
    assert(staying(ps, el.floor) =~= Seq::<Passenger>::empty());
    let none = Seq::<usize>::empty();
    assert(sort_desc(none) == none);
    assert(seq![] =~= none);
    let r = pick_up(s.waiting[el.floor as int], Seq::<Passenger>::empty(), el.capacity, none);
    assert(r.1.len() == 0);
}

/// The end-of-run cost of the queues after one passenger joins a queue is the
/// cost before plus that passenger's own.
proof fn lemma_queues_push(qs: Seq<Seq<Passenger>>, f: int, p: Passenger, t: nat)
    requires
        0 <= f < qs.len(),
    ensures
        queues_penalty(qs.update(f, qs[f].push(p)), t) == queues_penalty(qs, t) + penalty_points(
            t,
            p.arrival_turn as nat,
        ),
    decreases qs.len(),
{
    let u = qs.update(f, qs[f].push(p));
    assert(qs[f].push(p).drop_last() =~= qs[f]);
    if f < qs.len() - 1 {
        assert(u.drop_last() =~= qs.drop_last().update(f, qs[f].push(p)));
        lemma_queues_push(qs.drop_last(), f, p, t);
    } else {
        assert(u.drop_last() =~= qs.drop_last());
    }
}

/// A passenger who is never delivered adds `(t - a)²` to the final score, where
/// `a` is its arrival turn; one that arrives at turn `t` adds nothing.
pub proof fn lemma_undelivered_penalty(s: SimView, f: int, p: Passenger)
    requires
        0 <= f < s.waiting.len(),
        p.arrival_turn <= s.t,
    ensures
        final_score(SimView { waiting: s.waiting.update(f, s.waiting[f].push(p)), ..s }) == final_score(s) + (s.t
            - p.arrival_turn) * (s.t - p.arrival_turn),
        p.arrival_turn == s.t ==> final_score(SimView { waiting: s.waiting.update(f, s.waiting[f].push(p)), ..s })
            == final_score(s),
{
    lemma_queues_push(s.waiting, f, p, s.t);
    if p.arrival_turn == s.t {
        let d = s.t - p.arrival_turn;
        assert(d * d == 0) by (nonlinear_arith)
            requires
                d == 0,
        ;
    }
}

proof fn lemma_insert_desc_head(s: Seq<usize>, x: usize)
    ensures
        insert_desc(s, x).len() == s.len() + 1,
        insert_desc(s, x)[0] >= x,
        s.len() > 0 ==> insert_desc(s, x)[0] >= s[0],
    decreases s.len(),
{
    if s.len() > 0 && x < s[0] {
        lemma_insert_desc_head(s.drop_first(), x);
    }
}

proof fn lemma_sort_desc_head(s: Seq<usize>)
    ensures
        sort_desc(s).len() == s.len(),
        forall|k: int| 0 <= k < s.len() ==> sort_desc(s)[0] >= #[trigger] s[k],
    decreases s.len(),
{
    if s.len() > 0 {
        let r = s.drop_last();
        lemma_sort_desc_head(r);
        lemma_insert_desc_head(sort_desc(r), s.last());
        assert forall|k: int| 0 <= k < s.len() implies sort_desc(s)[0] >= #[trigger] s[k] by {
            if k < s.len() - 1 {
                assert(s[k] == r[k]);
            }
        }
    }
}

/// A pick-up position at or past the end of the queue fails `OPEN`. The drop-off
/// has then already taken place and been scored; no one has been picked up.
pub proof fn lemma_bad_pick_after_drop_off(s: SimView, e: usize, picks: Seq<usize>, k: int)
    requires
        s.wf(),
        e < s.m,
        0 <= k < picks.len(),
        picks[k] >= s.waiting[s.elevators[e as int].floor as int].len(),
        s.score + delivered_points(s.elevators[e as int].passengers, s.elevators[e as int].floor, s.turn)
            <= u64::MAX,
    ensures
        ({
            let el = s.elevators[e as int];
            let (n, r) = step(s, e, Action::Open, picks);
            &&& r matches Err(ActionError::InvalidPassengerIndex { index, floor }) && floor == el.floor
            &&& n.score == s.score + delivered_points(el.passengers, el.floor, s.turn)
            &&& n.elevators[e as int].passengers == staying(el.passengers, el.floor)
            &&& n.waiting == s.waiting
        }),
{
    lemma_sort_desc_head(picks);
    let el = s.elevators[e as int];
    let order = sort_desc(picks);
    assert(order[0] >= picks[k]);
    assert(order.len() > 0);
    lemma_delivered_nonneg(el.passengers, el.floor, s.turn);
    let res = pick_up(s.waiting[el.floor as int], staying(el.passengers, el.floor), el.capacity, order);
    assert(res == (s.waiting[el.floor as int], staying(el.passengers, el.floor), Some(order[0])));
    assert(s.waiting.update(el.floor as int, s.waiting[el.floor as int]) =~= s.waiting);
}

/// Every element of `s` is at least as large as every later one.
pub open spec fn nonincreasing(s: Seq<usize>) -> bool {
    forall|i: int, j: int| 0 <= i < j < s.len() ==> s[i] >= s[j]
}

proof fn lemma_insert_desc_is_insert(s: Seq<usize>, x: usize) -> (j: int)
    ensures
        0 <= j <= s.len(),
        insert_desc(s, x) == s.insert(j, x),
    decreases s.len(),
{
    if s.len() == 0 || x >= s[0] {
        assert(s.insert(0, x) =~= seq![x] + s);
        0
    } else {
        let k = lemma_insert_desc_is_insert(s.drop_first(), x);
        assert(s.insert(k + 1, x) =~= seq![s[0]] + s.drop_first().insert(k, x));
        k + 1
    }
}

proof fn lemma_insert_desc_sorted(s: Seq<usize>, x: usize)
    requires
        nonincreasing(s),
    ensures
        nonincreasing(insert_desc(s, x)),
    decreases s.len(),
{
    if s.len() > 0 && x < s[0] {
        let rest = s.drop_first();
        assert forall|i: int, j: int| 0 <= i < j < rest.len() implies rest[i] >= rest[j] by {
            assert(rest[i] == s[i + 1] && rest[j] == s[j + 1]);
        }
        lemma_insert_desc_sorted(rest, x);
        let k = lemma_insert_desc_is_insert(rest, x);
        let r = insert_desc(s, x);
        let y = insert_desc(rest, x);
        assert forall|j: int| 0 <= j < y.len() implies s[0] >= #[trigger] y[j] by {
            if j < k {
                assert(y[j] == rest[j]);
                assert(s[0] >= s[j + 1]);
            } else if j > k {
                assert(y[j] == rest[j - 1]);
                assert(s[0] >= s[j]);
            }
        }
        assert forall|i: int, j: int| 0 <= i < j < r.len() implies r[i] >= r[j] by {
            if i > 0 {
                assert(r[i] == y[i - 1] && r[j] == y[j - 1]);
            } else {
                assert(r[j] == y[j - 1]);
            }
        }
    } else if s.len() > 0 {
        let r = insert_desc(s, x);
        assert forall|i: int, j: int| 0 <= i < j < r.len() implies r[i] >= r[j] by {
            if i > 0 {
                assert(r[i] == s[i - 1] && r[j] == s[j - 1]);
            } else {
                assert(r[j] == s[j - 1]);
                assert(s[0] >= s[j - 1]);
            }
        }
    }
}

/// The order in which `OPEN` takes pick-up positions holds the same positions,
/// each as often, from the largest down.
pub proof fn lemma_sort_desc_sorts(s: Seq<usize>)
    ensures
        nonincreasing(sort_desc(s)),
        sort_desc(s).to_multiset() == s.to_multiset(),
    decreases s.len(),
{
    broadcast use vstd::seq_lib::to_multiset_insert, vstd::seq_lib::to_multiset_build;

    if s.len() > 0 {
        let rest = s.drop_last();
        lemma_sort_desc_sorts(rest);
        lemma_insert_desc_sorted(sort_desc(rest), s.last());
        let j = lemma_insert_desc_is_insert(sort_desc(rest), s.last());
        assert(s =~= rest.push(s.last()));
    } else {
        assert(sort_desc(s) =~= s);
    }
}

/// Picking up only moves passengers from the floor's queue into the car: taken
/// together, the two hold the same passengers before and after.
pub proof fn lemma_pick_up_conserves(queue: Seq<Passenger>, aboard: Seq<Passenger>, cap: nat, idxs: Seq<usize>)
    ensures
        ({
            let r = pick_up(queue, aboard, cap, idxs);
            r.0.to_multiset().add(r.1.to_multiset()) == queue.to_multiset().add(aboard.to_multiset())
        }),
    decreases idxs.len(),
{
    broadcast use vstd::seq_lib::to_multiset_remove, vstd::seq_lib::to_multiset_build, vstd::seq_lib::to_multiset_contains, vstd::multiset::group_multiset_axioms;

    if idxs.len() > 0 {
        let i = idxs[0] as int;
        if i < queue.len() && aboard.len() < cap {
            let p = queue[i];
            lemma_pick_up_conserves(queue.remove(i), aboard.push(p), cap, idxs.drop_first());
            assert(queue.to_multiset().contains(p));
            assert(queue.remove(i).to_multiset().add(aboard.push(p).to_multiset()) =~= queue.to_multiset().add(
                aboard.to_multiset(),
            ));
        } else if i < queue.len() {
            lemma_pick_up_conserves(queue, aboard, cap, idxs.drop_first());
        }
    }
}

/// Those in `ps` bound for `floor`, in their order: the ones `OPEN` delivers there.
pub open spec fn leaving(ps: Seq<Passenger>, floor: nat) -> Seq<Passenger>
    decreases ps.len(),
{
    if ps.len() == 0 {
        ps
    } else {
        let rest = leaving(ps.drop_last(), floor);
        if ps.last().target_floor == floor {
            rest.push(ps.last())
        } else {
            rest
        }
    }
}

/// Drop-off splits the passengers aboard into those who leave, all bound for
/// this floor, and those who stay, none bound for it; none is lost or duplicated.
pub proof fn lemma_drop_off_conserves(ps: Seq<Passenger>, floor: nat)
    ensures
        staying(ps, floor).to_multiset().add(leaving(ps, floor).to_multiset()) == ps.to_multiset(),
        forall|k: int| 0 <= k < leaving(ps, floor).len() ==> (#[trigger] leaving(ps, floor)[k]).target_floor == floor,
        forall|k: int| 0 <= k < staying(ps, floor).len() ==> (#[trigger] staying(ps, floor)[k]).target_floor != floor,
    decreases ps.len(),
{
    broadcast use vstd::seq_lib::to_multiset_build, vstd::multiset::group_multiset_axioms;

    if ps.len() == 0 {
        broadcast use vstd::seq_lib::to_multiset_len;

        assert(ps.to_multiset().len() == 0);
        assert(ps.to_multiset() =~= Multiset::<Passenger>::empty());
        assert(staying(ps, floor).to_multiset().add(leaving(ps, floor).to_multiset()) =~= ps.to_multiset());
    } else {
        let rest = ps.drop_last();
        lemma_drop_off_conserves(rest, floor);
        assert(ps =~= rest.push(ps.last()));
        let st = staying(ps, floor);
        let lv = leaving(ps, floor);
        assert(st.to_multiset().add(lv.to_multiset()) =~= ps.to_multiset());
        assert forall|k: int| 0 <= k < lv.len() implies (#[trigger] lv[k]).target_floor == floor by {
            if k < leaving(rest, floor).len() {
                assert(lv[k] == leaving(rest, floor)[k]);
            }
        }
        assert forall|k: int| 0 <= k < st.len() implies (#[trigger] st[k]).target_floor != floor by {
            if k < staying(rest, floor).len() {
                assert(st[k] == staying(rest, floor)[k]);
            }
        }
    }
}

} // verus!
