use vstd::prelude::*;

verus! {

/// A passenger: who it is, the turn at which it began to wait, and where it is going.
#[derive(Clone, Copy, Debug, PartialEq, Eq, Structural)]
pub struct Passenger {
    pub id: usize,
    pub arrival_turn: usize,
    pub target_floor: usize,
}

/// One car: the floor it stands at, how many it can carry, and who is aboard,
/// in the order in which they boarded.
pub struct Elevator {
    pub floor: usize,
    pub capacity: usize,
    pub passengers: Vec<Passenger>,
}

pub struct ElevatorView {
    pub floor: nat,
    pub capacity: nat,
    pub passengers: Seq<Passenger>,
}

impl View for Elevator {
    type V = ElevatorView;

    open spec fn view(&self) -> ElevatorView {
        ElevatorView {
            floor: self.floor as nat,
            capacity: self.capacity as nat,
            passengers: self.passengers@,
        }
    }
}

/// The four things a car can be told to do in one turn.
#[derive(Clone, Copy, Debug, PartialEq, Eq, Structural)]
pub enum Action {
    Up,
    Down,
    Stay,
    Open,
}

/// Why an action was refused.
#[derive(Clone, Copy, Debug, PartialEq, Eq, Structural)]
pub enum ActionError {
    /// The car index is not below the number of cars.
    InvalidElevatorIndex(usize),
    /// The action word is none of `UP`, `DOWN`, `STAY`, `OPEN`.
    UnknownAction,
    /// A pick-up index was not below the length of the waiting queue when it was reached.
    InvalidPassengerIndex { index: usize, floor: usize },
    /// The score would no longer fit in a `u64`.
    ScoreOverflow,
}

/// The whole state of one run: `n` floors, `m` cars of capacity `c`, `t` turns.
pub struct SimulationState {
    pub n: usize,
    pub m: usize,
    pub c: usize,
    pub t: usize,
    pub turn: usize,
    pub score: u64,
    pub elevators: Vec<Elevator>,
    pub waiting_passengers: Vec<Vec<Passenger>>,
}

pub struct SimView {
    pub n: nat,
    pub m: nat,
    pub c: nat,
    pub t: nat,
    pub turn: nat,
    pub score: nat,
    pub elevators: Seq<ElevatorView>,
    pub waiting: Seq<Seq<Passenger>>,
}

impl View for SimulationState {
    type V = SimView;

    open spec fn view(&self) -> SimView {
        SimView {
            n: self.n as nat,
            m: self.m as nat,
            c: self.c as nat,
            t: self.t as nat,
            turn: self.turn as nat,
            score: self.score as nat,
            elevators: self.elevators@.map_values(|e: Elevator| e@),
            waiting: self.waiting_passengers@.map_values(|q: Vec<Passenger>| q@),
        }
    }
}

/// Every passenger in `ps` began to wait no later than `turn`.
pub open spec fn arrived_by(ps: Seq<Passenger>, turn: nat) -> bool {
    forall|k: int| 0 <= k < ps.len() ==> (#[trigger] ps[k]).arrival_turn <= turn
}

impl SimView {
    /// The invariants of a run: every car on a floor of the building and within
    /// its capacity, one queue per floor, and no passenger from the future.
    pub open spec fn wf(self) -> bool {
        &&& 1 <= self.n <= usize::MAX
        &&& self.elevators.len() == self.m
        &&& self.waiting.len() == self.n
        &&& self.turn <= self.t
        &&& self.score <= u64::MAX
        &&& forall|i: int|
            0 <= i < self.elevators.len() ==> {
                let el = #[trigger] self.elevators[i];
                &&& el.floor < self.n
                &&& el.capacity == self.c
                &&& el.passengers.len() <= el.capacity
                &&& arrived_by(el.passengers, self.turn)
            }
        &&& forall|f: int| 0 <= f < self.waiting.len() ==> arrived_by(#[trigger] self.waiting[f], self.turn)
    }
}

/// The floor after one step up: one higher, but never above the top floor.
pub open spec fn moved_up(floor: nat, n: nat) -> nat {
    if floor + 1 <= n - 1 {
        floor + 1
    } else {
        (n - 1) as nat
    }
}

/// The floor after one step down: one lower, but never below the ground floor.
pub open spec fn moved_down(floor: nat) -> nat {
    if floor >= 1 {
        (floor - 1) as nat
    } else {
        0
    }
}

/// What delivering a passenger who arrived at `arrival` earns at `turn`.
pub open spec fn trip_points(turn: nat, arrival: nat) -> int {
    (turn - arrival + 1) * (turn - arrival + 1)
}

/// What a passenger who arrived at `arrival` and was never delivered costs at the end.
pub open spec fn penalty_points(t: nat, arrival: nat) -> int {
    (t - arrival) * (t - arrival)
}

/// The points earned by dropping off, at `floor` and at `turn`, everyone in `ps` bound there.
pub open spec fn delivered_points(ps: Seq<Passenger>, floor: nat, turn: nat) -> int
    decreases ps.len(),
{
    if ps.len() == 0 {
        0
    } else {
        let p = ps.last();
        delivered_points(ps.drop_last(), floor, turn) + if p.target_floor == floor {
            trip_points(turn, p.arrival_turn as nat)
        } else {
            0
        }
    }
}

/// Those in `ps` not bound for `floor`, in their order.
pub open spec fn staying(ps: Seq<Passenger>, floor: nat) -> Seq<Passenger>
    decreases ps.len(),
{
    if ps.len() == 0 {
        ps
    } else {
        let rest = staying(ps.drop_last(), floor);
        if ps.last().target_floor == floor {
            rest
        } else {
            rest.push(ps.last())
        }
    }
}

/// `s` with `x` put before its first element that is not greater than `x`.
pub open spec fn insert_desc(s: Seq<usize>, x: usize) -> Seq<usize>
    decreases s.len(),
{
    if s.len() == 0 {
        seq![x]
    } else if x >= s[0] {
        seq![x] + s
    } else {
        seq![s[0]] + insert_desc(s.drop_first(), x)
    }
}

/// The elements of `s` from the largest down.
pub open spec fn sort_desc(s: Seq<usize>) -> Seq<usize>
    decreases s.len(),
{
    if s.len() == 0 {
        s
    } else {
        insert_desc(sort_desc(s.drop_last()), s.last())
    }
}

/// Takes passengers from `queue` into `aboard` at the positions `idxs`, in that
/// order, each position read in the queue as the earlier ones left it. A pick-up
/// that finds the car full is skipped. The first position that is not below the
/// queue's length stops the work and is returned as the third component.
pub open spec fn pick_up(queue: Seq<Passenger>, aboard: Seq<Passenger>, cap: nat, idxs: Seq<usize>)
    -> (Seq<Passenger>, Seq<Passenger>, Option<usize>)
    decreases idxs.len(),
{
    if idxs.len() == 0 {
        (queue, aboard, None)
    } else {
        let i = idxs[0];
        if i >= queue.len() {
            (queue, aboard, Some(i))
        } else if aboard.len() >= cap {
            pick_up(queue, aboard, cap, idxs.drop_first())
        } else {
            pick_up(queue.remove(i as int), aboard.push(queue[i as int]), cap, idxs.drop_first())
        }
    }
}

/// `OPEN` on car `e`: drop off everyone bound for this floor and score them, then
/// pick up at the given queue positions from the largest down.
pub open spec fn open_doors(s: SimView, e: int, picks: Seq<usize>) -> (SimView, Result<(), ActionError>) {
    let el = s.elevators[e];
    let gained = delivered_points(el.passengers, el.floor, s.turn);
    if s.score + gained > u64::MAX {
        (s, Err(ActionError::ScoreOverflow))
    } else {
        let r = pick_up(s.waiting[el.floor as int], staying(el.passengers, el.floor), el.capacity, sort_desc(picks));
        let next = SimView {
            score: (s.score + gained) as nat,
            elevators: s.elevators.update(e, ElevatorView { passengers: r.1, ..el }),
            waiting: s.waiting.update(el.floor as int, r.0),
            ..s
        };
        match r.2 {
            None => (next, Ok(())),
            Some(i) => (next, Err(ActionError::InvalidPassengerIndex { index: i, floor: el.floor as usize })),
        }
    }
}

/// The state and the outcome after car `e` is given `action`.
pub open spec fn step(s: SimView, e: usize, action: Action, picks: Seq<usize>) -> (SimView, Result<(), ActionError>) {
    if e >= s.m {
        (s, Err(ActionError::InvalidElevatorIndex(e)))
    } else {
        let el = s.elevators[e as int];
        match action {
            Action::Up => (
                SimView { elevators: s.elevators.update(e as int, ElevatorView { floor: moved_up(el.floor, s.n), ..el }), ..s },
                Ok(()),
            ),
            Action::Down => (
                SimView { elevators: s.elevators.update(e as int, ElevatorView { floor: moved_down(el.floor), ..el }), ..s },
                Ok(()),
            ),
            Action::Stay => (s, Ok(())),
            Action::Open => open_doors(s, e as int, picks),
        }
    }
}

/// The action that a word names, if any.
pub open spec fn action_named(word: Seq<char>) -> Option<Action> {
    if word == "UP"@ {
        Some(Action::Up)
    } else if word == "DOWN"@ {
        Some(Action::Down)
    } else if word == "STAY"@ {
        Some(Action::Stay)
    } else if word == "OPEN"@ {
        Some(Action::Open)
    } else {
        None
    }
}

/// Whether two strings hold the same characters.
pub fn same_text(a: &str, b: &str) -> (r: bool)
    ensures
        r == (a@ == b@),
{
    let la = a.unicode_len();
    let lb = b.unicode_len();
    if la != lb {
        return false;
    }
    let mut i: usize = 0;
    while i < la
        invariant
            la == a@.len(),
            lb == b@.len(),
            la == lb,
            i <= la,
            a@.subrange(0, i as int) == b@.subrange(0, i as int),
        decreases la - i,
    {
        if a.get_char(i) != b.get_char(i) {
            return false;
        }
        assert(a@.subrange(0, i + 1) =~= a@.subrange(0, i as int).push(a@[i as int]));
        assert(b@.subrange(0, i + 1) =~= b@.subrange(0, i as int).push(b@[i as int]));
        i = i + 1;
    }
    assert(a@ =~= a@.subrange(0, la as int));
    assert(b@ =~= b@.subrange(0, lb as int));
    true
}

impl Action {
    /// Reads an action word: `UP`, `DOWN`, `STAY` or `OPEN`.
    pub fn parse(word: &str) -> (r: Option<Action>)
        ensures
            r == action_named(word@),
    {
        if same_text(word, "UP") {
            Some(Action::Up)
        } else if same_text(word, "DOWN") {
            Some(Action::Down)
        } else if same_text(word, "STAY") {
            Some(Action::Stay)
        } else if same_text(word, "OPEN") {
            Some(Action::Open)
        } else {
            None
        }
    }
}


/// `d * d` when it fits in a `u64`.
fn square_checked(d: u128) -> (r: Option<u64>)
    ensures
        r matches Some(v) ==> v == d * d,
        r is None ==> d * d > u64::MAX,
{
    if d > 0xFFFF_FFFF {
        assert(d * d > u64::MAX) by (nonlinear_arith)
            requires
                d > 0xFFFF_FFFF,
        ;
        None
    } else {
        let x = d as u64;
        assert(x * x <= 0xFFFF_FFFF * 0xFFFF_FFFF) by (nonlinear_arith)
            requires
                x <= 0xFFFF_FFFF,
        ;
        Some(x * x)
    }
}

proof fn lemma_square_nonneg(d: int)
    ensures
        d * d >= 0,
{
    assert(d * d >= 0) by (nonlinear_arith);
}

/// Points earned on a prefix never exceed those earned on the whole.
proof fn lemma_delivered_prefix(ps: Seq<Passenger>, floor: nat, turn: nat, j: int)
    requires
        0 <= j <= ps.len(),
        arrived_by(ps, turn),
    ensures
        delivered_points(ps.subrange(0, j), floor, turn) <= delivered_points(ps, floor, turn),
    decreases ps.len(),
{
    if j < ps.len() {
        let q = ps.drop_last();
        assert(q.subrange(0, j) =~= ps.subrange(0, j));
        assert(arrived_by(q, turn)) by {
            assert forall|k: int| 0 <= k < q.len() implies (#[trigger] q[k]).arrival_turn <= turn by {
                assert(q[k] == ps[k]);
            }
        }
        lemma_delivered_prefix(q, floor, turn, j);
        lemma_square_nonneg(turn - ps.last().arrival_turn + 1);
    } else {
        assert(ps.subrange(0, j) =~= ps);
    }
}

/// Splits `ps` into those who stay aboard and the points that the others earn,
/// added to `score`; `None` when the sum does not fit in a `u64`.
fn drop_off(ps: &Vec<Passenger>, floor: usize, turn: usize, score: u64) -> (r: Option<(Vec<Passenger>, u64)>)
    requires
        arrived_by(ps@, turn as nat),
    ensures
        r is None ==> score + delivered_points(ps@, floor as nat, turn as nat) > u64::MAX,
        r matches Some(o) ==> {
            &&& o.0@ == staying(ps@, floor as nat)
            &&& o.1 == score + delivered_points(ps@, floor as nat, turn as nat)
        },
{
    let mut kept: Vec<Passenger> = Vec::new();
    let mut total: u64 = score;
    let mut i: usize = 0;
    while i < ps.len()
        invariant
            i <= ps@.len(),
            arrived_by(ps@, turn as nat),
            kept@ == staying(ps@.subrange(0, i as int), floor as nat),
            total == score + delivered_points(ps@.subrange(0, i as int), floor as nat, turn as nat),
        decreases ps@.len() - i,
    {
        let p = ps[i];
        let ghost pre = ps@.subrange(0, i as int);
        let ghost next = ps@.subrange(0, i + 1);
        assert(next.drop_last() =~= pre);
        assert(next.last() == p);
        assert(p.arrival_turn <= turn);
        if p.target_floor == floor {
            match square_checked((turn - p.arrival_turn) as u128 + 1) {
                None => {
                    proof {
                        lemma_square_nonneg(total - score);
                        lemma_delivered_prefix(ps@, floor as nat, turn as nat, i + 1);
                    }
                    return None;
                },
                Some(v) => {
                    if v > u64::MAX - total {
                        proof {
                            lemma_delivered_prefix(ps@, floor as nat, turn as nat, i + 1);
                        }
                        return None;
                    }
                    total = total + v;
                },
            }
        } else {
            kept.push(p);
        }
        i = i + 1;
    }
    assert(ps@.subrange(0, ps@.len() as int) =~= ps@);
    Some((kept, total))
}

proof fn lemma_insert_desc_at(s: Seq<usize>, x: usize, j: int)
    requires
        0 <= j <= s.len(),
        forall|k: int| 0 <= k < j ==> s[k] > x,
        j < s.len() ==> s[j] <= x,
    ensures
        insert_desc(s, x) == s.insert(j, x),
    decreases j,
{
    if j == 0 {
        assert(s.insert(0, x) =~= seq![x] + s);
    } else {
        let t = s.drop_first();
        assert forall|k: int| 0 <= k < j - 1 implies t[k] > x by {
            assert(t[k] == s[k + 1]);
        }
        lemma_insert_desc_at(t, x, j - 1);
        assert(s.insert(j, x) =~= seq![s[0]] + t.insert(j - 1, x));
    }
}

/// The pick-up positions from the largest down.
fn sorted_desc(picks: &[usize]) -> (r: Vec<usize>)
    ensures
        r@ == sort_desc(picks@),
{
    let mut out: Vec<usize> = Vec::new();
    let mut i: usize = 0;
    while i < picks.len()
        invariant
            i <= picks@.len(),
            out@ == sort_desc(picks@.subrange(0, i as int)),
        decreases picks@.len() - i,
    {
        let x = picks[i];
        let mut j: usize = 0;
        while j < out.len() && out[j] > x
            invariant
                j <= out@.len(),
                forall|k: int| 0 <= k < j ==> out@[k] > x,
            decreases out@.len() - j,
        {
            j = j + 1;
        }
        proof {
            lemma_insert_desc_at(out@, x, j as int);
            let next = picks@.subrange(0, i + 1);
            assert(next.drop_last() =~= picks@.subrange(0, i as int));
        }
        out.insert(j, x);
        i = i + 1;
    }
    assert(picks@.subrange(0, picks@.len() as int) =~= picks@);
    out
}

/// Moves passengers from `queue` into `aboard` as `pick_up` says.
fn pick_into(queue: &mut Vec<Passenger>, aboard: &mut Vec<Passenger>, cap: usize, idxs: &Vec<usize>) -> (r: Option<usize>)
    ensures
        (final(queue)@, final(aboard)@, r) == pick_up(old(queue)@, old(aboard)@, cap as nat, idxs@),
{
    let ghost goal = pick_up(queue@, aboard@, cap as nat, idxs@);
    let mut j: usize = 0;
    assert(idxs@.subrange(0, idxs@.len() as int) =~= idxs@);
    while j < idxs.len()
        invariant
            j <= idxs@.len(),
            goal == pick_up(old(queue)@, old(aboard)@, cap as nat, idxs@),
            pick_up(queue@, aboard@, cap as nat, idxs@.subrange(j as int, idxs@.len() as int)) == goal,
        decreases idxs@.len() - j,
    {
        let ghost rest = idxs@.subrange(j as int, idxs@.len() as int);
        assert(rest.drop_first() =~= idxs@.subrange(j + 1, idxs@.len() as int));
        assert(rest[0] == idxs@[j as int]);
        let idx = idxs[j];
        if idx >= queue.len() {
            assert(rest.len() > 0);
            assert(pick_up(queue@, aboard@, cap as nat, rest) == (queue@, aboard@, Some(idx)));
            return Some(idx);
        }
        if aboard.len() < cap {
            let p = queue.remove(idx);
            aboard.push(p);
        }
        j = j + 1;
    }
    assert(idxs@.subrange(j as int, idxs@.len() as int) =~= Seq::<usize>::empty());
    None
}


/// Those who stay aboard are no more than before, and none arrived later than `turn`.
pub(crate) proof fn lemma_staying(ps: Seq<Passenger>, floor: nat, turn: nat)
    requires
        arrived_by(ps, turn),
    ensures
        staying(ps, floor).len() <= ps.len(),
        arrived_by(staying(ps, floor), turn),
    decreases ps.len(),
{
    if ps.len() > 0 {
        let q = ps.drop_last();
        assert forall|k: int| 0 <= k < q.len() implies (#[trigger] q[k]).arrival_turn <= turn by {
            assert(q[k] == ps[k]);
        }
        lemma_staying(q, floor, turn);
        assert(ps.last() == ps[ps.len() - 1]);
    }
}

/// Picking up keeps every arrival turn at most `turn` and the car within `cap`.
pub(crate) proof fn lemma_pick_up_keeps(queue: Seq<Passenger>, aboard: Seq<Passenger>, cap: nat, idxs: Seq<usize>, turn: nat)
    requires
        arrived_by(queue, turn),
        arrived_by(aboard, turn),
        aboard.len() <= cap,
    ensures
        ({
            let r = pick_up(queue, aboard, cap, idxs);
            &&& arrived_by(r.0, turn)
            &&& arrived_by(r.1, turn)
            &&& r.1.len() <= cap
        }),
    decreases idxs.len(),
{
    if idxs.len() > 0 {
        let i = idxs[0] as int;
        if i < queue.len() && aboard.len() < cap {
            let q2 = queue.remove(i);
            let a2 = aboard.push(queue[i]);
            assert forall|k: int| 0 <= k < q2.len() implies (#[trigger] q2[k]).arrival_turn <= turn by {
                if k < i {
                    assert(q2[k] == queue[k]);
                } else {
                    assert(q2[k] == queue[k + 1]);
                }
            }
            assert forall|k: int| 0 <= k < a2.len() implies (#[trigger] a2[k]).arrival_turn <= turn by {
                if k < aboard.len() {
                    assert(a2[k] == aboard[k]);
                }
            }
            lemma_pick_up_keeps(q2, a2, cap, idxs.drop_first(), turn);
        } else if i < queue.len() {
            lemma_pick_up_keeps(queue, aboard, cap, idxs.drop_first(), turn);
        }
    }
}

/// The state at the start of a run: every car empty at floor `n / 2`, every queue empty.
pub open spec fn initial_state(n: nat, m: nat, c: nat, t: nat) -> SimView {
    SimView {
        n,
        m,
        c,
        t,
        turn: 0,
        score: 0,
        elevators: Seq::new(m, |i: int| ElevatorView { floor: n / 2, capacity: c, passengers: Seq::empty() }),
        waiting: Seq::new(n, |f: int| Seq::<Passenger>::empty()),
    }
}

/// What everyone in `ps` costs when the run ends undelivered.
pub open spec fn penalty_sum(ps: Seq<Passenger>, t: nat) -> int
    decreases ps.len(),
{
    if ps.len() == 0 {
        0
    } else {
        penalty_sum(ps.drop_last(), t) + penalty_points(t, ps.last().arrival_turn as nat)
    }
}

/// What everyone still waiting in the queues `qs` costs at the end.
pub open spec fn queues_penalty(qs: Seq<Seq<Passenger>>, t: nat) -> int
    decreases qs.len(),
{
    if qs.len() == 0 {
        0
    } else {
        queues_penalty(qs.drop_last(), t) + penalty_sum(qs.last(), t)
    }
}

/// What everyone still aboard the cars `es` costs at the end.
pub open spec fn cars_penalty(es: Seq<ElevatorView>, t: nat) -> int
    decreases es.len(),
{
    if es.len() == 0 {
        0
    } else {
        cars_penalty(es.drop_last(), t) + penalty_sum(es.last().passengers, t)
    }
}

/// The score of a run that ends in state `s`: what deliveries earned, plus the
/// cost of every passenger still waiting or aboard.
pub open spec fn final_score(s: SimView) -> int {
    s.score + queues_penalty(s.waiting, s.t) + cars_penalty(s.elevators, s.t)
}

proof fn lemma_penalty_prefix(ps: Seq<Passenger>, t: nat, j: int)
    requires
        0 <= j <= ps.len(),
    ensures
        0 <= penalty_sum(ps.subrange(0, j), t) <= penalty_sum(ps, t),
    decreases ps.len(),
{
    if j < ps.len() {
        let q = ps.drop_last();
        assert(q.subrange(0, j) =~= ps.subrange(0, j));
        lemma_penalty_prefix(q, t, j);
        lemma_square_nonneg(t - ps.last().arrival_turn);
    } else {
        assert(ps.subrange(0, j) =~= ps);
        if ps.len() > 0 {
            lemma_penalty_prefix(ps.drop_last(), t, 0);
            assert(ps.drop_last().subrange(0, 0) =~= Seq::<Passenger>::empty());
            lemma_square_nonneg(t - ps.last().arrival_turn);
        }
    }
}

proof fn lemma_queues_prefix(qs: Seq<Seq<Passenger>>, t: nat, j: int)
    requires
        0 <= j <= qs.len(),
    ensures
        0 <= queues_penalty(qs.subrange(0, j), t) <= queues_penalty(qs, t),
    decreases qs.len(),
{
    if qs.len() > 0 {
        let q = qs.drop_last();
        if j < qs.len() {
            assert(q.subrange(0, j) =~= qs.subrange(0, j));
            lemma_queues_prefix(q, t, j);
        } else {
            assert(qs.subrange(0, j) =~= qs);
            lemma_queues_prefix(q, t, 0);
        }
        lemma_penalty_prefix(qs.last(), t, 0);
    } else {
        assert(qs.subrange(0, j) =~= qs);
    }
}

proof fn lemma_cars_prefix(es: Seq<ElevatorView>, t: nat, j: int)
    requires
        0 <= j <= es.len(),
    ensures
        0 <= cars_penalty(es.subrange(0, j), t) <= cars_penalty(es, t),
    decreases es.len(),
{
    if es.len() > 0 {
        let q = es.drop_last();
        if j < es.len() {
            assert(q.subrange(0, j) =~= es.subrange(0, j));
            lemma_cars_prefix(q, t, j);
        } else {
            assert(es.subrange(0, j) =~= es);
            lemma_cars_prefix(q, t, 0);
        }
        lemma_penalty_prefix(es.last().passengers, t, 0);
    } else {
        assert(es.subrange(0, j) =~= es);
    }
}

/// `total` plus what everyone in `ps` costs at the end, when that fits in a `u64`.
fn add_penalties(total: u64, ps: &Vec<Passenger>, t: usize) -> (r: Option<u64>)
    requires
        arrived_by(ps@, t as nat),
    ensures
        r matches Some(v) ==> v == total + penalty_sum(ps@, t as nat),
        r is None ==> total + penalty_sum(ps@, t as nat) > u64::MAX,
{
    let mut acc: u64 = total;
    let mut k: usize = 0;
    while k < ps.len()
        invariant
            k <= ps@.len(),
            arrived_by(ps@, t as nat),
            acc == total + penalty_sum(ps@.subrange(0, k as int), t as nat),
        decreases ps@.len() - k,
    {
        let a = ps[k].arrival_turn;
        assert(ps@[k as int].arrival_turn <= t);
        let ghost next = ps@.subrange(0, k + 1);
        assert(next.drop_last() =~= ps@.subrange(0, k as int));
        match square_checked((t - a) as u128) {
            None => {
                proof {
                    lemma_penalty_prefix(ps@, t as nat, k + 1);
                    lemma_penalty_prefix(ps@.subrange(0, k + 1), t as nat, k as int);
                    assert(ps@.subrange(0, k + 1).subrange(0, k as int) =~= ps@.subrange(0, k as int));
                }
                return None;
            },
            Some(v) => {
                if v > u64::MAX - acc {
                    proof {
                        lemma_penalty_prefix(ps@, t as nat, k + 1);
                    }
                    return None;
                }
                acc = acc + v;
            },
        }
        k = k + 1;
    }
    assert(ps@.subrange(0, ps@.len() as int) =~= ps@);
    Some(acc)
}

impl SimulationState {
    pub open spec fn wf(&self) -> bool {
        self@.wf()
    }

    /// A run of `t` turns with `n` floors and `m` empty cars of capacity `c`.
    pub fn new(n: usize, m: usize, c: usize, t: usize) -> (r: Self)
        requires
            n >= 1,
        ensures
            r.wf(),
            r@ == initial_state(n as nat, m as nat, c as nat, t as nat),
    {
        let mut elevators: Vec<Elevator> = Vec::new();
        let mut i: usize = 0;
        while i < m
            invariant
                i <= m,
                elevators@.len() == i,
                forall|k: int| 0 <= k < i ==> (#[trigger] elevators@[k])@ == (ElevatorView {
                    floor: n as nat / 2,
                    capacity: c as nat,
                    passengers: Seq::empty(),
                }),
            decreases m - i,
        {
            elevators.push(Elevator { floor: n / 2, capacity: c, passengers: Vec::new() });
            i = i + 1;
        }
        let mut waiting_passengers: Vec<Vec<Passenger>> = Vec::new();
        let mut f: usize = 0;
        while f < n
            invariant
                f <= n,
                waiting_passengers@.len() == f,
                forall|k: int| 0 <= k < f ==> (#[trigger] waiting_passengers@[k])@ == Seq::<Passenger>::empty(),
            decreases n - f,
        {
            waiting_passengers.push(Vec::new());
            f = f + 1;
        }
        let r = SimulationState { n, m, c, t, turn: 0, score: 0, elevators, waiting_passengers };
        assert(r@.elevators =~= initial_state(n as nat, m as nat, c as nat, t as nat).elevators);
        assert(r@.waiting =~= initial_state(n as nat, m as nat, c as nat, t as nat).waiting);
        r
    }

    /// Gives car `elevator_idx` one action for this turn. `picks` are the queue
    /// positions to take on `OPEN`, and are ignored otherwise.
    pub fn apply(&mut self, elevator_idx: usize, action: Action, picks: &[usize]) -> (r: Result<(), ActionError>)
        requires
            old(self).wf(),
        ensures
            final(self).wf(),
            (final(self)@, r) == step(old(self)@, elevator_idx, action, picks@),
    {
        if elevator_idx >= self.m {
            return Err(ActionError::InvalidElevatorIndex(elevator_idx));
        }
        let ghost s0 = self@;
        let ghost el0 = s0.elevators[elevator_idx as int];
        assert(self.elevators@[elevator_idx as int]@ == el0);
        match action {
            Action::Up => {
                let f = self.elevators[elevator_idx].floor;
                let nf = if f + 1 <= self.n - 1 {
                    f + 1
                } else {
                    self.n - 1
                };
                self.elevators[elevator_idx].floor = nf;
                assert(self@.elevators =~= s0.elevators.update(
                    elevator_idx as int,
                    ElevatorView { floor: moved_up(el0.floor, s0.n), ..el0 },
                ));
                Ok(())
            },
            Action::Down => {
                let f = self.elevators[elevator_idx].floor;
                let nf = if f >= 1 {
                    f - 1
                } else {
                    0
                };
                self.elevators[elevator_idx].floor = nf;
                assert(self@.elevators =~= s0.elevators.update(
                    elevator_idx as int,
                    ElevatorView { floor: moved_down(el0.floor), ..el0 },
                ));
                Ok(())
            },
            Action::Stay => Ok(()),
            Action::Open => {
                let f = self.elevators[elevator_idx].floor;
                let cap = self.elevators[elevator_idx].capacity;
                match drop_off(&self.elevators[elevator_idx].passengers, f, self.turn, self.score) {
                    None => Err(ActionError::ScoreOverflow),
                    Some((kept, total)) => {
                        let order = sorted_desc(picks);
                        let mut aboard = kept;
                        proof {
                            lemma_staying(el0.passengers, el0.floor, s0.turn);
                            assert(s0.waiting[f as int] == self.waiting_passengers@[f as int]@);
                            lemma_pick_up_keeps(s0.waiting[f as int], aboard@, cap as nat, order@, s0.turn);
                        }
                        let bad = pick_into(&mut self.waiting_passengers[f], &mut aboard, cap, &order);
                        self.elevators[elevator_idx].passengers = aboard;
                        self.score = total;
                        let ghost res = pick_up(
                            s0.waiting[f as int],
                            staying(el0.passengers, el0.floor),
                            el0.capacity,
                            sort_desc(picks@),
                        );
                        assert(self@.elevators =~= s0.elevators.update(
                            elevator_idx as int,
                            ElevatorView { passengers: res.1, ..el0 },
                        ));
                        assert(self@.waiting =~= s0.waiting.update(f as int, res.0));
                        match bad {
                            None => Ok(()),
                            Some(i) => Err(ActionError::InvalidPassengerIndex { index: i, floor: f }),
                        }
                    },
                }
            },
        }
    }

    /// Like `apply`, with the action given as its word.
    pub fn apply_action(&mut self, elevator_idx: usize, action: &str, picks: &[usize]) -> (r: Result<(), ActionError>)
        requires
            old(self).wf(),
        ensures
            final(self).wf(),
            elevator_idx >= old(self).m ==> r == Err::<(), ActionError>(ActionError::InvalidElevatorIndex(elevator_idx))
                && final(self)@ == old(self)@,
            elevator_idx < old(self).m && action_named(action@) is None ==> r == Err::<(), ActionError>(ActionError::UnknownAction)
                && final(self)@ == old(self)@,
            elevator_idx < old(self).m ==> (action_named(action@) matches Some(a) ==> (final(self)@, r) == step(
                old(self)@,
                elevator_idx,
                a,
                picks@,
            )),
    {
        if elevator_idx >= self.m {
            return Err(ActionError::InvalidElevatorIndex(elevator_idx));
        }
        match Action::parse(action) {
            None => Err(ActionError::UnknownAction),
            Some(a) => self.apply(elevator_idx, a, picks),
        }
    }

    /// The final score: the score so far plus `(t - arrival)²` for every
    /// passenger still waiting or aboard; `None` when it does not fit in a `u64`.
    pub fn calculate_final_score(&self) -> (r: Option<u64>)
        requires
            self.wf(),
        ensures
            r matches Some(v) ==> v == final_score(self@),
            r is None ==> final_score(self@) > u64::MAX,
    {
        let ghost s = self@;
        proof {
            lemma_queues_prefix(s.waiting, s.t, s.waiting.len() as int);
            lemma_cars_prefix(s.elevators, s.t, s.elevators.len() as int);
            assert(s.waiting.subrange(0, s.waiting.len() as int) =~= s.waiting);
            assert(s.elevators.subrange(0, s.elevators.len() as int) =~= s.elevators);
        }
        let mut total: u64 = self.score;
        let mut f: usize = 0;
        while f < self.waiting_passengers.len()
            invariant
                s == self@,
                s.wf(),
                f <= s.waiting.len(),
                total == s.score + queues_penalty(s.waiting.subrange(0, f as int), s.t),
            decreases s.waiting.len() - f,
        {
            let ghost next = s.waiting.subrange(0, f + 1);
            assert(next.drop_last() =~= s.waiting.subrange(0, f as int));
            assert(self.waiting_passengers@[f as int]@ == s.waiting[f as int]);
            assert(arrived_by(s.waiting[f as int], s.t)) by {
                let q = s.waiting[f as int];
                assert forall|k: int| 0 <= k < q.len() implies (#[trigger] q[k]).arrival_turn <= s.t by {
                    assert(arrived_by(q, s.turn));
                }
            }
            match add_penalties(total, &self.waiting_passengers[f], self.t) {
                None => {
                    proof {
                        lemma_queues_prefix(s.waiting, s.t, f + 1);
                        lemma_cars_prefix(s.elevators, s.t, 0);
                        assert(next.last() == s.waiting[f as int]);
                    }
                    return None;
                },
                Some(v) => {
                    total = v;
                },
            }
            f = f + 1;
        }
        let mut e: usize = 0;
        while e < self.elevators.len()
            invariant
                s == self@,
                s.wf(),
                e <= s.elevators.len(),
                total == s.score + queues_penalty(s.waiting, s.t) + cars_penalty(s.elevators.subrange(0, e as int), s.t),
            decreases s.elevators.len() - e,
        {
            let ghost next = s.elevators.subrange(0, e + 1);
            assert(next.drop_last() =~= s.elevators.subrange(0, e as int));
            assert(self.elevators@[e as int]@ == s.elevators[e as int]);
            assert(arrived_by(s.elevators[e as int].passengers, s.t)) by {
                let q = s.elevators[e as int].passengers;
                assert forall|k: int| 0 <= k < q.len() implies (#[trigger] q[k]).arrival_turn <= s.t by {
                    assert(arrived_by(q, s.turn));
                }
            }
            match add_penalties(total, &self.elevators[e].passengers, self.t) {
                None => {
                    proof {
                        lemma_cars_prefix(s.elevators, s.t, e + 1);
                        assert(next.last() == s.elevators[e as int]);
                    }
                    return None;
                },
                Some(v) => {
                    total = v;
                },
            }
            e = e + 1;
        }
        Some(total)
    }

    /// Puts a new passenger at the back of the queue of `floor`.
    pub fn add_passenger(&mut self, floor: usize, target: usize, arrival_turn: usize, id: usize)
        requires
            old(self).wf(),
            floor < old(self).n,
            arrival_turn <= old(self).turn,
        ensures
            final(self).wf(),
            final(self)@ == (SimView {
                waiting: old(self)@.waiting.update(
                    floor as int,
                    old(self)@.waiting[floor as int].push(Passenger { id, arrival_turn, target_floor: target }),
                ),
                ..old(self)@
            }),
    {
        let p = Passenger { id, arrival_turn, target_floor: target };
        self.waiting_passengers[floor].push(p);
        let ghost s0 = old(self)@;
        assert(self@.waiting =~= s0.waiting.update(floor as int, s0.waiting[floor as int].push(p)));
        assert(arrived_by(self@.waiting[floor as int], self.turn as nat)) by {
            let q = self@.waiting[floor as int];
            assert forall|k: int| 0 <= k < q.len() implies (#[trigger] q[k]).arrival_turn <= self.turn by {
                if k < q.len() - 1 {
                    assert(q[k] == s0.waiting[floor as int][k]);
                }
            }
        }
    }
}

impl Elevator {
    /// How many are aboard.
    pub fn passenger_count(&self) -> (r: usize)
        ensures
            r == self.passengers@.len(),
    {
        self.passengers.len()
    }

    /// The destination of the `idx`-th passenger aboard.
    pub fn get_passenger_target(&self, idx: usize) -> (r: usize)
        requires
            idx < self.passengers@.len(),
        ensures
            r == self.passengers@[idx as int].target_floor,
    {
        self.passengers[idx].target_floor
    }

    /// The arrival turn of the `idx`-th passenger aboard.
    pub fn get_passenger_arrival_turn(&self, idx: usize) -> (r: usize)
        requires
            idx < self.passengers@.len(),
        ensures
            r == self.passengers@[idx as int].arrival_turn,
    {
        self.passengers[idx].arrival_turn
    }
}

impl SimulationState {
    /// The floor of car `idx`.
    pub fn get_elevator_floor(&self, idx: usize) -> (r: usize)
        requires
            idx < self.elevators@.len(),
        ensures
            r == self@.elevators[idx as int].floor,
    {
        self.elevators[idx].floor
    }

    /// How many are aboard car `idx`.
    pub fn get_elevator_passenger_count(&self, idx: usize) -> (r: usize)
        requires
            idx < self.elevators@.len(),
        ensures
            r == self@.elevators[idx as int].passengers.len(),
    {
        self.elevators[idx].passengers.len()
    }

    /// The destination of the `p_idx`-th passenger aboard car `elevator_idx`.
    pub fn get_elevator_passenger_target(&self, elevator_idx: usize, p_idx: usize) -> (r: usize)
        requires
            elevator_idx < self.elevators@.len(),
            p_idx < self@.elevators[elevator_idx as int].passengers.len(),
        ensures
            r == self@.elevators[elevator_idx as int].passengers[p_idx as int].target_floor,
    {
        self.elevators[elevator_idx].passengers[p_idx].target_floor
    }

    /// How many wait at `floor`.
    pub fn get_waiting_passenger_count(&self, floor: usize) -> (r: usize)
        requires
            floor < self.waiting_passengers@.len(),
        ensures
            r == self@.waiting[floor as int].len(),
    {
        self.waiting_passengers[floor].len()
    }

    /// The destination of the `p_idx`-th passenger waiting at `floor`.
    pub fn get_waiting_passenger_target(&self, floor: usize, p_idx: usize) -> (r: usize)
        requires
            floor < self.waiting_passengers@.len(),
            p_idx < self@.waiting[floor as int].len(),
        ensures
            r == self@.waiting[floor as int][p_idx as int].target_floor,
    {
        self.waiting_passengers[floor][p_idx].target_floor
    }

    /// The arrival turn of the `p_idx`-th passenger waiting at `floor`.
    pub fn get_waiting_passenger_arrival_turn(&self, floor: usize, p_idx: usize) -> (r: usize)
        requires
            floor < self.waiting_passengers@.len(),
            p_idx < self@.waiting[floor as int].len(),
        ensures
            r == self@.waiting[floor as int][p_idx as int].arrival_turn,
    {
        self.waiting_passengers[floor][p_idx].arrival_turn
    }
}

/// A copy of the state at the end of a turn.
pub struct Snapshot {
    pub turn: usize,
    pub score: u64,
    pub elevators: Vec<ElevatorSnapshot>,
    pub floors: Vec<FloorSnapshot>,
}

/// A copy of one car.
pub struct ElevatorSnapshot {
    pub floor: usize,
    pub passenger_count: usize,
    pub passengers: Vec<Passenger>,
}

/// A copy of one floor's queue.
pub struct FloorSnapshot {
    pub waiting_count: usize,
    pub waiting: Vec<Passenger>,
}

fn copy_passengers(ps: &Vec<Passenger>) -> (r: Vec<Passenger>)
    ensures
        r@ == ps@,
{
    let mut out: Vec<Passenger> = Vec::new();
    let mut i: usize = 0;
    while i < ps.len()
        invariant
            i <= ps@.len(),
            out@ == ps@.subrange(0, i as int),
        decreases ps@.len() - i,
    {
        out.push(ps[i]);
        assert(ps@.subrange(0, i + 1) =~= ps@.subrange(0, i as int).push(ps@[i as int]));
        i = i + 1;
    }
    assert(ps@.subrange(0, ps@.len() as int) =~= ps@);
    out
}

impl SimulationState {
    /// A copy of the turn, the score, every car and every queue.
    pub fn create_snapshot(&self) -> (r: Snapshot)
        ensures
            r.turn == self.turn,
            r.score == self.score,
            r.elevators@.len() == self.elevators@.len(),
            forall|i: int|
                0 <= i < r.elevators@.len() ==> {
                    let x = #[trigger] r.elevators@[i];
                    &&& x.floor == self.elevators@[i].floor
                    &&& x.passenger_count == self.elevators@[i].passengers@.len()
                    &&& x.passengers@ == self.elevators@[i].passengers@
                },
            r.floors@.len() == self.waiting_passengers@.len(),
            forall|f: int|
                0 <= f < r.floors@.len() ==> {
                    let x = #[trigger] r.floors@[f];
                    &&& x.waiting_count == self.waiting_passengers@[f]@.len()
                    &&& x.waiting@ == self.waiting_passengers@[f]@
                },
    {
        let mut elevators: Vec<ElevatorSnapshot> = Vec::new();
        let mut i: usize = 0;
        while i < self.elevators.len()
            invariant
                i <= self.elevators@.len(),
                elevators@.len() == i,
                forall|k: int|
                    0 <= k < i ==> {
                        let x = #[trigger] elevators@[k];
                        &&& x.floor == self.elevators@[k].floor
                        &&& x.passenger_count == self.elevators@[k].passengers@.len()
                        &&& x.passengers@ == self.elevators@[k].passengers@
                    },
            decreases self.elevators@.len() - i,
        {
            let el = &self.elevators[i];
            elevators.push(
                ElevatorSnapshot {
                    floor: el.floor,
                    passenger_count: el.passengers.len(),
                    passengers: copy_passengers(&el.passengers),
                },
            );
            i = i + 1;
        }
        let mut floors: Vec<FloorSnapshot> = Vec::new();
        let mut f: usize = 0;
        while f < self.waiting_passengers.len()
            invariant
                f <= self.waiting_passengers@.len(),
                floors@.len() == f,
                forall|k: int|
                    0 <= k < f ==> {
                        let x = #[trigger] floors@[k];
                        &&& x.waiting_count == self.waiting_passengers@[k]@.len()
                        &&& x.waiting@ == self.waiting_passengers@[k]@
                    },
            decreases self.waiting_passengers@.len() - f,
        {
            let q = &self.waiting_passengers[f];
            floors.push(FloorSnapshot { waiting_count: q.len(), waiting: copy_passengers(q) });
            f = f + 1;
        }
        Snapshot { turn: self.turn, score: self.score, elevators, floors }
    }
}

} // verus!
