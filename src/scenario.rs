use vstd::prelude::*;
use crate::engine::{arrived_by, Passenger, SimView, SimulationState};
use crate::text::{parse_usize, split_words, usize_value, words};

verus! {

/// Why a scenario file could not be read.
#[derive(Clone, Copy, Debug, PartialEq, Eq, Structural)]
pub enum ScenarioError {
    /// A count or a floor is missing or is not a number.
    Malformed,
    /// The building has no floor.
    NoFloors,
}

/// A scenario: the parameters, the arrival rate as written, and for each floor
/// and turn (at `floor * t + turn`) the passengers who arrive there then.
pub struct Scenario {
    pub n: usize,
    pub m: usize,
    pub c: usize,
    pub t: usize,
    pub lambda: Vec<u8>,
    pub arrivals: Vec<Vec<Passenger>>,
}

/// The passengers of one cell: `k` destinations written at `ws[pos..pos + k]`,
/// numbered from `id`, arriving at `turn`.
pub open spec fn cell_at(ws: Seq<Seq<u8>>, pos: int, k: nat, turn: nat, id: nat) -> Seq<Passenger> {
    Seq::new(k, |j: int| Passenger { id: (id + j) as usize, arrival_turn: turn as usize, target_floor: usize_value(ws[pos + j]).unwrap() })
}

/// Reads `count` cells from `ws[pos..]`, the first of index `idx`: each a count
/// followed by that many destinations. Passengers are numbered on from `id`.
pub open spec fn read_cells(ws: Seq<Seq<u8>>, pos: nat, count: nat, idx: nat, t: nat, id: nat) -> Option<Seq<Seq<Passenger>>>
    decreases count,
{
    if count == 0 {
        Some(Seq::empty())
    } else if pos >= ws.len() {
        None
    } else {
        match usize_value(ws[pos as int]) {
            None => None,
            Some(k) => if pos + 1 + k > ws.len() {
                None
            } else if !(forall|j: int| pos + 1 <= j < pos + 1 + k ==> (#[trigger] usize_value(ws[j])) is Some) {
                None
            } else {
                match read_cells(ws, (pos + 1 + k) as nat, (count - 1) as nat, idx + 1, t, (id + k) as nat) {
                    None => None,
                    Some(rest) => Some(seq![cell_at(ws, pos + 1 as int, k as nat, idx % t, id)] + rest),
                }
            },
        }
    }
}

/// What a scenario text holds: `n m c t λ`, then for each floor and each turn a
/// count and that many destinations.
pub open spec fn scenario_of(text: Seq<u8>) -> Result<(usize, usize, usize, usize, Seq<u8>, Seq<Seq<Passenger>>), ScenarioError> {
    let ws = words(text);
    if ws.len() < 5 || usize_value(ws[0]) is None || usize_value(ws[1]) is None || usize_value(ws[2]) is None
        || usize_value(ws[3]) is None {
        Err(ScenarioError::Malformed)
    } else {
        let n = usize_value(ws[0]).unwrap();
        let t = usize_value(ws[3]).unwrap();
        match read_cells(ws, 5, (n * t) as nat, 0, t as nat, 0) {
            None => Err(ScenarioError::Malformed),
            Some(cells) => if n == 0 {
                Err(ScenarioError::NoFloors)
            } else {
                Ok((n, usize_value(ws[1]).unwrap(), usize_value(ws[2]).unwrap(), t, ws[4], cells))
            },
        }
    }
}

proof fn lemma_read_cells_shape(ws: Seq<Seq<u8>>, pos: nat, count: nat, idx: nat, t: nat, id: nat)
    requires
        read_cells(ws, pos, count, idx, t, id) is Some,
        count == 0 || 0 < t <= usize::MAX,
    ensures
        ({
            let cells = read_cells(ws, pos, count, idx, t, id).unwrap();
            &&& cells.len() == count
            &&& forall|j: int, k: int|
                0 <= j < cells.len() && 0 <= k < cells[j].len() ==> (#[trigger] cells[j][k]).arrival_turn == (idx + j)
                    % (t as int)
        }),
    decreases count,
{
    if count > 0 {
        let k = usize_value(ws[pos as int]).unwrap();
        lemma_read_cells_shape(ws, (pos + 1 + k) as nat, (count - 1) as nat, idx + 1, t, (id + k) as nat);
        let cells = read_cells(ws, pos, count, idx, t, id).unwrap();
        let rest = read_cells(ws, (pos + 1 + k) as nat, (count - 1) as nat, idx + 1, t, (id + k) as nat).unwrap();
        assert forall|j: int, q: int|
            0 <= j < cells.len() && 0 <= q < cells[j].len() implies (#[trigger] cells[j][q]).arrival_turn == (idx + j) % (
            t as int) by {
            if j > 0 {
                assert(cells[j] == rest[j - 1]);
            } else {
                assert(idx % t < t);
            }
        }
    }
}

/// Reads the `k` destinations at `ws[pos..pos + k]` as one cell.
fn read_cell(ws: &Vec<Vec<u8>>, pos: usize, k: usize, turn: usize, id: usize) -> (r: Option<Vec<Passenger>>)
    requires
        pos + k <= ws@.len(),
        id + k <= usize::MAX,
    ensures
        ({
            let wv = ws@.map_values(|w: Vec<u8>| w@);
            let ok = forall|q: int| pos <= q < pos + k ==> (#[trigger] usize_value(wv[q])) is Some;
            &&& r is None <==> !ok
            &&& r matches Some(cell) ==> cell@ == cell_at(wv, pos as int, k as nat, turn as nat, id as nat)
        }),
{
    let ghost wv = ws@.map_values(|w: Vec<u8>| w@);
    let len = ws.len();
    let mut cell: Vec<Passenger> = Vec::new();
    let mut j: usize = 0;
    while j < k
        invariant
            wv == ws@.map_values(|w: Vec<u8>| w@),
            j <= k,
            len == ws@.len(),
            pos + k <= len,
            id + k <= usize::MAX,
            forall|q: int| pos <= q < pos + j ==> (#[trigger] usize_value(wv[q])) is Some,
            cell@ =~= cell_at(wv, pos as int, j as nat, turn as nat, id as nat),
        decreases k - j,
    {
        assert(ws@[pos + j]@ == wv[pos + j]);
        let target = match parse_usize(ws[pos + j].as_slice()) {
            None => {
                assert(usize_value(wv[pos + j]) is None);
                return None;
            },
            Some(v) => v,
        };
        cell.push(Passenger { id: id + j, arrival_turn: turn, target_floor: target });
        j = j + 1;
    }
    assert(cell@ =~= cell_at(wv, pos as int, k as nat, turn as nat, id as nat));
    Some(cell)
}

impl Scenario {
    /// One cell per floor and turn, each passenger arriving at its cell's turn.
    pub open spec fn wf(&self) -> bool {
        &&& self.n >= 1
        &&& self.arrivals@.len() == self.n * self.t
        &&& forall|i: int, k: int|
            0 <= i < self.arrivals@.len() && 0 <= k < self.arrivals@[i]@.len() ==> (
            #[trigger] self.arrivals@[i]@[k]).arrival_turn == i % (self.t as int)
    }

    /// Reads a scenario text.
    pub fn parse(text: &[u8]) -> (r: Result<Scenario, ScenarioError>)
        ensures
            r matches Ok(sc) ==> sc.wf() && scenario_of(text@) == Ok::<
                (usize, usize, usize, usize, Seq<u8>, Seq<Seq<Passenger>>),
                ScenarioError,
            >((sc.n, sc.m, sc.c, sc.t, sc.lambda@, sc.arrivals@.map_values(|v: Vec<Passenger>| v@))),
            r matches Err(e) ==> scenario_of(text@) == Err::<
                (usize, usize, usize, usize, Seq<u8>, Seq<Seq<Passenger>>),
                ScenarioError,
            >(e),
    {
        let ws = split_words(text);
        let len = ws.len();
        let ghost wv = ws@.map_values(|w: Vec<u8>| w@);
        if len < 5 {
            return Err(ScenarioError::Malformed);
        }
        assert(forall|i: int| 0 <= i < 5 ==> ws@[i]@ == #[trigger] wv[i]);
        let n = match parse_usize(ws[0].as_slice()) {
            None => {
                return Err(ScenarioError::Malformed);
            },
            Some(v) => v,
        };
        let m = match parse_usize(ws[1].as_slice()) {
            None => {
                return Err(ScenarioError::Malformed);
            },
            Some(v) => v,
        };
        let c = match parse_usize(ws[2].as_slice()) {
            None => {
                return Err(ScenarioError::Malformed);
            },
            Some(v) => v,
        };
        let t = match parse_usize(ws[3].as_slice()) {
            None => {
                return Err(ScenarioError::Malformed);
            },
            Some(v) => v,
        };
        let lambda = ws[4].clone();
        assert(lambda@ =~= ws@[4]@);
        assert(n as u128 * t as u128 <= u128::MAX) by (nonlinear_arith)
            requires
                n <= 0xFFFF_FFFF_FFFF_FFFFu64,
                t <= 0xFFFF_FFFF_FFFF_FFFFu64,
        ;
        let total: u128 = n as u128 * t as u128;
        let ghost goal = read_cells(wv, 5, total as nat, 0, t as nat, 0);
        let mut cells: Vec<Vec<Passenger>> = Vec::new();
        let mut done: u128 = 0;
        let mut pos: usize = 5;
        let mut id: usize = 0;
        while done < total
            invariant
                wv == ws@.map_values(|w: Vec<u8>| w@),
                wv == words(text@),
                len == ws@.len(),
                len >= 5,
                usize_value(wv[0]) == Some(n),
                usize_value(wv[1]) == Some(m),
                usize_value(wv[2]) == Some(c),
                usize_value(wv[3]) == Some(t),
                lambda@ == wv[4],
                total == n * t,
                goal == read_cells(wv, 5, total as nat, 0, t as nat, 0),
                done <= total,
                id <= pos <= len,
                read_cells(wv, pos as nat, (total - done) as nat, done as nat, t as nat, id as nat) matches Some(rest)
                    ==> goal == Some(cells@.map_values(|v: Vec<Passenger>| v@) + rest),
                read_cells(wv, pos as nat, (total - done) as nat, done as nat, t as nat, id as nat) is None ==> goal is None,
            decreases total - done,
        {
            let ghost here = read_cells(wv, pos as nat, (total - done) as nat, done as nat, t as nat, id as nat);
            if pos >= len {
                assert(here is None);
                return Err(ScenarioError::Malformed);
            }
            assert(ws@[pos as int]@ == wv[pos as int]);
            let k = match parse_usize(ws[pos].as_slice()) {
                None => {
                    assert(here is None);
                    return Err(ScenarioError::Malformed);
                },
                Some(v) => v,
            };
            if k >= len - pos {
                assert(here is None);
                return Err(ScenarioError::Malformed);
            }
            assert(t > 0) by {
                if t == 0 {
                    assert(n as u128 * 0 == 0);
                }
            }
            let turn: usize = (done % (t as u128)) as usize;
            let cell = match read_cell(&ws, pos + 1, k, turn, id) {
                None => {
                    assert(here is None);
                    return Err(ScenarioError::Malformed);
                },
                Some(cell) => cell,
            };
            assert(turn as nat == done as nat % t as nat);
            let ghost before = cells@.map_values(|v: Vec<Passenger>| v@);
            cells.push(cell);
            assert(cells@.map_values(|v: Vec<Passenger>| v@) =~= before.push(cell@));
            proof {
                let nexts = read_cells(wv, (pos + 1 + k) as nat, (total - done - 1) as nat, (done + 1) as nat, t as nat, (id + k) as nat);
                if let Some(rest) = nexts {
                    assert(here == Some(seq![cell@] + rest));
                    assert(before + (seq![cell@] + rest) =~= before.push(cell@) + rest);
                }
            }
            pos = pos + 1 + k;
            id = id + k;
            done = done + 1;
        }
        assert(read_cells(wv, pos as nat, 0, done as nat, t as nat, id as nat) == Some(Seq::<Seq<Passenger>>::empty()));
        assert(cells@.map_values(|v: Vec<Passenger>| v@) + Seq::<Seq<Passenger>>::empty() =~= cells@.map_values(
            |v: Vec<Passenger>| v@,
        ));
        if n == 0 {
            return Err(ScenarioError::NoFloors);
        }
        let sc = Scenario { n, m, c, t, lambda, arrivals: cells };
        proof {
            if total > 0 {
                assert(t > 0) by {
                    if t == 0 {
                        assert(n as u128 * 0 == 0);
                    }
                }
            }
            lemma_read_cells_shape(wv, 5, total as nat, 0, t as nat, 0);
            let cv = sc.arrivals@.map_values(|v: Vec<Passenger>| v@);
            assert(forall|i: int| 0 <= i < sc.arrivals@.len() ==> #[trigger] sc.arrivals@[i]@ == cv[i]);
        }
        Ok(sc)
    }
}

/// The queues after the arrivals of `turn` join them, floor by floor.
pub open spec fn queues_after_arrivals(s: SimView, sc: Seq<Seq<Passenger>>, t: nat, turn: nat) -> Seq<Seq<Passenger>> {
    Seq::new(s.waiting.len(), |f: int| s.waiting[f] + sc[f * t + turn])
}

proof fn lemma_cell_in_range(f: int, turn: int, n: int, t: int)
    requires
        0 <= f < n,
        0 <= turn < t,
    ensures
        0 <= f * t + turn < n * t,
{
    assert(0 <= f * t + turn < n * t) by (nonlinear_arith)
        requires
            0 <= f < n,
            0 <= turn < t,
    ;
}

impl SimulationState {
    /// Starts turn `turn`: the passengers that the scenario brings to each floor
    /// at this turn join the back of its queue.
    pub fn begin_turn(&mut self, sc: &Scenario, turn: usize)
        requires
            old(self).wf(),
            sc.wf(),
            sc.n == old(self).n,
            sc.t == old(self).t,
            old(self).turn <= turn < old(self).t,
        ensures
            final(self).wf(),
            final(self)@ == (SimView {
                turn: turn as nat,
                waiting: queues_after_arrivals(
                    old(self)@,
                    sc.arrivals@.map_values(|v: Vec<Passenger>| v@),
                    sc.t as nat,
                    turn as nat,
                ),
                ..old(self)@
            }),
    {
        let ghost s0 = self@;
        let ghost cells = sc.arrivals@.map_values(|v: Vec<Passenger>| v@);
        self.turn = turn;
        let mut f: usize = 0;
        while f < self.waiting_passengers.len()
            invariant
                s0.wf(),
                sc.wf(),
                cells == sc.arrivals@.map_values(|v: Vec<Passenger>| v@),
                sc.n == s0.n,
                sc.t == s0.t,
                s0.turn <= turn < s0.t,
                self@ == (SimView { turn: turn as nat, waiting: self@.waiting, ..s0 }),
                self@.waiting.len() == s0.n,
                f <= s0.n,
                forall|g: int| 0 <= g < f ==> #[trigger] self@.waiting[g] == s0.waiting[g] + cells[g * s0.t + turn],
                forall|g: int| f <= g < s0.n ==> #[trigger] self@.waiting[g] == s0.waiting[g],
            decreases s0.n - f,
        {
            proof {
                lemma_cell_in_range(f as int, turn as int, s0.n as int, s0.t as int);
            }
            let cell_count = sc.arrivals.len();
            assert(f * sc.t <= f * sc.t + turn < cell_count);
            let idx = f * sc.t + turn;
            let ghost q0 = self@.waiting[f as int];
            let mut k: usize = 0;
            let ghost w_before = self@.waiting;
            while k < sc.arrivals[idx].len()
                invariant
                    idx < sc.arrivals@.len(),
                    f < s0.n,
                    w_before.len() == s0.n,
                    self.waiting_passengers@.len() == s0.n,
                    self@ == (SimView { turn: turn as nat, waiting: self@.waiting, ..s0 }),
                    self@.waiting == w_before.update(f as int, q0 + sc.arrivals@[idx as int]@.subrange(0, k as int)),
                    k <= sc.arrivals@[idx as int]@.len(),
                decreases sc.arrivals@[idx as int]@.len() - k,
            {
                let p = sc.arrivals[idx][k];
                assert(sc.arrivals@[idx as int]@.subrange(0, k + 1) =~= sc.arrivals@[idx as int]@.subrange(
                    0,
                    k as int,
                ).push(p));
                let ghost wq = self@.waiting;
                let ghost part = sc.arrivals@[idx as int]@.subrange(0, k as int);
                self.waiting_passengers[f].push(p);
                assert(self@.waiting =~= wq.update(f as int, wq[f as int].push(p)));
                assert(q0 + part.push(p) =~= (q0 + part).push(p));
                assert(self@.waiting =~= w_before.update(
                    f as int,
                    q0 + sc.arrivals@[idx as int]@.subrange(0, k + 1),
                ));
                k = k + 1;
            }
            assert(sc.arrivals@[idx as int]@.subrange(0, k as int) =~= sc.arrivals@[idx as int]@);
            assert(cells[idx as int] == sc.arrivals@[idx as int]@);
            f = f + 1;
        }
        let ghost want = queues_after_arrivals(s0, cells, s0.t, turn as nat);
        assert(self@.waiting =~= want);
        assert forall|g: int| 0 <= g < self@.waiting.len() implies arrived_by(#[trigger] self@.waiting[g], turn as nat) by {
            let q = self@.waiting[g];
            lemma_cell_in_range(g, turn as int, s0.n as int, s0.t as int);
            let i = g * s0.t + turn;
            assert(i % (s0.t as int) == turn) by (nonlinear_arith)
                requires
                    i == g * s0.t + turn,
                    0 <= turn < s0.t,
                    0 <= g,
            ;
            assert forall|k: int| 0 <= k < q.len() implies (#[trigger] q[k]).arrival_turn <= turn by {
                if k < s0.waiting[g].len() {
                    assert(q[k] == s0.waiting[g][k]);
                    assert(arrived_by(s0.waiting[g], s0.turn));
                } else {
                    assert(q[k] == sc.arrivals@[i]@[k - s0.waiting[g].len()]);
                }
            }
        }
        assert forall|i: int| 0 <= i < self@.elevators.len() implies arrived_by(#[trigger] self@.elevators[i].passengers, turn as nat) by {
            let q = self@.elevators[i].passengers;
            assert forall|k: int| 0 <= k < q.len() implies (#[trigger] q[k]).arrival_turn <= turn by {
                assert(arrived_by(s0.elevators[i].passengers, s0.turn));
            }
        }
    }
}

} // verus!
