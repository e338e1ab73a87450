use vstd::prelude::*;
use crate::engine::{final_score, initial_state, step, Passenger, SimView, SimulationState};
use crate::protocol::{reply_of, TurnError};
use crate::scenario::{queues_after_arrivals, Scenario};

verus! {

/// Why a run ended without a score.
#[derive(Clone, Copy, Debug, PartialEq, Eq, Structural)]
pub enum RunError {
    /// The replies ran out before car `elevator` had answered at `turn`.
    OutOfReplies { turn: usize, elevator: usize },
    /// Car `elevator`'s reply at `turn` was refused.
    Turn { turn: usize, elevator: usize, error: TurnError },
    /// The final score does not fit in a `u64`.
    ScoreOverflow,
}

/// `s` at the start of `turn`, once that turn's arrivals have joined the queues.
pub open spec fn arrive(s: SimView, cells: Seq<Seq<Passenger>>, turn: nat) -> SimView {
    SimView { turn, waiting: queues_after_arrivals(s, cells, s.t, turn), ..s }
}

/// The rest of a run from `s`, at `turn` once cars below `e` have acted: car
/// `e` acts on reply `turn * m + e`; after the last car the next turn begins.
pub open spec fn play(
    s: SimView,
    cells: Seq<Seq<Passenger>>,
    replies: Seq<Seq<u8>>,
    m: nat,
    t: nat,
    turn: nat,
    e: nat,
) -> Result<SimView, RunError>
    decreases t - turn, m - e,
{
    if turn >= t {
        Ok(s)
    } else if e >= m {
        if turn + 1 >= t {
            Ok(s)
        } else {
            play(arrive(s, cells, turn + 1), cells, replies, m, t, turn + 1, 0)
        }
    } else {
        let k = turn * m + e;
        if k >= replies.len() {
            Err(RunError::OutOfReplies { turn: turn as usize, elevator: e as usize })
        } else {
            match reply_of(replies[k as int]) {
                Err(x) => Err(RunError::Turn { turn: turn as usize, elevator: e as usize, error: TurnError::Reply(x) }),
                Ok(v) => {
                    let (s2, out) = step(s, e as usize, v.0, v.1);
                    match out {
                        Err(x) => Err(
                            RunError::Turn { turn: turn as usize, elevator: e as usize, error: TurnError::Action(x) },
                        ),
                        Ok(_) => play(s2, cells, replies, m, t, turn, e + 1),
                    }
                },
            }
        }
    }
}

/// The outcome of a whole run of scenario `sc` answered by `replies`, one per
/// car and turn in that order: the final score, or why the run stopped.
pub open spec fn run_outcome(sc: Scenario, replies: Seq<Seq<u8>>) -> Result<int, RunError> {
    let cells = sc.arrivals@.map_values(|v: Vec<Passenger>| v@);
    let start = initial_state(sc.n as nat, sc.m as nat, sc.c as nat, sc.t as nat);
    let end = if sc.t == 0 {
        Ok(start)
    } else {
        play(arrive(start, cells, 0), cells, replies, sc.m as nat, sc.t as nat, 0, 0)
    };
    match end {
        Err(x) => Err(x),
        Ok(s) => if final_score(s) > u64::MAX {
            Err(RunError::ScoreOverflow)
        } else {
            Ok(final_score(s))
        },
    }
}

/// Runs scenario `sc` to its end, taking the replies in order, one per car and
/// turn, and returns the final score.
pub fn run_replies(sc: &Scenario, replies: &Vec<Vec<u8>>) -> (r: Result<u64, RunError>)
    requires
        sc.wf(),
    ensures
        r matches Ok(v) ==> run_outcome(*sc, replies@.map_values(|l: Vec<u8>| l@)) == Ok::<int, RunError>(v as int),
        r matches Err(x) ==> run_outcome(*sc, replies@.map_values(|l: Vec<u8>| l@)) == Err::<int, RunError>(x),
{
    let ghost cells = sc.arrivals@.map_values(|v: Vec<Passenger>| v@);
    let ghost rs = replies@.map_values(|l: Vec<u8>| l@);
    let ghost m = sc.m as nat;
    let ghost t = sc.t as nat;
    let mut state = SimulationState::new(sc.n, sc.m, sc.c, sc.t);
    let ghost start = state@;
    if sc.t == 0 {
        return match state.calculate_final_score() {
            Some(v) => Ok(v),
            None => Err(RunError::ScoreOverflow),
        };
    }
    state.begin_turn(sc, 0);
    let ghost goal = play(state@, cells, rs, m, t, 0, 0);
    let mut turn: usize = 0;
    let mut k: usize = 0;
    while turn < sc.t
        invariant
            sc.wf(),
            cells == sc.arrivals@.map_values(|v: Vec<Passenger>| v@),
            rs == replies@.map_values(|l: Vec<u8>| l@),
            m == sc.m,
            t == sc.t,
            goal == play(arrive(start, cells, 0), cells, rs, m, t, 0, 0),
            state.wf(),
            state@.n == sc.n,
            state@.m == sc.m,
            state@.t == sc.t,
            turn <= sc.t,
            turn < sc.t ==> state@.turn == turn,
            k == turn * m,
            k <= replies@.len(),
            sc.t > 0,
            start == initial_state(sc.n as nat, sc.m as nat, sc.c as nat, sc.t as nat),
            turn < sc.t ==> play(state@, cells, rs, m, t, turn as nat, 0) == goal,
            turn == sc.t ==> goal == Ok::<SimView, RunError>(state@),
        decreases sc.t - turn,
    {
        let mut e: usize = 0;
        while e < sc.m
            invariant
                sc.wf(),
                cells == sc.arrivals@.map_values(|v: Vec<Passenger>| v@),
                rs == replies@.map_values(|l: Vec<u8>| l@),
                m == sc.m,
                t == sc.t,
                state.wf(),
                state@.n == sc.n,
                state@.m == sc.m,
                state@.t == sc.t,
                state@.turn == turn,
                turn < sc.t,
                e <= sc.m,
                k == turn * m + e,
                k <= replies@.len(),
                sc.t > 0,
                start == initial_state(sc.n as nat, sc.m as nat, sc.c as nat, sc.t as nat),
                goal == play(arrive(start, cells, 0), cells, rs, m, t, 0, 0),
                play(state@, cells, rs, m, t, turn as nat, e as nat) == goal,
            decreases sc.m - e,
        {
            if k >= replies.len() {
                return Err(RunError::OutOfReplies { turn, elevator: e });
            }
            assert(replies@[k as int]@ == rs[k as int]);
            match state.apply_reply(e, replies[k].as_slice()) {
                Err(x) => {
                    return Err(RunError::Turn { turn, elevator: e, error: x });
                },
                Ok(()) => {},
            }
            k = k + 1;
            e = e + 1;
        }
        assert(k == (turn + 1) * m) by (nonlinear_arith)
            requires
                k == turn * m + m,
        ;
        if turn + 1 < sc.t {
            state.begin_turn(sc, turn + 1);
        }
        turn = turn + 1;
    }
    match state.calculate_final_score() {
        Some(v) => Ok(v),
        None => Err(RunError::ScoreOverflow),
    }
}

} // verus!
