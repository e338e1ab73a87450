use vstd::prelude::*;
use crate::engine::{arrived_by, step, Action, ActionError, ElevatorView, Passenger, SimView, SimulationState};
use crate::text::{parse_usize, split_words, usize_value, words};

verus! {

/// Why a reply line could not be read as an action.
#[derive(Clone, Copy, Debug, PartialEq, Eq, Structural)]
pub enum ReplyError {
    /// The line holds no word.
    EmptyLine,
    /// The first word is none of `UP`, `DOWN`, `STAY`, `OPEN`.
    UnknownAction,
    /// A word after `OPEN` is not a queue position.
    BadIndex,
}

/// Why a car's reply ended the run.
#[derive(Clone, Copy, Debug, PartialEq, Eq, Structural)]
pub enum TurnError {
    Reply(ReplyError),
    Action(ActionError),
}

/// The action that a word of a reply names, if any.
pub open spec fn keyword(w: Seq<u8>) -> Option<Action> {
    if w == seq![85u8, 80u8] {
        Some(Action::Up)
    } else if w == seq![68u8, 79u8, 87u8, 78u8] {
        Some(Action::Down)
    } else if w == seq![83u8, 84u8, 65u8, 89u8] {
        Some(Action::Stay)
    } else if w == seq![79u8, 80u8, 69u8, 78u8] {
        Some(Action::Open)
    } else {
        None
    }
}

/// What a reply line asks for: its first word is the action; after `OPEN` every
/// further word is a queue position, and after any other action they are ignored.
pub open spec fn reply_of(line: Seq<u8>) -> Result<(Action, Seq<usize>), ReplyError> {
    let ws = words(line);
    if ws.len() == 0 {
        Err(ReplyError::EmptyLine)
    } else {
        match keyword(ws[0]) {
            None => Err(ReplyError::UnknownAction),
            Some(a) => if a != Action::Open {
                Ok((a, Seq::empty()))
            } else if forall|k: int| 1 <= k < ws.len() ==> (#[trigger] usize_value(ws[k])) is Some {
                Ok((a, Seq::new((ws.len() - 1) as nat, |k: int| usize_value(ws[k + 1]).unwrap())))
            } else {
                Err(ReplyError::BadIndex)
            },
        }
    }
}

/// The destination and the turns waited so far of each passenger of `ps`, in order.
pub open spec fn pair_items(ps: Seq<Passenger>, turn: nat) -> Seq<usize>
    decreases ps.len(),
{
    if ps.len() == 0 {
        Seq::empty()
    } else {
        pair_items(ps.drop_last(), turn) + seq![ps.last().target_floor, (turn - ps.last().arrival_turn) as usize]
    }
}

/// A line of the state dump for a car or a floor: the count, then the pairs.
pub open spec fn passenger_row(ps: Seq<Passenger>, turn: nat) -> Seq<usize> {
    seq![ps.len() as usize] + pair_items(ps, turn)
}

/// The state dump of one turn: the floor of each car; a line per car; a line per floor.
pub open spec fn state_rows(s: SimView) -> Seq<Seq<usize>> {
    seq![Seq::new(s.elevators.len(), |i: int| s.elevators[i].floor as usize)] + Seq::new(
        s.elevators.len(),
        |i: int| passenger_row(s.elevators[i].passengers, s.turn),
    ) + Seq::new(s.waiting.len(), |f: int| passenger_row(s.waiting[f], s.turn))
}

fn keyword_of(w: &Vec<u8>) -> (r: Option<Action>)
    ensures
        r == keyword(w@),
{
    if w.len() == 2 && w[0] == 85 && w[1] == 80 {
        assert(w@ =~= seq![85u8, 80u8]);
        Some(Action::Up)
    } else if w.len() == 4 && w[0] == 68 && w[1] == 79 && w[2] == 87 && w[3] == 78 {
        assert(w@ =~= seq![68u8, 79u8, 87u8, 78u8]);
        Some(Action::Down)
    } else if w.len() == 4 && w[0] == 83 && w[1] == 84 && w[2] == 65 && w[3] == 89 {
        assert(w@ =~= seq![83u8, 84u8, 65u8, 89u8]);
        Some(Action::Stay)
    } else if w.len() == 4 && w[0] == 79 && w[1] == 80 && w[2] == 69 && w[3] == 78 {
        assert(w@ =~= seq![79u8, 80u8, 69u8, 78u8]);
        Some(Action::Open)
    } else {
        None
    }
}

/// Reads one reply line: an action word, and after `OPEN` the queue positions.
pub fn parse_reply(line: &[u8]) -> (r: Result<(Action, Vec<usize>), ReplyError>)
    ensures
        r matches Ok(v) ==> reply_of(line@) == Ok::<(Action, Seq<usize>), ReplyError>((v.0, v.1@)),
        r matches Err(e) ==> reply_of(line@) == Err::<(Action, Seq<usize>), ReplyError>(e),
{
    let ws = split_words(line);
    let ghost wv = ws@.map_values(|w: Vec<u8>| w@);
    assert(wv == words(line@));
    if ws.len() == 0 {
        return Err(ReplyError::EmptyLine);
    }
    assert(ws@[0]@ == wv[0]);
    let a = match keyword_of(&ws[0]) {
        None => {
            return Err(ReplyError::UnknownAction);
        },
        Some(a) => a,
    };
    if a != Action::Open {
        return Ok((a, Vec::new()));
    }
    let mut picks: Vec<usize> = Vec::new();
    let mut k: usize = 1;
    while k < ws.len()
        invariant
            1 <= k <= ws@.len(),
            wv == ws@.map_values(|w: Vec<u8>| w@),
            wv == words(line@),
            keyword(wv[0]) == Some(Action::Open),
            picks@.len() == k - 1,
            forall|j: int| 1 <= j < k ==> (#[trigger] usize_value(wv[j])) is Some,
            forall|j: int| 0 <= j < k - 1 ==> picks@[j] == usize_value(wv[j + 1]).unwrap(),
        decreases ws@.len() - k,
    {
        assert(ws@[k as int]@ == wv[k as int]);
        match parse_usize(ws[k].as_slice()) {
            None => {
                assert(usize_value(wv[k as int]) is None);
                return Err(ReplyError::BadIndex);
            },
            Some(v) => {
                picks.push(v);
            },
        }
        k = k + 1;
    }
    let ghost want = Seq::new((wv.len() - 1) as nat, |j: int| usize_value(wv[j + 1]).unwrap());
    assert(picks@ =~= want);
    Ok((a, picks))
}

fn passenger_row_of(ps: &Vec<Passenger>, turn: usize) -> (r: Vec<usize>)
    requires
        arrived_by(ps@, turn as nat),
    ensures
        r@ == passenger_row(ps@, turn as nat),
{
    let mut row: Vec<usize> = Vec::new();
    row.push(ps.len());
    let mut i: usize = 0;
    while i < ps.len()
        invariant
            i <= ps@.len(),
            arrived_by(ps@, turn as nat),
            row@ == seq![ps@.len() as usize] + pair_items(ps@.subrange(0, i as int), turn as nat),
        decreases ps@.len() - i,
    {
        let p = ps[i];
        assert(ps@[i as int].arrival_turn <= turn);
        let ghost next = ps@.subrange(0, i + 1);
        assert(next.drop_last() =~= ps@.subrange(0, i as int));
        assert(next.last() == p);
        row.push(p.target_floor);
        row.push(turn - p.arrival_turn);
        assert(row@ =~= seq![ps@.len() as usize] + pair_items(next, turn as nat));
        i = i + 1;
    }
    assert(ps@.subrange(0, ps@.len() as int) =~= ps@);
    row
}

impl SimulationState {
    /// Reads car `elevator_idx`'s reply line and applies it.
    pub fn apply_reply(&mut self, elevator_idx: usize, line: &[u8]) -> (r: Result<(), TurnError>)
        requires
            old(self).wf(),
        ensures
            final(self).wf(),
            reply_of(line@) matches Err(e) ==> r == Err::<(), TurnError>(TurnError::Reply(e)) && final(self)@
                == old(self)@,
            reply_of(line@) matches Ok(v) ==> ({
                let (next, out) = step(old(self)@, elevator_idx, v.0, v.1);
                &&& final(self)@ == next
                &&& out matches Ok(_) ==> r is Ok
                &&& out matches Err(e) ==> r == Err::<(), TurnError>(TurnError::Action(e))
            }),
    {
        match parse_reply(line) {
            Err(e) => Err(TurnError::Reply(e)),
            Ok((a, picks)) => match self.apply(elevator_idx, a, picks.as_slice()) {
                Ok(()) => Ok(()),
                Err(e) => Err(TurnError::Action(e)),
            },
        }
    }

    /// The numbers of this turn's state dump, one row per line.
    pub fn state_rows(&self) -> (r: Vec<Vec<usize>>)
        requires
            self.wf(),
        ensures
            r@.map_values(|v: Vec<usize>| v@) == state_rows(self@),
    {
        let ghost s = self@;
        let mut rows: Vec<Vec<usize>> = Vec::new();
        let mut floors: Vec<usize> = Vec::new();
        let mut i: usize = 0;
        while i < self.elevators.len()
            invariant
                s == self@,
                i <= s.elevators.len(),
                floors@ =~= Seq::new(i as nat, |k: int| s.elevators[k].floor as usize),
            decreases s.elevators.len() - i,
        {
            assert(self.elevators@[i as int]@ == s.elevators[i as int]);
            floors.push(self.elevators[i].floor);
            i = i + 1;
        }
        rows.push(floors);
        assert(rows@.map_values(|v: Vec<usize>| v@) =~= seq![floors@]);
        let mut e: usize = 0;
        while e < self.elevators.len()
            invariant
                s == self@,
                s.wf(),
                e <= s.elevators.len(),
                rows@.map_values(|v: Vec<usize>| v@) =~= seq![
                    Seq::new(s.elevators.len(), |k: int| s.elevators[k].floor as usize),
                ] + Seq::new(e as nat, |k: int| passenger_row(s.elevators[k].passengers, s.turn)),
            decreases s.elevators.len() - e,
        {
            assert(self.elevators@[e as int]@ == s.elevators[e as int]);
            let row = passenger_row_of(&self.elevators[e].passengers, self.turn);
            let ghost before = rows@.map_values(|v: Vec<usize>| v@);
            rows.push(row);
            assert(rows@.map_values(|v: Vec<usize>| v@) =~= before.push(row@));
            e = e + 1;
        }
        let mut f: usize = 0;
        while f < self.waiting_passengers.len()
            invariant
                s == self@,
                s.wf(),
                f <= s.waiting.len(),
                rows@.map_values(|v: Vec<usize>| v@) =~= seq![
                    Seq::new(s.elevators.len(), |k: int| s.elevators[k].floor as usize),
                ] + Seq::new(s.elevators.len(), |k: int| passenger_row(s.elevators[k].passengers, s.turn))
                    + Seq::new(f as nat, |k: int| passenger_row(s.waiting[k], s.turn)),
            decreases s.waiting.len() - f,
        {
            assert(self.waiting_passengers@[f as int]@ == s.waiting[f as int]);
            let row = passenger_row_of(&self.waiting_passengers[f], self.turn);
            let ghost before = rows@.map_values(|v: Vec<usize>| v@);
            rows.push(row);
            assert(rows@.map_values(|v: Vec<usize>| v@) =~= before.push(row@));
            f = f + 1;
        }
        rows
    }
}

} // verus!
