use elevator_sim::driver::{run_replies, RunError};
use elevator_sim::engine::ActionError;
use elevator_sim::protocol::{ReplyError, TurnError};
use elevator_sim::scenario::Scenario;

fn empty_scenario(n: usize, m: usize, c: usize, t: usize) -> Scenario {
    let mut text = format!("{} {} {} {} 0.1\n", n, m, c, t);
    for _ in 0..n {
        let cells: Vec<&str> = (0..t).map(|_| "0").collect();
        text.push_str(&cells.join(" "));
        text.push('\n');
    }
    Scenario::parse(text.as_bytes()).unwrap()
}

#[test]
fn replayed_idle_run_scores_zero() {
    let sc = empty_scenario(10, 3, 10, 100);
    let replies: Vec<Vec<u8>> = (0..300).map(|_| b"STAY".to_vec()).collect();
    assert_eq!(run_replies(&sc, &replies), Ok(0));
}

#[test]
fn replayed_run_reports_where_replies_ran_out() {
    let sc = empty_scenario(10, 3, 10, 100);
    let replies: Vec<Vec<u8>> = (0..7).map(|_| b"UP".to_vec()).collect();
    assert_eq!(
        run_replies(&sc, &replies),
        Err(RunError::OutOfReplies { turn: 2, elevator: 1 })
    );
}

#[test]
fn replayed_run_reports_refused_reply() {
    let sc = empty_scenario(4, 2, 1, 3);
    let replies: Vec<Vec<u8>> = vec![b"UP".to_vec(), b"STAY".to_vec(), b"".to_vec(), b"UP".to_vec()];
    assert_eq!(
        run_replies(&sc, &replies),
        Err(RunError::Turn { turn: 1, elevator: 0, error: TurnError::Reply(ReplyError::EmptyLine) })
    );
    let replies: Vec<Vec<u8>> = vec![b"UP".to_vec(), b"OPEN 3".to_vec()];
    assert_eq!(
        run_replies(&sc, &replies),
        Err(RunError::Turn {
            turn: 0,
            elevator: 1,
            error: TurnError::Action(ActionError::InvalidPassengerIndex { index: 3, floor: 2 }),
        })
    );
}

#[test]
fn replayed_run_scores_stragglers() {
    // Floor 0 at turn 0: one passenger bound for floor 1. Floor 2 at turn 1: one bound for floor 0.
    let text = b"3 1 2 3 0.5\n1 1 0 0\n0 0 0\n0 1 0 0\n";
    let sc = Scenario::parse(text).unwrap();
    let replies: Vec<Vec<u8>> = vec![b"DOWN".to_vec(), b"OPEN 0".to_vec(), b"UP".to_vec()];
    // Aboard until the end: (3 - 0)^2; still waiting at floor 2: (3 - 1)^2.
    assert_eq!(run_replies(&sc, &replies), Ok(9 + 4));
    let replies: Vec<Vec<u8>> = vec![b"DOWN".to_vec(), b"OPEN 0".to_vec(), b"UP".to_vec(), b"OPEN".to_vec()];
    assert_eq!(run_replies(&sc, &replies), Ok(9 + 4));
}

#[test]
fn zero_turn_run_scores_zero() {
    let sc = empty_scenario(5, 2, 3, 0);
    assert_eq!(run_replies(&sc, &vec![]), Ok(0));
}
