use elevator_sim::engine::{Action, ActionError, SimulationState};
use elevator_sim::protocol::{parse_reply, ReplyError, TurnError};
use elevator_sim::scenario::{Scenario, ScenarioError};
use elevator_sim::text::{parse_usize, split_words};

#[test]
fn words_split_at_any_white_space() {
    let ws = split_words(b"  OPEN\t3  1\r\n");
    assert_eq!(ws, vec![b"OPEN".to_vec(), b"3".to_vec(), b"1".to_vec()]);
    assert!(split_words(b" \n ").is_empty());
}

#[test]
fn numbers_parse_like_str_parse() {
    assert_eq!(parse_usize(b"0"), Some(0));
    assert_eq!(parse_usize(b"007"), Some(7));
    assert_eq!(parse_usize(b"+12"), Some(12));
    assert_eq!(parse_usize(b"+"), None);
    assert_eq!(parse_usize(b""), None);
    assert_eq!(parse_usize(b"-1"), None);
    assert_eq!(parse_usize(b"1x"), None);
    assert_eq!(parse_usize(usize::MAX.to_string().as_bytes()), Some(usize::MAX));
    let too_big = format!("{}0", usize::MAX);
    assert_eq!(parse_usize(too_big.as_bytes()), None);
}

#[test]
fn replies_are_read() {
    assert_eq!(parse_reply(b"OPEN 2 0\n"), Ok((Action::Open, vec![2, 0])));
    assert_eq!(parse_reply(b"OPEN"), Ok((Action::Open, vec![])));
    assert_eq!(parse_reply(b"UP"), Ok((Action::Up, vec![])));
    assert_eq!(parse_reply(b"DOWN 4 x"), Ok((Action::Down, vec![])));
    assert_eq!(parse_reply(b"  STAY  "), Ok((Action::Stay, vec![])));
}

#[test]
fn bad_replies_are_reported() {
    assert_eq!(parse_reply(b""), Err(ReplyError::EmptyLine));
    assert_eq!(parse_reply(b"   \n"), Err(ReplyError::EmptyLine));
    assert_eq!(parse_reply(b"OPEN 1 a"), Err(ReplyError::BadIndex));
    assert_eq!(parse_reply(b"OPEN -1"), Err(ReplyError::BadIndex));
    assert_eq!(parse_reply(b"FLY 1"), Err(ReplyError::UnknownAction));
}

#[test]
fn replies_are_applied() {
    let mut sim = SimulationState::new(10, 2, 10, 100);
    assert_eq!(sim.apply_reply(0, b"UP\n"), Ok(()));
    assert_eq!(sim.get_elevator_floor(0), 6);
    assert_eq!(sim.apply_reply(1, b""), Err(TurnError::Reply(ReplyError::EmptyLine)));
    assert_eq!(
        sim.apply_reply(1, b"OPEN 0"),
        Err(TurnError::Action(ActionError::InvalidPassengerIndex { index: 0, floor: 5 }))
    );
}

#[test]
fn state_rows_hold_floors_cars_and_queues() {
    let mut sim = SimulationState::new(3, 2, 5, 10);
    sim.turn = 4;
    sim.add_passenger(1, 2, 1, 0);
    sim.add_passenger(0, 2, 4, 1);
    sim.apply_action(0, "OPEN", &[0]).unwrap();
    sim.add_passenger(1, 0, 3, 2);
    let rows = sim.state_rows();
    assert_eq!(
        rows,
        vec![
            vec![1, 1],
            vec![1, 2, 3],
            vec![0],
            vec![1, 2, 0],
            vec![1, 0, 1],
            vec![0],
        ]
    );
}

#[test]
fn scenario_is_read() {
    let text = b"2 1 3 2 0.5\n1 1 0\n0 2 0 0\n";
    let sc = Scenario::parse(text).unwrap();
    assert_eq!((sc.n, sc.m, sc.c, sc.t), (2, 1, 3, 2));
    assert_eq!(sc.lambda, b"0.5".to_vec());
    assert_eq!(sc.arrivals.len(), 4);
    assert_eq!(sc.arrivals[0].len(), 1);
    assert_eq!((sc.arrivals[0][0].id, sc.arrivals[0][0].arrival_turn, sc.arrivals[0][0].target_floor), (0, 0, 1));
    assert!(sc.arrivals[1].is_empty());
    assert!(sc.arrivals[2].is_empty());
    assert_eq!(sc.arrivals[3].len(), 2);
    assert_eq!((sc.arrivals[3][1].id, sc.arrivals[3][1].arrival_turn, sc.arrivals[3][1].target_floor), (2, 1, 0));
}

#[test]
fn malformed_scenarios_are_refused() {
    assert_eq!(Scenario::parse(b"2 1 3 2").err(), Some(ScenarioError::Malformed));
    assert_eq!(Scenario::parse(b"2 1 3 2 0.5\n1 1 0\n0").err(), Some(ScenarioError::Malformed));
    assert_eq!(Scenario::parse(b"2 1 3 2 0.5\n3 1 0\n0 0").err(), Some(ScenarioError::Malformed));
    assert_eq!(Scenario::parse(b"2 1 3 2 0.5\n1 x 0 0 0").err(), Some(ScenarioError::Malformed));
    assert_eq!(Scenario::parse(b"2 1 z 2 0.5\n0 0 0 0").err(), Some(ScenarioError::Malformed));
    assert_eq!(Scenario::parse(b"0 1 3 2 0.5").err(), Some(ScenarioError::NoFloors));
}

#[test]
fn arrivals_join_queues_at_their_turn() {
    let text = b"2 1 3 2 0.5\n1 1 0\n0 2 0 0\n";
    let sc = Scenario::parse(text).unwrap();
    let mut sim = SimulationState::new(sc.n, sc.m, sc.c, sc.t);
    sim.begin_turn(&sc, 0);
    assert_eq!(sim.get_waiting_passenger_count(0), 1);
    assert_eq!(sim.get_waiting_passenger_count(1), 0);
    sim.begin_turn(&sc, 1);
    assert_eq!(sim.turn, 1);
    assert_eq!(sim.get_waiting_passenger_count(0), 1);
    assert_eq!(sim.get_waiting_passenger_count(1), 2);
    assert_eq!(sim.get_waiting_passenger_arrival_turn(1, 0), 1);
    assert_eq!(sim.calculate_final_score(), Some(4 + 1 + 1));
}

#[test]
fn idle_run_without_arrivals_scores_zero() {
    let mut text = String::from("10 3 10 100 0.1\n");
    for _ in 0..10 {
        let cells: Vec<&str> = (0..100).map(|_| "0").collect();
        text.push_str(&cells.join(" "));
        text.push('\n');
    }
    let sc = Scenario::parse(text.as_bytes()).unwrap();
    let mut sim = SimulationState::new(sc.n, sc.m, sc.c, sc.t);
    for turn in 0..sc.t {
        sim.begin_turn(&sc, turn);
        for e in 0..sc.m {
            assert_eq!(sim.apply_reply(e, b"STAY\n"), Ok(()));
        }
    }
    assert_eq!(sim.calculate_final_score(), Some(0));
}

#[test]
fn greedy_run_delivers_and_scores() {
    // One passenger at floor 0, turn 0, bound for floor 2.
    let text = b"3 1 1 4 1\n1 2 0 0 0\n0 0 0 0\n0 0 0 0\n";
    let sc = Scenario::parse(text).unwrap();
    let mut sim = SimulationState::new(sc.n, sc.m, sc.c, sc.t);
    let replies: [&[u8]; 4] = [b"DOWN", b"OPEN 0", b"UP", b"UP"];
    for turn in 0..sc.t {
        sim.begin_turn(&sc, turn);
        sim.apply_reply(0, replies[turn]).unwrap();
    }
    // Still aboard at floor 2 at the end: (4 - 0)^2.
    assert_eq!(sim.get_elevator_floor(0), 2);
    assert_eq!(sim.calculate_final_score(), Some(16));
    let mut sim2 = SimulationState::new(sc.n, sc.m, sc.c, sc.t);
    let replies2: [&[u8]; 4] = [b"DOWN", b"OPEN 0", b"UP", b"UP"];
    for turn in 0..3 {
        sim2.begin_turn(&sc, turn);
        sim2.apply_reply(0, replies2[turn]).unwrap();
    }
    sim2.begin_turn(&sc, 3);
    sim2.apply_reply(0, b"UP").unwrap();
    sim2.apply_reply(0, b"OPEN").unwrap();
    // Delivered at turn 3: (3 - 0 + 1)^2.
    assert_eq!(sim2.calculate_final_score(), Some(16));
    assert_eq!(sim2.score, 16);
}
