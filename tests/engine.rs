use elevator_sim::engine::{Action, ActionError, Passenger, SimulationState};

#[test]
fn test_elevator_movement() -> Result<(), ActionError> {
    let mut sim = SimulationState::new(10, 3, 10, 100);
    sim.elevators[0].floor = 5;
    sim.apply_action(0, "UP", &[])?;
    assert_eq!(sim.elevators[0].floor, 6);
    sim.apply_action(0, "DOWN", &[])?;
    assert_eq!(sim.elevators[0].floor, 5);
    Ok(())
}

#[test]
fn test_invalid_elevator_index() {
    let mut sim = SimulationState::new(10, 3, 10, 100);
    assert!(sim.apply_action(3, "UP", &[]).is_err());
}

#[test]
fn test_invalid_passenger_pick() {
    let mut sim = SimulationState::new(10, 3, 10, 100);
    sim.elevators[0].floor = 0;
    assert!(sim.apply_action(0, "OPEN", &[0]).is_err());
}

#[test]
fn test_delivery_score() -> Result<(), ActionError> {
    let mut sim = SimulationState::new(10, 3, 10, 100);
    sim.turn = 10;
    sim.elevators[0].floor = 1;
    sim.elevators[0].passengers.push(Passenger {
        id: 1,
        arrival_turn: 5,
        target_floor: 1,
    });
    sim.apply_action(0, "OPEN", &[])?;
    // Duration = 10 - 5 + 1 = 6. Score = 6^2 = 36
    assert_eq!(sim.score, 36);
    assert!(sim.elevators[0].passengers.is_empty());
    Ok(())
}

#[test]
fn new_state_places_cars_mid_building() {
    let sim = SimulationState::new(10, 3, 4, 100);
    assert_eq!(sim.elevators.len(), 3);
    assert_eq!(sim.waiting_passengers.len(), 10);
    for e in 0..3 {
        assert_eq!(sim.get_elevator_floor(e), 5);
        assert_eq!(sim.elevators[e].capacity, 4);
        assert_eq!(sim.get_elevator_passenger_count(e), 0);
    }
    assert_eq!(sim.turn, 0);
    assert_eq!(sim.score, 0);
}

#[test]
fn down_at_ground_floor_stays() {
    let mut sim = SimulationState::new(10, 3, 10, 100);
    sim.elevators[1].floor = 0;
    assert_eq!(sim.apply_action(1, "DOWN", &[]), Ok(()));
    assert_eq!(sim.elevators[1].floor, 0);
}

#[test]
fn up_at_top_floor_stays() {
    let mut sim = SimulationState::new(10, 3, 10, 100);
    sim.elevators[2].floor = 9;
    assert_eq!(sim.apply(2, Action::Up, &[]), Ok(()));
    assert_eq!(sim.elevators[2].floor, 9);
    for _ in 0..20 {
        sim.apply(2, Action::Down, &[]).unwrap();
    }
    assert_eq!(sim.elevators[2].floor, 0);
}

#[test]
fn stay_changes_nothing() {
    let mut sim = SimulationState::new(10, 3, 10, 100);
    sim.add_passenger(5, 2, 0, 0);
    assert_eq!(sim.apply_action(0, "STAY", &[0]), Ok(()));
    assert_eq!(sim.get_elevator_floor(0), 5);
    assert_eq!(sim.get_waiting_passenger_count(5), 1);
    assert_eq!(sim.get_elevator_passenger_count(0), 0);
}

#[test]
fn open_skips_pickups_beyond_capacity() {
    let mut sim = SimulationState::new(10, 1, 2, 100);
    for i in 0..5 {
        sim.add_passenger(5, i, 0, i);
    }
    assert_eq!(sim.apply_action(0, "OPEN", &[0, 1, 2, 3, 4]), Ok(()));
    assert_eq!(sim.get_elevator_passenger_count(0), 2);
    // Positions are taken from the largest down: 4, then 3.
    assert_eq!(sim.get_elevator_passenger_target(0, 0), 4);
    assert_eq!(sim.get_elevator_passenger_target(0, 1), 3);
    assert_eq!(sim.get_waiting_passenger_count(5), 3);
    assert_eq!(sim.get_waiting_passenger_target(5, 0), 0);
    assert_eq!(sim.get_waiting_passenger_target(5, 2), 2);
}

#[test]
fn open_takes_positions_from_largest_down() {
    let mut sim = SimulationState::new(10, 1, 10, 100);
    for i in 0..4 {
        sim.add_passenger(5, i, 0, i);
    }
    assert_eq!(sim.apply_action(0, "OPEN", &[0, 2]), Ok(()));
    assert_eq!(sim.elevators[0].passenger_count(), 2);
    assert_eq!(sim.elevators[0].get_passenger_target(0), 2);
    assert_eq!(sim.elevators[0].get_passenger_target(1), 0);
    assert_eq!(sim.get_waiting_passenger_count(5), 2);
    assert_eq!(sim.get_waiting_passenger_target(5, 0), 1);
    assert_eq!(sim.get_waiting_passenger_target(5, 1), 3);
}

#[test]
fn repeated_position_reads_the_shrunk_queue() {
    let mut sim = SimulationState::new(10, 1, 10, 100);
    for i in 0..3 {
        sim.add_passenger(5, i, 0, i);
    }
    assert_eq!(sim.apply_action(0, "OPEN", &[1, 1]), Ok(()));
    assert_eq!(sim.elevators[0].get_passenger_target(0), 1);
    assert_eq!(sim.elevators[0].get_passenger_target(1), 2);
    assert_eq!(sim.get_waiting_passenger_count(5), 1);
}

#[test]
fn delivery_on_arrival_turn_scores_one() {
    let mut sim = SimulationState::new(10, 1, 10, 100);
    sim.turn = 3;
    sim.add_passenger(5, 4, 3, 0);
    sim.apply_action(0, "OPEN", &[0]).unwrap();
    assert_eq!(sim.elevators[0].get_passenger_arrival_turn(0), 3);
    sim.apply_action(0, "DOWN", &[]).unwrap();
    sim.apply_action(0, "OPEN", &[]).unwrap();
    assert_eq!(sim.score, 1);
    assert_eq!(sim.get_elevator_passenger_count(0), 0);
}

#[test]
fn drop_off_keeps_others_aboard_in_order() {
    let mut sim = SimulationState::new(10, 1, 10, 100);
    sim.turn = 7;
    sim.elevators[0].floor = 2;
    for (id, target) in [(0usize, 2usize), (1, 8), (2, 2), (3, 6)] {
        sim.elevators[0].passengers.push(Passenger { id, arrival_turn: 4, target_floor: target });
    }
    sim.apply_action(0, "OPEN", &[]).unwrap();
    // Two delivered, each (7 - 4 + 1)^2 = 16.
    assert_eq!(sim.score, 32);
    assert_eq!(sim.elevators[0].passengers.len(), 2);
    assert_eq!(sim.elevators[0].passengers[0].id, 1);
    assert_eq!(sim.elevators[0].passengers[1].id, 3);
}

#[test]
fn invalid_elevator_index_is_reported() {
    let mut sim = SimulationState::new(10, 3, 10, 100);
    assert_eq!(sim.apply_action(7, "STAY", &[]), Err(ActionError::InvalidElevatorIndex(7)));
    assert_eq!(sim.apply(3, Action::Open, &[]), Err(ActionError::InvalidElevatorIndex(3)));
}

#[test]
fn unknown_action_is_reported() {
    let mut sim = SimulationState::new(10, 3, 10, 100);
    assert_eq!(sim.apply_action(0, "JUMP", &[]), Err(ActionError::UnknownAction));
    assert_eq!(sim.apply_action(0, "up", &[]), Err(ActionError::UnknownAction));
    assert_eq!(sim.elevators[0].floor, 5);
    assert_eq!(Action::parse("OPEN"), Some(Action::Open));
    assert_eq!(Action::parse("STAY"), Some(Action::Stay));
    assert_eq!(Action::parse("OPEN "), None);
}

#[test]
fn bad_pick_fails_after_drop_off() {
    let mut sim = SimulationState::new(10, 1, 10, 100);
    sim.turn = 10;
    sim.elevators[0].floor = 1;
    sim.elevators[0].passengers.push(Passenger { id: 9, arrival_turn: 5, target_floor: 1 });
    sim.add_passenger(1, 3, 10, 0);
    let r = sim.apply_action(0, "OPEN", &[0, 5]);
    assert_eq!(r, Err(ActionError::InvalidPassengerIndex { index: 5, floor: 1 }));
    // The drop-off already happened and was scored; no one was picked up.
    assert_eq!(sim.score, 36);
    assert_eq!(sim.get_elevator_passenger_count(0), 0);
    assert_eq!(sim.get_waiting_passenger_count(1), 1);
}

#[test]
fn score_overflow_is_reported() {
    let mut sim = SimulationState::new(10, 1, 10, 100);
    sim.turn = 10;
    sim.score = u64::MAX - 10;
    sim.elevators[0].floor = 1;
    sim.elevators[0].passengers.push(Passenger { id: 9, arrival_turn: 5, target_floor: 1 });
    assert_eq!(sim.apply_action(0, "OPEN", &[]), Err(ActionError::ScoreOverflow));
    assert_eq!(sim.score, u64::MAX - 10);
    assert_eq!(sim.get_elevator_passenger_count(0), 1);
}

#[test]
fn final_score_adds_penalties() {
    let mut sim = SimulationState::new(10, 1, 10, 100);
    sim.turn = 95;
    sim.score = 7;
    sim.add_passenger(3, 1, 40, 0);
    sim.add_passenger(0, 1, 95, 1);
    sim.elevators[0].passengers.push(Passenger { id: 2, arrival_turn: 90, target_floor: 0 });
    assert_eq!(sim.get_waiting_passenger_arrival_turn(3, 0), 40);
    // 7 + 60^2 + 5^2 + 10^2
    assert_eq!(sim.calculate_final_score(), Some(7 + 3600 + 25 + 100));
}

#[test]
fn passenger_arriving_at_last_turn_costs_nothing() {
    let mut sim = SimulationState::new(10, 1, 10, 100);
    sim.turn = 100;
    sim.add_passenger(2, 5, 100, 0);
    assert_eq!(sim.calculate_final_score(), Some(0));
}

#[test]
fn final_score_overflow_is_none() {
    let mut sim = SimulationState::new(10, 1, 10, 100);
    sim.score = u64::MAX;
    sim.add_passenger(2, 5, 0, 0);
    assert_eq!(sim.calculate_final_score(), None);
}

#[test]
fn snapshot_copies_cars_and_queues() {
    let mut sim = SimulationState::new(4, 2, 3, 50);
    sim.turn = 6;
    sim.score = 11;
    sim.add_passenger(2, 0, 5, 0);
    sim.add_passenger(2, 3, 6, 1);
    sim.apply_action(1, "OPEN", &[1]).unwrap();
    let snap = sim.create_snapshot();
    assert_eq!((snap.turn, snap.score), (6, 11));
    assert_eq!(snap.elevators.len(), 2);
    assert_eq!((snap.elevators[0].floor, snap.elevators[0].passenger_count), (2, 0));
    assert_eq!(snap.elevators[1].passenger_count, 1);
    assert_eq!(snap.elevators[1].passengers[0].target_floor, 3);
    assert_eq!(snap.floors.len(), 4);
    assert_eq!(snap.floors[2].waiting_count, 1);
    assert_eq!(snap.floors[2].waiting[0].id, 0);
    assert_eq!(snap.floors[0].waiting_count, 0);
}
