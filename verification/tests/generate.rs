use roaring::RoaringTreemap;
use squadro::board_state::BoardState;
use squadro::generate::{
    collect_player_1_winning_states, collect_reachable_states, collect_winning_states,
};

#[test]
fn simple_endgame_exploration() {
    let init_state = BoardState::from(100382226046);

    let seen_states = collect_reachable_states(&[init_state.clone()]);

    let mut remaining_states = seen_states.clone();
    let mut winning_states = collect_winning_states(&mut remaining_states);

    let init_state_is_winning = winning_states.contains(init_state.get_id());

    assert!(init_state_is_winning);
    assert_eq!(seen_states.len(), 3);
    assert_eq!(seen_states, winning_states);
    assert!(seen_states.contains(100382226046));
    assert!(seen_states.contains(100382226046 + 60217344 + 1));
    assert!(seen_states.contains(100382226046 + 3456 + 1));

    winning_states = &seen_states - (remaining_states | winning_states);

    let init_state_is_winning = winning_states.contains(init_state.get_id());

    assert!(!init_state_is_winning);
    assert_eq!(winning_states.len(), 0);
    assert_eq!(seen_states.intersection_len(&winning_states), 0);
}

#[test]
fn tricky_endgame_exploration() {
    let init_state = BoardState::from(85065666045);

    let mut previous_seen_states_len = 0;

    for player in 0..=1 {
        let seen_states = collect_reachable_states(&[init_state.clone()]);

        let mut remaining_states = seen_states.clone();
        let mut winning_states = collect_winning_states(&mut remaining_states);

        if player == 1 {
            winning_states = &seen_states - (remaining_states | winning_states);
        }

        let init_state_is_winning = winning_states.contains(init_state.get_id());
        assert_eq!(init_state_is_winning, player == 1);

        assert_eq!(previous_seen_states_len == seen_states.len(), player == 1);
        previous_seen_states_len = seen_states.len();

        assert_eq!(winning_states.contains(init_state.get_id()), player == 1);
        assert_eq!(
            winning_states.contains(init_state.get_next_state(0).unwrap().get_id()),
            player == 0
        );
        assert_eq!(
            winning_states.contains(init_state.get_next_state(1).unwrap().get_id()),
            player == 0
        );
        assert_eq!(
            winning_states.contains(init_state.get_next_state(4).unwrap().get_id()),
            player == 1
        );
    }
}

#[test]
fn endless_game_exploration() {
    let init_state = BoardState::from(5057791486);

    let mut seen_states_vec: Vec<RoaringTreemap> = Vec::new();
    let mut winning_states_vec: Vec<RoaringTreemap> = Vec::new();

    for player in 0..=1 {
        let seen_states = collect_reachable_states(&[init_state.clone()]);

        let mut remaining_states = seen_states.clone();
        let mut winning_states = collect_winning_states(&mut remaining_states);

        if player == 1 {
            winning_states = &seen_states - (remaining_states | winning_states);
        }

        let init_state_is_winning = winning_states.contains(init_state.get_id());
        assert!(!init_state_is_winning);

        assert!(!winning_states.is_empty());
        assert!(seen_states.len() > winning_states.len());

        seen_states_vec.push(seen_states);
        winning_states_vec.push(winning_states);
    }

    assert_eq!(seen_states_vec[0], seen_states_vec[1]);
    assert_eq!(
        winning_states_vec[0].intersection_len(&winning_states_vec[1]),
        0
    );
    assert!(seen_states_vec[0].len() > winning_states_vec[0].len() + winning_states_vec[1].len());

    let mut state = init_state.clone();
    let mut loop_count = 0;
    while loop_count < 25 {
        let next_non_loosing_states: Vec<BoardState> = state
            .get_next_states()
            .into_iter()
            .filter(|s| !winning_states_vec[1 - state.get_next_player()].contains(s.get_id()))
            .collect();

        for s in &next_non_loosing_states {
            assert!(!s.is_ended());
            for winning_states in &winning_states_vec {
                assert!(!winning_states.contains(s.get_id()));
            }
        }

        if state.get_id() == init_state.get_id() {
            assert_eq!(next_non_loosing_states.len(), 1);
            assert_eq!(next_non_loosing_states[0].get_id(), 5057794943);
            loop_count += 1;
        }

        state = next_non_loosing_states[fastrand::usize(0..next_non_loosing_states.len())].clone();
    }
}

#[test]
fn player_1_wins_are_what_is_left() {
    let init_states = [BoardState::from(85065666045)];
    let seen_states = collect_reachable_states(&init_states);

    let mut remaining_states = seen_states.clone();
    let player_0_wins = collect_winning_states(&mut remaining_states);
    let player_1_wins = collect_player_1_winning_states(
        &init_states,
        remaining_states.clone(),
        player_0_wins.clone(),
    );

    assert_eq!(
        player_1_wins,
        &seen_states - (remaining_states.clone() | player_0_wins.clone())
    );
    assert!(player_1_wins.contains(85065666045));
    assert_eq!(player_0_wins.intersection_len(&player_1_wins), 0);
    assert_eq!(remaining_states.intersection_len(&player_1_wins), 0);
    assert_eq!(
        player_0_wins.len() + player_1_wins.len() + remaining_states.len(),
        seen_states.len()
    );
}

#[test]
fn seeds_in_any_order() {
    let first = BoardState::from(85065666045);
    let second = BoardState::from(5057791486);

    let forward = collect_reachable_states(&[first, second]);
    let backward = collect_reachable_states(&[second, first]);
    assert_eq!(forward, backward);

    let mut forward_remaining = forward.clone();
    let mut backward_remaining = backward.clone();
    assert_eq!(
        collect_winning_states(&mut forward_remaining),
        collect_winning_states(&mut backward_remaining)
    );
    assert_eq!(forward_remaining, backward_remaining);
}

/// The winning states of both players among the states reachable from `init_state`.
fn winning_states_from(init_state: &BoardState) -> [RoaringTreemap; 2] {
    let init_states = [init_state.clone()];
    let mut remaining_states = collect_reachable_states(&init_states);
    let player_0_wins = collect_winning_states(&mut remaining_states);
    let player_1_wins =
        collect_player_1_winning_states(&init_states, remaining_states, player_0_wins.clone());
    [player_0_wins, player_1_wins]
}

#[test]
fn winner_wins_every_game() {
    let init_state = BoardState::from(85065666045);
    let wins = winning_states_from(&init_state);

    for player in 0..=1 {
        assert_eq!(wins[player].contains(init_state.get_id()), player == 1);
        assert_eq!(
            wins[player].contains(init_state.get_next_state(0).unwrap().get_id()),
            player == 0
        );
        assert_eq!(
            wins[player].contains(init_state.get_next_state(1).unwrap().get_id()),
            player == 0
        );
        assert_eq!(
            wins[player].contains(init_state.get_next_state(4).unwrap().get_id()),
            player == 1
        );
    }

    // Player 1 wins whatever player 0 does, as long as player 1 keeps to winning states.
    for _i in 0..25 {
        let mut state = init_state.clone();
        while !state.is_ended() {
            let next_player = state.get_next_player();
            let next_states: Vec<BoardState> = state.get_next_states();
            let next_non_loosing_states: Vec<BoardState> = state
                .get_next_states()
                .into_iter()
                .filter(|s| wins[next_player].contains(s.get_id()))
                .collect();

            if next_player == 0 {
                assert!(next_non_loosing_states.is_empty());
                assert!(!next_states.is_empty());
                state = next_states[fastrand::usize(0..next_states.len())].clone();
            } else {
                assert!(!next_non_loosing_states.is_empty());
                state = next_non_loosing_states
                    [fastrand::usize(0..next_non_loosing_states.len())]
                .clone();
            }
        }

        assert!(state.get_next_player() == 0);
    }
}

#[test]
fn draw_can_be_kept_for_ever() {
    let init_state = BoardState::from(5057791486);
    let seen_states = collect_reachable_states(&[init_state.clone()]);
    let wins = winning_states_from(&init_state);

    assert!(seen_states.contains(init_state.get_id()));
    for player in 0..=1 {
        assert!(!seen_states.contains(BoardState::new_game(player).get_id()));
        assert!(!wins[player].contains(init_state.get_id()));

        assert_eq!(
            wins[player].contains(init_state.get_next_state(0).unwrap().get_id()),
            player == 1
        );
        assert_eq!(
            wins[player].contains(
                init_state
                    .get_next_state(0)
                    .unwrap()
                    .get_next_state(0)
                    .unwrap()
                    .get_id()
            ),
            player == 0
        );
        assert_eq!(
            wins[player].contains(init_state.get_next_state(2).unwrap().get_id()),
            player == 1
        );
        assert_eq!(
            wins[player].contains(
                init_state
                    .get_next_state(3)
                    .unwrap()
                    .get_next_state(3)
                    .unwrap()
                    .get_id()
            ),
            player == 0
        );
    }

    let mut state = init_state.clone();
    let mut loop_count = 0;
    while loop_count < 25 {
        for s in state.get_next_states() {
            assert!(seen_states.contains(s.get_id()));
        }

        let next_non_loosing_states: Vec<BoardState> = state
            .get_next_states()
            .into_iter()
            .filter(|s| !wins[s.get_next_player()].contains(s.get_id()))
            .collect();

        assert!(!next_non_loosing_states.is_empty());

        for s in &next_non_loosing_states {
            assert!(!s.is_ended());
            assert!(!wins[state.get_next_player()].contains(s.get_id()));
        }

        if state.get_id() == init_state.get_id() {
            assert_eq!(next_non_loosing_states.len(), 1);
            assert_eq!(next_non_loosing_states[0].get_id(), 5057794943);
            loop_count += 1;
        }

        state = next_non_loosing_states[fastrand::usize(0..next_non_loosing_states.len())].clone();
    }
}
