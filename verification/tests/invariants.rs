use roaring::RoaringTreemap;
use squadro::board_state::{BoardState, FIRST_MOVES, ID_LIMIT, ID_PART_FACTOR, ID_PART_SIZE};
use squadro::generate::{
    collect_player_1_winning_states, collect_reachable_states, collect_winning_states,
};
use squadro::text::{digit_to_char, push_decimal};

/// Some IDs spread over the whole range, the ends included.
fn sample_ids() -> Vec<u64> {
    let mut ids: Vec<u64> = (0..2000).map(|i| i * 52027785 + i % 7).collect();
    ids.extend([0, 1, 2, 23, 24, ID_LIMIT / 2, ID_LIMIT - 2, ID_LIMIT - 1]);
    ids.retain(|id| *id < ID_LIMIT);
    ids
}

/// Can `piece` of `player` rest at `position`?
fn can_rest(player: usize, piece: usize, position: usize) -> bool {
    let first_move = FIRST_MOVES[player][piece];
    position <= 12 && (position != 1 || first_move == 1) && (position != 7 || first_move == 3)
}

#[test]
fn new_game_ids() {
    assert_eq!(BoardState::new_game(0).get_id(), 0);
    assert_eq!(BoardState::new_game(1).get_id(), 1);
}

#[test]
fn start_has_five_successors() {
    for player in 0..=1 {
        let start = BoardState::new_game(player);
        assert_eq!(start.get_next_states().len(), 5);
        assert_eq!(start.get_next_state(0).unwrap().get_id(), [8671297537, 1445216256][player]);
    }
    let ids: Vec<u64> = BoardState::from(0)
        .get_next_states()
        .iter()
        .map(|state| state.get_id())
        .collect();
    assert_eq!(ids, vec![8671297537, 120434689, 456193, 6913, 25]);
}

#[test]
fn limit_is_the_product_of_the_part_sizes() {
    assert_eq!(ID_PART_SIZE.iter().product::<u64>(), ID_LIMIT);
    assert_eq!(ID_PART_FACTOR[0] * ID_PART_SIZE[0], 104055570432);
    for index in 0..10 {
        assert_eq!(
            ID_PART_FACTOR[index],
            ID_PART_FACTOR[index + 1] * ID_PART_SIZE[index + 1]
        );
    }
}

#[test]
fn ids_and_positions_correspond() {
    for id in sample_ids() {
        let state = BoardState::from(id);

        // The ID is the weighted sum of its parts.
        let sum: u64 = (0..11)
            .map(|index| state.get_id_part(index) * ID_PART_FACTOR[index])
            .sum();
        assert_eq!(sum, id);

        // Every piece stands where it can rest, and placing the pieces of
        // an empty board there gives the ID back.
        let mut rebuilt = BoardState::new_game(state.get_next_player());
        for player in 0..=1 {
            for piece in 0..5 {
                let position = state.get_piece_position(player, piece);
                assert!(can_rest(player, piece, position));
                rebuilt.set_piece_position(player, piece, position);
            }
        }
        assert_eq!(rebuilt.get_id(), id);
    }
}

#[test]
fn positions_are_read_as_they_were_set() {
    let mut state = BoardState::from(41234567890);
    for player in 0..=1 {
        for piece in 0..5 {
            for position in 0..=12 {
                let before = state.clone();
                state.set_piece_position(player, piece, position);
                assert!(state.get_id() < ID_LIMIT);

                if can_rest(player, piece, position) {
                    assert_eq!(state.get_piece_position(player, piece), position);
                } else {
                    // A square where the piece cannot rest counts as the next one.
                    assert_eq!(state.get_piece_position(player, piece), position + 1);
                }
                for other_player in 0..=1 {
                    for other_piece in 0..5 {
                        if (other_player, other_piece) != (player, piece) {
                            assert_eq!(
                                state.get_piece_position(other_player, other_piece),
                                before.get_piece_position(other_player, other_piece)
                            );
                        }
                    }
                }
                assert_eq!(state.get_next_player(), before.get_next_player());
            }
        }
    }
}

#[test]
fn setting_a_part_leaves_the_others() {
    for id in sample_ids().into_iter().step_by(37) {
        for index in 0..11 {
            for value in [0, 1, ID_PART_SIZE[index] - 1] {
                let mut state = BoardState::from(id);
                let before: Vec<u64> = (0..11).map(|other| state.get_id_part(other)).collect();
                state.set_id_part(index, value);

                assert!(state.get_id() < ID_LIMIT);
                for other in 0..11 {
                    let expected = if other == index { value } else { before[other] };
                    assert_eq!(state.get_id_part(other), expected);
                }
                assert_eq!(
                    state.get_id(),
                    id - before[index] * ID_PART_FACTOR[index] + value * ID_PART_FACTOR[index]
                );
            }
        }
    }
}

#[test]
fn switching_twice_changes_nothing() {
    for id in sample_ids() {
        let mut state = BoardState::from(id);
        state.switch_next_player();
        assert_eq!(state.get_id(), id ^ 1);
        assert_eq!(state.get_next_player(), 1 - BoardState::from(id).get_next_player());
        state.switch_next_player();
        assert_eq!(state.get_id(), id);
    }
}

#[test]
fn game_stays_over_when_pieces_go_on() {
    // Player 1 has just moved and has one piece left.
    let mut ended = BoardState::new_game(0);
    for piece in 0..4 {
        ended.set_piece_position(1, piece, 12);
    }
    ended.set_piece_position(1, 4, 3);
    ended.set_piece_position(0, 2, 5);
    assert!(ended.is_ended());

    for player in 0..=1 {
        for piece in 0..5 {
            let from = ended.get_piece_position(player, piece);
            for position in from..=12 {
                let mut later = ended.clone();
                later.set_piece_position(player, piece, position);
                assert!(later.is_ended());
            }
        }
    }
}

#[test]
fn pieces_on_a_pivot_do_not_collide() {
    let mut state = BoardState::new_game(0);
    state.set_piece_position(0, 2, 6);
    state.set_piece_position(0, 0, 3);
    state.set_piece_position(0, 4, 9);
    let id = state.get_id();

    // A piece that arrives on a pivot meets nobody.
    for position in [0, 6, 12] {
        for piece in 0..5 {
            assert!(!state.fix_possible_collision(1, piece, position));
            assert_eq!(state.get_id(), id);
        }
    }
    // At square 3, piece 2 of player 1 crosses the lane of piece 2 of
    // player 0, which stands on a pivot.
    assert!(!state.fix_possible_collision(1, 2, 3));
    // At square 1, piece 1 crosses the lane of piece 0, which stands in the
    // row of piece 2.
    assert!(!state.fix_possible_collision(1, 1, 1));
    assert_eq!(state.get_id(), id);

    // Piece 2 meets it there: piece 0 goes back home.
    assert!(state.fix_possible_collision(1, 2, 1));
    assert_eq!(state.get_piece_position(0, 0), 0);
    // On its way back, at square 7, piece 2 crosses the lane of piece 4,
    // which is on its way back in the row of piece 2: it goes back to the far side.
    assert!(state.fix_possible_collision(1, 2, 7));
    assert_eq!(state.get_piece_position(0, 4), 6);
    assert_eq!(state.get_piece_position(0, 2), 6);
    assert_eq!(state.get_next_player(), 0);
}

#[test]
fn successors_of_reachable_states() {
    let seen_states = collect_reachable_states(&[BoardState::from(85065666045)]);
    assert!(seen_states.len() > 100);

    for id in seen_states.iter() {
        let state = BoardState::from(id);
        let next_states = state.get_next_states();

        let mut movable = 0;
        for piece in 0..5 {
            let retired = state.get_piece_position(state.get_next_player(), piece) == 12;
            let next_state = state.get_next_state(piece);
            // A piece that has retired cannot move; any other can.
            assert_eq!(next_state.is_none(), retired);
            if let Some(next_state) = next_state {
                assert_eq!(next_state.get_next_player(), 1 - state.get_next_player());
                assert_eq!(next_states[movable].get_id(), next_state.get_id());
                assert!(next_state.get_id() < ID_LIMIT);
                movable += 1;
            }
        }
        assert_eq!(next_states.len(), movable);

        if !state.is_ended() {
            assert!(!next_states.is_empty());
            // The reachable states are closed under moves.
            for next_state in &next_states {
                assert!(seen_states.contains(next_state.get_id()));
            }
        }
    }
}

#[test]
fn classes_of_reachable_states() {
    for seed in [85065666045, 5057791486, 100382226046] {
        let init_states = [BoardState::from(seed)];
        let seen_states = collect_reachable_states(&init_states);
        let mut draws = seen_states.clone();
        let player_0_wins = collect_winning_states(&mut draws);
        let player_1_wins =
            collect_player_1_winning_states(&init_states, draws.clone(), player_0_wins.clone());
        let wins: [&RoaringTreemap; 2] = [&player_0_wins, &player_1_wins];

        // The three classes are disjoint and make up the reachable states.
        assert_eq!(player_0_wins.intersection_len(&player_1_wins), 0);
        assert_eq!(player_0_wins.intersection_len(&draws), 0);
        assert_eq!(player_1_wins.intersection_len(&draws), 0);
        assert_eq!(&(&player_0_wins | &player_1_wins) | &draws, seen_states);

        for id in seen_states.iter() {
            let state = BoardState::from(id);
            let next_player = state.get_next_player();
            let next_ids: Vec<u64> = state
                .get_next_states()
                .iter()
                .map(|next_state| next_state.get_id())
                .collect();

            if state.is_ended() {
                // The player who is not to move has won.
                assert!(wins[1 - next_player].contains(id));
            } else if wins[next_player].contains(id) {
                assert!(next_ids.iter().any(|next| wins[next_player].contains(*next)));
            } else if wins[1 - next_player].contains(id) {
                assert!(next_ids.iter().all(|next| wins[1 - next_player].contains(*next)));
            } else {
                // A draw: no move wins, and some move keeps the draw.
                assert!(draws.contains(id));
                assert!(!next_ids.iter().any(|next| wins[next_player].contains(*next)));
                assert!(next_ids.iter().any(|next| draws.contains(*next)));
            }
        }
    }
}

#[test]
fn no_state_reached_from_an_ended_game() {
    let mut ended = BoardState::new_game(1);
    for piece in 0..4 {
        ended.set_piece_position(0, piece, 12);
    }
    assert!(ended.is_ended());

    let seen_states = collect_reachable_states(&[ended.clone()]);
    assert_eq!(seen_states.iter().collect::<Vec<u64>>(), vec![ended.get_id()]);

    let mut draws = seen_states.clone();
    let player_0_wins = collect_winning_states(&mut draws);
    assert!(draws.is_empty());
    assert_eq!(player_0_wins, seen_states);

    assert!(collect_reachable_states(&[]).is_empty());
    assert!(collect_winning_states(&mut RoaringTreemap::new()).is_empty());
}

#[test]
fn numbers_as_text() {
    let text_of = |number: u64| {
        let mut text = String::from("n = ");
        push_decimal(&mut text, number);
        text
    };
    assert_eq!(text_of(0), "n = 0");
    assert_eq!(text_of(7), "n = 7");
    assert_eq!(text_of(10), "n = 10");
    assert_eq!(text_of(104055570117), "n = 104055570117");
    assert_eq!(text_of(u64::MAX), "n = 18446744073709551615");
    for digit in 0..10 {
        assert_eq!(digit_to_char(digit).to_string(), digit.to_string());
    }
}
