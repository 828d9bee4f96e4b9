use squadro::board_state::BoardState;

#[test]
fn initial_board() {
    for player in 0..=1 {
        let b = BoardState::new_game(player);

        for piece in 0..5 {
            assert_eq!(b.get_piece_position(0, piece), 0);
            assert_eq!(b.get_piece_position(1, piece), 0);
        }
    }
}

#[test]
fn first_player() {
    for player in 0..=1 {
        assert_eq!(BoardState::new_game(player).get_next_player(), player);
    }
}

#[test]
fn id() {
    let mut b = BoardState::new_game(1);
    assert_eq!(b.get_id(), 1);

    b.set_piece_position(0, 2, 3);
    assert_eq!(b.get_id(), 1 + 912384);

    b.set_piece_position(0, 2, 0);
    assert_eq!(b.get_id(), 1);

    b.set_piece_position(1, 2, 6);
    assert_eq!(b.get_id(), 1 + 207360);

    b.set_next_player(0);
    assert_eq!(b.get_id(), 207360);

    b.set_piece_position(0, 4, 5);
    assert_eq!(b.get_id(), 207360 + 120);

    b.set_piece_position(1, 4, 8);
    assert_eq!(b.get_id(), 207360 + 120 + 14);

    b.set_piece_position(0, 3, 4);
    assert_eq!(b.get_id(), 207360 + 120 + 14 + 10368);
}

#[test]
fn from() {
    for id in [0, 1, 4995120, 104055570117] {
        assert_eq!(BoardState::from(id).get_id(), id);
    }
}

#[test]
fn id_parts() {
    let parts: [u64; 11] = [11, 10, 9, 8, 7, 6, 5, 4, 3, 2, 1];

    let mut b = BoardState::from(0);

    for (i, &part) in parts.iter().enumerate() {
        b.set_id_part(i, part);
    }

    for (i, &part) in parts.iter().enumerate() {
        assert_eq!(b.get_id_part(i), part);
        b.set_id_part(i, 0);
    }

    assert_eq!(b.get_id(), 0);
}

#[test]
fn next_player() {
    let mut b = BoardState::new_game(1);

    for player in 0..=1 {
        b.set_next_player(player);
        assert_eq!(b.get_next_player(), player);
    }

    b.switch_next_player();
    assert_eq!(b.get_next_player(), 0);
    b.switch_next_player();
    assert_eq!(b.get_next_player(), 1);
}

#[test]
fn piece_position() {
    let mut b = BoardState::new_game(0);

    let positions: [[usize; 5]; 2] = [[0, 6, 12, 9, 9], [7, 1, 12, 1, 6]];

    for (player, pieces_positions) in positions.iter().enumerate() {
        for (piece, &piece_position) in pieces_positions.iter().enumerate() {
            b.set_piece_position(player, piece, piece_position);
        }
    }

    for (player, pieces_positions) in positions.iter().enumerate() {
        for (piece, &piece_position) in pieces_positions.iter().enumerate() {
            assert_eq!(b.get_piece_position(player, piece), piece_position);
            b.set_piece_position(player, piece, 0);
        }
    }

    assert_eq!(b.get_id(), 0);
}

#[test]
fn game_end() {
    let mut b = BoardState::new_game(0);
    assert!(!b.is_ended());

    for i in 0..=2 {
        b.set_piece_position(0, i, 12);
        assert!(!b.is_ended());
    }

    for i in 1..=3 {
        b.set_piece_position(1, i, 12);
        assert!(!b.is_ended());
    }

    b.set_piece_position(1, 0, 12);
    assert!(b.is_ended());

    b.set_piece_position(1, 2, 11);
    assert!(!b.is_ended());

    b.set_next_player(1);
    assert!(!b.is_ended());

    b.set_piece_position(0, 4, 11);
    assert!(!b.is_ended());

    b.set_piece_position(0, 4, 12);
    assert!(b.is_ended());
}

#[test]
fn collisions() {
    let mut b = BoardState::new_game(0);

    b.set_piece_position(0, 0, 2);
    b.set_piece_position(0, 1, 3);
    b.set_piece_position(0, 2, 4);
    b.set_piece_position(0, 3, 10);
    b.set_piece_position(0, 4, 9);

    b.fix_possible_collision(1, 2, 2);
    assert_eq!(b.get_piece_position(0, 0), 2);
    assert_eq!(b.get_piece_position(0, 1), 0);

    b.fix_possible_collision(1, 2, 3);
    assert_eq!(b.get_piece_position(0, 2), 4);

    b.fix_possible_collision(1, 2, 4);
    assert_eq!(b.get_piece_position(0, 3), 10);

    b.fix_possible_collision(1, 2, 5);
    assert_eq!(b.get_piece_position(0, 4), 6);
}

#[test]
fn next_state() {
    let mut b = BoardState::new_game(1);

    b.set_piece_position(0, 0, 1);
    b.set_piece_position(0, 1, 2);
    b.set_piece_position(0, 2, 2);
    b.set_piece_position(0, 3, 7);
    b.set_piece_position(0, 4, 11);

    b.set_piece_position(1, 0, 2);
    b.set_piece_position(1, 1, 12);
    b.set_piece_position(1, 2, 3);
    b.set_piece_position(1, 3, 3);
    b.set_piece_position(1, 4, 7);

    let all_next_states_id: Vec<u64> = b.get_next_states().iter().map(|b| b.get_id()).collect();
    assert_eq!(all_next_states_id.len(), 4);

    // Player 1, piece 0.
    let mut b2 = b.get_next_state(0).expect("Piece 0 should be movable");
    assert!(all_next_states_id.contains(&b2.get_id()));
    assert_eq!(b2.get_piece_position(1, 0), 6);
    b2.set_piece_position(1, 0, 2);
    assert_eq!(b2.get_piece_position(0, 4), 6);
    b2.set_piece_position(0, 4, 11);
    b2.switch_next_player();
    assert_eq!(b2.get_id(), b.get_id());

    // Player 1, piece 1.
    assert!(b.get_next_state(1).is_none());

    // Player 1, piece 2.
    let mut b2 = b.get_next_state(2).expect("Piece 2 should be movable");
    assert!(all_next_states_id.contains(&b2.get_id()));
    assert_eq!(b2.get_piece_position(1, 2), 5);
    b2.set_piece_position(1, 2, 3);
    b2.switch_next_player();
    assert_eq!(b2.get_id(), b.get_id());

    // Player 1, piece 3.
    let mut b2 = b.get_next_state(3).expect("Piece 3 should be movable");
    assert!(all_next_states_id.contains(&b2.get_id()));
    assert_eq!(b2.get_piece_position(1, 3), 4);
    b2.set_piece_position(1, 3, 3);
    b2.switch_next_player();
    assert_eq!(b2.get_id(), b.get_id());

    // Player 1, piece 4.
    let mut b2 = b.get_next_state(4).expect("Piece 4 should be movable");
    assert!(all_next_states_id.contains(&b2.get_id()));
    assert_eq!(b2.get_piece_position(1, 4), 9);
    b2.set_piece_position(1, 4, 7);
    assert_eq!(b2.get_piece_position(0, 3), 6);
    b2.set_piece_position(0, 3, 7);
    b2.switch_next_player();
    assert_eq!(b2.get_id(), b.get_id());

    // Player 1, pieces 5 to 9999.
    for i in 5..10000 {
        assert!(b.get_next_state(i).is_none());
    }

    b.set_next_player(0);

    let all_next_states_id: Vec<u64> = b.get_next_states().iter().map(|b| b.get_id()).collect();
    assert_eq!(all_next_states_id.len(), 5);

    // Player 0, piece 0.
    let mut b2 = b.get_next_state(0).expect("Piece 0 should be movable");
    assert!(all_next_states_id.contains(&b2.get_id()));
    assert_eq!(b2.get_piece_position(0, 0), 2);
    b2.set_piece_position(0, 0, 1);
    b2.switch_next_player();
    assert_eq!(b2.get_id(), b.get_id());

    // Player 0, piece 1.
    let mut b2 = b.get_next_state(1).expect("Piece 1 should be movable");
    assert!(all_next_states_id.contains(&b2.get_id()));
    assert_eq!(b2.get_piece_position(0, 1), 5);
    b2.set_piece_position(0, 1, 2);
    b2.switch_next_player();
    assert_eq!(b2.get_id(), b.get_id());

    // Player 0, piece 2.
    let mut b2 = b.get_next_state(2).expect("Piece 2 should be movable");
    assert!(all_next_states_id.contains(&b2.get_id()));
    assert_eq!(b2.get_piece_position(0, 2), 5);
    b2.set_piece_position(0, 2, 2);
    for piece in 2..=3 {
        assert_eq!(b2.get_piece_position(1, piece), 0);
        b2.set_piece_position(1, piece, 3);
    }
    b2.switch_next_player();
    assert_eq!(b2.get_id(), b.get_id());

    // Player 0, piece 3.
    let mut b2 = b.get_next_state(3).expect("Piece 3 should be movable");
    assert!(all_next_states_id.contains(&b2.get_id()));
    assert_eq!(b2.get_piece_position(0, 3), 8);
    b2.set_piece_position(0, 3, 7);
    b2.switch_next_player();
    assert_eq!(b2.get_id(), b.get_id());

    // Player 0, piece 4.
    let mut b2 = b.get_next_state(4).expect("Piece 4 should be movable");
    assert!(all_next_states_id.contains(&b2.get_id()));
    assert_eq!(b2.get_piece_position(0, 4), 12);
    b2.set_piece_position(0, 4, 11);
    b2.switch_next_player();
    assert_eq!(b2.get_id(), b.get_id());

    // Player 0, pieces 5 to 9999.
    for i in 5..10000 {
        assert!(b.get_next_state(i).is_none());
    }
}
