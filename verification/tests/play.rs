use roaring::RoaringTreemap;
use squadro::board_state::BoardState;
use squadro::generate::{
    collect_player_1_winning_states, collect_reachable_states, collect_winning_states,
};
use squadro::play::{
    available_pieces, get_best_next_state, get_next_state_from_user_input,
    get_shuffled_next_states, piece_from_input, BoardStateEval,
};

/// The winning states of both players among the states reachable from `init_states`.
fn winning_states(init_states: &[BoardState]) -> [RoaringTreemap; 2] {
    let mut remaining_states = collect_reachable_states(init_states);
    let player_0_wins = collect_winning_states(&mut remaining_states);
    let player_1_wins =
        collect_player_1_winning_states(init_states, remaining_states, player_0_wins.clone());
    [player_0_wins, player_1_wins]
}

/// The best next state, with the next states looked up in `wins`.
fn best_next_state(
    state: BoardState,
    wins: &[RoaringTreemap; 2],
) -> (Option<BoardState>, Option<BoardStateEval>) {
    let next_player = state.get_next_player();
    let next_states = get_shuffled_next_states(&state);
    let winning: Vec<bool> = next_states
        .iter()
        .map(|s| wins[next_player].contains(s.get_id()))
        .collect();
    let losing: Vec<bool> = next_states
        .iter()
        .map(|s| wins[1 - next_player].contains(s.get_id()))
        .collect();
    get_best_next_state(&next_states, &winning, &losing)
}

/// The next state for the first line of `input` that asks for a valid move.
fn next_state_from_lines(state: BoardState, input: &[u8]) -> Option<BoardState> {
    for line in input.split(|byte| *byte == b'\n') {
        // A line that is no text is passed over, as when it is read from a terminal.
        if let Ok(line) = std::str::from_utf8(line) {
            if let Some(next_state) = get_next_state_from_user_input(&state, line) {
                return Some(next_state);
            }
        }
    }
    None
}

#[test]
fn human_input() {
    let check_result = |id, input: &[u8], expected_id_opt: Option<u64>| {
        let state_opt = next_state_from_lines(BoardState::from(id), input);
        assert_eq!(state_opt.is_none(), expected_id_opt.is_none());
        if let Some(expected_id) = expected_id_opt {
            assert_eq!(state_opt.unwrap().get_id(), expected_id);
        }
    };

    check_result(100382226046, &b"2\n0\n"[..], None);
    check_result(100382226046, &b"\xDF\n \n"[..], None);
    check_result(100382226046, &b"\x82\xe6\n\xDF\n1"[..], Some(100442443391));
    check_result(100382226046, &b"\n\n\n0\n1\n"[..], Some(100442443391));
    check_result(100382226046, &b"0\r\n1\r\n"[..], Some(100442443391));
    check_result(100382226046, &b"2\n0\n3\n1\n"[..], Some(100382229503));
    check_result(100382226046, &b"1 3\n2\n3\n"[..], Some(100382229503));
}

#[test]
fn best_outcome() {
    let init_states = [5057791486, 85065666045].map(BoardState::from);
    let wins = winning_states(&init_states);

    let check_result = |id, expected_ids: &[u64], expected_eval| {
        let (state_opt, eval_opt) = best_next_state(BoardState::from(id), &wins);
        assert!(expected_ids.contains(&state_opt.unwrap().get_id()));
        assert_eq!(eval_opt, Some(expected_eval));
    };

    check_result(85065666045, &[85065666046], BoardStateEval::Win);

    for _i in 0..25 {
        check_result(
            85065666046,
            &[85066578431, 85125883391, 102408261119],
            BoardStateEval::Loss,
        );

        let mut state = BoardState::from(85065666045);
        while !state.is_ended() {
            let (state_opt, eval_opt) = best_next_state(state, &wins);
            state = state_opt.unwrap();

            if state.get_next_player() == 0 {
                assert_eq!(eval_opt, Some(BoardStateEval::Win));
            } else {
                assert_eq!(eval_opt, Some(BoardStateEval::Loss));
            }
        }
    }

    check_result(5057791486, &[5057794943], BoardStateEval::Draw);
    check_result(5057794943, &[7223777278], BoardStateEval::Draw);

    let mut state = BoardState::from(5057791486);
    for _i in 0..25 {
        let (state_opt, eval_opt) = best_next_state(state, &wins);
        state = state_opt.unwrap();

        assert!(!state.is_ended());
        assert_eq!(eval_opt, Some(BoardStateEval::Draw));
    }
}

#[test]
fn best_state_by_flags() {
    let states = [10, 20, 30].map(BoardState::from);
    let best = |winning: [bool; 3], losing: [bool; 3]| {
        let (state, eval) = get_best_next_state(&states, &winning, &losing);
        (state.unwrap().get_id(), eval.unwrap())
    };

    // The first winning state, whatever else there is.
    assert_eq!(
        best([false, true, true], [false, false, false]),
        (20, BoardStateEval::Win)
    );
    // Without a winning state, the first that is not losing.
    assert_eq!(
        best([false, false, false], [true, true, false]),
        (30, BoardStateEval::Draw)
    );
    assert_eq!(
        best([false, false, false], [false, true, false]),
        (10, BoardStateEval::Draw)
    );
    // Without either, the first state.
    assert_eq!(
        best([false, false, false], [true, true, true]),
        (10, BoardStateEval::Loss)
    );
}

#[test]
fn pieces_named_by_input() {
    for piece in 0..=4 {
        assert_eq!(piece_from_input(&piece.to_string()), Some(piece));
    }
    assert_eq!(piece_from_input(" 4 "), Some(4));
    assert_eq!(piece_from_input("\t3\r\n"), Some(3));
    assert_eq!(piece_from_input("\u{a0}2\u{2003}"), Some(2));
    assert_eq!(piece_from_input("+1"), Some(1));
    assert_eq!(piece_from_input("0004"), Some(4));
    assert_eq!(piece_from_input("+000"), Some(0));

    assert_eq!(piece_from_input(""), None);
    assert_eq!(piece_from_input("   "), None);
    assert_eq!(piece_from_input("+"), None);
    assert_eq!(piece_from_input("++1"), None);
    assert_eq!(piece_from_input("-0"), None);
    assert_eq!(piece_from_input("1+"), None);
    assert_eq!(piece_from_input("5"), None);
    assert_eq!(piece_from_input("10"), None);
    assert_eq!(piece_from_input("14"), None);
    assert_eq!(piece_from_input("1 3"), None);
    assert_eq!(piece_from_input("2a"), None);
    assert_eq!(piece_from_input("\u{ff13}"), None);
    assert_eq!(piece_from_input("99999999999999999999999999999"), None);
    assert_eq!(piece_from_input("18446744073709551617"), None);

    // Of the ASCII characters, the tab, the line feed, the vertical tab, the
    // form feed, the carriage return and the space go, and no other.
    assert_eq!(piece_from_input("\t\n\u{b}\u{c}\r 2 \r\u{c}\u{b}\n\t"), Some(2));
    for code in 0..=127u8 {
        let space = (9..=13).contains(&code) || code == 32;
        let after = format!("2{}", char::from(code));
        assert_eq!(piece_from_input(&after), if space { Some(2) } else { None });
        assert_eq!(after.trim() == "2", space);
    }

    // What the line names is what the standard parser reads from it.
    for line in [
        "3", " +2\n", "007", "4294967296", "x", "", "+", "4 ", "\u{85}1", "1\u{3000}", "\u{1c}1",
        "\u{200b}1",
    ] {
        let parsed = line.trim().parse::<usize>().ok().filter(|piece| *piece <= 4);
        assert_eq!(piece_from_input(line), parsed);
    }
}

#[test]
fn pieces_that_can_move() {
    assert_eq!(available_pieces(&BoardState::from(0)), "0, 1, 2, 3, 4");
    assert_eq!(available_pieces(&BoardState::from(100382226046)), "1, 3");

    // Only piece 4 of player 0 has not retired.
    let mut last = BoardState::new_game(0);
    for piece in 0..4 {
        last.set_piece_position(0, piece, 12);
    }
    assert_eq!(available_pieces(&last), "4");
    last.set_piece_position(0, 4, 12);
    assert_eq!(available_pieces(&last), "");
}

#[test]
fn shuffled_states_are_the_next_states() {
    for id in [0, 1, 100382226046, 85065666045, 5057791486] {
        let state = BoardState::from(id);
        let mut expected: Vec<u64> = state.get_next_states().iter().map(|s| s.get_id()).collect();
        expected.sort();

        for _i in 0..25 {
            let mut shuffled: Vec<u64> = get_shuffled_next_states(&state)
                .iter()
                .map(|s| s.get_id())
                .collect();
            shuffled.sort();
            assert_eq!(shuffled, expected);
        }
    }

    // Some order other than the order of the pieces comes up.
    let state = BoardState::from(0);
    let ordered: Vec<u64> = state.get_next_states().iter().map(|s| s.get_id()).collect();
    assert!((0..200).any(|_| {
        let shuffled: Vec<u64> = get_shuffled_next_states(&state)
            .iter()
            .map(|s| s.get_id())
            .collect();
        shuffled != ordered
    }));
}
