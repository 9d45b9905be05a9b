use connect_four::Position6;

#[test]
fn position6_can_play() {
    let mut position = Position6::new();
    for r in 0..5 {
        for c in 0..7 {
            position.heights[c] = r;
            assert!(position.can_play(c))
        }
    }
}

#[test]
fn play() {
    let mut position = Position6::new();
    position.play(0);
    assert_eq!(position.bitboard[0], 0b1);
    position.play(0);
    assert_eq!(position.bitboard[1], 0b10);
    position.play(0);
    assert_eq!(position.bitboard[0], 0b101);
    position.play(0);
    assert_eq!(position.bitboard[1], 0b1010);

    position = Position6::new();
    position.play(1);
    assert_eq!(position.bitboard[0], 0b10000000);
    position.play(1);
    assert_eq!(position.bitboard[1], 0b100000000);
}

#[test]
fn unplay() {
    let mut position = Position6::new();
    position.play(0);
    assert_eq!(position.bitboard[0], 0b1);
    position.unplay(0);
    assert_eq!(position.bitboard[0], 0b0);
    position.play(1);
    assert_eq!(position.bitboard[0], 0b10000000);
    position.unplay(1);
    assert_eq!(position.bitboard[0], 0b0);

    for _i in 0..3 {
        position.play(0);
    }

    assert_eq!(position.bitboard[0], 0b101);
    assert_eq!(position.bitboard[1], 0b10);
    position.unplay(0);
    assert_eq!(position.bitboard[0], 0b1);
    assert_eq!(position.bitboard[1], 0b10);
    position.unplay(0);
    assert_eq!(position.bitboard[0], 0b1);
    assert_eq!(position.bitboard[1], 0b0);
}

#[test]
fn is_winning_move_horizontal() {
    let mut position = Position6::new();
    let l = position.play_sequence("334323");
    assert_eq!(l, 6);

    let mut result = position.is_winning_move(0);
    assert!(result);
    result = position.is_winning_move(4);
    assert!(result);
    result = position.is_winning_move(5);
    assert!(!result);
    result = position.is_winning_move(6);
    assert!(!result);
}

#[test]
fn is_winning_move_diag1() {
    let mut position = Position6::new();
    let l = position.play_sequence("5443354556");
    assert_eq!(l, 10);

    let result = position.is_winning_move(1);
    assert!(result);
}

#[test]
fn can_play_by_lane_height() {
    let mut position = Position6::new();
    for c in 0..7u8 {
        for h in 0..6u8 {
            position.heights[c as usize] = 7 * c + h;
            assert!(position.can_play(c as usize));
        }
        position.heights[c as usize] = 7 * c + 6;
        assert!(!position.can_play(c as usize));
    }
}

#[test]
fn column_fills_after_six_stones() {
    let mut position = Position6::new();
    for _i in 0..6 {
        assert!(position.can_play(3));
        position.play(3);
    }
    assert!(!position.can_play(3));
    assert_eq!(position.heights[3], 27);
    assert_eq!(position.moves, 6);
}

#[test]
fn play_then_unplay_restores_position() {
    let mut position = Position6::new();
    assert_eq!(position.play_sequence("4433521"), 7);
    let heights = position.heights;
    let bitboard = position.bitboard;
    let moves = position.moves;
    for c in 0..7 {
        if position.can_play(c) {
            position.play(c);
            assert_ne!(position.bitboard, bitboard);
            position.unplay(c);
            assert_eq!(position.heights, heights);
            assert_eq!(position.bitboard, bitboard);
            assert_eq!(position.moves, moves);
        }
    }
}

#[test]
fn play_sets_side_to_move_bit() {
    let mut position = Position6::new();
    position.play(6);
    assert_eq!(position.bitboard[0], 1u64 << 42);
    assert_eq!(position.bitboard[1], 0);
    assert_eq!(position.heights[6], 43);
    assert_eq!(position.moves, 1);
}

#[test]
fn sequence_stops_at_full_column() {
    let mut position = Position6::new();
    assert_eq!(position.play_sequence("1111111"), 6);
    assert_eq!(position.moves, 6);
}

#[test]
fn sequence_stops_at_column_off_the_board() {
    let mut position = Position6::new();
    assert_eq!(position.play_sequence("1824"), 1);
    assert_eq!(position.moves, 1);
    let mut other = Position6::new();
    assert_eq!(other.play_sequence("9"), 0);
    assert_eq!(other.moves, 0);
}

#[test]
fn sequence_stops_before_winning_move() {
    let mut position = Position6::new();
    assert_eq!(position.play_sequence("12121213"), 6);
    assert_eq!(position.moves, 6);
    assert!(position.is_winning_move(0));
    assert_eq!(position.bitboard[0], 0b111);
}

#[test]
fn empty_sequence_plays_nothing() {
    let mut position = Position6::new();
    assert_eq!(position.play_sequence(""), 0);
    assert_eq!(position.moves, 0);
    assert_eq!(position.heights, [0, 7, 14, 21, 28, 35, 42]);
}

#[test]
fn no_win_on_empty_board() {
    let position = Position6::new();
    for c in 0..7 {
        assert!(!position.is_winning_move(c));
    }
}

#[test]
fn vertical_and_diagonal_wins_detected() {
    let mut position = Position6::new();
    assert_eq!(position.play_sequence("121212"), 6);
    assert!(position.is_winning_move(0));
    assert!(!position.is_winning_move(1));
    assert!(!position.is_winning_move(2));

    let mut rising = Position6::new();
    assert_eq!(rising.play_sequence("1223433454"), 10);
    assert!(rising.is_winning_move(3));
}
