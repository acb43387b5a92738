use slide_puzzle::game::{Board, Move, ALL_MOVES, MAX_CELLS};

fn trivial_board() -> Board {
    Board::from_vec(vec![0, 1, 2, 3, 4, 5, 6, 7, 8]).unwrap()
}

fn solved() -> Board {
    Board::from_vec(vec![1, 2, 3, 4, 5, 6, 7, 8, 0]).unwrap()
}

#[test]
fn trivial_board_construction() {
    let expected = trivial_board();

    assert_eq!(Some(expected), Board::from_vec(vec![0, 1, 2, 3, 4, 5, 6, 7, 8]));
}

#[test]
fn bad_boards_do_not_build() {
    assert_eq!(None, Board::from_vec(vec![1; 9]));
    assert_eq!(None, Board::from_vec(vec![0; 9]));
    assert_eq!(None, Board::from_vec(vec![1, 2, 3, 4, 5, 6, 5, 7, 0]));
}

#[test]
fn trivial_move_right() {
    let expected = Board::from_vec(vec![1, 0, 2, 3, 4, 5, 6, 7, 8]).unwrap();

    assert_eq!(Some(expected), trivial_board().update(Move::Right));
}

#[test]
fn bad_movements_fail() {
    let upper_left = trivial_board();

    assert_eq!(None, upper_left.update(Move::Left));
    assert_eq!(None, upper_left.update(Move::Up));

    let lower_right = Board::from_vec(vec![1, 2, 3, 4, 5, 6, 7, 8, 0]).unwrap();
    assert_eq!(None, lower_right.update(Move::Right));
    assert_eq!(None, lower_right.update(Move::Down));
}

#[test]
fn permutations_of_square_sizes_build() {
    assert!(Board::from_vec(vec![0]).is_some());
    assert!(Board::from_vec(vec![3, 0, 2, 1]).is_some());
    assert!(Board::from_vec(vec![8, 7, 6, 5, 4, 3, 2, 1, 0]).is_some());
    let sixteen: Vec<u8> = (0..16).rev().collect();
    assert!(Board::from_vec(sixteen).is_some());
    let largest: Vec<u8> = (0..225).collect();
    assert_eq!(Board::from_vec(largest).map(|b| b.side()), Some(15));
}

#[test]
fn non_square_and_empty_lengths_are_rejected() {
    assert_eq!(None, Board::from_vec(vec![]));
    assert_eq!(None, Board::from_vec(vec![0, 1]));
    assert_eq!(None, Board::from_vec(vec![0, 1, 2, 3, 4, 5, 6, 7]));
    let ten: Vec<u8> = (0..10).collect();
    assert_eq!(None, Board::from_vec(ten));
}

#[test]
fn values_out_of_range_are_rejected() {
    assert_eq!(None, Board::from_vec(vec![0, 1, 2, 4]));
    assert_eq!(None, Board::from_vec(vec![1, 2, 3, 4, 5, 6, 7, 8, 9]));
}

#[test]
fn oversized_boards_are_rejected() {
    assert_eq!(MAX_CELLS, 255);
    let too_many: Vec<u8> = (0..256u32).map(|v| (v % 256) as u8).collect();
    assert_eq!(None, Board::from_vec(too_many));
}

#[test]
fn side_is_the_edge_length() {
    assert_eq!(3, trivial_board().side());
    assert_eq!(1, Board::from_vec(vec![0]).unwrap().side());
    assert_eq!(2, Board::from_vec(vec![1, 0, 3, 2]).unwrap().side());
}

#[test]
fn interior_hole_moves_swap_two_cells() {
    let centre = Board::from_vec(vec![1, 2, 3, 4, 0, 5, 6, 7, 8]).unwrap();
    let expected = [
        (Move::Left, vec![1, 2, 3, 0, 4, 5, 6, 7, 8]),
        (Move::Right, vec![1, 2, 3, 4, 5, 0, 6, 7, 8]),
        (Move::Up, vec![1, 0, 3, 4, 2, 5, 6, 7, 8]),
        (Move::Down, vec![1, 2, 3, 4, 7, 5, 6, 0, 8]),
    ];
    for (play, cells) in expected.iter() {
        let moved = centre.update(*play).unwrap();
        assert_eq!(moved, Board::from_vec(cells.clone()).unwrap());
        assert_eq!(moved.update(play.reverse()), Some(centre.clone()));
    }
}

#[test]
fn one_by_one_board_cannot_move() {
    let single = Board::from_vec(vec![0]).unwrap();
    for play in ALL_MOVES.iter() {
        assert_eq!(None, single.update(*play));
    }
}

#[test]
fn reverse_pairs_opposite_moves() {
    assert_eq!(Move::Right, Move::Left.reverse());
    assert_eq!(Move::Left, Move::Right.reverse());
    assert_eq!(Move::Down, Move::Up.reverse());
    assert_eq!(Move::Up, Move::Down.reverse());
    for play in ALL_MOVES.iter() {
        assert_eq!(*play, play.reverse().reverse());
    }
}

#[test]
fn estimate_is_zero_against_itself() {
    assert_eq!(0, solved().estimate_cost(&solved()));
    assert_eq!(0, trivial_board().estimate_cost(&trivial_board()));
}

#[test]
fn estimate_sums_manhattan_distances() {
    let start = Board::from_vec(vec![1, 2, 3, 4, 0, 5, 7, 8, 6]).unwrap();
    assert_eq!(2, start.estimate_cost(&solved()));
    let reversed = Board::from_vec(vec![8, 7, 6, 5, 4, 3, 2, 1, 0]).unwrap();
    assert_eq!(16, reversed.estimate_cost(&solved()));
    assert_eq!(12, trivial_board().estimate_cost(&solved()));
}

#[test]
fn estimate_counts_the_last_tile() {
    let start = Board::from_vec(vec![1, 2, 3, 4, 5, 6, 7, 0, 8]).unwrap();
    assert_eq!(1, start.estimate_cost(&solved()));
}

#[test]
fn estimate_changes_by_the_moved_tile() {
    let start = Board::from_vec(vec![1, 2, 3, 4, 0, 5, 7, 8, 6]).unwrap();
    let goal = solved();
    let before = start.estimate_cost(&goal) as i64;
    let after_right = start.update(Move::Right).unwrap().estimate_cost(&goal) as i64;
    assert_eq!(before - 1, after_right);
    let after_up = start.update(Move::Up).unwrap().estimate_cost(&goal) as i64;
    assert_eq!(before + 1, after_up);
}

#[test]
fn verify_replays_moves() {
    let start = Board::from_vec(vec![1, 2, 3, 4, 0, 5, 7, 8, 6]).unwrap();
    assert!(start.verify(&solved(), &[Move::Right, Move::Down]));
    assert!(!start.verify(&solved(), &[Move::Down, Move::Right]));
    assert!(!start.verify(&solved(), &[]));
    assert!(start.verify(&start, &[]));
    let corner = solved();
    assert!(!corner.verify(&corner, &[Move::Right, Move::Left]));
    assert!(corner.verify(&corner, &[Move::Left, Move::Right]));
}

#[test]
fn equal_boards_share_a_fingerprint() {
    assert_eq!(solved().fingerprint(), solved().clone().fingerprint());
    assert_ne!(solved().fingerprint(), trivial_board().fingerprint());
}
