use slide_puzzle::game::Move::{Down, Left, Right, Up};
use slide_puzzle::game::{Board, Move, ALL_MOVES};
use slide_puzzle::search::a_star;

fn goal() -> Board {
    Board::from_vec(vec![1, 2, 3, 4, 5, 6, 7, 8, 0]).unwrap()
}

fn moves() -> [Move; 4] {
    [Up, Down, Left, Right]
}

#[test]
fn board_1() {
    let start = Board::from_vec(vec![1, 2, 3, 4, 0, 5, 7, 8, 6]).unwrap();
    let solution = vec![Right, Down];

    assert_eq!(Some(solution), a_star(start, &goal(), &moves()));
}

#[test]
fn board_2() {
    let start = Board::from_vec(vec![1, 2, 3, 7, 4, 5, 0, 8, 6]).unwrap();
    let solution = vec![Up, Right, Right, Down];

    assert_eq!(Some(solution), a_star(start, &goal(), &moves()));
}

#[test]
fn board_3() {
    let start = Board::from_vec(vec![1, 2, 3, 4, 8, 0, 7, 6, 5]).unwrap();
    let solution = vec![Down, Left, Up, Right, Down];

    assert_eq!(Some(solution), a_star(start, &goal(), &moves()));
}

#[test]
fn board_4() {
    let start = Board::from_vec(vec![4, 1, 3, 7, 2, 6, 5, 8, 0]).unwrap();
    let solution = vec![Left, Left, Up, Up, Right, Down, Down, Right];

    assert_eq!(Some(solution), a_star(start, &goal(), &moves()));
}

#[test]
fn board_5() {
    let start = Board::from_vec(vec![1, 6, 2, 5, 3, 0, 4, 7, 8]).unwrap();
    let solution = vec![Left, Up, Right, Down, Left, Left, Down, Right, Right];

    assert_eq!(Some(solution), a_star(start, &goal(), &moves()));
}

#[test]
fn board_6() {
    let start = Board::from_vec(vec![5, 1, 2, 6, 3, 0, 4, 7, 8]).unwrap();
    let solution = vec![Left, Left, Up, Right, Right, Down, Left, Left, Down, Right, Right];

    assert_eq!(Some(solution), a_star(start, &goal(), &moves()));
}

#[test]
fn board_7() {
    let start = Board::from_vec(vec![1, 2, 6, 3, 5, 0, 4, 7, 8]).unwrap();
    let solution = vec![Up, Left, Down, Left, Down, Right, Right, Up, Left, Up, Right, Down, Down];
    let goal_board = goal();
    let mine = a_star(start.clone(), &goal_board, &moves());

    assert_eq!(Some(solution), mine);
}

#[test]
fn big_board() {
    let start = Board::from_vec(vec![1, 2, 0, 3, 4, 9, 6, 7, 8, 10, 5, 11, 12, 13, 14, 15]).unwrap();
    let goal = Board::from_vec(vec![0, 1, 2, 3, 4, 5, 6, 7, 8, 9, 10, 11, 12, 13, 14, 15]).unwrap();
    let solution = vec![Down, Down, Left, Up, Right, Up, Left, Left];

    assert_eq!(Some(solution), a_star(start, &goal, &moves()));
}

#[test]
fn start_equal_to_goal_needs_no_moves() {
    assert_eq!(Some(vec![]), a_star(goal(), &goal(), &moves()));
    assert_eq!(Some(vec![]), a_star(goal(), &goal(), &[]));
}

#[test]
fn one_move_away_needs_one_move() {
    let start = Board::from_vec(vec![1, 2, 3, 4, 5, 6, 7, 0, 8]).unwrap();
    assert_eq!(Some(vec![Right]), a_star(start, &goal(), &ALL_MOVES));
}

#[test]
fn solutions_verify() {
    let starts = [
        vec![1, 2, 3, 4, 0, 5, 7, 8, 6],
        vec![4, 1, 3, 7, 2, 6, 5, 8, 0],
        vec![0, 1, 2, 3, 4, 5, 6, 7, 8],
    ];
    for cells in starts.iter() {
        let start = Board::from_vec(cells.clone()).unwrap();
        let path = a_star(start.clone(), &goal(), &ALL_MOVES).unwrap();
        assert!(start.verify(&goal(), &path));
    }
}

#[test]
fn swapped_tiles_are_unreachable() {
    let start = Board::from_vec(vec![2, 1, 3, 4, 5, 6, 7, 8, 0]).unwrap();
    assert_eq!(None, a_star(start, &goal(), &ALL_MOVES));
}

#[test]
fn restricted_moves_can_make_the_goal_unreachable() {
    let start = Board::from_vec(vec![1, 2, 3, 4, 5, 6, 7, 0, 8]).unwrap();
    assert_eq!(None, a_star(start.clone(), &goal(), &[Left, Up, Down]));
    assert_eq!(Some(vec![Right]), a_star(start, &goal(), &[Right]));
}

#[test]
fn two_by_two_boards_solve() {
    let start = Board::from_vec(vec![0, 1, 3, 2]).unwrap();
    let target = Board::from_vec(vec![1, 2, 3, 0]).unwrap();
    let path = a_star(start.clone(), &target, &ALL_MOVES);
    assert!(path.is_some());
    assert!(start.verify(&target, &path.unwrap()));
    let odd = Board::from_vec(vec![2, 1, 3, 0]).unwrap();
    assert_eq!(None, a_star(start, &odd, &ALL_MOVES));
}
