use slide_puzzle::game::Board;
use slide_puzzle::text::{board_of_digits, board_of_string};

fn solved() -> Board {
    Board::from_vec(vec![1, 2, 3, 4, 5, 6, 7, 8, 0]).unwrap()
}

#[test]
fn digit_line_builds_a_board() {
    assert_eq!(Some(solved()), board_of_string("123456780"));
    assert_eq!(3, board_of_string("012345678").unwrap().side());
}

#[test]
fn surrounding_white_space_is_ignored() {
    assert_eq!(Some(solved()), board_of_string("  123456780\n"));
    assert_eq!(Some(solved()), board_of_string("\t123456780\r\n"));
}

#[test]
fn inner_white_space_is_rejected() {
    assert_eq!(None, board_of_string("1234 56780"));
}

#[test]
fn wrong_lengths_are_rejected() {
    assert_eq!(None, board_of_string(""));
    assert_eq!(None, board_of_string("12345678"));
    assert_eq!(None, board_of_string("1234567800"));
}

#[test]
fn non_digits_are_rejected() {
    assert_eq!(None, board_of_string("12345678a"));
    assert_eq!(None, board_of_string("1234567-0"));
}

#[test]
fn digits_must_form_a_permutation() {
    assert_eq!(None, board_of_string("123456788"));
    assert_eq!(None, board_of_string("123456789"));
}

#[test]
fn digit_bytes_build_a_board() {
    assert_eq!(Some(solved()), board_of_digits(b"123456780"));
    assert_eq!(None, board_of_digits(b" 123456780"));
}
