use yajilin::{
    Board, CellEnum, CheckResultEnum, CheckResultInvalidEnum, DecodeError, DirectionEnum,
    WallEnum, candidates, check, check_direction_and_continue, check_direction_and_return_result,
    create_board, create_board_sub, dir_to_char, dir_to_direction_enum, is_single_loop, solve,
};

use CellEnum::{Space, Unknown};
use DirectionEnum::{Absent, Down, Left, Right, Up};

fn wall() -> CellEnum {
    CellEnum::Wall(WallEnum::Wall)
}

fn hint(d: DirectionEnum, n: i64) -> CellEnum {
    CellEnum::Wall(WallEnum::Hint(d, n))
}

fn sp(a: DirectionEnum, b: DirectionEnum) -> CellEnum {
    Space(Some(a), Some(b))
}

fn half(a: DirectionEnum) -> CellEnum {
    Space(Some(a), None)
}

fn free() -> CellEnum {
    Space(None, None)
}

fn board(rows: Vec<Vec<CellEnum>>) -> Board {
    Board(rows)
}

#[test]
fn direction_vectors() {
    assert_eq!(Absent.to_vector(), (0, 0));
    assert_eq!(Up.to_vector(), (-1, 0));
    assert_eq!(Down.to_vector(), (1, 0));
    assert_eq!(Left.to_vector(), (0, -1));
    assert_eq!(Right.to_vector(), (0, 1));
}

#[test]
fn direction_reverse() {
    assert_eq!(Up.reverse(), Down);
    assert_eq!(Down.reverse(), Up);
    assert_eq!(Left.reverse(), Right);
    assert_eq!(Right.reverse(), Left);
    assert_eq!(Absent.reverse(), Absent);
}

#[test]
fn direction_codes() {
    assert_eq!(dir_to_direction_enum(0), Absent);
    assert_eq!(dir_to_direction_enum(1), Up);
    assert_eq!(dir_to_direction_enum(2), Down);
    assert_eq!(dir_to_direction_enum(3), Left);
    assert_eq!(dir_to_direction_enum(4), Right);
    assert_eq!(dir_to_direction_enum(9), Absent);
}

#[test]
fn direction_arrows() {
    assert_eq!(dir_to_char(Up), '\u{2191}');
    assert_eq!(dir_to_char(Down), '\u{2193}');
    assert_eq!(dir_to_char(Left), '\u{2190}');
    assert_eq!(dir_to_char(Right), '\u{2192}');
    assert_eq!(dir_to_char(Absent), ' ');
}

#[test]
fn decode_all_unknown_is_valid() {
    let b = create_board("2/2/d").unwrap();
    assert_eq!(b.0, vec![vec![Unknown, Unknown], vec![Unknown, Unknown]]);
    assert_eq!(check(&b), CheckResultEnum::Valid);
}

#[test]
fn decode_hint_then_padding_is_valid() {
    let b = create_board("3/3/40").unwrap();
    assert_eq!(b.0.len(), 3);
    assert_eq!(b.0[0], vec![hint(Right, 0), Unknown, Unknown]);
    assert_eq!(b.0[1], vec![Unknown, Unknown, Unknown]);
    assert_eq!(b.0[2], vec![Unknown, Unknown, Unknown]);
    assert_eq!(check(&b), CheckResultEnum::Valid);
}

#[test]
fn decode_token_forms() {
    let b = create_board("6/1/3.4a512-4123b").unwrap();
    assert_eq!(
        b.0,
        vec![vec![hint(Left, -2), hint(Right, 10), hint(Absent, 0x12), hint(Right, 0x123), Unknown, Unknown]]
    );
    let b = create_board("2/1/1").unwrap();
    assert_eq!(b.0, vec![vec![hint(Up, -2), Unknown]]);
    let b = create_board("2/1/77f").unwrap();
    assert_eq!(b.0, vec![vec![hint(Down, 0x7f), Unknown]]);
}

#[test]
fn decode_run_lengths() {
    let b = create_board("26/1/z").unwrap();
    assert_eq!(b.0[0].len(), 26);
    assert!(b.0[0].iter().all(|c| *c == Unknown));
    let cells = create_board_sub(&"za".chars().collect()).unwrap();
    assert_eq!(cells.len(), 27);
}

#[test]
fn decode_body_ends_at_next_slash() {
    let b = create_board("2/1/a/zzz").unwrap();
    assert_eq!(b.0, vec![vec![Unknown, Unknown]]);
}

#[test]
fn decode_errors() {
    assert_eq!(create_board("2/2"), Err(DecodeError::MissingField));
    assert_eq!(create_board("22d"), Err(DecodeError::MissingField));
    assert_eq!(create_board("x/2/a"), Err(DecodeError::BadDimension));
    assert_eq!(create_board("0/2/a"), Err(DecodeError::TooManyCells));
    assert_eq!(create_board("2//a"), Err(DecodeError::BadDimension));
    assert_eq!(create_board("99999999999999999999999/1/a"), Err(DecodeError::BadDimension));
    assert_eq!(create_board("2/2/!"), Err(DecodeError::BadToken));
    assert_eq!(create_board("2/2/4g"), Err(DecodeError::BadToken));
    assert_eq!(create_board("2/2/5a"), Err(DecodeError::BadToken));
    assert_eq!(create_board("2/2/-412"), Err(DecodeError::BadToken));
    assert_eq!(create_board("1/1/ab"), Err(DecodeError::TooManyCells));
    assert_eq!(create_board_sub(&"A".chars().collect()), None);
}

#[test]
fn decode_then_encode_shape_round_trip() {
    // Each cell written as its own token decodes to the same cells.
    let cells = create_board_sub(&"a3.40-0fffa".chars().collect()).unwrap();
    assert_eq!(cells, vec![Unknown, hint(Left, -2), hint(Right, 0), hint(Absent, 0xfff), Unknown]);
}

#[test]
fn adjacent_walls_reported_first_in_row_major_order() {
    let b = board(vec![
        vec![wall(), wall(), sp(Right, Down), sp(Left, Down)],
        vec![sp(Down, Right), sp(Left, Right), sp(Left, Up), sp(Up, Down)],
        vec![sp(Right, Up), sp(Right, Left), sp(Right, Left), sp(Up, Left)],
    ]);
    assert_eq!(check(&b), CheckResultEnum::Invalid(CheckResultInvalidEnum::AdjacentWall(0, 0)));
}

#[test]
fn loop_of_four_spaces_is_complete() {
    let b = board(vec![vec![sp(Right, Down), sp(Left, Down)], vec![sp(Up, Right), sp(Up, Left)]]);
    assert_eq!(check(&b), CheckResultEnum::Complete);
}

#[test]
fn hint_short_of_room_is_invalid() {
    let b = board(vec![vec![hint(Right, 2), Unknown]]);
    assert_eq!(check(&b), CheckResultEnum::Invalid(CheckResultInvalidEnum::Hint(0, 0)));
}

#[test]
fn hint_counts_skip_unknown_after_possible_wall() {
    let row = vec![hint(Right, 2), Unknown, Unknown, Unknown, free()];
    assert_eq!(check(&board(vec![row])), CheckResultEnum::Valid);
    let row = vec![hint(Right, 3), Unknown, Unknown, Unknown, free()];
    assert_eq!(check(&board(vec![row])), CheckResultEnum::Invalid(CheckResultInvalidEnum::Hint(0, 0)));
}

#[test]
fn hint_with_too_many_walls_is_invalid() {
    let b = board(vec![vec![hint(Right, 0), Unknown, wall()]]);
    assert_eq!(check(&b), CheckResultEnum::Invalid(CheckResultInvalidEnum::Hint(0, 0)));
    let b = board(vec![vec![Unknown, wall(), Unknown, hint(Left, 1)]]);
    assert_eq!(check(&b), CheckResultEnum::Valid);
}

#[test]
fn hint_without_count_or_direction_never_fails() {
    let b = board(vec![vec![hint(Right, -2), Unknown, wall(), Unknown, wall()]]);
    assert_eq!(check(&b), CheckResultEnum::Valid);
    let b = board(vec![vec![hint(Absent, 3), Unknown]]);
    assert_eq!(check(&b), CheckResultEnum::Valid);
}

#[test]
fn hinted_walls_count_as_walls_for_adjacency() {
    let b = board(vec![vec![hint(Right, 0), hint(Down, 0)]]);
    assert_eq!(check(&b), CheckResultEnum::Invalid(CheckResultInvalidEnum::AdjacentWall(0, 0)));
}

#[test]
fn link_off_grid_or_unreturned_is_invalid() {
    let b = board(vec![vec![half(Left), Unknown]]);
    assert_eq!(check(&b), CheckResultEnum::Invalid(CheckResultInvalidEnum::Hint(0, 0)));
    let b = board(vec![vec![half(Right), wall()]]);
    assert_eq!(check(&b), CheckResultEnum::Invalid(CheckResultInvalidEnum::Hint(0, 0)));
    let b = board(vec![vec![half(Right), sp(Up, Down)]]);
    assert_eq!(check(&b), CheckResultEnum::Invalid(CheckResultInvalidEnum::Hint(0, 0)));
}

#[test]
fn link_to_space_with_free_slot_is_valid() {
    let b = board(vec![vec![half(Right), free()]]);
    assert_eq!(check(&b), CheckResultEnum::Valid);
}

#[test]
fn doubled_link_is_not_settled() {
    let b = board(vec![vec![sp(Right, Right), sp(Left, Left)]]);
    assert_eq!(check(&b), CheckResultEnum::Valid);
}

#[test]
fn link_direction_helpers() {
    assert!(check_direction_and_continue(&Some(Up), (1, 0), (0, 0)));
    assert!(!check_direction_and_continue(&Some(Down), (1, 0), (0, 0)));
    assert!(check_direction_and_continue(&Some(Right), (0, 0), (0, 1)));
    assert!(!check_direction_and_continue(&None, (0, 0), (0, 0)));
    let b = board(vec![vec![half(Right), half(Left)]]);
    assert_eq!(check_direction_and_return_result(&Some(Right), 0, 0, &b), CheckResultEnum::Valid);
    assert_eq!(
        check_direction_and_return_result(&Some(Up), 0, 1, &b),
        CheckResultEnum::Invalid(CheckResultInvalidEnum::Hint(0, 1))
    );
    assert_eq!(check_direction_and_return_result(&None, 0, 1, &b), CheckResultEnum::Valid);
}

#[test]
fn candidates_by_cell_state() {
    let b = create_board("2/2/d").unwrap();
    assert_eq!(candidates(&b, 0, 0), vec![sp(Down, Right), wall()]);
    let b = create_board("3/3/i").unwrap();
    assert_eq!(
        candidates(&b, 1, 1),
        vec![sp(Up, Down), sp(Up, Left), sp(Up, Right), sp(Down, Left), sp(Down, Right), sp(Left, Right), wall()]
    );
    let b = board(vec![vec![half(Down), Unknown], vec![Unknown, Unknown]]);
    assert_eq!(candidates(&b, 0, 0), vec![sp(Down, Right)]);
    let b = board(vec![vec![free(), wall()], vec![Unknown, Unknown]]);
    assert_eq!(candidates(&b, 0, 0), vec![]);
    let b = board(vec![vec![free(), Unknown], vec![Unknown, Unknown]]);
    assert_eq!(candidates(&b, 0, 0), vec![sp(Down, Right)]);
    let b = board(vec![vec![wall(), sp(Down, Left)], vec![Unknown, Unknown]]);
    assert_eq!(candidates(&b, 0, 0), vec![]);
    assert_eq!(candidates(&b, 0, 1), vec![]);
}

#[test]
fn solve_two_by_two() {
    let b = create_board("2/2/d").unwrap();
    let (r, found) = solve(&b);
    assert_eq!(r, CheckResultEnum::Complete);
    let found = found.unwrap();
    assert_eq!(found.0, vec![vec![sp(Down, Right), sp(Left, Down)], vec![sp(Up, Right), sp(Up, Left)]]);
    assert_eq!(check(&found), CheckResultEnum::Complete);
}

#[test]
fn solve_without_answer() {
    let b = board(vec![vec![wall(), Unknown]]);
    assert_eq!(check(&b), CheckResultEnum::Valid);
    let (r, found) = solve(&b);
    assert_eq!(r, CheckResultEnum::Invalid(CheckResultInvalidEnum::NoAnswer));
    assert!(found.is_none());
}

#[test]
fn solve_passes_on_contradiction() {
    let b = board(vec![vec![wall(), wall()]]);
    let (r, found) = solve(&b);
    assert_eq!(r, CheckResultEnum::Invalid(CheckResultInvalidEnum::AdjacentWall(0, 0)));
    assert!(found.is_none());
}

#[test]
fn solve_complete_board_returns_it() {
    let b = board(vec![vec![sp(Right, Down), sp(Left, Down)], vec![sp(Up, Right), sp(Up, Left)]]);
    let (r, found) = solve(&b);
    assert_eq!(r, CheckResultEnum::Complete);
    assert_eq!(found.unwrap(), b);
}

#[test]
fn solve_result_meets_invariants() {
    for p in ["3/3/40", "3/3/i", "4/3/l", "2/3/41", "4/4/p", "3/4/1.k"] {
        let b = create_board(p).unwrap();
        let (r, found) = solve(&b);
        match r {
            CheckResultEnum::Complete => {
                let f = found.unwrap();
                assert_eq!(check(&f), CheckResultEnum::Complete);
                for (i, row) in f.0.iter().enumerate() {
                    for (j, cell) in row.iter().enumerate() {
                        assert!(*cell != Unknown);
                        if let CellEnum::Wall(_) = cell {
                            if j + 1 < row.len() {
                                assert!(!matches!(row[j + 1], CellEnum::Wall(_)));
                            }
                            if i + 1 < f.0.len() {
                                assert!(!matches!(f.0[i + 1][j], CellEnum::Wall(_)));
                            }
                        }
                    }
                }
            }
            other => {
                assert_eq!(other, CheckResultEnum::Invalid(CheckResultInvalidEnum::NoAnswer));
                assert!(found.is_none());
            }
        }
    }
}

#[test]
fn solve_is_deterministic() {
    let b = create_board("4/3/l").unwrap();
    let first = solve(&b);
    let second = solve(&b.clone());
    assert_eq!(first, second);
}

#[test]
fn hint_zero_right_solves_without_walls_in_row() {
    let b = create_board("3/3/40").unwrap();
    let (r, found) = solve(&b);
    assert_eq!(r, CheckResultEnum::Complete);
    let f = found.unwrap();
    assert_eq!(f.0[0][0], hint(Right, 0));
    assert!(!matches!(f.0[0][1], CellEnum::Wall(_)));
    assert!(!matches!(f.0[0][2], CellEnum::Wall(_)));
    assert_eq!(check(&f), CheckResultEnum::Complete);
}

#[test]
fn sample_puzzle_hints_touch() {
    let b = create_board("10/10/202022l40i4141h40f122242l31i2131h30b42c101210c41i").unwrap();
    assert_eq!(b.0.len(), 10);
    assert!(b.0.iter().all(|row| row.len() == 10));
    assert_eq!(b.0[0][0], hint(Down, 0));
    assert_eq!(b.0[0][2], hint(Down, 2));
    assert_eq!(check(&b), CheckResultEnum::Invalid(CheckResultInvalidEnum::AdjacentWall(0, 0)));
}

#[test]
fn two_loops_are_complete_but_not_one_loop() {
    let b = board(vec![
        vec![sp(Right, Down), sp(Left, Down), sp(Right, Down), sp(Left, Down)],
        vec![sp(Up, Right), sp(Up, Left), sp(Up, Right), sp(Up, Left)],
    ]);
    assert_eq!(check(&b), CheckResultEnum::Complete);
    assert!(!is_single_loop(&b));
}

#[test]
fn one_loop_through_every_space() {
    let b = board(vec![
        vec![sp(Right, Down), sp(Left, Right), sp(Left, Right), sp(Left, Down)],
        vec![sp(Up, Right), sp(Left, Right), sp(Left, Right), sp(Up, Left)],
    ]);
    assert_eq!(check(&b), CheckResultEnum::Complete);
    assert!(is_single_loop(&b));
    let b = board(vec![
        vec![sp(Right, Down), sp(Left, Down), wall()],
        vec![sp(Up, Right), sp(Up, Left), Unknown],
    ]);
    assert!(is_single_loop(&b));
}

#[test]
fn loop_check_without_spaces_or_links() {
    assert!(!is_single_loop(&board(vec![vec![wall()]])));
    assert!(!is_single_loop(&board(vec![vec![half(Right), half(Left)]])));
    let (_, found) = solve(&create_board("2/2/d").unwrap());
    assert!(is_single_loop(&found.unwrap()));
}

#[test]
fn decode_zero_dimensions() {
    let b = create_board("2/0/").unwrap();
    assert!(b.0.is_empty());
    assert_eq!(check(&b), CheckResultEnum::Complete);
    assert_eq!(create_board("2/0/a"), Err(DecodeError::TooManyCells));
    let b = create_board("0/2/").unwrap();
    assert_eq!(b.0, vec![Vec::<CellEnum>::new(), Vec::new()]);
    assert_eq!(create_board("0/0/"), Ok(Board(vec![])));
}

#[test]
fn decode_encoded_puzzle_with_runs() {
    // Three unknown cells, a hint with a three-digit count, thirty unknown
    // cells written as runs of 26 and 4, then a hint without a count.
    let b = create_board("7/5/c-412czd1.").unwrap();
    let mut expected: Vec<CellEnum> = vec![Unknown; 3];
    expected.push(hint(Right, 0x12c));
    expected.extend(vec![Unknown; 30]);
    expected.push(hint(Up, -2));
    assert_eq!(b.0.len(), 5);
    let flat: Vec<CellEnum> = b.0.iter().flat_map(|row| row.iter().cloned()).collect();
    assert_eq!(flat, expected);
}
