use qidao_core::{Board, SgfError, StoneColor};
use std::sync::Arc;

fn count(board: &Board, color: StoneColor) -> usize {
    let mut n = 0;
    for x in 0..board.get_size() {
        for y in 0..board.get_size() {
            if board.get_stone(x, y) == Some(color) {
                n += 1;
            }
        }
    }
    n
}

fn play_all(size: u32, moves: &[(u32, u32, StoneColor)]) -> Arc<Board> {
    let mut board = Board::new(size);
    for &(x, y, color) in moves {
        board = board.place_stone(x, y, color).unwrap();
    }
    board
}

#[test]
fn new_board_is_empty() {
    for size in [1u32, 2, 9, 13, 19] {
        let board = Board::new(size);
        assert_eq!(board.get_size(), size);
        for x in 0..size {
            for y in 0..size {
                assert_eq!(board.get_stone(x, y), None);
            }
        }
    }
}

#[test]
fn board_of_size_zero_refuses_every_move() {
    let board = Board::new(0);
    assert_eq!(board.get_size(), 0);
    assert_eq!(board.get_stone(0, 0), None);
    assert_eq!(board.place_stone(0, 0, StoneColor::Black).unwrap_err(), SgfError::OutOfBounds);
}

#[test]
fn stone_off_the_board_is_none() {
    let board = Board::new(9);
    assert_eq!(board.get_stone(9, 0), None);
    assert_eq!(board.get_stone(0, 9), None);
    assert_eq!(board.get_stone(u32::MAX, u32::MAX), None);
}

#[test]
fn placed_stone_is_found_again() {
    let board = Board::new(9).place_stone(2, 5, StoneColor::White).unwrap();
    assert_eq!(board.get_stone(2, 5), Some(StoneColor::White));
    assert_eq!(board.get_stone(5, 2), None);
    assert_eq!(count(&board, StoneColor::White), 1);
    assert_eq!(count(&board, StoneColor::Black), 0);
}

#[test]
fn move_off_the_board_is_out_of_bounds() {
    let board = Board::new(9);
    assert_eq!(board.place_stone(9, 0, StoneColor::Black).unwrap_err(), SgfError::OutOfBounds);
    assert_eq!(board.place_stone(0, 9, StoneColor::Black).unwrap_err(), SgfError::OutOfBounds);
    assert_eq!(
        board.place_stone(u32::MAX, u32::MAX, StoneColor::White).unwrap_err(),
        SgfError::OutOfBounds
    );
}

#[test]
fn move_on_a_stone_is_occupied_and_changes_nothing() {
    let board = play_all(9, &[(4, 4, StoneColor::Black), (4, 5, StoneColor::White)]);
    for color in [StoneColor::Black, StoneColor::White] {
        assert_eq!(board.place_stone(4, 4, color).unwrap_err(), SgfError::Occupied);
        assert_eq!(board.place_stone(4, 5, color).unwrap_err(), SgfError::Occupied);
    }
    assert_eq!(board.get_stone(4, 4), Some(StoneColor::Black));
    assert_eq!(board.get_stone(4, 5), Some(StoneColor::White));
    assert_eq!(count(&board, StoneColor::Black), 1);
    assert_eq!(count(&board, StoneColor::White), 1);
}

#[test]
fn a_move_leaves_the_board_it_was_played_on() {
    let before = play_all(9, &[(3, 3, StoneColor::Black)]);
    let after = before.place_stone(3, 4, StoneColor::White).unwrap();
    assert_eq!(before.get_stone(3, 4), None);
    assert_eq!(after.get_stone(3, 4), Some(StoneColor::White));
    assert_eq!(after.get_stone(3, 3), Some(StoneColor::Black));
}

#[test]
fn lone_stone_is_captured_when_surrounded() {
    let board = play_all(
        9,
        &[
            (3, 3, StoneColor::Black),
            (3, 2, StoneColor::White),
            (3, 4, StoneColor::White),
            (2, 3, StoneColor::White),
        ],
    );
    assert_eq!(board.get_stone(3, 3), Some(StoneColor::Black));
    let board = board.place_stone(4, 3, StoneColor::White).unwrap();
    assert_eq!(board.get_stone(3, 3), None);
    assert_eq!(count(&board, StoneColor::Black), 0);
    assert_eq!(count(&board, StoneColor::White), 4);
    assert_eq!(board.get_stone(3, 2), Some(StoneColor::White));
    assert_eq!(board.get_stone(3, 4), Some(StoneColor::White));
    assert_eq!(board.get_stone(2, 3), Some(StoneColor::White));
    assert_eq!(board.get_stone(4, 3), Some(StoneColor::White));
}

#[test]
fn whole_group_is_captured_with_its_last_liberty() {
    // Black: (1,0) (2,0) on the edge; White closes in from all sides.
    let board = play_all(
        9,
        &[
            (1, 0, StoneColor::Black),
            (2, 0, StoneColor::Black),
            (0, 0, StoneColor::White),
            (1, 1, StoneColor::White),
            (2, 1, StoneColor::White),
        ],
    );
    assert_eq!(count(&board, StoneColor::Black), 2);
    let board = board.place_stone(3, 0, StoneColor::White).unwrap();
    assert_eq!(board.get_stone(1, 0), None);
    assert_eq!(board.get_stone(2, 0), None);
    assert_eq!(count(&board, StoneColor::Black), 0);
    assert_eq!(count(&board, StoneColor::White), 4);
}

#[test]
fn group_with_a_liberty_left_stays() {
    let board = play_all(
        9,
        &[
            (3, 3, StoneColor::Black),
            (3, 4, StoneColor::Black),
            (3, 2, StoneColor::White),
            (2, 3, StoneColor::White),
            (4, 3, StoneColor::White),
            (2, 4, StoneColor::White),
            (4, 4, StoneColor::White),
        ],
    );
    assert_eq!(board.get_stone(3, 3), Some(StoneColor::Black));
    assert_eq!(board.get_stone(3, 4), Some(StoneColor::Black));
    let board = board.place_stone(3, 5, StoneColor::White).unwrap();
    assert_eq!(board.get_stone(3, 3), None);
    assert_eq!(board.get_stone(3, 4), None);
    assert_eq!(count(&board, StoneColor::White), 6);
}

#[test]
fn two_groups_are_captured_by_one_move() {
    // Black stones at (0,1) and (1,0), each alone; White takes both at (0,0)?
    // (0,0) is next to both. Give each black stone one liberty only: (0,0).
    let board = play_all(
        9,
        &[
            (0, 1, StoneColor::Black),
            (1, 0, StoneColor::Black),
            (0, 2, StoneColor::White),
            (1, 1, StoneColor::White),
            (2, 0, StoneColor::White),
        ],
    );
    let board = board.place_stone(0, 0, StoneColor::White).unwrap();
    assert_eq!(board.get_stone(0, 1), None);
    assert_eq!(board.get_stone(1, 0), None);
    assert_eq!(count(&board, StoneColor::Black), 0);
    assert_eq!(count(&board, StoneColor::White), 4);
}

#[test]
fn move_into_a_surrounded_point_is_suicide() {
    let board = play_all(
        9,
        &[
            (3, 2, StoneColor::White),
            (3, 4, StoneColor::White),
            (2, 3, StoneColor::White),
            (4, 3, StoneColor::White),
        ],
    );
    assert_eq!(board.place_stone(3, 3, StoneColor::Black).unwrap_err(), SgfError::Suicide);
    assert_eq!(board.get_stone(3, 3), None);
    // the surrounding colour may fill its own eye: the group keeps liberties
    assert!(board.place_stone(3, 3, StoneColor::White).is_ok());
}

#[test]
fn move_into_the_corner_is_suicide() {
    let board = play_all(9, &[(0, 1, StoneColor::White), (1, 0, StoneColor::White)]);
    assert_eq!(board.place_stone(0, 0, StoneColor::Black).unwrap_err(), SgfError::Suicide);
}

#[test]
fn joining_a_group_without_liberties_is_suicide() {
    // Black (0,0); White (0,1) (1,1) (2,0): black at (1,0) would make a
    // two-stone group with no liberty.
    let board = play_all(
        9,
        &[
            (0, 0, StoneColor::Black),
            (0, 1, StoneColor::White),
            (1, 1, StoneColor::White),
            (2, 0, StoneColor::White),
        ],
    );
    assert_eq!(board.place_stone(1, 0, StoneColor::Black).unwrap_err(), SgfError::Suicide);
}

#[test]
fn move_without_liberty_that_captures_is_legal() {
    // White (0,0) has its last liberty at (1,0)... black plays the corner
    // point (0,0)'s neighbour and captures.
    let board = play_all(
        9,
        &[
            (0, 1, StoneColor::White),
            (1, 0, StoneColor::White),
            (0, 2, StoneColor::Black),
            (1, 1, StoneColor::Black),
            (2, 0, StoneColor::Black),
        ],
    );
    let board = board.place_stone(0, 0, StoneColor::Black).unwrap();
    assert_eq!(board.get_stone(0, 0), Some(StoneColor::Black));
    assert_eq!(board.get_stone(0, 1), None);
    assert_eq!(board.get_stone(1, 0), None);
}

fn ko_position() -> Arc<Board> {
    play_all(
        9,
        &[
            (1, 0, StoneColor::Black),
            (0, 1, StoneColor::Black),
            (1, 2, StoneColor::Black),
            (2, 0, StoneColor::White),
            (3, 1, StoneColor::White),
            (2, 2, StoneColor::White),
            (1, 1, StoneColor::White),
        ],
    )
}

#[test]
fn retaking_a_ko_at_once_is_a_violation() {
    let board = ko_position().place_stone(2, 1, StoneColor::Black).unwrap();
    assert_eq!(board.get_stone(1, 1), None);
    assert_eq!(board.get_stone(2, 1), Some(StoneColor::Black));
    assert_eq!(board.place_stone(1, 1, StoneColor::White).unwrap_err(), SgfError::KoViolation);
    assert_eq!(board.get_stone(1, 1), None);
    assert_eq!(board.get_stone(2, 1), Some(StoneColor::Black));
}

#[test]
fn retaking_a_ko_after_other_moves_is_legal() {
    let board = ko_position().place_stone(2, 1, StoneColor::Black).unwrap();
    let board = board.place_stone(7, 7, StoneColor::White).unwrap();
    let board = board.place_stone(7, 6, StoneColor::Black).unwrap();
    let board = board.place_stone(1, 1, StoneColor::White).unwrap();
    assert_eq!(board.get_stone(1, 1), Some(StoneColor::White));
    assert_eq!(board.get_stone(2, 1), None);
    // and now the other side is barred
    assert_eq!(board.place_stone(2, 1, StoneColor::Black).unwrap_err(), SgfError::KoViolation);
}

#[test]
fn capture_of_two_stones_bars_no_point() {
    let board = play_all(
        9,
        &[
            (1, 0, StoneColor::Black),
            (2, 0, StoneColor::Black),
            (0, 0, StoneColor::White),
            (1, 1, StoneColor::White),
            (2, 1, StoneColor::White),
            (3, 0, StoneColor::White),
        ],
    );
    assert_eq!(count(&board, StoneColor::Black), 0);
    // black may play into either emptied point
    let again = board.place_stone(2, 0, StoneColor::Black).unwrap();
    assert_eq!(again.get_stone(2, 0), Some(StoneColor::Black));
}

#[test]
fn neighbors_come_left_right_up_down() {
    let board = Board::new(9);
    assert_eq!(board.neighbors(4, 4), vec![(3, 4), (5, 4), (4, 3), (4, 5)]);
    assert_eq!(board.neighbors(0, 0), vec![(1, 0), (0, 1)]);
    assert_eq!(board.neighbors(8, 8), vec![(7, 8), (8, 7)]);
    assert_eq!(board.neighbors(0, 4), vec![(1, 4), (0, 3), (0, 5)]);
    assert_eq!(Board::new(1).neighbors(0, 0), vec![]);
}

fn grid_of(size: u32, stones: &[(u32, u32, StoneColor)]) -> Vec<Option<StoneColor>> {
    let mut grid = vec![None; (size * size) as usize];
    for &(x, y, color) in stones {
        grid[(y * size + x) as usize] = Some(color);
    }
    grid
}

#[test]
fn group_holds_every_connected_stone_once() {
    let board = Board::new(5);
    let grid = grid_of(
        5,
        &[
            (0, 0, StoneColor::Black),
            (1, 0, StoneColor::Black),
            (1, 1, StoneColor::Black),
            (3, 3, StoneColor::Black),
            (2, 1, StoneColor::White),
        ],
    );
    let mut group = board.get_group(&grid, 0, 0);
    group.sort();
    assert_eq!(group, vec![(0, 0), (1, 0), (1, 1)]);
    assert_eq!(board.get_group(&grid, 3, 3), vec![(3, 3)]);
    assert_eq!(board.get_group(&grid, 2, 1), vec![(2, 1)]);
}

#[test]
fn liberties_are_counted_once_each() {
    let board = Board::new(5);
    // (1,1) is next to both black stones and counts once.
    let grid = grid_of(5, &[(1, 0, StoneColor::Black), (0, 1, StoneColor::Black)]);
    assert_eq!(board.count_liberties(&grid, 1, 0), 3);
    assert_eq!(board.count_liberties(&grid, 0, 1), 3);
    let grid = grid_of(
        5,
        &[(0, 0, StoneColor::Black), (1, 0, StoneColor::Black), (0, 1, StoneColor::White)],
    );
    // group (0,0)-(1,0): liberties (2,0) and (1,1)
    assert_eq!(board.count_liberties(&grid, 0, 0), 2);
    assert_eq!(board.count_liberties(&grid, 1, 0), 2);
    // white (0,1): liberties (1,1) and (0,2)
    assert_eq!(board.count_liberties(&grid, 0, 1), 2);
    let grid = grid_of(5, &[(2, 2, StoneColor::White)]);
    assert_eq!(board.count_liberties(&grid, 2, 2), 4);
    // an empty point has no liberties
    assert_eq!(board.count_liberties(&grid, 0, 0), 0);
}

#[test]
fn group_of_an_empty_point_is_its_empty_region() {
    let board = Board::new(2);
    let grid = grid_of(2, &[(0, 0, StoneColor::Black)]);
    let mut region = board.get_group(&grid, 1, 1);
    region.sort();
    assert_eq!(region, vec![(0, 1), (1, 0), (1, 1)]);
}

#[test]
fn opponent_swaps_the_colours() {
    assert_eq!(StoneColor::Black.opponent(), StoneColor::White);
    assert_eq!(StoneColor::White.opponent(), StoneColor::Black);
    assert_eq!(StoneColor::Black.opponent().opponent(), StoneColor::Black);
    assert_eq!(StoneColor::White.opponent().opponent(), StoneColor::White);
}

#[test]
fn errors_describe_themselves() {
    assert_eq!(SgfError::OutOfBounds.message(), "Out of bounds");
    assert_eq!(SgfError::Occupied.message(), "Position occupied");
    assert_eq!(SgfError::Suicide.message(), "Suicide move");
    assert_eq!(SgfError::KoViolation.message(), "Ko violation");
    assert_eq!(
        SgfError::ParseError { message: "bad".to_string() }.message(),
        "Parse error: bad"
    );
}

#[test]
fn full_board_capture_on_a_small_board() {
    // 2x2: black fills three points, white takes the fourth and captures all.
    let board = play_all(
        2,
        &[(0, 0, StoneColor::Black), (1, 0, StoneColor::Black), (0, 1, StoneColor::Black)],
    );
    let board = board.place_stone(1, 1, StoneColor::White).unwrap();
    assert_eq!(count(&board, StoneColor::Black), 0);
    assert_eq!(count(&board, StoneColor::White), 1);
}
