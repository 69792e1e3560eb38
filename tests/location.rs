use lines_game_engine::{GameBoardLocation, GameBoardMove, GameError, GAME_BOARD_SIZE};

#[test]
fn game_board_walker_can_walk() {
    let mut walker = GameBoardLocation::zero().walk(1, 0);
    for x in 0..GAME_BOARD_SIZE {
        assert_eq!(
            walker.next().unwrap(),
            GameBoardLocation::from_offsets(x, 0).unwrap()
        );
    }
    assert!(walker.next().is_none());
}

fn from_offsets_is_valid(x_offset: usize, y_offset: usize) -> bool {
    let location = GameBoardLocation::from_offsets(x_offset, y_offset);
    if x_offset < GAME_BOARD_SIZE && y_offset < GAME_BOARD_SIZE {
        location.is_ok()
    } else {
        location.is_err()
    }
}

fn from_coords_is_valid(x: usize, y: usize) -> bool {
    let location = GameBoardLocation::from_coords(x, y);
    if x > 0 && x <= GAME_BOARD_SIZE && y > 0 && y <= GAME_BOARD_SIZE {
        location.is_ok()
    } else {
        location.is_err()
    }
}

fn move_from_str_is_valid(x1: isize, y1: isize, x2: isize, y2: isize) -> bool {
    let text = format!("{} {} {} {}", x1, y1, x2, y2);
    let game_board_move = GameBoardMove::from_str(&text);
    let n = GAME_BOARD_SIZE as isize;
    if (x1 > 0 && x1 <= n && y1 > 0 && y1 <= n) && (x2 > 0 && x2 <= n && y2 > 0 && y2 <= n) {
        game_board_move.is_ok()
    } else {
        game_board_move.is_err()
    }
}

#[test]
fn game_board_location_from_offsets_is_valid() {
    quickcheck::quickcheck(from_offsets_is_valid as fn(usize, usize) -> bool);
    assert!(from_offsets_is_valid(8, 8));
    assert!(from_offsets_is_valid(9, 0));
}

#[test]
fn game_board_location_from_coords_is_valid() {
    quickcheck::quickcheck(from_coords_is_valid as fn(usize, usize) -> bool);
    assert!(from_coords_is_valid(0, 1));
    assert!(from_coords_is_valid(9, 9));
    assert!(from_coords_is_valid(10, 1));
}

#[test]
fn game_board_move_from_str_is_valid() {
    quickcheck::quickcheck(move_from_str_is_valid as fn(isize, isize, isize, isize) -> bool);
    assert!(move_from_str_is_valid(1, 1, 9, 9));
    assert!(move_from_str_is_valid(0, 1, 2, 2));
    assert!(move_from_str_is_valid(-3, 1, 2, 2));
}

#[test]
fn location_update_keeps_location_on_failure() {
    let mut location = GameBoardLocation::from_offsets(8, 3).unwrap();
    assert_eq!(location.update(1, -1), Err(GameError::OutOfRange));
    assert_eq!(location, GameBoardLocation::from_offsets(8, 3).unwrap());
    assert_eq!(location.update(-8, 5), Ok(()));
    assert_eq!(location, GameBoardLocation::from_offsets(0, 8).unwrap());
}

#[test]
fn location_neighbours_in_corner_and_middle() {
    let corner = GameBoardLocation::zero().neighbours();
    assert_eq!(
        corner,
        vec![
            GameBoardLocation::from_offsets(1, 0).unwrap(),
            GameBoardLocation::from_offsets(0, 1).unwrap(),
        ]
    );
    let middle = GameBoardLocation::from_offsets(4, 4).unwrap().neighbours();
    assert_eq!(
        middle,
        vec![
            GameBoardLocation::from_offsets(3, 4).unwrap(),
            GameBoardLocation::from_offsets(5, 4).unwrap(),
            GameBoardLocation::from_offsets(4, 3).unwrap(),
            GameBoardLocation::from_offsets(4, 5).unwrap(),
        ]
    );
}

#[test]
fn move_from_str_reads_coordinates() {
    let game_move = GameBoardMove::from_str(" 1\t2  +9 3\n").unwrap();
    assert_eq!(game_move.from, GameBoardLocation::from_offsets(0, 1).unwrap());
    assert_eq!(game_move.to, GameBoardLocation::from_offsets(8, 2).unwrap());
}

#[test]
fn move_from_str_errors() {
    assert_eq!(GameBoardMove::from_str("").unwrap_err(), GameError::MalformedInput);
    assert_eq!(GameBoardMove::from_str("1 2 3").unwrap_err(), GameError::MalformedInput);
    assert_eq!(GameBoardMove::from_str("1 2 3 4 5").unwrap_err(), GameError::MalformedInput);
    assert_eq!(GameBoardMove::from_str("1 2 x 4").unwrap_err(), GameError::MalformedInput);
    assert_eq!(GameBoardMove::from_str("1 2 -3 4").unwrap_err(), GameError::MalformedInput);
    assert_eq!(
        GameBoardMove::from_str("1 2 3 99999999999999999999999").unwrap_err(),
        GameError::MalformedInput
    );
    assert_eq!(GameBoardMove::from_str("0 2 3 4").unwrap_err(), GameError::OutOfRange);
    assert_eq!(GameBoardMove::from_str("1 2 3 10").unwrap_err(), GameError::OutOfRange);
}
