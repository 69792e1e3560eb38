use lines_game_engine::checker::{compare_score, play_submission};
use lines_game_engine::generator::{
    ball_color_from_index, balls_for_iteration, place_generated_ball, replay_answer, starts_game,
    Seeding,
};
use lines_game_engine::{
    BallColor, CheckerVerdict, GameBoard, GameBoardCell, GameBoardLocation, GameBoardMove,
    GameError, GameScore, PresentationReason, Submission, WrongAnswerReason, GAME_BOARD_SIZE,
};

const FILL_COLORS: [BallColor; 3] = [BallColor::Red, BallColor::Green, BallColor::Blue];

fn loc(x: usize, y: usize) -> GameBoardLocation {
    GameBoardLocation::from_coords(x, y).unwrap()
}

fn add(board: &mut GameBoard, x: usize, y: usize, color: BallColor) -> GameScore {
    board.add_ball(&loc(x, y), color).unwrap()
}

fn game_move(fx: usize, fy: usize, tx: usize, ty: usize) -> GameBoardMove {
    GameBoardMove { from: loc(fx, fy), to: loc(tx, ty) }
}

/// A board whose third column is a wall of balls, but for its top cell when
/// `gap` is set.
fn walled_board(gap: bool) -> GameBoard {
    let mut board = GameBoard::default();
    let colors = [BallColor::Green, BallColor::Pink, BallColor::Cyan];
    let first = if gap { 2 } else { 1 };
    for y in first..=GAME_BOARD_SIZE {
        add(&mut board, 3, y, colors[y % 3]);
    }
    add(&mut board, 1, 5, BallColor::Blue);
    board
}

#[test]
fn empty_board_is_not_full_and_full_board_is_not_empty() {
    let board = GameBoard::default();
    assert!(board.is_empty() && !board.is_full());
    let mut board = GameBoard::default();
    for y in 1..=GAME_BOARD_SIZE {
        for x in 1..=GAME_BOARD_SIZE {
            add(&mut board, x, y, FILL_COLORS[((x * 7 + y * 11) % 17) % 3]);
        }
    }
    assert!(board.is_full() && !board.is_empty());
}

#[test]
fn board_text_round_trip() {
    let mut board = GameBoard::default();
    add(&mut board, 1, 1, BallColor::Red);
    add(&mut board, 9, 1, BallColor::Yellow);
    add(&mut board, 5, 5, BallColor::Maroon);
    add(&mut board, 1, 9, BallColor::Cyan);
    let text = board.to_string();
    assert_eq!(
        text,
        "R _ _ _ _ _ _ _ Y\n\
         _ _ _ _ _ _ _ _ _\n\
         _ _ _ _ _ _ _ _ _\n\
         _ _ _ _ _ _ _ _ _\n\
         _ _ _ _ M _ _ _ _\n\
         _ _ _ _ _ _ _ _ _\n\
         _ _ _ _ _ _ _ _ _\n\
         _ _ _ _ _ _ _ _ _\n\
         C _ _ _ _ _ _ _ _\n"
    );
    let parsed = GameBoard::from_str(&text).unwrap();
    assert_eq!(parsed.to_string(), text);
    assert_eq!(parsed.at(&loc(5, 5)).0, Some(BallColor::Maroon));
    assert_eq!(parsed.at(&loc(2, 1)).0, None);
}

#[test]
fn board_text_line_endings() {
    let line = "_ _ _ _ _ _ _ _ _";
    let crlf = vec![line; 9].join("\r\n");
    assert!(GameBoard::from_str(&crlf).unwrap().is_empty());
    let tabs = "_\t_ _ _ _ _ _ _ _";
    let mut lines = vec![line; 9];
    lines[4] = tabs;
    assert!(GameBoard::from_str(&lines.join("\n")).is_ok());
}

#[test]
fn board_text_rejects_wrong_shapes() {
    let line = "_ _ _ _ _ _ _ _ _";
    let ten = vec![line; 10].join("\n");
    assert_eq!(GameBoard::from_str(&ten).unwrap_err(), GameError::MalformedInput);
    let eight = vec![line; 8].join("\n");
    assert_eq!(GameBoard::from_str(&eight).unwrap_err(), GameError::MalformedInput);
    let mut lines = vec![line; 9];
    lines[3] = "_ _ _ _ _ _ _ _ _ _";
    assert_eq!(GameBoard::from_str(&lines.join("\n")).unwrap_err(), GameError::MalformedInput);
    lines[3] = "_,_ _ _ _ _ _ _ _";
    assert_eq!(GameBoard::from_str(&lines.join("\n")).unwrap_err(), GameError::MalformedInput);
    lines[3] = "_ _ _ _ _ _ _ _ X";
    assert_eq!(GameBoard::from_str(&lines.join("\n")).unwrap_err(), GameError::MalformedInput);
    let trailing_blank = format!("{}\n\n", vec![line; 9].join("\n"));
    assert!(GameBoard::from_str(&trailing_blank).is_err());
}

#[test]
fn colour_and_cell_codes() {
    assert_eq!(BallColor::from_char('M'), Ok(BallColor::Maroon));
    assert_eq!(BallColor::from_char('X'), Err(GameError::InvalidColorCode));
    assert_eq!(BallColor::Cyan.to_char(), 'C');
    assert_eq!(GameBoardCell::from_char('_').unwrap(), GameBoardCell(None));
    assert_eq!(GameBoardCell::from_char('P').unwrap(), GameBoardCell(Some(BallColor::Pink)));
    assert_eq!(GameBoardCell::from_char('?').unwrap_err(), GameError::InvalidColorCode);
    assert!(GameBoardCell(None).is_empty());
    assert_eq!(GameBoardCell(Some(BallColor::Blue)).to_char(), 'B');
}

#[test]
fn location_errors() {
    assert_eq!(GameBoardLocation::from_offsets(9, 0).unwrap_err(), GameError::OutOfRange);
    assert_eq!(GameBoardLocation::from_coords(1, 0).unwrap_err(), GameError::OutOfRange);
    let location = loc(4, 7);
    assert_eq!((location.x_offset(), location.y_offset()), (3, 6));
}

#[test]
fn add_ball_on_taken_cell_fails() {
    let mut board = GameBoard::default();
    add(&mut board, 2, 2, BallColor::Red);
    assert_eq!(board.add_ball(&loc(2, 2), BallColor::Blue), Err(GameError::CellOccupied));
    assert_eq!(board.at(&loc(2, 2)).0, Some(BallColor::Red));
}

#[test]
fn six_ball_line_scores_twelve() {
    let mut board = GameBoard::default();
    for x in [1, 2, 3, 5, 6] {
        assert_eq!(add(&mut board, x, 4, BallColor::Green), GameScore::new(0));
    }
    assert_eq!(add(&mut board, 4, 4, BallColor::Green), GameScore::new(12));
    assert!(board.is_empty());
}

#[test]
fn four_full_lines_through_centre() {
    let mut board = GameBoard::default();
    for k in 1..=GAME_BOARD_SIZE {
        if k == 5 {
            continue;
        }
        add(&mut board, k, 5, BallColor::Red);
        add(&mut board, 5, k, BallColor::Red);
        add(&mut board, k, k, BallColor::Red);
        add(&mut board, k, 10 - k, BallColor::Red);
    }
    assert!(!board.is_empty());
    let score = add(&mut board, 5, 5, BallColor::Red);
    assert_eq!(score.value(), (1u64 << 32) + 8);
    assert!(board.is_empty());
}

#[test]
fn move_across_a_wall_is_unreachable() {
    let mut board = walled_board(false);
    let before = board.to_string();
    assert_eq!(board.move_ball(&game_move(1, 5, 7, 5)), Err(GameError::Unreachable));
    assert_eq!(board.to_string(), before);
    let zones = board.connected_zones();
    assert_ne!(zones.at(&loc(1, 1)), zones.at(&loc(9, 9)));
    assert_eq!(zones.at(&loc(3, 4)), None);
}

#[test]
fn move_through_a_gap_succeeds() {
    let mut board = walled_board(true);
    assert_eq!(board.move_ball(&game_move(1, 5, 7, 5)), Ok(GameScore::new(0)));
    assert_eq!(board.at(&loc(1, 5)).0, None);
    assert_eq!(board.at(&loc(7, 5)).0, Some(BallColor::Blue));
}

#[test]
fn move_errors() {
    let mut board = GameBoard::default();
    add(&mut board, 1, 1, BallColor::Red);
    add(&mut board, 2, 1, BallColor::Red);
    assert_eq!(board.move_ball(&game_move(3, 3, 4, 4)), Err(GameError::EmptySource));
    assert_eq!(board.move_ball(&game_move(1, 1, 2, 1)), Err(GameError::CellOccupied));
    assert_eq!(board.move_ball(&game_move(1, 1, 1, 2)), Ok(GameScore::new(0)));
}

#[test]
fn move_completing_a_line_scores() {
    let mut board = GameBoard::default();
    for x in 1..=4 {
        add(&mut board, x, 1, BallColor::Yellow);
    }
    add(&mut board, 9, 9, BallColor::Yellow);
    assert_eq!(board.move_ball(&game_move(9, 9, 5, 1)), Ok(GameScore::new(10)));
    assert!(board.is_empty());
}

#[test]
fn score_text_and_sums() {
    assert_eq!(GameScore::from_str("42").unwrap(), GameScore::new(42));
    assert_eq!(GameScore::from_str("+7").unwrap(), GameScore::new(7));
    assert_eq!(GameScore::from_str("").unwrap_err(), GameError::MalformedInput);
    assert_eq!(GameScore::from_str("4 2").unwrap_err(), GameError::MalformedInput);
    assert_eq!(
        GameScore::from_str("18446744073709551616").unwrap_err(),
        GameError::MalformedInput
    );
    assert_eq!(GameScore::new(3).checked_add(GameScore::new(4)), Some(GameScore::new(7)));
    assert_eq!(GameScore::new(u64::MAX).checked_add(GameScore::new(1)), None);
    assert_eq!(
        GameScore::new(u64::MAX).saturating_add(GameScore::new(1)),
        GameScore::new(u64::MAX)
    );
}

#[test]
fn checker_verdicts() {
    let mut board = GameBoard::default();
    for x in 1..=4 {
        add(&mut board, x, 1, BallColor::Red);
    }
    add(&mut board, 9, 9, BallColor::Red);
    let score = GameScore::new(5);
    assert_eq!(
        play_submission(&mut board, score, &Submission::Empty),
        Err(CheckerVerdict::WrongAnswer(WrongAnswerReason::NoMove))
    );
    assert_eq!(
        play_submission(&mut board, score, &Submission::Unreadable),
        Err(CheckerVerdict::PresentationError(PresentationReason::Unreadable))
    );
    assert_eq!(
        play_submission(&mut board, score, &Submission::Malformed(GameError::MalformedInput)),
        Err(CheckerVerdict::PresentationError(PresentationReason::InvalidMove(
            GameError::MalformedInput
        )))
    );
    assert_eq!(
        play_submission(&mut board, score, &Submission::Move(game_move(5, 5, 6, 6))),
        Err(CheckerVerdict::WrongAnswer(WrongAnswerReason::MoveRefused(GameError::EmptySource)))
    );
    let reached = play_submission(&mut board, score, &Submission::Move(game_move(9, 9, 5, 1)));
    assert_eq!(reached, Ok(GameScore::new(15)));
    assert_eq!(compare_score(GameScore::new(15), GameScore::new(15)), CheckerVerdict::OK);
    assert_eq!(
        compare_score(GameScore::new(15), GameScore::new(16)),
        CheckerVerdict::WrongAnswer(WrongAnswerReason::ScoreNotReached {
            expected: GameScore::new(16),
            reached: GameScore::new(15),
        })
    );
}

#[test]
fn checker_ignores_answer_on_full_board() {
    let mut board = GameBoard::default();
    for y in 1..=GAME_BOARD_SIZE {
        for x in 1..=GAME_BOARD_SIZE {
            add(&mut board, x, y, FILL_COLORS[((x * 7 + y * 11) % 17) % 3]);
        }
    }
    assert_eq!(
        play_submission(&mut board, GameScore::new(3), &Submission::Empty),
        Ok(GameScore::new(3))
    );
}

#[test]
fn generator_decisions() {
    assert_eq!(ball_color_from_index(0), BallColor::Green);
    assert_eq!(ball_color_from_index(6), BallColor::Yellow);
    assert!(starts_game(50, 25));
    assert!(!starts_game(51, 25));
    assert_eq!(balls_for_iteration(0, 25), 5);
    assert_eq!(balls_for_iteration(3, 25), 3);

    let mut board = GameBoard::default();
    for x in 1..=4 {
        add(&mut board, x, 1, BallColor::Red);
    }
    add(&mut board, 9, 9, BallColor::Red);
    let replay = replay_answer(&mut board, GameScore::new(1), &Submission::Move(game_move(9, 9, 5, 1)));
    assert!(replay.valid && replay.scored);
    assert_eq!(replay.score, GameScore::new(11));
    let replay = replay_answer(&mut board, GameScore::new(1), &Submission::Malformed(GameError::MalformedInput));
    assert!(!replay.valid && !replay.scored);
    let replay = replay_answer(&mut board, GameScore::new(1), &Submission::Move(game_move(1, 1, 2, 2)));
    assert!(!replay.valid);

    let state = Seeding { score: GameScore::new(0), remaining: 2, done: false };
    let state = place_generated_ball(&mut board, state, &loc(4, 4), BallColor::Blue);
    assert_eq!(state, Seeding { score: GameScore::new(0), remaining: 1, done: false });
    let state = place_generated_ball(&mut board, state, &loc(4, 4), BallColor::Blue);
    assert_eq!(state, Seeding { score: GameScore::new(0), remaining: 1, done: false });
    let state = place_generated_ball(&mut board, state, &loc(5, 4), BallColor::Green);
    assert_eq!(state, Seeding { score: GameScore::new(0), remaining: 0, done: true });
}
