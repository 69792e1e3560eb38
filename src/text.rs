//! The board text format and the move text format.
use vstd::prelude::*;

use vstd::string::{StrSliceExecFns, StringExecFns};

use crate::board::{board_cells, cell, cells_view, GameBoard};
use crate::location::{in_board, GameBoardLocation, GameBoardMove};
use crate::common::{
    GameScore, cell_code, cell_of_code, lemma_cell_code_round_trip, BallColor, GameBoardCell, GameError,
    GAME_BOARD_SIZE,
};

verus! {

/// Characters of one row of the board text, without its line ending: a cell
/// code per column and a separator between each two.
pub const ROW_CHARS: usize = 2 * GAME_BOARD_SIZE - 1;

/// Whether `c` has the Unicode `White_Space` property, as `char::is_whitespace`
/// tells.
pub open spec fn is_whitespace(c: char) -> bool {
    ||| '\u{9}' <= c <= '\u{d}'
    ||| c == ' '
    ||| c == '\u{85}'
    ||| c == '\u{a0}'
    ||| c == '\u{1680}'
    ||| '\u{2000}' <= c <= '\u{200a}'
    ||| c == '\u{2028}'
    ||| c == '\u{2029}'
    ||| c == '\u{202f}'
    ||| c == '\u{205f}'
    ||| c == '\u{3000}'
}

/// Whether `c` is Unicode white space.
pub fn is_whitespace_char(c: char) -> (r: bool)
    ensures
        r == is_whitespace(c),
{
    ('\u{9}' <= c && c <= '\u{d}') || c == ' ' || c == '\u{85}' || c == '\u{a0}' || c == '\u{1680}'
        || ('\u{2000}' <= c && c <= '\u{200a}') || c == '\u{2028}' || c == '\u{2029}' || c
        == '\u{202f}' || c == '\u{205f}' || c == '\u{3000}'
}

/// A character that may stand between two cell codes of a row: white space
/// that does not end the line.
pub open spec fn is_separator(c: char) -> bool {
    is_whitespace(c) && c != '\n'
}

/// The code of column `k` in a row.
pub open spec fn row_cell(r: Seq<char>, k: int) -> char {
    r[2 * k]
}

/// The separator after column `k` in a row.
pub open spec fn row_sep(r: Seq<char>, k: int) -> char {
    r[2 * k + 1]
}

/// The cells of one row of text, where it is well formed.
pub open spec fn parse_row(r: Seq<char>) -> Option<Seq<Option<BallColor>>> {
    if r.len() == ROW_CHARS && (forall|k: int|
        0 <= k < GAME_BOARD_SIZE ==> (#[trigger] cell_of_code(row_cell(r, k))) is Some) && (forall|
        k: int,
    |
        0 <= k < GAME_BOARD_SIZE - 1 ==> is_separator(#[trigger] row_sep(r, k))) {
        Some(Seq::new(GAME_BOARD_SIZE as nat, |k: int| cell_of_code(row_cell(r, k))->0))
    } else {
        None
    }
}

/// What follows a line ending at the start of `rest`: the end of the text also
/// ends a line.
pub open spec fn after_line_end(rest: Seq<char>) -> Option<Seq<char>> {
    if rest.len() == 0 {
        Some(rest)
    } else if rest[0] == '\n' {
        Some(rest.skip(1))
    } else if rest.len() >= 2 && rest[0] == '\r' && rest[1] == '\n' {
        Some(rest.skip(2))
    } else {
        None
    }
}

/// The cells of `rows` rows of text, where `s` is exactly that many rows.
pub open spec fn parse_rows(s: Seq<char>, rows: nat) -> Option<Seq<Option<BallColor>>>
    decreases rows,
{
    if rows == 0 {
        if s.len() == 0 {
            Some(Seq::empty())
        } else {
            None
        }
    } else if s.len() < ROW_CHARS {
        None
    } else {
        match parse_row(s.take(ROW_CHARS as int)) {
            None => None,
            Some(row) => match after_line_end(s.skip(ROW_CHARS as int)) {
                None => None,
                Some(rest) => match parse_rows(rest, (rows - 1) as nat) {
                    None => None,
                    Some(tail) => Some(row + tail),
                },
            },
        }
    }
}

/// The cells that the board text `s` describes, in row-major order, where it
/// is well formed: one row per line, as many lines as the board is high.
pub open spec fn parse_board(s: Seq<char>) -> Option<Seq<Option<BallColor>>> {
    parse_rows(s, GAME_BOARD_SIZE as nat)
}

/// The text of row `y` of board `b`, with its line ending.
pub open spec fn row_text(b: Seq<Option<BallColor>>, y: int) -> Seq<char> {
    Seq::new(
        (ROW_CHARS + 1) as nat,
        |i: int|
            if i == ROW_CHARS {
                '\n'
            } else if i % 2 == 1 {
                ' '
            } else {
                cell_code(cell(b, i / 2, y))
            },
    )
}

/// The text of rows `y` and below of board `b`.
pub open spec fn rows_text(b: Seq<Option<BallColor>>, y: int) -> Seq<char>
    decreases GAME_BOARD_SIZE - y,
{
    if y >= GAME_BOARD_SIZE {
        Seq::empty()
    } else {
        row_text(b, y) + rows_text(b, y + 1)
    }
}

/// The text of board `b`.
pub open spec fn board_text(b: Seq<Option<BallColor>>) -> Seq<char> {
    rows_text(b, 0)
}

/// Some `a + t` where `o` is `Some(t)`.
pub open spec fn prepend(
    a: Seq<Option<BallColor>>,
    o: Option<Seq<Option<BallColor>>>,
) -> Option<Seq<Option<BallColor>>> {
    match o {
        Some(t) => Some(a + t),
        None => None,
    }
}

/// The rows of a board's text from row `y` on read back as its cells from
/// row `y` on.
proof fn lemma_rows_round_trip(b: Seq<Option<BallColor>>, y: int)
    requires
        b.len() == board_cells(),
        0 <= y <= GAME_BOARD_SIZE,
    ensures
        parse_rows(rows_text(b, y), (GAME_BOARD_SIZE - y) as nat) == Some(
            b.subrange(y * GAME_BOARD_SIZE, board_cells()),
        ),
    decreases GAME_BOARD_SIZE - y,
{
    if y == GAME_BOARD_SIZE {
        assert(b.subrange(y * GAME_BOARD_SIZE, board_cells()) =~= Seq::<Option<BallColor>>::empty());
    } else {
        lemma_rows_round_trip(b, y + 1);
        let s = rows_text(b, y);
        let rt = row_text(b, y);
        let rest = rows_text(b, y + 1);
        assert(s == rt + rest);
        let r = s.take(ROW_CHARS as int);
        assert(r =~= rt.take(ROW_CHARS as int));
        assert forall|k: int| 0 <= k < GAME_BOARD_SIZE implies (#[trigger] cell_of_code(
            row_cell(r, k),
        )) is Some && cell_of_code(row_cell(r, k))->0 == b[y * GAME_BOARD_SIZE + k] by {
            assert((2 * k) % 2 == 0 && (2 * k) / 2 == k);
            assert(row_cell(r, k) == cell_code(cell(b, k, y)));
            lemma_cell_code_round_trip(cell(b, k, y));
        }
        assert forall|k: int| 0 <= k < GAME_BOARD_SIZE - 1 implies is_separator(
            #[trigger] row_sep(r, k),
        ) by {
            assert((2 * k + 1) % 2 == 1);
            assert(row_sep(r, k) == ' ');
        }
        let row = Seq::new(GAME_BOARD_SIZE as nat, |k: int| cell_of_code(row_cell(r, k))->0);
        assert(parse_row(r) == Some(row));
        assert(row =~= b.subrange(y * GAME_BOARD_SIZE, y * GAME_BOARD_SIZE + GAME_BOARD_SIZE));
        let after = s.skip(ROW_CHARS as int);
        assert(after[0] == '\n');
        assert(after.skip(1) =~= rest);
        assert(after_line_end(after) == Some(rest));
        assert(row + b.subrange((y + 1) * GAME_BOARD_SIZE, board_cells()) =~= b.subrange(
            y * GAME_BOARD_SIZE,
            board_cells(),
        ));
    }
}

/// The rows of a board's text from row `y` on read as exactly
/// `GAME_BOARD_SIZE - y` rows and as no other number of rows.
proof fn lemma_rows_count(b: Seq<Option<BallColor>>, y: int, m: nat)
    requires
        b.len() == board_cells(),
        0 <= y <= GAME_BOARD_SIZE,
        m != GAME_BOARD_SIZE - y,
    ensures
        parse_rows(rows_text(b, y), m) is None,
    decreases GAME_BOARD_SIZE - y,
{
    if y == GAME_BOARD_SIZE {
        assert(rows_text(b, y).len() == 0);
    } else {
        lemma_rows_round_trip(b, y);
        let s = rows_text(b, y);
        assert(s == row_text(b, y) + rows_text(b, y + 1));
        assert(s.len() > 0);
        if m > 0 {
            lemma_rows_count(b, y + 1, (m - 1) as nat);
            let after = s.skip(ROW_CHARS as int);
            assert(after[0] == '\n');
            assert(after.skip(1) =~= rows_text(b, y + 1));
        }
    }
}

/// The empty text is no board.
pub proof fn lemma_empty_text_rejected()
    ensures
        parse_board(Seq::empty()) is None,
{
}

/// A board text with one row too few, or one row too many, is no board.
pub proof fn lemma_wrong_row_count_rejected(b: Seq<Option<BallColor>>)
    requires
        b.len() == board_cells(),
    ensures
        parse_board(rows_text(b, 1)) is None,
        parse_board(row_text(b, 0) + board_text(b)) is None,
{
    lemma_rows_count(b, 1, GAME_BOARD_SIZE as nat);
    lemma_rows_count(b, 0, (GAME_BOARD_SIZE - 1) as nat);
    lemma_rows_round_trip(b, 0);
    let s = row_text(b, 0) + board_text(b);
    assert(s.take(ROW_CHARS as int) =~= board_text(b).take(ROW_CHARS as int));
    assert(board_text(b) == row_text(b, 0) + rows_text(b, 1));
    assert(s.skip(ROW_CHARS as int) =~= seq!['\n'] + board_text(b));
    assert(board_text(b).skip(ROW_CHARS as int) =~= seq!['\n'] + rows_text(b, 1));
    assert((seq!['\n'] + board_text(b)).skip(1) =~= board_text(b));
    assert((seq!['\n'] + rows_text(b, 1)).skip(1) =~= rows_text(b, 1));
    assert(after_line_end(s.skip(ROW_CHARS as int)) == Some(board_text(b)));
}

/// Reading the text of any board gives back that board.
pub proof fn lemma_board_text_round_trip(b: Seq<Option<BallColor>>)
    requires
        b.len() == board_cells(),
    ensures
        parse_board(board_text(b)) == Some(b),
{
    lemma_rows_round_trip(b, 0);
    assert(b.subrange(0, board_cells()) =~= b);
}

/// The cells of the row of text that starts at position `pos` of `s`.
fn parse_row_at(s: &str, pos: usize) -> (r: Option<Vec<GameBoardCell>>)
    requires
        pos + ROW_CHARS <= s@.len() <= usize::MAX,
    ensures
        match parse_row(s@.subrange(pos as int, pos + ROW_CHARS)) {
            Some(row) => r is Some && cells_view(r->0@) == row,
            None => r is None,
        },
{
    let ghost t = s@.subrange(pos as int, pos + ROW_CHARS);
    let mut row: Vec<GameBoardCell> = Vec::new();
    let mut k: usize = 0;
    while k < GAME_BOARD_SIZE
        invariant
            pos + ROW_CHARS <= s@.len() <= usize::MAX,
            t == s@.subrange(pos as int, pos + ROW_CHARS),
            k <= GAME_BOARD_SIZE,
            row@.len() == k,
            forall|j: int|
                0 <= j < k ==> (#[trigger] cell_of_code(row_cell(t, j))) is Some && row@[j].0
                    == cell_of_code(row_cell(t, j))->0,
            forall|j: int| 0 <= j < k && j < GAME_BOARD_SIZE - 1 ==> is_separator(#[trigger] row_sep(t, j)),
        decreases GAME_BOARD_SIZE - k,
    {
        let c = s.get_char(pos + 2 * k);
        assert(row_cell(t, k as int) == c);
        match GameBoardCell::from_char(c) {
            Ok(cell) => {
                row.push(cell);
            },
            Err(_) => {
                return None;
            },
        }
        if k + 1 < GAME_BOARD_SIZE {
            let sep = s.get_char(pos + 2 * k + 1);
            assert(row_sep(t, k as int) == sep);
            if !is_whitespace_char(sep) || sep == '\n' {
                return None;
            }
        }
        k = k + 1;
    }
    assert(cells_view(row@) =~= Seq::new(
        GAME_BOARD_SIZE as nat,
        |k: int| cell_of_code(row_cell(t, k))->0,
    ));
    Some(row)
}

/// The one-character text of a cell.
fn cell_str(c: Option<BallColor>) -> (r: &'static str)
    ensures
        r@ == seq![cell_code(c)],
{
    match c {
        None => {
            proof {
                reveal_strlit("_");
            }
            "_"
        },
        Some(BallColor::Green) => {
            proof {
                reveal_strlit("G");
            }
            "G"
        },
        Some(BallColor::Pink) => {
            proof {
                reveal_strlit("P");
            }
            "P"
        },
        Some(BallColor::Red) => {
            proof {
                reveal_strlit("R");
            }
            "R"
        },
        Some(BallColor::Maroon) => {
            proof {
                reveal_strlit("M");
            }
            "M"
        },
        Some(BallColor::Cyan) => {
            proof {
                reveal_strlit("C");
            }
            "C"
        },
        Some(BallColor::Blue) => {
            proof {
                reveal_strlit("B");
            }
            "B"
        },
        Some(BallColor::Yellow) => {
            proof {
                reveal_strlit("Y");
            }
            "Y"
        },
    }
}

impl GameBoard {
    /// The text of the board: one line per row, cell codes separated by single
    /// spaces, each line ended by a line feed.
    pub fn to_string(&self) -> (r: String)
        requires
            self.wf(),
        ensures
            r@ == board_text(self@),
    {
        let ghost b = self@;
        let mut out = String::new();
        let mut y: usize = 0;
        while y < GAME_BOARD_SIZE
            invariant
                self.wf(),
                self@ == b,
                y <= GAME_BOARD_SIZE,
                out@ + rows_text(b, y as int) == board_text(b),
            decreases GAME_BOARD_SIZE - y,
        {
            let ghost rt = row_text(b, y as int);
            let ghost tail = rows_text(b, y + 1);
            assert(rows_text(b, y as int) == rt + tail);
            assert(rt.skip(0) =~= rt);
            let mut k: usize = 0;
            while k < GAME_BOARD_SIZE
                invariant
                    self.wf(),
                    self@ == b,
                    y < GAME_BOARD_SIZE,
                    k <= GAME_BOARD_SIZE,
                    rt == row_text(b, y as int),
                    out@ + (rt.skip(2 * k) + tail) == board_text(b),
                decreases GAME_BOARD_SIZE - k,
            {
                let ghost before = out@;
                let c = self.get(k, y);
                out.append(cell_str(c));
                assert((2 * k as int) % 2 == 0 && (2 * k as int) / 2 == k);
                assert((2 * k as int + 1) % 2 == 1);
                assert(rt[2 * k as int] == cell_code(c));
                if k + 1 < GAME_BOARD_SIZE {
                    let sp = " ";
                    proof {
                        reveal_strlit(" ");
                    }
                    out.append(sp);
                    assert(rt[2 * k + 1] == ' ');
                } else {
                    let nl = "\n";
                    proof {
                        reveal_strlit("\n");
                    }
                    out.append(nl);
                    assert(rt[2 * k + 1] == '\n');
                }
                assert(rt.skip(2 * k as int) =~= seq![rt[2 * k as int], rt[2 * k + 1]] + rt.skip(
                    2 * k + 2,
                ));
                assert(out@ =~= before + seq![rt[2 * k as int], rt[2 * k + 1]]);
                assert(out@ + (rt.skip(2 * k + 2) + tail) =~= before + (rt.skip(2 * k as int)
                    + tail));
                k = k + 1;
            }
            assert(rt.skip(2 * k as int) =~= Seq::<char>::empty());
            assert(out@ + rows_text(b, y + 1) =~= out@ + (rt.skip(2 * k as int) + tail));
            y = y + 1;
        }
        assert(out@ + rows_text(b, y as int) =~= out@);
        out
    }

    /// Reads a board from its text: one line per row, each holding a cell code
    /// (`_` for an empty cell) per column with one white-space character
    /// between each two; every line ends with a line feed, optionally after a
    /// carriage return, but the last one may end with the text.
    pub fn from_str(s: &str) -> (r: Result<GameBoard, GameError>)
        ensures
            match parse_board(s@) {
                Some(cells) => r is Ok && r->Ok_0.wf() && r->Ok_0@ == cells,
                None => r == Err::<GameBoard, GameError>(GameError::MalformedInput),
            },
    {
        let n = s.unicode_len();
        let mut cells: Vec<GameBoardCell> = Vec::new();
        let mut pos: usize = 0;
        let mut row: usize = 0;
        proof {
            assert(s@.skip(0) =~= s@);
            match parse_board(s@) {
                Some(t) => {
                    assert(cells_view(cells@) + t =~= t);
                },
                None => {},
            }
        }
        while row < GAME_BOARD_SIZE
            invariant
                n == s@.len(),
                pos <= n,
                row <= GAME_BOARD_SIZE,
                cells@.len() == row * GAME_BOARD_SIZE,
                parse_board(s@) == prepend(
                    cells_view(cells@),
                    parse_rows(s@.skip(pos as int), (GAME_BOARD_SIZE - row) as nat),
                ),
            decreases GAME_BOARD_SIZE - row,
        {
            let ghost rest = s@.skip(pos as int);
            if n - pos < ROW_CHARS {
                return Err(GameError::MalformedInput);
            }
            assert(rest.take(ROW_CHARS as int) =~= s@.subrange(pos as int, pos + ROW_CHARS));
            let row_cells = match parse_row_at(s, pos) {
                Some(v) => v,
                None => {
                    return Err(GameError::MalformedInput);
                },
            };
            let ghost before = cells@;
            let mut k: usize = 0;
            while k < row_cells.len()
                invariant
                    k <= row_cells@.len(),
                    cells@ == before + row_cells@.take(k as int),
                decreases row_cells@.len() - k,
            {
                cells.push(row_cells[k]);
                k = k + 1;
                assert(cells@ =~= before + row_cells@.take(k as int));
            }
            assert(row_cells@.take(k as int) =~= row_cells@);
            assert(cells_view(cells@) =~= cells_view(before) + cells_view(row_cells@));
            let ghost after = rest.skip(ROW_CHARS as int);
            assert(after =~= s@.skip(pos + ROW_CHARS));
            pos = pos + ROW_CHARS;
            if pos == n {
                assert(after_line_end(after) == Some(s@.skip(pos as int)));
            } else {
                let c = s.get_char(pos);
                if c == '\n' {
                    pos = pos + 1;
                    assert(after.skip(1) =~= s@.skip(pos as int));
                } else if c == '\r' && pos + 1 < n && s.get_char(pos + 1) == '\n' {
                    pos = pos + 2;
                    assert(after.skip(2) =~= s@.skip(pos as int));
                } else {
                    return Err(GameError::MalformedInput);
                }
            }
            row = row + 1;
            proof {
                let a = cells_view(before);
                let rv = cells_view(row_cells@);
                match parse_rows(s@.skip(pos as int), (GAME_BOARD_SIZE - row) as nat) {
                    Some(t) => {
                        assert(a + (rv + t) =~= (a + rv) + t);
                    },
                    None => {},
                }
            }
        }
        if pos != n {
            return Err(GameError::MalformedInput);
        }
        assert(s@.skip(pos as int) =~= Seq::<char>::empty());
        assert(cells_view(cells@) + Seq::<Option<BallColor>>::empty() =~= cells_view(cells@));
        Ok(GameBoard::from_cells(cells))
    }
}


/// The words of `s` after the partial word `cur`, where words are the maximal
/// runs of characters that are not white space.
pub open spec fn tokens_from(s: Seq<char>, cur: Seq<char>) -> Seq<Seq<char>>
    decreases s.len(),
{
    if s.len() == 0 {
        if cur.len() > 0 {
            seq![cur]
        } else {
            seq![]
        }
    } else if is_whitespace(s[0]) {
        (if cur.len() > 0 {
            seq![cur]
        } else {
            seq![]
        }) + tokens_from(s.drop_first(), seq![])
    } else {
        tokens_from(s.drop_first(), cur.push(s[0]))
    }
}

/// The white-space separated words of `s`.
pub open spec fn tokens(s: Seq<char>) -> Seq<Seq<char>> {
    tokens_from(s, seq![])
}

pub open spec fn is_digit(c: char) -> bool {
    '0' <= c <= '9'
}

pub open spec fn digit_value(c: char) -> int {
    c as int - '0' as int
}

/// The number that the decimal digits `d` write.
pub open spec fn digits_value(d: Seq<char>) -> int
    decreases d.len(),
{
    if d.len() == 0 {
        0
    } else {
        digits_value(d.drop_last()) * 10 + digit_value(d.last())
    }
}

/// `t` without a leading `+`.
pub open spec fn digit_part(t: Seq<char>) -> Seq<char> {
    if t.len() > 0 && t[0] == '+' {
        t.drop_first()
    } else {
        t
    }
}

/// Every character of `d` is a decimal digit.
pub open spec fn all_digits(d: Seq<char>) -> bool {
    forall|i: int| 0 <= i < d.len() ==> is_digit(#[trigger] d[i])
}

/// The unsigned integer that `t` writes, where it is an optional `+` followed
/// by one or more decimal digits and the value fits in 64 bits.
pub open spec fn parse_uint(t: Seq<char>) -> Option<int> {
    let d = digit_part(t);
    if d.len() > 0 && all_digits(d) && digits_value(d) <= u64::MAX {
        Some(digits_value(d))
    } else {
        None
    }
}

/// The coordinate that `t` writes, where it is an unsigned integer that fits
/// in `usize`.
pub open spec fn parse_coordinate(t: Seq<char>) -> Option<int> {
    match parse_uint(t) {
        Some(v) => if v <= usize::MAX {
            Some(v)
        } else {
            None
        },
        None => None,
    }
}

/// The four numbers of a move text, where it is exactly four unsigned
/// integers.
pub open spec fn parse_move_numbers(s: Seq<char>) -> Option<Seq<int>> {
    let t = tokens(s);
    if t.len() == 4 && (forall|i: int| 0 <= i < 4 ==> (#[trigger] parse_coordinate(t[i])) is Some) {
        Some(Seq::new(4, |i: int| parse_coordinate(t[i])->0))
    } else {
        None
    }
}

/// A number written in digits is at least the number that any prefix of
/// them writes.
proof fn lemma_digits_prefix(d: Seq<char>, j: int)
    requires
        0 <= j <= d.len(),
        all_digits(d),
    ensures
        digits_value(d) >= digits_value(d.take(j)) >= 0,
    decreases d.len(),
{
    if j == d.len() {
        assert(d.take(j) =~= d);
        if d.len() > 0 {
            lemma_digits_prefix(d.drop_last(), j - 1);
            assert(is_digit(d[d.len() - 1]));
        }
    } else {
        let p = d.drop_last();
        assert(p.take(j) =~= d.take(j));
        assert forall|i: int| 0 <= i < p.len() implies is_digit(#[trigger] p[i]) by {
            assert(p[i] == d[i]);
        }
        lemma_digits_prefix(p, j);
        assert(is_digit(d[d.len() - 1]));
    }
}

/// Splits `s` into its white-space separated words.
fn split_tokens(s: &str) -> (r: Vec<Vec<char>>)
    ensures
        r@.map_values(|v: Vec<char>| v@) == tokens(s@),
{
    let n = s.unicode_len();
    let mut r: Vec<Vec<char>> = Vec::new();
    let mut cur: Vec<char> = Vec::new();
    let mut i: usize = 0;
    assert(s@.skip(0) =~= s@);
    assert(r@.map_values(|v: Vec<char>| v@) + tokens_from(s@, cur@) =~= tokens(s@));
    while i < n
        invariant
            n == s@.len(),
            i <= n,
            r@.map_values(|v: Vec<char>| v@) + tokens_from(s@.skip(i as int), cur@) == tokens(s@),
        decreases n - i,
    {
        let ghost rest = s@.skip(i as int);
        let ghost rv = r@.map_values(|v: Vec<char>| v@);
        let c = s.get_char(i);
        assert(rest[0] == c);
        assert(rest.drop_first() =~= s@.skip(i + 1));
        if is_whitespace_char(c) {
            if cur.len() > 0 {
                let ghost cv = cur@;
                r.push(cur);
                cur = Vec::new();
                assert(r@.map_values(|v: Vec<char>| v@) =~= rv + seq![cv]);
                assert(rv + (seq![cv] + tokens_from(s@.skip(i + 1), seq![])) =~= (rv + seq![cv])
                    + tokens_from(s@.skip(i + 1), cur@));
            } else {
                assert(cur@ =~= Seq::<char>::empty());
                assert(seq![] + tokens_from(s@.skip(i + 1), seq![]) =~= tokens_from(
                    s@.skip(i + 1),
                    cur@,
                ));
            }
        } else {
            cur.push(c);
        }
        i = i + 1;
    }
    assert(s@.skip(i as int) =~= Seq::<char>::empty());
    if cur.len() > 0 {
        let ghost rv = r@.map_values(|v: Vec<char>| v@);
        let ghost cv = cur@;
        r.push(cur);
        assert(r@.map_values(|v: Vec<char>| v@) =~= rv + seq![cv]);
    } else {
        assert(r@.map_values(|v: Vec<char>| v@) + Seq::<Seq<char>>::empty() =~= r@.map_values(
            |v: Vec<char>| v@,
        ));
    }
    r
}

/// The unsigned integer that the word `t` writes.
fn parse_u64(t: &Vec<char>) -> (r: Option<u64>)
    ensures
        match parse_uint(t@) {
            Some(v) => r is Some && r->0 == v,
            None => r is None,
        },
{
    let mut start: usize = 0;
    if t.len() > 0 && t[0] == '+' {
        start = 1;
    }
    let ghost d = t@.skip(start as int);
    proof {
        if t.len() > 0 && t@[0] == '+' {
            assert(d =~= t@.drop_first());
        } else {
            assert(d =~= t@);
        }
    }
    if t.len() == start {
        return None;
    }
    let mut v: u64 = 0;
    let mut i: usize = start;
    while i < t.len()
        invariant
            start <= i <= t@.len(),
            d == t@.skip(start as int),
            d == digit_part(t@),
            forall|j: int| 0 <= j < i - start ==> is_digit(#[trigger] d[j]),
            v == digits_value(d.take(i - start)),
        decreases t@.len() - i,
    {
        let c = t[i];
        assert(d[i - start] == c);
        if !('0' <= c && c <= '9') {
            assert(!all_digits(d));
            return None;
        }
        let dv = (c as u32 - '0' as u32) as u64;
        assert(d.take(i - start + 1).drop_last() =~= d.take(i - start));
        assert(forall|j: int| 0 <= j < i - start + 1 ==> is_digit(#[trigger] d[j]));
        assert(digits_value(d.take(i - start + 1)) == v * 10 + digit_value(c));
        let m = match v.checked_mul(10) {
            Some(m) => m,
            None => {
                proof {
                    if all_digits(d) {
                        lemma_digits_prefix(d, i - start + 1);
                    }
                }
                return None;
            },
        };
        match m.checked_add(dv) {
            Some(w) => {
                v = w;
            },
            None => {
                proof {
                    if all_digits(d) {
                        lemma_digits_prefix(d, i - start + 1);
                    }
                }
                return None;
            },
        }
        i = i + 1;
    }
    assert(d.take(i - start) =~= d);
    Some(v)
}

impl GameBoardMove {
    /// Reads a move from four white-space separated one-based coordinates:
    /// column and row of the ball, then column and row of its destination.
    pub fn from_str(s: &str) -> (r: Result<GameBoardMove, GameError>)
        ensures
            match parse_move_numbers(s@) {
                None => r == Err::<GameBoardMove, GameError>(GameError::MalformedInput),
                Some(v) => if in_board(v[0] - 1, v[1] - 1) && in_board(v[2] - 1, v[3] - 1) {
                    &&& r is Ok
                    &&& r->Ok_0.from.x() == v[0] - 1
                    &&& r->Ok_0.from.y() == v[1] - 1
                    &&& r->Ok_0.to.x() == v[2] - 1
                    &&& r->Ok_0.to.y() == v[3] - 1
                } else {
                    r == Err::<GameBoardMove, GameError>(GameError::OutOfRange)
                },
            },
    {
        let words = split_tokens(s);
        let ghost t = tokens(s@);
        let mut coords: Vec<usize> = Vec::new();
        let mut i: usize = 0;
        while i < words.len()
            invariant
                words@.map_values(|v: Vec<char>| v@) == t,
                t == tokens(s@),
                i <= words@.len(),
                coords@.len() == i,
                forall|j: int|
                    0 <= j < i ==> (#[trigger] parse_coordinate(t[j])) is Some && coords@[j]
                        == parse_coordinate(t[j])->0,
            decreases words@.len() - i,
        {
            assert(t[i as int] == words@[i as int]@);
            let value = match parse_u64(&words[i]) {
                Some(v) => {
                    if v <= usize::MAX as u64 {
                        Some(v as usize)
                    } else {
                        None
                    }
                },
                None => None,
            };
            match value {
                Some(v) => {
                    coords.push(v);
                },
                None => {
                    proof {
                        if t.len() == 4 {
                            assert(parse_coordinate(t[i as int]) is None);
                        }
                    }
                    return Err(GameError::MalformedInput);
                },
            }
            i = i + 1;
        }
        if coords.len() != 4 {
            return Err(GameError::MalformedInput);
        }
        let from = match GameBoardLocation::from_coords(coords[0], coords[1]) {
            Ok(l) => l,
            Err(e) => {
                return Err(e);
            },
        };
        let to = match GameBoardLocation::from_coords(coords[2], coords[3]) {
            Ok(l) => l,
            Err(e) => {
                return Err(e);
            },
        };
        Ok(GameBoardMove { from, to })
    }
}


impl GameScore {
    /// Reads a score: an optional `+` followed by decimal digits, with a value
    /// that fits in 64 bits.
    pub fn from_str(s: &str) -> (r: Result<GameScore, GameError>)
        ensures
            match parse_uint(s@) {
                Some(v) => r is Ok && r->Ok_0.spec_value() == v,
                None => r == Err::<GameScore, GameError>(GameError::MalformedInput),
            },
    {
        let n = s.unicode_len();
        let mut chars: Vec<char> = Vec::new();
        let mut i: usize = 0;
        while i < n
            invariant
                n == s@.len(),
                i <= n,
                chars@ == s@.take(i as int),
            decreases n - i,
        {
            chars.push(s.get_char(i));
            i = i + 1;
            assert(chars@ =~= s@.take(i as int));
        }
        assert(chars@ =~= s@);
        match parse_u64(&chars) {
            Some(v) => Ok(GameScore::new(v)),
            None => Err(GameError::MalformedInput),
        }
    }
}

} // verus!
