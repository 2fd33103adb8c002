//! Portable Game Notation: writing the moves of a game as text, and
//! replaying a game from such text.
use vstd::prelude::*;
use crate::types::{Color, Move, Piece, piece_letter, piece_letter_upper, move_on_board};
use crate::board::{
    piece_on, make_move, checkers, move_from_san, board_from_fen, fen_board, STARTING_FEN, legal, piece_at, board_after,
    checkers_of, san_move, is_legal, is_starting_position,
};

verus! {

/// Calls `String::push`, which appends one character.
#[verifier::external_body]
fn push_char(s: &mut String, c: char)
    ensures
        final(s)@ == old(s)@.push(c),
{
    s.push(c)
}

/// The Unicode `White_Space` characters.
pub open spec fn unicode_white_space(c: char) -> bool {
    let n = c as u32;
    ||| 0x09 <= n <= 0x0d
    ||| n == 0x20
    ||| n == 0x85
    ||| n == 0xa0
    ||| n == 0x1680
    ||| 0x2000 <= n <= 0x200a
    ||| n == 0x2028
    ||| n == 0x2029
    ||| n == 0x202f
    ||| n == 0x205f
    ||| n == 0x3000
}

/// Whether `c` is white space: a character with the Unicode `White_Space`
/// property, as `char::is_whitespace` decides it.
fn is_whitespace(c: char) -> (r: bool)
    ensures
        r == unicode_white_space(c),
{
    let n = c as u32;
    (0x09 <= n && n <= 0x0d) || n == 0x20 || n == 0x85 || n == 0xa0 || n == 0x1680 || (0x2000 <= n
        && n <= 0x200a) || n == 0x2028 || n == 0x2029 || n == 0x202f || n == 0x205f || n == 0x3000
}

/// Splitting text into words, reading it from the front: the words
/// completed so far and the word being read.
pub open spec fn words_so_far(s: Seq<char>) -> (Seq<Seq<char>>, Seq<char>)
    decreases s.len(),
{
    if s.len() == 0 {
        (Seq::empty(), Seq::empty())
    } else {
        let acc = words_so_far(s.drop_last());
        let c = s.last();
        if unicode_white_space(c) {
            if acc.1.len() > 0 {
                (acc.0.push(acc.1), Seq::empty())
            } else {
                (acc.0, Seq::empty())
            }
        } else {
            (acc.0, acc.1.push(c))
        }
    }
}

/// The words of a text: its maximal runs of characters other than white
/// space, in order.
pub open spec fn words(s: Seq<char>) -> Seq<Seq<char>> {
    let acc = words_so_far(s);
    if acc.1.len() > 0 {
        acc.0.push(acc.1)
    } else {
        acc.0
    }
}

/// The words of `text`, split at white space.
pub fn split_whitespace(text: &str) -> (r: Vec<String>)
    ensures
        r@.len() == words(text@).len(),
        forall|i: int| 0 <= i < r@.len() ==> #[trigger] r@[i]@ == words(text@)[i],
{
    let mut result: Vec<String> = Vec::new();
    let mut current = String::new();
    let mut reading = false;
    for c in iter: text.chars()
        invariant
            iter.seq() == text@,
            reading == (current@.len() > 0),
            words_so_far(text@.take(iter.index())).0.len() == result@.len(),
            forall|i: int| 0 <= i < result@.len() ==> #[trigger] result@[i]@ == words_so_far(text@.take(iter.index())).0[i],
            words_so_far(text@.take(iter.index())).1 == current@,
    {
        proof {
            assert(text@.take(iter.index() + 1).drop_last() =~= text@.take(iter.index()));
        }
        if is_whitespace(c) {
            if reading {
                result.push(current);
            }
            current = String::new();
            reading = false;
        } else {
            push_char(&mut current, c);
            reading = true;
        }
    }
    if reading {
        result.push(current);
    }
    proof {
        assert(text@.take(text@.len() as int) =~= text@);
    }
    result
}

/// Replaying the words of a game from `board`: every third word, starting
/// with the first, is a move number and is passed over; each other word is
/// a move in SAN.  `None` when a move word is not a move of the position
/// reached.
pub open spec fn replay(board: chess::Board, toks: Seq<Seq<char>>, index: nat) -> Option<chess::Board>
    decreases toks.len(),
{
    if toks.len() == 0 {
        Some(board)
    } else if index % 3 == 0 {
        replay(board, toks.drop_first(), index + 1)
    } else {
        match san_move(board, toks[0]) {
            None => None,
            Some(m) => replay(board_after(board, m), toks.drop_first(), index + 1),
        }
    }
}

/// The move numbers of a game do not matter: replacing the word at a move
/// number's place (every third word, counting from the first) by any other
/// word replays to the same position.
pub proof fn lemma_replay_ignores_move_numbers(
    board: chess::Board,
    toks: Seq<Seq<char>>,
    i: int,
    w: Seq<char>,
    index: nat,
)
    requires
        0 <= i < toks.len(),
        (i + index) % 3 == 0,
    ensures
        replay(board, toks.update(i, w), index) == replay(board, toks, index),
    decreases toks.len(),
{
    let t2 = toks.update(i, w);
    if i == 0 {
        assert(t2.drop_first() =~= toks.drop_first());
    } else {
        assert(t2.drop_first() =~= toks.drop_first().update(i - 1, w));
        assert(t2[0] == toks[0]);
        if index % 3 == 0 {
            lemma_replay_ignores_move_numbers(board, toks.drop_first(), i - 1, w, index + 1);
        } else {
            match san_move(board, toks[0]) {
                None => {},
                Some(m) => {
                    lemma_replay_ignores_move_numbers(
                        board_after(board, m),
                        toks.drop_first(),
                        i - 1,
                        w,
                        index + 1,
                    );
                },
            }
        }
    }
}

/// The position reached by playing the game written in `pgn` from `board`,
/// or `None` when one of its moves cannot be played.
pub fn replay_pgn(board: &chess::Board, pgn: &str) -> (r: Option<chess::Board>)
    ensures
        r == replay(*board, words(pgn@), 0),
{
    let toks = split_whitespace(pgn);
    let ghost ws = words(pgn@);
    proof {
        assert(toks@.map_values(|t: String| t@) =~= ws);
        assert(ws.skip(0) =~= ws);
    }
    let mut current = *board;
    let mut index: usize = 0;
    while index < toks.len()
        invariant
            0 <= index <= toks@.len(),
            ws == words(pgn@),
            toks@.len() == ws.len(),
            forall|i: int| 0 <= i < toks@.len() ==> #[trigger] toks@[i]@ == ws[i],
            replay(*board, ws, 0) == replay(current, ws.skip(index as int), index as nat),
        decreases toks@.len() - index,
    {
        proof {
            assert(ws.skip(index as int).drop_first() =~= ws.skip(index + 1));
            assert(ws.skip(index as int)[0] == ws[index as int]);
        }
        if index % 3 != 0 {
            match move_from_san(&current, toks[index].as_str()) {
                Some(m) => {
                    current = make_move(&current, m);
                },
                None => {
                    proof {
                        assert(toks@[index as int]@ == ws[index as int]);
                        assert((index as nat) % 3 != 0);
                        assert(replay(current, ws.skip(index as int), index as nat) == None::<chess::Board>);
                        assert(replay(*board, ws, 0) == None::<chess::Board>);
                    }
                    return None;
                },
            }
        }
        index += 1;
    }
    proof {
        assert(ws.skip(index as int).len() == 0);
    }
    Some(current)
}

/// The position reached by playing the game written in `pgn` from the
/// initial position (the board of `STARTING_FEN`); `None` when one of its
/// moves cannot be played.
pub fn create_board_from_pgn(pgn: String) -> (r: Option<chess::Board>)
    ensures
        fen_board(STARTING_FEN@) matches Some(start) && is_starting_position(start) && r == replay(
            start,
            words(pgn@),
            0,
        ),
{
    match board_from_fen(STARTING_FEN) {
        Some(board) => replay_pgn(&board, pgn.as_str()),
        None => None,
    }
}

/// The character of a decimal digit.
pub open spec fn digit_char(d: nat) -> char {
    (48 + d) as char
}

/// The decimal digits of a natural number.
pub open spec fn nat_digits(n: nat) -> Seq<char>
    decreases n,
{
    if n < 10 {
        seq![digit_char(n)]
    } else {
        nat_digits(n / 10).push(digit_char(n % 10))
    }
}

/// An integer written in decimal.
pub open spec fn int_decimal(n: int) -> Seq<char> {
    if n < 0 {
        seq!['-'] + nat_digits((-n) as nat)
    } else {
        nat_digits(n as nat)
    }
}

pub(crate) fn push_nat_digits(s: &mut String, n: u128)
    ensures
        final(s)@ == old(s)@ + nat_digits(n as nat),
    decreases n,
{
    if n >= 10 {
        push_nat_digits(s, n / 10);
    }
    let d = (n % 10) as u8;
    push_char(s, (48u8 + d) as char);
    proof {
        assert(old(s)@ + nat_digits(n as nat) =~= (if n >= 10 {
            old(s)@ + nat_digits((n / 10) as nat)
        } else {
            old(s)@
        }).push(digit_char((n % 10) as nat)));
    }
}

pub(crate) fn push_decimal(s: &mut String, n: i64)
    requires
        n > i64::MIN,
    ensures
        final(s)@ == old(s)@ + int_decimal(n as int),
{
    if n < 0 {
        push_char(s, '-');
        push_nat_digits(s, (-n) as u128);
        proof {
            assert(old(s)@ + int_decimal(n as int) =~= old(s)@.push('-') + nat_digits((-n) as nat));
        }
    } else {
        push_nat_digits(s, n as u128);
    }
}

/// The name of a square, such as "e4": its file letter and rank digit.
pub open spec fn square_name(sq: u8) -> Seq<char> {
    seq![(97 + sq % 8) as char, (49 + sq / 8) as char]
}

fn push_square_name(s: &mut String, sq: u8)
    requires
        sq < 64,
    ensures
        final(s)@ == old(s)@ + square_name(sq),
{
    assert(sq & 7u8 == sq % 8 && sq >> 3u8 == sq / 8) by (bit_vector);
    push_char(s, (97u8 + (sq & 7u8)) as char);
    push_char(s, (49u8 + (sq >> 3u8)) as char);
    proof {
        assert(old(s)@ + square_name(sq) =~= old(s)@.push((97 + sq % 8) as char).push(
            (49 + sq / 8) as char,
        ));
    }
}

/// Half of `n`, rounded toward zero, as Rust's integer division does.
pub open spec fn half_toward_zero(n: int) -> int {
    if n >= 0 {
        n / 2
    } else {
        -((-n) / 2)
    }
}

/// What starts a move's text: the move number and a full stop for White,
/// a space for Black.
pub open spec fn move_number_text(color: Color, move_number: i32) -> Seq<char> {
    match color {
        Color::White => int_decimal(half_toward_zero(move_number as int) + 1) + seq!['.', ' '],
        Color::Black => seq![' '],
    }
}

/// The text of a castling move: a king moving from e1 to g1 or e8 to g8
/// castles short, from e1 to c1 or e8 to c8 castles long.
pub open spec fn castle_text(m: Move, moved: Option<Piece>) -> Option<Seq<char>> {
    if moved == Some(Piece::King) && ((m.source == 4 && m.dest == 6) || (m.source == 60 && m.dest
        == 62)) {
        Some(seq!['O', '-', 'O', ' '])
    } else if moved == Some(Piece::King) && ((m.source == 4 && m.dest == 2) || (m.source == 60
        && m.dest == 58)) {
        Some(seq!['O', '-', 'O', '-', 'O', ' '])
    } else {
        None
    }
}

/// The letter of the moving piece: none for a pawn or an empty square.
pub open spec fn piece_text(moved: Option<Piece>) -> Seq<char> {
    match moved {
        Some(Piece::Pawn) => Seq::empty(),
        Some(p) => seq![piece_letter_upper(p)],
        None => Seq::empty(),
    }
}

/// The promotion suffix: `=` and the promotion piece's lower-case letter.
pub open spec fn promotion_text(promotion: Option<Piece>) -> Seq<char> {
    match promotion {
        Some(p) => seq!['=', piece_letter(p)],
        None => Seq::empty(),
    }
}

/// The text of a move other than castling: piece letter, source square, an
/// `x` for a capture, destination square, promotion, a `+` when it gives
/// check, and a space.
pub open spec fn move_text(m: Move, moved: Option<Piece>, captured: Option<Piece>, gives_check: bool) -> Seq<char> {
    piece_text(moved) + square_name(m.source) + (if captured is Some {
        seq!['x']
    } else {
        Seq::empty()
    }) + square_name(m.dest) + promotion_text(m.promotion) + (if gives_check {
        seq!['+']
    } else {
        Seq::empty()
    }) + seq![' ']
}

/// The text added to a game for the move `m` played by `color` at ply
/// `move_number`, given the piece that moves, the piece it takes, and
/// whether it gives check.
pub open spec fn spec_pgn_fragment(
    color: Color,
    move_number: i32,
    m: Move,
    moved: Option<Piece>,
    captured: Option<Piece>,
    gives_check: bool,
) -> Seq<char> {
    move_number_text(color, move_number) + match castle_text(m, moved) {
        Some(t) => t,
        None => move_text(m, moved, captured, gives_check),
    }
}

/// How a king's castling move is written: a king moving from e1 to g1 or
/// from e8 to g8 writes "O-O ", and from e1 to c1 or e8 to c8 "O-O-O ",
/// after the move number; the destination's file decides the word, the
/// side plays no part.  Any other king move, or a move of another piece,
/// is written square by square.
pub proof fn lemma_castle_words(
    color: Color,
    move_number: i32,
    m: Move,
    moved: Option<Piece>,
    captured: Option<Piece>,
    gives_check: bool,
)
    ensures
        moved == Some(Piece::King) && ((m.source == 4 && m.dest == 6) || (m.source == 60 && m.dest == 62))
            ==> spec_pgn_fragment(color, move_number, m, moved, captured, gives_check) == move_number_text(
            color,
            move_number,
        ) + seq!['O', '-', 'O', ' '],
        moved == Some(Piece::King) && ((m.source == 4 && m.dest == 2) || (m.source == 60 && m.dest == 58))
            ==> spec_pgn_fragment(color, move_number, m, moved, captured, gives_check) == move_number_text(
            color,
            move_number,
        ) + seq!['O', '-', 'O', '-', 'O', ' '],
        !(moved == Some(Piece::King) && (m.source == 4 || m.source == 60) && (m.dest == m.source + 2
            || m.dest + 2 == m.source)) ==> spec_pgn_fragment(
            color,
            move_number,
            m,
            moved,
            captured,
            gives_check,
        ) == move_number_text(color, move_number) + move_text(m, moved, captured, gives_check),
{
}

fn push_piece_text(s: &mut String, moved: Option<Piece>)
    ensures
        final(s)@ == old(s)@ + piece_text(moved),
{
    match moved {
        Some(Piece::Pawn) => {},
        Some(p) => push_char(s, p.letter_upper()),
        None => {},
    }
    assert(s@ =~= old(s)@ + piece_text(moved));
}

fn push_capture_text(s: &mut String, captured: Option<Piece>)
    ensures
        final(s)@ == old(s)@ + (if captured is Some {
            seq!['x']
        } else {
            Seq::<char>::empty()
        }),
{
    if captured.is_some() {
        push_char(s, 'x');
    }
    assert(s@ =~= old(s)@ + (if captured is Some {
        seq!['x']
    } else {
        Seq::<char>::empty()
    }));
}

fn push_promotion_text(s: &mut String, promotion: Option<Piece>)
    ensures
        final(s)@ == old(s)@ + promotion_text(promotion),
{
    match promotion {
        Some(p) => {
            push_char(s, '=');
            push_char(s, p.letter());
        },
        None => {},
    }
    assert(s@ =~= old(s)@ + promotion_text(promotion));
}

fn push_check_text(s: &mut String, gives_check: bool)
    ensures
        final(s)@ == old(s)@ + (if gives_check {
            seq!['+']
        } else {
            Seq::<char>::empty()
        }) + seq![' '],
{
    if gives_check {
        push_char(s, '+');
    }
    push_char(s, ' ');
    assert(s@ =~= old(s)@ + (if gives_check {
        seq!['+']
    } else {
        Seq::<char>::empty()
    }) + seq![' ']);
}

fn push_move_text(
    s: &mut String,
    m: Move,
    moved: Option<Piece>,
    captured: Option<Piece>,
    gives_check: bool,
)
    requires
        move_on_board(m),
    ensures
        final(s)@ == old(s)@ + move_text(m, moved, captured, gives_check),
{
    push_piece_text(s, moved);
    push_square_name(s, m.source);
    push_capture_text(s, captured);
    push_square_name(s, m.dest);
    push_promotion_text(s, m.promotion);
    push_check_text(s, gives_check);
    assert(s@ =~= old(s)@ + move_text(m, moved, captured, gives_check));
}

fn push_move_number(s: &mut String, color: Color, move_number: i32)
    ensures
        final(s)@ == old(s)@ + move_number_text(color, move_number),
{
    match color {
        Color::White => {
            let move_num = (move_number / 2) + 1;
            push_decimal(s, move_num as i64);
            let ghost s1 = s@;
            push_char(s, '.');
            push_char(s, ' ');
            proof {
                assert(s@ =~= s1 + seq!['.', ' ']);
            }
        },
        Color::Black => {
            push_char(s, ' ');
            proof {
                assert(s@ =~= old(s)@ + seq![' ']);
            }
        },
    }
}

/// Appends the text of a move (see `pgn_fragment`).
fn push_fragment(
    s: &mut String,
    color: Color,
    move_number: i32,
    m: Move,
    moved: Option<Piece>,
    captured: Option<Piece>,
    gives_check: bool,
)
    requires
        move_on_board(m),
    ensures
        final(s)@ == old(s)@ + spec_pgn_fragment(color, move_number, m, moved, captured, gives_check),
{
    push_move_number(s, color, move_number);
    let ghost s1 = s@;
    let is_king = match moved {
        Some(Piece::King) => true,
        _ => false,
    };
    if is_king && ((m.source == 4 && m.dest == 6) || (m.source == 60 && m.dest == 62)) {
        push_char(s, 'O');
        push_char(s, '-');
        push_char(s, 'O');
        push_char(s, ' ');
    } else if is_king && ((m.source == 4 && m.dest == 2) || (m.source == 60 && m.dest == 58)) {
        push_char(s, 'O');
        push_char(s, '-');
        push_char(s, 'O');
        push_char(s, '-');
        push_char(s, 'O');
        push_char(s, ' ');
    } else {
        push_move_text(s, m, moved, captured, gives_check);
    }
    proof {
        assert(s@ =~= old(s)@ + spec_pgn_fragment(color, move_number, m, moved, captured, gives_check));
    }
}

/// The text added to a game for the move `m` played by `color` at ply
/// `move_number` (counted from 0; White's moves are numbered
/// `move_number / 2 + 1`), given the piece that moves, the piece on the
/// destination, and whether the move gives check.
pub fn pgn_fragment(
    color: Color,
    move_number: i32,
    m: Move,
    moved: Option<Piece>,
    captured: Option<Piece>,
    gives_check: bool,
) -> (r: String)
    requires
        move_on_board(m),
    ensures
        r@ == spec_pgn_fragment(color, move_number, m, moved, captured, gives_check),
{
    let mut s = String::new();
    push_fragment(&mut s, color, move_number, m, moved, captured, gives_check);
    s
}

/// The text of the move `m` on `board`, as this position tells it.
pub open spec fn board_fragment(board: chess::Board, color: Color, move_number: i32, m: Move) -> Seq<char> {
    spec_pgn_fragment(
        color,
        move_number,
        m,
        piece_at(board, m.source),
        piece_at(board, m.dest),
        checkers_of(board_after(board, m)) != 0,
    )
}

/// The move can be written: it is on the board, and it is legal or has the
/// shape of a castling king move.
pub open spec fn writable_move(board: chess::Board, m: Move) -> bool {
    move_on_board(m) && (is_legal(board, m) || castle_text(m, piece_at(board, m.source)) is Some)
}

/// The game text `current_pgn` followed by the text of `chess_move`, played
/// on `board` by `color` at ply `move_number`; the empty text when there is
/// no move.
pub fn generate_pgn(
    board: &chess::Board,
    chess_move: &Option<Move>,
    color: Color,
    current_pgn: &String,
    move_number: i32,
) -> (r: String)
    requires
        chess_move matches Some(m) ==> writable_move(*board, *m),
    ensures
        match chess_move {
            Some(m) => r@ == current_pgn@ + board_fragment(*board, color, move_number, *m),
            None => r@ == Seq::<char>::empty(),
        },
{
    match chess_move {
        Some(m) => {
            let m = *m;
            let moved = piece_on(board, m.source);
            let mut pgn = current_pgn.clone();
            if castle_shape(m, moved) {
                push_fragment(&mut pgn, color, move_number, m, moved, None, false);
            } else {
                let captured = piece_on(board, m.dest);
                let new_board = make_move(board, m);
                let gives_check = checkers(&new_board) != 0;
                push_fragment(&mut pgn, color, move_number, m, moved, captured, gives_check);
            }
            pgn
        },
        None => String::new(),
    }
}

/// The move is written as castling.
fn castle_shape(m: Move, moved: Option<Piece>) -> (r: bool)
    ensures
        r == castle_text(m, moved) is Some,
{
    let is_king = match moved {
        Some(Piece::King) => true,
        _ => false,
    };
    is_king && ((m.source == 4 && m.dest == 6) || (m.source == 60 && m.dest == 62) || (m.source == 4
        && m.dest == 2) || (m.source == 60 && m.dest == 58))
}

/// `generate_pgn` for any move: `None` when a move is given that cannot be
/// written on `board` (off the board, or neither legal nor a castling king
/// move).
pub fn try_generate_pgn(
    board: &chess::Board,
    chess_move: &Option<Move>,
    color: Color,
    current_pgn: &String,
    move_number: i32,
) -> (r: Option<String>)
    ensures
        r is None <==> (chess_move matches Some(m) && !writable_move(*board, *m)),
        r matches Some(t) ==> match chess_move {
            Some(m) => t@ == current_pgn@ + board_fragment(*board, color, move_number, *m),
            None => t@ == Seq::<char>::empty(),
        },
{
    if let Some(m) = chess_move {
        if !(m.source < 64 && m.dest < 64) {
            return None;
        }
        let moved = piece_on(board, m.source);
        if !legal(board, *m) && !castle_shape(*m, moved) {
            return None;
        }
    }
    Some(generate_pgn(board, chess_move, color, current_pgn, move_number))
}

/// No character of the text is white space.
pub open spec fn no_white_space(t: Seq<char>) -> bool {
    forall|i: int| 0 <= i < t.len() ==> !unicode_white_space(#[trigger] t[i])
}

/// Reading text that follows white space (or nothing) starts afresh.
proof fn lemma_words_so_far_concat(a: Seq<char>, b: Seq<char>)
    requires
        a.len() == 0 || unicode_white_space(a.last()),
    ensures
        words_so_far(a + b) == (words_so_far(a).0 + words_so_far(b).0, words_so_far(b).1),
        words_so_far(a).1.len() == 0,
    decreases b.len(),
{
    if a.len() > 0 {
        assert(words_so_far(a).1.len() == 0);
    }
    if b.len() == 0 {
        assert(a + b =~= a);
        assert(words_so_far(a).0 + Seq::<Seq<char>>::empty() =~= words_so_far(a).0);
    } else {
        assert((a + b).drop_last() =~= a + b.drop_last());
        assert((a + b).last() == b.last());
        lemma_words_so_far_concat(a, b.drop_last());
        let w0 = words_so_far(a).0;
        let wb = words_so_far(b.drop_last());
        if unicode_white_space(b.last()) && wb.1.len() > 0 {
            assert((w0 + wb.0).push(wb.1) =~= w0 + wb.0.push(wb.1));
        }
    }
}

/// The words of text that follows white space (or nothing) are the words
/// before it followed by its own.
proof fn lemma_words_concat(a: Seq<char>, b: Seq<char>)
    requires
        a.len() == 0 || unicode_white_space(a.last()),
    ensures
        words(a + b) == words(a) + words(b),
{
    lemma_words_so_far_concat(a, b);
    let wa = words_so_far(a);
    let wb = words_so_far(b);
    if wb.1.len() > 0 {
        assert((wa.0 + wb.0).push(wb.1) =~= wa.0 + wb.0.push(wb.1));
    }
}

/// Reading a text without white space leaves it all as the word being read.
proof fn lemma_words_so_far_plain(w: Seq<char>)
    requires
        no_white_space(w),
    ensures
        words_so_far(w) == (Seq::<Seq<char>>::empty(), w),
    decreases w.len(),
{
    if w.len() > 0 {
        assert(w.drop_last().push(w.last()) =~= w);
        lemma_words_so_far_plain(w.drop_last());
        assert(!unicode_white_space(w[w.len() - 1]));
    } else {
        assert(w =~= Seq::<char>::empty());
    }
}

/// A word followed by a space is that one word.
proof fn lemma_words_single(w: Seq<char>)
    requires
        w.len() > 0,
        no_white_space(w),
    ensures
        words(w.push(' ')) == seq![w],
{
    lemma_words_so_far_plain(w);
    assert(w.push(' ').drop_last() =~= w);
    assert(unicode_white_space(' '));
    assert(Seq::<Seq<char>>::empty().push(w) =~= seq![w]);
}

/// Decimal digits are no white space.
proof fn lemma_digits_plain(n: nat)
    ensures
        nat_digits(n).len() > 0,
        no_white_space(nat_digits(n)),
    decreases n,
{
    if n >= 10 {
        lemma_digits_plain(n / 10);
        let d = nat_digits(n / 10);
        assert forall|i: int| 0 <= i < d.push(digit_char(n % 10)).len() implies !unicode_white_space(
            #[trigger] d.push(digit_char(n % 10))[i],
        ) by {
            if i < d.len() {
                assert(d.push(digit_char(n % 10))[i] == d[i]);
            }
        }
    }
}

/// The word `generate_pgn` writes for the move `m` on `board`: its text
/// without the closing space.
pub open spec fn written_word(board: chess::Board, m: Move) -> Seq<char> {
    let moved = piece_at(board, m.source);
    match castle_text(m, moved) {
        Some(t) => t.drop_last(),
        None => move_text(
            m,
            moved,
            piece_at(board, m.dest),
            checkers_of(board_after(board, m)) != 0,
        ).drop_last(),
    }
}

/// The text of a move is a word without white space followed by a space.
proof fn lemma_written_word(board: chess::Board, m: Move)
    requires
        move_on_board(m),
    ensures
        written_word(board, m).len() > 0,
        no_white_space(written_word(board, m)),
        (match castle_text(m, piece_at(board, m.source)) {
            Some(t) => t,
            None => move_text(
                m,
                piece_at(board, m.source),
                piece_at(board, m.dest),
                checkers_of(board_after(board, m)) != 0,
            ),
        }) == written_word(board, m).push(' '),
{
    let moved = piece_at(board, m.source);
    match castle_text(m, moved) {
        Some(t) => {
            assert(t.drop_last().push(' ') =~= t);
        },
        None => {
            let c = piece_at(board, m.dest);
            let g = checkers_of(board_after(board, m)) != 0;
            let t = move_text(m, moved, c, g);
            assert(t.drop_last().push(' ') =~= t);
            let w = t.drop_last();
            let f1 = (97 + m.source % 8) as char;
            let r1 = (49 + m.source / 8) as char;
            let f2 = (97 + m.dest % 8) as char;
            let r2 = (49 + m.dest / 8) as char;
            assert(!unicode_white_space(f1) && !unicode_white_space(r1));
            assert(!unicode_white_space(f2) && !unicode_white_space(r2));
            assert forall|i: int| 0 <= i < w.len() implies !unicode_white_space(#[trigger] w[i]) by {}
        },
    }
}

/// The words `generate_pgn` adds for the move `m` at ply `ply`: the move
/// number before a White move, then the move's word.
pub open spec fn fragment_words(board: chess::Board, ply: int, m: Move) -> Seq<Seq<char>> {
    if ply % 2 == 0 {
        seq![nat_digits((ply / 2 + 1) as nat).push('.'), written_word(board, m)]
    } else {
        seq![written_word(board, m)]
    }
}

/// The side that plays ply `ply` of a game started by White.
pub open spec fn ply_color(ply: int) -> Color {
    if ply % 2 == 0 {
        Color::White
    } else {
        Color::Black
    }
}

/// A move's text splits into its move number (for White) and its word, and
/// ends with a space.
proof fn lemma_fragment_words(board: chess::Board, ply: int, m: Move)
    requires
        move_on_board(m),
        0 <= ply <= i32::MAX,
    ensures
        words(board_fragment(board, ply_color(ply), ply as i32, m)) == fragment_words(board, ply, m),
        board_fragment(board, ply_color(ply), ply as i32, m).len() > 0,
        unicode_white_space(board_fragment(board, ply_color(ply), ply as i32, m).last()),
{
    lemma_written_word(board, m);
    let w = written_word(board, m);
    lemma_words_single(w);
    let f = board_fragment(board, ply_color(ply), ply as i32, m);
    assert(unicode_white_space(' '));
    if ply % 2 == 0 {
        let k = (ply / 2 + 1) as nat;
        assert(half_toward_zero(ply) + 1 == k);
        lemma_digits_plain(k);
        let num = nat_digits(k).push('.');
        assert(no_white_space(num)) by {
            assert forall|i: int| 0 <= i < num.len() implies !unicode_white_space(#[trigger] num[i]) by {
                if i < nat_digits(k).len() {
                    assert(num[i] == nat_digits(k)[i]);
                }
            }
        }
        lemma_words_single(num);
        assert(f =~= num.push(' ') + w.push(' '));
        lemma_words_concat(num.push(' '), w.push(' '));
        assert(seq![num] + seq![w] =~= fragment_words(board, ply, m));
    } else {
        assert(f =~= seq![' '] + w.push(' '));
        lemma_words_concat(seq![' '], w.push(' '));
        assert(seq![' '].drop_last() =~= Seq::<char>::empty());
        assert(seq![' '].last() == ' ');
        assert(words_so_far(Seq::<char>::empty()) == (Seq::<Seq<char>>::empty(), Seq::<char>::empty()));
        assert(words_so_far(seq![' ']) == (Seq::<Seq<char>>::empty(), Seq::<char>::empty()));
        assert(words(seq![' ']) =~= Seq::<Seq<char>>::empty());
        assert(Seq::<Seq<char>>::empty() + seq![w] =~= seq![w]);
    }
    assert(f.last() == ' ');
}

/// Replaying a game in two parts: the first, then the second from where
/// the first left off.
proof fn lemma_replay_concat(board: chess::Board, a: Seq<Seq<char>>, b: Seq<Seq<char>>, index: nat)
    ensures
        replay(board, a + b, index) == match replay(board, a, index) {
            Some(b2) => replay(b2, b, index + a.len()),
            None => None,
        },
    decreases a.len(),
{
    if a.len() == 0 {
        assert(a + b =~= b);
    } else {
        assert((a + b).drop_first() =~= a.drop_first() + b);
        assert((a + b)[0] == a[0]);
        if index % 3 == 0 {
            lemma_replay_concat(board, a.drop_first(), b, index + 1);
        } else {
            match san_move(board, a[0]) {
                None => {},
                Some(m) => {
                    lemma_replay_concat(board_after(board, m), a.drop_first(), b, index + 1);
                },
            }
        }
    }
}

/// A game written by `generate_pgn`, one call per move: `texts[0]` is empty
/// and `texts[i + 1]` is `texts[i]` followed by the text of move `i` on
/// `boards[i]`, played by White at even plies and by Black at odd ones;
/// `boards[i + 1]` is the position after it; and reading the move's word
/// back gives the move, as `move_from_san` states for a legal move that is
/// not a promotion.
pub open spec fn written_game(boards: Seq<chess::Board>, moves: Seq<Move>, texts: Seq<Seq<char>>) -> bool {
    &&& boards.len() == moves.len() + 1
    &&& texts.len() == moves.len() + 1
    &&& moves.len() <= i32::MAX
    &&& texts[0] == Seq::<char>::empty()
    &&& forall|i: int|
        0 <= i < moves.len() ==> {
            &&& move_on_board(#[trigger] moves[i])
            &&& boards[i + 1] == board_after(boards[i], moves[i])
            &&& texts[i + 1] == texts[i] + board_fragment(boards[i], ply_color(i), i as i32, moves[i])
            &&& san_move(boards[i], written_word(boards[i], moves[i])) == Some(moves[i])
        }
}

proof fn lemma_round_trip_prefix(
    boards: Seq<chess::Board>,
    moves: Seq<Move>,
    texts: Seq<Seq<char>>,
    k: int,
)
    requires
        written_game(boards, moves, texts),
        0 <= k <= moves.len(),
    ensures
        words(texts[k]).len() == k + (k + 1) / 2,
        k > 0 ==> texts[k].len() > 0 && unicode_white_space(texts[k].last()),
        replay(boards[0], words(texts[k]), 0) == Some(boards[k]),
    decreases k,
{
    if k == 0 {
        assert(words_so_far(Seq::<char>::empty()) == (Seq::<Seq<char>>::empty(), Seq::<char>::empty()));
        assert(words(texts[0]) =~= Seq::<Seq<char>>::empty());
    } else {
        let j = k - 1;
        lemma_round_trip_prefix(boards, moves, texts, j);
        let m = moves[j];
        assert(move_on_board(m));
        let f = board_fragment(boards[j], ply_color(j), j as i32, m);
        lemma_fragment_words(boards[j], j, m);
        assert(texts[k] == texts[j] + f);
        lemma_words_concat(texts[j], f);
        let wj = words(texts[j]);
        let fw = fragment_words(boards[j], j, m);
        lemma_replay_concat(boards[0], wj, fw, 0);
        let b = boards[j];
        let w = written_word(b, m);
        assert(san_move(b, w) == Some(m));
        if j % 2 == 0 {
            assert(wj.len() % 3 == 0);
            assert(fw.drop_first() =~= seq![w]);
            assert(seq![w].drop_first() =~= Seq::<Seq<char>>::empty());
            assert(replay(b, fw, wj.len() as nat) == replay(b, seq![w], (wj.len() + 1) as nat));
            assert(replay(board_after(b, m), Seq::<Seq<char>>::empty(), (wj.len() + 2) as nat) == Some(
                board_after(b, m),
            ));
            assert(seq![w][0] == w);
            assert(((wj.len() + 1) as nat) % 3 != 0);
            assert(replay(b, seq![w], (wj.len() + 1) as nat) == Some(board_after(b, m)));
        } else {
            assert(wj.len() % 3 == 2);
            assert(fw.drop_first() =~= Seq::<Seq<char>>::empty());
            assert(replay(board_after(b, m), Seq::<Seq<char>>::empty(), (wj.len() + 1) as nat) == Some(
                board_after(b, m),
            ));
            assert(fw[0] == w);
            assert((wj.len() as nat) % 3 != 0);
            assert(replay(b, fw, wj.len() as nat) == Some(board_after(b, m)));
        }
        assert((texts[j] + f).last() == f.last());
    }
}

/// Reading back a game written by `generate_pgn` (no promotions among its
/// moves, since the promotion suffix it writes is not read back) replays
/// it to the position it reached: the words of the text, passed to the
/// replay that `create_board_from_pgn` does, give the last position.
pub proof fn lemma_pgn_round_trip(boards: Seq<chess::Board>, moves: Seq<Move>, texts: Seq<Seq<char>>)
    requires
        written_game(boards, moves, texts),
    ensures
        replay(boards[0], words(texts[moves.len() as int]), 0) == Some(boards[moves.len() as int]),
{
    lemma_round_trip_prefix(boards, moves, texts, moves.len() as int);
}

/// The number a text of decimal digits stands for.
pub open spec fn decimal_value(t: Seq<char>) -> int
    decreases t.len(),
{
    if t.len() == 0 {
        0
    } else {
        10 * decimal_value(t.drop_last()) + (t.last() as int - 48)
    }
}

/// Decimal digits read back: the digits written for `n` are characters '0'
/// to '9', the first is not '0' unless `n` is zero, and they stand for `n`.
pub proof fn lemma_decimal_digits(n: nat)
    ensures
        forall|i: int| 0 <= i < nat_digits(n).len() ==> '0' <= #[trigger] nat_digits(n)[i] <= '9',
        nat_digits(n).len() >= 1,
        n > 0 ==> nat_digits(n)[0] != '0',
        decimal_value(nat_digits(n)) == n,
    decreases n,
{
    if n >= 10 {
        lemma_decimal_digits(n / 10);
        let d = nat_digits(n / 10);
        let t = d.push(digit_char(n % 10));
        assert(t.drop_last() =~= d);
        assert forall|i: int| 0 <= i < t.len() implies '0' <= #[trigger] t[i] <= '9' by {
            if i < d.len() {
                assert(t[i] == d[i]);
            }
        }
        assert(t[0] == d[0]);
        assert(digit_char(n % 10) as int == 48 + n % 10);
        assert(decimal_value(t) == 10 * decimal_value(d) + (n % 10));
    } else {
        assert(nat_digits(n).drop_last() =~= Seq::<char>::empty());
        assert(decimal_value(Seq::<char>::empty()) == 0);
        assert(digit_char(n) as int == 48 + n);
        assert(decimal_value(nat_digits(n)) == 10 * decimal_value(nat_digits(n).drop_last()) + (
        nat_digits(n).last() as int - 48));
    }
}

/// A square's name is its file letter 'a' to 'h' and its rank digit '1' to
/// '8', and different squares have different names.
pub proof fn lemma_square_names(sq: u8, other: u8)
    requires
        sq < 64,
        other < 64,
    ensures
        square_name(sq).len() == 2,
        'a' <= square_name(sq)[0] <= 'h',
        '1' <= square_name(sq)[1] <= '8',
        square_name(sq)[0] as int - 97 == sq % 8,
        square_name(sq)[1] as int - 49 == sq / 8,
        sq != other ==> square_name(sq) != square_name(other),
{
    if sq != other && square_name(sq) == square_name(other) {
        assert(square_name(sq)[0] == square_name(other)[0]);
        assert(square_name(sq)[1] == square_name(other)[1]);
        assert(sq == (sq / 8) * 8 + sq % 8);
        assert(other == (other / 8) * 8 + other % 8);
    }
}

/// The text of an ordinary move says a capture and a check: it holds an
/// `x` exactly when a piece is taken and a `+` exactly when the move gives
/// check, and it ends with a space.
pub proof fn lemma_move_text_marks(m: Move, moved: Option<Piece>, captured: Option<Piece>, gives_check: bool)
    requires
        move_on_board(m),
    ensures
        move_text(m, moved, captured, gives_check).last() == ' ',
        move_text(m, moved, captured, gives_check).contains('x') <==> captured is Some,
        move_text(m, moved, captured, gives_check).contains('+') <==> gives_check,
{
    let t = move_text(m, moved, captured, gives_check);
    let a = piece_text(moved) + square_name(m.source);
    let cx = if captured is Some { seq!['x'] } else { Seq::<char>::empty() };
    let b = square_name(m.dest) + promotion_text(m.promotion);
    let ck = if gives_check { seq!['+'] } else { Seq::<char>::empty() };
    assert(t =~= a + cx + b + ck + seq![' ']);
    assert forall|i: int| 0 <= i < a.len() implies #[trigger] a[i] != 'x' && a[i] != '+' by {}
    assert forall|i: int| 0 <= i < b.len() implies #[trigger] b[i] != 'x' && b[i] != '+' by {}
    if captured is Some {
        assert(t[a.len() as int] == 'x');
    }
    if gives_check {
        assert(t[(a.len() + cx.len() + b.len()) as int] == '+');
    }
    if t.contains('x') {
        let i = choose|i: int| 0 <= i < t.len() && t[i] == 'x';
        if i < a.len() {
            assert(t[i] == a[i]);
        } else if i >= a.len() + cx.len() && i < a.len() + cx.len() + b.len() {
            assert(t[i] == b[i - a.len() - cx.len()]);
        }
    }
    if t.contains('+') {
        let i = choose|i: int| 0 <= i < t.len() && t[i] == '+';
        if i < a.len() {
            assert(t[i] == a[i]);
        } else if i >= a.len() && i < a.len() + cx.len() {
            assert(t[i] == cx[i - a.len()]);
        } else if i >= a.len() + cx.len() && i < a.len() + cx.len() + b.len() {
            assert(t[i] == b[i - a.len() - cx.len()]);
        }
    }
}

/// Every word of a text is non-empty and holds no white space.
pub proof fn lemma_words_are_words(t: Seq<char>)
    ensures
        forall|i: int| 0 <= i < words(t).len() ==> (#[trigger] words(t)[i]).len() > 0 && no_white_space(
            words(t)[i],
        ),
{
    lemma_words_so_far_are_words(t);
}

proof fn lemma_words_so_far_are_words(t: Seq<char>)
    ensures
        forall|i: int|
            0 <= i < words_so_far(t).0.len() ==> (#[trigger] words_so_far(t).0[i]).len() > 0
                && no_white_space(words_so_far(t).0[i]),
        no_white_space(words_so_far(t).1),
        forall|i: int|
            0 <= i < words(t).len() ==> (#[trigger] words(t)[i]).len() > 0 && no_white_space(words(t)[i]),
    decreases t.len(),
{
    if t.len() > 0 {
        lemma_words_so_far_are_words(t.drop_last());
        let acc = words_so_far(t.drop_last());
        let c = t.last();
        if !unicode_white_space(c) {
            assert forall|i: int| 0 <= i < acc.1.push(c).len() implies !unicode_white_space(
                #[trigger] acc.1.push(c)[i],
            ) by {
                if i < acc.1.len() {
                    assert(acc.1.push(c)[i] == acc.1[i]);
                }
            }
        }
    }
}

/// Move numbers round toward zero: half of a ply count is the number of
/// whole pairs in it, taken with its sign.
pub proof fn lemma_half_toward_zero(n: int)
    ensures
        n >= 0 ==> 0 <= n - 2 * half_toward_zero(n) <= 1,
        n < 0 ==> -1 <= n - 2 * half_toward_zero(n) <= 0,
{
}

/// A written integer is its digits, after a minus sign exactly when it is
/// negative.
pub proof fn lemma_int_decimal(n: int)
    ensures
        (n < 0) <==> (int_decimal(n).len() > 0 && int_decimal(n)[0] == '-'),
        n < 0 ==> decimal_value(int_decimal(n).drop_first()) == -n,
        n >= 0 ==> decimal_value(int_decimal(n)) == n,
{
    if n < 0 {
        lemma_decimal_digits((-n) as nat);
        assert(int_decimal(n).drop_first() =~= nat_digits((-n) as nat));
    } else {
        lemma_decimal_digits(n as nat);
        assert('0' <= nat_digits(n as nat)[0] <= '9');
    }
}

/// What the text of a move on a board says of it: for a move that is not
/// written as castling, an `x` exactly when the destination holds a piece,
/// and a `+` exactly when the position after the move has a checking piece.
pub proof fn lemma_board_fragment_marks(board: chess::Board, color: Color, move_number: i32, m: Move)
    requires
        move_on_board(m),
        castle_text(m, piece_at(board, m.source)) is None,
    ensures
        board_fragment(board, color, move_number, m) == move_number_text(color, move_number) + move_text(
            m,
            piece_at(board, m.source),
            piece_at(board, m.dest),
            checkers_of(board_after(board, m)) != 0,
        ),
        move_text(
            m,
            piece_at(board, m.source),
            piece_at(board, m.dest),
            checkers_of(board_after(board, m)) != 0,
        ).contains('x') <==> piece_at(board, m.dest) is Some,
        move_text(
            m,
            piece_at(board, m.source),
            piece_at(board, m.dest),
            checkers_of(board_after(board, m)) != 0,
        ).contains('+') <==> checkers_of(board_after(board, m)) != 0,
{
    lemma_move_text_marks(
        m,
        piece_at(board, m.source),
        piece_at(board, m.dest),
        checkers_of(board_after(board, m)) != 0,
    );
}

/// Space, tab, line feed, carriage return, vertical tab and form feed are
/// white space; letters, digits and the signs a game's text uses are not.
pub proof fn lemma_white_space_chars(c: char)
    ensures
        c == ' ' || c == '\t' || c == '\n' || c == '\r' || c == '\u{0b}' || c == '\u{0c}'
            ==> unicode_white_space(c),
        ('a' <= c <= 'z') || ('A' <= c <= 'Z') || ('0' <= c <= '9') || c == '.' || c == '-' || c == '+'
            || c == '=' || c == '#' ==> !unicode_white_space(c),
{
}

} // verus!
