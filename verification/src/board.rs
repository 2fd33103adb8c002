//! The position type of the `chess` crate and the few questions the engine
//! asks of it.  The crate does the chess: move generation, making moves,
//! parsing SAN.  Each call is made by one small trusted function below; what
//! it returns is either stated or named, so the verified code above can speak
//! of it.
use vstd::prelude::*;
use crate::types::{Color, Move, Piece, move_on_board};

verus! {

/// A chess position of the `chess` crate: piece placement, side to move,
/// castling rights, en passant square and the position's hash.
#[verifier::external_type_specification]
#[verifier::external_body]
pub struct ExBoard(chess::Board);

/// The legal moves of `board`, in the order `chess::MoveGen::new_legal`
/// produces them.
pub uninterp spec fn generated_moves(board: chess::Board) -> Seq<Move>;

/// What `chess::Board::piece_on` reports for the square with index `square`.
pub uninterp spec fn piece_at(board: chess::Board, square: u8) -> Option<Piece>;

/// The position `chess::Board::make_move_new` produces from `board` by playing `m`.
pub uninterp spec fn board_after(board: chess::Board, m: Move) -> chess::Board;

/// The bitboard `chess::Board::checkers` reports: the pieces that give check.
pub uninterp spec fn checkers_of(board: chess::Board) -> u64;

/// The side `chess::Board::side_to_move` reports.
pub uninterp spec fn side_to_move_of(board: chess::Board) -> Color;

/// The bitboard `chess::Board::color_combined` reports for `color`.
pub uninterp spec fn pieces_of(board: chess::Board, color: Color) -> u64;

/// The square `chess::Board::en_passant` reports: that of the pawn which has just
/// moved two squares and may be taken en passant.
pub uninterp spec fn en_passant_of(board: chess::Board) -> Option<u8>;

/// What `ChessMove::from_san` finds for the SAN text `text` on `board`,
/// `None` where it reports an error.
pub uninterp spec fn san_move(board: chess::Board, text: Seq<char>) -> Option<Move>;

/// A move the generator can produce: both squares on the board, and a
/// promotion (if any) to queen, knight, rook or bishop.
pub open spec fn generator_move(m: Move) -> bool {
    &&& move_on_board(m)
    &&& (m.promotion matches Some(p) ==> p == Piece::Queen || p == Piece::Knight || p
        == Piece::Rook || p == Piece::Bishop)
}

/// A promotion to one of the four pieces a pawn can promote to.
pub open spec fn promotes_to(p: Piece) -> bool {
    p == Piece::Queen || p == Piece::Knight || p == Piece::Rook || p == Piece::Bishop
}

/// A list of moves with the shape the generator gives it: every move can be
/// generated, the moves from one square are all promotions or none, and a
/// promotion comes with the other three promotions of the same two squares.
pub open spec fn generator_list(ms: Seq<Move>) -> bool {
    &&& forall|i: int| 0 <= i < ms.len() ==> generator_move(#[trigger] ms[i])
    &&& forall|i: int, j: int|
        0 <= i < ms.len() && 0 <= j < ms.len() && #[trigger] ms[i].source == #[trigger] ms[j].source
            ==> (ms[i].promotion is Some <==> ms[j].promotion is Some)
    &&& forall|i: int, p: Piece|
        #![trigger ms[i], promotes_to(p)]
        0 <= i < ms.len() && ms[i].promotion is Some && promotes_to(p) ==> ms.contains(
            Move { source: ms[i].source, dest: ms[i].dest, promotion: Some(p) },
        )
}

/// `m` is one of the legal moves of `board`.
pub open spec fn is_legal(board: chess::Board, m: Move) -> bool {
    generated_moves(board).contains(m)
}

/// Calls `chess::MoveGen::new_legal(board)` and reads every move it
/// produces, as plain values.  Claimed: the list is `generated_moves(*board)`,
/// and it has the shape `generator_list` describes.  The generator keeps one
/// entry per piece (plus one for an en passant capture, never a promotion),
/// marked as promoting exactly for a pawn on its seventh rank; its `next`
/// yields a move per destination of an entry, and for a promoting entry the
/// four moves with the pieces of `PROMOTION_PIECES`, so every move has both
/// squares on the board and promotes (if at all) to queen, knight, rook or
/// bishop.
#[verifier::external_body]
pub(crate) fn legal_moves(board: &chess::Board) -> (r: Vec<Move>)
    ensures
        r@ == generated_moves(*board),
        generator_list(r@),
{
    let mut r = Vec::new();
    for m in chess::MoveGen::new_legal(board) {
        let promotion = m.get_promotion().map(|p| p.to_index());
        r.push(Move::from_parts(m.get_source().to_int(), m.get_dest().to_int(), promotion));
    }
    r
}

/// Calls `chess::Board::legal`.  Claimed: the result is `is_legal(*board, m)`,
/// since `legal` searches the moves of `MoveGen::new_legal(board)` for `m`.
#[verifier::external_body]
pub(crate) fn legal(board: &chess::Board, m: Move) -> (r: bool)
    requires
        move_on_board(m),
    ensures
        r == is_legal(*board, m),
{
    let promotion = m.promotion.map(|p| chess::ALL_PIECES[p.to_index()]);
    let sq = chess::ALL_SQUARES;
    board.legal(chess::ChessMove::new(sq[m.source as usize], sq[m.dest as usize], promotion))
}

/// Calls `chess::Board::piece_on` for the square with index `square`.  Claimed:
/// the result is `piece_at(*board, square)`.
#[verifier::external_body]
pub(crate) fn piece_on(board: &chess::Board, square: u8) -> (r: Option<Piece>)
    requires
        square < 64,
    ensures
        r == piece_at(*board, square),
{
    board.piece_on(chess::ALL_SQUARES[square as usize]).map(|p| Piece::from_index(p.to_index()))
}

/// Calls `chess::Board::make_move_new`.  The crate's documentation says it panics
/// when the move captures a king and it unwraps the piece on the source
/// square, so only legal moves are admitted.  Claimed: the result is
/// `board_after(*board, m)`.
#[verifier::external_body]
pub(crate) fn make_move(board: &chess::Board, m: Move) -> (r: chess::Board)
    requires
        is_legal(*board, m),
    ensures
        r == board_after(*board, m),
{
    let promotion = m.promotion.map(|p| chess::ALL_PIECES[p.to_index()]);
    let sq = chess::ALL_SQUARES;
    board.make_move_new(chess::ChessMove::new(sq[m.source as usize], sq[m.dest as usize], promotion))
}

/// Calls `chess::Board::checkers` and reads the bits of the bitboard.  Claimed: the
/// result is `checkers_of(*board)`.
#[verifier::external_body]
pub(crate) fn checkers(board: &chess::Board) -> (r: u64)
    ensures
        r == checkers_of(*board),
{
    board.checkers().0
}

/// Calls `chess::Board::side_to_move`.  Claimed: the result is
/// `side_to_move_of(*board)`.
#[verifier::external_body]
pub(crate) fn side_to_move(board: &chess::Board) -> (r: Color)
    ensures
        r == side_to_move_of(*board),
{
    match board.side_to_move() {
        chess::Color::White => Color::White,
        chess::Color::Black => Color::Black,
    }
}

/// Calls `chess::Board::color_combined` and reads the bits of the bitboard.
/// Claimed: the result is `pieces_of(*board, color)`.
#[verifier::external_body]
pub(crate) fn color_combined(board: &chess::Board, color: Color) -> (r: u64)
    ensures
        r == pieces_of(*board, color),
{
    board.color_combined(chess::ALL_COLORS[color.to_index()]).0
}

/// Calls `chess::Board::en_passant` and reads the square's index.  Claimed: the
/// result is `en_passant_of(*board)`, and a square's index is below 64.
#[verifier::external_body]
pub(crate) fn en_passant(board: &chess::Board) -> (r: Option<u8>)
    ensures
        r == en_passant_of(*board),
        r matches Some(sq) ==> sq < 64,
{
    board.en_passant().map(|sq| sq.to_int())
}

/// Calls `ChessMove::from_san`, with its error read as `None`.  Claimed: the
/// result is `san_move(*board, text@)`, and a move it finds is one of the
/// legal moves, since `from_san` only returns moves that
/// `MoveGen::new_legal(board)` produces.  Also claimed: the word that
/// `generate_pgn` writes for a legal move that is not a promotion reads back
/// as that move.  `from_san` reads "O-O" and "O-O-O" as the side to move's
/// castling, and otherwise an optional piece letter, a source file and rank,
/// an optional `x`, the destination and an optional `+`; it then keeps the
/// one legal move with that piece, source, destination and no promotion,
/// with `x` exactly when the destination is occupied (an en passant capture
/// is written without it and read as such).  A promotion is not covered:
/// `from_san` reads the piece letter without the `=` that `generate_pgn`
/// writes.
#[verifier::external_body]
pub(crate) fn move_from_san(board: &chess::Board, text: &str) -> (r: Option<Move>)
    ensures
        r == san_move(*board, text@),
        r matches Some(m) ==> is_legal(*board, m),
        forall|m: Move|
            #![trigger crate::pgn::written_word(*board, m)]
            is_legal(*board, m) && m.promotion is None && text@ == crate::pgn::written_word(*board, m)
                ==> r == Some(m),
{
    match chess::ChessMove::from_san(board, text) {
        Ok(m) => Some(Move::from_parts(m.get_source().to_int(), m.get_dest().to_int(), m.get_promotion().map(|p| p.to_index()))),
        Err(_) => None,
    }
}

/// The piece that stands on the square with index `square` (a1 = 0, h8 = 63)
/// in the initial position of a game.
pub open spec fn starting_piece(square: u8) -> Option<Piece> {
    let rank = square / 8;
    let file = square % 8;
    if rank == 1 || rank == 6 {
        Some(Piece::Pawn)
    } else if rank == 0 || rank == 7 {
        Some(
            if file == 0 || file == 7 {
                Piece::Rook
            } else if file == 1 || file == 6 {
                Piece::Knight
            } else if file == 2 || file == 5 {
                Piece::Bishop
            } else if file == 3 {
                Piece::Queen
            } else {
                Piece::King
            },
        )
    } else {
        None
    }
}

/// The initial position in numbers: 32 pieces on the first two and last
/// two ranks, the same on each file for both sides (rank 1 facing rank 8,
/// rank 2 facing rank 7), pawns on ranks 2 and 7, the kings on e1 and e8 and
/// the queens on d1 and d8.
pub proof fn lemma_starting_piece(square: u8)
    requires
        square < 64,
    ensures
        starting_piece(square) is Some <==> (square < 16 || square >= 48),
        starting_piece(square) == starting_piece((square ^ 56u8) as u8),
        (starting_piece(square) == Some(Piece::Pawn)) <==> (8 <= square < 16 || 48 <= square < 56),
        (starting_piece(square) == Some(Piece::King)) <==> (square == 4 || square == 60),
        (starting_piece(square) == Some(Piece::Queen)) <==> (square == 3 || square == 59),
{
    assert((square ^ 56u8) / 8 == 7 - square / 8 && (square ^ 56u8) % 8 == square % 8) by (bit_vector)
        requires
            square < 64,
    ;
}

/// `board` is the initial position, as far as the questions the engine asks
/// tell: White to move, White's pieces on ranks 1 and 2, Black's on ranks 7
/// and 8, each piece on its starting square, and no check.
pub open spec fn is_starting_position(board: chess::Board) -> bool {
    &&& side_to_move_of(board) == Color::White
    &&& pieces_of(board, Color::White) == 0xffffu64
    &&& pieces_of(board, Color::Black) == 0xffff_0000_0000_0000u64
    &&& checkers_of(board) == 0
    &&& forall|square: u8| square < 64 ==> #[trigger] piece_at(board, square) == starting_piece(square)
}

/// The FEN text of the initial position of a game.
pub const STARTING_FEN: &'static str = "rnbqkbnr/pppppppp/8/8/8/8/PPPPPPPP/RNBQKBNR w KQkq - 0 1";

/// What `chess::Board::from_str` makes of the FEN text `fen`, `None` where it
/// reports an error.
pub uninterp spec fn fen_board(fen: Seq<char>) -> Option<chess::Board>;

/// Calls `chess::Board::from_str` on a FEN text, with its error read as `None`.
/// Claimed: the result is `fen_board(fen@)`; and for the initial position's
/// text, the one `chess::Board::default` parses (and unwraps), it is a board,
/// which the other calls report as that position (side to move, the pieces of
/// each side, the piece on each square, no checkers).
#[verifier::external_body]
pub(crate) fn board_from_fen(fen: &str) -> (r: Option<chess::Board>)
    ensures
        r == fen_board(fen@),
        fen@ == STARTING_FEN@ ==> r is Some && is_starting_position(r->0),
{
    <chess::Board as std::str::FromStr>::from_str(fen).ok()
}

} // verus!
