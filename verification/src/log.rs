//! The text of a benchmark log entry: the settings of a run, how long its
//! moves took, and the game it played.
use vstd::prelude::*;
use vstd::string::StringExecFns;
use crate::pgn::{nat_digits, int_decimal, push_nat_digits, push_decimal};

verus! {

/// The entry for a benchmark game: search depth, deepening limit, average
/// time per move in milliseconds, the game-length limit and the length
/// reached, and the game's first and last positions (FEN) and its moves
/// (PGN), one per line inside braces.
pub open spec fn log_text(
    depth: u8,
    max_depth: u8,
    average_time: u128,
    max_game_length: i32,
    game_length: u128,
    initial_fen: Seq<char>,
    final_fen: Seq<char>,
    final_pgn: Seq<char>,
) -> Seq<char> {
    "{\nDepth: "@ + nat_digits(depth as nat) + "\nMax iterative depth: "@ + nat_digits(max_depth as nat)
        + "\nAverage time per move (milli): "@ + nat_digits(average_time as nat) + "\nMax game length: "@
        + int_decimal(max_game_length as int) + "\nActual game length: "@ + nat_digits(game_length as nat)
        + "\nInitial fen: "@ + initial_fen + "\nFinal fen: "@ + final_fen + "\nFinal PGN: \n"@ + final_pgn
        + "\n}"@
}

/// The entry `log_text` describes.
pub fn log_entry(
    depth: u8,
    max_depth: u8,
    average_time: u128,
    max_game_length: i32,
    game_length: u128,
    initial_fen: &str,
    final_fen: &str,
    final_pgn: &str,
) -> (r: String)
    ensures
        r@ == log_text(
            depth,
            max_depth,
            average_time,
            max_game_length,
            game_length,
            initial_fen@,
            final_fen@,
            final_pgn@,
        ),
{
    let mut s = String::new();
    s.append("{\nDepth: ");
    push_nat_digits(&mut s, depth as u128);
    s.append("\nMax iterative depth: ");
    push_nat_digits(&mut s, max_depth as u128);
    s.append("\nAverage time per move (milli): ");
    push_nat_digits(&mut s, average_time);
    s.append("\nMax game length: ");
    push_decimal(&mut s, max_game_length as i64);
    s.append("\nActual game length: ");
    push_nat_digits(&mut s, game_length);
    s.append("\nInitial fen: ");
    s.append(initial_fen);
    s.append("\nFinal fen: ");
    s.append(final_fen);
    s.append("\nFinal PGN: \n");
    s.append(final_pgn);
    s.append("\n}");
    s
}

} // verus!
