use std::collections::{HashMap, VecDeque};
use std::str::FromStr;

use chess_engine::moveiterator::{MoveIterator, ALL_SQUARES_MASK};
use chess_engine::pgn::{create_board_from_pgn, generate_pgn, pgn_fragment, split_whitespace, try_generate_pgn};
use chess_engine::search::{
    bound_flag, calculate_distance, captures_first, child_depths, probe_action, store_position,
    ProbeAction,
};
use chess_engine::types::{Color, Flag, Move, Piece};

fn collect(it: &mut MoveIterator) -> Vec<Move> {
    let mut out = Vec::new();
    while let Some(m) = it.next() {
        out.push(m);
    }
    out
}

fn board(fen: &str) -> chess::Board {
    chess::Board::from_str(fen).unwrap()
}

fn all_distinct(ms: &[Move]) -> bool {
    for i in 0..ms.len() {
        for j in (i + 1)..ms.len() {
            if ms[i] == ms[j] {
                return false;
            }
        }
    }
    true
}

#[test]
fn masks_order_moves_by_phase() {
    let moves = vec![
        Move::new(8, 16, None),
        Move::new(8, 24, None),
        Move::new(1, 18, None),
        Move::new(1, 16, None),
    ];
    let mut it = MoveIterator::from_moves(&moves, &vec![false; moves.len()], vec![1u64 << 18, ALL_SQUARES_MASK]);
    assert_eq!(it.len_all_moves(), 4);
    it.set_first_mask(None);
    assert_eq!(it.next(), Some(Move::new(1, 18, None)));
    assert_eq!(it.get_mask_index(), 0);
    assert_eq!(it.next(), Some(Move::new(1, 16, None)));
    assert_eq!(it.get_mask_index(), 1);
    assert_eq!(it.next(), Some(Move::new(8, 16, None)));
    assert_eq!(it.next(), Some(Move::new(8, 24, None)));
    assert_eq!(it.next(), None);
    assert_eq!(it.len_all_moves(), 0);
}

#[test]
fn empty_mask_list_gets_one_empty_mask() {
    let moves = vec![Move::new(8, 16, None)];
    let mut it = MoveIterator::from_moves(&moves, &vec![false; moves.len()], Vec::new());
    it.set_first_mask(None);
    assert_eq!(it.next(), None);
    assert_eq!(it.len_all_moves(), 1);
}

#[test]
fn promotion_yields_four_pieces_in_order() {
    let moves = vec![
        Move::new(48, 56, Some(Piece::Queen)),
        Move::new(48, 56, Some(Piece::Knight)),
        Move::new(48, 56, Some(Piece::Rook)),
        Move::new(48, 56, Some(Piece::Bishop)),
    ];
    let mut it = MoveIterator::from_moves(&moves, &vec![false; moves.len()], vec![ALL_SQUARES_MASK]);
    assert_eq!(it.len_all_moves(), 4);
    it.set_first_mask(None);
    let got = collect(&mut it);
    assert_eq!(got, moves);
}

#[test]
fn starting_position_has_twenty_moves() {
    let b = chess::Board::default();
    let mut it = captures_first(&b);
    assert_eq!(it.len_all_moves(), 20);
    it.set_first_mask(None);
    let got = collect(&mut it);
    assert_eq!(got.len(), 20);
    assert!(all_distinct(&got));
    assert!(got.contains(&Move::new(12, 28, None)));
    assert!(got.contains(&Move::new(6, 21, None)));
}

#[test]
fn first_move_comes_first() {
    let b = chess::Board::default();
    let mut it = captures_first(&b);
    it.set_first_mask(Some(Move::new(12, 28, None)));
    let got = collect(&mut it);
    assert_eq!(got[0], Move::new(12, 28, None));
    assert_eq!(got.len(), 20);
    assert!(all_distinct(&got));
}

#[test]
fn captures_come_first() {
    let b = board("rnbqkbnr/ppp1pppp/8/3p4/4P3/8/PPPP1PPP/RNBQKBNR w KQkq d6 0 2");
    let mut it = captures_first(&b);
    it.set_first_mask(None);
    let got = collect(&mut it);
    assert_eq!(got[0], Move::new(28, 35, None));
    assert!(all_distinct(&got));
    let total = chess::MoveGen::new_legal(&b).len();
    assert_eq!(got.len(), total);
}

#[test]
fn pgn_for_pawn_push() {
    let b = chess::Board::default();
    let pgn = generate_pgn(&b, &Some(Move::new(12, 28, None)), Color::White, &String::new(), 0);
    assert_eq!(pgn, "1. e2e4 ");
    let after = b.make_move_new(chess::ChessMove::new(chess::Square::E2, chess::Square::E4, None));
    let pgn2 = generate_pgn(&after, &Some(Move::new(52, 36, None)), Color::Black, &pgn, 1);
    assert_eq!(pgn2, "1. e2e4  e7e5 ");
}

#[test]
fn pgn_for_piece_move() {
    let b = chess::Board::default();
    let pgn = generate_pgn(&b, &Some(Move::new(6, 21, None)), Color::White, &String::new(), 0);
    assert_eq!(pgn, "1. Ng1f3 ");
}

#[test]
fn pgn_for_capture() {
    let b = board("rnbqkbnr/ppp1pppp/8/3p4/4P3/8/PPPP1PPP/RNBQKBNR w KQkq d6 0 2");
    let pgn = generate_pgn(&b, &Some(Move::new(28, 35, None)), Color::White, &String::from("x "), 2);
    assert_eq!(pgn, "x 2. e4xd5 ");
}

#[test]
fn pgn_for_check_and_castle() {
    let b = board("4k3/8/8/8/8/8/8/4K2R w K - 0 1");
    let check = generate_pgn(&b, &Some(Move::new(7, 63, None)), Color::White, &String::new(), 0);
    assert_eq!(check, "1. Rh1h8+ ");
    let castle = generate_pgn(&b, &Some(Move::new(4, 6, None)), Color::White, &String::new(), 0);
    assert_eq!(castle, "1. O-O ");
}

#[test]
fn pgn_for_long_castle() {
    let b = board("r3k3/8/8/8/8/8/8/4K3 b q - 0 1");
    let castle = generate_pgn(&b, &Some(Move::new(60, 58, None)), Color::Black, &String::from("1. Ke1e2 "), 1);
    assert_eq!(castle, "1. Ke1e2  O-O-O ");
}

#[test]
fn pgn_for_promotion_with_check() {
    let b = board("8/P7/8/8/8/8/8/k6K w - - 0 1");
    let pgn = generate_pgn(&b, &Some(Move::new(48, 56, Some(Piece::Queen))), Color::White, &String::new(), 10);
    assert_eq!(pgn, "6. a7a8=q+ ");
}

#[test]
fn pgn_without_move_is_empty() {
    let b = chess::Board::default();
    let pgn = generate_pgn(&b, &None, Color::White, &String::from("1. e2e4 "), 0);
    assert_eq!(pgn, "");
}

#[test]
fn pgn_refuses_unwritable_move() {
    let b = chess::Board::default();
    assert_eq!(try_generate_pgn(&b, &Some(Move::new(12, 44, None)), Color::White, &String::new(), 0), None);
    assert_eq!(try_generate_pgn(&b, &Some(Move::new(70, 28, None)), Color::White, &String::new(), 0), None);
    assert_eq!(
        try_generate_pgn(&b, &Some(Move::new(12, 28, None)), Color::White, &String::new(), 0),
        Some(String::from("1. e2e4 "))
    );
}

#[test]
fn pgn_fragment_numbers_moves() {
    let m = Move::new(12, 28, None);
    assert_eq!(pgn_fragment(Color::White, 0, m, Some(Piece::Pawn), None, false), "1. e2e4 ");
    assert_eq!(pgn_fragment(Color::White, 19, m, Some(Piece::Pawn), None, false), "10. e2e4 ");
    assert_eq!(pgn_fragment(Color::White, -5, m, Some(Piece::Pawn), None, false), "-1. e2e4 ");
    assert_eq!(pgn_fragment(Color::White, -3, m, None, Some(Piece::Rook), true), "0. e2xe4+ ");
    assert_eq!(pgn_fragment(Color::Black, 7, m, Some(Piece::Bishop), None, false), " Be2e4 ");
}

#[test]
fn board_from_pgn_replays_moves() {
    let b = create_board_from_pgn(String::from("1. e4 e5 2. Nf3")).unwrap();
    let expected = chess::Board::default()
        .make_move_new(chess::ChessMove::new(chess::Square::E2, chess::Square::E4, None))
        .make_move_new(chess::ChessMove::new(chess::Square::E7, chess::Square::E5, None))
        .make_move_new(chess::ChessMove::new(chess::Square::G1, chess::Square::F3, None));
    assert_eq!(b, expected);
}

#[test]
fn board_from_pgn_rejects_bad_move() {
    assert_eq!(create_board_from_pgn(String::from("1. e4 e9")), None);
    assert_eq!(create_board_from_pgn(String::from("")), Some(chess::Board::default()));
}

#[test]
fn words_split_at_white_space() {
    let ws = split_whitespace("  1. e4\te5\n 2.\u{3000}Nf3 ");
    assert_eq!(ws, vec!["1.", "e4", "e5", "2.", "Nf3"]);
    assert!(split_whitespace(" \n ").is_empty());
}

#[test]
fn table_drops_oldest_position() {
    let mut table: HashMap<u64, i32> = HashMap::new();
    let mut queue: VecDeque<u64> = VecDeque::new();
    store_position(&mut table, &mut queue, 1, 10, 7);
    assert_eq!(table.get(&1), Some(&10));
    assert_eq!(queue.len(), 1);
    store_position(&mut table, &mut queue, 2, 20, 7);
    assert_eq!(table.get(&1), None);
    assert_eq!(table.get(&2), Some(&20));
    assert_eq!(queue, VecDeque::from(vec![2]));
    store_position(&mut table, &mut queue, 3, 30, 8);
    assert_eq!(table.len(), 2);
    assert_eq!(queue, VecDeque::from(vec![2, 3]));
}

#[test]
fn table_store_overwrites_value() {
    let mut table: HashMap<u64, i32> = HashMap::new();
    let mut queue: VecDeque<u64> = VecDeque::new();
    store_position(&mut table, &mut queue, 5, 1, 100);
    store_position(&mut table, &mut queue, 5, 2, 100);
    assert_eq!(table.get(&5), Some(&2));
    assert_eq!(queue.len(), 2);
}

#[test]
fn probe_rules() {
    assert_eq!(probe_action(5, Flag::Exact, 3), ProbeAction::ReturnStored);
    assert_eq!(probe_action(2, Flag::Exact, 3), ProbeAction::OrderOnly);
    assert_eq!(probe_action(3, Flag::Lowerbound, 3), ProbeAction::RaiseAlpha);
    assert_eq!(probe_action(4, Flag::Upperbound, 1), ProbeAction::LowerBeta);
}

#[test]
fn bound_flags() {
    assert_eq!(bound_flag(true, true), Flag::Upperbound);
    assert_eq!(bound_flag(false, true), Flag::Lowerbound);
    assert_eq!(bound_flag(false, false), Flag::Exact);
}

#[test]
fn child_depth_rules() {
    assert_eq!(child_depths(1, 6, true, 5, 0), (1, 5));
    assert_eq!(child_depths(1, 1, true, 0, 0), (0, 0));
    assert_eq!(child_depths(1, 6, false, 1, 1), (1, 5));
    assert_eq!(child_depths(1, 6, false, 0, 1), (0, 5));
    assert_eq!(child_depths(3, 6, true, 0, 0), (2, 5));
}

#[test]
fn rank_distances() {
    assert_eq!(calculate_distance(0, 63), 7);
    assert_eq!(calculate_distance(8, 15), 0);
    assert_eq!(calculate_distance(60, 4), 7);
    assert_eq!(calculate_distance(12, 28), 2);
    assert_eq!(calculate_distance(28, 12), 2);
}

#[test]
fn piece_numbers_and_letters() {
    for i in 0..6 {
        assert_eq!(Piece::from_index(i).to_index(), i);
    }
    assert_eq!(Piece::Knight.letter(), 'n');
    assert_eq!(Piece::Knight.letter_upper(), 'N');
    assert_eq!(Color::White.opponent(), Color::Black);
    assert_eq!(Move::from_parts(48, 56, Some(4)).promotion, Some(Piece::Queen));
}

#[test]
fn exhausted_iterator_stays_exhausted() {
    let moves = vec![Move::new(8, 16, None), Move::new(1, 18, None)];
    let mut it = MoveIterator::from_moves(&moves, &vec![false; moves.len()], vec![1u64 << 18, ALL_SQUARES_MASK]);
    it.set_first_mask(None);
    assert_eq!(collect(&mut it).len(), 2);
    assert_eq!(it.next(), None);
    assert_eq!(it.next(), None);
}

#[test]
fn promotions_come_together_among_other_moves() {
    let moves = vec![
        Move::new(1, 18, None),
        Move::new(48, 56, Some(Piece::Queen)),
        Move::new(48, 56, Some(Piece::Knight)),
        Move::new(48, 56, Some(Piece::Rook)),
        Move::new(48, 56, Some(Piece::Bishop)),
        Move::new(48, 57, Some(Piece::Queen)),
        Move::new(48, 57, Some(Piece::Knight)),
        Move::new(48, 57, Some(Piece::Rook)),
        Move::new(48, 57, Some(Piece::Bishop)),
    ];
    let mut it = MoveIterator::from_moves(&moves, &vec![false; moves.len()], vec![1u64 << 57, ALL_SQUARES_MASK]);
    it.set_first_mask(None);
    let got = collect(&mut it);
    assert_eq!(got.len(), 9);
    assert!(all_distinct(&got));
    assert_eq!(&got[0..4], &moves[5..9]);
    assert_eq!(&got[4..8], &moves[1..5]);
    assert_eq!(got[8], moves[0]);
}

#[test]
fn first_move_run_is_a_permutation_with_captures() {
    let b = board("rnbqkbnr/ppp1pppp/8/3p4/4P3/8/PPPP1PPP/RNBQKBNR w KQkq d6 0 2");
    let legal: Vec<Move> = chess::MoveGen::new_legal(&b)
        .map(|m| Move::new(m.get_source().to_int(), m.get_dest().to_int(), None))
        .collect();
    let mut it = captures_first(&b);
    it.set_first_mask(Some(Move::new(6, 21, None)));
    let got = collect(&mut it);
    assert_eq!(got[0], Move::new(6, 21, None));
    assert_eq!(got[1], Move::new(28, 35, None));
    assert_eq!(got.len(), legal.len());
    assert!(all_distinct(&got));
    for m in &legal {
        assert!(got.contains(m));
    }
}

#[test]
fn en_passant_capture_keeps_an_entry_of_its_own() {
    let moves = vec![Move::new(36, 44, None), Move::new(36, 43, None)];
    let mut it = MoveIterator::from_moves(&moves, &vec![false, true], vec![ALL_SQUARES_MASK]);
    it.set_first_mask(None);
    assert_eq!(collect(&mut it), moves);
    let mut merged = MoveIterator::from_moves(&moves, &vec![false, false], vec![ALL_SQUARES_MASK]);
    merged.set_first_mask(None);
    assert_eq!(collect(&mut merged), vec![Move::new(36, 43, None), Move::new(36, 44, None)]);
}

#[test]
fn search_order_follows_the_generator_with_en_passant() {
    let b = board("rnbqkbnr/ppp1pppp/8/3pP3/8/8/PPPP1PPP/RNBQKBNR w KQkq d6 0 3");
    let generated: Vec<Move> = chess::MoveGen::new_legal(&b)
        .map(|m| Move::new(m.get_source().to_int(), m.get_dest().to_int(), None))
        .collect();
    let mut it = captures_first(&b);
    it.set_first_mask(None);
    let got = collect(&mut it);
    assert_eq!(got, generated);
    let push = got.iter().position(|m| *m == Move::new(36, 44, None)).unwrap();
    assert_eq!(got[push + 1], Move::new(36, 43, None));
}

#[test]
fn written_game_reads_back_to_its_position() {
    let plies = [(12u8, 28u8), (52, 36), (6, 21), (57, 42), (5, 26), (62, 45), (4, 6), (45, 28)];
    let mut b = chess::Board::default();
    let mut pgn = String::new();
    for (i, (s, d)) in plies.iter().enumerate() {
        let color = if i % 2 == 0 { Color::White } else { Color::Black };
        pgn = generate_pgn(&b, &Some(Move::new(*s, *d, None)), color, &pgn, i as i32);
        b = b.make_move_new(chess::ChessMove::new(
            chess::ALL_SQUARES[*s as usize],
            chess::ALL_SQUARES[*d as usize],
            None,
        ));
    }
    assert_eq!(pgn, "1. e2e4  e7e5 2. Ng1f3  Nb8c6 3. Bf1c4  Ng8f6 4. O-O  Nf6xe4 ");
    assert_eq!(create_board_from_pgn(pgn), Some(b));
}

#[test]
fn log_entry_lists_the_run() {
    let text = chess_engine::log::log_entry(4, 6, 1234, -1, 57, "start fen", "end fen", "1. e2e4 ");
    assert_eq!(
        text,
        "{\nDepth: 4\nMax iterative depth: 6\nAverage time per move (milli): 1234\nMax game length: -1\nActual game length: 57\nInitial fen: start fen\nFinal fen: end fen\nFinal PGN: \n1. e2e4 \n}"
    );
}
