//! The whole run of the move iterator: calling `next` until it returns
//! `None` ends, produces no move twice, and produces exactly the moves the
//! iterator holds (each promoting pawn move once per promotion piece).
use vstd::prelude::*;
use vstd::set_lib::{set_int_range, lemma_int_range, lemma_len_subset};
use crate::bits::{has_bit, square_bit, lowest_square, lemma_bit_and, lemma_bit_xor, lemma_empty_iff_no_bits};
use crate::types::{Move, Piece, promotion_piece, move_on_board};
use crate::board::{promotes_to, generator_list};
use crate::bits::lemma_square_bit;
use crate::moveiterator::{
    SquareAndBitBoard, IterState, entry_hits, active, with_mask, step, wf, partitioned,
    lemma_partition_props, ALL_SQUARES_MASK, initial_state, group_moves, first_move_state, total_moves,
    find_square, lemma_find_square, keyed_moves, move_entries, marks_consistent, board_entry,
};
use crate::iterator_laws::{
    pending, no_shared_moves, entries_disjoint, phase_ordered, synced, lemma_step_produces_held_move,
    lemma_with_mask, listed, lemma_first_move_comes_first,
    lemma_keyed_facts, lemma_entry_bits, lemma_moves_held, lemma_entry_kinds, lemma_entries_separate,
    lemma_entry_squares, lemma_entry_provenance,
};

verus! {

/// The place of a promotion piece in the order the iterator produces them:
/// queen, knight, rook, bishop (4 for the other pieces).
pub open spec fn promotion_rank(p: Piece) -> int {
    match p {
        Piece::Queen => 0,
        Piece::Knight => 1,
        Piece::Rook => 2,
        Piece::Bishop => 3,
        _ => 4,
    }
}

/// The entry stands for the move `m`: same square, a destination it holds,
/// and a promotion to one of the four pieces exactly when the entry promotes.
pub open spec fn entry_move(e: SquareAndBitBoard, m: Move) -> bool {
    &&& e.square == m.source
    &&& has_bit(e.bitboard, m.dest as u64)
    &&& if e.promotion {
        m.promotion matches Some(p) && promotes_to(p)
    } else {
        m.promotion is None
    }
}

/// Some entry stands for the move `m`.
pub open spec fn held_move(moves: Seq<SquareAndBitBoard>, m: Move) -> bool {
    exists|k: int| 0 <= k < moves.len() && entry_move(#[trigger] moves[k], m)
}

/// The moves the entries stand for.
pub open spec fn held_moves(moves: Seq<SquareAndBitBoard>) -> Set<Move> {
    Set::new(|m: Move| held_move(moves, m))
}

/// The destination of the current entry the next move goes to.
pub open spec fn current_dest(s: IterState) -> u64 {
    lowest_square(s.moves[s.index].bitboard & s.mask)
}

/// The move is one of the promotions of the current pair of squares that
/// have already been produced.
pub open spec fn already_produced(s: IterState, m: Move) -> bool {
    &&& active(s)
    &&& m.source == s.moves[s.index].square
    &&& m.dest as u64 == current_dest(s)
    &&& m.promotion matches Some(p) && promotion_rank(p) < s.promotion_index
}

/// The moves still to come from the state `s`.
pub open spec fn to_come(s: IterState) -> Set<Move> {
    Set::new(|m: Move| held_move(s.moves, m) && !already_produced(s, m))
}

/// A promotion sequence under way is one of the current entry.
pub open spec fn promotion_in_step(s: IterState) -> bool {
    s.promotion_index > 0 ==> active(s) && s.moves[s.index].promotion
}

/// No move is held any more.
pub open spec fn no_pending(moves: Seq<SquareAndBitBoard>) -> bool {
    forall|sq: u8, d: u64| !#[trigger] pending(moves, sq, d)
}

/// The current phase or a later one has the full board as its mask.
pub open spec fn full_phase_ahead(s: IterState) -> bool {
    exists|i: int| s.mask_index <= i < s.masks.len() && s.masks[i] == ALL_SQUARES_MASK
}

/// A state from which a run of `next` produces exactly what is to come.
pub open spec fn run_ready(s: IterState) -> bool {
    &&& wf(s)
    &&& no_shared_moves(s.moves)
    &&& synced(s)
    &&& phase_ordered(s) || s.mask != ALL_SQUARES_MASK
    &&& promotion_in_step(s)
    &&& full_phase_ahead(s) || no_pending(s.moves)
}

/// The moves produced by at most `n` calls of `next` from `s`, up to the
/// first `None`.
pub open spec fn run(s: IterState, n: nat) -> Seq<Move>
    decreases n,
{
    if n == 0 {
        Seq::empty()
    } else {
        match step(s).0 {
            None => Seq::empty(),
            Some(m) => seq![m] + run(step(s).1, (n - 1) as nat),
        }
    }
}

/// One of the first `n` calls of `next` from `s` returns `None`.
pub open spec fn ends_within(s: IterState, n: nat) -> bool
    decreases n,
{
    n > 0 && (step(s).0 is None || ends_within(step(s).1, (n - 1) as nat))
}

/// A number for each move with both squares on the board and a promotion
/// (if any) to one of the four pieces.
spec fn move_code(m: Move) -> int {
    let p = match m.promotion {
        None => 0int,
        Some(q) => promotion_rank(q) + 1,
    };
    m.source * 320 + m.dest * 5 + p
}

spec fn code_move(c: int) -> Move {
    let p = c % 5;
    Move {
        source: (c / 320) as u8,
        dest: ((c / 5) % 64) as u8,
        promotion: if p == 0 {
            None
        } else {
            Some(promotion_piece(p - 1))
        },
    }
}

proof fn lemma_code_move(m: Move)
    requires
        move_on_board(m),
        m.promotion matches Some(p) ==> promotes_to(p),
    ensures
        0 <= move_code(m) < 20480,
        code_move(move_code(m)) == m,
{
    let a = m.source as int;
    let b = m.dest as int;
    let p = move_code(m) - a * 320 - b * 5;
    assert(0 <= p < 5);
    let c = move_code(m);
    assert(c / 320 == a && (c / 5) % 64 == b && c % 5 == p && 0 <= c < 20480) by (nonlinear_arith)
        requires
            c == a * 320 + b * 5 + p,
            0 <= a < 64,
            0 <= b < 64,
            0 <= p < 5,
    ;
}

/// The moves held by entries on the board are finitely many.
proof fn lemma_held_finite(moves: Seq<SquareAndBitBoard>, s: Set<Move>)
    requires
        forall|k: int| 0 <= k < moves.len() ==> #[trigger] moves[k].square < 64,
        forall|m: Move| #[trigger] s.contains(m) ==> held_move(moves, m),
    ensures
        s.finite(),
{
    lemma_int_range(0, 20480);
    let all = set_int_range(0, 20480).map(|c: int| code_move(c));
    set_int_range(0, 20480).lemma_map_finite(|c: int| code_move(c));
    assert forall|m: Move| #[trigger] s.contains(m) implies all.contains(m) by {
        let k = choose|k: int| 0 <= k < moves.len() && entry_move(#[trigger] moves[k], m);
        assert(moves[k].square < 64);
        lemma_code_move(m);
        assert(set_int_range(0, 20480).contains(move_code(m)));
    }
    lemma_len_subset(s, all);
}

/// Entries with the same members hold the same moves.
proof fn lemma_held_same_members(s: Seq<SquareAndBitBoard>, t: Seq<SquareAndBitBoard>)
    requires
        forall|x: SquareAndBitBoard| #[trigger] t.contains(x) <==> s.contains(x),
    ensures
        forall|m: Move| #[trigger] held_move(t, m) <==> held_move(s, m),
{
    assert forall|m: Move| #[trigger] held_move(t, m) <==> held_move(s, m) by {
        if held_move(t, m) {
            let k = choose|k: int| 0 <= k < t.len() && entry_move(#[trigger] t[k], m);
            assert(t.contains(t[k]));
            let i = choose|i: int| 0 <= i < s.len() && s[i] == t[k];
            assert(entry_move(s[i], m));
        }
        if held_move(s, m) {
            let k = choose|k: int| 0 <= k < s.len() && entry_move(#[trigger] s[k], m);
            assert(s.contains(s[k]));
            assert(t.contains(s[k]));
            let i = choose|i: int| 0 <= i < t.len() && t[i] == s[k];
            assert(entry_move(t[i], m));
        }
    }
}

/// A held move from the current entry's square to the current destination
/// is one the current entry stands for.
proof fn lemma_held_at_current(s: IterState, x: Move)
    requires
        wf(s),
        no_shared_moves(s.moves),
        active(s),
        held_move(s.moves, x),
        x.source == s.moves[s.index].square,
        x.dest as u64 == current_dest(s),
    ensures
        entry_move(s.moves[s.index], x),
{
    let e = s.moves[s.index];
    let d = current_dest(s);
    lemma_empty_iff_no_bits(e.bitboard & s.mask);
    lemma_bit_and(e.bitboard, s.mask, d);
    let k = choose|k: int| 0 <= k < s.moves.len() && entry_move(#[trigger] s.moves[k], x);
    if k != s.index {
        assert(entries_disjoint(s.moves[s.index], s.moves[k]));
        lemma_bit_and(e.bitboard, s.moves[k].bitboard, d);
        lemma_empty_iff_no_bits(e.bitboard & s.moves[k].bitboard);
    }
}

/// With no entry hitting the full board, nothing is held.
proof fn lemma_no_hits_no_pending(s: IterState)
    requires
        phase_ordered(s),
        !active(s),
        s.mask == ALL_SQUARES_MASK,
        0 <= s.index <= s.moves.len(),
    ensures
        no_pending(s.moves),
{
    assert forall|sq: u8, d: u64| !#[trigger] pending(s.moves, sq, d) by {
        if pending(s.moves, sq, d) {
            let k = choose|k: int|
                0 <= k < s.moves.len() && #[trigger] s.moves[k].square == sq && has_bit(
                    s.moves[k].bitboard,
                    d,
                );
            let b = s.moves[k].bitboard;
            assert(b & 0xffff_ffff_ffff_ffffu64 == b) by (bit_vector);
            assert(b == 0 ==> (b >> d) & 1u64 == 0u64) by (bit_vector);
            if k >= s.index && k != s.index {
                assert(entry_hits(s.moves[k], s.mask) ==> entry_hits(s.moves[s.index], s.mask));
            }
            assert(!entry_hits(s.moves[k], s.mask));
        }
    }
}

/// Nothing held means nothing to come.
proof fn lemma_nothing_to_come(s: IterState)
    requires
        no_pending(s.moves),
    ensures
        to_come(s) == Set::<Move>::empty(),
{
    assert forall|m: Move| !#[trigger] to_come(s).contains(m) by {
        if held_move(s.moves, m) {
            let k = choose|k: int| 0 <= k < s.moves.len() && entry_move(#[trigger] s.moves[k], m);
            assert(pending(s.moves, m.source, m.dest as u64));
        }
    }
    assert(to_come(s) =~= Set::<Move>::empty());
}

/// Moving on to the next phase keeps a state ready, with the same moves to
/// come and the same moves held.
proof fn lemma_phase_change_ready(s: IterState)
    requires
        run_ready(s),
        !active(s),
        s.mask_index + 1 < s.masks.len(),
    ensures
        ({
            let s1 = IterState {
                moves: s.moves,
                index: s.index,
                mask_index: s.mask_index + 1,
                promotion_index: s.promotion_index,
                mask: s.mask,
                masks: s.masks,
            };
            let s3 = with_mask(s1, s.masks[s.mask_index + 1]);
            &&& run_ready(s3)
            &&& phase_ordered(s3)
            &&& to_come(s3) == to_come(s)
            &&& step(s) == step(s3)
            &&& forall|sq: u8, d: u64| #[trigger] pending(s3.moves, sq, d) <==> pending(s.moves, sq, d)
        }),
{
    let s1 = IterState {
        moves: s.moves,
        index: s.index,
        mask_index: s.mask_index + 1,
        promotion_index: s.promotion_index,
        mask: s.mask,
        masks: s.masks,
    };
    if full_phase_ahead(s) {
        let i = choose|i: int| s.mask_index <= i < s.masks.len() && s.masks[i] == ALL_SQUARES_MASK;
        if i == s.mask_index {
            lemma_no_hits_no_pending(s);
        }
    }
    let mask = s.masks[s1.mask_index];
    let s3 = with_mask(s1, mask);
    lemma_with_mask(s1, mask);
    lemma_partition_props(s.moves, mask);
    lemma_held_same_members(s.moves, s3.moves);
    assert forall|k: int| 0 <= k < s3.moves.len() implies #[trigger] s3.moves[k].square < 64 by {
        assert(s3.moves.contains(s3.moves[k]));
        let i = choose|i: int| 0 <= i < s.moves.len() && s.moves[i] == s3.moves[k];
        assert(s.moves[i].square < 64);
    }
    if no_pending(s.moves) {
        assert forall|sq: u8, d: u64| !#[trigger] pending(s3.moves, sq, d) by {
            assert(!pending(s.moves, sq, d));
        }
    } else {
        let i = choose|i: int| s.mask_index <= i < s.masks.len() && s.masks[i] == ALL_SQUARES_MASK;
        assert(s3.mask_index <= i);
    }
    assert(s.promotion_index == 0);
    assert(wf(s3));
    assert(synced(s3));
    assert(promotion_in_step(s3));
    assert(full_phase_ahead(s3) || no_pending(s3.moves));
    assert(run_ready(s3));
    assert(to_come(s3) =~= to_come(s));
    assert(step(s) == step(s3));
}

/// A call of `next` on an entry with a move left in the current mask:
/// it produces one move still to come, held and landing in the mask, and
/// leaves a state of the same phase with exactly the other moves still to
/// come.
proof fn lemma_produce_step(s: IterState)
    requires
        wf(s),
        no_shared_moves(s.moves),
        promotion_in_step(s),
        active(s),
    ensures
        step(s).0 is Some,
        ({
            let m = step(s).0->0;
            let s2 = step(s).1;
            &&& wf(s2)
            &&& no_shared_moves(s2.moves)
            &&& promotion_in_step(s2)
            &&& s2.mask_index == s.mask_index
            &&& s2.masks == s.masks
            &&& s2.mask == s.mask
            &&& forall|sq: u8, d: u64| #[trigger] pending(s2.moves, sq, d) ==> pending(s.moves, sq, d)
            &&& phase_ordered(s) ==> phase_ordered(s2)
            &&& synced(s) ==> synced(s2)
            &&& has_bit(s.mask, m.dest as u64)
            &&& pending(s.moves, m.source, m.dest as u64)
            &&& !to_come(s2).contains(m)
            &&& to_come(s) == to_come(s2).insert(m)
        }),
{
    let e = s.moves[s.index];
    let d = current_dest(s);
    lemma_empty_iff_no_bits(e.bitboard & s.mask);
    lemma_bit_and(e.bitboard, s.mask, d);
    lemma_step_produces_held_move(s);
    let m = step(s).0->0;
    let s2 = step(s).1;
    assert(m.source == e.square && m.dest as u64 == d);
    if e.promotion && s.promotion_index + 1 < 4 {
        assert(s2.moves == s.moves && s2.index == s.index && s2.mask == s.mask);
        assert(m.promotion == Some(promotion_piece(s.promotion_index)));
        assert(entry_move(e, m));
        assert forall|x: Move| #[trigger] to_come(s).contains(x) <==> (to_come(s2).contains(x)
            || x == m) by {
            if to_come(s).contains(x) && !to_come(s2).contains(x) {
                lemma_held_at_current(s, x);
                let p = x.promotion->0;
                assert(promotion_rank(p) == s.promotion_index);
            }
        }
        assert(to_come(s) =~= to_come(s2).insert(m));
    } else {
        assert(s2.promotion_index == 0);
        let e2 = s2.moves[s.index];
        assert(e2.bitboard == e.bitboard ^ square_bit(d));
        assert forall|x: Move| #[trigger] held_move(s2.moves, x) <==> (held_move(s.moves, x)
            && !(x.source == e.square && x.dest as u64 == d)) by {
            if x.dest < 64 {
                lemma_bit_xor(e.bitboard, d, x.dest as u64);
            }
            if held_move(s2.moves, x) {
                let k = choose|k: int| 0 <= k < s2.moves.len() && entry_move(#[trigger] s2.moves[k], x);
                if k == s.index {
                    assert(entry_move(e, x));
                } else {
                    assert(s2.moves[k] == s.moves[k]);
                    if x.source == e.square && x.dest as u64 == d {
                        assert(entries_disjoint(e, s.moves[k]));
                        lemma_bit_and(e.bitboard, s.moves[k].bitboard, d);
                        lemma_empty_iff_no_bits(e.bitboard & s.moves[k].bitboard);
                    }
                }
            }
            if held_move(s.moves, x) && !(x.source == e.square && x.dest as u64 == d) {
                let k = choose|k: int| 0 <= k < s.moves.len() && entry_move(#[trigger] s.moves[k], x);
                if k == s.index {
                    assert(entry_move(s2.moves[k], x));
                } else {
                    assert(s2.moves[k] == s.moves[k]);
                }
            }
        }
        assert forall|x: Move| #[trigger] to_come(s).contains(x) <==> (to_come(s2).contains(x)
            || x == m) by {
            if to_come(s).contains(x) && x.source == e.square && x.dest as u64 == d {
                lemma_held_at_current(s, x);
            }
            if x == m {
                assert(entry_move(e, m));
            }
        }
        assert(to_come(s) =~= to_come(s2).insert(m));
    }
}

/// One call of `next`: from a ready state it either ends, with nothing to
/// come, or produces one move still to come and leaves a ready state with
/// exactly the other moves still to come.
pub proof fn lemma_run_step(s: IterState)
    requires
        run_ready(s),
    ensures
        step(s).0 is None ==> to_come(s) == Set::<Move>::empty(),
        step(s).0 matches Some(m) ==> {
            &&& run_ready(step(s).1)
            &&& !to_come(step(s).1).contains(m)
            &&& to_come(s) == to_come(step(s).1).insert(m)
        },
    decreases s.masks.len() - s.mask_index,
{
    if !active(s) {
        let s1 = IterState {
            moves: s.moves,
            index: s.index,
            mask_index: s.mask_index + 1,
            promotion_index: s.promotion_index,
            mask: s.mask,
            masks: s.masks,
        };
        if full_phase_ahead(s) {
            let i = choose|i: int| s.mask_index <= i < s.masks.len() && s.masks[i] == ALL_SQUARES_MASK;
            if i == s.mask_index {
                lemma_no_hits_no_pending(s);
            }
        }
        if s1.mask_index >= s.masks.len() {
            if !no_pending(s.moves) {
                let i = choose|i: int| s.mask_index <= i < s.masks.len() && s.masks[i] == ALL_SQUARES_MASK;
                assert(i == s.mask_index);
            }
            lemma_nothing_to_come(s);
        } else {
            let s3 = with_mask(s1, s.masks[s1.mask_index]);
            lemma_phase_change_ready(s);
            lemma_run_step(s3);
        }
    } else {
        lemma_produce_step(s);
        let s2 = step(s).1;
        if no_pending(s.moves) {
            assert forall|sq: u8, d2: u64| !#[trigger] pending(s2.moves, sq, d2) by {
                assert(!pending(s.moves, sq, d2));
            }
        }
    }
}

/// A run of `next` from a ready state ends within one call more than there
/// are moves to come; it produces each move still to come exactly once, and
/// nothing else.
pub proof fn lemma_run(s: IterState)
    requires
        run_ready(s),
    ensures
        to_come(s).finite(),
        ends_within(s, to_come(s).len() + 1),
        run(s, to_come(s).len() + 1).no_duplicates(),
        run(s, to_come(s).len() + 1).len() == to_come(s).len(),
        forall|m: Move| #[trigger] run(s, to_come(s).len() + 1).contains(m) <==> to_come(s).contains(m),
    decreases to_come(s).len(),
{
    lemma_held_finite(s.moves, to_come(s));
    lemma_run_step(s);
    let n = to_come(s).len() + 1;
    if step(s).0 is None {
        assert(run(s, n) =~= Seq::<Move>::empty());
    } else {
        let m = step(s).0->0;
        let s2 = step(s).1;
        lemma_held_finite(s2.moves, to_come(s2));
        assert(to_come(s2).len() + 1 == to_come(s).len());
        lemma_run(s2);
        let r2 = run(s2, to_come(s2).len() + 1);
        assert(run(s, n) == seq![m] + r2);
        assert forall|i: int, j: int| 0 <= i < j < run(s, n).len() implies run(s, n)[i] != run(s, n)[j] by {
            if i == 0 {
                let y = r2[j - 1];
                assert(run(s, n)[j] == y);
                assert(r2.contains(y));
                assert(to_come(s2).contains(y));
            } else {
                assert(run(s, n)[i] == r2[i - 1] && run(s, n)[j] == r2[j - 1]);
            }
        }
        assert forall|x: Move| #[trigger] run(s, n).contains(x) <==> to_come(s).contains(x) by {
            if run(s, n).contains(x) {
                let i = choose|i: int| 0 <= i < run(s, n).len() && run(s, n)[i] == x;
                if i > 0 {
                    assert(r2[i - 1] == x);
                    assert(r2.contains(x));
                    assert(to_come(s2).contains(x));
                } else {
                    assert(x == m);
                }
            }
            if to_come(s).contains(x) && x != m {
                assert(r2.contains(x));
                let i = choose|i: int| 0 <= i < r2.len() && r2[i] == x;
                assert(run(s, n)[i + 1] == x);
            }
            if x == m {
                assert(run(s, n)[0] == m);
            }
        }
    }
}

/// A move held by the entries of a generated list is one of its moves.
proof fn lemma_held_is_listed(ms: Seq<Move>, eps: Seq<bool>, m: Move)
    requires
        generator_list(ms),
        marks_consistent(ms, eps),
        forall|i: int| 0 <= i < ms.len() ==> move_on_board(#[trigger] ms[i]),
        held_move(move_entries(ms, eps), m),
    ensures
        ms.contains(m),
{
    lemma_entry_bits(ms, eps);
    lemma_entry_kinds(ms, eps);
    let g = move_entries(ms, eps);
    let vg = group_moves(keyed_moves(ms, eps));
    let k = choose|k: int| 0 <= k < g.len() && entry_move(#[trigger] g[k], m);
    assert(has_bit(g[k].bitboard, m.dest as u64));
    let i = choose|i: int|
        0 <= i < ms.len() && (#[trigger] ms[i]).source == g[k].square && ms[i].dest as u64 == m.dest as u64
            && eps[i] == (vg[k].square >= 64);
    if g[k].promotion {
        let j = choose|j: int|
            0 <= j < ms.len() && (#[trigger] ms[j]).source == g[k].square && eps[j] == (vg[k].square >= 64)
                && ms[j].promotion is Some;
        assert(ms[i].source == ms[j].source);
        let p = m.promotion->0;
        assert(promotes_to(p));
        assert(ms.contains(Move { source: ms[i].source, dest: ms[i].dest, promotion: Some(p) }));
        assert(Move { source: ms[i].source, dest: ms[i].dest, promotion: Some(p) } == m);
    } else {
        if ms[i].promotion is Some {
            assert(exists|j: int|
                0 <= j < ms.len() && (#[trigger] ms[j]).source == g[k].square && eps[j] == (vg[k].square
                    >= 64) && ms[j].promotion is Some);
        }
        assert(ms[i] == m);
    }
}

/// A move of a generated list is held by its entries.
proof fn lemma_listed_is_held(ms: Seq<Move>, eps: Seq<bool>, m: Move)
    requires
        generator_list(ms),
        marks_consistent(ms, eps),
        forall|i: int| 0 <= i < ms.len() ==> move_on_board(#[trigger] ms[i]),
        ms.contains(m),
    ensures
        held_move(move_entries(ms, eps), m),
{
    lemma_moves_held(ms, eps);
    lemma_entry_kinds(ms, eps);
    let g = move_entries(ms, eps);
    let vg = group_moves(keyed_moves(ms, eps));
    let i = choose|i: int| 0 <= i < ms.len() && ms[i] == m;
    let k = choose|k: int|
        0 <= k < g.len() && (#[trigger] g[k]).square == (#[trigger] ms[i]).source && has_bit(
            g[k].bitboard,
            ms[i].dest as u64,
        ) && (vg[k].square >= 64) == eps[i];
    assert(crate::board::generator_move(ms[i]));
    if m.promotion is Some {
        assert(exists|j: int|
            0 <= j < ms.len() && (#[trigger] ms[j]).source == g[k].square && eps[j] == (vg[k].square >= 64)
                && ms[j].promotion is Some);
    }
    if g[k].promotion {
        let j = choose|j: int|
            0 <= j < ms.len() && (#[trigger] ms[j]).source == g[k].square && eps[j] == (vg[k].square >= 64)
                && ms[j].promotion is Some;
        assert(ms[i].source == ms[j].source);
    }
    assert(entry_move(g[k], m));
}

/// The entries built from a generated list hold exactly the moves of the
/// list.
pub proof fn lemma_held_generated(ms: Seq<Move>, eps: Seq<bool>)
    requires
        generator_list(ms),
        marks_consistent(ms, eps),
    ensures
        forall|m: Move| #[trigger] held_move(move_entries(ms, eps), m) <==> ms.contains(m),
{
    assert forall|i: int| 0 <= i < ms.len() implies move_on_board(#[trigger] ms[i]) by {
        assert(crate::board::generator_move(ms[i]));
    }
    assert forall|m: Move| #[trigger] held_move(move_entries(ms, eps), m) <==> ms.contains(m) by {
        if held_move(move_entries(ms, eps), m) {
            lemma_held_is_listed(ms, eps, m);
        }
        if ms.contains(m) {
            lemma_listed_is_held(ms, eps, m);
        }
    }
}

/// The fresh iterator over a generated list is well formed and holds no
/// move twice.
proof fn lemma_initial_state(ms: Seq<Move>, eps: Seq<bool>, masks: Seq<u64>)
    requires
        generator_list(ms),
        marks_consistent(ms, eps),
        masks.len() > 0,
    ensures
        wf(initial_state(ms, eps, masks)),
        no_shared_moves(initial_state(ms, eps, masks).moves),
        initial_state(ms, eps, masks).masks == masks,
        held_moves(initial_state(ms, eps, masks).moves) == ms.to_set(),
{
    assert forall|i: int| 0 <= i < ms.len() implies move_on_board(#[trigger] ms[i]) by {
        assert(crate::board::generator_move(ms[i]));
    }
    lemma_entries_separate(ms, eps);
    lemma_entry_squares(ms, eps);
    lemma_held_generated(ms, eps);
    assert(held_moves(move_entries(ms, eps)) =~= ms.to_set());
}

/// The moves from `sq` in `ms` are all en passant captures or none: the
/// piece on `sq` has a single entry.
pub open spec fn single_entry(ms: Seq<Move>, eps: Seq<bool>, sq: u8) -> bool {
    forall|i: int, j: int|
        0 <= i < ms.len() && 0 <= j < ms.len() && #[trigger] ms[i].source == sq && #[trigger] ms[j].source
            == sq ==> eps[i] == eps[j]
}

/// The move a run started by `set_first_mask(Some(m))` produces first: `m`,
/// or for a promotion the promotion to a queen.
pub open spec fn first_produced(m: Move) -> Move {
    Move {
        source: m.source,
        dest: m.dest,
        promotion: if m.promotion is Some {
            Some(Piece::Queen)
        } else {
            None
        },
    }
}

/// The law of putting a legal move first: over the legal moves `ms`, after
/// `set_first_mask(Some(m))` with `m` one of them and the full board among
/// the phase masks, calling `next` until it returns `None` ends, produces
/// `m` first (its promotion to a queen, for a promotion), and produces every
/// legal move exactly once and nothing else.
/// When the piece on `m`'s square has a single entry, the first entry on
/// that square stands for `m`.
#[verifier::rlimit(40)]
proof fn lemma_first_entry_holds(ms: Seq<Move>, eps: Seq<bool>, m: Move)
    requires
        generator_list(ms),
        marks_consistent(ms, eps),
        ms.contains(m),
        single_entry(ms, eps, m.source),
    ensures
        find_square(move_entries(ms, eps), m.source) < move_entries(ms, eps).len(),
        entry_move(move_entries(ms, eps)[find_square(move_entries(ms, eps), m.source)], m),
{
    assert forall|i: int| 0 <= i < ms.len() implies move_on_board(#[trigger] ms[i]) by {
        assert(crate::board::generator_move(ms[i]));
    }
    lemma_keyed_facts(ms, eps);
    lemma_entry_squares(ms, eps);
    lemma_held_generated(ms, eps);
    let g = move_entries(ms, eps);
    let vg = group_moves(keyed_moves(ms, eps));
    let i0 = choose|i: int| 0 <= i < ms.len() && ms[i] == m;
    assert(held_move(g, m));
    let k0 = choose|k: int| 0 <= k < g.len() && entry_move(#[trigger] g[k], m);
    lemma_entry_provenance(ms, eps, k0);
    lemma_find_square(g, m.source);
    let k = find_square(g, m.source);
    assert(k == k0) by {
        if k != k0 {
            assert(k < g.len());
            lemma_entry_provenance(ms, eps, k);
            let i1 = choose|i: int|
                0 <= i < ms.len() && ms[i].source == g[k].square && eps[i] == (vg[k].square >= 64);
            let i2 = choose|i: int|
                0 <= i < ms.len() && ms[i].source == g[k0].square && eps[i] == (vg[k0].square >= 64);
            assert(eps[i1] == eps[i2]);
            assert(g[k] == board_entry(vg[k]));
            assert(g[k0] == board_entry(vg[k0]));
            assert(vg[k].square < 128 && vg[k0].square < 128);
            assert(vg[k].square == vg[k0].square);
        }
    }
}

#[verifier::rlimit(60)]
#[verifier::spinoff_prover]
pub proof fn lemma_legal_run_first_move(ms: Seq<Move>, eps: Seq<bool>, masks: Seq<u64>, m: Move)
    requires
        generator_list(ms),
        marks_consistent(ms, eps),
        masks.contains(ALL_SQUARES_MASK),
        ms.contains(m),
        single_entry(ms, eps, m.source),
    ensures
        ({
            let s2 = first_move_state(initial_state(ms, eps, masks), m);
            let n = ms.to_set().len() + 1;
            &&& ends_within(s2, n)
            &&& run(s2, n).no_duplicates()
            &&& run(s2, n).len() == ms.to_set().len()
            &&& forall|x: Move| #[trigger] run(s2, n).contains(x) <==> ms.contains(x)
            &&& run(s2, n)[0] == first_produced(m)
        }),
{
    lemma_initial_state(ms, eps, masks);
    lemma_held_generated(ms, eps);
    let s = initial_state(ms, eps, masks);
    let s2 = first_move_state(s, m);
    lemma_first_entry_holds(ms, eps, m);
    let k = find_square(s.moves, m.source);
    lemma_find_square(s.moves, m.source);
    lemma_first_move_comes_first(s, m);
    let dest = m.dest as u64;
    let bit = square_bit(dest);
    let e = s.moves[k];
    let entry = SquareAndBitBoard { square: m.source, bitboard: bit, promotion: m.promotion is Some };
    let e2 = SquareAndBitBoard { square: e.square, bitboard: e.bitboard ^ bit, promotion: e.promotion };
    let upd = s.moves.update(k, e2);
    assert(s2.moves == seq![entry] + upd);
    assert forall|x: Move| #[trigger] held_move(s2.moves, x) <==> held_move(s.moves, x) by {
        lemma_square_bit(dest, x.dest as u64);
        if x.dest < 64 {
            lemma_bit_xor(e.bitboard, dest, x.dest as u64);
        }
        if held_move(s2.moves, x) {
            let i = choose|i: int| 0 <= i < s2.moves.len() && entry_move(#[trigger] s2.moves[i], x);
            if i == 0 {
                assert(entry_move(e, x));
            } else if i - 1 == k {
                assert(s2.moves[i] == e2);
                assert(entry_move(e, x));
            } else {
                assert(s2.moves[i] == s.moves[i - 1]);
                assert(entry_move(s.moves[i - 1], x));
            }
        }
        if held_move(s.moves, x) {
            let i = choose|i: int| 0 <= i < s.moves.len() && entry_move(#[trigger] s.moves[i], x);
            if i == k && x.dest as u64 == dest {
                assert(s2.moves[0] == entry);
                assert(entry_move(s2.moves[0], x));
            } else if i == k {
                assert(s2.moves[i + 1] == e2);
                assert(entry_move(s2.moves[i + 1], x));
            } else {
                assert(s2.moves[i + 1] == s.moves[i]);
                assert(entry_move(s2.moves[i + 1], x));
            }
        }
    }
    assert(bit != ALL_SQUARES_MASK) by (bit_vector)
        requires
            dest < 64,
            bit == 1u64 << dest,
    ;
    let i = choose|i: int| 0 <= i < masks.len() && masks[i] == ALL_SQUARES_MASK;
    assert(s2.masks[i + 1] == ALL_SQUARES_MASK);
    assert(full_phase_ahead(s2));
    assert(run_ready(s2));
    assert(to_come(s2) =~= ms.to_set());
    lemma_run(s2);
    assert(step(s2).0 == Some(first_produced(m)));
    let n = ms.to_set().len() + 1;
    assert(run(s2, n)[0] == first_produced(m));
}

/// The whole run of `next` from a ready state, up to its `None`.
pub open spec fn full_run(s: IterState) -> Seq<Move> {
    run(s, to_come(s).len() + 1)
}

/// A run from a ready state that produces a move goes on as the run from
/// the state that move leaves.
proof fn lemma_full_run_unfold(s: IterState)
    requires
        run_ready(s),
        step(s).0 is Some,
    ensures
        run_ready(step(s).1),
        full_run(s) == seq![step(s).0->0] + full_run(step(s).1),
        full_run(s).len() == full_run(step(s).1).len() + 1,
{
    lemma_run_step(s);
    let s2 = step(s).1;
    lemma_held_finite(s.moves, to_come(s));
    lemma_held_finite(s2.moves, to_come(s2));
    assert(to_come(s2).len() + 1 == to_come(s).len());
    lemma_run(s2);
}

/// The promotion that follows `p` (queen, knight, rook, bishop).
pub open spec fn next_promotion(m: Move) -> Move {
    Move {
        source: m.source,
        dest: m.dest,
        promotion: Some(promotion_piece(promotion_rank(m.promotion->0) + 1)),
    }
}

/// A promotion other than to a bishop is followed at once by the
/// promotion of the same pawn move to the next piece.
proof fn lemma_step_promotion(s: IterState)
    requires
        step(s).0 matches Some(x) && (x.promotion matches Some(p) && promotion_rank(p) < 3),
    ensures
        step(step(s).1).0 == Some(next_promotion(step(s).0->0)),
    decreases s.masks.len() - s.mask_index,
{
    if !active(s) {
        let s1 = IterState {
            moves: s.moves,
            index: s.index,
            mask_index: s.mask_index + 1,
            promotion_index: s.promotion_index,
            mask: s.mask,
            masks: s.masks,
        };
        let s3 = with_mask(s1, s.masks[s1.mask_index]);
        assert(step(s) == step(s3));
        lemma_step_promotion(s3);
    } else {
        let e = s.moves[s.index];
        let pi = s.promotion_index;
        assert(e.promotion);
        assert(pi + 1 < 4);
        assert(0 <= pi);
        let s2 = step(s).1;
        assert(active(s2));
        assert(promotion_rank(promotion_piece(pi)) == pi);
    }
}

/// In a run from a ready state, each promotion to a queen, knight or rook
/// is followed at once by the same pawn move's promotion to the next piece:
/// the four promotions of a pawn move come together, in the order queen,
/// knight, rook, bishop.
pub proof fn lemma_promotions_consecutive(s: IterState, k: int)
    requires
        run_ready(s),
        0 <= k < full_run(s).len(),
        full_run(s)[k].promotion matches Some(p) && promotion_rank(p) < 3,
    ensures
        k + 1 < full_run(s).len(),
        full_run(s)[k + 1] == next_promotion(full_run(s)[k]),
    decreases k,
{
    lemma_held_finite(s.moves, to_come(s));
    if step(s).0 is None {
        lemma_run(s);
        assert(full_run(s) =~= Seq::<Move>::empty());
    } else {
        lemma_full_run_unfold(s);
        let s2 = step(s).1;
        if k == 0 {
            lemma_step_promotion(s);
            lemma_full_run_unfold(s2);
        } else {
            lemma_promotions_consecutive(s2, k - 1);
        }
    }
}

/// The first phase whose mask holds the square `d` (the number of phases
/// when none does).
pub open spec fn first_phase(masks: Seq<u64>, d: u64) -> int
    decreases masks.len(),
{
    if masks.len() == 0 {
        0
    } else if has_bit(masks[0], d) {
        0
    } else {
        1 + first_phase(masks.drop_first(), d)
    }
}

/// Phase numbers are not negative.
pub proof fn lemma_first_phase_nonnegative(masks: Seq<u64>, d: u64)
    ensures
        first_phase(masks, d) >= 0,
    decreases masks.len(),
{
    if masks.len() > 0 && !has_bit(masks[0], d) {
        lemma_first_phase_nonnegative(masks.drop_first(), d);
    }
}

proof fn lemma_first_phase_at(masks: Seq<u64>, d: u64, p: int)
    requires
        0 <= p < masks.len(),
        has_bit(masks[p], d),
        forall|q: int| 0 <= q < p ==> !has_bit(#[trigger] masks[q], d),
    ensures
        first_phase(masks, d) == p,
    decreases p,
{
    if p > 0 {
        assert(!has_bit(masks[0], d));
        assert forall|q: int| 0 <= q < p - 1 implies !has_bit(#[trigger] masks.drop_first()[q], d) by {
            assert(masks.drop_first()[q] == masks[q + 1]);
        }
        lemma_first_phase_at(masks.drop_first(), d, p - 1);
    }
}

/// No move still held lands in the mask of a phase already done.
pub open spec fn earlier_phases_done(s: IterState) -> bool {
    forall|q: int, sq: u8, d: u64|
        #![trigger pending(s.moves, sq, d), s.masks[q]]
        0 <= q < s.mask_index && q < s.masks.len() && pending(s.moves, sq, d) ==> !has_bit(
            s.masks[q],
            d,
        )
}

/// A state whose phases are kept in order, as after `set_first_mask(None)`.
pub open spec fn ordered_state(s: IterState) -> bool {
    &&& wf(s)
    &&& no_shared_moves(s.moves)
    &&& synced(s)
    &&& phase_ordered(s)
    &&& promotion_in_step(s)
    &&& earlier_phases_done(s)
}

/// The square `d` lies in the mask of the current phase or of a later one.
pub open spec fn in_later_mask(s: IterState, d: u64) -> bool {
    exists|q: int| s.mask_index <= q < s.masks.len() && has_bit(#[trigger] s.masks[q], d)
}

/// The moves still to come that land in the mask of the current phase or
/// of a later one.
pub open spec fn to_reach(s: IterState) -> Set<Move> {
    Set::new(|m: Move| to_come(s).contains(m) && in_later_mask(s, m.dest as u64))
}

/// With the entries in order for the phase and none left to work on, no
/// held move lands in the current mask.
proof fn lemma_no_pending_in_mask(s: IterState)
    requires
        phase_ordered(s),
        !active(s),
        0 <= s.index <= s.moves.len(),
    ensures
        forall|sq: u8, d: u64| #[trigger] pending(s.moves, sq, d) ==> !has_bit(s.mask, d),
{
    assert forall|sq: u8, d: u64| #[trigger] pending(s.moves, sq, d) implies !has_bit(s.mask, d) by {
        if has_bit(s.mask, d) {
            let k = choose|k: int|
                0 <= k < s.moves.len() && #[trigger] s.moves[k].square == sq && has_bit(
                    s.moves[k].bitboard,
                    d,
                );
            lemma_bit_and(s.moves[k].bitboard, s.mask, d);
            lemma_empty_iff_no_bits(s.moves[k].bitboard & s.mask);
            if k >= s.index && k != s.index {
                assert(entry_hits(s.moves[k], s.mask) ==> entry_hits(s.moves[s.index], s.mask));
            }
            assert(!entry_hits(s.moves[k], s.mask));
        }
    }
}

/// Moving on to the next phase from an ordered state keeps it ordered,
/// with the same moves to reach.
proof fn lemma_phase_change_ordered(s: IterState)
    requires
        ordered_state(s),
        !active(s),
        s.mask_index + 1 < s.masks.len(),
    ensures
        ({
            let s1 = IterState {
                moves: s.moves,
                index: s.index,
                mask_index: s.mask_index + 1,
                promotion_index: s.promotion_index,
                mask: s.mask,
                masks: s.masks,
            };
            let s3 = with_mask(s1, s.masks[s.mask_index + 1]);
            &&& ordered_state(s3)
            &&& to_reach(s3) == to_reach(s)
            &&& step(s) == step(s3)
            &&& s3.masks == s.masks
            &&& s3.mask_index == s.mask_index + 1
        }),
{
    let s1 = IterState {
        moves: s.moves,
        index: s.index,
        mask_index: s.mask_index + 1,
        promotion_index: s.promotion_index,
        mask: s.mask,
        masks: s.masks,
    };
    let mask = s.masks[s1.mask_index];
    let s3 = with_mask(s1, mask);
    lemma_with_mask(s1, mask);
    lemma_partition_props(s.moves, mask);
    lemma_held_same_members(s.moves, s3.moves);
    lemma_no_pending_in_mask(s);
    assert forall|k: int| 0 <= k < s3.moves.len() implies #[trigger] s3.moves[k].square < 64 by {
        assert(s3.moves.contains(s3.moves[k]));
        let i = choose|i: int| 0 <= i < s.moves.len() && s.moves[i] == s3.moves[k];
        assert(s.moves[i].square < 64);
    }
    assert(s.promotion_index == 0);
    assert forall|q: int, sq: u8, d: u64|
        #![trigger pending(s3.moves, sq, d), s3.masks[q]]
        0 <= q < s3.mask_index && q < s3.masks.len() && pending(s3.moves, sq, d) implies !has_bit(
        s3.masks[q],
        d,
    ) by {
        assert(pending(s.moves, sq, d));
    }
    assert(ordered_state(s3));
    assert(to_come(s3) =~= to_come(s));
    assert forall|m: Move| #[trigger] to_reach(s3).contains(m) <==> to_reach(s).contains(m) by {
        if to_reach(s).contains(m) {
            let q = choose|q: int| s.mask_index <= q < s.masks.len() && has_bit(#[trigger] s.masks[q], m.dest as u64);
            if q == s.mask_index {
                let k = choose|k: int| 0 <= k < s.moves.len() && entry_move(#[trigger] s.moves[k], m);
                assert(pending(s.moves, m.source, m.dest as u64));
            }
            assert(has_bit(s3.masks[q], m.dest as u64));
        }
        if to_reach(s3).contains(m) {
            let q = choose|q: int| s3.mask_index <= q < s3.masks.len() && has_bit(#[trigger] s3.masks[q], m.dest as u64);
            assert(has_bit(s.masks[q], m.dest as u64));
        }
    }
    assert(to_reach(s3) =~= to_reach(s));
    assert(step(s) == step(s3));
}

/// One call of `next` from an ordered state: it either ends, with nothing
/// left to reach, or produces a move to reach, of the phase it is produced
/// in (the first whose mask holds its destination), and leaves an ordered
/// state of the same or a later phase with exactly the other moves to reach.
proof fn lemma_ordered_step(s: IterState)
    requires
        ordered_state(s),
    ensures
        step(s).0 is None ==> to_reach(s) == Set::<Move>::empty(),
        step(s).0 matches Some(m) ==> {
            let s2 = step(s).1;
            &&& ordered_state(s2)
            &&& s2.masks == s.masks
            &&& s.mask_index <= s2.mask_index
            &&& first_phase(s.masks, m.dest as u64) == s2.mask_index
            &&& !to_reach(s2).contains(m)
            &&& to_reach(s) == to_reach(s2).insert(m)
        },
    decreases s.masks.len() - s.mask_index,
{
    if !active(s) {
        if s.mask_index + 1 >= s.masks.len() {
            lemma_no_pending_in_mask(s);
            assert forall|m: Move| !#[trigger] to_reach(s).contains(m) by {
                if to_reach(s).contains(m) {
                    let q = choose|q: int| s.mask_index <= q < s.masks.len() && has_bit(#[trigger] s.masks[q], m.dest as u64);
                    let k = choose|k: int| 0 <= k < s.moves.len() && entry_move(#[trigger] s.moves[k], m);
                    assert(pending(s.moves, m.source, m.dest as u64));
                    assert(q == s.mask_index);
                }
            }
            assert(to_reach(s) =~= Set::<Move>::empty());
        } else {
            let s3 = with_mask(
                IterState {
                    moves: s.moves,
                    index: s.index,
                    mask_index: s.mask_index + 1,
                    promotion_index: s.promotion_index,
                    mask: s.mask,
                    masks: s.masks,
                },
                s.masks[s.mask_index + 1],
            );
            lemma_phase_change_ordered(s);
            lemma_ordered_step(s3);
        }
    } else {
        lemma_produce_step(s);
        let m = step(s).0->0;
        let s2 = step(s).1;
        let d = m.dest as u64;
        assert forall|q: int, sq: u8, d2: u64|
            #![trigger pending(s2.moves, sq, d2), s2.masks[q]]
            0 <= q < s2.mask_index && q < s2.masks.len() && pending(s2.moves, sq, d2) implies !has_bit(
            s2.masks[q],
            d2,
        ) by {
            assert(pending(s.moves, sq, d2));
        }
        assert forall|q: int| 0 <= q < s.mask_index implies !has_bit(#[trigger] s.masks[q], d) by {
            assert(pending(s.moves, m.source, d));
        }
        lemma_first_phase_at(s.masks, d, s.mask_index);
        assert(in_later_mask(s, d)) by {
            assert(has_bit(s.masks[s.mask_index], d));
        }
        assert forall|x: Move| #[trigger] to_reach(s).contains(x) <==> (to_reach(s2).contains(x) || x
            == m) by {
            assert(to_come(s).contains(x) <==> (to_come(s2).contains(x) || x == m));
        }
        assert(to_reach(s) =~= to_reach(s2).insert(m));
    }
}

/// The whole run of `next` from an ordered state (as after
/// `set_first_mask(None)`): it ends within one call more than there are
/// moves to reach, produces each of them exactly once and nothing else, and
/// produces them phase by phase: the first phase whose mask holds a move's
/// destination never goes down along the run.
pub proof fn lemma_run_ordered(s: IterState)
    requires
        ordered_state(s),
    ensures
        ({
            let n = to_reach(s).len() + 1;
            let r = run(s, n);
            &&& to_reach(s).finite()
            &&& ends_within(s, n)
            &&& r.no_duplicates()
            &&& r.len() == to_reach(s).len()
            &&& forall|m: Move| #[trigger] r.contains(m) <==> to_reach(s).contains(m)
            &&& forall|i: int|
                0 <= i < r.len() ==> s.mask_index <= first_phase(s.masks, (#[trigger] r[i]).dest as u64)
            &&& forall|i: int, j: int|
                0 <= i < j < r.len() ==> first_phase(s.masks, (#[trigger] r[i]).dest as u64)
                    <= first_phase(s.masks, (#[trigger] r[j]).dest as u64)
        }),
    decreases to_reach(s).len(),
{
    assert forall|m: Move| #[trigger] to_reach(s).contains(m) implies held_move(s.moves, m) by {}
    lemma_held_finite(s.moves, to_reach(s));
    lemma_ordered_step(s);
    let n = to_reach(s).len() + 1;
    if step(s).0 is None {
        assert(run(s, n) =~= Seq::<Move>::empty());
    } else {
        let m = step(s).0->0;
        let s2 = step(s).1;
        assert forall|x: Move| #[trigger] to_reach(s2).contains(x) implies held_move(s2.moves, x) by {}
        lemma_held_finite(s2.moves, to_reach(s2));
        assert(to_reach(s2).len() + 1 == to_reach(s).len());
        lemma_run_ordered(s2);
        let r2 = run(s2, to_reach(s2).len() + 1);
        let r = run(s, n);
        assert(r == seq![m] + r2);
        assert forall|i: int, j: int| 0 <= i < j < r.len() implies r[i] != r[j] by {
            if i == 0 {
                let y = r2[j - 1];
                assert(r[j] == y);
                assert(r2.contains(y));
                assert(to_reach(s2).contains(y));
            } else {
                assert(r[i] == r2[i - 1] && r[j] == r2[j - 1]);
            }
        }
        assert forall|x: Move| #[trigger] r.contains(x) <==> to_reach(s).contains(x) by {
            if r.contains(x) {
                let i = choose|i: int| 0 <= i < r.len() && r[i] == x;
                if i > 0 {
                    assert(r2[i - 1] == x);
                    assert(r2.contains(x));
                } else {
                    assert(x == m);
                }
            }
            if to_reach(s).contains(x) && x != m {
                assert(r2.contains(x));
                let i = choose|i: int| 0 <= i < r2.len() && r2[i] == x;
                assert(r[i + 1] == x);
            }
            if x == m {
                assert(r[0] == m);
            }
        }
        assert forall|i: int| 0 <= i < r.len() implies s.mask_index <= first_phase(
            s.masks,
            (#[trigger] r[i]).dest as u64,
        ) by {
            if i > 0 {
                assert(r[i] == r2[i - 1]);
            }
        }
        assert forall|i: int, j: int| 0 <= i < j < r.len() implies first_phase(
            s.masks,
            (#[trigger] r[i]).dest as u64,
        ) <= first_phase(s.masks, (#[trigger] r[j]).dest as u64) by {
            assert(r[j] == r2[j - 1]);
            if i > 0 {
                assert(r[i] == r2[i - 1]);
            }
        }
    }
}

/// The square `d` lies in one of the masks.
pub open spec fn in_some_mask(masks: Seq<u64>, d: u64) -> bool {
    exists|q: int| 0 <= q < masks.len() && has_bit(#[trigger] masks[q], d)
}

/// The moves of `ms` whose destination lies in one of the masks.
pub open spec fn reachable_moves(ms: Seq<Move>, masks: Seq<u64>) -> Set<Move> {
    Set::new(|m: Move| ms.contains(m) && in_some_mask(masks, m.dest as u64))
}

/// The law of a search's iterator run: over the legal moves `ms` of a
/// position, after `set_first_mask(None)` with any non-empty list of phase
/// masks, calling `next` until it returns `None` ends; it produces, once
/// each, exactly the legal moves whose destination lies in some mask, and
/// nothing else; and it produces them phase by phase: the first mask a
/// move's destination lies in never goes down along the run, so moves into
/// the first mask (the captures, in a search) come before all others.
pub proof fn lemma_legal_run(ms: Seq<Move>, eps: Seq<bool>, masks: Seq<u64>)
    requires
        generator_list(ms),
        marks_consistent(ms, eps),
        masks.len() > 0,
    ensures
        ({
            let s2 = with_mask(initial_state(ms, eps, masks), masks[0]);
            let n = reachable_moves(ms, masks).len() + 1;
            let r = run(s2, n);
            &&& ends_within(s2, n)
            &&& r.no_duplicates()
            &&& r.len() == reachable_moves(ms, masks).len()
            &&& forall|m: Move| #[trigger] r.contains(m) <==> ms.contains(m) && in_some_mask(masks, m.dest as u64)
            &&& forall|i: int, j: int|
                0 <= i < j < r.len() ==> first_phase(masks, (#[trigger] r[i]).dest as u64) <= first_phase(
                    masks,
                    (#[trigger] r[j]).dest as u64,
                )
        }),
{
    lemma_initial_state(ms, eps, masks);
    let s = initial_state(ms, eps, masks);
    let s2 = with_mask(s, masks[0]);
    lemma_with_mask(s, masks[0]);
    lemma_partition_props(s.moves, masks[0]);
    lemma_held_same_members(s.moves, s2.moves);
    assert forall|k: int| 0 <= k < s2.moves.len() implies #[trigger] s2.moves[k].square < 64 by {
        assert(s2.moves.contains(s2.moves[k]));
        let i = choose|i: int| 0 <= i < s.moves.len() && s.moves[i] == s2.moves[k];
        assert(s.moves[i].square < 64);
    }
    assert(ordered_state(s2));
    assert forall|m: Move| #[trigger] to_reach(s2).contains(m) <==> reachable_moves(ms, masks).contains(m) by {
        assert(held_moves(s.moves).contains(m) == ms.to_set().contains(m));
        if in_some_mask(masks, m.dest as u64) {
            let q = choose|q: int| 0 <= q < masks.len() && has_bit(#[trigger] masks[q], m.dest as u64);
            assert(has_bit(s2.masks[q], m.dest as u64));
        }
        if in_later_mask(s2, m.dest as u64) {
            let q = choose|q: int| s2.mask_index <= q < s2.masks.len() && has_bit(#[trigger] s2.masks[q], m.dest as u64);
            assert(has_bit(masks[q], m.dest as u64));
        }
    }
    assert(to_reach(s2) =~= reachable_moves(ms, masks));
    lemma_run_ordered(s2);
}

/// With the full board among the masks, the run after
/// `set_first_mask(None)` produces every legal move exactly once.
pub proof fn lemma_legal_run_full_board(ms: Seq<Move>, eps: Seq<bool>, masks: Seq<u64>)
    requires
        generator_list(ms),
        marks_consistent(ms, eps),
        masks.contains(ALL_SQUARES_MASK),
    ensures
        reachable_moves(ms, masks) == ms.to_set(),
        ({
            let s2 = with_mask(initial_state(ms, eps, masks), masks[0]);
            let n = ms.to_set().len() + 1;
            &&& ends_within(s2, n)
            &&& run(s2, n).no_duplicates()
            &&& forall|m: Move| #[trigger] run(s2, n).contains(m) <==> ms.contains(m)
        }),
{
    let q = choose|q: int| 0 <= q < masks.len() && masks[q] == ALL_SQUARES_MASK;
    assert forall|m: Move| #[trigger] reachable_moves(ms, masks).contains(m) <==> ms.to_set().contains(m) by {
        if ms.contains(m) {
            let i = choose|i: int| 0 <= i < ms.len() && ms[i] == m;
            assert(crate::board::generator_move(ms[i]));
            let d = m.dest as u64;
            assert((0xffff_ffff_ffff_ffffu64 >> d) & 1u64 == 1u64) by (bit_vector)
                requires
                    d < 64,
            ;
            assert(has_bit(masks[q], d));
        }
    }
    assert(reachable_moves(ms, masks) =~= ms.to_set());
    lemma_legal_run(ms, eps, masks);
    assert forall|m: Move| ms.contains(m) implies #[trigger] in_some_mask(masks, m.dest as u64) by {
        assert(ms.to_set().contains(m));
        assert(reachable_moves(ms, masks).contains(m));
    }
}

/// The moves an entry stands for that go to a square below `n`.
spec fn entry_moves_below(e: SquareAndBitBoard, n: nat) -> Set<Move> {
    Set::new(|m: Move| entry_move(e, m) && (m.dest as nat) < n)
}

/// The moves an entry stands for that go to the square `d`.
spec fn entry_moves_at(e: SquareAndBitBoard, d: nat) -> Set<Move> {
    Set::new(|m: Move| entry_move(e, m) && m.dest as nat == d)
}

/// A destination of an entry stands for four moves when the entry promotes
/// (one per promotion piece) and one otherwise.
proof fn lemma_entry_moves_at(e: SquareAndBitBoard, d: nat)
    requires
        d < 64,
    ensures
        entry_moves_at(e, d).finite(),
        entry_moves_at(e, d).len() == (if has_bit(e.bitboard, d as u64) {
            if e.promotion {
                4nat
            } else {
                1nat
            }
        } else {
            0nat
        }),
{
    let t = entry_moves_at(e, d);
    if !has_bit(e.bitboard, d as u64) {
        assert(t =~= Set::<Move>::empty());
    } else if e.promotion {
        let mq = Move { source: e.square, dest: d as u8, promotion: Some(Piece::Queen) };
        let mn = Move { source: e.square, dest: d as u8, promotion: Some(Piece::Knight) };
        let mr = Move { source: e.square, dest: d as u8, promotion: Some(Piece::Rook) };
        let mb = Move { source: e.square, dest: d as u8, promotion: Some(Piece::Bishop) };
        assert(t =~= Set::<Move>::empty().insert(mq).insert(mn).insert(mr).insert(mb));
        assert(Set::<Move>::empty().insert(mq).insert(mn).insert(mr).insert(mb).len() == 4);
    } else {
        let m0 = Move { source: e.square, dest: d as u8, promotion: None };
        assert(t =~= Set::<Move>::empty().insert(m0));
    }
}

/// The moves of an entry below square `n` number one per destination
/// below `n`, or four per destination for a promoting entry.
proof fn lemma_entry_moves_below(e: SquareAndBitBoard, n: nat)
    requires
        n <= 64,
    ensures
        entry_moves_below(e, n).finite(),
        e.promotion ==> entry_moves_below(e, n).len() == 4 * crate::bits::bit_count(e.bitboard, n),
        !e.promotion ==> entry_moves_below(e, n).len() == crate::bits::bit_count(e.bitboard, n),
    decreases n,
{
    if n == 0 {
        assert(entry_moves_below(e, n) =~= Set::<Move>::empty());
    } else {
        let k = (n - 1) as nat;
        lemma_entry_moves_below(e, k);
        lemma_entry_moves_at(e, k);
        let a = entry_moves_below(e, k);
        let b = entry_moves_at(e, k);
        assert(entry_moves_below(e, n) =~= a + b);
        assert(a.disjoint(b));
        vstd::set_lib::lemma_set_disjoint_lens(a, b);
    }
}

/// The moves an entry stands for.
spec fn entry_move_set(e: SquareAndBitBoard) -> Set<Move> {
    Set::new(|m: Move| entry_move(e, m))
}

/// The moves an entry stands for number as `entry_moves` counts them.
proof fn lemma_entry_move_set(e: SquareAndBitBoard)
    ensures
        entry_move_set(e).finite(),
        entry_move_set(e).len() == crate::moveiterator::entry_moves(e),
{
    lemma_entry_moves_below(e, 64);
    assert(entry_move_set(e) =~= entry_moves_below(e, 64));
}

/// What `len_all_moves` counts is the number of distinct moves the entries
/// stand for: one per destination, and one per promotion piece (four) for
/// each destination of a promoting pawn; no move is counted twice.
pub proof fn lemma_total_moves_counts_held(moves: Seq<SquareAndBitBoard>)
    requires
        no_shared_moves(moves),
    ensures
        held_moves(moves).finite(),
        held_moves(moves).len() == total_moves(moves),
    decreases moves.len(),
{
    if moves.len() == 0 {
        assert(held_moves(moves) =~= Set::<Move>::empty());
    } else {
        let m0 = moves.drop_last();
        let e = moves.last();
        assert forall|k1: int, k2: int|
            0 <= k1 < m0.len() && 0 <= k2 < m0.len() && k1 != k2 implies entries_disjoint(
            #[trigger] m0[k1],
            #[trigger] m0[k2],
        ) by {
            assert(m0[k1] == moves[k1] && m0[k2] == moves[k2]);
        }
        lemma_total_moves_counts_held(m0);
        lemma_entry_move_set(e);
        let a = held_moves(m0);
        let b = entry_move_set(e);
        assert forall|x: Move| #[trigger] held_moves(moves).contains(x) <==> (a.contains(x) || b.contains(x)) by {
            if held_move(moves, x) {
                let k = choose|k: int| 0 <= k < moves.len() && entry_move(#[trigger] moves[k], x);
                if k < m0.len() {
                    assert(m0[k] == moves[k]);
                    assert(held_move(m0, x));
                }
            }
            if a.contains(x) {
                let k = choose|k: int| 0 <= k < m0.len() && entry_move(#[trigger] m0[k], x);
                assert(moves[k] == m0[k]);
                assert(entry_move(moves[k], x));
            }
            if b.contains(x) {
                assert(entry_move(moves[moves.len() - 1], x));
            }
        }
        assert(held_moves(moves) =~= a + b);
        assert forall|x: Move| !(a.contains(x) && #[trigger] b.contains(x)) by {
            if a.contains(x) && b.contains(x) {
                let k = choose|k: int| 0 <= k < m0.len() && entry_move(#[trigger] m0[k], x);
                let j = moves.len() - 1;
                assert(moves[k] == m0[k]);
                assert(entries_disjoint(moves[k], moves[j]));
                let d = x.dest as u64;
                lemma_bit_and(moves[k].bitboard, moves[j].bitboard, d);
                lemma_empty_iff_no_bits(moves[k].bitboard & moves[j].bitboard);
            }
        }
        assert(a.disjoint(b));
        vstd::set_lib::lemma_set_disjoint_lens(a, b);
        assert(total_moves(moves) == total_moves(m0) + crate::moveiterator::entry_moves(e));
    }
}

/// The count `len_all_moves` gives for a search's fresh iterator is the
/// number of moves a full run of `next` produces after
/// `set_first_mask(None)`: every legal move once, with each promotion
/// piece a move of its own.
pub proof fn lemma_len_all_moves_is_run_length(ms: Seq<Move>, eps: Seq<bool>, masks: Seq<u64>)
    requires
        generator_list(ms),
        marks_consistent(ms, eps),
        masks.contains(ALL_SQUARES_MASK),
    ensures
        ({
            let s = initial_state(ms, eps, masks);
            let s2 = with_mask(s, masks[0]);
            let n = ms.to_set().len() + 1;
            &&& total_moves(s.moves) == run(s2, n).len()
            &&& total_moves(s.moves) == ms.to_set().len()
        }),
{
    lemma_initial_state(ms, eps, masks);
    let s = initial_state(ms, eps, masks);
    lemma_total_moves_counts_held(s.moves);
    lemma_legal_run_full_board(ms, eps, masks);
    lemma_legal_run(ms, eps, masks);
}

} // verus!
