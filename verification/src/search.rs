//! The rules of the negamax search that do not depend on the values it
//! compares: how moves are ordered, how deep a child is searched, what a
//! transposition-table entry permits, what bound a result is, and how the
//! table is kept within its capacity.
use vstd::prelude::*;
use std::collections::{HashMap, VecDeque};
use crate::types::{Color, Flag};
use crate::board::{color_combined, side_to_move, generated_moves, pieces_of, side_to_move_of, generator_list};
use crate::moveiterator::{MoveIterator, initial_state, wf, total_moves, ALL_SQUARES_MASK, en_passant_marks};
use crate::iterator_laws::{pending, listed, no_shared_moves};
use crate::iterator_run::{
    run, ends_within, lemma_legal_run, lemma_legal_run_full_board, first_phase,
    lemma_first_phase_nonnegative,
};
use crate::moveiterator::{with_mask, marks_consistent};
use crate::bits::has_bit;
use crate::types::Move;

verus! {

/// The phase number of captures in a search's move iterator.
pub const ATTACK_MOVES_MASK_INDEX: usize = 0;

/// The phase number of all remaining moves in a search's move iterator.
pub const EMPTY_MOVES_MASK_INDEX: usize = 1;

/// The phase masks of a search on `board`: first the squares of the pieces
/// of the side not to move (captures), then every square.
pub open spec fn search_masks(board: chess::Board) -> Seq<u64> {
    seq![pieces_of(board, side_to_move_of(board).spec_opponent()), ALL_SQUARES_MASK]
}

/// The move iterator a search uses on `board`: the legal moves, captures
/// first.
pub fn captures_first(board: &chess::Board) -> (r: MoveIterator)
    ensures
        r@ == initial_state(
            generated_moves(*board),
            en_passant_marks(*board, generated_moves(*board)),
            search_masks(*board),
        ),
        wf(r@),
        no_shared_moves(r@.moves),
        forall|sq: u8, d: u64| #[trigger]
            pending(r@.moves, sq, d) <==> listed(generated_moves(*board), sq, d),
        total_moves(r@.moves) <= 32768,
        generator_list(generated_moves(*board)),
        r@.masks.len() == 2,
        forall|c: Color| c != side_to_move_of(*board) ==> r@.masks[0] == #[trigger] pieces_of(*board, c),
        r@.masks[1] == 0xffff_ffff_ffff_ffffu64,
{
    let side = side_to_move(board);
    let target_mask = color_combined(board, side.opponent());
    let mut masks: Vec<u64> = Vec::new();
    masks.push(target_mask);
    masks.push(ALL_SQUARES_MASK);
    proof {
        assert(masks@ =~= search_masks(*board));
    }
    MoveIterator::new_legal(board, masks)
}

/// The capture phase of a search is the squares of the other side's
/// pieces: whichever side is to move, the first phase mask is the pieces of
/// the side that is not, and the second is the whole board.
pub proof fn lemma_search_masks(board: chess::Board)
    ensures
        search_masks(board).len() == 2,
        forall|c: Color|
            c != side_to_move_of(board) ==> search_masks(board)[0] == #[trigger] pieces_of(board, c),
        search_masks(board)[1] == 0xffff_ffff_ffff_ffffu64,
{
    assert forall|c: Color| c != side_to_move_of(board) implies search_masks(board)[0]
        == #[trigger] pieces_of(board, c) by {
        match side_to_move_of(board) {
            Color::White => assert(c == Color::Black),
            Color::Black => assert(c == Color::White),
        }
    }
}

/// The search's move order: over the legal moves of `board`, after
/// `set_first_mask(None)`, calling `next` until it returns `None` ends and
/// produces every legal move exactly once, and every capture of a piece of
/// the side not to move comes before every move that captures none.
pub proof fn lemma_search_captures_first(board: chess::Board)
    requires
        generator_list(generated_moves(board)),
    ensures
        ({
            let ms = generated_moves(board);
            let masks = search_masks(board);
            let s2 = with_mask(initial_state(ms, en_passant_marks(board, ms), masks), masks[0]);
            let n = ms.to_set().len() + 1;
            let r = run(s2, n);
            &&& ends_within(s2, n)
            &&& r.no_duplicates()
            &&& forall|m: Move| #[trigger] r.contains(m) <==> ms.contains(m)
            &&& forall|i: int, j: int, c: Color|
                0 <= i < j < r.len() && c != side_to_move_of(board) && has_bit(
                    #[trigger] pieces_of(board, c),
                    (#[trigger] r[j]).dest as u64,
                ) ==> has_bit(pieces_of(board, c), (#[trigger] r[i]).dest as u64)
        }),
{
    let ms = generated_moves(board);
    let eps = en_passant_marks(board, ms);
    let masks = search_masks(board);
    assert(marks_consistent(ms, eps));
    assert(masks[1] == ALL_SQUARES_MASK);
    assert(masks.contains(ALL_SQUARES_MASK));
    lemma_legal_run_full_board(ms, eps, masks);
    lemma_legal_run(ms, eps, masks);
    lemma_search_masks(board);
    let s2 = with_mask(initial_state(ms, eps, masks), masks[0]);
    let n = ms.to_set().len() + 1;
    let r = run(s2, n);
    assert forall|i: int, j: int, c: Color|
        0 <= i < j < r.len() && c != side_to_move_of(board) && has_bit(
            #[trigger] pieces_of(board, c),
            (#[trigger] r[j]).dest as u64,
        ) implies has_bit(pieces_of(board, c), (#[trigger] r[i]).dest as u64) by {
        assert(masks[0] == pieces_of(board, c));
        assert(first_phase(masks, r[j].dest as u64) == 0);
        assert(first_phase(masks, r[i].dest as u64) <= first_phase(masks, r[j].dest as u64));
        if !has_bit(masks[0], r[i].dest as u64) {
            assert(first_phase(masks, r[i].dest as u64) == 1 + first_phase(
                masks.drop_first(),
                r[i].dest as u64,
            ));
            lemma_first_phase_nonnegative(masks.drop_first(), r[i].dest as u64);
        }
    }
}

/// The depth and the deepening limit a child of a node is searched with.
/// The child of a node at depth one is searched at depth one again, when
/// the deepening limit allows it, if the node is in check or the move is a
/// capture (it came in the iterator's capture phase); otherwise one less.
/// The deepening limit always drops by one.
pub open spec fn spec_child_depths(depth: u8, max_depth: u8, in_check: bool, capture_phase: bool) -> (u8, u8) {
    (
        if depth == 1 && max_depth > 1 && (in_check || capture_phase) {
            1
        } else {
            (depth - 1) as u8
        },
        (max_depth - 1) as u8,
    )
}

/// The depth and the deepening limit for a child of a node searched at
/// `depth` with limit `max_iterative_deepening_depth`; `mask_index` is the
/// iterator's phase the move came in, and `mask_offset` is 1 when a table
/// move was put in front of the phases.
pub fn child_depths(
    depth: u8,
    max_iterative_deepening_depth: u8,
    in_check: bool,
    mask_index: usize,
    mask_offset: usize,
) -> (r: (u8, u8))
    requires
        depth >= 1,
        max_iterative_deepening_depth >= 1,
        mask_offset <= 1,
    ensures
        r == spec_child_depths(
            depth,
            max_iterative_deepening_depth,
            in_check,
            mask_index == ATTACK_MOVES_MASK_INDEX + mask_offset,
        ),
{
    let depth_to_pass = if depth == 1 && in_check && max_iterative_deepening_depth > 1 {
        1
    } else if mask_index == ATTACK_MOVES_MASK_INDEX + mask_offset && depth == 1
        && max_iterative_deepening_depth > 1 {
        1
    } else {
        depth - 1
    };
    (depth_to_pass, max_iterative_deepening_depth - 1)
}

/// A search that starts with its depth within its deepening limit keeps
/// every child within the child's limit, and the limit drops at each level:
/// the search ends, and neither count goes below zero.
pub proof fn lemma_child_depths_bounded(depth: u8, max_depth: u8, in_check: bool, capture_phase: bool)
    requires
        1 <= depth <= max_depth,
    ensures
        spec_child_depths(depth, max_depth, in_check, capture_phase).0 <= spec_child_depths(
            depth,
            max_depth,
            in_check,
            capture_phase,
        ).1,
        spec_child_depths(depth, max_depth, in_check, capture_phase).1 < max_depth,
{
}

/// Depth rules over all inputs: below depth one there is no extension, so
/// the child of a node at depth two or more is searched exactly one ply
/// shallower, in check or not, capture or not; the child of a node at depth
/// one is searched at depth one or zero, and at one only when the limit is
/// above one; the deepening limit always drops by exactly one.
pub proof fn lemma_child_depths_rules(depth: u8, max_depth: u8, in_check: bool, capture_phase: bool)
    requires
        depth >= 1,
        max_depth >= 1,
    ensures
        depth >= 2 ==> spec_child_depths(depth, max_depth, in_check, capture_phase).0 == depth - 1,
        depth == 1 ==> spec_child_depths(depth, max_depth, in_check, capture_phase).0 <= 1,
        depth == 1 && max_depth <= 1 ==> spec_child_depths(depth, max_depth, in_check, capture_phase).0
            == 0,
        depth == 1 && !in_check && !capture_phase ==> spec_child_depths(
            depth,
            max_depth,
            in_check,
            capture_phase,
        ).0 == 0,
        spec_child_depths(depth, max_depth, in_check, capture_phase).1 == max_depth - 1,
{
}

/// What a transposition-table entry found for a node permits.
#[derive(Clone, Copy, PartialEq, Eq, Structural, Debug)]
pub enum ProbeAction {
    /// The stored value is the node's value.
    ReturnStored,
    /// The stored value is a lower bound: raise alpha to it.
    RaiseAlpha,
    /// The stored value is an upper bound: lower beta to it.
    LowerBeta,
    /// The entry was searched too shallowly: only try its move first.
    OrderOnly,
}

pub open spec fn spec_probe_action(stored_depth: u8, stored_flag: Flag, depth: u8) -> ProbeAction {
    if stored_depth >= depth {
        match stored_flag {
            Flag::Exact => ProbeAction::ReturnStored,
            Flag::Lowerbound => ProbeAction::RaiseAlpha,
            Flag::Upperbound => ProbeAction::LowerBeta,
        }
    } else {
        ProbeAction::OrderOnly
    }
}

/// What an entry stored at `stored_depth` with `stored_flag` permits for a
/// node to be searched at `depth`: only an entry searched at least as deep
/// bounds the node's value.
pub fn probe_action(stored_depth: u8, stored_flag: Flag, depth: u8) -> (r: ProbeAction)
    ensures
        r == spec_probe_action(stored_depth, stored_flag, depth),
{
    if stored_depth >= depth {
        match stored_flag {
            Flag::Exact => ProbeAction::ReturnStored,
            Flag::Lowerbound => ProbeAction::RaiseAlpha,
            Flag::Upperbound => ProbeAction::LowerBeta,
        }
    } else {
        ProbeAction::OrderOnly
    }
}

/// What a table entry may be used for: an entry searched less deeply than
/// the node never bounds its value, whatever its flag, and only orders its
/// move first; an entry searched at least as deeply always bounds it, and
/// gives the node's value outright exactly when it is exact.
pub proof fn lemma_probe_depth_rule(stored_depth: u8, stored_flag: Flag, depth: u8)
    ensures
        stored_depth < depth ==> spec_probe_action(stored_depth, stored_flag, depth)
            == ProbeAction::OrderOnly,
        stored_depth >= depth ==> spec_probe_action(stored_depth, stored_flag, depth)
            != ProbeAction::OrderOnly,
        (spec_probe_action(stored_depth, stored_flag, depth) == ProbeAction::ReturnStored) <==> (
        stored_depth >= depth && stored_flag == Flag::Exact),
        (spec_probe_action(stored_depth, stored_flag, depth) == ProbeAction::RaiseAlpha) ==> stored_flag
            == Flag::Lowerbound,
        (spec_probe_action(stored_depth, stored_flag, depth) == ProbeAction::LowerBeta) ==> stored_flag
            == Flag::Upperbound,
{
}

/// The kind of bound a node's result is: at most the original alpha means
/// the search failed low (an upper bound); at least beta means it was cut
/// off (a lower bound); otherwise it is exact.
pub fn bound_flag(at_most_alpha: bool, at_least_beta: bool) -> (r: Flag)
    ensures
        r == (if at_most_alpha {
            Flag::Upperbound
        } else if at_least_beta {
            Flag::Lowerbound
        } else {
            Flag::Exact
        }),
{
    if at_most_alpha {
        Flag::Upperbound
    } else if at_least_beta {
        Flag::Lowerbound
    } else {
        Flag::Exact
    }
}

/// The removal schedule after storing the position with hash `hash`.
pub open spec fn stored_schedule(q: Seq<u64>, hash: u64, capacity: int) -> Seq<u64> {
    let q1 = q.push(hash);
    if q1.len() >= capacity - 5 {
        q1.drop_first()
    } else {
        q1
    }
}

/// The table after storing `entry` for the position with hash `hash`.
pub open spec fn stored_table<V>(t: Map<u64, V>, q: Seq<u64>, hash: u64, entry: V, capacity: int) -> Map<u64, V> {
    let q1 = q.push(hash);
    let t1 = t.insert(hash, entry);
    if q1.len() >= capacity - 5 {
        t1.remove(q1[0])
    } else {
        t1
    }
}

/// Records `entry` for the position with hash `hash` and schedules the
/// position for removal.  Once the schedule holds `capacity - 5` positions,
/// the position scheduled first is dropped from the schedule and the table.
pub fn store_position<V>(
    zobrist_table: &mut HashMap<u64, V>,
    scheduled_removal: &mut VecDeque<u64>,
    hash: u64,
    entry: V,
    capacity: usize,
)
    requires
        capacity >= 5,
    ensures
        final(zobrist_table)@ == stored_table(
            old(zobrist_table)@,
            old(scheduled_removal)@,
            hash,
            entry,
            capacity as int,
        ),
        final(scheduled_removal)@ == stored_schedule(old(scheduled_removal)@, hash, capacity as int),
{
    broadcast use vstd::std_specs::hash::group_hash_axioms;

    zobrist_table.insert(hash, entry);
    scheduled_removal.push_back(hash);
    if scheduled_removal.len() >= capacity - 5 {
        if let Some(zobrist) = scheduled_removal.pop_front() {
            zobrist_table.remove(&zobrist);
        }
    }
}

/// What is stored can be found again at once, unless the position stored
/// is the one the schedule drops at that moment.
pub proof fn lemma_stored_is_found<V>(t: Map<u64, V>, q: Seq<u64>, hash: u64, entry: V, capacity: int)
    requires
        !(q.push(hash).len() >= capacity - 5 && q.push(hash)[0] == hash),
    ensures
        stored_table(t, q, hash, entry, capacity).contains_key(hash),
        stored_table(t, q, hash, entry, capacity)[hash] == entry,
{
}

/// Every position in the table is scheduled for removal, before and after
/// a store.
pub proof fn lemma_table_keys_scheduled<V>(t: Map<u64, V>, q: Seq<u64>, hash: u64, entry: V, capacity: int)
    requires
        forall|k: u64| #[trigger] t.contains_key(k) ==> q.contains(k),
    ensures
        forall|k: u64| #[trigger]
            stored_table(t, q, hash, entry, capacity).contains_key(k) ==> stored_schedule(
                q,
                hash,
                capacity,
            ).contains(k),
{
    let q1 = q.push(hash);
    assert forall|k: u64| #[trigger]
        stored_table(t, q, hash, entry, capacity).contains_key(k) implies stored_schedule(
        q,
        hash,
        capacity,
    ).contains(k) by {
        let i = if k == hash {
            q.len() as int
        } else {
            choose|i: int| 0 <= i < q.len() && q[i] == k
        };
        assert(q1[i] == k);
        if q1.len() >= capacity - 5 {
            assert(q1[0] != k);
            assert(q1.drop_first()[i - 1] == k);
        }
    }
}

/// The table stays small: with at least six slots of capacity, a schedule
/// shorter than `capacity - 5` stays so, and a table whose positions are
/// all scheduled holds no more positions than the schedule.
pub proof fn lemma_table_bounded<V>(t: Map<u64, V>, q: Seq<u64>, hash: u64, entry: V, capacity: int)
    requires
        capacity >= 6,
        q.len() < capacity - 5,
        t.dom().finite(),
        forall|k: u64| #[trigger] t.contains_key(k) ==> q.contains(k),
    ensures
        stored_schedule(q, hash, capacity).len() < capacity - 5,
        stored_table(t, q, hash, entry, capacity).dom().len() <= stored_schedule(q, hash, capacity).len(),
{
    let q2 = stored_schedule(q, hash, capacity);
    let t2 = stored_table(t, q, hash, entry, capacity);
    lemma_table_keys_scheduled(t, q, hash, entry, capacity);
    assert(t2.dom().subset_of(q2.to_set()));
    q2.lemma_cardinality_of_set();
    vstd::set_lib::lemma_len_subset(t2.dom(), q2.to_set());
}

/// The number of ranks between the ranks of two squares.
pub open spec fn rank_distance(sq: u8, other: u8) -> int {
    let a = ((sq / 8) % 8) as int;
    let b = ((other / 8) % 8) as int;
    if a >= b {
        a - b
    } else {
        b - a
    }
}

/// The number of ranks between the ranks of two squares (given by index).
pub fn calculate_distance(sq: u8, other: u8) -> (r: i32)
    ensures
        r == rank_distance(sq, other),
{
    assert((sq >> 3u8) & 7u8 == (sq / 8) % 8) by (bit_vector);
    assert((other >> 3u8) & 7u8 == (other / 8) % 8) by (bit_vector);
    let rank_sq = (((sq >> 3u8) & 7u8) + 1) as i32;
    let rank_other = (((other >> 3u8) & 7u8) + 1) as i32;
    let diff = rank_sq - rank_other;
    if diff < 0 {
        -diff
    } else {
        diff
    }
}

/// The rank distance is symmetric, and zero exactly for squares on one
/// rank.
pub proof fn lemma_rank_distance(sq: u8, other: u8)
    ensures
        rank_distance(sq, other) == rank_distance(other, sq),
        rank_distance(sq, other) >= 0,
        rank_distance(sq, other) == 0 <==> (sq / 8) % 8 == (other / 8) % 8,
{
}

/// Rank distance is a distance on the board's squares: squares one rank
/// apart on a file are one apart, it never exceeds seven, and going through
/// a third square is never shorter.
pub proof fn lemma_rank_distance_metric(a: u8, b: u8, c: u8)
    requires
        a < 64,
        b < 64,
        c < 64,
    ensures
        rank_distance(a, b) <= 7,
        rank_distance(a, c) <= rank_distance(a, b) + rank_distance(b, c),
        a + 8 < 64 ==> rank_distance(a, (a + 8) as u8) == 1,
        a % 8 != 7 ==> rank_distance(a, (a + 1) as u8) == 0,
{
}

} // verus!
