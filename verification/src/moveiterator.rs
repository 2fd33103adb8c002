//! An ordered iterator over the legal moves of a position.
//!
//! The moves are held as the move generator keeps them: one entry per
//! moving piece (and one more for each en passant capture), each with its
//! square, the bitboard of its destinations and whether its moves promote.
//! The iterator runs through a list of masks; in each phase it produces the
//! moves whose destination lies in that phase's mask, so that (for
//! instance) captures come before quiet moves.  A move that the search already knows to be good
//! can be put in front of all others.
use vstd::prelude::*;
use crate::bits::{
    has_bit, square_bit, lowest_square, lemma_bit_and, lemma_bit_xor, lemma_bit_or,
    lemma_square_bit, lemma_empty_iff_no_bits,
};
use crate::types::{Move, Piece, move_on_board, promotion_piece, promotion_piece_at, NUM_PROMOTION_PIECES};
use crate::bits::{popcount, bit_count, lemma_bit_count_bound};
use crate::iterator_laws::{pending, listed, no_shared_moves, lemma_entries_separate, lemma_entry_squares};
use crate::board::{
    legal_moves, generated_moves, generator_move, generator_list, en_passant, en_passant_of, piece_on,
    piece_at, side_to_move, side_to_move_of,
};
use crate::types::Color;

verus! {

/// The moves of one piece: the square it stands on, the bitboard of the
/// squares it may move to, and whether those moves are pawn promotions.
#[derive(Clone, Copy, PartialEq, Eq, Structural, Debug)]
pub struct SquareAndBitBoard {
    pub square: u8,
    pub bitboard: u64,
    pub promotion: bool,
}

/// The abstract state of a [`MoveIterator`].
pub struct IterState {
    /// One entry per moving piece, holding the moves not yet produced.
    pub moves: Seq<SquareAndBitBoard>,
    /// The entry the current phase is working on.
    pub index: int,
    /// The number of the current phase in `masks`.
    pub mask_index: int,
    /// Which promotion piece comes next for a promoting pawn.
    pub promotion_index: int,
    /// The mask of the current phase.
    pub mask: u64,
    /// The masks of all phases, in order.
    pub masks: Seq<u64>,
}

/// The entry has a move that lands in `mask`.
pub open spec fn entry_hits(e: SquareAndBitBoard, mask: u64) -> bool {
    e.bitboard & mask != 0
}

/// The entry at the current index has a move left for the current phase.
pub open spec fn active(s: IterState) -> bool {
    0 <= s.index < s.moves.len() && entry_hits(s.moves[s.index], s.mask)
}

/// Splitting the entries for a phase: the entries with a move in `mask`, in
/// their old order, and the others.  The others keep the order that the
/// in-place exchange leaves them in: each entry that moves forward swaps
/// with the first of the others, which goes to the back of them.
pub open spec fn partition_parts(s: Seq<SquareAndBitBoard>, mask: u64) -> (
    Seq<SquareAndBitBoard>,
    Seq<SquareAndBitBoard>,
)
    decreases s.len(),
{
    if s.len() == 0 {
        (Seq::empty(), Seq::empty())
    } else {
        let parts = partition_parts(s.drop_last(), mask);
        let x = s.last();
        if entry_hits(x, mask) {
            if parts.1.len() == 0 {
                (parts.0.push(x), parts.1)
            } else {
                (parts.0.push(x), parts.1.drop_first().push(parts.1[0]))
            }
        } else {
            (parts.0, parts.1.push(x))
        }
    }
}

/// The entries rearranged for a phase with mask `mask`.
pub open spec fn partitioned(s: Seq<SquareAndBitBoard>, mask: u64) -> Seq<SquareAndBitBoard> {
    partition_parts(s, mask).0 + partition_parts(s, mask).1
}

/// The state after starting a phase with mask `mask`.
pub open spec fn with_mask(s: IterState, mask: u64) -> IterState {
    IterState {
        moves: partitioned(s.moves, mask),
        index: 0,
        mask_index: s.mask_index,
        promotion_index: s.promotion_index,
        mask: mask,
        masks: s.masks,
    }
}

/// The state after the current entry's move to `d` is used up.
pub open spec fn after_clear(s: IterState, d: u64, promotion_index: int) -> IterState {
    let e = s.moves[s.index];
    let e2 = SquareAndBitBoard {
        square: e.square,
        bitboard: e.bitboard ^ square_bit(d),
        promotion: e.promotion,
    };
    IterState {
        moves: s.moves.update(s.index, e2),
        index: if entry_hits(e2, s.mask) {
            s.index
        } else {
            s.index + 1
        },
        mask_index: s.mask_index,
        promotion_index: promotion_index,
        mask: s.mask,
        masks: s.masks,
    }
}

/// One step of the iterator: the move it produces and the state it leaves.
///
/// When the current entry has no move left in the phase's mask, the next
/// phase starts (or, after the last phase, nothing is produced).  Otherwise
/// the move to the lowest destination of the current entry in the mask is
/// produced; a promoting pawn produces it once per promotion piece (queen,
/// knight, rook, bishop) before the destination is used up.
pub open spec fn step(s: IterState) -> (Option<Move>, IterState)
    decreases s.masks.len() - s.mask_index,
{
    if !active(s) {
        let s1 = IterState {
            moves: s.moves,
            index: s.index,
            mask_index: s.mask_index + 1,
            promotion_index: s.promotion_index,
            mask: s.mask,
            masks: s.masks,
        };
        if s1.mask_index >= s.masks.len() {
            (None, s1)
        } else {
            step(with_mask(s1, s.masks[s1.mask_index]))
        }
    } else {
        let e = s.moves[s.index];
        let d = lowest_square(e.bitboard & s.mask);
        if e.promotion {
            let m = Move {
                source: e.square,
                dest: d as u8,
                promotion: Some(promotion_piece(s.promotion_index)),
            };
            if s.promotion_index + 1 >= 4 {
                (Some(m), after_clear(s, d, 0))
            } else {
                (
                    Some(m),
                    IterState {
                        moves: s.moves,
                        index: s.index,
                        mask_index: s.mask_index,
                        promotion_index: s.promotion_index + 1,
                        mask: s.mask,
                        masks: s.masks,
                    },
                )
            }
        } else {
            (Some(Move { source: e.square, dest: d as u8, promotion: None }), after_clear(s, d, s.promotion_index))
        }
    }
}

/// The state is one the iterator can work from.
pub open spec fn wf(s: IterState) -> bool {
    &&& 0 <= s.index <= s.moves.len()
    &&& 0 <= s.promotion_index < 4
    &&& 0 <= s.mask_index
    &&& s.masks.len() >= 1
    &&& forall|k: int| 0 <= k < s.moves.len() ==> #[trigger] s.moves[k].square < 64
}

/// The position of the first entry for the piece on `square` (the number of
/// entries when there is none).
pub open spec fn find_square(s: Seq<SquareAndBitBoard>, square: u8) -> int
    decreases s.len(),
{
    if s.len() == 0 {
        0
    } else if s[0].square == square {
        0
    } else {
        1 + find_square(s.drop_first(), square)
    }
}

/// `find_square` is the first position holding the square, or the length.
pub proof fn lemma_find_square(s: Seq<SquareAndBitBoard>, square: u8)
    ensures
        0 <= find_square(s, square) <= s.len(),
        find_square(s, square) < s.len() ==> s[find_square(s, square)].square == square,
        forall|j: int| 0 <= j < find_square(s, square) ==> #[trigger] s[j].square != square,
    decreases s.len(),
{
    if s.len() > 0 && s[0].square != square {
        lemma_find_square(s.drop_first(), square);
        assert forall|j: int| 0 <= j < find_square(s, square) implies #[trigger] s[j].square != square by {
            if j > 0 {
                assert(s[j] == s.drop_first()[j - 1]);
            }
        }
    }
}

proof fn lemma_find_square_at(s: Seq<SquareAndBitBoard>, square: u8, i: int)
    requires
        0 <= i <= s.len(),
        forall|j: int| 0 <= j < i ==> #[trigger] s[j].square != square,
        i < s.len() ==> s[i].square == square,
    ensures
        find_square(s, square) == i,
    decreases i,
{
    if i > 0 {
        assert forall|j: int| 0 <= j < i - 1 implies #[trigger] s.drop_first()[j].square != square by {
            assert(s.drop_first()[j] == s[j + 1]);
        }
        lemma_find_square_at(s.drop_first(), square, i - 1);
    }
}

/// Adding a generated move to the entries: its destination joins the entry
/// of its source square, or a new entry for that square is appended.
pub open spec fn add_move(s: Seq<SquareAndBitBoard>, m: Move) -> Seq<SquareAndBitBoard> {
    let k = find_square(s, m.source);
    if k < s.len() {
        s.update(
            k,
            SquareAndBitBoard {
                square: s[k].square,
                bitboard: s[k].bitboard | square_bit(m.dest as u64),
                promotion: s[k].promotion || m.promotion is Some,
            },
        )
    } else {
        s.push(
            SquareAndBitBoard {
                square: m.source,
                bitboard: square_bit(m.dest as u64),
                promotion: m.promotion is Some,
            },
        )
    }
}

/// The entries for a list of moves: one per source square, in the order the
/// squares first occur, each with the destinations of its moves.
pub open spec fn group_moves(ms: Seq<Move>) -> Seq<SquareAndBitBoard>
    decreases ms.len(),
{
    if ms.len() == 0 {
        Seq::empty()
    } else {
        add_move(group_moves(ms.drop_last()), ms.last())
    }
}

/// The moves `ms` with each en passant capture (`eps[i]`) moved to a square
/// of its own, numbered 64 above its source, so that it is grouped apart
/// from its pawn's other moves.
pub open spec fn keyed_moves(ms: Seq<Move>, eps: Seq<bool>) -> Seq<Move> {
    Seq::new(
        ms.len(),
        |i: int|
            if eps[i] {
                Move { source: (ms[i].source + 64) as u8, dest: ms[i].dest, promotion: ms[i].promotion }
            } else {
                ms[i]
            },
    )
}

/// The board square a keyed square stands for.
pub open spec fn board_square(sq: u8) -> u8 {
    if sq >= 64 {
        (sq - 64) as u8
    } else {
        sq
    }
}

/// An entry grouped by `keyed_moves`, on its board square again.
pub open spec fn board_entry(e: SquareAndBitBoard) -> SquareAndBitBoard {
    SquareAndBitBoard {
        square: board_square(e.square),
        bitboard: e.bitboard,
        promotion: e.promotion,
    }
}

/// The entries the move generator keeps for the moves `ms`: one per piece,
/// in the order the pieces first occur, each with the destinations of its
/// moves, and one more for each en passant capture (marked in `eps`).
pub open spec fn move_entries(ms: Seq<Move>, eps: Seq<bool>) -> Seq<SquareAndBitBoard> {
    group_moves(keyed_moves(ms, eps)).map_values(|e: SquareAndBitBoard| board_entry(e))
}

/// The en passant marks depend on the squares of a move alone.
pub open spec fn marks_consistent(ms: Seq<Move>, eps: Seq<bool>) -> bool {
    &&& eps.len() == ms.len()
    &&& forall|i: int, j: int|
        0 <= i < ms.len() && 0 <= j < ms.len() && #[trigger] ms[i].source == #[trigger] ms[j].source
            && ms[i].dest == ms[j].dest ==> eps[i] == eps[j]
}

/// The full bitboard, `!EMPTY`: every square.
pub const ALL_SQUARES_MASK: u64 = 0xffff_ffff_ffff_ffffu64;

/// The state of a fresh iterator over the moves `ms`, with the en passant
/// captures marked in `eps`, and the phase masks `masks` (a single empty
/// mask when none is given).
pub open spec fn initial_state(ms: Seq<Move>, eps: Seq<bool>, masks: Seq<u64>) -> IterState {
    IterState {
        moves: move_entries(ms, eps),
        index: 0,
        mask_index: 0,
        promotion_index: 0,
        mask: ALL_SQUARES_MASK,
        masks: if masks.len() != 0 {
            masks
        } else {
            seq![0u64]
        },
    }
}

/// The state after `set_first_mask(Some(m))`: a first phase whose mask is
/// `m`'s destination, with an entry for `m` alone put in front and `m`'s
/// destination taken out of the entry of its source square.
pub open spec fn first_move_state(s: IterState, m: Move) -> IterState {
    let dest = square_bit(m.dest as u64);
    let k = find_square(s.moves, m.source);
    let entry = SquareAndBitBoard { square: m.source, bitboard: dest, promotion: m.promotion is Some };
    IterState {
        moves: if k < s.moves.len() {
            seq![entry] + s.moves.update(
                k,
                SquareAndBitBoard {
                    square: s.moves[k].square,
                    bitboard: s.moves[k].bitboard ^ dest,
                    promotion: s.moves[k].promotion,
                },
            )
        } else {
            s.moves
        },
        index: s.index,
        mask_index: s.mask_index,
        promotion_index: s.promotion_index,
        mask: dest,
        masks: seq![dest] + s.masks,
    }
}

/// The number of moves an entry stands for: one per destination, or four
/// per destination for a promoting pawn.
pub open spec fn entry_moves(e: SquareAndBitBoard) -> nat {
    if e.promotion {
        4 * crate::bits::popcount(e.bitboard)
    } else {
        crate::bits::popcount(e.bitboard)
    }
}

/// The number of moves the entries stand for.
pub open spec fn total_moves(s: Seq<SquareAndBitBoard>) -> nat
    decreases s.len(),
{
    if s.len() == 0 {
        0
    } else {
        total_moves(s.drop_last()) + entry_moves(s.last())
    }
}

/// A prefix of the entries stands for no more moves than all of them.
proof fn lemma_total_moves_prefix(s: Seq<SquareAndBitBoard>, i: int)
    requires
        0 <= i <= s.len(),
    ensures
        total_moves(s.take(i)) <= total_moves(s),
    decreases s.len() - i,
{
    if i < s.len() {
        lemma_total_moves_prefix(s, i + 1);
        assert(s.take(i + 1).drop_last() =~= s.take(i));
    } else {
        assert(s.take(i) =~= s);
    }
}

proof fn lemma_partition_take_step(s: Seq<SquareAndBitBoard>, mask: u64, j: int)
    requires
        0 <= j < s.len(),
    ensures
        partition_parts(s.take(j + 1), mask) == ({
            let parts = partition_parts(s.take(j), mask);
            let x = s[j];
            if entry_hits(x, mask) {
                if parts.1.len() == 0 {
                    (parts.0.push(x), parts.1)
                } else {
                    (parts.0.push(x), parts.1.drop_first().push(parts.1[0]))
                }
            } else {
                (parts.0, parts.1.push(x))
            }
        }),
{
    assert(s.take(j + 1).drop_last() =~= s.take(j));
    assert(s.take(j + 1).last() == s[j]);
}

/// The entries that hit the mask, in their old order.
pub open spec fn hits_of(s: Seq<SquareAndBitBoard>, mask: u64) -> Seq<SquareAndBitBoard> {
    s.filter(|e: SquareAndBitBoard| entry_hits(e, mask))
}

/// Starting a phase rearranges the entries: the same entries, those with a
/// move in the mask first and in their old order, the others after them.
pub proof fn lemma_partition_props(s: Seq<SquareAndBitBoard>, mask: u64)
    ensures
        partitioned(s, mask).len() == s.len(),
        partitioned(s, mask).to_multiset() == s.to_multiset(),
        partition_parts(s, mask).0 == hits_of(s, mask),
        forall|k: int|
            0 <= k < partition_parts(s, mask).1.len() ==> !entry_hits(
                #[trigger] partition_parts(s, mask).1[k],
                mask,
            ),
        forall|x: SquareAndBitBoard| #[trigger] partitioned(s, mask).contains(x) <==> s.contains(x),
    decreases s.len(),
{
    broadcast use vstd::seq_lib::group_seq_properties, vstd::seq_lib::lemma_multiset_commutative;

    let parts = partition_parts(s, mask);
    if s.len() == 0 {
        reveal_with_fuel(Seq::filter, 1);
        assert(partitioned(s, mask) =~= s);
    } else {
        let s0 = s.drop_last();
        let x = s.last();
        lemma_partition_props(s0, mask);
        let p0 = partition_parts(s0, mask).0;
        let q0 = partition_parts(s0, mask).1;
        assert(s =~= s0.push(x));
        assert(hits_of(s, mask) == (if entry_hits(x, mask) {
            hits_of(s0, mask).push(x)
        } else {
            hits_of(s0, mask)
        })) by {
            reveal_with_fuel(Seq::filter, 1);
        }
        if entry_hits(x, mask) {
            if q0.len() != 0 {
                let q1 = q0.drop_first().push(q0[0]);
                assert(q0 =~= seq![q0[0]] + q0.drop_first());
                assert(q1 =~= q0.drop_first() + seq![q0[0]]);
                assert(q1.to_multiset() =~= q0.to_multiset());
                assert forall|k: int| 0 <= k < q1.len() implies !entry_hits(#[trigger] q1[k], mask) by {
                    if k < q1.len() - 1 {
                        assert(q1[k] == q0[k + 1]);
                    }
                }
            }
        }
        assert(partitioned(s, mask).to_multiset() =~= s.to_multiset());
        assert forall|y: SquareAndBitBoard| #[trigger] partitioned(s, mask).contains(y) <==> s.contains(y) by {
            assert(partitioned(s, mask).to_multiset().count(y) == s.to_multiset().count(y));
        }
    }
}

/// The position of the first entry for the piece on `square`, or the number
/// of entries when there is none.
fn find_entry(moves: &Vec<SquareAndBitBoard>, square: u8) -> (k: usize)
    ensures
        k == find_square(moves@, square),
{
    let mut i: usize = 0;
    while i < moves.len() && moves[i].square != square
        invariant
            0 <= i <= moves@.len(),
            forall|j: int| 0 <= j < i ==> #[trigger] moves@[j].square != square,
        decreases moves@.len() - i,
    {
        i += 1;
    }
    proof {
        lemma_find_square_at(moves@, square, i as int);
    }
    i
}

/// The number of squares in a bitboard.
fn count_squares(b: u64) -> (r: usize)
    ensures
        r == popcount(b),
        r <= 64,
{
    let mut c: usize = 0;
    let mut i: u64 = 0;
    while i < 64
        invariant
            i <= 64,
            c == bit_count(b, i as nat),
            c <= i,
        decreases 64 - i,
    {
        if (b >> i) & 1u64 == 1u64 {
            c += 1;
        }
        i += 1;
    }
    c
}

/// The masks `masks` with `first` put in front.
fn prepend_mask(masks: &Vec<u64>, first: u64) -> (r: Vec<u64>)
    ensures
        r@ == seq![first] + masks@,
{
    let mut r: Vec<u64> = Vec::new();
    r.push(first);
    let mut i: usize = 0;
    while i < masks.len()
        invariant
            0 <= i <= masks@.len(),
            r@ == seq![first] + masks@.take(i as int),
        decreases masks@.len() - i,
    {
        r.push(masks[i]);
        i += 1;
        proof {
            assert(seq![first] + masks@.take(i as int) =~= (seq![first] + masks@.take(i - 1)).push(
                masks@[i - 1],
            ));
        }
    }
    proof {
        assert(masks@.take(masks@.len() as int) =~= masks@);
    }
    r
}

/// The entries `moves` with the one at `k` replaced by `replaced` and
/// `first` put in front.
fn prepend_entry(
    moves: &Vec<SquareAndBitBoard>,
    k: usize,
    replaced: SquareAndBitBoard,
    first: SquareAndBitBoard,
) -> (r: Vec<SquareAndBitBoard>)
    requires
        k < moves@.len(),
    ensures
        r@ == seq![first] + moves@.update(k as int, replaced),
{
    let ghost target = moves@.update(k as int, replaced);
    let mut r: Vec<SquareAndBitBoard> = Vec::new();
    r.push(first);
    let mut i: usize = 0;
    while i < moves.len()
        invariant
            0 <= i <= moves@.len(),
            k < moves@.len(),
            target == moves@.update(k as int, replaced),
            r@ == seq![first] + target.take(i as int),
        decreases moves@.len() - i,
    {
        if i == k {
            r.push(replaced);
        } else {
            r.push(moves[i]);
        }
        i += 1;
        proof {
            assert(seq![first] + target.take(i as int) =~= (seq![first] + target.take(i - 1)).push(
                target[i - 1],
            ));
        }
    }
    proof {
        assert(target.take(moves@.len() as int) =~= target);
    }
    r
}

/// Rearranges the entries for a phase with mask `mask`: those with a move
/// in the mask are moved to the front, keeping their order.
fn partition_entries(moves: &mut Vec<SquareAndBitBoard>, mask: u64)
    ensures
        final(moves)@ == partitioned(old(moves)@, mask),
{
    let ghost orig = old(moves)@;
    let len = moves.len();
    let mut i: usize = 0;
    while i < len && moves[i].bitboard & mask != 0
        invariant
            len == moves@.len(),
            moves@ == orig,
            0 <= i <= len,
            partition_parts(orig.take(i as int), mask) == (orig.take(i as int), Seq::<
                SquareAndBitBoard,
            >::empty()),
        decreases len - i,
    {
        proof {
            lemma_partition_take_step(orig, mask, i as int);
            assert(orig.take(i as int).push(orig[i as int]) =~= orig.take(i + 1));
        }
        i += 1;
    }
    let mut j: usize = if i < len {
        proof {
            lemma_partition_take_step(orig, mask, i as int);
            assert(Seq::<SquareAndBitBoard>::empty().push(orig[i as int]) =~= orig.subrange(
                i as int,
                i + 1,
            ));
        }
        i + 1
    } else {
        i
    };
    while j < len
        invariant
            len == moves@.len(),
            0 <= i <= j <= len,
            i == j ==> j == len,
            partition_parts(orig.take(j as int), mask).0 == moves@.take(i as int),
            partition_parts(orig.take(j as int), mask).1 == moves@.subrange(
                i as int,
                j as int,
            ),
            forall|k: int| j <= k < len ==> #[trigger] moves@[k] == orig[k],
            orig.len() == len,
        decreases len - j,
    {
        proof {
            lemma_partition_take_step(orig, mask, j as int);
        }
        let ghost before = moves@;
        if moves[j].bitboard & mask != 0 {
            let backup = moves[i];
            let moved = moves[j];
            moves.set(i, moved);
            moves.set(j, backup);
            proof {
                let q = before.subrange(i as int, j as int);
                assert(moves@.take(i + 1) =~= before.take(i as int).push(orig[j as int]));
                assert(moves@.subrange(i + 1, j + 1) =~= q.drop_first().push(q[0]));
            }
            i += 1;
        } else {
            proof {
                assert(moves@.subrange(i as int, j + 1) =~= before.subrange(
                    i as int,
                    j as int,
                ).push(orig[j as int]));
            }
        }
        j += 1;
    }
    proof {
        assert(orig.take(len as int) =~= orig);
        assert(moves@ =~= moves@.take(i as int) + moves@.subrange(
            i as int,
            len as int,
        ));
        lemma_partition_props(orig, mask);
        assert(moves@ =~= partitioned(orig, mask));
    }
}

/// The square a pawn of the side to move lands on when it takes en passant:
/// the one in front of the pawn that has just moved two squares (as the
/// `chess` crate's `uforward`, which wraps around the board).
pub open spec fn en_passant_target(board: chess::Board) -> Option<u8> {
    match en_passant_of(board) {
        Some(sq) => Some(
            (if side_to_move_of(board) == Color::White {
                (sq + 8) % 64
            } else {
                (sq + 56) % 64
            }) as u8,
        ),
        None => None,
    }
}

/// The move `m` is an en passant capture on `board`: a pawn moving to the
/// en passant target square.
pub open spec fn is_en_passant(board: chess::Board, m: Move) -> bool {
    piece_at(board, m.source) == Some(Piece::Pawn) && en_passant_target(board) == Some(m.dest)
}

/// Which of the moves `ms` are en passant captures on `board`.
pub open spec fn en_passant_marks(board: chess::Board, ms: Seq<Move>) -> Seq<bool> {
    Seq::new(ms.len(), |i: int| is_en_passant(board, ms[i]))
}

/// Which moves count as en passant captures: a pawn's move to the square
/// in front of the pawn that has just moved two squares (the square above it
/// when White is to move, below it when Black is), and no other move.
pub proof fn lemma_en_passant_marks(board: chess::Board, ms: Seq<Move>, i: int)
    requires
        0 <= i < ms.len(),
        ms[i].dest < 64,
    ensures
        en_passant_marks(board, ms).len() == ms.len(),
        en_passant_marks(board, ms)[i] <==> (piece_at(board, ms[i].source) == Some(Piece::Pawn)
            && en_passant_of(board) is Some && (if side_to_move_of(board) == Color::White {
            ms[i].dest as int == (en_passant_of(board)->0 + 8) % 64
        } else {
            ms[i].dest as int == (en_passant_of(board)->0 + 56) % 64
        })),
{
}

/// Marks the en passant captures among the moves `moves` of `board`.
fn en_passant_captures(board: &chess::Board, moves: &Vec<Move>) -> (r: Vec<bool>)
    requires
        forall|i: int| 0 <= i < moves@.len() ==> generator_move(#[trigger] moves@[i]),
    ensures
        r@ == en_passant_marks(*board, moves@),
        marks_consistent(moves@, r@),
{
    let target = match en_passant(board) {
        Some(sq) => Some(
            match side_to_move(board) {
                Color::White => (sq + 8) % 64,
                Color::Black => (sq + 56) % 64,
            },
        ),
        None => None,
    };
    proof {
        assert(target == en_passant_target(*board));
    }
    let mut r: Vec<bool> = Vec::new();
    let mut i: usize = 0;
    while i < moves.len()
        invariant
            0 <= i <= moves@.len(),
            forall|j: int| 0 <= j < moves@.len() ==> generator_move(#[trigger] moves@[j]),
            target == en_passant_target(*board),
            r@ == en_passant_marks(*board, moves@.take(i as int)),
        decreases moves@.len() - i,
    {
        let m = moves[i];
        proof {
            assert(generator_move(moves@[i as int]));
        }
        let hits = match target {
            Some(t) => t == m.dest,
            None => false,
        };
        let pawn = match piece_on(board, m.source) {
            Some(Piece::Pawn) => true,
            _ => false,
        };
        r.push(hits && pawn);
        i += 1;
        proof {
            assert(en_passant_marks(*board, moves@.take(i as int)) =~= en_passant_marks(
                *board,
                moves@.take(i - 1),
            ).push(is_en_passant(*board, m)));
        }
    }
    proof {
        assert(moves@.take(moves@.len() as int) =~= moves@);
    }
    r
}

/// An ordered iterator over the legal moves of a position.
pub struct MoveIterator {
    moves: Vec<SquareAndBitBoard>,
    index: usize,
    mask_index: usize,
    promotion_index: usize,
    iterator_mask: u64,
    masks: Vec<u64>,
}

impl View for MoveIterator {
    type V = IterState;

    closed spec fn view(&self) -> IterState {
        IterState {
            moves: self.moves@,
            index: self.index as int,
            mask_index: self.mask_index as int,
            promotion_index: self.promotion_index as int,
            mask: self.iterator_mask,
            masks: self.masks@,
        }
    }
}

impl MoveIterator {
    /// Every iterator is in a state it can work from.
    #[verifier::type_invariant]
    spec fn well_formed(self) -> bool {
        wf(self@)
    }

    /// Starts a phase with mask `mask`: the entries with a move in the mask
    /// are moved to the front, keeping their order, and the phase starts at
    /// the first entry.
    fn set_iterator_mask(&mut self, mask: u64)
        ensures
            final(self)@ == with_mask(old(self)@, mask),
            wf(final(self)@),
    {
        proof {
            use_type_invariant(&*self);
        }
        self.iterator_mask = mask;
        self.index = 0;
        let mut moves: Vec<SquareAndBitBoard> = Vec::new();
        std::mem::swap(&mut moves, &mut self.moves);
        let ghost orig = moves@;
        partition_entries(&mut moves, mask);
        proof {
            lemma_partition_props(orig, mask);
            assert forall|k: int| 0 <= k < moves@.len() implies #[trigger] moves@[k].square < 64 by {
                assert(partitioned(orig, mask).contains(moves@[k]));
                let k2 = choose|k2: int| 0 <= k2 < orig.len() && orig[k2] == moves@[k];
                assert(orig[k2].square < 64);
            }
        }
        self.moves = moves;
    }

    /// Uses up the current entry's move to `dest`; when the entry has no
    /// move left in the phase's mask, the phase goes on to the next entry.
    fn clear_current(&mut self, dest: u8, new_promotion_index: usize)
        requires
            active(old(self)@),
            dest == lowest_square(old(self)@.moves[old(self)@.index].bitboard & old(self)@.mask),
            new_promotion_index < 4,
        ensures
            final(self)@ == after_clear(old(self)@, dest as u64, new_promotion_index as int),
            wf(final(self)@),
    {
        proof {
            use_type_invariant(&*self);
        }
        let index = self.index;
        let len = self.moves.len();
        assert(index < len);
        let e = self.moves[index];
        let cleared = SquareAndBitBoard {
            square: e.square,
            bitboard: e.bitboard ^ (1u64 << (dest as u64)),
            promotion: e.promotion,
        };
        self.index = 0;
        let mut moves: Vec<SquareAndBitBoard> = Vec::new();
        std::mem::swap(&mut moves, &mut self.moves);
        moves.set(index, cleared);
        proof {
            assert forall|k: int| 0 <= k < moves@.len() implies #[trigger] moves@[k].square < 64 by {
                assert(old(self)@.moves[k].square < 64);
            }
        }
        self.moves = moves;
        self.promotion_index = new_promotion_index;
        if cleared.bitboard & self.iterator_mask == 0 {
            self.index = index + 1;
        } else {
            self.index = index;
        }
    }

    /// Produces the next move, or `None` once every phase is done.
    pub fn next(&mut self) -> (r: Option<Move>)
        requires
            old(self)@.mask_index < usize::MAX,
        ensures
            (r, final(self)@) == step(old(self)@),
            wf(final(self)@),
        decreases old(self)@.masks.len() - old(self)@.mask_index,
    {
        proof {
            use_type_invariant(&*self);
        }
        if self.index >= self.moves.len() || self.moves[self.index].bitboard & self.iterator_mask
            == 0 {
            self.mask_index += 1;
            if self.mask_index >= self.masks.len() {
                None
            } else {
                let mask = self.masks[self.mask_index];
                self.set_iterator_mask(mask);
                self.next()
            }
        } else {
            let e = self.moves[self.index];
            let tz = (e.bitboard & self.iterator_mask).trailing_zeros();
            proof {
                lemma_empty_iff_no_bits(e.bitboard & self.iterator_mask);
            }
            let dest = tz as u8;
            if e.promotion {
                let result = Move::new(e.square, dest, Some(promotion_piece_at(self.promotion_index)));
                if self.promotion_index + 1 >= NUM_PROMOTION_PIECES {
                    self.clear_current(dest, 0);
                } else {
                    self.promotion_index += 1;
                }
                Some(result)
            } else {
                let p = self.promotion_index;
                self.clear_current(dest, p);
                Some(Move::new(e.square, dest, None))
            }
        }
    }

    /// An iterator over the moves `moves`, grouped as the move generator
    /// keeps them: one entry per piece, in the order the pieces first occur,
    /// and an entry of its own for each en passant capture (marked in
    /// `en_passant`).  It runs through the phases `masks` (a single empty
    /// mask when none is given).  Until `set_first_mask` is called, its phase
    /// mask is the full board.
    pub fn from_moves(moves: &Vec<Move>, en_passant: &Vec<bool>, masks: Vec<u64>) -> (r: MoveIterator)
        requires
            forall|i: int| 0 <= i < moves@.len() ==> move_on_board(#[trigger] moves@[i]),
            marks_consistent(moves@, en_passant@),
        ensures
            r@ == initial_state(moves@, en_passant@, masks@),
            wf(r@),
            no_shared_moves(r@.moves),
            forall|sq: u8, d: u64| #[trigger] pending(r@.moves, sq, d) <==> listed(moves@, sq, d),
            total_moves(r@.moves) <= 32768,
    {
        let ghost vms = keyed_moves(moves@, en_passant@);
        let mut entries: Vec<SquareAndBitBoard> = Vec::new();
        let mut i: usize = 0;
        while i < moves.len()
            invariant
                0 <= i <= moves@.len(),
                forall|j: int| 0 <= j < moves@.len() ==> move_on_board(#[trigger] moves@[j]),
                marks_consistent(moves@, en_passant@),
                vms == keyed_moves(moves@, en_passant@),
                entries@ == group_moves(vms.take(i as int)),
            decreases moves@.len() - i,
        {
            let m = moves[i];
            proof {
                assert(move_on_board(moves@[i as int]));
            }
            let vm = if en_passant[i] {
                Move { source: m.source + 64, dest: m.dest, promotion: m.promotion }
            } else {
                m
            };
            proof {
                assert(vm == vms[i as int]);
                assert(vms.take(i + 1).drop_last() =~= vms.take(i as int));
                assert(vms.take(i + 1).last() == vm);
            }
            let k = find_entry(&entries, vm.source);
            proof {
                lemma_find_square(entries@, vm.source);
            }
            let dest = 1u64 << (vm.dest as u64);
            if k < entries.len() {
                let e = entries[k];
                let grown = SquareAndBitBoard {
                    square: e.square,
                    bitboard: e.bitboard | dest,
                    promotion: e.promotion || vm.promotion.is_some(),
                };
                entries.set(k, grown);
            } else {
                entries.push(
                    SquareAndBitBoard { square: vm.source, bitboard: dest, promotion: vm.promotion.is_some() },
                );
            }
            i += 1;
        }
        proof {
            assert(vms.take(moves@.len() as int) =~= vms);
        }
        let ghost grouped = entries@;
        let mut board_entries: Vec<SquareAndBitBoard> = Vec::new();
        let mut j: usize = 0;
        while j < entries.len()
            invariant
                0 <= j <= entries@.len(),
                entries@ == grouped,
                board_entries@ == grouped.take(j as int).map_values(|e: SquareAndBitBoard| board_entry(e)),
            decreases entries@.len() - j,
        {
            let e = entries[j];
            let square = if e.square >= 64 {
                e.square - 64
            } else {
                e.square
            };
            board_entries.push(SquareAndBitBoard { square, bitboard: e.bitboard, promotion: e.promotion });
            j += 1;
            proof {
                assert(grouped.take(j as int).map_values(|e: SquareAndBitBoard| board_entry(e))
                    =~= grouped.take(j - 1).map_values(|e: SquareAndBitBoard| board_entry(e)).push(
                    board_entry(grouped[j - 1]),
                ));
            }
        }
        proof {
            assert(grouped.take(grouped.len() as int) =~= grouped);
            assert(board_entries@ == move_entries(moves@, en_passant@));
            let g = move_entries(moves@, en_passant@);
            assert(no_shared_moves(g) && total_moves(g) <= 32768 && (forall|k: int|
                0 <= k < g.len() ==> (#[trigger] g[k]).square < 64) && (forall|sq: u8, d: u64| #[trigger]
                pending(g, sq, d) <==> listed(moves@, sq, d))) by {
                lemma_entries_separate(moves@, en_passant@);
                lemma_entry_squares(moves@, en_passant@);
            }
        }
        let ghost given = masks@;
        let masks = if masks.len() != 0 {
            masks
        } else {
            let mut m = Vec::new();
            m.push(0u64);
            proof {
                assert(m@ =~= seq![0u64]);
            }
            m
        };
        proof {
            assert(masks@ == (if given.len() != 0 {
                given
            } else {
                seq![0u64]
            }));
        }
        MoveIterator {
            moves: board_entries,
            index: 0,
            mask_index: 0,
            promotion_index: 0,
            iterator_mask: ALL_SQUARES_MASK,
            masks,
        }
    }

    /// An iterator over the legal moves of `board`, as the `chess` crate
    /// generates them, with the phase masks `masks`.
    pub fn new_legal(board: &chess::Board, masks: Vec<u64>) -> (r: MoveIterator)
        ensures
            r@ == initial_state(
                generated_moves(*board),
                en_passant_marks(*board, generated_moves(*board)),
                masks@,
            ),
            wf(r@),
            no_shared_moves(r@.moves),
            forall|sq: u8, d: u64| #[trigger]
                pending(r@.moves, sq, d) <==> listed(generated_moves(*board), sq, d),
            total_moves(r@.moves) <= 32768,
            generator_list(generated_moves(*board)),
    {
        let moves = legal_moves(board);
        let marks = en_passant_captures(board, &moves);
        proof {
            assert forall|i: int| 0 <= i < moves@.len() implies move_on_board(#[trigger] moves@[i]) by {
                assert(generator_move(moves@[i]));
            }
        }
        Self::from_moves(&moves, &marks, masks)
    }

    /// Prepares the first phase; this must be called before `next`.  Given
    /// a move, the first phase produces that move first, followed by any
    /// entries at the front that also land on its destination; the other
    /// phases follow as given.  Given `None`, the first phase is the first
    /// of the given masks.
    pub fn set_first_mask(&mut self, first_move: Option<Move>)
        requires
            first_move matches Some(m) ==> move_on_board(m),
        ensures
            wf(final(self)@),
            match first_move {
                Some(m) => final(self)@ == first_move_state(old(self)@, m),
                None => final(self)@ == with_mask(old(self)@, old(self)@.masks[0]),
            },
    {
        proof {
            use_type_invariant(&*self);
        }
        match first_move {
            Some(m) => {
                let source_sq = m.source;
                let dest = 1u64 << (m.dest as u64);
                self.iterator_mask = dest;
                let masks = prepend_mask(&self.masks, dest);
                self.masks = masks;
                let new_entry = SquareAndBitBoard {
                    square: source_sq,
                    bitboard: dest,
                    promotion: m.promotion.is_some(),
                };
                let ghost old_moves = self.moves@;
                let k = find_entry(&self.moves, source_sq);
                proof {
                    lemma_find_square(old_moves, source_sq);
                }
                if k < self.moves.len() {
                    let e = self.moves[k];
                    let toggled = SquareAndBitBoard {
                        square: e.square,
                        bitboard: e.bitboard ^ dest,
                        promotion: e.promotion,
                    };
                    let moves = prepend_entry(&self.moves, k, toggled, new_entry);
                    proof {
                        assert forall|j: int| 0 <= j < moves@.len() implies #[trigger] moves@[j].square < 64 by {
                            if j > 0 && j - 1 != k {
                                assert(moves@[j] == old_moves[j - 1]);
                            }
                        }
                    }
                    self.moves = moves;
                }
            },
            None => {
                let mask = self.masks[0];
                self.set_iterator_mask(mask);
            },
        }
    }

    /// The number of the current phase.
    pub fn get_mask_index(&self) -> (r: usize)
        ensures
            r == self@.mask_index,
    {
        self.mask_index
    }

    /// The number of moves the iterator still holds, counting each promotion
    /// piece as a move of its own.
    pub fn len_all_moves(&self) -> (r: usize)
        requires
            total_moves(self@.moves) <= usize::MAX,
        ensures
            r == total_moves(self@.moves),
    {
        let mut total: usize = 0;
        let mut i: usize = 0;
        while i < self.moves.len()
            invariant
                0 <= i <= self.moves@.len(),
                total == total_moves(self.moves@.take(i as int)),
                total_moves(self.moves@) <= usize::MAX,
            decreases self.moves@.len() - i,
        {
            proof {
                assert(self.moves@.take(i + 1).drop_last() =~= self.moves@.take(i as int));
                lemma_total_moves_prefix(self.moves@, i + 1);
            }
            let e = self.moves[i];
            let n = count_squares(e.bitboard);
            if e.promotion {
                total = total + 4 * n;
            } else {
                total = total + n;
            }
            i += 1;
        }
        proof {
            assert(self.moves@.take(self.moves@.len() as int) =~= self.moves@);
        }
        total
    }
}

} // verus!
