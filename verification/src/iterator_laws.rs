//! What the move iterator promises as a whole: it produces only moves it
//! holds, each at most once; moves come phase by phase, each landing in its
//! phase's mask; when it is done, no held move lands in the last mask; and a
//! move put first is produced first.
use vstd::prelude::*;
use crate::bits::{
    has_bit, square_bit, lowest_square, lemma_bit_and, lemma_bit_xor, lemma_bit_or,
    lemma_square_bit, lemma_empty_iff_no_bits,
};
use vstd::set_lib::{set_int_range, lemma_int_range, lemma_len_subset};
use crate::bits::lemma_bit_count_bound;
use crate::types::{Move, Piece, move_on_board, promotion_piece};
use crate::moveiterator::{
    SquareAndBitBoard, IterState, entry_hits, active, partitioned, partition_parts, with_mask,
    after_clear, step, wf, find_square, lemma_find_square, first_move_state, group_moves,
    initial_state, lemma_partition_props, add_move, ALL_SQUARES_MASK, total_moves,
    keyed_moves, board_entry, board_square, move_entries, marks_consistent, entry_moves,
};

verus! {

/// The move from `square` to `dest` is still held by one of the entries.
pub open spec fn pending(moves: Seq<SquareAndBitBoard>, square: u8, dest: u64) -> bool {
    exists|k: int|
        0 <= k < moves.len() && #[trigger] moves[k].square == square && has_bit(
            moves[k].bitboard,
            dest,
        )
}

/// Two entries do not hold the same move.
pub open spec fn entries_disjoint(a: SquareAndBitBoard, b: SquareAndBitBoard) -> bool {
    !(a.square == b.square && a.bitboard & b.bitboard != 0)
}

/// No move is held by two entries.
pub open spec fn no_shared_moves(s: Seq<SquareAndBitBoard>) -> bool {
    forall|k1: int, k2: int|
        0 <= k1 < s.len() && 0 <= k2 < s.len() && k1 != k2 ==> entries_disjoint(
            #[trigger] s[k1],
            #[trigger] s[k2],
        )
}

/// Within the current phase, the entries before the current one have no
/// move left in the mask, and those from the current one on that still have
/// one come first.
pub open spec fn phase_ordered(s: IterState) -> bool {
    &&& forall|k: int| 0 <= k < s.index ==> !entry_hits(#[trigger] s.moves[k], s.mask)
    &&& forall|k1: int, k2: int|
        s.index <= k1 < k2 < s.moves.len() && entry_hits(#[trigger] s.moves[k2], s.mask)
            ==> entry_hits(#[trigger] s.moves[k1], s.mask)
}

/// The current mask is the mask of the current phase.
pub open spec fn synced(s: IterState) -> bool {
    0 <= s.mask_index < s.masks.len() && s.mask == s.masks[s.mask_index]
}

/// Producing this move uses up its pair of squares: it is not a promotion,
/// or it is the last of the four promotions (to a bishop).
pub open spec fn completes_pair(m: Move) -> bool {
    m.promotion is None || m.promotion == Some(Piece::Bishop)
}

/// Every two entries at different positions are related by `r`.
pub open spec fn pairwise(
    s: Seq<SquareAndBitBoard>,
    r: spec_fn(SquareAndBitBoard, SquareAndBitBoard) -> bool,
) -> bool {
    forall|k1: int, k2: int|
        0 <= k1 < s.len() && 0 <= k2 < s.len() && k1 != k2 ==> r(#[trigger] s[k1], #[trigger] s[k2])
}

/// No two entries stand on the same square.
pub open spec fn unique_squares(s: Seq<SquareAndBitBoard>) -> bool {
    forall|k1: int, k2: int|
        0 <= k1 < s.len() && 0 <= k2 < s.len() && k1 != k2 ==> #[trigger] s[k1].square
            != #[trigger] s[k2].square
}

proof fn lemma_pairwise_permutation(
    s: Seq<SquareAndBitBoard>,
    t: Seq<SquareAndBitBoard>,
    r: spec_fn(SquareAndBitBoard, SquareAndBitBoard) -> bool,
)
    requires
        s.to_multiset() == t.to_multiset(),
        pairwise(s, r),
    ensures
        pairwise(t, r),
{
    broadcast use vstd::seq_lib::group_seq_properties;

    assert forall|k1: int, k2: int|
        0 <= k1 < t.len() && 0 <= k2 < t.len() && k1 != k2 implies r(
        #[trigger] t[k1],
        #[trigger] t[k2],
    ) by {
        let a = t[k1];
        let b = t[k2];
        assert(t.contains(a));
        assert(t.contains(b));
        assert(t.to_multiset().count(a) > 0);
        assert(t.to_multiset().count(b) > 0);
        assert(s.contains(a));
        assert(s.contains(b));
        let i = choose|i: int| 0 <= i < s.len() && s[i] == a;
        if a != b {
            let j = choose|j: int| 0 <= j < s.len() && s[j] == b;
            assert(r(s[i], s[j]));
        } else {
            let t1 = t.remove(k1);
            let k2b = if k2 < k1 {
                k2
            } else {
                k2 - 1
            };
            assert(t1[k2b] == a);
            assert(t1.contains(a));
            assert(t1.to_multiset().count(a) > 0);
            assert(t1.to_multiset() == t.to_multiset().remove(a));
            assert(t.to_multiset().count(a) >= 2);
            let s1 = s.remove(i);
            assert(s1.to_multiset() == s.to_multiset().remove(a));
            assert(s1.to_multiset().count(a) >= 1);
            assert(s1.contains(a));
            let j1 = choose|j1: int| 0 <= j1 < s1.len() && s1[j1] == a;
            let j = if j1 < i {
                j1
            } else {
                j1 + 1
            };
            assert(s[j] == a);
            assert(r(s[i], s[j]));
        }
    }
}

proof fn lemma_no_shared_permutation(s: Seq<SquareAndBitBoard>, t: Seq<SquareAndBitBoard>)
    requires
        s.to_multiset() == t.to_multiset(),
    ensures
        no_shared_moves(s) ==> no_shared_moves(t),
        unique_squares(s) ==> unique_squares(t),
{
    let r1 = |a: SquareAndBitBoard, b: SquareAndBitBoard| entries_disjoint(a, b);
    let r2 = |a: SquareAndBitBoard, b: SquareAndBitBoard| a.square != b.square;
    if no_shared_moves(s) {
        assert(pairwise(s, r1));
        lemma_pairwise_permutation(s, t, r1);
        assert forall|k1: int, k2: int|
            0 <= k1 < t.len() && 0 <= k2 < t.len() && k1 != k2 implies entries_disjoint(
            #[trigger] t[k1],
            #[trigger] t[k2],
        ) by {
            assert(r1(t[k1], t[k2]));
        }
    }
    if unique_squares(s) {
        assert(pairwise(s, r2));
        lemma_pairwise_permutation(s, t, r2);
        assert forall|k1: int, k2: int|
            0 <= k1 < t.len() && 0 <= k2 < t.len() && k1 != k2 implies #[trigger] t[k1].square
            != #[trigger] t[k2].square by {
            assert(r2(t[k1], t[k2]));
        }
    }
}

proof fn lemma_pending_permutation(s: Seq<SquareAndBitBoard>, t: Seq<SquareAndBitBoard>)
    requires
        forall|x: SquareAndBitBoard| #[trigger] t.contains(x) <==> s.contains(x),
    ensures
        forall|sq: u8, d: u64| #[trigger] pending(t, sq, d) <==> pending(s, sq, d),
{
    assert forall|sq: u8, d: u64| #[trigger] pending(t, sq, d) <==> pending(s, sq, d) by {
        if pending(t, sq, d) {
            let k = choose|k: int|
                0 <= k < t.len() && #[trigger] t[k].square == sq && has_bit(t[k].bitboard, d);
            assert(t.contains(t[k]));
            let i = choose|i: int| 0 <= i < s.len() && s[i] == t[k];
            assert(s[i].square == sq);
        }
        if pending(s, sq, d) {
            let k = choose|k: int|
                0 <= k < s.len() && #[trigger] s[k].square == sq && has_bit(s[k].bitboard, d);
            assert(s.contains(s[k]));
            assert(t.contains(s[k]));
            let i = choose|i: int| 0 <= i < t.len() && t[i] == s[k];
            assert(t[i].square == sq);
        }
    }
}

/// Starting a phase keeps the held moves and their separation, and orders
/// the entries for the phase.
pub proof fn lemma_with_mask(s: IterState, mask: u64)
    ensures
        no_shared_moves(s.moves) ==> no_shared_moves(with_mask(s, mask).moves),
        unique_squares(s.moves) ==> unique_squares(with_mask(s, mask).moves),
        forall|sq: u8, d: u64| #[trigger]
            pending(with_mask(s, mask).moves, sq, d) <==> pending(s.moves, sq, d),
        phase_ordered(with_mask(s, mask)),
{
    lemma_partition_props(s.moves, mask);
    let t = partitioned(s.moves, mask);
    lemma_no_shared_permutation(s.moves, t);
    lemma_pending_permutation(s.moves, t);
    let p = partition_parts(s.moves, mask).0;
    let q = partition_parts(s.moves, mask).1;
    assert forall|k: int| 0 <= k < p.len() implies entry_hits(#[trigger] p[k], mask) by {
        assert(p.contains(p[k]));
        reveal(Seq::filter);
        s.moves.lemma_filter_pred(|e: SquareAndBitBoard| entry_hits(e, mask), k);
    }
    assert forall|k1: int, k2: int|
        0 <= k1 < k2 < t.len() && entry_hits(#[trigger] t[k2], mask) implies entry_hits(
        #[trigger] t[k1],
        mask,
    ) by {
        if k2 >= p.len() {
            assert(t[k2] == q[k2 - p.len()]);
        } else {
            assert(t[k1] == p[k1]);
        }
    }
}

/// A step that produces a move: the move was held, lands in the current
/// mask (the mask of its phase, when masks and phases agree), and is no
/// longer held afterwards once its pair of squares is used up; every other
/// held move stays held, and no move comes to be held twice.
pub proof fn lemma_step_produces_held_move(s: IterState)
    requires
        wf(s),
        no_shared_moves(s.moves),
        step(s).0 is Some,
    ensures
        ({
            let m = step(s).0->0;
            let s2 = step(s).1;
            &&& pending(s.moves, m.source, m.dest as u64)
            &&& has_bit(s2.mask, m.dest as u64)
            &&& no_shared_moves(s2.moves)
            &&& wf(s2)
            &&& forall|sq: u8, d: u64| #[trigger]
                pending(s2.moves, sq, d) <==> (pending(s.moves, sq, d) && !(sq == m.source && d
                    == m.dest as u64 && completes_pair(m)))
            &&& (phase_ordered(s) || !active(s)) ==> phase_ordered(s2)
            &&& synced(s) ==> synced(s2) && has_bit(s2.masks[s2.mask_index], m.dest as u64)
        }),
    decreases s.masks.len() - s.mask_index,
{
    if !active(s) {
        let s1 = IterState {
            moves: s.moves,
            index: s.index,
            mask_index: s.mask_index + 1,
            promotion_index: s.promotion_index,
            mask: s.mask,
            masks: s.masks,
        };
        let s3 = with_mask(s1, s.masks[s1.mask_index]);
        lemma_with_mask(s1, s.masks[s1.mask_index]);
        lemma_partition_props(s.moves, s.masks[s1.mask_index]);
        assert forall|k: int| 0 <= k < s3.moves.len() implies #[trigger] s3.moves[k].square < 64 by {
            assert(s3.moves.contains(s3.moves[k]));
            let i = choose|i: int| 0 <= i < s.moves.len() && s.moves[i] == s3.moves[k];
            assert(s.moves[i].square < 64);
        }
        lemma_step_produces_held_move(s3);
    } else {
        let e = s.moves[s.index];
        let bm = e.bitboard & s.mask;
        let d = lowest_square(bm);
        lemma_empty_iff_no_bits(bm);
        lemma_bit_and(e.bitboard, s.mask, d);
        assert(pending(s.moves, e.square, d));
        let m = step(s).0->0;
        let s2 = step(s).1;
        assert(m.dest as u64 == d);
        if e.promotion && s.promotion_index + 1 < 4 {
            assert(promotion_piece(s.promotion_index) != Piece::Bishop);
        } else {
            let e2 = s2.moves[s.index];
            assert(e2.bitboard == e.bitboard ^ square_bit(d));
            assert forall|sq: u8, d2: u64| #[trigger]
                pending(s2.moves, sq, d2) <==> (pending(s.moves, sq, d2) && !(sq == m.source && d2
                    == m.dest as u64 && completes_pair(m))) by {
                if d2 < 64 {
                    lemma_bit_xor(e.bitboard, d, d2);
                }
                if pending(s2.moves, sq, d2) {
                    let k = choose|k: int|
                        0 <= k < s2.moves.len() && #[trigger] s2.moves[k].square == sq && has_bit(
                            s2.moves[k].bitboard,
                            d2,
                        );
                    if k == s.index {
                        assert(has_bit(e.bitboard, d2));
                    } else {
                        assert(s.moves[k] == s2.moves[k]);
                    }
                    assert(pending(s.moves, sq, d2));
                    if sq == m.source && d2 == d {
                        if k != s.index {
                            assert(entries_disjoint(s.moves[s.index], s.moves[k]));
                            lemma_bit_and(e.bitboard, s.moves[k].bitboard, d);
                            lemma_empty_iff_no_bits(e.bitboard & s.moves[k].bitboard);
                        }
                    }
                }
                if pending(s.moves, sq, d2) && !(sq == m.source && d2 == m.dest as u64
                    && completes_pair(m)) {
                    let k = choose|k: int|
                        0 <= k < s.moves.len() && #[trigger] s.moves[k].square == sq && has_bit(
                            s.moves[k].bitboard,
                            d2,
                        );
                    if k == s.index {
                        assert(s2.moves[k].square == sq);
                        assert(has_bit(s2.moves[k].bitboard, d2));
                    } else {
                        assert(s2.moves[k] == s.moves[k]);
                    }
                }
            }
            assert forall|k1: int, k2: int|
                0 <= k1 < s2.moves.len() && 0 <= k2 < s2.moves.len() && k1 != k2 implies entries_disjoint(
                #[trigger] s2.moves[k1],
                #[trigger] s2.moves[k2],
            ) by {
                assert(entries_disjoint(s.moves[k1], s.moves[k2]));
                let a = e.bitboard;
                if k1 == s.index {
                    let b = s.moves[k2].bitboard;
                    assert((a >> d) & 1u64 == 1u64 && (a ^ (1u64 << d)) & b != 0 ==> a & b != 0)
                        by (bit_vector)
                        requires
                            d < 64,
                    ;
                } else if k2 == s.index {
                    let b = s.moves[k1].bitboard;
                    assert((a >> d) & 1u64 == 1u64 && b & (a ^ (1u64 << d)) != 0 ==> b & a != 0)
                        by (bit_vector)
                        requires
                            d < 64,
                    ;
                }
            }
            assert forall|k: int| 0 <= k < s2.moves.len() implies #[trigger] s2.moves[k].square < 64 by {
                assert(s.moves[k].square < 64);
            }
            if phase_ordered(s) {
                assert forall|k1: int, k2: int|
                    s2.index <= k1 < k2 < s2.moves.len() && entry_hits(#[trigger] s2.moves[k2], s2.mask)
                        implies entry_hits(#[trigger] s2.moves[k1], s2.mask) by {
                    assert(s2.moves[k2] == s.moves[k2]);
                    if k1 != s.index {
                        assert(s2.moves[k1] == s.moves[k1]);
                    }
                }
                assert forall|k: int| 0 <= k < s2.index implies !entry_hits(#[trigger] s2.moves[k], s2.mask) by {
                    if k != s.index {
                        assert(s2.moves[k] == s.moves[k]);
                    }
                }
            }
        }
    }
}

/// When the iterator is done, no move it still holds lands in the mask of
/// its last phase; so when the last mask is the full board, every move has
/// been produced.  This holds when the current phase was ordered by
/// `set_first_mask(None)` or by an earlier phase change, or when a phase
/// change is still to come.
pub proof fn lemma_done_leaves_nothing_in_last_mask(s: IterState)
    requires
        wf(s),
        phase_ordered(s) || s.mask_index + 1 < s.masks.len(),
        step(s).0 is None,
    ensures
        forall|sq: u8, d: u64| #[trigger]
            pending(step(s).1.moves, sq, d) ==> !has_bit(step(s).1.mask, d),
        forall|sq: u8, d: u64| #[trigger]
            pending(step(s).1.moves, sq, d) <==> pending(s.moves, sq, d),
        s.mask_index + 1 < s.masks.len() ==> step(s).1.mask == s.masks.last(),
    decreases s.masks.len() - s.mask_index,
{
    assert(!active(s));
    let s1 = IterState {
        moves: s.moves,
        index: s.index,
        mask_index: s.mask_index + 1,
        promotion_index: s.promotion_index,
        mask: s.mask,
        masks: s.masks,
    };
    if s1.mask_index >= s.masks.len() {
        assert forall|sq: u8, d: u64| #[trigger]
            pending(step(s).1.moves, sq, d) implies !has_bit(step(s).1.mask, d) by {
            let k = choose|k: int|
                0 <= k < s.moves.len() && #[trigger] s.moves[k].square == sq && has_bit(
                    s.moves[k].bitboard,
                    d,
                );
            if has_bit(s.mask, d) {
                lemma_bit_and(s.moves[k].bitboard, s.mask, d);
                lemma_empty_iff_no_bits(s.moves[k].bitboard & s.mask);
                if k >= s.index && s.index < s.moves.len() && k != s.index {
                    assert(entry_hits(s.moves[k], s.mask));
                }
            }
        }
    } else {
        let s3 = with_mask(s1, s.masks[s1.mask_index]);
        lemma_with_mask(s1, s.masks[s1.mask_index]);
        lemma_partition_props(s.moves, s.masks[s1.mask_index]);
        assert forall|k: int| 0 <= k < s3.moves.len() implies #[trigger] s3.moves[k].square < 64 by {
            assert(s3.moves.contains(s3.moves[k]));
            let i = choose|i: int| 0 <= i < s.moves.len() && s.moves[i] == s3.moves[k];
            assert(s.moves[i].square < 64);
        }
        lemma_done_leaves_nothing_in_last_mask(s3);
    }
}

/// A move of the list `ms` goes from `sq` to `d`.
pub open spec fn listed(ms: Seq<Move>, sq: u8, d: u64) -> bool {
    exists|i: int| 0 <= i < ms.len() && (#[trigger] ms[i]).source == sq && ms[i].dest as u64 == d
}

/// Some move of the list `ms` from `sq` is a promotion.
pub open spec fn listed_promotion(ms: Seq<Move>, sq: u8) -> bool {
    exists|i: int| 0 <= i < ms.len() && (#[trigger] ms[i]).source == sq && ms[i].promotion is Some
}

/// Grouping moves into entries loses and adds nothing: there is one entry
/// per source square, the held moves are exactly the listed ones, and an
/// entry promotes exactly when some listed move from its square does.
pub proof fn lemma_group_moves(ms: Seq<Move>)
    requires
        forall|i: int| 0 <= i < ms.len() ==> (#[trigger] ms[i]).dest < 64,
    ensures
        forall|k: int|
            0 <= k < group_moves(ms).len() ==> exists|i: int|
                0 <= i < ms.len() && (#[trigger] ms[i]).source == (#[trigger] group_moves(ms)[k]).square,
        unique_squares(group_moves(ms)),
        no_shared_moves(group_moves(ms)),
        forall|sq: u8, d: u64| #[trigger] pending(group_moves(ms), sq, d) <==> listed(ms, sq, d),
        forall|k: int|
            0 <= k < group_moves(ms).len() ==> (#[trigger] group_moves(ms)[k]).promotion
                == listed_promotion(ms, group_moves(ms)[k].square),
    decreases ms.len(),
{
    let g = group_moves(ms);
    if ms.len() == 0 {
        assert(g.len() == 0);
    } else {
        let ms0 = ms.drop_last();
        let m = ms.last();
        assert(ms[ms.len() - 1].dest < 64);
        assert forall|i: int| 0 <= i < ms0.len() implies (#[trigger] ms0[i]).dest < 64 by {
            assert(ms0[i] == ms[i]);
        }
        lemma_group_moves(ms0);
        let g0 = group_moves(ms0);
        lemma_find_square(g0, m.source);
        let k = find_square(g0, m.source);
        let dest = m.dest as u64;
        assert forall|i: int| 0 <= i < ms0.len() implies #[trigger] ms0[i] == ms[i] by {}
        assert(ms[ms.len() - 1] == m);
        assert forall|sq: u8, d: u64| #[trigger] listed(ms, sq, d) <==> (listed(ms0, sq, d) || (sq
            == m.source && d == dest)) by {
            if listed(ms, sq, d) {
                let i = choose|i: int|
                    0 <= i < ms.len() && (#[trigger] ms[i]).source == sq && ms[i].dest as u64 == d;
                if i < ms0.len() {
                    assert(ms0[i] == ms[i]);
                }
            }
            if listed(ms0, sq, d) {
                let i = choose|i: int|
                    0 <= i < ms0.len() && (#[trigger] ms0[i]).source == sq && ms0[i].dest as u64 == d;
                assert(ms[i] == ms0[i]);
            }
            if sq == m.source && d == dest {
                assert(ms[ms.len() - 1] == m);
            }
        }
        assert forall|sq: u8| #[trigger] listed_promotion(ms, sq) <==> (listed_promotion(ms0, sq) || (
        sq == m.source && m.promotion is Some)) by {
            if listed_promotion(ms, sq) {
                let i = choose|i: int|
                    0 <= i < ms.len() && (#[trigger] ms[i]).source == sq && ms[i].promotion is Some;
                if i < ms0.len() {
                    assert(ms0[i] == ms[i]);
                }
            }
            if listed_promotion(ms0, sq) {
                let i = choose|i: int|
                    0 <= i < ms0.len() && (#[trigger] ms0[i]).source == sq && ms0[i].promotion is Some;
                assert(ms[i] == ms0[i]);
            }
            if sq == m.source && m.promotion is Some {
                assert(ms[ms.len() - 1] == m);
            }
        }
        if k < g0.len() {
            assert(g == g0.update(
                k,
                SquareAndBitBoard {
                    square: g0[k].square,
                    bitboard: g0[k].bitboard | square_bit(dest),
                    promotion: g0[k].promotion || m.promotion is Some,
                },
            ));
            assert forall|sq: u8, d: u64| #[trigger] pending(g, sq, d) <==> listed(ms, sq, d) by {
                if d < 64 {
                    lemma_bit_or(g0[k].bitboard, dest, d);
                }
                if pending(g, sq, d) {
                    let j = choose|j: int|
                        0 <= j < g.len() && #[trigger] g[j].square == sq && has_bit(g[j].bitboard, d);
                    if j != k {
                        assert(g[j] == g0[j]);
                        assert(pending(g0, sq, d));
                    } else if d != dest {
                        assert(pending(g0, sq, d));
                    }
                }
                if listed(ms, sq, d) {
                    if listed(ms0, sq, d) {
                        assert(pending(g0, sq, d));
                        let j = choose|j: int|
                            0 <= j < g0.len() && #[trigger] g0[j].square == sq && has_bit(
                                g0[j].bitboard,
                                d,
                            );
                        if j != k {
                            assert(g[j] == g0[j]);
                        }
                        assert(g[j].square == sq && has_bit(g[j].bitboard, d));
                    } else {
                        assert(g[k].square == sq && has_bit(g[k].bitboard, d));
                    }
                }
            }
            assert forall|j: int| 0 <= j < g.len() implies (#[trigger] g[j]).promotion
                == listed_promotion(ms, g[j].square) by {
                assert(g0[j].promotion == listed_promotion(ms0, g0[j].square));
                if j != k {
                    assert(g0[j].square != m.source);
                }
            }
            assert forall|k1: int, k2: int|
                0 <= k1 < g.len() && 0 <= k2 < g.len() && k1 != k2 implies #[trigger] g[k1].square
                != #[trigger] g[k2].square by {
                assert(g0[k1].square != g0[k2].square);
            }
        } else {
            let e = SquareAndBitBoard {
                square: m.source,
                bitboard: square_bit(dest),
                promotion: m.promotion is Some,
            };
            assert(g == g0.push(e));
            assert forall|sq: u8, d: u64| #[trigger] pending(g, sq, d) <==> listed(ms, sq, d) by {
                lemma_square_bit(dest, d);
                if pending(g, sq, d) {
                    let j = choose|j: int|
                        0 <= j < g.len() && #[trigger] g[j].square == sq && has_bit(g[j].bitboard, d);
                    if j < g0.len() {
                        assert(g[j] == g0[j]);
                        assert(pending(g0, sq, d));
                    } else {
                        assert(g[j] == e);
                        assert(sq == m.source && d == dest);
                    }
                }
                if listed(ms, sq, d) {
                    if listed(ms0, sq, d) {
                        assert(pending(g0, sq, d));
                        let j = choose|j: int|
                            0 <= j < g0.len() && #[trigger] g0[j].square == sq && has_bit(
                                g0[j].bitboard,
                                d,
                            );
                        assert(g[j] == g0[j]);
                    } else {
                        assert(g[g0.len() as int] == e);
                        assert(sq == m.source && d == dest);
                        assert(g[g0.len() as int].square == sq && has_bit(g[g0.len() as int].bitboard, d));
                    }
                }
            }
            assert forall|j: int| 0 <= j < g.len() implies (#[trigger] g[j]).promotion
                == listed_promotion(ms, g[j].square) by {
                if j < g0.len() {
                    assert(g[j] == g0[j]);
                    assert(g0[j].promotion == listed_promotion(ms0, g0[j].square));
                    assert(g0[j].square != m.source);
                } else {
                    assert(g[j] == e);
                    if listed_promotion(ms0, m.source) {
                        let i = choose|i: int|
                            0 <= i < ms0.len() && (#[trigger] ms0[i]).source == m.source
                                && ms0[i].promotion is Some;
                        assert(listed(ms0, m.source, ms0[i].dest as u64));
                        assert(pending(g0, m.source, ms0[i].dest as u64));
                    }
                }
            }
            assert forall|k1: int, k2: int|
                0 <= k1 < g.len() && 0 <= k2 < g.len() && k1 != k2 implies #[trigger] g[k1].square
                != #[trigger] g[k2].square by {
                if k1 < g0.len() && k2 < g0.len() {
                    assert(g0[k1].square != g0[k2].square);
                }
            }
        }
        assert forall|k1: int, k2: int|
            0 <= k1 < g.len() && 0 <= k2 < g.len() && k1 != k2 implies entries_disjoint(
            #[trigger] g[k1],
            #[trigger] g[k2],
        ) by {
            assert(g[k1].square != g[k2].square);
        }
        assert forall|j: int| 0 <= j < g.len() implies exists|i: int|
            0 <= i < ms.len() && (#[trigger] ms[i]).source == (#[trigger] g[j]).square by {
            if j < g0.len() {
                assert(exists|i: int| 0 <= i < ms0.len() && (#[trigger] ms0[i]).source == g0[j].square);
                let i = choose|i: int| 0 <= i < ms0.len() && (#[trigger] ms0[i]).source == g0[j].square;
                assert(ms[i] == ms0[i]);
                assert(g[j].square == g0[j].square);
            } else {
                assert(ms[ms.len() - 1].source == g[j].square);
            }
        }
    }
}

/// An entry stands for as many moves on its board square as before.
proof fn lemma_total_moves_board_entries(s: Seq<SquareAndBitBoard>)
    ensures
        total_moves(s.map_values(|e: SquareAndBitBoard| board_entry(e))) == total_moves(s),
    decreases s.len(),
{
    if s.len() > 0 {
        let f = |e: SquareAndBitBoard| board_entry(e);
        assert(s.map_values(f).drop_last() =~= s.drop_last().map_values(f));
        lemma_total_moves_board_entries(s.drop_last());
        assert(entry_moves(board_entry(s.last())) == entry_moves(s.last()));
    }
}

/// The keyed list: each keyed source is below 128, is 64 or more exactly
/// for an en passant capture, and stands for the move's board square.
pub proof fn lemma_keyed_facts(ms: Seq<Move>, eps: Seq<bool>)
    requires
        forall|i: int| 0 <= i < ms.len() ==> move_on_board(#[trigger] ms[i]),
        marks_consistent(ms, eps),
    ensures
        keyed_moves(ms, eps).len() == ms.len(),
        forall|i: int|
            0 <= i < ms.len() ==> {
                let v = #[trigger] keyed_moves(ms, eps)[i];
                &&& v.source < 128
                &&& (v.source >= 64) == eps[i]
                &&& board_square(v.source) == ms[i].source
                &&& v.dest == ms[i].dest
                &&& v.promotion == ms[i].promotion
            },
        forall|k: int|
            0 <= k < group_moves(keyed_moves(ms, eps)).len() ==> #[trigger] group_moves(
                keyed_moves(ms, eps),
            )[k].square < 128,
        forall|k: int|
            0 <= k < group_moves(keyed_moves(ms, eps)).len() ==> exists|i: int|
                0 <= i < ms.len() && (#[trigger] keyed_moves(ms, eps)[i]).source == (#[trigger] group_moves(
                    keyed_moves(ms, eps),
                )[k]).square,
        unique_squares(group_moves(keyed_moves(ms, eps))),
        forall|sq: u8, d: u64| #[trigger]
            pending(group_moves(keyed_moves(ms, eps)), sq, d) <==> listed(keyed_moves(ms, eps), sq, d),
        forall|k: int|
            0 <= k < group_moves(keyed_moves(ms, eps)).len() ==> (#[trigger] group_moves(
                keyed_moves(ms, eps),
            )[k]).promotion == listed_promotion(
                keyed_moves(ms, eps),
                group_moves(keyed_moves(ms, eps))[k].square,
            ),
{
    let vms = keyed_moves(ms, eps);
    let vg = group_moves(vms);
    assert forall|i: int| 0 <= i < vms.len() implies (#[trigger] vms[i]).dest < 64 by {
        assert(move_on_board(ms[i]));
    }
    lemma_group_moves(vms);
    assert forall|i: int| 0 <= i < ms.len() implies {
        let v = #[trigger] vms[i];
        &&& v.source < 128
        &&& (v.source >= 64) == eps[i]
        &&& board_square(v.source) == ms[i].source
        &&& v.dest == ms[i].dest
        &&& v.promotion == ms[i].promotion
    } by {
        assert(move_on_board(ms[i]));
    }
    assert forall|k: int| 0 <= k < vg.len() implies #[trigger] vg[k].square < 128 by {
        let i = choose|i: int| 0 <= i < vms.len() && (#[trigger] vms[i]).source == vg[k].square;
        assert(move_on_board(ms[i]));
    }
}

/// The bits of an entry come from moves of its own kind.
pub proof fn lemma_entry_bits(ms: Seq<Move>, eps: Seq<bool>)
    requires
        forall|i: int| 0 <= i < ms.len() ==> move_on_board(#[trigger] ms[i]),
        marks_consistent(ms, eps),
    ensures
        ({
            let g = move_entries(ms, eps);
            let vg = group_moves(keyed_moves(ms, eps));
            forall|k: int, d: u64|
                0 <= k < g.len() && #[trigger] has_bit(g[k].bitboard, d) ==> exists|i: int|
                    0 <= i < ms.len() && (#[trigger] ms[i]).source == g[k].square && ms[i].dest as u64
                        == d && eps[i] == (vg[k].square >= 64)
        }),
{
    lemma_keyed_facts(ms, eps);
    let vms = keyed_moves(ms, eps);
    let vg = group_moves(vms);
    let g = move_entries(ms, eps);
    assert forall|k: int, d: u64|
        0 <= k < g.len() && #[trigger] has_bit(g[k].bitboard, d) implies exists|i: int|
        0 <= i < ms.len() && (#[trigger] ms[i]).source == g[k].square && ms[i].dest as u64 == d
            && eps[i] == (vg[k].square >= 64) by {
        assert(g[k] == board_entry(vg[k]));
        assert(pending(vg, vg[k].square, d));
        let i = choose|i: int|
            0 <= i < vms.len() && (#[trigger] vms[i]).source == vg[k].square && vms[i].dest as u64 == d;
        assert(ms[i].source == g[k].square);
    }
}

/// Each listed move is held by an entry of its own kind on its square.
pub proof fn lemma_moves_held(ms: Seq<Move>, eps: Seq<bool>)
    requires
        forall|i: int| 0 <= i < ms.len() ==> move_on_board(#[trigger] ms[i]),
        marks_consistent(ms, eps),
    ensures
        ({
            let g = move_entries(ms, eps);
            let vg = group_moves(keyed_moves(ms, eps));
            forall|i: int|
                0 <= i < ms.len() ==> exists|k: int|
                    0 <= k < g.len() && (#[trigger] g[k]).square == (#[trigger] ms[i]).source
                        && has_bit(g[k].bitboard, ms[i].dest as u64) && (vg[k].square >= 64) == eps[i]
        }),
{
    lemma_keyed_facts(ms, eps);
    let vms = keyed_moves(ms, eps);
    let vg = group_moves(vms);
    let g = move_entries(ms, eps);
    assert forall|i: int| 0 <= i < ms.len() implies exists|k: int|
        0 <= k < g.len() && (#[trigger] g[k]).square == (#[trigger] ms[i]).source && has_bit(
            g[k].bitboard,
            ms[i].dest as u64,
        ) && (vg[k].square >= 64) == eps[i] by {
        let d = ms[i].dest as u64;
        assert(vms[i].source < 128);
        assert(listed(vms, vms[i].source, d));
        assert(pending(vg, vms[i].source, d));
        let k = choose|k: int|
            0 <= k < vg.len() && #[trigger] vg[k].square == vms[i].source && has_bit(vg[k].bitboard, d);
        assert(g[k] == board_entry(vg[k]));
    }
}

/// An entry promotes exactly when a listed move of its kind from its
/// square does.
pub proof fn lemma_entry_kinds(ms: Seq<Move>, eps: Seq<bool>)
    requires
        forall|i: int| 0 <= i < ms.len() ==> move_on_board(#[trigger] ms[i]),
        marks_consistent(ms, eps),
    ensures
        ({
            let g = move_entries(ms, eps);
            let vg = group_moves(keyed_moves(ms, eps));
            forall|k: int|
                0 <= k < g.len() ==> ((#[trigger] g[k]).promotion <==> exists|i: int|
                    0 <= i < ms.len() && (#[trigger] ms[i]).source == g[k].square && eps[i] == (
                    vg[k].square >= 64) && ms[i].promotion is Some)
        }),
{
    lemma_keyed_facts(ms, eps);
    let vms = keyed_moves(ms, eps);
    let vg = group_moves(vms);
    let g = move_entries(ms, eps);
    assert forall|k: int| 0 <= k < g.len() implies ((#[trigger] g[k]).promotion <==> exists|i: int|
        0 <= i < ms.len() && (#[trigger] ms[i]).source == g[k].square && eps[i] == (vg[k].square >= 64)
            && ms[i].promotion is Some) by {
        assert(g[k] == board_entry(vg[k]));
        if g[k].promotion {
            let i = choose|i: int|
                0 <= i < vms.len() && (#[trigger] vms[i]).source == vg[k].square && vms[i].promotion is Some;
            assert(ms[i].source == g[k].square);
        }
        if exists|i: int|
            0 <= i < ms.len() && (#[trigger] ms[i]).source == g[k].square && eps[i] == (vg[k].square
                >= 64) && ms[i].promotion is Some {
            let i = choose|i: int|
                0 <= i < ms.len() && (#[trigger] ms[i]).source == g[k].square && eps[i] == (
                vg[k].square >= 64) && ms[i].promotion is Some;
            assert(vms[i].source < 128);
            assert(vms[i].source == vg[k].square);
            assert(listed_promotion(vms, vg[k].square));
        }
    }
}

/// The entry at `k` has a listed move of its kind on its square.
pub proof fn lemma_entry_provenance(ms: Seq<Move>, eps: Seq<bool>, k: int)
    requires
        forall|i: int| 0 <= i < ms.len() ==> move_on_board(#[trigger] ms[i]),
        marks_consistent(ms, eps),
        0 <= k < move_entries(ms, eps).len(),
    ensures
        exists|i: int|
            0 <= i < ms.len() && ms[i].source == move_entries(ms, eps)[k].square && eps[i] == (group_moves(
                keyed_moves(ms, eps),
            )[k].square >= 64),
{
    lemma_keyed_facts(ms, eps);
    let vms = keyed_moves(ms, eps);
    let vg = group_moves(vms);
    let g = move_entries(ms, eps);
    let i = choose|i: int| 0 <= i < vms.len() && (#[trigger] vms[i]).source == vg[k].square;
    assert(g[k] == board_entry(vg[k]));
    assert(ms[i].source == g[k].square);
}

/// No move is held by two entries, and the entries stand for at most
/// 32768 moves.
pub proof fn lemma_entries_separate(ms: Seq<Move>, eps: Seq<bool>)
    requires
        forall|i: int| 0 <= i < ms.len() ==> move_on_board(#[trigger] ms[i]),
        marks_consistent(ms, eps),
    ensures
        no_shared_moves(move_entries(ms, eps)),
        total_moves(move_entries(ms, eps)) <= 32768,
        forall|sq: u8, d: u64| #[trigger] pending(move_entries(ms, eps), sq, d) <==> listed(ms, sq, d),
{
    lemma_keyed_facts(ms, eps);
    lemma_entry_bits(ms, eps);
    lemma_moves_held(ms, eps);
    let vms = keyed_moves(ms, eps);
    let vg = group_moves(vms);
    let g = move_entries(ms, eps);
    assert forall|k1: int, k2: int|
        0 <= k1 < g.len() && 0 <= k2 < g.len() && k1 != k2 implies entries_disjoint(
        #[trigger] g[k1],
        #[trigger] g[k2],
    ) by {
        if g[k1].square == g[k2].square && g[k1].bitboard & g[k2].bitboard != 0 {
            let b = g[k1].bitboard & g[k2].bitboard;
            lemma_empty_iff_no_bits(b);
            let d = lowest_square(b);
            lemma_bit_and(g[k1].bitboard, g[k2].bitboard, d);
            assert(has_bit(g[k1].bitboard, d));
            assert(has_bit(g[k2].bitboard, d));
            let i1 = choose|i: int|
                0 <= i < ms.len() && (#[trigger] ms[i]).source == g[k1].square && ms[i].dest as u64 == d
                    && eps[i] == (vg[k1].square >= 64);
            let i2 = choose|i: int|
                0 <= i < ms.len() && (#[trigger] ms[i]).source == g[k2].square && ms[i].dest as u64 == d
                    && eps[i] == (vg[k2].square >= 64);
            assert(ms[i1].dest == ms[i2].dest);
            assert(eps[i1] == eps[i2]);
            assert(g[k1] == board_entry(vg[k1]) && g[k2] == board_entry(vg[k2]));
            assert(vg[k1].square < 128 && vg[k2].square < 128);
            assert(vg[k1].square == vg[k2].square);
        }
    }
    assert forall|sq: u8, d: u64| #[trigger] pending(g, sq, d) <==> listed(ms, sq, d) by {
        if pending(g, sq, d) {
            let k = choose|k: int|
                0 <= k < g.len() && #[trigger] g[k].square == sq && has_bit(g[k].bitboard, d);
            assert(has_bit(g[k].bitboard, d));
        }
        if listed(ms, sq, d) {
            let i = choose|i: int| 0 <= i < ms.len() && (#[trigger] ms[i]).source == sq && ms[i].dest as u64 == d;
            let k = choose|k: int|
                0 <= k < g.len() && (#[trigger] g[k]).square == (#[trigger] ms[i]).source && has_bit(
                    g[k].bitboard,
                    ms[i].dest as u64,
                ) && (vg[k].square >= 64) == eps[i];
            assert(pending(g, sq, d));
        }
    }
    lemma_total_moves_board_entries(vg);
    lemma_unique_squares_bound(vg);
}

/// Each entry is a keyed entry on its board square again, and stands on a
/// square of the board.
pub proof fn lemma_entry_squares(ms: Seq<Move>, eps: Seq<bool>)
    requires
        forall|i: int| 0 <= i < ms.len() ==> move_on_board(#[trigger] ms[i]),
        marks_consistent(ms, eps),
    ensures
        move_entries(ms, eps).len() == group_moves(keyed_moves(ms, eps)).len(),
        forall|k: int|
            0 <= k < move_entries(ms, eps).len() ==> #[trigger] move_entries(ms, eps)[k] == board_entry(
                group_moves(keyed_moves(ms, eps))[k],
            ),
        forall|k: int|
            0 <= k < move_entries(ms, eps).len() ==> (#[trigger] move_entries(ms, eps)[k]).square < 64,
{
    lemma_keyed_facts(ms, eps);
    let vg = group_moves(keyed_moves(ms, eps));
    let g = move_entries(ms, eps);
    assert forall|k: int| 0 <= k < g.len() implies #[trigger] g[k] == board_entry(vg[k]) by {}
    assert forall|k: int| 0 <= k < g.len() implies (#[trigger] g[k]).square < 64 by {
        assert(g[k] == board_entry(vg[k]));
        assert(vg[k].square < 128);
    }
}

/// A move put first with `set_first_mask` is the first move produced (for a
/// promoting pawn: its first promotion, starting from the current promotion
/// piece), provided it is one of the moves the iterator holds and the
/// iterator has not started yet.  The held moves stay the same, none is held
/// twice, and phase and mask stay in step.
pub proof fn lemma_first_move_comes_first(s: IterState, m: Move)
    requires
        wf(s),
        move_on_board(m),
        s.index == 0,
        s.mask_index == 0,
        no_shared_moves(s.moves),
        find_square(s.moves, m.source) < s.moves.len(),
        has_bit(s.moves[find_square(s.moves, m.source)].bitboard, m.dest as u64),
    ensures
        ({
            let s2 = first_move_state(s, m);
            &&& wf(s2)
            &&& no_shared_moves(s2.moves)
            &&& forall|sq: u8, d: u64| #[trigger] pending(s2.moves, sq, d) <==> pending(s.moves, sq, d)
            &&& synced(s2)
            &&& s2.mask_index + 1 < s2.masks.len()
            &&& step(s2).0 == Some(
                Move {
                    source: m.source,
                    dest: m.dest,
                    promotion: if m.promotion is Some {
                        Some(promotion_piece(s.promotion_index))
                    } else {
                        None
                    },
                },
            )
        }),
{
    let s2 = first_move_state(s, m);
    let dest = m.dest as u64;
    let bit = square_bit(dest);
    lemma_find_square(s.moves, m.source);
    let k = find_square(s.moves, m.source);
    let e = s.moves[k];
    let entry = SquareAndBitBoard { square: m.source, bitboard: bit, promotion: m.promotion is Some };
    let e2 = SquareAndBitBoard { square: e.square, bitboard: e.bitboard ^ bit, promotion: e.promotion };
    let upd = s.moves.update(k, e2);
    assert(s2.moves == seq![entry] + upd);
    assert forall|i: int| 0 <= i < s2.moves.len() implies #[trigger] s2.moves[i] == (if i == 0 {
        entry
    } else {
        upd[i - 1]
    }) by {}
    assert forall|i: int| 0 <= i < s2.moves.len() implies #[trigger] s2.moves[i].square < 64 by {
        if i > 0 && i - 1 != k {
            assert(s.moves[i - 1].square < 64);
        }
    }
    assert forall|sq: u8, d: u64| #[trigger] pending(s2.moves, sq, d) <==> pending(s.moves, sq, d) by {
        lemma_square_bit(dest, d);
        if d < 64 {
            lemma_bit_xor(e.bitboard, dest, d);
        }
        if pending(s2.moves, sq, d) {
            let i = choose|i: int|
                0 <= i < s2.moves.len() && #[trigger] s2.moves[i].square == sq && has_bit(
                    s2.moves[i].bitboard,
                    d,
                );
            if i == 0 {
                assert(sq == m.source && d == dest);
            } else if i - 1 == k {
                assert(s.moves[k].square == sq && has_bit(s.moves[k].bitboard, d));
            } else {
                assert(s.moves[i - 1] == s2.moves[i]);
            }
        }
        if pending(s.moves, sq, d) {
            let i = choose|i: int|
                0 <= i < s.moves.len() && #[trigger] s.moves[i].square == sq && has_bit(
                    s.moves[i].bitboard,
                    d,
                );
            if i == k && d == dest {
                assert(s2.moves[0].square == sq && has_bit(s2.moves[0].bitboard, d));
            } else {
                assert(s2.moves[i + 1].square == sq && has_bit(s2.moves[i + 1].bitboard, d));
            }
        }
    }
    assert forall|k1: int, k2: int|
        0 <= k1 < s2.moves.len() && 0 <= k2 < s2.moves.len() && k1 != k2 implies entries_disjoint(
        #[trigger] s2.moves[k1],
        #[trigger] s2.moves[k2],
    ) by {
        let a = e.bitboard;
        assert((a >> dest) & 1u64 == 1u64 ==> (a ^ (1u64 << dest)) & (1u64 << dest) == 0 && (1u64
            << dest) & (a ^ (1u64 << dest)) == 0) by (bit_vector)
            requires
                dest < 64,
        ;
        if k1 > 0 && k2 > 0 {
            assert(entries_disjoint(s.moves[k1 - 1], s.moves[k2 - 1]));
            if k1 - 1 == k {
                let b = s.moves[k2 - 1].bitboard;
                assert((a >> dest) & 1u64 == 1u64 && a & b == 0 ==> (a ^ (1u64 << dest)) & b == 0)
                    by (bit_vector)
                    requires
                        dest < 64,
                ;
            } else if k2 - 1 == k {
                let b = s.moves[k1 - 1].bitboard;
                assert((a >> dest) & 1u64 == 1u64 && b & a == 0 ==> b & (a ^ (1u64 << dest)) == 0)
                    by (bit_vector)
                    requires
                        dest < 64,
                ;
            }
        } else if k1 == 0 && k2 - 1 != k {
            let b = s.moves[k2 - 1].bitboard;
            assert(entries_disjoint(s.moves[k], s.moves[k2 - 1]));
            assert((a >> dest) & 1u64 == 1u64 && a & b == 0 ==> (1u64 << dest) & b == 0) by (bit_vector)
                requires
                    dest < 64,
            ;
        } else if k2 == 0 && k1 - 1 != k {
            let b = s.moves[k1 - 1].bitboard;
            assert(entries_disjoint(s.moves[k1 - 1], s.moves[k]));
            assert((a >> dest) & 1u64 == 1u64 && b & a == 0 ==> b & (1u64 << dest) == 0) by (bit_vector)
                requires
                    dest < 64,
            ;
        }
    }
    assert(bit & bit == bit) by (bit_vector);
    lemma_empty_iff_no_bits(bit);
    lemma_square_bit(dest, lowest_square(bit));
    assert(bit != 0) by {
        lemma_square_bit(dest, dest);
    }
    assert(active(s2));
}

/// Starting the first phase with `set_first_mask(None)` keeps the held
/// moves, orders the entries for the phase and puts phase and mask in step.
pub proof fn lemma_first_phase(s: IterState)
    requires
        wf(s),
        s.mask_index == 0,
    ensures
        ({
            let s2 = with_mask(s, s.masks[0]);
            &&& phase_ordered(s2)
            &&& synced(s2)
            &&& forall|sq: u8, d: u64| #[trigger] pending(s2.moves, sq, d) <==> pending(s.moves, sq, d)
            &&& no_shared_moves(s.moves) ==> no_shared_moves(s2.moves)
        }),
{
    lemma_with_mask(s, s.masks[0]);
}

proof fn lemma_total_moves_bound(s: Seq<SquareAndBitBoard>)
    ensures
        total_moves(s) <= 256 * s.len(),
    decreases s.len(),
{
    if s.len() > 0 {
        lemma_total_moves_bound(s.drop_last());
        lemma_bit_count_bound(s.last().bitboard, 64);
    }
}

/// Entries on different squares, numbered below 128, number at most 128,
/// and stand for at most 32768 moves.
pub proof fn lemma_unique_squares_bound(s: Seq<SquareAndBitBoard>)
    requires
        unique_squares(s),
        forall|k: int| 0 <= k < s.len() ==> #[trigger] s[k].square < 128,
    ensures
        s.len() <= 128,
        total_moves(s) <= 32768,
{
    let sq = s.map_values(|e: SquareAndBitBoard| e.square as int);
    assert forall|i: int, j: int|
        0 <= i < sq.len() && 0 <= j < sq.len() && i != j implies sq[i] != sq[j] by {
        assert(s[i].square != s[j].square);
    }
    assert(sq.no_duplicates());
    sq.unique_seq_to_set();
    lemma_int_range(0, 128);
    assert forall|x: int| sq.to_set().contains(x) implies set_int_range(0, 128).contains(x) by {
        let i = choose|i: int| 0 <= i < sq.len() && sq[i] == x;
        assert(s[i].square < 128);
    }
    lemma_len_subset(sq.to_set(), set_int_range(0, 128));
    lemma_total_moves_bound(s);
}

/// Once `next` has returned `None`, it returns `None` again: the state it
/// leaves is past its last phase and has no move left in the current mask,
/// and the next call only moves the phase number on.
pub proof fn lemma_exhausted_stays_exhausted(s: IterState)
    requires
        step(s).0 is None,
    ensures
        step(step(s).1).0 is None,
        step(step(s).1).1.moves == step(s).1.moves,
        step(step(s).1).1.mask == step(s).1.mask,
        step(step(s).1).1.mask_index == step(s).1.mask_index + 1,
    decreases s.masks.len() - s.mask_index,
{
    let s1 = IterState {
        moves: s.moves,
        index: s.index,
        mask_index: s.mask_index + 1,
        promotion_index: s.promotion_index,
        mask: s.mask,
        masks: s.masks,
    };
    assert(!active(s));
    if s1.mask_index >= s.masks.len() {
        assert(step(s).1 == s1);
        assert(!active(s1));
    } else {
        let s3 = with_mask(s1, s.masks[s1.mask_index]);
        assert(step(s) == step(s3));
        lemma_exhausted_stays_exhausted(s3);
    }
}

/// Entries split into a front that all hit the mask and a back that none
/// hits are already partitioned.
proof fn lemma_partition_of_split(a: Seq<SquareAndBitBoard>, b: Seq<SquareAndBitBoard>, mask: u64)
    requires
        forall|k: int| 0 <= k < a.len() ==> entry_hits(#[trigger] a[k], mask),
        forall|k: int| 0 <= k < b.len() ==> !entry_hits(#[trigger] b[k], mask),
    ensures
        partition_parts(a + b, mask) == (a, b),
    decreases a.len() + b.len(),
{
    if b.len() > 0 {
        assert((a + b).drop_last() =~= a + b.drop_last());
        lemma_partition_of_split(a, b.drop_last(), mask);
        assert((a + b).last() == b.last());
        assert(!entry_hits(b[b.len() - 1], mask));
        assert(b.drop_last().push(b.last()) =~= b);
    } else if a.len() > 0 {
        assert(a + b =~= a);
        assert(a.drop_last() + b =~= a.drop_last());
        lemma_partition_of_split(a.drop_last(), b, mask);
        assert(entry_hits(a[a.len() - 1], mask));
        assert(a.drop_last().push(a.last()) =~= a);
    } else {
        assert(a + b =~= Seq::<SquareAndBitBoard>::empty());
    }
}

/// Starting the same phase twice in a row leaves the iterator as starting it
/// once: the entries are already in order for the mask.
pub proof fn lemma_with_mask_twice(s: IterState, mask: u64)
    ensures
        with_mask(with_mask(s, mask), mask) == with_mask(s, mask),
{
    lemma_partition_props(s.moves, mask);
    let p = partition_parts(s.moves, mask).0;
    let q = partition_parts(s.moves, mask).1;
    assert forall|k: int| 0 <= k < p.len() implies entry_hits(#[trigger] p[k], mask) by {
        reveal(Seq::filter);
        s.moves.lemma_filter_pred(|e: SquareAndBitBoard| entry_hits(e, mask), k);
    }
    lemma_partition_of_split(p, q, mask);
    assert(partitioned(partitioned(s.moves, mask), mask) == partitioned(s.moves, mask));
}

} // verus!
