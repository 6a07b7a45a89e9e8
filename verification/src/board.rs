//! The per-deal board state.
//!
//! A board holds the 28 triangle cards (fixed for the whole deal), the draw
//! pile with its cursor, the set of currently exposed ("leaf") cells, and
//! per-rank counts of the cards still in play. The two state transitions are
//! removing triangle cards and removing pile cards; both keep the leaf set
//! equal to the set of cells whose whole cone of blockers is gone.

use crate::blocks::{blocked_by_set, card_directly_blocks, covers, row_of};
use crate::RawCard;
use vstd::prelude::*;

verus! {

/// Whether all entries of a card sequence are distinct.
pub open spec fn distinct_cards(s: Seq<RawCard>) -> bool {
    forall|i: int, j: int| 0 <= i < j < s.len() ==> s[i] != s[j]
}

/// Whether a sequence of cell numbers is strictly increasing.
pub open spec fn strictly_increasing(s: Seq<usize>) -> bool {
    forall|i: int, j: int| 0 <= i < j < s.len() ==> s[i] < s[j]
}

/// Whether a sequence of cell numbers mentions cell `c`.
pub open spec fn seq_has(s: Seq<usize>, c: int) -> bool {
    exists|i: int| 0 <= i < s.len() && s[i] as int == c
}

/// How many cards of rank index `r` (0-based, so rank minus one) a card
/// sequence holds.
pub open spec fn count_rank(s: Seq<RawCard>, r: int) -> int
    decreases s.len(),
{
    if s.len() == 0 {
        0
    } else {
        count_rank(s.drop_last(), r) + if s.last().0 % 13 == r {
            1int
        } else {
            0int
        }
    }
}

/// How many of the first `n` triangle cells still hold a card of rank index
/// `r`: cells in `removed` no longer count.
pub open spec fn board_count_rank(cards: Seq<RawCard>, removed: Set<int>, r: int, n: int) -> int
    decreases n,
{
    if n <= 0 {
        0
    } else {
        board_count_rank(cards, removed, r, n - 1) + if !removed.contains(n - 1) && cards[n
            - 1].0 % 13 == r {
            1int
        } else {
            0int
        }
    }
}

/// Whether a triangle-plus-pile deal holds exactly four cards of every rank.
pub open spec fn deal_valid(cards: Seq<RawCard>, stack: Seq<RawCard>) -> bool {
    forall|r: int| 0 <= r < 13 ==> count_rank(cards, r) + count_rank(stack, r) == 4
}

/// Whether every cell of the cone below `c` is in `rem`.
pub open spec fn cone_removed(c: int, rem: Set<int>) -> bool {
    forall|b: int| covers(c, b) ==> rem.contains(b)
}

/// The board state of one deal.
pub struct Board {
    /// The 28 triangle cards in row-major order, apex first. The array stays
    /// fixed for the whole deal; removal is tracked through `leaf_idxs` and
    /// the ghost `removed` set.
    pub board_cards: Vec<RawCard>,
    /// How many cards of each rank (index 0 is Ace) are still in play
    /// anywhere, triangle and pile together.
    pub card_counts: Vec<u8>,
    /// The draw pile, in order.
    pub stack: Vec<RawCard>,
    /// The pile cursor: cards before it have been flipped past, the card at
    /// `stack_idx - 1` is the visible left card, the card at `stack_idx` is
    /// the next to be drawn. Always in `0..=stack.len()`.
    pub stack_idx: i32,
    /// How many cards of each rank the pile still holds.
    pub stack_counts: Vec<u8>,
    /// The exposed triangle cells, as strictly increasing cell numbers.
    pub leaf_idxs: Vec<usize>,
    /// The number of moves made so far; each draw counts as a move.
    pub moves: i32,
    /// Whether finishing the deal also requires emptying the pile.
    pub clear_all: bool,
    /// Whether the deal is finished.
    pub completed: bool,
    /// The triangle cells whose cards have been removed.
    pub removed: Ghost<Set<int>>,
}

impl Board {
    /// Whether the triangle cell `c` is currently exposed.
    pub open spec fn is_leaf(self, c: int) -> bool {
        seq_has(self.leaf_idxs@, c)
    }

    /// The card sitting on triangle cell `c`.
    pub open spec fn card_at(self, c: int) -> RawCard {
        self.board_cards@[c]
    }

    /// The sizes, ranges and distinctness that every well-formed board keeps:
    /// fixed table sizes, a cursor inside the pile, ordered leaf cells, and
    /// no two equal physical cards.
    pub open spec fn cells_ok(self) -> bool {
        &&& self.board_cards@.len() == 28
        &&& self.card_counts@.len() == 13
        &&& self.stack_counts@.len() == 13
        &&& self.stack@.len() <= 24
        &&& 0 <= self.stack_idx <= self.stack@.len() as i32
        &&& strictly_increasing(self.leaf_idxs@)
        &&& forall|i: int| 0 <= i < self.leaf_idxs@.len() ==> self.leaf_idxs@[i] < 28
        &&& distinct_cards(self.board_cards@)
        &&& distinct_cards(self.stack@)
        &&& forall|i: int, j: int|
            0 <= i < 28 && 0 <= j < self.stack@.len() ==> self.board_cards@[i] != self.stack@[j]
    }

    /// The per-rank counts agree with the cards actually present: the pile
    /// counts count the pile, and the overall counts add the triangle cells
    /// not yet removed.
    pub open spec fn counts_ok(self) -> bool {
        &&& forall|r: int|
            0 <= r < 13 ==> self.stack_counts@[r] as int == count_rank(self.stack@, r)
        &&& forall|r: int|
            0 <= r < 13 ==> self.card_counts@[r] as int == count_rank(self.stack@, r)
            + board_count_rank(self.board_cards@, self.removed@, r, 28)
    }

    /// The leaf set is exactly what the removal history says it should be:
    /// removal only ever happened to exposed cells (so the removed set is
    /// closed downward over the cones), and a cell is a leaf exactly when it
    /// is still present with its whole cone removed.
    pub open spec fn topology_ok(self) -> bool {
        &&& forall|c: int| self.removed@.contains(c) ==> 0 <= c < 28
        &&& forall|c: int| self.removed@.contains(c) ==> cone_removed(c, self.removed@)
        &&& forall|c: int|
            0 <= c < 28 ==> (self.is_leaf(c) <==> (!self.removed@.contains(c) && cone_removed(
                c,
                self.removed@,
            )))
    }

    /// Everything a board started from a real deal keeps through play.
    pub open spec fn inv(self) -> bool {
        self.cells_ok() && self.counts_ok() && self.topology_ok()
    }

    /// Build the board for a fresh deal: the triangle cards row by row, the
    /// pile in order, the initially exposed cells, and whether finishing also
    /// requires emptying the pile. The move counter and the pile cursor start
    /// at zero.
    pub fn new(cards: Vec<RawCard>, stack: Vec<RawCard>, leaf_idxs: Vec<usize>, clear_all: bool) -> (r:
        Board)
        requires
            cards@.len() >= 28,
            stack@.len() <= 24,
            distinct_cards(cards@.take(28)),
            distinct_cards(stack@),
            forall|i: int, j: int|
                0 <= i < 28 && 0 <= j < stack@.len() ==> cards@[i] != stack@[j],
            forall|i: int| 0 <= i < leaf_idxs@.len() ==> leaf_idxs@[i] < 28,
        ensures
            r.cells_ok(),
            r.board_cards@ == cards@.take(28),
            r.stack@ == stack@,
            r.stack_idx == 0,
            r.moves == 0,
            r.completed == false,
            r.clear_all == clear_all,
            r.removed@ == Set::<int>::empty(),
            forall|c: int| r.is_leaf(c) <==> seq_has(leaf_idxs@, c),
            forall|r_: int| 0 <= r_ < 13 ==> r.card_counts@[r_] == 4,
            forall|r_: int|
                0 <= r_ < 13 ==> r.stack_counts@[r_] as int == count_rank(stack@, r_),
            deal_valid(cards@.take(28), stack@) ==> r.counts_ok(),
            (forall|c: int| seq_has(leaf_idxs@, c) <==> 21 <= c < 28) ==> r.topology_ok(),
    {
        let mut card_counts: Vec<u8> = Vec::new();
        let mut stack_counts: Vec<u8> = Vec::new();
        let mut k: usize = 0;
        while k < 13
            invariant
                k <= 13,
                card_counts@.len() == k,
                stack_counts@.len() == k,
                forall|i: int| 0 <= i < k ==> card_counts@[i] == 4,
                forall|i: int| 0 <= i < k ==> stack_counts@[i] == 0,
            decreases 13 - k,
        {
            card_counts.push(4);
            stack_counts.push(0);
            k += 1;
        }
        let mut si: usize = 0;
        while si < stack.len()
            invariant
                si <= stack@.len(),
                stack@.len() <= 24,
                stack_counts@.len() == 13,
                forall|r_: int|
                    0 <= r_ < 13 ==> stack_counts@[r_] as int == count_rank(
                        stack@.take(si as int),
                        r_,
                    ),
            decreases stack@.len() - si,
        {
            let r_idx = (stack[si].0 % 13) as usize;
            proof {
                assert(stack@.take(si as int + 1).drop_last() =~= stack@.take(si as int));
                assert(count_rank(stack@.take(si as int), r_idx as int) <= stack@.take(
                    si as int,
                ).len()) by {
                    lemma_count_rank_le_len(stack@.take(si as int), r_idx as int);
                }
            }
            proof {
                assert(stack_counts@[r_idx as int] as int == count_rank(
                    stack@.take(si as int),
                    r_idx as int,
                ));
                assert(stack@.take(si as int).len() == si as int);
            }
            let c = stack_counts[r_idx];
            stack_counts.set(r_idx, c + 1);
            proof {
                assert forall|r_: int| 0 <= r_ < 13 implies count_rank(
                    stack@.take(si as int + 1),
                    r_,
                ) == count_rank(stack@.take(si as int), r_) + (if stack@[si as int].0 % 13 == r_ {
                    1int
                } else {
                    0int
                }) by {
                    assert(stack@.take(si as int + 1).drop_last() =~= stack@.take(si as int));
                    assert(stack@.take(si as int + 1).last() == stack@[si as int]);
                }
            }
            si += 1;
        }
        proof {
            assert(stack@.take(stack@.len() as int) =~= stack@);
        }
        let mut board_cards: Vec<RawCard> = Vec::new();
        let mut bi: usize = 0;
        while bi < 28
            invariant
                bi <= 28,
                cards@.len() >= 28,
                board_cards@ == cards@.take(bi as int),
            decreases 28 - bi,
        {
            board_cards.push(cards[bi]);
            proof {
                assert(cards@.take(bi as int + 1) =~= cards@.take(bi as int).push(
                    cards@[bi as int],
                ));
            }
            bi += 1;
        }
        let leaf_sorted = sorted_cells(&leaf_idxs);
        proof {
            assert forall|i: int| 0 <= i < leaf_sorted@.len() implies leaf_sorted@[i] < 28 by {
                assert(seq_has(leaf_idxs@, leaf_sorted@[i] as int));
                let j = choose|j: int|
                    0 <= j < leaf_idxs@.len() && #[trigger] leaf_idxs@[j] as int
                        == leaf_sorted@[i] as int;
                assert(leaf_idxs@[j] < 28);
            }
        }
        let ghost rem = Set::<int>::empty();
        let b = Board {
            board_cards,
            card_counts,
            stack,
            stack_idx: 0,
            stack_counts,
            leaf_idxs: leaf_sorted,
            moves: 0,
            completed: false,
            clear_all,
            removed: Ghost(rem),
        };
        proof {
            if deal_valid(cards@.take(28), stack@) {
                assert forall|r_: int| 0 <= r_ < 13 implies b.card_counts@[r_] as int == count_rank(
                    b.stack@,
                    r_,
                ) + board_count_rank(b.board_cards@, rem, r_, 28) by {
                    lemma_board_count_rank_full(b.board_cards@, rem, r_, 28);
                    assert(b.board_cards@.take(28) =~= b.board_cards@);
                    assert(count_rank(cards@.take(28), r_) + count_rank(stack@, r_) == 4);
                }
            }
            if forall|c: int| seq_has(leaf_idxs@, c) <==> 21 <= c < 28 {
                assert forall|c: int| 0 <= c < 28 implies (b.is_leaf(c) <==> (!rem.contains(c)
                    && cone_removed(c, rem))) by {
                    crate::blocks::lemma_bottom_row_uncovered(c);
                    if 21 <= c < 28 {
                        assert(blocked_by_set(c).is_empty());
                        assert forall|x: int| covers(c, x) implies rem.contains(x) by {
                            assert(blocked_by_set(c).contains(x));
                        }
                    } else {
                        assert(row_of(c) < 6);
                        crate::blocks::lemma_direct_below_covered(c);
                        let w = crate::blocks::row_first(row_of(c) + 1) + crate::blocks::col_of(c);
                        assert(covers(c, w));
                        assert(!cone_removed(c, rem));
                    }
                }
            }
        }
        b
    }

    /// The cards now exposed on the triangle, in increasing card value.
    pub fn leaves(&self) -> (r: Vec<RawCard>)
        requires
            self.cells_ok(),
        ensures
            r@ == self.leaf_cards().sort_by(card_le_fn()),
            r@.to_multiset() == self.leaf_cards().to_multiset(),
            vstd::relations::sorted_by(r@, card_le_fn()),
            forall|c: RawCard| #[trigger] r@.contains(c) <==> self.leaf_cards().contains(c),
    {
        let mut cs: Vec<RawCard> = Vec::new();
        let mut i: usize = 0;
        while i < self.leaf_idxs.len()
            invariant
                self.cells_ok(),
                i <= self.leaf_idxs@.len(),
                cs@ == self.leaf_cards().take(i as int),
            decreases self.leaf_idxs@.len() - i,
        {
            let idx = self.leaf_idxs[i];
            cs.push(self.board_cards[idx]);
            proof {
                assert(self.leaf_cards().take(i as int + 1) =~= self.leaf_cards().take(
                    i as int,
                ).push(self.leaf_cards()[i as int]));
            }
            i += 1;
        }
        proof {
            assert(self.leaf_cards().take(self.leaf_cards().len() as int) =~= self.leaf_cards());
        }
        let r = sort_cards(cs);
        proof {
            self.leaf_cards().lemma_sort_by_ensures(card_le_fn());
            broadcast use vstd::seq_lib::group_to_multiset_ensures;

            assert forall|c: RawCard| #[trigger] r@.contains(c) implies self.leaf_cards().contains(
                c,
            ) by {
                vstd::seq_lib::to_multiset_contains(r@, c);
                vstd::seq_lib::to_multiset_contains(self.leaf_cards(), c);
            }
            assert forall|c: RawCard| self.leaf_cards().contains(c) implies #[trigger] r@.contains(
                c,
            ) by {
                vstd::seq_lib::to_multiset_contains(r@, c);
                vstd::seq_lib::to_multiset_contains(self.leaf_cards(), c);
            }
        }
        r
    }

    /// The cards on the exposed cells, in cell order.
    pub open spec fn leaf_cards(self) -> Seq<RawCard> {
        self.leaf_idxs@.map_values(|i: usize| self.board_cards@[i as int])
    }

    /// Advance the pile cursor by `draws` places; each draw counts as a move.
    /// A negative advance means using the already visible left card, which
    /// costs nothing and steps the cursor back. Advancing past the end of the
    /// pile wraps around by exactly the pile length plus one, modelling the
    /// flip that restarts the pile.
    pub fn stack_draw(&mut self, draws: i32)
        requires
            old(self).cells_ok(),
            draws != 0 ==> -1 <= draws as int && 0 <= old(self).stack_idx + draws <= 2 * old(
                self,
            ).stack@.len() + 1,
            i32::MIN <= old(self).moves + draws <= i32::MAX,
        ensures
            final(self).stack_idx as int == spec_advance(
                old(self).stack_idx as int,
                draws as int,
                old(self).stack@.len() as int,
            ),
            final(self).moves as int == if draws == 0 {
                old(self).moves as int
            } else {
                old(self).moves + draws
            },
            *final(self) == (Board {
                stack_idx: final(self).stack_idx,
                moves: final(self).moves,
                ..*old(self)
            }),
            final(self).cells_ok(),
    {
        if draws == 0 {
            return ;
        }
        self.stack_idx += draws;
        if self.stack_idx > self.stack.len() as i32 {
            self.stack_idx -= self.stack.len() as i32 + 1;  // extra one for the pile reset
        }
        self.moves += draws;
    }
}

/// Where the pile cursor lands after advancing `draws` places from `idx` in a
/// pile of `len` cards: one step past the end wraps back to the start. A zero
/// advance is a no-op.
pub open spec fn spec_advance(idx: int, draws: int, len: int) -> int {
    if draws == 0 {
        idx
    } else if idx + draws > len {
        idx + draws - len - 1
    } else {
        idx + draws
    }
}

/// Advancing twice wraps once around the whole cycle: two advances that sum
/// to the pile length plus one bring the cursor back to where it began.
pub proof fn lemma_cursor_full_cycle(idx: int, d1: int, d2: int, len: int)
    requires
        0 <= idx <= len,
        0 < d1,
        0 < d2,
        d1 + d2 == len + 1,
    ensures
        spec_advance(spec_advance(idx, d1, len), d2, len) == idx,
{
}

/// A count of one rank never exceeds the number of cards counted.
pub proof fn lemma_count_rank_le_len(s: Seq<RawCard>, r: int)
    ensures
        0 <= count_rank(s, r) <= s.len(),
    decreases s.len(),
{
    if s.len() > 0 {
        lemma_count_rank_le_len(s.drop_last(), r);
    }
}

/// With nothing removed, counting a rank over the whole triangle is the same
/// as counting it over the card list.
proof fn lemma_board_count_rank_full(cards: Seq<RawCard>, rem: Set<int>, r: int, n: int)
    requires
        rem =~= Set::<int>::empty(),
        0 <= n <= cards.len(),
    ensures
        board_count_rank(cards, rem, r, n) == count_rank(cards.take(n), r),
    decreases n,
{
    if n > 0 {
        lemma_board_count_rank_full(cards, rem, r, n - 1);
        assert(cards.take(n).drop_last() =~= cards.take(n - 1));
        assert(cards.take(n).last() == cards[n - 1]);
    }
}

/// The card order used for listing leaves: by card value.
pub open spec fn card_le_fn() -> spec_fn(RawCard, RawCard) -> bool {
    |a: RawCard, b: RawCard| a.0 <= b.0
}

/// The card order is total.
pub proof fn lemma_card_le_total_ordering()
    ensures
        vstd::relations::total_ordering(card_le_fn()),
{
}

/// Sort cards by value; the result is the unique sorted arrangement of the
/// input's elements.
pub fn sort_cards(cards: Vec<RawCard>) -> (r: Vec<RawCard>)
    ensures
        r@ == cards@.sort_by(card_le_fn()),
        r@.to_multiset() == cards@.to_multiset(),
        vstd::relations::sorted_by(r@, card_le_fn()),
{
    let ghost leq = card_le_fn();
    let mut out: Vec<RawCard> = Vec::new();
    let mut i: usize = 0;
    proof {
        lemma_card_le_total_ordering();
        cards@.take(0).lemma_sort_by_ensures(leq);
        assert(cards@.take(0).sort_by(leq).len() == 0) by {
            vstd::seq_lib::to_multiset_len(cards@.take(0).sort_by(leq));
            vstd::seq_lib::to_multiset_len(cards@.take(0));
            assert(cards@.take(0).len() == 0);
        }
        assert(out@ =~= cards@.take(0).sort_by(leq));
    }
    while i < cards.len()
        invariant
            i <= cards@.len(),
            out@ == cards@.take(i as int).sort_by(card_le_fn()),
            vstd::relations::sorted_by(out@, card_le_fn()),
        decreases cards@.len() - i,
    {
        let m = cards[i];
        let mut j: usize = 0;
        let mut stop = false;
        while j < out.len() && !stop
            invariant
                j <= out@.len(),
                vstd::relations::sorted_by(out@, card_le_fn()),
                forall|k: int| 0 <= k < j ==> out@[k].0 <= m.0,
                stop ==> j < out@.len() && out@[j as int].0 > m.0,
            decreases out@.len() - j + (if stop {
                0int
            } else {
                1int
            }),
        {
            if out[j].0 > m.0 {
                stop = true;
            } else {
                j += 1;
            }
        }
        proof {
            let leq2 = card_le_fn();
            assert forall|k: int| j <= k < out@.len() implies !card_le_fn()(out@[k], m) by {
                assert(leq2(out@[j as int], out@[k]));
            }
        }
        let ghost prev_seq = out@;
        out.insert(j, m);
        proof {
            assert(out@.remove(j as int) =~= prev_seq);
            lemma_insert_sorted_cards(out@, cards@, i + 1, j as int, m);
        }
        i += 1;
    }
    proof {
        assert(cards@.take(cards@.len() as int) =~= cards@);
        cards@.lemma_sort_by_ensures(leq);
    }
    out
}

/// Inserting a card between the part that is no greater and the part that is
/// strictly greater keeps the list equal to the canonical sorted arrangement
/// of the cards taken so far.
proof fn lemma_insert_sorted_cards(cur: Seq<RawCard>, all: Seq<RawCard>, i: int, j: int, m: RawCard)
    requires
        0 < i <= all.len(),
        m == all[i - 1],
        0 <= j < cur.len(),
        cur[j as int] == m,
        cur.remove(j) == all.take(i - 1).sort_by(card_le_fn()),
        vstd::relations::sorted_by(cur.remove(j), card_le_fn()),
        forall|k: int| 0 <= k < j ==> cur.remove(j)[k].0 <= m.0,
        forall|k: int| j <= k < cur.remove(j).len() ==> !card_le_fn()(cur.remove(j)[k], m),
    ensures
        cur == all.take(i).sort_by(card_le_fn()),
        vstd::relations::sorted_by(cur, card_le_fn()),
{
    broadcast use vstd::seq_lib::group_to_multiset_ensures;

    let leq = card_le_fn();
    lemma_card_le_total_ordering();
    let prev = cur.remove(j);
    assert forall|p: int, q: int| 0 <= p < q < cur.len() implies leq(cur[p], cur[q]) by {
        if q < j {
            assert(cur[p] == prev[p] && cur[q] == prev[q]);
        } else if q == j {
            assert(cur[p] == prev[p]);
        } else if p == j {
            assert(cur[q] == prev[q - 1]);
        } else if p < j {
            assert(cur[p] == prev[p] && cur[q] == prev[q - 1]);
        } else {
            assert(cur[p] == prev[p - 1] && cur[q] == prev[q - 1]);
        }
    }
    assert(vstd::relations::sorted_by(cur, leq));
    assert(prev.insert(j, m) =~= cur);
    assert(cur.to_multiset() == prev.to_multiset().insert(m));
    all.take(i - 1).lemma_sort_by_ensures(leq);
    assert(all.take(i) =~= all.take(i - 1).push(m));
    assert(all.take(i).to_multiset() == all.take(i - 1).to_multiset().insert(m));
    assert(cur.to_multiset() == all.take(i).to_multiset());
    all.take(i).lemma_sort_by_ensures(leq);
    vstd::seq_lib::lemma_sorted_unique(cur, all.take(i).sort_by(leq), leq);
    assert(cur =~= all.take(i).sort_by(leq));
}

/// For any deal built with the bottom row exposed, the initial leaves are
/// exactly the bottom-row triangle cells: the cells that nothing covers.
pub proof fn lemma_initial_leaves(b: Board)
    requires
        b.cells_ok(),
        b.topology_ok(),
        b.removed@ == Set::<int>::empty(),
    ensures
        forall|c: int| 0 <= c < 28 ==> (b.is_leaf(c) <==> row_of(c) == 6),
        forall|c: int| 0 <= c < 28 ==> (b.is_leaf(c) <==> 21 <= c < 28),
{
    assert forall|c: int| 0 <= c < 28 implies (b.is_leaf(c) <==> row_of(c) == 6) by {
        crate::blocks::lemma_bottom_row_uncovered(c);
        if row_of(c) == 6 {
            assert forall|x: int| covers(c, x) implies b.removed@.contains(x) by {
                assert(blocked_by_set(c).contains(x));
            }
        } else {
            crate::blocks::lemma_direct_below_covered(c);
            let w = crate::blocks::row_first(row_of(c) + 1) + crate::blocks::col_of(c);
            assert(covers(c, w));
            assert(!cone_removed(c, b.removed@));
        }
    }
    assert forall|c: int| 0 <= c < 28 implies (b.is_leaf(c) <==> 21 <= c < 28) by {
        assert(b.is_leaf(c) <==> row_of(c) == 6);
    }
}

impl Clone for Board {
    /// Clone the whole state; the copy is equal to the original field by
    /// field and shares nothing mutable with it.
    fn clone(&self) -> (r: Board)
        ensures
            r.board_cards@ == self.board_cards@,
            r.card_counts@ == self.card_counts@,
            r.stack@ == self.stack@,
            r.stack_idx == self.stack_idx,
            r.stack_counts@ == self.stack_counts@,
            r.leaf_idxs@ == self.leaf_idxs@,
            r.moves == self.moves,
            r.clear_all == self.clear_all,
            r.completed == self.completed,
            r.removed@ == self.removed@,
    {
        Board {
            board_cards: copy_cards(&self.board_cards),
            card_counts: copy_u8s(&self.card_counts),
            stack: copy_cards(&self.stack),
            stack_idx: self.stack_idx,
            stack_counts: copy_u8s(&self.stack_counts),
            leaf_idxs: copy_cells(&self.leaf_idxs),
            moves: self.moves,
            clear_all: self.clear_all,
            completed: self.completed,
            removed: Ghost(self.removed@),
        }
    }
}

/// An element-by-element copy of a card list.
fn copy_cards(v: &Vec<RawCard>) -> (r: Vec<RawCard>)
    ensures
        r@ == v@,
{
    let mut out: Vec<RawCard> = Vec::new();
    let mut i: usize = 0;
    while i < v.len()
        invariant
            i <= v@.len(),
            out@ == v@.take(i as int),
        decreases v@.len() - i,
    {
        out.push(v[i]);
        proof {
            assert(v@.take(i as int + 1) =~= v@.take(i as int).push(v@[i as int]));
        }
        i += 1;
    }
    proof {
        assert(v@.take(v@.len() as int) =~= v@);
    }
    out
}

/// An element-by-element copy of a count table.
fn copy_u8s(v: &Vec<u8>) -> (r: Vec<u8>)
    ensures
        r@ == v@,
{
    let mut out: Vec<u8> = Vec::new();
    let mut i: usize = 0;
    while i < v.len()
        invariant
            i <= v@.len(),
            out@ == v@.take(i as int),
        decreases v@.len() - i,
    {
        out.push(v[i]);
        proof {
            assert(v@.take(i as int + 1) =~= v@.take(i as int).push(v@[i as int]));
        }
        i += 1;
    }
    proof {
        assert(v@.take(v@.len() as int) =~= v@);
    }
    out
}

/// An element-by-element copy of a cell list.
pub fn copy_cells(v: &Vec<usize>) -> (r: Vec<usize>)
    ensures
        r@ == v@,
{
    let mut out: Vec<usize> = Vec::new();
    let mut i: usize = 0;
    while i < v.len()
        invariant
            i <= v@.len(),
            out@ == v@.take(i as int),
        decreases v@.len() - i,
    {
        out.push(v[i]);
        proof {
            assert(v@.take(i as int + 1) =~= v@.take(i as int).push(v@[i as int]));
        }
        i += 1;
    }
    proof {
        assert(v@.take(v@.len() as int) =~= v@);
    }
    out
}

/// Sort a list of cell numbers and drop duplicates: the result is strictly
/// increasing and mentions exactly the cells the input mentions.
#[verifier::rlimit(100)]
#[verifier::spinoff_prover]
pub fn sorted_cells(v: &Vec<usize>) -> (r: Vec<usize>)
    ensures
        strictly_increasing(r@),
        forall|c: int| seq_has(r@, c) <==> seq_has(v@, c),
        forall|i: int| 0 <= i < r@.len() ==> seq_has(v@, r@[i] as int),
{
    let mut out: Vec<usize> = Vec::new();
    let mut i: usize = 0;
    while i < v.len()
        invariant
            i <= v@.len(),
            strictly_increasing(out@),
            forall|c: int| seq_has(out@, c) <==> seq_has(v@.take(i as int), c),
        decreases v@.len() - i,
    {
        let x = v[i];
        // find where x belongs; skip it if it is already there
        let mut j: usize = 0;
        let mut dup = false;
        let mut stop = false;
        while j < out.len() && !dup && !stop
            invariant
                j <= out@.len(),
                strictly_increasing(out@),
                forall|k: int| 0 <= k < j ==> out@[k] < x,
                dup ==> j < out@.len() && out@[j as int] == x,
                stop ==> j < out@.len() && out@[j as int] > x,
                !(dup && stop),
            decreases out@.len() - j + (if dup || stop {
                0int
            } else {
                1int
            }),
        {
            if out[j] == x {
                dup = true;
            } else if out[j] > x {
                stop = true;
            } else {
                j += 1;
            }
        }
        proof {
            assert(v@.take(i as int + 1) =~= v@.take(i as int).push(v@[i as int]));
        }
        if dup {
            proof {
                assert forall|c: int| seq_has(out@, c) <==> seq_has(
                    v@.take(i as int + 1),
                    c,
                ) by {
                    if seq_has(v@.take(i as int + 1), c) {
                        let w = choose|w: int|
                            0 <= w < v@.take(i as int + 1).len() && #[trigger] v@.take(
                                i as int + 1,
                            )[w] as int == c;
                        if w < i as int {
                            assert(v@.take(i as int)[w] as int == c);
                            assert(seq_has(v@.take(i as int), c));
                        } else {
                            assert(v@.take(i as int + 1)[w] == v@[i as int]);
                            assert(out@[j as int] as int == c);
                        }
                    }
                    if seq_has(out@, c) {
                        assert(seq_has(v@.take(i as int), c));
                        let w = choose|w: int|
                            0 <= w < v@.take(i as int).len() && #[trigger] v@.take(
                                i as int,
                            )[w] as int == c;
                        assert(v@.take(i as int + 1)[w] as int == c);
                    }
                }
            }
        } else {
            let ghost prev_seq = out@;
            out.insert(j, x);
            proof {
                prev_seq.insert_ensures(j as int, x);
                assert(out@.remove(j as int) =~= prev_seq);
                assert forall|p: int, q: int| 0 <= p < q < out@.len() implies out@[p] < out@[q] by {
                    if q < j {
                    } else if q == j {
                        assert(out@[p] == prev_seq[p]);
                    } else if p == j {
                        assert(out@[q] == prev_seq[q - 1]);
                        if q - 1 == j as int {
                            assert(prev_seq[j as int] > x);
                        } else {
                            assert(prev_seq[j as int] < prev_seq[q - 1]);
                            assert(prev_seq[j as int] > x);
                        }
                    } else if p < j {
                        assert(out@[p] == prev_seq[p] && out@[q] == prev_seq[q - 1]);
                        if q - 1 >= j {
                            assert(prev_seq[p] < x);
                            assert(prev_seq[j as int] > x);
                        }
                    } else {
                        assert(out@[p] == prev_seq[p - 1] && out@[q] == prev_seq[q - 1]);
                    }
                }
                assert forall|c: int| seq_has(out@, c) <==> seq_has(
                    v@.take(i as int + 1),
                    c,
                ) by {
                    if seq_has(v@.take(i as int + 1), c) {
                        let w = choose|w: int|
                            0 <= w < v@.take(i as int + 1).len() && #[trigger] v@.take(
                                i as int + 1,
                            )[w] as int == c;
                        if w < i as int {
                            assert(v@.take(i as int)[w] as int == c);
                            assert(seq_has(v@.take(i as int), c));
                            assert(seq_has(prev_seq, c));
                            let p = choose|p: int|
                                0 <= p < prev_seq.len() && #[trigger] prev_seq[p] as int == c;
                            if p < j {
                                assert(out@[p] == prev_seq[p]);
                                assert(out@[p] as int == c);
                            } else {
                                assert(out@[p + 1] == prev_seq[p]);
                                assert(out@[p + 1] as int == c);
                            }
                        } else {
                            assert(v@.take(i as int + 1)[w] == v@[i as int]);
                            assert(out@[j as int] == x);
                            assert(out@[j as int] as int == c);
                        }
                    }
                    if seq_has(out@, c) {
                        let p = choose|p: int|
                            0 <= p < out@.len() && #[trigger] out@[p] as int == c;
                        if p == j {
                            assert(out@[j as int] == x);
                            assert(v@.take(i as int + 1)[i as int] as int == c);
                        } else {
                            let pp = if p < j {
                                p
                            } else {
                                p - 1
                            };
                            assert(prev_seq[pp] as int == c);
                            assert(seq_has(prev_seq, c));
                            assert(seq_has(v@.take(i as int), c));
                            let w = choose|w: int|
                                0 <= w < v@.take(i as int).len() && #[trigger] v@.take(
                                    i as int,
                                )[w] as int == c;
                            assert(v@.take(i as int + 1)[w] as int == c);
                        }
                    }
                }
            }
        }
        i += 1;
    }
    proof {
        assert(v@.take(v@.len() as int) =~= v@);
        assert forall|i: int| 0 <= i < out@.len() implies seq_has(v@, out@[i] as int) by {
            assert(seq_has(out@, out@[i] as int));
        }
    }
    out
}

/// The first position of a card in a card list (the list length if absent).
pub open spec fn pos_of(s: Seq<RawCard>, c: RawCard) -> int
    decreases s.len(),
{
    if s.len() == 0 {
        0
    } else if s[0] == c {
        0
    } else {
        1 + pos_of(s.drop_first(), c)
    }
}

/// Where a present card sits: its first position is in range, holds the card,
/// and nothing before it does.
pub proof fn lemma_pos_of(s: Seq<RawCard>, c: RawCard)
    requires
        s.contains(c),
    ensures
        0 <= pos_of(s, c) < s.len(),
        s[pos_of(s, c)] == c,
        forall|k: int| 0 <= k < pos_of(s, c) ==> s[k] != c,
    decreases s.len(),
{
    if s.len() > 0 && s[0] != c {
        let t = s.drop_first();
        assert(t.contains(c)) by {
            let k = choose|k: int| 0 <= k < s.len() && s[k] == c;
            assert(t[k - 1] == c);
        }
        lemma_pos_of(t, c);
        assert forall|k: int| 0 <= k < pos_of(s, c) implies s[k] != c by {
            if k > 0 {
                assert(t[k - 1] != c);
            }
        }
    }
}

/// Removing one entry keeps a card list distinct, and drops exactly that
/// entry's card from what the list holds.
pub proof fn lemma_remove_distinct(s: Seq<RawCard>, i: int)
    requires
        distinct_cards(s),
        0 <= i < s.len(),
    ensures
        distinct_cards(s.remove(i)),
        forall|x: RawCard| #[trigger] s.remove(i).contains(x) <==> (s.contains(x) && x != s[i]),
{
    s.remove_ensures(i);
    let t = s.remove(i);
    assert forall|p: int, q: int| 0 <= p < q < t.len() implies t[p] != t[q] by {
        if q < i {
        } else if p < i {
            assert(t[p] == s[p] && t[q] == s[q + 1]);
        } else {
            assert(t[p] == s[p + 1] && t[q] == s[q + 1]);
        }
    }
    assert forall|x: RawCard| #[trigger] t.contains(x) implies s.contains(x) && x != s[i] by {
        let k = choose|k: int| 0 <= k < t.len() && t[k] == x;
        if k < i {
            assert(s[k] == x);
        } else {
            assert(s[k + 1] == x);
        }
    }
    assert forall|x: RawCard| s.contains(x) && x != s[i] implies #[trigger] t.contains(x) by {
        let k = choose|k: int| 0 <= k < s.len() && s[k] == x;
        if k < i {
            assert(t[k] == x);
        } else {
            assert(t[k - 1] == x);
        }
    }
}

/// Removing one entry lowers the count of its rank by one and leaves the
/// other rank counts alone.
pub proof fn lemma_count_rank_remove(s: Seq<RawCard>, i: int, r: int)
    requires
        0 <= i < s.len(),
    ensures
        count_rank(s.remove(i), r) == count_rank(s, r) - (if s[i].0 % 13 == r {
            1int
        } else {
            0int
        }),
    decreases s.len(),
{
    if i == s.len() - 1 {
        assert(s.remove(i) =~= s.drop_last());
    } else {
        let t = s.drop_last();
        lemma_count_rank_remove(t, i, r);
        assert(s.remove(i).drop_last() =~= t.remove(i));
        assert(s.remove(i).last() == s.last());
    }
}

/// A card present in a list makes its rank count positive.
pub proof fn lemma_count_rank_contains(s: Seq<RawCard>, c: RawCard, r: int)
    requires
        s.contains(c),
        c.0 % 13 == r,
    ensures
        count_rank(s, r) >= 1,
    decreases s.len(),
{
    lemma_count_rank_le_len(s.drop_last(), r);
    if s.len() > 0 && s.last() != c {
        let t = s.drop_last();
        assert(t.contains(c)) by {
            let k = choose|k: int| 0 <= k < s.len() && s[k] == c;
            assert(t[k] == c);
        }
        lemma_count_rank_contains(t, c, r);
    }
}

/// The signature text of a list of cell numbers: the numbers in decimal,
/// separated by colons.
pub open spec fn join_cells(s: Seq<usize>) -> Seq<char>
    decreases s.len(),
{
    if s.len() == 0 {
        Seq::empty()
    } else if s.len() == 1 {
        crate::utils::spec_dec(s[0] as int)
    } else {
        join_cells(s.drop_last()) + seq![':'] + crate::utils::spec_dec(s.last() as int)
    }
}

/// The signature text of a list of cards: the card values in decimal,
/// separated by colons.
pub open spec fn join_cards(s: Seq<RawCard>) -> Seq<char>
    decreases s.len(),
{
    if s.len() == 0 {
        Seq::empty()
    } else if s.len() == 1 {
        crate::utils::spec_dec(s[0].0 as int)
    } else {
        join_cards(s.drop_last()) + seq![':'] + crate::utils::spec_dec(s.last().0 as int)
    }
}

/// The canonical signature of a board state: move count, leaf cells, the
/// pile contents in sorted order, and pile cursor, separated by bars. The
/// pile is sorted so that the signature depends only on which cards the pile
/// holds, not on their order.
pub open spec fn state_spec(b: Board) -> Seq<char> {
    crate::utils::spec_dec(b.moves as int) + seq!['|'] + join_cells(b.leaf_idxs@) + seq!['|']
        + join_cards(b.stack@.sort_by(card_le_fn())) + seq!['|'] + crate::utils::spec_dec(
        b.stack_idx as int,
    )
}

/// The signature is a function of the move count, the leaf cells, the pile
/// contents regardless of their order, and the cursor: boards agreeing on
/// those four parts get the same signature.
pub proof fn lemma_state_spec_of_parts(a: Board, b: Board)
    requires
        a.moves == b.moves,
        a.leaf_idxs@ == b.leaf_idxs@,
        a.stack@.to_multiset() == b.stack@.to_multiset(),
        a.stack_idx == b.stack_idx,
    ensures
        state_spec(a) == state_spec(b),
{
    let leq = card_le_fn();
    lemma_card_le_total_ordering();
    a.stack@.lemma_sort_by_ensures(leq);
    b.stack@.lemma_sort_by_ensures(leq);
    vstd::seq_lib::lemma_sorted_unique(a.stack@.sort_by(leq), b.stack@.sort_by(leq), leq);
    assert(a.stack@.sort_by(leq) == b.stack@.sort_by(leq));
}

/// The first position of a card in a card list.
pub fn find_card_pos(v: &Vec<RawCard>, c: RawCard) -> (r: usize)
    requires
        v@.contains(c),
    ensures
        r as int == pos_of(v@, c),
        r < v@.len(),
        v@[r as int] == c,
{
    proof {
        lemma_pos_of(v@, c);
    }
    let mut i: usize = 0;
    while i < v.len()
        invariant
            v@.contains(c),
            i <= v@.len(),
            0 <= pos_of(v@, c) < v@.len(),
            v@[pos_of(v@, c)] == c,
            forall|k: int| 0 <= k < pos_of(v@, c) ==> v@[k] != c,
            forall|k: int| 0 <= k < i ==> v@[k] != c,
        decreases v@.len() - i,
    {
        if v[i] == c {
            proof {
                assert(pos_of(v@, c) >= i);
                assert(pos_of(v@, c) <= i);
            }
            return i;
        }
        i += 1;
    }
    proof {
        assert(false);
    }
    0
}

impl Board {
    /// The canonical signature of the current state, used to recognise states
    /// already explored: the move count, the leaf cells, the sorted pile
    /// contents and the pile cursor, in one text line. The signature depends
    /// only on those four parts; in particular equal states that dealt their
    /// piles alike always share it.
    pub fn get_state(&self) -> (r: String)
        requires
            self.cells_ok(),
            self.moves >= 0,
        ensures
            r@ == state_spec(*self),
    {
        let mut s = String::new();
        crate::utils::append_dec(&mut s, self.moves as u32);
        append_bar(&mut s);
        let ghost base = s@;
        let mut i: usize = 0;
        while i < self.leaf_idxs.len()
            invariant
                self.cells_ok(),
                i <= self.leaf_idxs@.len(),
                s@ == base + join_cells(self.leaf_idxs@.take(i as int)),
            decreases self.leaf_idxs@.len() - i,
        {
            if i > 0 {
                append_colon(&mut s);
            }
            crate::utils::append_dec(&mut s, self.leaf_idxs[i] as u32);
            proof {
                let t = self.leaf_idxs@.take(i as int + 1);
                assert(t.drop_last() =~= self.leaf_idxs@.take(i as int));
                if i == 0 {
                    assert(s@ =~= base + join_cells(t));
                } else {
                    assert(s@ =~= base + join_cells(t));
                }
            }
            i += 1;
        }
        proof {
            assert(self.leaf_idxs@.take(self.leaf_idxs@.len() as int) =~= self.leaf_idxs@);
        }
        append_bar(&mut s);
        let ghost base2 = s@;
        let sorted_stack = sort_cards(copy_cards(&self.stack));
        let mut j: usize = 0;
        while j < sorted_stack.len()
            invariant
                self.cells_ok(),
                sorted_stack@ == self.stack@.sort_by(card_le_fn()),
                j <= sorted_stack@.len(),
                s@ == base2 + join_cards(sorted_stack@.take(j as int)),
            decreases sorted_stack@.len() - j,
        {
            if j > 0 {
                append_colon(&mut s);
            }
            crate::utils::append_dec(&mut s, sorted_stack[j].0 as u32);
            proof {
                let t = sorted_stack@.take(j as int + 1);
                assert(t.drop_last() =~= sorted_stack@.take(j as int));
                if j == 0 {
                    assert(s@ =~= base2 + join_cards(t));
                } else {
                    assert(s@ =~= base2 + join_cards(t));
                }
            }
            j += 1;
        }
        proof {
            assert(sorted_stack@.take(sorted_stack@.len() as int) =~= sorted_stack@);
        }
        append_bar(&mut s);
        crate::utils::append_dec(&mut s, self.stack_idx as u32);
        proof {
            assert(s@ =~= state_spec(*self));
        }
        s
    }

    /// The pile and cursor after taking one card out of the pile by value:
    /// the cursor steps back when the card removed was the visible left card,
    /// since the cards behind it shift forward.
    pub open spec fn stack_after_take(stack: Seq<RawCard>, idx: int, c: RawCard) -> (Seq<RawCard>, int) {
        let p = pos_of(stack, c);
        let idx2 = if idx > 0 && p == idx - 1 {
            idx - 1
        } else {
            idx
        };
        (stack.remove(p), idx2)
    }

    /// Remove one or two cards from the pile by value, stepping the cursor
    /// back whenever the removed card was the visible left card. In clear-all
    /// mode, emptying the pile after the triangle finishes the deal.
    #[verifier::rlimit(60)]
    pub(crate) fn remove_stack_cards(&mut self, cards: (RawCard, Option<RawCard>))
        requires
            old(self).cells_ok(),
            forall|r: int|
                0 <= r < 13 ==> old(self).stack_counts@[r] as int == count_rank(
                    old(self).stack@,
                    r,
                ),
            old(self).stack@.contains(cards.0),
            pos_of(old(self).stack@, cards.0) >= old(self).stack_idx - 1,
            cards.1 is Some ==> {
                let (s1, idx1) = Board::stack_after_take(
                    old(self).stack@,
                    old(self).stack_idx as int,
                    cards.0,
                );
                &&& s1.contains(cards.1->0)
                &&& pos_of(s1, cards.1->0) >= idx1 - 1
            },
        ensures
            ({
                let (s1, idx1) = Board::stack_after_take(
                    old(self).stack@,
                    old(self).stack_idx as int,
                    cards.0,
                );
                let (s2, idx2) = if cards.1 is Some {
                    Board::stack_after_take(s1, idx1, cards.1->0)
                } else {
                    (s1, idx1)
                };
                &&& final(self).stack@ == s2
                &&& final(self).stack_idx as int == idx2
                &&& final(self).completed == (old(self).completed || (old(self).clear_all
                    && s2.len() == 0 && old(self).leaf_idxs@.len() == 0))
            }),
            forall|r: int|
                0 <= r < 13 ==> final(self).stack_counts@[r] as int == count_rank(
                    final(self).stack@,
                    r,
                ),
            final(self).board_cards@ == old(self).board_cards@,
            final(self).card_counts@ == old(self).card_counts@,
            final(self).leaf_idxs@ == old(self).leaf_idxs@,
            final(self).moves == old(self).moves,
            final(self).clear_all == old(self).clear_all,
            final(self).removed@ == old(self).removed@,
            final(self).cells_ok(),
    {
        let (left, right) = cards;
        proof {
            lemma_pos_of(self.stack@, left);
        }
        if self.stack_idx > 0 && self.stack[(self.stack_idx - 1) as usize] == left {
            // the right card will shift forward into the removed card's place
            self.stack_idx -= 1;
        }
        let card_idx = find_card_pos(&self.stack, left);
        let ghost stack0 = self.stack@;
        proof {
            lemma_remove_distinct(stack0, card_idx as int);
        }
        self.stack.remove(card_idx);
        proof {
            assert forall|r: int| 0 <= r < 13 implies count_rank(self.stack@, r) == count_rank(
                stack0,
                r,
            ) - (if stack0[card_idx as int].0 % 13 == r {
                1int
            } else {
                0int
            }) by {
                lemma_count_rank_remove(stack0, card_idx as int, r);
            }
            lemma_count_rank_contains(stack0, left, left.0 as int % 13);
        }
        let rc = (left.0 % 13) as usize;
        let c0 = self.stack_counts[rc];
        self.stack_counts.set(rc, c0 - 1);
        if let Some(right) = right {
            proof {
                lemma_pos_of(self.stack@, right);
            }
            if self.stack_idx > 0 && self.stack[(self.stack_idx - 1) as usize] == right {
                self.stack_idx -= 1;
            }
            let card_idx2 = find_card_pos(&self.stack, right);
            let ghost stack1 = self.stack@;
            proof {
                lemma_remove_distinct(stack1, card_idx2 as int);
            }
            self.stack.remove(card_idx2);
            proof {
                assert forall|r: int| 0 <= r < 13 implies count_rank(self.stack@, r) == count_rank(
                    stack1,
                    r,
                ) - (if stack1[card_idx2 as int].0 % 13 == r {
                    1int
                } else {
                    0int
                }) by {
                    lemma_count_rank_remove(stack1, card_idx2 as int, r);
                }
                lemma_count_rank_contains(stack1, right, right.0 as int % 13);
            }
            let rc2 = (right.0 % 13) as usize;
            let c1 = self.stack_counts[rc2];
            self.stack_counts.set(rc2, c1 - 1);
        }
        if self.clear_all && self.stack.len() == 0 && self.leaf_idxs.len() == 0 {
            self.completed = true;
        }
    }
}

/// Append the field separator of a state signature.
fn append_bar(s: &mut String)
    ensures
        final(s)@ == old(s)@ + seq!['|'],
{
    proof {
        reveal_strlit("|");
    }
    vstd::string::StringExecFns::append(s, "|");
    proof {
        assert(s@ =~= old(s)@ + seq!['|']);
    }
}

/// Append the in-field separator of a state signature.
fn append_colon(s: &mut String)
    ensures
        final(s)@ == old(s)@ + seq![':'],
{
    proof {
        reveal_strlit(":");
    }
    vstd::string::StringExecFns::append(s, ":");
    proof {
        assert(s@ =~= old(s)@ + seq![':']);
    }
}

/// The standing facts about a removal history: removed cells are real cells,
/// removal only happened to exposed cells (so cones of removed cells are
/// fully removed), and the leaf set is exactly the exposed cells.
pub open spec fn topo_hyps(rem: Set<int>, leaves: Set<int>) -> bool {
    &&& forall|c: int| rem.contains(c) ==> 0 <= c < 28
    &&& forall|c: int| rem.contains(c) ==> cone_removed(c, rem)
    &&& forall|c: int| leaves.contains(c) ==> 0 <= c < 28
    &&& forall|c: int|
        0 <= c < 28 ==> (leaves.contains(c) <==> (!rem.contains(c) && cone_removed(c, rem)))
}

/// Whether a cell is exposed once the cells of `rem` are gone: it is a real
/// cell, still present, and its whole cone is removed.
pub open spec fn exposed_after(c: int, rem: Set<int>) -> bool {
    0 <= c < 28 && !rem.contains(c) && cone_removed(c, rem)
}

/// Whether `cands` holds every cell that sits directly above a cell of `p`.
pub open spec fn cands_complete(cands: Set<int>, p: Set<int>) -> bool {
    forall|c: int, q: int|
        #![trigger p.contains(q), covers(c, q)]
        p.contains(q) && covers(c, q) && row_of(q) == row_of(c) + 1 ==> cands.contains(c)
}

/// Whether every member of `cands` sits directly above some cell of `p`.
pub open spec fn cands_sound(cands: Set<int>, p: Set<int>) -> bool {
    forall|c: int|
        #[trigger] cands.contains(c) ==> 0 <= c < 28 && exists|q: int|
            p.contains(q) && #[trigger] covers(c, q) && row_of(q) == row_of(c) + 1
}

/// A cell whose cone is covered by the removal plus the batch being removed,
/// but which was not previously exposed, sits directly above one of the cells
/// of the batch.
pub proof fn lemma_new_leaf_candidate(rem: Set<int>, p: Set<int>, leaves: Set<int>, c: int)
    requires
        topo_hyps(rem, leaves),
        forall|q: int| p.contains(q) ==> leaves.contains(q),
        0 <= c < 28,
        !rem.contains(c),
        !p.contains(c),
        forall|e: int| covers(c, e) ==> rem.contains(e) || p.contains(e),
        !leaves.contains(c),
    ensures
        exists|q: int| p.contains(q) && #[trigger] covers(c, q) && row_of(q) == row_of(c) + 1,
{
    crate::blocks::lemma_bottom_row_uncovered(c);
    if row_of(c) == 6 {
        // nothing covers a bottom cell, so it would have been exposed already
        assert(cone_removed(c, rem));
        assert(false);
    }
    crate::blocks::lemma_direct_below_covered(c);
    let d1 = crate::blocks::row_first(row_of(c) + 1) + crate::blocks::col_of(c);
    let d2 = d1 + 1;
    assert(covers(c, d1) && covers(c, d2));
    if rem.contains(d1) && rem.contains(d2) {
        // the whole cone was already removed, so c was already exposed
        assert forall|e: int| covers(c, e) implies rem.contains(e) by {
            crate::blocks::lemma_cone_step(c, e);
        }
        assert(leaves.contains(c));
        assert(false);
    }
    if !rem.contains(d1) {
        assert(p.contains(d1) && covers(c, d1) && row_of(d1) == row_of(c) + 1);
    } else {
        assert(p.contains(d2) && covers(c, d2) && row_of(d2) == row_of(c) + 1);
    }
}

/// A cell whose cone is covered by the removal plus the batch is not blocked
/// by any candidate: candidates sit directly above batch cells, and batch
/// cells were exposed, so no candidate can still be under anything exposed.
pub proof fn lemma_exposed_clear_of_candidates(
    rem: Set<int>,
    p: Set<int>,
    leaves: Set<int>,
    c: int,
    cand: int,
)
    requires
        topo_hyps(rem, leaves),
        forall|q: int| p.contains(q) ==> leaves.contains(q),
        forall|e: int| covers(c, e) ==> rem.contains(e) || p.contains(e),
        exists|q: int| p.contains(q) && #[trigger] covers(cand, q) && row_of(q) == row_of(cand) + 1,
    ensures
        !covers(c, cand),
{
    if covers(c, cand) {
        let q = choose|q: int|
            p.contains(q) && #[trigger] covers(cand, q) && row_of(q) == row_of(cand) + 1;
        if rem.contains(cand) {
            assert(rem.contains(q));
            assert(!rem.contains(q));
        } else {
            assert(p.contains(cand));
            assert(leaves.contains(cand));
            assert(cone_removed(cand, rem));
            assert(rem.contains(q));
            assert(!rem.contains(q));
        }
    }
}

/// The heart of the leaf update: a candidate that survives the blocker filter
/// and whose cone avoids the surviving old leaves has its whole cone inside
/// the removal plus the batch.
pub proof fn lemma_survivor_cone_removed(
    rem: Set<int>,
    p: Set<int>,
    leaves: Set<int>,
    cands: Set<int>,
    x: int,
    d: int,
)
    requires
        topo_hyps(rem, leaves),
        forall|q: int| p.contains(q) ==> leaves.contains(q),
        cands_complete(cands, p),
        forall|cand: int| cands.contains(cand) ==> !covers(x, cand),
        forall|e: int| covers(x, e) ==> !(leaves.contains(e) && !p.contains(e)),
        covers(x, d),
    ensures
        rem.contains(d) || p.contains(d),
    decreases 6 - row_of(d),
{
    if !rem.contains(d) && !p.contains(d) {
        // everything deeper in the cone of d is already accounted for
        assert forall|e: int| covers(d, e) implies rem.contains(e) || p.contains(e) by {
            crate::blocks::lemma_covers_trans(x, d, e);
            lemma_survivor_cone_removed(rem, p, leaves, cands, x, e);
        }
        if leaves.contains(d) {
            // d would be a surviving old leaf under x
            assert(!p.contains(d));
            assert(false);
        } else {
            // d is newly exposed, hence a candidate, hence x was filtered
            lemma_new_leaf_candidate(rem, p, leaves, d);
            let q = choose|q: int|
                p.contains(q) && #[trigger] covers(d, q) && row_of(q) == row_of(d) + 1;
            assert(cands.contains(d));
            assert(!covers(x, d));
            assert(false);
        }
    }
}

/// Remove a cell number from an ordered cell list, if it is there.
pub fn remove_cell_value(v: &mut Vec<usize>, c: usize)
    requires
        strictly_increasing(old(v)@),
    ensures
        strictly_increasing(final(v)@),
        forall|z: int| seq_has(final(v)@, z) <==> (seq_has(old(v)@, z) && z != c as int),
        final(v)@.len() <= old(v)@.len(),
        forall|i: int| 0 <= i < final(v)@.len() ==> seq_has(old(v)@, final(v)@[i] as int),
{
    let ghost orig = v@;
    let mut i: usize = 0;
    let mut found = false;
    while i < v.len() && !found
        invariant
            strictly_increasing(v@),
            v@ == orig,
            i <= v@.len(),
            forall|k: int| 0 <= k < i ==> v@[k] != c,
            found ==> i < v@.len() && v@[i as int] == c,
        decreases v@.len() - i + (if found {
            0int
        } else {
            1int
        }),
    {
        if v[i] == c {
            found = true;
        } else {
            i += 1;
        }
    }
    if found {
        v.remove(i);
        proof {
            orig.remove_ensures(i as int);
            assert forall|p: int, q: int| 0 <= p < q < v@.len() implies v@[p] < v@[q] by {
                if q < i {
                } else if p < i {
                    assert(v@[p] == orig[p] && v@[q] == orig[q + 1]);
                } else {
                    assert(v@[p] == orig[p + 1] && v@[q] == orig[q + 1]);
                }
            }
            assert forall|z: int| seq_has(v@, z) implies (seq_has(orig, z) && z != c as int) by {
                let k = choose|k: int| 0 <= k < v@.len() && #[trigger] v@[k] as int == z;
                if k < i {
                    assert(orig[k] as int == z);
                    assert(orig[k] < orig[i as int]);
                } else {
                    assert(orig[k + 1] as int == z);
                    assert(orig[i as int] < orig[k + 1]);
                }
            }
            assert forall|z: int| seq_has(orig, z) && z != c as int implies seq_has(v@, z) by {
                let k = choose|k: int| 0 <= k < orig.len() && #[trigger] orig[k] as int == z;
                if k < i {
                    assert(v@[k] as int == z);
                } else {
                    assert(k != i);
                    assert(v@[k - 1] as int == z);
                }
            }
            assert forall|j: int| 0 <= j < v@.len() implies seq_has(orig, v@[j] as int) by {
                if j < i {
                    assert(orig[j] == v@[j]);
                } else {
                    assert(orig[j + 1] == v@[j]);
                }
            }
        }
    } else {
        proof {
            assert forall|z: int| seq_has(v@, z) implies z != c as int by {
                let k = choose|k: int| 0 <= k < v@.len() && #[trigger] v@[k] as int == z;
            }
            assert forall|j: int| 0 <= j < v@.len() implies seq_has(orig, v@[j] as int) by {
                assert(orig[j] == v@[j]);
            }
        }
    }
}

/// Insert a cell number into an ordered cell list, unless it is already
/// there.
pub fn insert_cell(v: &mut Vec<usize>, c: usize)
    requires
        strictly_increasing(old(v)@),
    ensures
        strictly_increasing(final(v)@),
        forall|z: int| seq_has(final(v)@, z) <==> (seq_has(old(v)@, z) || z == c as int),
{
    let ghost orig = v@;
    let mut j: usize = 0;
    let mut dup = false;
    let mut stop = false;
    while j < v.len() && !dup && !stop
        invariant
            v@ == orig,
            strictly_increasing(v@),
            j <= v@.len(),
            forall|k: int| 0 <= k < j ==> v@[k] < c,
            dup ==> j < v@.len() && v@[j as int] == c,
            stop ==> j < v@.len() && v@[j as int] > c,
            !(dup && stop),
        decreases v@.len() - j + (if dup || stop {
            0int
        } else {
            1int
        }),
    {
        if v[j] == c {
            dup = true;
        } else if v[j] > c {
            stop = true;
        } else {
            j += 1;
        }
    }
    if dup {
        proof {
            assert forall|z: int| seq_has(v@, z) <==> (seq_has(orig, z) || z == c as int) by {
                if z == c as int {
                    assert(v@[j as int] as int == z);
                }
            }
        }
        return ;
    }
    v.insert(j, c);
    proof {
        orig.insert_ensures(j as int, c);
        assert forall|p: int, q: int| 0 <= p < q < v@.len() implies v@[p] < v@[q] by {
            if q < j {
            } else if q == j {
                assert(v@[p] == orig[p]);
            } else if p == j {
                assert(v@[q] == orig[q - 1]);
                if q - 1 > j {
                    assert(orig[j as int] < orig[q - 1]);
                }
            } else if p < j {
                assert(v@[p] == orig[p] && v@[q] == orig[q - 1]);
                if q - 1 > j as int - 1 && q - 1 < orig.len() && q - 1 >= j {
                    assert(orig[j as int] > c || j as int == orig.len());
                }
            } else {
                assert(v@[p] == orig[p - 1] && v@[q] == orig[q - 1]);
            }
        }
        assert forall|z: int| seq_has(v@, z) implies (seq_has(orig, z) || z == c as int) by {
            let k = choose|k: int| 0 <= k < v@.len() && #[trigger] v@[k] as int == z;
            if k < j {
                assert(orig[k] as int == z);
            } else if k == j {
            } else {
                assert(orig[k - 1] as int == z);
            }
        }
        assert forall|z: int| (seq_has(orig, z) || z == c as int) implies seq_has(v@, z) by {
            if z == c as int {
                assert(v@[j as int] as int == z);
            } else {
                let k = choose|k: int| 0 <= k < orig.len() && #[trigger] orig[k] as int == z;
                if k < j {
                    assert(v@[k] as int == z);
                } else {
                    assert(v@[k + 1] as int == z);
                }
            }
        }
    }
}

/// Counts over the triangle are never negative.
pub proof fn lemma_board_count_nonneg(cards: Seq<RawCard>, rem: Set<int>, r: int, n: int)
    ensures
        0 <= board_count_rank(cards, rem, r, n),
    decreases n,
{
    if n > 0 {
        lemma_board_count_nonneg(cards, rem, r, n - 1);
    }
}

/// A present cell of a rank makes that rank's triangle count positive.
pub proof fn lemma_board_count_contains(cards: Seq<RawCard>, rem: Set<int>, r: int, n: int, c: int)
    requires
        0 <= c < n,
        !rem.contains(c),
        cards[c].0 % 13 == r,
    ensures
        board_count_rank(cards, rem, r, n) >= 1,
    decreases n,
{
    lemma_board_count_nonneg(cards, rem, r, n - 1);
    if c < n - 1 {
        lemma_board_count_contains(cards, rem, r, n - 1, c);
    }
}

/// Marking one present cell as removed lowers its rank's triangle count by
/// one and leaves other ranks alone.
pub proof fn lemma_board_count_insert(cards: Seq<RawCard>, rem: Set<int>, r: int, n: int, c: int)
    requires
        0 <= c,
        !rem.contains(c),
    ensures
        board_count_rank(cards, rem.insert(c), r, n) == board_count_rank(cards, rem, r, n) - (if c
            < n && cards[c].0 % 13 == r {
            1int
        } else {
            0int
        }),
    decreases n,
{
    if n > 0 {
        lemma_board_count_insert(cards, rem, r, n - 1, c);
    }
}

/// Add to `cands` the one or two cells that sit directly above `cell`.
fn push_candidates(cands: &mut Vec<usize>, cell: usize)
    requires
        0 < cell < 28,
    ensures
        forall|z: int|
            #![trigger seq_has(final(cands)@, z)]
            #![trigger seq_has(old(cands)@, z)]
            #![trigger covers(z, cell as int)]
            seq_has(final(cands)@, z) <==> (seq_has(old(cands)@, z) || (covers(z, cell as int)
                && row_of(cell as int) == row_of(z) + 1)),
        (forall|k: int| 0 <= k < old(cands)@.len() ==> old(cands)@[k] < 28) ==> (forall|k: int|
            0 <= k < final(cands)@.len() ==> final(cands)@[k] < 28),
{
    let (low, cnt) = card_directly_blocks(cell);
    let ghost orig = cands@;
    cands.push(low);
    if cnt > 1 {
        cands.push(low + 1);
    }
    proof {
        assert forall|z: int|
            seq_has(cands@, z) <==> (seq_has(orig, z) || (covers(z, cell as int) && row_of(
                cell as int,
            ) == row_of(z) + 1)) by {
            crate::blocks::lemma_directly_blocks_covers(cell as int, z);
            if seq_has(cands@, z) {
                let k = choose|k: int| 0 <= k < cands@.len() && #[trigger] cands@[k] as int == z;
                if k < orig.len() {
                    assert(seq_has(orig, z));
                }
            }
            if seq_has(orig, z) {
                let k = choose|k: int| 0 <= k < orig.len() && #[trigger] orig[k] as int == z;
                assert(cands@[k] as int == z);
            }
            if covers(z, cell as int) && row_of(cell as int) == row_of(z) + 1 {
                if z == low as int {
                    assert(cands@[orig.len() as int] as int == z);
                } else {
                    assert(z == low as int + 1);
                    assert(cands@[orig.len() as int + 1] as int == z);
                }
            }
        }
        if forall|k: int| 0 <= k < orig.len() ==> orig[k] < 28 {
            assert forall|k: int| 0 <= k < cands@.len() implies cands@[k] < 28 by {
                if k >= orig.len() {
                    crate::blocks::lemma_directly_blocks_covers(cell as int, cands@[k] as int);
                } else {
                    assert(orig[k] == cands@[k]);
                }
            }
        }
    }
}

/// Expose every candidate cell whose whole cone of blockers is gone. The
/// candidates are the cells directly above a batch of exposed cells being
/// removed; a candidate under another candidate is left covered, and a
/// candidate still covering a surviving leaf stays unexposed. Afterwards the
/// leaf list holds exactly the cells exposed once the batch is gone.
#[verifier::rlimit(100)]
fn expose_candidates(
    leaf: &mut Vec<usize>,
    cands: &Vec<usize>,
    Ghost(r0): Ghost<Set<int>>,
    Ghost(pset): Ghost<Set<int>>,
    Ghost(l0set): Ghost<Set<int>>,
)
    requires
        topo_hyps(r0, l0set),
        forall|q: int| pset.contains(q) ==> l0set.contains(q),
        forall|z: int|
            seq_has(cands@, z) <==> exists|q: int|
                pset.contains(q) && #[trigger] covers(z, q) && row_of(q) == row_of(z) + 1,
        forall|k: int| 0 <= k < cands@.len() ==> cands@[k] < 28,
        strictly_increasing(old(leaf)@),
        forall|z: int| seq_has(old(leaf)@, z) <==> (l0set.contains(z) && !pset.contains(z)),
    ensures
        strictly_increasing(final(leaf)@),
        forall|z: int| seq_has(final(leaf)@, z) <==> exposed_after(z, r0.union(pset)),
        forall|i: int| 0 <= i < final(leaf)@.len() ==> final(leaf)@[i] < 28,
{
    let ghost cset = Set::new(|z: int| seq_has(cands@, z));
    let ghost lmid = Set::new(|z: int| l0set.contains(z) && !pset.contains(z));
    let ghost r2 = r0.union(pset);
    proof {
        assert(cands_complete(cset, pset));
        assert(cands_sound(cset, pset)) by {
            assert forall|c: int| #[trigger] cset.contains(c) implies 0 <= c < 28 && exists|q: int|
                pset.contains(q) && #[trigger] covers(c, q) && row_of(q) == row_of(c) + 1 by {
                let k = choose|k: int| 0 <= k < cands@.len() && #[trigger] cands@[k] as int == c;
            }
        }
        assert forall|z: int| seq_has(leaf@, z) <==> lmid.contains(z) || (exposed_after(z, r2)
            && seq_has(cands@.take(0), z)) by {}
    }
    let mut t: usize = 0;
    while t < cands.len()
        invariant
            strictly_increasing(leaf@),
            t <= cands@.len(),
            topo_hyps(r0, l0set),
            forall|q: int| pset.contains(q) ==> l0set.contains(q),
            cands_complete(cset, pset),
            cands_sound(cset, pset),
            cset == Set::new(|z: int| seq_has(cands@, z)),
            lmid == Set::new(|z: int| l0set.contains(z) && !pset.contains(z)),
            r2 == r0.union(pset),
            forall|k: int| 0 <= k < cands@.len() ==> cands@[k] < 28,
            forall|z: int|
                seq_has(leaf@, z) <==> (lmid.contains(z) || (exposed_after(z, r2) && seq_has(
                    cands@.take(t as int),
                    z,
                ))),
        decreases cands@.len() - t,
    {
        let x = cands[t];
        // does another candidate sit under x?
        let mut bl = false;
        let mut k: usize = 0;
        while k < cands.len()
            invariant
                k <= cands@.len(),
                forall|k2: int| 0 <= k2 < cands@.len() ==> cands@[k2] < 28,
                x < 28,
                bl ==> exists|k2: int|
                    0 <= k2 < cands@.len() && covers(x as int, #[trigger] cands@[k2] as int),
                !bl ==> forall|k2: int|
                    0 <= k2 < k ==> !covers(x as int, #[trigger] cands@[k2] as int),
            decreases cands@.len() - k,
        {
            if crate::blocks::covers_cell(x, cands[k]) {
                bl = true;
            }
            k += 1;
        }
        // does a current leaf sit under x?
        let mut cl = false;
        let mut k2: usize = 0;
        while k2 < leaf.len()
            invariant
                k2 <= leaf@.len(),
                x < 28,
                cl ==> exists|k3: int|
                    0 <= k3 < leaf@.len() && covers(x as int, #[trigger] leaf@[k3] as int),
                !cl ==> forall|k3: int|
                    0 <= k3 < k2 ==> !covers(x as int, #[trigger] leaf@[k3] as int),
            decreases leaf@.len() - k2,
        {
            if crate::blocks::covers_cell(x, leaf[k2]) {
                cl = true;
            }
            k2 += 1;
        }
        let ghost cur = leaf@;
        if !bl && !cl {
            proof {
                // x survives the filter and its cone avoids all current
                // leaves, so its whole cone is inside the removal
                assert forall|cand: int| cset.contains(cand) implies !covers(x as int, cand) by {
                    let kc = choose|kc: int|
                        0 <= kc < cands@.len() && #[trigger] cands@[kc] as int == cand;
                }
                assert forall|e: int| covers(x as int, e) implies !(l0set.contains(e)
                    && !pset.contains(e)) by {
                    if l0set.contains(e) && !pset.contains(e) {
                        assert(lmid.contains(e));
                        assert(seq_has(cur, e));
                        let kc = choose|kc: int|
                            0 <= kc < cur.len() && #[trigger] cur[kc] as int == e;
                    }
                }
                assert forall|e: int| covers(x as int, e) implies r2.contains(e) by {
                    lemma_survivor_cone_removed(r0, pset, l0set, cset, x as int, e);
                }
                // and x itself is still present
                assert(cset.contains(x as int)) by {
                    assert(cands@[t as int] as int == x as int);
                }
                let q = choose|q: int|
                    pset.contains(q) && #[trigger] covers(x as int, q) && row_of(q) == row_of(
                        x as int,
                    ) + 1;
                if r0.contains(x as int) {
                    assert(r0.contains(q));
                    assert(!r0.contains(q));
                }
                if pset.contains(x as int) {
                    assert(l0set.contains(x as int));
                    assert(cone_removed(x as int, r0));
                    assert(r0.contains(q));
                    assert(!r0.contains(q));
                }
                assert(exposed_after(x as int, r2));
            }
            insert_cell(leaf, x);
            proof {
                assert forall|z: int| seq_has(leaf@, z) <==> (lmid.contains(z) || (exposed_after(
                    z,
                    r2,
                ) && seq_has(cands@.take(t as int + 1), z))) by {
                    assert(seq_has(leaf@, z) <==> (seq_has(cur, z) || z == x as int));
                    if z == x as int {
                        assert(cands@.take(t as int + 1)[t as int] as int == z);
                        assert(seq_has(cands@.take(t as int + 1), z));
                    } else {
                        assert(seq_has(cands@.take(t as int + 1), z) <==> seq_has(
                            cands@.take(t as int),
                            z,
                        )) by {
                            if seq_has(cands@.take(t as int + 1), z) {
                                let kc = choose|kc: int|
                                    0 <= kc < cands@.take(t as int + 1).len()
                                        && #[trigger] cands@.take(t as int + 1)[kc] as int == z;
                                if kc < t as int {
                                    assert(cands@.take(t as int)[kc] as int == z);
                                }
                            }
                            if seq_has(cands@.take(t as int), z) {
                                let kc = choose|kc: int|
                                    0 <= kc < cands@.take(t as int).len() && #[trigger] cands@.take(
                                        t as int,
                                    )[kc] as int == z;
                                assert(cands@.take(t as int + 1)[kc] as int == z);
                            }
                        }
                    }
                }
            }
        } else {
            proof {
                // x is not newly exposed: either another candidate or a
                // surviving leaf still sits under it
                if exposed_after(x as int, r2) {
                    assert forall|e: int| covers(x as int, e) implies r0.contains(e)
                        || pset.contains(e) by {}
                    if bl {
                        let kb = choose|kb: int|
                            0 <= kb < cands@.len() && covers(x as int, #[trigger] cands@[kb] as int);
                        assert(cset.contains(cands@[kb] as int));
                        lemma_exposed_clear_of_candidates(
                            r0,
                            pset,
                            l0set,
                            x as int,
                            cands@[kb] as int,
                        );
                        assert(false);
                    } else {
                        let kb = choose|kb: int|
                            0 <= kb < cur.len() && covers(x as int, #[trigger] cur[kb] as int);
                        let d = cur[kb] as int;
                        assert(seq_has(cur, d));
                        if lmid.contains(d) {
                            assert(r2.contains(d));
                            assert(l0set.contains(d) && !pset.contains(d));
                            assert(!r0.contains(d));
                            assert(false);
                        } else {
                            assert(cset.contains(d));
                            lemma_exposed_clear_of_candidates(r0, pset, l0set, x as int, d);
                            assert(false);
                        }
                    }
                }
                assert forall|z: int| seq_has(leaf@, z) <==> (lmid.contains(z) || (exposed_after(
                    z,
                    r2,
                ) && seq_has(cands@.take(t as int + 1), z))) by {
                    if seq_has(cands@.take(t as int + 1), z) && !seq_has(cands@.take(t as int), z) {
                        let kc = choose|kc: int|
                            0 <= kc < cands@.take(t as int + 1).len() && #[trigger] cands@.take(
                                t as int + 1,
                            )[kc] as int == z;
                        if kc < t as int {
                            assert(cands@.take(t as int)[kc] as int == z);
                        }
                        assert(z == x as int);
                    }
                    if seq_has(cands@.take(t as int), z) {
                        let kc = choose|kc: int|
                            0 <= kc < cands@.take(t as int).len() && #[trigger] cands@.take(
                                t as int,
                            )[kc] as int == z;
                        assert(cands@.take(t as int + 1)[kc] as int == z);
                    }
                }
            }
        }
        t += 1;
    }
    proof {
        assert(cands@.take(cands@.len() as int) =~= cands@);
        // the leaf list now holds exactly the exposed cells
        assert forall|z: int| seq_has(leaf@, z) <==> exposed_after(z, r2) by {
            if seq_has(leaf@, z) {
                if lmid.contains(z) {
                    assert(l0set.contains(z));
                    assert(0 <= z < 28);
                    assert(cone_removed(z, r0));
                    assert forall|e: int| covers(z, e) implies r2.contains(e) by {}
                    assert(!r0.contains(z) && !pset.contains(z));
                }
            }
            if exposed_after(z, r2) {
                if !lmid.contains(z) {
                    if l0set.contains(z) {
                        assert(pset.contains(z));
                        assert(r2.contains(z));
                        assert(false);
                    }
                    assert forall|e: int| covers(z, e) implies r0.contains(e) || pset.contains(
                        e,
                    ) by {}
                    lemma_new_leaf_candidate(r0, pset, l0set, z);
                    let q = choose|q: int|
                        pset.contains(q) && #[trigger] covers(z, q) && row_of(q) == row_of(z) + 1;
                    assert(seq_has(cands@, z));
                    assert(cset.contains(z));
                }
            }
        }
        assert forall|i: int| 0 <= i < leaf@.len() implies leaf@[i] < 28 by {
            assert(seq_has(leaf@, leaf@[i] as int));
            assert(exposed_after(leaf@[i] as int, r2));
        }
    }
}

/// The cells that sit directly above a removed cell or pair of cells.
fn collect_candidates(c1: usize, c2: Option<usize>) -> (r: Vec<usize>)
    requires
        0 < c1 < 28,
        c2 is Some ==> 0 < c2->0 < 28,
    ensures
        forall|z: int|
            #![trigger seq_has(r@, z)]
            seq_has(r@, z) <==> ((covers(z, c1 as int) && row_of(c1 as int) == row_of(z) + 1) || (
            c2 is Some && covers(z, c2->0 as int) && row_of(c2->0 as int) == row_of(z) + 1)),
        forall|k: int| 0 <= k < r@.len() ==> r@[k] < 28,
{
    let mut cands: Vec<usize> = Vec::new();
    push_candidates(&mut cands, c1);
    let ghost cands1 = cands@;
    if let Some(x) = c2 {
        push_candidates(&mut cands, x);
    }
    cands
}

impl Board {
    /// Take one card (or a matched pair) off the triangle. The named cards
    /// must sit on exposed cells. Removing the apex finishes the deal (in
    /// clear-all mode only once the pile is empty too) and stops the leaf
    /// update early, exactly as play does. Otherwise the cells directly above
    /// the removed ones become exposed as soon as their whole cone is gone,
    /// and the leaf set keeps matching the removal history.
    #[verifier::rlimit(100)]
    pub fn remove_cards(&mut self, cards: (RawCard, Option<RawCard>))
        requires
            old(self).inv(),
            old(self).board_cards@.contains(cards.0),
            old(self).is_leaf(pos_of(old(self).board_cards@, cards.0)),
            cards.1 is Some ==> old(self).board_cards@.contains(cards.1->0) && old(self).is_leaf(
                pos_of(old(self).board_cards@, cards.1->0),
            ) && cards.1->0 != cards.0,
        ensures
            final(self).board_cards@ == old(self).board_cards@,
            final(self).stack@ == old(self).stack@,
            final(self).stack_idx == old(self).stack_idx,
            final(self).stack_counts@ == old(self).stack_counts@,
            final(self).moves == old(self).moves,
            final(self).clear_all == old(self).clear_all,
            final(self).cells_ok(),
            final(self).counts_ok(),
            ({
                let c1 = pos_of(old(self).board_cards@, cards.0);
                let p = if cards.1 is Some {
                    Set::<int>::empty().insert(c1).insert(
                        pos_of(old(self).board_cards@, cards.1->0),
                    )
                } else {
                    Set::<int>::empty().insert(c1)
                };
                final(self).removed@ == old(self).removed@.union(p)
            }),
            ({
                let c1 = pos_of(old(self).board_cards@, cards.0);
                let c2 = pos_of(old(self).board_cards@, cards.1->0);
                if c1 == 0 {
                    &&& final(self).completed == (old(self).completed || !old(self).clear_all
                        || old(self).stack@.len() == 0)
                    &&& forall|z: int|
                        final(self).is_leaf(z) <==> (old(self).is_leaf(z) && z != 0)
                } else if cards.1 is Some && c2 == 0 {
                    &&& final(self).completed == (old(self).completed || !old(self).clear_all
                        || old(self).stack@.len() == 0)
                    &&& forall|z: int|
                        final(self).is_leaf(z) <==> (old(self).is_leaf(z) && z != 0 && z != c1)
                } else {
                    &&& final(self).completed == old(self).completed
                    &&& final(self).topology_ok()
                    &&& final(self).inv()
                }
            }),
    {
        let (left, right) = cards;
        proof {
            lemma_pos_of(self.board_cards@, left);
            if right is Some {
                lemma_pos_of(self.board_cards@, right->0);
            }
        }
        let c1 = find_card_pos(&self.board_cards, left);
        let c2: Option<usize> = match right {
            Some(r) => Some(find_card_pos(&self.board_cards, r)),
            None => None,
        };
        let ghost leaf0 = self.leaf_idxs@;
        let ghost l0set = Set::new(|z: int| seq_has(leaf0, z));
        let ghost r0 = self.removed@;
        let ghost pset = if right is Some {
            Set::<int>::empty().insert(c1 as int).insert(pos_of(
                self.board_cards@,
                right->0,
            ))
        } else {
            Set::<int>::empty().insert(c1 as int)
        };
        let ghost r2 = r0.union(pset);
        proof {
            // the two positions differ, and the topology hypotheses hold
            if right is Some {
                if c1 as int == pos_of(self.board_cards@, right->0) {
                    assert(self.board_cards@[c1 as int] == left);
                    assert(false);
                }
            }
            assert forall|z: int| l0set.contains(z) implies 0 <= z < 28 by {
                let k = choose|k: int| 0 <= k < leaf0.len() && #[trigger] leaf0[k] as int == z;
            }
            assert forall|c: int| 0 <= c < 28 implies (l0set.contains(c) <==> (!r0.contains(c)
                && cone_removed(c, r0))) by {
                assert(old(self).is_leaf(c) == seq_has(leaf0, c));
                assert(l0set.contains(c) == seq_has(leaf0, c));
            }
            assert(topo_hyps(r0, l0set));
            assert forall|q: int| pset.contains(q) implies l0set.contains(q) by {}
        }

        remove_cell_value(&mut self.leaf_idxs, c1);
        if c1 == 0 {
            if !self.clear_all || self.stack.len() == 0 {
                self.completed = true;
            }
            self.remove_counts(left, right, Ghost(pset));
            return ;
        }
        if let Some(c2v) = c2 {
            remove_cell_value(&mut self.leaf_idxs, c2v);
            if c2v == 0 {
                if !self.clear_all || self.stack.len() == 0 {
                    self.completed = true;
                }
                self.remove_counts(left, right, Ghost(pset));
                return ;
            }
        }
        let cands = collect_candidates(c1, c2);
        proof {
            // the candidates are exactly the cells directly above the batch
            assert forall|z: int| seq_has(cands@, z) <==> exists|q: int|
                pset.contains(q) && #[trigger] covers(z, q) && row_of(q) == row_of(z) + 1 by {
                if seq_has(cands@, z) {
                    if covers(z, c1 as int) && row_of(c1 as int) == row_of(z) + 1 {
                        assert(pset.contains(c1 as int));
                    } else {
                        assert(c2 is Some);
                        assert(c2->0 as int == pos_of(old(self).board_cards@, right->0));
                        assert(pset.contains(c2->0 as int));
                        assert(covers(z, c2->0 as int) && row_of(c2->0 as int) == row_of(z) + 1);
                    }
                }
                if exists|q: int|
                    pset.contains(q) && #[trigger] covers(z, q) && row_of(q) == row_of(z) + 1 {
                    let q = choose|q: int|
                        pset.contains(q) && #[trigger] covers(z, q) && row_of(q) == row_of(z) + 1;
                    if q == c1 as int {
                        assert(seq_has(cands@, z));
                    } else {
                        assert(right is Some && q == pos_of(old(self).board_cards@, right->0));
                        assert(c2 is Some && c2->0 as int == q);
                        assert(seq_has(cands@, z));
                    }
                }
            }
        }
        expose_candidates(
            &mut self.leaf_idxs,
            &cands,
            Ghost(r0),
            Ghost(pset),
            Ghost(l0set),
        );
        self.remove_counts(left, right, Ghost(pset));
        proof {
            assert(self.topology_ok());
        }
    }

    /// Bring the overall per-rank counts down for the removed card or pair,
    /// and extend the removal history by their cells.
    fn remove_counts(&mut self, left: RawCard, right: Option<RawCard>, pcells: Ghost<Set<int>>)
        requires
            old(self).cells_ok(),
            old(self).counts_ok(),
            old(self).board_cards@.contains(left),
            right is Some ==> old(self).board_cards@.contains(right->0) && right->0 != left,
            pcells@ == if right is Some {
                Set::<int>::empty().insert(pos_of(old(self).board_cards@, left)).insert(
                    pos_of(old(self).board_cards@, right->0),
                )
            } else {
                Set::<int>::empty().insert(pos_of(old(self).board_cards@, left))
            },
            !old(self).removed@.contains(pos_of(old(self).board_cards@, left)),
            right is Some ==> !old(self).removed@.contains(
                pos_of(old(self).board_cards@, right->0),
            ),
        ensures
            final(self).counts_ok(),
            final(self).removed@ == old(self).removed@.union(pcells@),
            *final(self) == (Board {
                card_counts: final(self).card_counts,
                removed: final(self).removed,
                ..*old(self)
            }),
            final(self).cells_ok(),
    {
        let ghost r0 = self.removed@;
        proof {
            lemma_pos_of(self.board_cards@, left);
        }
        let c1 = find_card_pos(&self.board_cards, left);
        let rc1 = (left.0 % 13) as usize;
        proof {
            lemma_board_count_contains(self.board_cards@, r0, rc1 as int, 28, c1 as int);
            lemma_count_rank_le_len(self.stack@, rc1 as int);
        }
        let v1 = self.card_counts[rc1];
        self.card_counts.set(rc1, v1 - 1);
        proof {
            self.removed@ = r0.insert(c1 as int);
            assert forall|r: int| 0 <= r < 13 implies self.card_counts@[r] as int == count_rank(
                self.stack@,
                r,
            ) + board_count_rank(self.board_cards@, self.removed@, r, 28) by {
                lemma_board_count_insert(self.board_cards@, r0, r, 28, c1 as int);
            }
        }
        if let Some(rt) = right {
            proof {
                lemma_pos_of(self.board_cards@, rt);
            }
            let c2 = find_card_pos(&self.board_cards, rt);
            let ghost r1 = self.removed@;
            let rc2 = (rt.0 % 13) as usize;
            proof {
                if c2 == c1 {
                    assert(self.board_cards@[c1 as int] == left);
                    assert(false);
                }
                assert(!r1.contains(c2 as int));
                lemma_board_count_contains(self.board_cards@, r1, rc2 as int, 28, c2 as int);
                lemma_count_rank_le_len(self.stack@, rc2 as int);
            }
            let v2 = self.card_counts[rc2];
            self.card_counts.set(rc2, v2 - 1);
            proof {
                self.removed@ = r1.insert(c2 as int);
                assert forall|r: int| 0 <= r < 13 implies self.card_counts@[r] as int
                    == count_rank(self.stack@, r) + board_count_rank(
                    self.board_cards@,
                    self.removed@,
                    r,
                    28,
                ) by {
                    lemma_board_count_insert(self.board_cards@, r1, r, 28, c2 as int);
                }
                assert(self.removed@ =~= r0.union(pcells@));
            }
        } else {
            proof {
                assert(self.removed@ =~= r0.union(pcells@));
            }
        }
    }
}

} // verus!
