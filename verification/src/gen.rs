//! The move generator.
//!
//! For a given board state this enumerates every legal action: matches on the
//! triangle, matches between a leaf and a pile card (counting the draws
//! needed to reach it), matches inside the pile, and lone Kings anywhere.
//! When one move is clearly forced — a King among the leaves, or a pair whose
//! triangle card is the last of its rank — only that move is returned. The
//! result is a single deterministic list, sorted by draw cost, category,
//! and cards.

use crate::board::{board_count_rank, card_le_fn, count_rank, pos_of, seq_has, Board};
use crate::moves::{move_le_fn, Move};
use crate::blocks::covers;
use crate::utils::{spec_cards_match, spec_match_rank, spec_rank};
use crate::{MatchType, RawCard};
use vstd::prelude::*;

verus! {

/// Whether a physical card is a King.
pub open spec fn is_king(c: RawCard) -> bool {
    c.0 % 13 == 12
}

/// The exposed triangle cards in increasing card value: the order every scan
/// of the leaves uses.
pub open spec fn sorted_leaves(b: Board) -> Seq<RawCard> {
    b.leaf_cards().sort_by(card_le_fn())
}

/// Whether a card of this rank still exists but only once, in the triangle or
/// the pile: such a card must be played as soon as it can be.
pub open spec fn spec_is_solo(b: Board, rank: int) -> bool {
    &&& b.card_counts@[rank - 1] == 1
    &&& exists|j: int| 0 <= j < 28 && spec_rank(#[trigger] b.board_cards@[j].0) as int == rank
}

/// The first King in a card list, scanning from position `i`.
pub open spec fn first_king_from(s: Seq<RawCard>, i: int) -> Option<RawCard>
    decreases s.len() - i,
{
    if i < 0 || i >= s.len() {
        None
    } else if is_king(s[i]) {
        Some(s[i])
    } else {
        first_king_from(s, i + 1)
    }
}

/// One leaf's scan over the other leaves for matches: each partner is claimed
/// at most once, and a match either of whose cards is the last of its rank
/// cuts the whole enumeration short. Gives the short-circuit move if one
/// fired, the accumulated moves, and the claimed cards.
pub open spec fn bm_inner(
    b: Board,
    s: Seq<RawCard>,
    l: RawCard,
    j: int,
    matched: Set<RawCard>,
    acc: Seq<Move>,
) -> (Option<Move>, Seq<Move>, Set<RawCard>)
    decreases s.len() - j,
{
    if j < 0 || j >= s.len() {
        (None, acc, matched)
    } else {
        let pm = s[j];
        if spec_cards_match(l, pm) && !matched.contains(pm) {
            let m2 = matched.insert(pm).insert(l);
            let mv = (MatchType::Board, 0i32, (l, Some(pm)));
            if spec_is_solo(b, spec_rank(l.0) as int) || spec_is_solo(b, spec_rank(pm.0) as int) {
                (Some(mv), acc, m2)
            } else {
                bm_inner(b, s, l, j + 1, m2, acc.push(mv))
            }
        } else {
            bm_inner(b, s, l, j + 1, matched, acc)
        }
    }
}

/// The scan over all leaves for matches on the triangle itself.
pub open spec fn bm_outer(
    b: Board,
    s: Seq<RawCard>,
    i: int,
    matched: Set<RawCard>,
    acc: Seq<Move>,
) -> (Option<Move>, Seq<Move>)
    decreases s.len() - i,
{
    if i < 0 || i >= s.len() {
        (None, acc)
    } else {
        let step = bm_inner(b, s, s[i], 0, matched, acc);
        if step.0 is Some {
            (step.0, step.1)
        } else {
            bm_outer(b, s, i + 1, step.2, step.1)
        }
    }
}

/// The matches found on the triangle: the short-circuit move if a last-of-its
/// rank pair fired, else the full list.
pub open spec fn board_moves_spec(b: Board) -> (Option<Move>, Seq<Move>) {
    bm_outer(b, sorted_leaves(b), 0, Set::empty(), Seq::empty())
}

/// The draw offsets at which pile cards of rank `target` appear, scanning the
/// pile from `i` up to `end`, with draws counted as `i + offset`.
pub open spec fn scan_rank(s: Seq<RawCard>, target: int, i: int, end: int, offset: int) -> Seq<int>
    decreases end - i,
{
    if i < 0 || i >= end || end > s.len() {
        Seq::empty()
    } else if spec_rank(s[i].0) as int == target {
        seq![i + offset] + scan_rank(s, target, i + 1, end, offset)
    } else {
        scan_rank(s, target, i + 1, end, offset)
    }
}

/// Every draw offset at which a card of rank `target` can be reached: the
/// visible left card costs -1, the undrawn cards cost their distance from the
/// cursor, and the flipped cards come around again after a wrap costing the
/// remaining pile plus one.
pub open spec fn draws_for(b: Board, target: int) -> Seq<int> {
    let idx = b.stack_idx as int;
    let len = b.stack@.len() as int;
    let prev: Seq<int> = if idx > 0 && spec_rank(b.stack@[idx - 1].0) as int == target {
        seq![-1int]
    } else {
        Seq::empty()
    };
    prev + scan_rank(b.stack@, target, idx, len, -idx) + scan_rank(
        b.stack@,
        target,
        0,
        if idx - 1 > 0 {
            idx - 1
        } else {
            0
        },
        len - idx + 1,
    )
}

/// The pile position a draw offset refers to, wrapping once past the end.
pub open spec fn draw_pos(b: Board, d: int) -> int {
    if b.stack_idx + d > b.stack@.len() {
        b.stack_idx + d - b.stack@.len() - 1
    } else {
        b.stack_idx + d
    }
}

/// One leaf's scan over its reachable pile partners: a pair whose leaf card
/// is the last of its rank and is reachable without drawing cuts the
/// enumeration short, but only while the triangle offered no match of its
/// own.
pub open spec fn bs_inner(
    b: Board,
    l: RawCard,
    ds: Seq<int>,
    j: int,
    acc: Seq<Move>,
    allow_short: bool,
) -> (Option<Move>, Seq<Move>)
    decreases ds.len() - j,
{
    if j < 0 || j >= ds.len() {
        (None, acc)
    } else {
        let d = ds[j];
        let sc = b.stack@[draw_pos(b, d)];
        let cost = if d > 0 {
            d
        } else {
            0
        };
        let mv = (MatchType::BoardStack, cost as i32, (l, Some(sc)));
        if allow_short && spec_is_solo(b, spec_rank(l.0) as int) && d <= 0 {
            (Some(mv), acc)
        } else {
            bs_inner(b, l, ds, j + 1, acc.push(mv), allow_short)
        }
    }
}

/// The scan over all leaves for matches against the pile: leaves whose
/// matching rank is absent from the pile are skipped outright.
pub open spec fn bs_outer(b: Board, s: Seq<RawCard>, i: int, acc: Seq<Move>, allow_short: bool) -> (
    Option<Move>,
    Seq<Move>,
)
    decreases s.len() - i,
{
    if i < 0 || i >= s.len() {
        (None, acc)
    } else {
        let l = s[i];
        let target = spec_match_rank(spec_rank(l.0)) as int;
        if b.stack_counts@[target - 1] == 0 {
            bs_outer(b, s, i + 1, acc, allow_short)
        } else {
            let step = bs_inner(b, l, draws_for(b, target), 0, acc, allow_short);
            if step.0 is Some {
                (step.0, step.1)
            } else {
                bs_outer(b, s, i + 1, step.1, allow_short)
            }
        }
    }
}

/// The pairs and lone Kings found while walking the undrawn part of the pile:
/// each step forward costs one draw.
pub open spec fn stack_scan(s: Seq<RawCard>, i: int, idx: int) -> Seq<Move>
    decreases s.len() - i,
{
    if i < 0 || i + 1 >= s.len() {
        Seq::empty()
    } else {
        let left = s[i];
        let right = s[i + 1];
        let d = (i - idx + 1) as i32;
        let rest = stack_scan(s, i + 1, idx);
        if is_king(right) {
            seq![(MatchType::Stack, d, (right, None::<RawCard>))] + rest
        } else if spec_cards_match(left, right) {
            seq![(MatchType::Stack, d, (left, Some(right)))] + rest
        } else {
            rest
        }
    }
}

/// The pairs found among the already flipped cards, which become visible
/// again after drawing past the end of the pile: the pair at `(k, k + 1)`
/// costs the draws to the end, one for the flip that restarts the pile, and
/// then `k + 1` more.
pub open spec fn stack_wrap_scan(s: Seq<RawCard>, k: int, idx: int) -> Seq<Move>
    decreases idx - k,
{
    if k < 0 || k + 1 >= idx {
        Seq::empty()
    } else {
        let d = (k + s.len() - idx + 2) as i32;
        let rest = stack_wrap_scan(s, k + 1, idx);
        if spec_cards_match(s[k], s[k + 1]) {
            seq![(MatchType::Stack, d, (s[k], Some(s[k + 1])))] + rest
        } else {
            rest
        }
    }
}

/// Every match found inside the pile: the two visible cards if they pair, a
/// visible King on either side of the cursor, everything the forward walk
/// finds, and every flipped pair reachable again after one wrap.
pub open spec fn stack_moves_spec(b: Board) -> Seq<Move> {
    let idx = b.stack_idx as int;
    let len = b.stack@.len() as int;
    let s = b.stack@;
    let pair0: Seq<Move> = if idx > 0 && idx < len && spec_cards_match(s[idx - 1], s[idx]) {
        seq![(MatchType::Stack, 0i32, (s[idx - 1], Some(s[idx])))]
    } else {
        Seq::empty()
    };
    let lking: Seq<Move> = if idx > 0 && is_king(s[idx - 1]) {
        seq![(MatchType::Stack, -1i32, (s[idx - 1], None::<RawCard>))]
    } else {
        Seq::empty()
    };
    let rking: Seq<Move> = if idx < len && is_king(s[idx]) {
        seq![(MatchType::Stack, 0i32, (s[idx], None::<RawCard>))]
    } else {
        Seq::empty()
    };
    pair0 + lking + rking + stack_scan(s, idx, idx) + stack_wrap_scan(s, 0, idx)
}

/// The first pile move that costs no draw and removes a King or a
/// last-of-its-rank card: urgent enough to return alone when the triangle
/// offers no match.
pub open spec fn find_urgent(b: Board, sm: Seq<Move>, i: int) -> Option<Move>
    decreases sm.len() - i,
{
    if i < 0 || i >= sm.len() {
        None
    } else {
        let m = sm[i];
        if m.1 == 0 && (is_king(m.2.0) || spec_is_solo(b, spec_rank(m.2.0.0) as int)) {
            Some(m)
        } else {
            find_urgent(b, sm, i + 1)
        }
    }
}

/// The whole move list for a board state. A King among the leaves, a
/// last-of-its-rank match on the triangle, a free last-of-its-rank match
/// against the pile, or (with no triangle match at all) an urgent free pile
/// move each short-circuit to a single move; otherwise every found move is
/// returned, sorted by draw cost, category and cards.
pub open spec fn moves_spec(b: Board) -> Seq<Move> {
    let s = sorted_leaves(b);
    let king = first_king_from(s, 0);
    if king is Some {
        seq![(MatchType::Board, 0i32, (king->0, None::<RawCard>))]
    } else {
        let bm = board_moves_spec(b);
        if bm.0 is Some {
            seq![bm.0->0]
        } else {
            let bs = bs_outer(b, s, 0, Seq::empty(), bm.1.len() == 0);
            if bs.0 is Some {
                seq![bs.0->0]
            } else {
                let sm = stack_moves_spec(b);
                let urgent = if bm.1.len() == 0 {
                    find_urgent(b, sm, 0)
                } else {
                    None
                };
                if urgent is Some {
                    seq![urgent->0]
                } else {
                    (bm.1 + bs.1 + sm).sort_by(move_le_fn())
                }
            }
        }
    }
}

/// Whether a triangle card is on an exposed cell.
pub open spec fn on_leaf(b: Board, c: RawCard) -> bool {
    b.board_cards@.contains(c) && b.is_leaf(pos_of(b.board_cards@, c))
}

/// What the pile-side of a move needs so that playing it cannot fail: the
/// named card is in the pile, no further back than just left of where the
/// cursor lands.
pub open spec fn stack_take_ok(stack: Seq<RawCard>, idx: int, l: RawCard, r: Option<RawCard>) -> bool {
    &&& stack.contains(l)
    &&& pos_of(stack, l) >= idx - 1
    &&& (r is Some ==> {
        let step = Board::stack_after_take(stack, idx, l);
        &&& r->0 != l
        &&& step.0.contains(r->0)
        &&& pos_of(step.0, r->0) >= step.1 - 1
    })
}

/// Whether a move can be played on this board without violating any of the
/// state's rules: the cards it names are where it claims, exposed or
/// reachable, and the draw cost stays inside one wrap of the pile.
pub open spec fn move_valid(b: Board, m: Move) -> bool {
    let d = m.1 as int;
    let l = m.2.0;
    let r = m.2.1;
    let idx = b.stack_idx as int;
    let len = b.stack@.len() as int;
    match m.0 {
        MatchType::Board => {
            &&& d == 0
            &&& on_leaf(b, l)
            &&& (r is Some ==> on_leaf(b, r->0) && r->0 != l)
        },
        MatchType::BoardStack => {
            &&& r is Some
            &&& 0 <= d <= len
            &&& on_leaf(b, l)
            &&& stack_take_ok(b.stack@, crate::board::spec_advance(idx, d, len), r->0, None)
        },
        MatchType::Stack => {
            &&& -1 <= d <= len
            &&& (d == -1 ==> idx >= 1)
            &&& stack_take_ok(b.stack@, crate::board::spec_advance(idx, d, len), l, r)
        },
    }
}

/// Where a card of a distinct list sits is where it is first found.
pub proof fn lemma_pos_of_at(s: Seq<RawCard>, k: int)
    requires
        crate::board::distinct_cards(s),
        0 <= k < s.len(),
    ensures
        s.contains(s[k]),
        pos_of(s, s[k]) == k,
{
    assert(s.contains(s[k]));
    crate::board::lemma_pos_of(s, s[k]);
    let p = pos_of(s, s[k]);
    if p < k {
        assert(s[p] != s[k]);
    } else if p > k {
        assert(s[k] != s[p]);
    }
}

/// Every card listed among the leaves sits on an exposed cell.
pub proof fn lemma_leaf_card_on_leaf(b: Board, i: int)
    requires
        b.cells_ok(),
        0 <= i < b.leaf_cards().len(),
    ensures
        on_leaf(b, b.leaf_cards()[i]),
{
    let cell = b.leaf_idxs@[i];
    assert(b.leaf_cards()[i] == b.board_cards@[cell as int]);
    lemma_pos_of_at(b.board_cards@, cell as int);
    assert(seq_has(b.leaf_idxs@, cell as int));
}

/// Every card of the sorted leaf list sits on an exposed cell.
pub proof fn lemma_sorted_leaf_on_leaf(b: Board, l: RawCard)
    requires
        b.cells_ok(),
        sorted_leaves(b).contains(l),
    ensures
        on_leaf(b, l),
{
    broadcast use vstd::seq_lib::group_to_multiset_ensures;

    b.leaf_cards().lemma_sort_by_ensures(card_le_fn());
    vstd::seq_lib::to_multiset_contains(sorted_leaves(b), l);
    vstd::seq_lib::to_multiset_contains(b.leaf_cards(), l);
    assert(b.leaf_cards().contains(l));
    let i = choose|i: int| 0 <= i < b.leaf_cards().len() && b.leaf_cards()[i] == l;
    lemma_leaf_card_on_leaf(b, i);
}

/// Whether a draw offset is usable on this board for reaching a card of rank
/// `target`: the landing position is a real pile position holding that rank.
pub open spec fn valid_draw(b: Board, d: int, target: int) -> bool {
    &&& -1 <= d <= b.stack@.len()
    &&& (d == -1 ==> b.stack_idx >= 1)
    &&& 0 <= draw_pos(b, d) < b.stack@.len()
    &&& spec_rank(b.stack@[draw_pos(b, d)].0) as int == target
}

impl Board {
    /// The draw offsets at which pile cards matching `card`'s rank can be
    /// reached: the visible left card at -1, the undrawn cards at their
    /// distance from the cursor, and the flipped cards after one wrap.
    pub fn get_stack_draws(&self, card: crate::Card) -> (r: Vec<i32>)
        requires
            self.cells_ok(),
            1 <= card.0 <= 13,
        ensures
            r@.map_values(|d: i32| d as int) == draws_for(*self, card.0 as int),
            forall|i: int| 0 <= i < r@.len() ==> valid_draw(*self, r@[i] as int, card.0 as int),
    {
        let target = card.0;
        let mut out: Vec<i32> = Vec::new();
        let len = self.stack.len();
        let idx = self.stack_idx as usize;
        let ghost t = target as int;
        let ghost prev: Seq<int> = if self.stack_idx > 0 && spec_rank(
            self.stack@[self.stack_idx - 1].0,
        ) as int == t {
            seq![-1int]
        } else {
            Seq::empty()
        };
        if self.stack_idx > 0 {
            // account for the visible left card
            if self.stack[idx - 1].0 % 13 + 1 == target {
                out.push(-1);
            }
        }
        proof {
            assert(out@.map_values(|d: i32| d as int) =~= prev);
        }
        let ghost fwd = scan_rank(self.stack@, t, idx as int, len as int, -(idx as int));
        let mut i: usize = idx;
        while i < len
            invariant
                self.cells_ok(),
                1 <= target <= 13,
                t == target as int,
                len == self.stack@.len(),
                idx == self.stack_idx as int,
                idx <= i <= len,
                out@.map_values(|d: i32| d as int) == prev + scan_rank(
                    self.stack@,
                    t,
                    idx as int,
                    i as int,
                    -(idx as int),
                ),
                forall|k: int| 0 <= k < out@.len() ==> valid_draw(*self, out@[k] as int, t),
            decreases len - i,
        {
            proof {
                lemma_scan_rank_snoc(self.stack@, t, idx as int, i as int, -(idx as int));
            }
            let ghost old_out = out@;
            if self.stack[i].0 % 13 + 1 == target {
                out.push((i - idx) as i32);
                proof {
                    assert(out@.map_values(|d: i32| d as int) =~= old_out.map_values(
                        |d: i32| d as int,
                    ).push(i as int - idx as int));
                    assert(prev + scan_rank(
                        self.stack@,
                        t,
                        idx as int,
                        i as int + 1,
                        -(idx as int),
                    ) =~= (prev + scan_rank(
                        self.stack@,
                        t,
                        idx as int,
                        i as int,
                        -(idx as int),
                    )).push(i as int - idx as int));
                    assert(draw_pos(*self, i as int - idx as int) == i as int);
                }
            } else {
                proof {
                    assert(prev + scan_rank(
                        self.stack@,
                        t,
                        idx as int,
                        i as int + 1,
                        -(idx as int),
                    ) =~= prev + scan_rank(self.stack@, t, idx as int, i as int, -(idx as int)));
                }
            }
            i += 1;
        }
        let ghost wrap_end: int = if idx as int - 1 > 0 {
            idx as int - 1
        } else {
            0
        };
        let mut j: usize = 0;
        let bound = if idx >= 1 {
            idx - 1
        } else {
            0
        };
        while j < bound
            invariant
                self.cells_ok(),
                1 <= target <= 13,
                t == target as int,
                len == self.stack@.len(),
                idx == self.stack_idx as int,
                bound == wrap_end,
                wrap_end == (if idx as int - 1 > 0 {
                    idx as int - 1
                } else {
                    0
                }),
                bound <= len,
                j <= bound,
                out@.map_values(|d: i32| d as int) == prev + scan_rank(
                    self.stack@,
                    t,
                    idx as int,
                    len as int,
                    -(idx as int),
                ) + scan_rank(self.stack@, t, 0, j as int, len as int - idx as int + 1),
                forall|k: int| 0 <= k < out@.len() ==> valid_draw(*self, out@[k] as int, t),
            decreases bound - j,
        {
            proof {
                lemma_scan_rank_snoc(self.stack@, t, 0, j as int, len as int - idx as int + 1);
            }
            let ghost old_out = out@;
            if self.stack[j].0 % 13 + 1 == target {
                out.push((j + len - idx + 1) as i32);
                proof {
                    let f = |d: i32| d as int;
                    let base = prev + scan_rank(
                        self.stack@,
                        t,
                        idx as int,
                        len as int,
                        -(idx as int),
                    );
                    assert(out@.map_values(f) =~= old_out.map_values(f).push(
                        j as int + len as int - idx as int + 1,
                    ));
                    assert(base + scan_rank(self.stack@, t, 0, j as int + 1, len as int - idx as int
                        + 1) =~= (base + scan_rank(
                        self.stack@,
                        t,
                        0,
                        j as int,
                        len as int - idx as int + 1,
                    )).push(j as int + len as int - idx as int + 1));
                    assert(draw_pos(*self, j as int + len as int - idx as int + 1) == j as int);
                }
            } else {
                proof {
                    let base = prev + scan_rank(
                        self.stack@,
                        t,
                        idx as int,
                        len as int,
                        -(idx as int),
                    );
                    assert(base + scan_rank(self.stack@, t, 0, j as int + 1, len as int - idx as int
                        + 1) =~= base + scan_rank(
                        self.stack@,
                        t,
                        0,
                        j as int,
                        len as int - idx as int + 1,
                    ));
                }
            }
            j += 1;
        }
        proof {
            assert(out@.map_values(|d: i32| d as int) =~= draws_for(*self, t));
        }
        out
    }
}

/// Scanning one position further on appends at most one draw offset.
pub proof fn lemma_scan_rank_snoc(s: Seq<RawCard>, target: int, start: int, i: int, offset: int)
    requires
        0 <= start <= i < s.len(),
    ensures
        scan_rank(s, target, start, i + 1, offset) == scan_rank(s, target, start, i, offset) + (if
        spec_rank(s[i].0) as int == target {
            seq![i + offset]
        } else {
            Seq::<int>::empty()
        }),
    decreases i - start,
{
    if start < i {
        lemma_scan_rank_snoc(s, target, start + 1, i, offset);
        if spec_rank(s[start].0) as int == target {
            assert(scan_rank(s, target, start, i + 1, offset) =~= seq![start + offset] + scan_rank(
                s,
                target,
                start + 1,
                i + 1,
                offset,
            ));
            assert(scan_rank(s, target, start, i + 1, offset) =~= scan_rank(
                s,
                target,
                start,
                i,
                offset,
            ) + (if spec_rank(s[i].0) as int == target {
                seq![i + offset]
            } else {
                Seq::<int>::empty()
            }));
        } else {
            assert(scan_rank(s, target, start, i + 1, offset) =~= scan_rank(
                s,
                target,
                start,
                i,
                offset,
            ) + (if spec_rank(s[i].0) as int == target {
                seq![i + offset]
            } else {
                Seq::<int>::empty()
            }));
        }
    } else {
        assert(scan_rank(s, target, i + 1, i + 1, offset) =~= Seq::<int>::empty());
        assert(scan_rank(s, target, i, i, offset) =~= Seq::<int>::empty());
        if spec_rank(s[i].0) as int == target {
            assert(scan_rank(s, target, i, i + 1, offset) =~= seq![i + offset] + scan_rank(
                s,
                target,
                i + 1,
                i + 1,
                offset,
            ));
            assert(scan_rank(s, target, i, i + 1, offset) =~= scan_rank(s, target, i, i, offset)
                + seq![i + offset]);
        } else {
            assert(scan_rank(s, target, i, i + 1, offset) =~= scan_rank(s, target, i + 1, i + 1, offset));
        }
    }
}

/// Taking either card of an adjacent pile pair is safe once the cursor has
/// landed just past the pair.
proof fn lemma_stack_pair_valid(b: Board, a: int)
    requires
        b.cells_ok(),
        0 <= a,
        a + 1 < b.stack@.len(),
    ensures
        stack_take_ok(b.stack@, a + 1, b.stack@[a], Some(b.stack@[a + 1])),
{
    let s = b.stack@;
    lemma_pos_of_at(s, a);
    crate::board::lemma_remove_distinct(s, a);
    s.remove_ensures(a);
    let s1 = s.remove(a);
    assert(s1[a] == s[a + 1]);
    lemma_pos_of_at(s1, a);
    assert(pos_of(s1, s[a + 1]) == a);
    assert(Board::stack_after_take(s, a + 1, s[a]).0 == s1);
    assert(Board::stack_after_take(s, a + 1, s[a]).1 == a);
}

/// Taking one pile card reached by a draw offset is safe once the cursor has
/// advanced by the recorded (non-negative) cost.
proof fn lemma_draw_take_ok(b: Board, d: int, target: int)
    requires
        b.cells_ok(),
        valid_draw(b, d, target),
    ensures
        0 <= (if d > 0 {
            d
        } else {
            0int
        }) <= b.stack@.len(),
        stack_take_ok(
            b.stack@,
            crate::board::spec_advance(
                b.stack_idx as int,
                if d > 0 {
                    d
                } else {
                    0int
                },
                b.stack@.len() as int,
            ),
            b.stack@[draw_pos(b, d)],
            None,
        ),
{
    let s = b.stack@;
    let p = draw_pos(b, d);
    lemma_pos_of_at(s, p);
}

impl Board {
    /// Every match found inside the pile: the visible pair, a visible King on
    /// either side of the cursor, every pair or King met while drawing
    /// forward, and every flipped pair reachable again by drawing around the
    /// end of the pile. The list is in scanning order.
    pub fn get_stack_moves(&self) -> (r: Vec<Move>)
        requires
            self.cells_ok(),
        ensures
            r@ == stack_moves_spec(*self),
            forall|i: int| 0 <= i < r@.len() ==> move_valid(*self, #[trigger] r@[i]),
    {
        let mut out: Vec<Move> = Vec::new();
        let len = self.stack.len();
        let idx = self.stack_idx as usize;
        let ghost s = self.stack@;
        let ghost pair0: Seq<Move> = if idx as int > 0 && (idx as int) < len as int
            && spec_cards_match(s[idx as int - 1], s[idx as int]) {
            seq![(MatchType::Stack, 0i32, (s[idx as int - 1], Some(s[idx as int])))]
        } else {
            Seq::empty()
        };
        let ghost lking: Seq<Move> = if idx as int > 0 && is_king(s[idx as int - 1]) {
            seq![(MatchType::Stack, -1i32, (s[idx as int - 1], None::<RawCard>))]
        } else {
            Seq::empty()
        };
        let ghost rking: Seq<Move> = if (idx as int) < len as int && is_king(s[idx as int]) {
            seq![(MatchType::Stack, 0i32, (s[idx as int], None::<RawCard>))]
        } else {
            Seq::empty()
        };
        if idx > 0 {
            // check whether the two visible cards match
            if idx < len {
                let left = self.stack[idx - 1];
                let right = self.stack[idx];
                if crate::utils::cards_match(left, right) {
                    out.push((MatchType::Stack, 0, (left, Some(right))));
                    proof {
                        lemma_stack_pair_valid(*self, idx as int - 1);
                    }
                }
            }
            // also check for a King visible on the left side
            let lcard = self.stack[idx - 1];
            if lcard.0 % 13 + 1 == 13 {
                out.push((MatchType::Stack, -1, (lcard, None)));
                proof {
                    lemma_pos_of_at(s, idx as int - 1);
                }
            }
        }
        proof {
            assert(out@ =~= pair0 + lking);
        }
        // check the right side for a King as well
        if idx < len {
            let rcard = self.stack[idx];
            if rcard.0 % 13 + 1 == 13 {
                out.push((MatchType::Stack, 0, (rcard, None)));
                proof {
                    lemma_pos_of_at(s, idx as int);
                }
            }
        }
        proof {
            assert(out@ =~= pair0 + lking + rking);
            assert(stack_moves_spec(*self) == pair0 + lking + rking + stack_scan(
                s,
                idx as int,
                idx as int,
            ) + stack_wrap_scan(s, 0, idx as int));
        }
        // check pairs and Kings found while drawing up the pile
        let mut i: usize = idx;
        while i + 1 < len
            invariant
                self.cells_ok(),
                s == self.stack@,
                len == self.stack@.len(),
                idx == self.stack_idx as int,
                idx <= i,
                i <= len,
                stack_moves_spec(*self) == out@ + stack_scan(s, i as int, idx as int)
                    + stack_wrap_scan(s, 0, idx as int),
                forall|k: int| 0 <= k < out@.len() ==> move_valid(*self, #[trigger] out@[k]),
            decreases len - i,
        {
            let left = self.stack[i];
            let right = self.stack[i + 1];
            let d = (i - idx + 1) as i32;
            let ghost old_out = out@;
            if right.0 % 13 + 1 == 13 {
                // get rid of that King
                out.push((MatchType::Stack, d, (right, None)));
                proof {
                    lemma_pos_of_at(s, i as int + 1);
                    assert(stack_scan(s, i as int, idx as int) =~= seq![
                        (MatchType::Stack, d, (right, None::<RawCard>)),
                    ] + stack_scan(s, i as int + 1, idx as int));
                    assert(out@ + stack_scan(s, i as int + 1, idx as int) =~= old_out + stack_scan(
                        s,
                        i as int,
                        idx as int,
                    ));
                }
            } else if crate::utils::cards_match(left, right) {
                out.push((MatchType::Stack, d, (left, Some(right))));
                proof {
                    lemma_stack_pair_valid(*self, i as int);
                    assert(stack_scan(s, i as int, idx as int) =~= seq![
                        (MatchType::Stack, d, (left, Some(right))),
                    ] + stack_scan(s, i as int + 1, idx as int));
                    assert(out@ + stack_scan(s, i as int + 1, idx as int) =~= old_out + stack_scan(
                        s,
                        i as int,
                        idx as int,
                    ));
                }
            } else {
                proof {
                    assert(stack_scan(s, i as int, idx as int) =~= stack_scan(
                        s,
                        i as int + 1,
                        idx as int,
                    ));
                }
            }
            i += 1;
        }
        proof {
            assert(stack_scan(s, i as int, idx as int) =~= Seq::<Move>::empty());
            assert(stack_moves_spec(*self) == out@ + stack_wrap_scan(s, 0, idx as int));
        }
        // check pairs among the flipped cards, reachable again after a wrap
        let mut w: usize = 0;
        while w + 1 < idx
            invariant
                self.cells_ok(),
                s == self.stack@,
                len == self.stack@.len(),
                idx == self.stack_idx as int,
                idx <= len,
                w <= idx,
                stack_moves_spec(*self) == out@ + stack_wrap_scan(s, w as int, idx as int),
                forall|k: int| 0 <= k < out@.len() ==> move_valid(*self, #[trigger] out@[k]),
            decreases idx - w,
        {
            let left = self.stack[w];
            let right = self.stack[w + 1];
            let ghost old_out = out@;
            if crate::utils::cards_match(left, right) {
                let d = ((w + len + 2) - idx) as i32;
                out.push((MatchType::Stack, d, (left, Some(right))));
                proof {
                    lemma_stack_pair_valid(*self, w as int);
                    assert(crate::board::spec_advance(idx as int, d as int, len as int) == w as int
                        + 1);
                    assert(stack_wrap_scan(s, w as int, idx as int) =~= seq![
                        (MatchType::Stack, d, (left, Some(right))),
                    ] + stack_wrap_scan(s, w as int + 1, idx as int));
                    assert(out@ + stack_wrap_scan(s, w as int + 1, idx as int) =~= old_out
                        + stack_wrap_scan(s, w as int, idx as int));
                }
            } else {
                proof {
                    assert(stack_wrap_scan(s, w as int, idx as int) =~= stack_wrap_scan(
                        s,
                        w as int + 1,
                        idx as int,
                    ));
                }
            }
            w += 1;
        }
        proof {
            assert(stack_wrap_scan(s, w as int, idx as int) =~= Seq::<Move>::empty());
            assert(stack_moves_spec(*self) =~= out@);
        }
        out
    }
}

/// Whether a card list mentions a card.
fn contains_card(v: &Vec<RawCard>, c: RawCard) -> (r: bool)
    ensures
        r == v@.contains(c),
{
    let mut i: usize = 0;
    while i < v.len()
        invariant
            i <= v@.len(),
            forall|k: int| 0 <= k < i ==> v@[k] != c,
        decreases v@.len() - i,
    {
        if v[i] == c {
            return true;
        }
        i += 1;
    }
    false
}

/// Append every move of `src` to `dst`.
fn append_moves(dst: &mut Vec<Move>, src: &Vec<Move>)
    ensures
        final(dst)@ == old(dst)@ + src@,
{
    let mut i: usize = 0;
    while i < src.len()
        invariant
            i <= src@.len(),
            dst@ == old(dst)@ + src@.take(i as int),
        decreases src@.len() - i,
    {
        dst.push(src[i]);
        proof {
            assert(old(dst)@ + src@.take(i as int + 1) =~= (old(dst)@ + src@.take(i as int)).push(
                src@[i as int],
            ));
        }
        i += 1;
    }
    proof {
        assert(src@.take(src@.len() as int) =~= src@);
    }
}

impl Board {
    /// Every legal move in the current state, in the canonical order. A King
    /// among the leaves, a pair whose triangle card is the last of its rank,
    /// or (failing any triangle match) an urgent free pile move is returned
    /// alone; otherwise the full sorted list. Equal states always get equal
    /// lists, and every listed move can be played.
    #[verifier::loop_isolation(false)]
    #[verifier::rlimit(100)]
    pub fn get_moves(&self) -> (r: Vec<Move>)
        requires
            self.cells_ok(),
        ensures
            r@ == moves_spec(*self),
            forall|i: int| 0 <= i < r@.len() ==> move_valid(*self, #[trigger] r@[i]),
    {
        let leaves = self.leaves();
        let ghost s = sorted_leaves(*self);
        // first check for Kings in the leaves
        let mut ki: usize = 0;
        while ki < leaves.len()
            invariant
                ki <= s.len(),
                first_king_from(s, 0) == first_king_from(s, ki as int),
            decreases s.len() - ki,
        {
            let c = leaves[ki];
            if c.0 % 13 + 1 == 13 {
                let mv = (MatchType::Board, 0i32, (c, None));
                let mut out: Vec<Move> = Vec::new();
                out.push(mv);
                proof {
                    assert(first_king_from(s, ki as int) == Some(c));
                    assert(s.contains(c));
                    lemma_sorted_leaf_on_leaf(*self, c);
                    assert(out@ =~= moves_spec(*self));
                }
                return out;
            }
            ki += 1;
        }
        proof {
            assert(first_king_from(s, 0) is None);
        }
        // which ranks are down to their last card anywhere
        let mut solos: Vec<bool> = Vec::new();
        let mut sr: usize = 0;
        while sr < 13
            invariant
                sr <= 13,
                solos@.len() == sr,
                forall|k: int| 0 <= k < sr ==> !solos@[k],
            decreases 13 - sr,
        {
            solos.push(false);
            sr += 1;
        }
        let mut sj: usize = 0;
        while sj < 28
            invariant
                sj <= 28,
                solos@.len() == 13,
                forall|k: int|
                    0 <= k < 13 ==> (solos@[k] <==> (self.card_counts@[k] == 1 && exists|j: int|
                        0 <= j < sj && #[trigger] self.board_cards@[j].0 % 13 == k)),
            decreases 28 - sj,
        {
            let raw = self.board_cards[sj];
            let rc = (raw.0 % 13) as usize;
            if self.card_counts[rc] == 1 {
                solos.set(rc, true);
            }
            sj += 1;
        }
        proof {
            assert forall|rank: int| 1 <= rank <= 13 implies (solos@[rank - 1] == spec_is_solo(
                *self,
                rank,
            )) by {
                if solos@[rank - 1] {
                    let j = choose|j: int|
                        0 <= j < 28 && #[trigger] self.board_cards@[j].0 % 13 == rank - 1;
                    assert(spec_rank(self.board_cards@[j].0) as int == rank);
                }
                if spec_is_solo(*self, rank) {
                    let j = choose|j: int|
                        0 <= j < 28 && spec_rank(#[trigger] self.board_cards@[j].0) as int == rank;
                    assert(self.board_cards@[j].0 % 13 == rank - 1);
                }
            }
        }
        // matches on the table itself
        let mut bmoves: Vec<Move> = Vec::new();
        let mut matched: Vec<RawCard> = Vec::new();
        let ghost mut msetg: Set<RawCard> = Set::empty();
        let mut i: usize = 0;
        proof {
            assert forall|c: RawCard| matched@.contains(c) <==> msetg.contains(c) by {}
        }
        while i < leaves.len()
            invariant
                i <= s.len(),
                forall|c: RawCard| matched@.contains(c) <==> msetg.contains(c),
                board_moves_spec(*self) == bm_outer(*self, s, i as int, msetg, bmoves@),
                forall|k: int| 0 <= k < bmoves@.len() ==> move_valid(*self, #[trigger] bmoves@[k]),
            decreases s.len() - i,
        {
            let l = leaves[i];
            let mut j: usize = 0;
            while j < leaves.len()
                invariant
                    i < s.len(),
                    l == s[i as int],
                    j <= s.len(),
                    forall|c: RawCard| matched@.contains(c) <==> msetg.contains(c),
                    board_moves_spec(*self) == ({
                        let step = bm_inner(*self, s, l, j as int, msetg, bmoves@);
                        if step.0 is Some {
                            (step.0, step.1)
                        } else {
                            bm_outer(*self, s, i as int + 1, step.2, step.1)
                        }
                    }),
                    forall|k: int|
                        0 <= k < bmoves@.len() ==> move_valid(*self, #[trigger] bmoves@[k]),
                decreases s.len() - j,
            {
                let pm = leaves[j];
                if crate::utils::cards_match(l, pm) && !contains_card(&matched, pm) {
                    let ghost old_matched = matched@;
                    matched.push(pm);
                    matched.push(l);
                    proof {
                        msetg = msetg.insert(pm).insert(l);
                        assert forall|c: RawCard| matched@.contains(c) <==> msetg.contains(c) by {
                            assert(matched@ =~= old_matched.push(pm).push(l));
                            if matched@.contains(c) {
                                let k = choose|k: int|
                                    0 <= k < matched@.len() && #[trigger] matched@[k] == c;
                                if k < old_matched.len() {
                                    assert(old_matched[k] == c);
                                }
                            }
                            if msetg.contains(c) {
                                if c == l {
                                    assert(matched@[matched@.len() - 1] == c);
                                } else if c == pm {
                                    assert(matched@[matched@.len() - 2] == c);
                                } else {
                                    let k = choose|k: int|
                                        0 <= k < old_matched.len() && #[trigger] old_matched[k]
                                            == c;
                                    assert(matched@[k] == c);
                                }
                            }
                        }
                    }
                    let mv = (MatchType::Board, 0i32, (l, Some(pm)));
                    proof {
                        lemma_sorted_leaf_on_leaf(*self, l);
                        lemma_sorted_leaf_on_leaf(*self, pm);
                        assert(move_valid(*self, mv));
                    }
                    if solos[(l.0 % 13) as usize] || solos[(pm.0 % 13) as usize] {
                        // the last pair this rank will ever make: the only
                        // sensible move
                        let mut out: Vec<Move> = Vec::new();
                        out.push(mv);
                        proof {
                            assert(spec_is_solo(*self, spec_rank(l.0) as int) || spec_is_solo(
                                *self,
                                spec_rank(pm.0) as int,
                            ));
                            assert(board_moves_spec(*self).0 == Some(mv));
                            assert(out@ =~= moves_spec(*self));
                        }
                        return out;
                    }
                    bmoves.push(mv);
                } else {
                }
                j += 1;
            }
            i += 1;
        }
        proof {
            assert(board_moves_spec(*self) == (None::<Move>, bmoves@));
        }
        // matches between a leaf and a reachable pile card; the forced-pair
        // cut below only applies while the triangle offered no match
        let allow_short = bmoves.len() == 0;
        let ghost allows = bmoves@.len() == 0;
        let mut bsmoves: Vec<Move> = Vec::new();
        let mut i2: usize = 0;
        while i2 < leaves.len()
            invariant
                i2 <= s.len(),
                allow_short == allows,
                ({
                    let bs = bs_outer(*self, s, 0, Seq::empty(), allows);
                    bs == bs_outer(*self, s, i2 as int, bsmoves@, allows)
                }),
                forall|k: int| 0 <= k < bsmoves@.len() ==> move_valid(*self, #[trigger] bsmoves@[k]),
            decreases s.len() - i2,
        {
            let l = leaves[i2];
            let lrank = l.0 % 13 + 1;
            let target = crate::utils::match_card(crate::Card(lrank));
            if self.stack_counts[(target.0 - 1) as usize] == 0 {
                // no such rank left in the pile
                i2 += 1;
                continue ;
            }
            let ds = self.get_stack_draws(target);
            let ghost dseq = draws_for(*self, target.0 as int);
            let mut j2: usize = 0;
            while j2 < ds.len()
                invariant
                    i2 < s.len(),
                    l == s[i2 as int],
                    1 <= target.0 <= 13,
                    target.0 == spec_match_rank(spec_rank(l.0)),
                    self.stack_counts@[target.0 - 1] != 0,
                    ds@.map_values(|d: i32| d as int) == dseq,
                    dseq == draws_for(*self, target.0 as int),
                    forall|k: int|
                        0 <= k < ds@.len() ==> valid_draw(*self, ds@[k] as int, target.0 as int),
                    j2 <= ds@.len(),
                    allow_short == allows,
                    ({
                        let bs = bs_outer(*self, s, 0, Seq::empty(), allows);
                        let step = bs_inner(*self, l, dseq, j2 as int, bsmoves@, allows);
                        bs == (if step.0 is Some {
                            (step.0, step.1)
                        } else {
                            bs_outer(*self, s, i2 as int + 1, step.1, allows)
                        })
                    }),
                    forall|k: int|
                        0 <= k < bsmoves@.len() ==> move_valid(*self, #[trigger] bsmoves@[k]),
                decreases ds@.len() - j2,
            {
                let d = ds[j2];
                let len32 = self.stack.len() as i32;
                let mut spos = self.stack_idx + d;
                if spos > len32 {
                    // wrap the pile, plus one for the flip
                    spos = spos - len32 - 1;
                }
                let sc = self.stack[spos as usize];
                proof {
                    assert(spos as int == draw_pos(*self, d as int));
                    assert(sc == self.stack@[draw_pos(*self, d as int)]);
                }
                let cost = if d > 0 {
                    d
                } else {
                    0
                };
                let mv = (MatchType::BoardStack, cost, (l, Some(sc)));
                proof {
                    lemma_sorted_leaf_on_leaf(*self, l);
                    lemma_draw_take_ok(*self, d as int, target.0 as int);
                    assert(move_valid(*self, mv));
                }
                if allow_short && solos[(l.0 % 13) as usize] && d <= 0 {
                    // its match is already reachable for free: play it now
                    let mut out: Vec<Move> = Vec::new();
                    out.push(mv);
                    proof {
                        assert(spec_is_solo(*self, spec_rank(l.0) as int));
                        assert(bs_inner(*self, l, dseq, j2 as int, bsmoves@, allows).0 == Some(mv));
                        assert(bs_outer(*self, s, 0, Seq::empty(), allows).0 == Some(mv));
                        assert(out@ =~= moves_spec(*self));
                    }
                    return out;
                }
                bsmoves.push(mv);
                j2 += 1;
            }
            proof {
                assert(bs_inner(*self, l, dseq, j2 as int, bsmoves@, allows) == (
                    None::<Move>,
                    bsmoves@,
                ));
            }
            i2 += 1;
        }
        proof {
            assert(bs_outer(*self, s, 0, Seq::empty(), allows) == (None::<Move>, bsmoves@));
        }
        // matches inside the pile
        let smoves = self.get_stack_moves();
        // with no match on the table, an urgent free pile move is forced
        if bmoves.len() == 0 {
            let mut u: usize = 0;
            while u < smoves.len()
                invariant
                    u <= smoves@.len(),
                    find_urgent(*self, smoves@, 0) == find_urgent(*self, smoves@, u as int),
                decreases smoves@.len() - u,
            {
                let m = smoves[u];
                let urgent = m.1 == 0 && (m.2.0.0 % 13 + 1 == 13 || solos[(m.2.0.0 % 13) as usize]);
                if urgent {
                    let mut out: Vec<Move> = Vec::new();
                    out.push(m);
                    proof {
                        assert(find_urgent(*self, smoves@, u as int) == Some(m));
                        assert(out@ =~= moves_spec(*self));
                    }
                    return out;
                }
                u += 1;
            }
            proof {
                assert(find_urgent(*self, smoves@, 0) is None);
            }
        }
        // everything found, in the canonical order
        let mut all = bmoves;
        append_moves(&mut all, &bsmoves);
        append_moves(&mut all, &smoves);
        let r = crate::moves::sort_moves(all);
        proof {
            broadcast use vstd::seq_lib::group_to_multiset_ensures;

            assert(r@ == moves_spec(*self));
            assert forall|k: int| 0 <= k < r@.len() implies move_valid(
                *self,
                #[trigger] r@[k],
            ) by {
                vstd::seq_lib::to_multiset_contains(r@, r@[k]);
                vstd::seq_lib::to_multiset_contains(all@, r@[k]);
                assert(all@.contains(r@[k]));
                let kk = choose|kk: int| 0 <= kk < all@.len() && all@[kk] == r@[k];
                if kk < bmoves@.len() {
                    assert(bmoves@[kk] == r@[k]);
                } else if kk < bmoves@.len() + bsmoves@.len() {
                    assert(bsmoves@[kk - bmoves@.len()] == r@[k]);
                } else {
                    assert(smoves@[kk - bmoves@.len() - bsmoves@.len()] == r@[k]);
                }
            }
        }
        r
    }
}



/// When the apex is exposed, it is the only exposed cell: everything else is
/// already gone.
proof fn lemma_apex_only_leaf(b: Board, c: int)
    requires
        b.cells_ok(),
        b.topology_ok(),
        b.is_leaf(0),
        b.is_leaf(c),
        0 <= c < 28,
    ensures
        c == 0,
{
    if c != 0 {
        assert(covers(0, c));
        assert(b.removed@.contains(c));
        assert(false);
    }
}

/// Removing the exposed apex alone keeps the leaf topology exact: no cell sits
/// above the apex, so nothing new is exposed and nothing else changes.
proof fn lemma_apex_removal_inv(pre: Board, post: Board)
    requires
        pre.inv(),
        pre.is_leaf(0),
        post.cells_ok(),
        post.counts_ok(),
        post.removed@ == pre.removed@.union(Set::<int>::empty().insert(0)),
        forall|z: int| post.is_leaf(z) <==> (pre.is_leaf(z) && z != 0),
    ensures
        post.inv(),
{
    let r2 = post.removed@;
    assert forall|c: int| r2.contains(c) implies 0 <= c < 28 && crate::board::cone_removed(
        c,
        r2,
    ) by {
        if pre.removed@.contains(c) {
            assert forall|e: int| covers(c, e) implies r2.contains(e) by {}
        } else {
            assert(c == 0);
            assert forall|e: int| covers(0, e) implies r2.contains(e) by {
                assert(pre.removed@.contains(e));
            }
        }
    }
    assert forall|c: int| 0 <= c < 28 implies (post.is_leaf(c) <==> (!r2.contains(c)
        && crate::board::cone_removed(c, r2))) by {
        if c == 0 {
            assert(r2.contains(0));
        } else {
            assert(!covers(c, 0));
            assert(crate::board::cone_removed(c, r2) <==> crate::board::cone_removed(
                c,
                pre.removed@,
            )) by {
                if crate::board::cone_removed(c, r2) {
                    assert forall|e: int| covers(c, e) implies pre.removed@.contains(e) by {
                        assert(r2.contains(e));
                        assert(e != 0);
                    }
                }
            }
        }
    }
}

/// Operations that leave the triangle and its removal history alone keep the
/// leaf topology intact.
proof fn lemma_topology_same(a: Board, b: Board)
    requires
        a.topology_ok(),
        b.removed@ == a.removed@,
        b.leaf_idxs@ == a.leaf_idxs@,
    ensures
        b.topology_ok(),
{
    assert forall|c: int| 0 <= c < 28 implies (b.is_leaf(c) <==> (!b.removed@.contains(c)
        && crate::board::cone_removed(c, b.removed@))) by {
        assert(b.is_leaf(c) == a.is_leaf(c));
    }
    assert forall|c: int| b.removed@.contains(c) implies 0 <= c < 28 by {}
    assert forall|c: int| b.removed@.contains(c) implies crate::board::cone_removed(
        c,
        b.removed@,
    ) by {}
}

impl Board {
    /// Play one move: advance the cursor by its draw cost, remove the cards
    /// it names from wherever they sit, and count the move. Only moves the
    /// generator could have produced for this state are meaningful; the move
    /// counter grows by the draw cost plus one.
    #[verifier::loop_isolation(false)]
    #[verifier::rlimit(100)]
    pub fn play_move(&mut self, m: Move)
        requires
            old(self).inv(),
            move_valid(*old(self), m),
            0 <= old(self).moves,
            old(self).moves + m.1 + 1 <= i32::MAX,
        ensures
            final(self).board_cards@ == old(self).board_cards@,
            final(self).clear_all == old(self).clear_all,
            final(self).moves == old(self).moves + m.1 + 1,
            final(self).cells_ok(),
            final(self).counts_ok(),
            old(self).completed ==> final(self).completed,
            !final(self).completed ==> final(self).inv(),
            m.0 is Board && !final(self).completed ==> final(self).stack@ == old(self).stack@
                && !on_leaf(*final(self), m.2.0) && (m.2.1 is Some ==> !on_leaf(
                *final(self),
                m.2.1->0,
            )),
            m.0 is BoardStack && !final(self).completed ==> !final(self).stack@.contains(m.2.1->0)
                && !on_leaf(*final(self), m.2.0),
            m.0 is Stack ==> !final(self).stack@.contains(m.2.0) && (m.2.1 is Some
                ==> !(final(self).stack@.contains(m.2.1->0))),
            steps_to(*old(self), m, *final(self)),
    {
        let (move_type, draws, cards) = m;
        self.stack_draw(draws);
        proof {
            assert(self.removed@ == old(self).removed@);
            assert(self.leaf_idxs@ == old(self).leaf_idxs@);
            assert(self.counts_ok());
            assert forall|c: int| self.removed@.contains(c) implies 0 <= c < 28 by {}
            assert forall|c: int| self.removed@.contains(c) implies crate::board::cone_removed(
                c,
                self.removed@,
            ) by {}
            assert forall|c: int| 0 <= c < 28 implies (self.is_leaf(c) <==> (!self.removed@.contains(
                c,
            ) && crate::board::cone_removed(c, self.removed@))) by {
                assert(self.is_leaf(c) == old(self).is_leaf(c));
            }
            assert(self.topology_ok());
        }
        match move_type {
            MatchType::Board => {
                let ghost pre = *self;
                self.remove_cards(cards);
                proof {
                    crate::board::lemma_pos_of(pre.board_cards@, cards.0);
                    let c1 = pos_of(pre.board_cards@, cards.0);
                    assert(pre.board_cards@ == old(self).board_cards@);
                    assert(pre.leaf_idxs@ == old(self).leaf_idxs@);
                    assert(pre.is_leaf(c1));
                    if cards.1 is Some {
                        crate::board::lemma_pos_of(pre.board_cards@, cards.1->0);
                        let c2 = pos_of(pre.board_cards@, cards.1->0);
                        assert(pre.is_leaf(c2));
                        if c1 == 0 {
                            lemma_apex_only_leaf(pre, c2);
                            assert(pre.board_cards@[0int] == cards.0);
                            assert(pre.board_cards@[0int] == cards.1->0);
                            assert(false);
                        }
                        if c2 == 0 {
                            lemma_apex_only_leaf(pre, c1);
                            assert(false);
                        }
                    }
                    if c1 == 0 {
                        lemma_apex_removal_inv(pre, *self);
                    }
                    assert(self.inv());
                    if !self.completed {
                        assert(self.removed@.contains(c1));
                        assert(!self.is_leaf(c1));
                        if cards.1 is Some {
                            let c2 = pos_of(self.board_cards@, cards.1->0);
                            assert(self.removed@.contains(c2));
                            assert(!self.is_leaf(c2));
                        }
                    }
                }
            },
            MatchType::BoardStack => {
                if let Some(stack_card) = cards.1 {
                    // take the pile card out, then account for it, then
                    // remove the triangle card
                    let ghost pre = *self;
                    self.remove_stack_cards((stack_card, None));
                    proof {
                        crate::board::lemma_pos_of(pre.stack@, stack_card);
                        let p = pos_of(pre.stack@, stack_card);
                        assert forall|r: int| 0 <= r < 13 implies pre.card_counts@[r] as int
                            == count_rank(self.stack@, r) + board_count_rank(
                            self.board_cards@,
                            self.removed@,
                            r,
                            28,
                        ) + (if pre.stack@[p].0 % 13 == r {
                            1int
                        } else {
                            0int
                        }) by {
                            crate::board::lemma_count_rank_remove(pre.stack@, p, r);
                        }
                        crate::board::lemma_remove_distinct(pre.stack@, p);
                    }
                    let rc = (stack_card.0 % 13) as usize;
                    proof {
                        crate::board::lemma_count_rank_le_len(self.stack@, rc as int);
                        crate::board::lemma_board_count_nonneg(
                            self.board_cards@,
                            self.removed@,
                            rc as int,
                            28,
                        );
                    }
                    let cc = self.card_counts[rc];
                    self.card_counts.set(rc, cc - 1);
                    proof {
                        let p = pos_of(pre.stack@, stack_card);
                        assert(pre.stack@[p] == stack_card);
                        assert forall|r: int| 0 <= r < 13 implies self.card_counts@[r] as int
                            == count_rank(self.stack@, r) + board_count_rank(
                            self.board_cards@,
                            self.removed@,
                            r,
                            28,
                        ) by {
                            assert(pre.card_counts@[r] as int == count_rank(self.stack@, r)
                                + board_count_rank(self.board_cards@, self.removed@, r, 28) + (if
                            pre.stack@[p].0 % 13 == r {
                                1int
                            } else {
                                0int
                            }));
                        }
                        assert forall|r: int| 0 <= r < 13 implies self.stack_counts@[r] as int
                            == count_rank(self.stack@, r) by {
                            let s2 = Board::stack_after_take(
                                pre.stack@,
                                pre.stack_idx as int,
                                stack_card,
                            ).0;
                            assert(self.stack@ == s2);
                            assert(self.stack_counts@[r] as int == count_rank(s2, r));
                        }
                        assert(self.counts_ok());
                        lemma_topology_same(pre, *self);
                        assert(self.topology_ok());
                        assert(!self.stack@.contains(stack_card));
                    }
                    let ghost pre2 = *self;
                    proof {
                        assert(pre2.inv());
                    }
                    self.remove_cards((cards.0, None));
                    proof {
                        crate::board::lemma_pos_of(pre2.board_cards@, cards.0);
                        let c1 = pos_of(pre2.board_cards@, cards.0);
                        assert(pre2.board_cards@ == old(self).board_cards@);
                        assert(pre2.leaf_idxs@ == old(self).leaf_idxs@);
                        assert(pre2.is_leaf(c1));
                        if c1 == 0 {
                            lemma_apex_removal_inv(pre2, *self);
                        }
                        assert(self.inv());
                        assert(self.stack@ == pre2.stack@);
                        assert(!self.stack@.contains(stack_card));
                        if !self.completed {
                            assert(self.removed@.contains(c1));
                            assert(!self.is_leaf(c1));
                        }
                    }
                } else {
                    proof {
                        assert(false);
                    }
                }
            },
            MatchType::Stack => {
                let ghost pre = *self;
                self.remove_stack_cards(cards);
                proof {
                    crate::board::lemma_pos_of(pre.stack@, cards.0);
                    let p1 = pos_of(pre.stack@, cards.0);
                    crate::board::lemma_remove_distinct(pre.stack@, p1);
                    assert forall|r: int| 0 <= r < 13 implies pre.card_counts@[r] as int
                        == count_rank(pre.stack@.remove(p1), r) + board_count_rank(
                        self.board_cards@,
                        self.removed@,
                        r,
                        28,
                    ) + (if pre.stack@[p1].0 % 13 == r {
                        1int
                    } else {
                        0int
                    }) by {
                        crate::board::lemma_count_rank_remove(pre.stack@, p1, r);
                    }
                    if cards.1 is Some {
                        let s1 = pre.stack@.remove(p1);
                        crate::board::lemma_pos_of(s1, cards.1->0);
                        let p2 = pos_of(s1, cards.1->0);
                        crate::board::lemma_remove_distinct(s1, p2);
                        assert forall|r: int| 0 <= r < 13 implies count_rank(s1, r) == count_rank(
                            self.stack@,
                            r,
                        ) + (if s1[p2].0 % 13 == r {
                            1int
                        } else {
                            0int
                        }) by {
                            crate::board::lemma_count_rank_remove(s1, p2, r);
                        }
                    }
                }
                let rc1 = (cards.0.0 % 13) as usize;
                proof {
                    crate::board::lemma_count_rank_le_len(self.stack@, rc1 as int);
                    crate::board::lemma_board_count_nonneg(
                        self.board_cards@,
                        self.removed@,
                        rc1 as int,
                        28,
                    );
                }
                let cc1 = self.card_counts[rc1];
                self.card_counts.set(rc1, cc1 - 1);
                if let Some(right) = cards.1 {
                    let rc2 = (right.0 % 13) as usize;
                    proof {
                        crate::board::lemma_count_rank_le_len(self.stack@, rc2 as int);
                        crate::board::lemma_board_count_nonneg(
                            self.board_cards@,
                            self.removed@,
                            rc2 as int,
                            28,
                        );
                    }
                    let ghost p1 = pos_of(pre.stack@, cards.0);
                    let ghost s1 = pre.stack@.remove(p1);
                    let ghost p2 = pos_of(s1, right);
                    proof {
                        assert(s1[p2] == right);
                        assert(pre.stack@[p1] == cards.0);
                        if rc2 == rc1 {
                            assert(pre.card_counts@[rc1 as int] as int >= 2);
                        }
                        assert(self.card_counts@[rc2 as int] >= 1);
                    }
                    let cc2 = self.card_counts[rc2];
                    self.card_counts.set(rc2, cc2 - 1);
                    proof {
                        assert forall|r: int| 0 <= r < 13 implies self.card_counts@[r] as int
                            == count_rank(self.stack@, r) + board_count_rank(
                            self.board_cards@,
                            self.removed@,
                            r,
                            28,
                        ) by {
                            assert(pre.card_counts@[r] as int == count_rank(s1, r)
                                + board_count_rank(self.board_cards@, self.removed@, r, 28) + (if
                            pre.stack@[p1].0 % 13 == r {
                                1int
                            } else {
                                0int
                            }));
                            assert(count_rank(s1, r) == count_rank(self.stack@, r) + (if s1[p2].0
                                % 13 == r {
                                1int
                            } else {
                                0int
                            }));
                        }
                    }
                } else {
                    proof {
                        let p1 = pos_of(pre.stack@, cards.0);
                        assert(pre.stack@[p1] == cards.0);
                        assert forall|r: int| 0 <= r < 13 implies self.card_counts@[r] as int
                            == count_rank(self.stack@, r) + board_count_rank(
                            self.board_cards@,
                            self.removed@,
                            r,
                            28,
                        ) by {
                            assert(pre.card_counts@[r] as int == count_rank(self.stack@, r)
                                + board_count_rank(self.board_cards@, self.removed@, r, 28) + (if
                            pre.stack@[p1].0 % 13 == r {
                                1int
                            } else {
                                0int
                            }));
                        }
                    }
                }
                proof {
                    assert forall|r: int| 0 <= r < 13 implies self.stack_counts@[r] as int
                        == count_rank(self.stack@, r) by {
                        let step1 = Board::stack_after_take(
                            pre.stack@,
                            pre.stack_idx as int,
                            cards.0,
                        );
                        let s2 = if cards.1 is Some {
                            Board::stack_after_take(step1.0, step1.1, cards.1->0).0
                        } else {
                            step1.0
                        };
                        assert(self.stack@ == s2);
                        assert(self.stack_counts@[r] as int == count_rank(s2, r));
                    }
                    assert(self.counts_ok());
                    lemma_topology_same(pre, *self);
                    assert(self.topology_ok());
                }
            },
        }
        let ghost fin0 = *self;
        self.moves += 1;
        proof {
            lemma_topology_same(fin0, *self);
            lemma_leaf_iff_exposed(*self);
            assert(steps_to(*old(self), m, *self));
        }
    }
}

/// Whether two boards are the same state: every component that the rules,
/// the move generator and play look at is equal.
pub open spec fn same_core(a: Board, b: Board) -> bool {
    &&& a.board_cards@ == b.board_cards@
    &&& a.card_counts@ == b.card_counts@
    &&& a.stack@ == b.stack@
    &&& a.stack_idx == b.stack_idx
    &&& a.stack_counts@ == b.stack_counts@
    &&& a.leaf_idxs@ == b.leaf_idxs@
    &&& a.removed@ == b.removed@
}

/// A board equal to a well-formed board component by component is itself
/// well-formed.
pub proof fn lemma_inv_same(a: Board, b: Board)
    requires
        same_core(a, b),
        a.inv(),
    ensures
        b.inv(),
{
    assert(b.cells_ok());
    assert forall|r: int| 0 <= r < 13 implies b.card_counts@[r] as int == count_rank(b.stack@, r)
        + board_count_rank(b.board_cards@, b.removed@, r, 28) by {}
    lemma_topology_same(a, b);
}

/// A move playable on a board is playable on any board equal to it component
/// by component.
pub proof fn lemma_move_valid_same(a: Board, b: Board, m: Move)
    requires
        same_core(a, b),
        move_valid(a, m),
    ensures
        move_valid(b, m),
{
    match m.0 {
        MatchType::Board => {
            assert(b.is_leaf(pos_of(b.board_cards@, m.2.0)) == a.is_leaf(
                pos_of(a.board_cards@, m.2.0),
            ));
            if m.2.1 is Some {
                assert(b.is_leaf(pos_of(b.board_cards@, m.2.1->0)) == a.is_leaf(
                    pos_of(a.board_cards@, m.2.1->0),
                ));
            }
        },
        MatchType::BoardStack => {
            assert(b.is_leaf(pos_of(b.board_cards@, m.2.0)) == a.is_leaf(
                pos_of(a.board_cards@, m.2.0),
            ));
        },
        MatchType::Stack => {},
    }
}

/// The leaf set is sound and complete: a cell is exposed exactly when it is
/// still present and everything it rests on is gone, and no exposed cell
/// still rests on another exposed cell.
pub proof fn lemma_leaves_exact(b: Board)
    requires
        b.inv(),
    ensures
        forall|c: int|
            0 <= c < 28 ==> (b.is_leaf(c) <==> (!b.removed@.contains(c)
                && crate::blocks::blocked_by_set(c) <= b.removed@)),
        forall|c: int, d: int|
            b.is_leaf(c) && b.is_leaf(d) ==> !crate::blocks::blocked_by_set(c).contains(d),
{
    assert forall|c: int| 0 <= c < 28 implies (b.is_leaf(c) <==> (!b.removed@.contains(c)
        && crate::blocks::blocked_by_set(c) <= b.removed@)) by {
        if b.is_leaf(c) {
            assert forall|d: int| crate::blocks::blocked_by_set(c).contains(d) implies b.removed@.contains(
                d,
            ) by {
                assert(covers(c, d));
            }
        }
        if !b.removed@.contains(c) && crate::blocks::blocked_by_set(c) <= b.removed@ {
            assert forall|d: int| covers(c, d) implies b.removed@.contains(d) by {
                assert(crate::blocks::blocked_by_set(c).contains(d));
            }
        }
    }
    assert forall|c: int, d: int| b.is_leaf(c) && b.is_leaf(d) implies !crate::blocks::blocked_by_set(
        c,
    ).contains(d) by {
        if crate::blocks::blocked_by_set(c).contains(d) {
            assert(covers(c, d));
            assert(0 <= c < 28) by {
                let k = choose|k: int|
                    0 <= k < b.leaf_idxs@.len() && #[trigger] b.leaf_idxs@[k] as int == c;
            }
            assert(b.removed@.contains(d));
            assert(0 <= d < 28);
            assert(!b.is_leaf(d));
        }
    }
}

/// Scanning for a King finds one exactly when one is there, and hands back a
/// King from the list.
pub proof fn lemma_first_king(s: Seq<RawCard>, i: int)
    requires
        0 <= i <= s.len(),
    ensures
        first_king_from(s, i) is Some <==> exists|j: int| i <= j < s.len() && is_king(#[trigger] s[j]),
        first_king_from(s, i) is Some ==> is_king(first_king_from(s, i)->0) && s.contains(
            first_king_from(s, i)->0,
        ),
    decreases s.len() - i,
{
    if i < s.len() {
        lemma_first_king(s, i + 1);
        if is_king(s[i]) {
        } else {
            if first_king_from(s, i) is Some {
                let j = choose|j: int| i + 1 <= j < s.len() && is_king(#[trigger] s[j]);
            }
        }
    }
}

/// A King among the leaves forces the move list to a single move removing
/// that King alone, with no draw.
pub proof fn lemma_king_forces_single(b: Board)
    requires
        b.cells_ok(),
        exists|j: int|
            0 <= j < sorted_leaves(b).len() && is_king(#[trigger] sorted_leaves(b)[j]),
    ensures
        moves_spec(b).len() == 1,
        moves_spec(b)[0].0 is Board,
        moves_spec(b)[0].1 == 0,
        is_king(moves_spec(b)[0].2.0),
        sorted_leaves(b).contains(moves_spec(b)[0].2.0),
        moves_spec(b)[0].2.1 is None,
{
    lemma_first_king(sorted_leaves(b), 0);
}

/// The triangle scan only cuts the enumeration short for a pair one of whose
/// cards is the last of its rank, and the cut move is a free triangle match.
pub proof fn lemma_bm_inner_short(
    b: Board,
    s: Seq<RawCard>,
    l: RawCard,
    j: int,
    matched: Set<RawCard>,
    acc: Seq<Move>,
)
    ensures
        bm_inner(b, s, l, j, matched, acc).0 is Some ==> {
            let m = bm_inner(b, s, l, j, matched, acc).0->0;
            &&& m.0 is Board
            &&& m.1 == 0
            &&& m.2.0 == l
            &&& m.2.1 is Some
            &&& (spec_is_solo(b, spec_rank(l.0) as int) || spec_is_solo(
                b,
                spec_rank((m.2.1->0).0) as int,
            ))
            &&& spec_cards_match(l, m.2.1->0)
        },
    decreases s.len() - j,
{
    if 0 <= j < s.len() {
        let pm = s[j];
        if spec_cards_match(l, pm) && !matched.contains(pm) {
            if !(spec_is_solo(b, spec_rank(l.0) as int) || spec_is_solo(
                b,
                spec_rank(pm.0) as int,
            )) {
                lemma_bm_inner_short(
                    b,
                    s,
                    l,
                    j + 1,
                    matched.insert(pm).insert(l),
                    acc.push((MatchType::Board, 0i32, (l, Some(pm)))),
                );
            }
        } else {
            lemma_bm_inner_short(b, s, l, j + 1, matched, acc);
        }
    }
}

/// The same, lifted over the scan of all leaves.
pub proof fn lemma_bm_outer_short(b: Board, s: Seq<RawCard>, i: int, matched: Set<RawCard>, acc: Seq<Move>)
    ensures
        bm_outer(b, s, i, matched, acc).0 is Some ==> {
            let m = bm_outer(b, s, i, matched, acc).0->0;
            &&& m.0 is Board
            &&& m.1 == 0
            &&& m.2.1 is Some
            &&& (spec_is_solo(b, spec_rank(m.2.0.0) as int) || spec_is_solo(
                b,
                spec_rank((m.2.1->0).0) as int,
            ))
            &&& spec_cards_match(m.2.0, m.2.1->0)
        },
    decreases s.len() - i,
{
    if 0 <= i < s.len() {
        let step = bm_inner(b, s, s[i], 0, matched, acc);
        lemma_bm_inner_short(b, s, s[i], 0, matched, acc);
        if step.0 is None {
            lemma_bm_outer_short(b, s, i + 1, step.2, step.1);
        }
    }
}

/// A triangle pair either of whose cards is the last of its rank forces the
/// move list to that single pair, however many other triangle matches exist.
pub proof fn lemma_solo_pair_forces_single(b: Board)
    requires
        b.cells_ok(),
        first_king_from(sorted_leaves(b), 0) is None,
        board_moves_spec(b).0 is Some,
    ensures
        moves_spec(b) == seq![board_moves_spec(b).0->0],
        ({
            let m = board_moves_spec(b).0->0;
            &&& m.0 is Board
            &&& m.1 == 0
            &&& m.2.1 is Some
            &&& (spec_is_solo(b, spec_rank(m.2.0.0) as int) || spec_is_solo(
                b,
                spec_rank((m.2.1->0).0) as int,
            ))
            &&& spec_cards_match(m.2.0, m.2.1->0)
        }),
{
    lemma_bm_outer_short(b, sorted_leaves(b), 0, Set::empty(), Seq::empty());
}

/// The triangle scan treats two equal states alike.
proof fn lemma_bm_inner_same(
    a: Board,
    b: Board,
    s: Seq<RawCard>,
    l: RawCard,
    j: int,
    matched: Set<RawCard>,
    acc: Seq<Move>,
)
    requires
        same_core(a, b),
    ensures
        bm_inner(a, s, l, j, matched, acc) == bm_inner(b, s, l, j, matched, acc),
    decreases s.len() - j,
{
    if 0 <= j < s.len() {
        assert(spec_is_solo(a, spec_rank(l.0) as int) == spec_is_solo(b, spec_rank(l.0) as int));
        let pm = s[j];
        if spec_cards_match(l, pm) && !matched.contains(pm) {
            if !spec_is_solo(a, spec_rank(l.0) as int) {
                lemma_bm_inner_same(
                    a,
                    b,
                    s,
                    l,
                    j + 1,
                    matched.insert(pm).insert(l),
                    acc.push((MatchType::Board, 0i32, (l, Some(pm)))),
                );
            }
        } else {
            lemma_bm_inner_same(a, b, s, l, j + 1, matched, acc);
        }
    }
}

/// The scan of all leaves treats two equal states alike.
proof fn lemma_bm_outer_same(
    a: Board,
    b: Board,
    s: Seq<RawCard>,
    i: int,
    matched: Set<RawCard>,
    acc: Seq<Move>,
)
    requires
        same_core(a, b),
    ensures
        bm_outer(a, s, i, matched, acc) == bm_outer(b, s, i, matched, acc),
    decreases s.len() - i,
{
    if 0 <= i < s.len() {
        lemma_bm_inner_same(a, b, s, s[i], 0, matched, acc);
        let step = bm_inner(a, s, s[i], 0, matched, acc);
        if step.0 is None {
            lemma_bm_outer_same(a, b, s, i + 1, step.2, step.1);
        }
    }
}

/// The pile-match scan for one leaf treats two equal states alike.
proof fn lemma_bs_inner_same(
    a: Board,
    b: Board,
    l: RawCard,
    ds: Seq<int>,
    j: int,
    acc: Seq<Move>,
    allow_short: bool,
)
    requires
        same_core(a, b),
    ensures
        bs_inner(a, l, ds, j, acc, allow_short) == bs_inner(b, l, ds, j, acc, allow_short),
    decreases ds.len() - j,
{
    if 0 <= j < ds.len() {
        assert(spec_is_solo(a, spec_rank(l.0) as int) == spec_is_solo(b, spec_rank(l.0) as int));
        let d = ds[j];
        assert(draw_pos(a, d) == draw_pos(b, d));
        if !(allow_short && spec_is_solo(a, spec_rank(l.0) as int) && d <= 0) {
            let sc = a.stack@[draw_pos(a, d)];
            let cost = if d > 0 {
                d
            } else {
                0int
            };
            lemma_bs_inner_same(
                a,
                b,
                l,
                ds,
                j + 1,
                acc.push((MatchType::BoardStack, cost as i32, (l, Some(sc)))),
                allow_short,
            );
        }
    }
}

/// The pile-match scan of all leaves treats two equal states alike.
proof fn lemma_bs_outer_same(
    a: Board,
    b: Board,
    s: Seq<RawCard>,
    i: int,
    acc: Seq<Move>,
    allow_short: bool,
)
    requires
        same_core(a, b),
    ensures
        bs_outer(a, s, i, acc, allow_short) == bs_outer(b, s, i, acc, allow_short),
    decreases s.len() - i,
{
    if 0 <= i < s.len() {
        let l = s[i];
        let target = spec_match_rank(spec_rank(l.0)) as int;
        if a.stack_counts@[target - 1] == 0 {
            lemma_bs_outer_same(a, b, s, i + 1, acc, allow_short);
        } else {
            assert(draws_for(a, target) == draws_for(b, target));
            lemma_bs_inner_same(a, b, l, draws_for(a, target), 0, acc, allow_short);
            let step = bs_inner(a, l, draws_for(a, target), 0, acc, allow_short);
            if step.0 is None {
                lemma_bs_outer_same(a, b, s, i + 1, step.1, allow_short);
            }
        }
    }
}

/// The urgent-move scan treats two equal states alike.
proof fn lemma_find_urgent_same(a: Board, b: Board, sm: Seq<Move>, i: int)
    requires
        same_core(a, b),
    ensures
        find_urgent(a, sm, i) == find_urgent(b, sm, i),
    decreases sm.len() - i,
{
    if 0 <= i < sm.len() {
        let m = sm[i];
        assert(spec_is_solo(a, spec_rank(m.2.0.0) as int) == spec_is_solo(
            b,
            spec_rank(m.2.0.0) as int,
        ));
        if !(m.1 == 0 && (is_king(m.2.0) || spec_is_solo(a, spec_rank(m.2.0.0) as int))) {
            lemma_find_urgent_same(a, b, sm, i + 1);
        }
    }
}

/// The move generator is deterministic: two boards in the same state — equal
/// triangle, pile, cursor, counts, exposed cells and removal history — get
/// exactly the same move list, in the same order. In particular a cloned
/// board always lists the same moves as its original.
pub proof fn lemma_get_moves_deterministic(a: Board, b: Board)
    requires
        same_core(a, b),
    ensures
        moves_spec(a) == moves_spec(b),
{
    assert(a.leaf_cards() =~= b.leaf_cards());
    assert(sorted_leaves(a) == sorted_leaves(b));
    let s = sorted_leaves(a);
    lemma_bm_outer_same(a, b, s, 0, Set::empty(), Seq::empty());
    lemma_bs_outer_same(a, b, s, 0, Seq::empty(), board_moves_spec(a).1.len() == 0);
    lemma_bs_outer_same(a, b, s, 0, Seq::empty(), board_moves_spec(b).1.len() == 0);
    assert(stack_moves_spec(a) == stack_moves_spec(b));
    lemma_find_urgent_same(a, b, stack_moves_spec(a), 0);
}

/// Round trip: a card that is neither exposed on the triangle nor present in
/// the pile is never named by any playable move, on either side of a pair.
/// Together with the guarantees of playing a move — the cards a move removes
/// are no longer exposed or in the pile afterwards — no move list ever offers
/// a card that an earlier move already removed.
pub proof fn lemma_no_reoffer(b: Board, m2: Move, gone: RawCard)
    requires
        b.cells_ok(),
        move_valid(b, m2),
        !on_leaf(b, gone),
        !b.stack@.contains(gone),
    ensures
        m2.2.0 != gone,
        m2.2.1 is Some ==> m2.2.1->0 != gone,
{
    match m2.0 {
        MatchType::Board => {},
        MatchType::BoardStack => {},
        MatchType::Stack => {
            if m2.2.1 is Some {
                let idx2 = crate::board::spec_advance(
                    b.stack_idx as int,
                    m2.1 as int,
                    b.stack@.len() as int,
                );
                crate::board::lemma_pos_of(b.stack@, m2.2.0);
                let p = pos_of(b.stack@, m2.2.0);
                let s1 = b.stack@.remove(p);
                b.stack@.remove_ensures(p);
                assert(s1.contains(m2.2.1->0));
                if m2.2.1->0 == gone {
                    let k = choose|k: int| 0 <= k < s1.len() && s1[k] == gone;
                    if k < p {
                        assert(b.stack@[k] == gone);
                        assert(b.stack@.contains(gone));
                    } else {
                        assert(b.stack@[k + 1] == gone);
                        assert(b.stack@.contains(gone));
                    }
                    assert(false);
                }
            }
        },
    }
}

/// A well-formed board's leaves are exactly the exposed cells, over all
/// integers: out-of-range numbers are neither.
pub proof fn lemma_leaf_iff_exposed(b: Board)
    requires
        b.cells_ok(),
        b.topology_ok(),
    ensures
        forall|z: int| b.is_leaf(z) <==> crate::board::exposed_after(z, b.removed@),
{
    assert forall|z: int| b.is_leaf(z) <==> crate::board::exposed_after(z, b.removed@) by {
        if z < 0 || z >= 28 {
            if b.is_leaf(z) {
                let k = choose|k: int|
                    0 <= k < b.leaf_idxs@.len() && #[trigger] b.leaf_idxs@[k] as int == z;
                assert(b.leaf_idxs@[k] < 28);
                assert(false);
            }
        }
    }
}

/// How one played move turns one board state into the next: the cursor
/// advances by the draw cost, the named cards leave their containers, the
/// counts and the leaf set follow, the completion rule fires where it must,
/// and the move counter grows by the cost plus one. This pins the whole next
/// state: the pile and cursor exactly, the removal history exactly, the leaf
/// list up to its (ordered, hence unique) contents, and every count through
/// the count rules.
pub open spec fn steps_to(pre: Board, m: Move, post: Board) -> bool {
    let d = m.1 as int;
    let len = pre.stack@.len() as int;
    let idx1 = crate::board::spec_advance(pre.stack_idx as int, d, len);
    &&& post.board_cards@ == pre.board_cards@
    &&& post.clear_all == pre.clear_all
    &&& post.moves == pre.moves + d + 1
    &&& post.cells_ok()
    &&& post.counts_ok()
    &&& (match m.0 {
        MatchType::Board => {
            let c1 = pos_of(pre.board_cards@, m.2.0);
            let c2 = pos_of(pre.board_cards@, m.2.1->0);
            let pset = if m.2.1 is Some {
                Set::<int>::empty().insert(c1).insert(c2)
            } else {
                Set::<int>::empty().insert(c1)
            };
            let apex = c1 == 0 || (m.2.1 is Some && c2 == 0);
            &&& post.stack@ == pre.stack@
            &&& post.stack_idx as int == idx1
            &&& post.stack_counts@ == pre.stack_counts@
            &&& post.removed@ == pre.removed@.union(pset)
            &&& post.completed == (pre.completed || (apex && (!pre.clear_all || len == 0)))
            &&& (if c1 == 0 {
                forall|z: int| post.is_leaf(z) <==> (pre.is_leaf(z) && z != 0)
            } else if m.2.1 is Some && c2 == 0 {
                forall|z: int| post.is_leaf(z) <==> (pre.is_leaf(z) && z != 0 && z != c1)
            } else {
                forall|z: int| post.is_leaf(z) <==> crate::board::exposed_after(z, post.removed@)
            })
        },
        MatchType::BoardStack => {
            let take1 = Board::stack_after_take(pre.stack@, idx1, m.2.1->0);
            let c1 = pos_of(pre.board_cards@, m.2.0);
            &&& m.2.1 is Some
            &&& post.stack@ == take1.0
            &&& post.stack_idx as int == take1.1
            &&& post.removed@ == pre.removed@.union(Set::<int>::empty().insert(c1))
            &&& post.completed == (pre.completed || (pre.clear_all && take1.0.len() == 0
                && pre.leaf_idxs@.len() == 0) || (c1 == 0 && (!pre.clear_all || take1.0.len()
                == 0)))
            &&& (if c1 == 0 {
                forall|z: int| post.is_leaf(z) <==> (pre.is_leaf(z) && z != 0)
            } else {
                forall|z: int| post.is_leaf(z) <==> crate::board::exposed_after(z, post.removed@)
            })
        },
        MatchType::Stack => {
            let take1 = Board::stack_after_take(pre.stack@, idx1, m.2.0);
            let take2 = if m.2.1 is Some {
                Board::stack_after_take(take1.0, take1.1, m.2.1->0)
            } else {
                take1
            };
            &&& post.stack@ == take2.0
            &&& post.stack_idx as int == take2.1
            &&& post.leaf_idxs@ == pre.leaf_idxs@
            &&& post.removed@ == pre.removed@
            &&& post.completed == (pre.completed || (pre.clear_all && take2.0.len() == 0
                && pre.leaf_idxs@.len() == 0))
        },
    })
}

/// The step relation only reads the state's components, so it holds just as
/// well from any board equal to the starting one component by component — in
/// particular from the board a clone was taken of.
pub proof fn lemma_steps_to_pre_same(a: Board, b: Board, m: Move, post: Board)
    requires
        steps_to(a, m, post),
        same_core(a, b),
        a.moves == b.moves,
        a.clear_all == b.clear_all,
        a.completed == b.completed,
    ensures
        steps_to(b, m, post),
{
    match m.0 {
        MatchType::Board => {
            assert forall|z: int| a.is_leaf(z) == b.is_leaf(z) by {}
        },
        MatchType::BoardStack => {
            assert forall|z: int| a.is_leaf(z) == b.is_leaf(z) by {}
        },
        MatchType::Stack => {},
    }
}

/// Whether `chain` records a legal game from `b0`: each link plays the move
/// the 1-based index of `path` picks from the canonical move list of a live,
/// well-formed state, and each next state is the stepped one.
pub open spec fn reaches(b0: Board, chain: Seq<Board>, path: Seq<usize>) -> bool {
    &&& chain.len() == path.len() + 1
    &&& chain[0] == b0
    &&& forall|i: int|
        0 <= i < path.len() ==> {
            &&& !(#[trigger] chain[i]).completed
            &&& chain[i].inv()
            &&& 1 <= path[i] <= moves_spec(chain[i]).len()
            &&& steps_to(chain[i], moves_spec(chain[i])[path[i] - 1], chain[i + 1])
        }
}

/// Every move list the generator hands out is in the canonical order.
pub proof fn lemma_moves_spec_sorted(b: Board)
    ensures
        vstd::relations::sorted_by(moves_spec(b), move_le_fn()),
{
    crate::moves::lemma_move_le_total_ordering();
    let leq = move_le_fn();
    let s = sorted_leaves(b);
    let king = first_king_from(s, 0);
    if king is Some {
        assert(moves_spec(b).len() == 1);
    } else {
        let bm = board_moves_spec(b);
        if bm.0 is Some {
            assert(moves_spec(b).len() == 1);
        } else {
            let bs = bs_outer(b, s, 0, Seq::empty(), bm.1.len() == 0);
            if bs.0 is Some {
                assert(moves_spec(b).len() == 1);
            } else {
                let sm = stack_moves_spec(b);
                let urgent = if bm.1.len() == 0 {
                    find_urgent(b, sm, 0)
                } else {
                    None
                };
                if urgent is Some {
                    assert(moves_spec(b).len() == 1);
                } else {
                    (bm.1 + bs.1 + sm).lemma_sort_by_ensures(leq);
                }
            }
        }
    }
}

/// Draw costs never fall along a canonical move list.
pub proof fn lemma_moves_spec_costs_sorted(b: Board, p: int, q: int)
    requires
        0 <= p <= q < moves_spec(b).len(),
    ensures
        moves_spec(b)[p].1 <= moves_spec(b)[q].1,
{
    lemma_moves_spec_sorted(b);
    if p < q {
        assert(move_le_fn()(moves_spec(b)[p], moves_spec(b)[q]));
    }
}

/// The step relation pins whether the stepped state is finished: two
/// outcomes of the same move from the same state agree on completion.
pub proof fn lemma_steps_to_same_completed(pre: Board, m: Move, post1: Board, post2: Board)
    requires
        steps_to(pre, m, post1),
        steps_to(pre, m, post2),
    ensures
        post1.completed == post2.completed,
{
}

/// One removed cell of a well-formed board is removed on any well-formed
/// board with the same exposed cells: walking the cone from the bottom row
/// up, a cell that were present with its cone gone would be exposed.
proof fn lemma_removed_elem(a: Board, b: Board, c: int)
    requires
        a.inv(),
        b.inv(),
        a.leaf_idxs@ == b.leaf_idxs@,
        a.removed@.contains(c),
    ensures
        b.removed@.contains(c),
    decreases 6 - crate::blocks::row_of(c),
{
    assert(0 <= c < 28);
    assert forall|e: int| covers(c, e) implies b.removed@.contains(e) by {
        assert(a.removed@.contains(e));
        lemma_removed_elem(a, b, e);
    }
    if !b.removed@.contains(c) {
        assert(crate::board::cone_removed(c, b.removed@));
        assert(b.is_leaf(c));
        assert(a.is_leaf(c));
        assert(!a.removed@.contains(c));
        assert(false);
    }
}

/// The parts of a board that play can observe: the triangle cards, the pile
/// and its cursor, the counts, and the exposed cells.
pub open spec fn same_visible(a: Board, b: Board) -> bool {
    &&& a.board_cards@ == b.board_cards@
    &&& a.card_counts@ == b.card_counts@
    &&& a.stack@ == b.stack@
    &&& a.stack_idx == b.stack_idx
    &&& a.stack_counts@ == b.stack_counts@
    &&& a.leaf_idxs@ == b.leaf_idxs@
}

/// The move generator is deterministic over the visible state alone: two
/// well-formed boards agreeing on the triangle, pile, cursor, counts and
/// exposed cells — however independently each was built up — share their
/// whole removal history and get exactly the same move list.
pub proof fn lemma_get_moves_visible_deterministic(a: Board, b: Board)
    requires
        a.inv(),
        b.inv(),
        same_visible(a, b),
    ensures
        a.removed@ == b.removed@,
        moves_spec(a) == moves_spec(b),
{
    assert forall|c: int| a.removed@.contains(c) implies b.removed@.contains(c) by {
        lemma_removed_elem(a, b, c);
    }
    assert forall|c: int| b.removed@.contains(c) implies a.removed@.contains(c) by {
        lemma_removed_elem(b, a, c);
    }
    assert(a.removed@ =~= b.removed@);
    lemma_get_moves_deterministic(a, b);
}

/// What holds of every card the triangle scan has claimed so far: it was
/// claimed in a pair the scan did not cut short, so neither its own rank nor
/// the rank it matches is down to its last card.
pub open spec fn claimed_ok(b: Board, matched: Set<RawCard>) -> bool {
    forall|c: RawCard| #[trigger] matched.contains(c) ==> !spec_is_solo(b, spec_rank(c.0) as int)
        && !spec_is_solo(b, spec_match_rank(spec_rank(c.0)) as int)
}

/// One inner scan that neither fires nor starts from claimed-solo cards keeps
/// that shape: it only ever claims pairs with no last-of-rank member.
proof fn lemma_bm_inner_claimed_ok(
    b: Board,
    s: Seq<RawCard>,
    l: RawCard,
    j: int,
    matched: Set<RawCard>,
    acc: Seq<Move>,
)
    requires
        claimed_ok(b, matched),
        bm_inner(b, s, l, j, matched, acc).0 is None,
    ensures
        claimed_ok(b, bm_inner(b, s, l, j, matched, acc).2),
    decreases s.len() - j,
{
    if 0 <= j < s.len() {
        let pm = s[j];
        if spec_cards_match(l, pm) && !matched.contains(pm) {
            let m2 = matched.insert(pm).insert(l);
            assert(!(spec_is_solo(b, spec_rank(l.0) as int) || spec_is_solo(
                b,
                spec_rank(pm.0) as int,
            )));
            assert(spec_match_rank(spec_rank(l.0)) == spec_rank(pm.0));
            assert(spec_match_rank(spec_rank(pm.0)) == spec_rank(l.0));
            assert(claimed_ok(b, m2));
            lemma_bm_inner_claimed_ok(
                b,
                s,
                l,
                j + 1,
                m2,
                acc.push((MatchType::Board, 0i32, (l, Some(pm)))),
            );
        } else {
            lemma_bm_inner_claimed_ok(b, s, l, j + 1, matched, acc);
        }
    }
}

/// Scanning a last-of-its-rank leaf that still has an unscanned match cannot
/// come back empty: an unclaimed match fires the cut, and a claimed one would
/// have been claimed in a pair whose other rank — this leaf's rank — was not
/// down to its last card.
proof fn lemma_bm_inner_solo_finds(
    b: Board,
    s: Seq<RawCard>,
    l: RawCard,
    j: int,
    matched: Set<RawCard>,
    acc: Seq<Move>,
    jx: int,
)
    requires
        spec_is_solo(b, spec_rank(l.0) as int),
        claimed_ok(b, matched),
        0 <= j <= jx < s.len(),
        spec_cards_match(l, s[jx]),
    ensures
        bm_inner(b, s, l, j, matched, acc).0 is Some,
    decreases s.len() - j,
{
    let pm = s[j];
    if spec_cards_match(l, pm) && !matched.contains(pm) {
        // the pair fires: this leaf's rank is down to its last card
    } else if j == jx {
        // the match is claimed, so its pair's other rank was not solo; but
        // that other rank is this leaf's rank
        assert(matched.contains(s[jx]));
        assert(spec_match_rank(spec_rank(l.0)) == spec_rank(s[jx].0));
        assert(spec_match_rank(spec_rank(s[jx].0)) == spec_rank(l.0));
        assert(!spec_is_solo(b, spec_rank(l.0) as int));
        assert(false);
    } else {
        lemma_bm_inner_solo_finds(b, s, l, j + 1, matched, acc, jx);
    }
}

/// The scan over all leaves cuts the enumeration short whenever some leaf is
/// the last of its rank and another leaf matches it.
proof fn lemma_bm_outer_solo_finds(
    b: Board,
    s: Seq<RawCard>,
    i: int,
    matched: Set<RawCard>,
    acc: Seq<Move>,
    ix: int,
    jx: int,
)
    requires
        claimed_ok(b, matched),
        0 <= i <= ix < s.len(),
        0 <= jx < s.len(),
        spec_cards_match(s[ix], s[jx]),
        spec_is_solo(b, spec_rank(s[ix].0) as int),
    ensures
        bm_outer(b, s, i, matched, acc).0 is Some,
    decreases s.len() - i,
{
    let step = bm_inner(b, s, s[i], 0, matched, acc);
    if step.0 is None {
        if i == ix {
            lemma_bm_inner_solo_finds(b, s, s[ix], 0, matched, acc, jx);
            assert(false);
        } else {
            lemma_bm_inner_claimed_ok(b, s, s[i], 0, matched, acc);
            lemma_bm_outer_solo_finds(b, s, i + 1, step.2, step.1, ix, jx);
        }
    }
}

/// A last-of-its-rank leaf with a matching fellow leaf forces the move list
/// to one free triangle pair with a last-of-rank member — whichever way round
/// the pair lies, and however many other matches exist.
pub proof fn lemma_solo_match_forces_single(b: Board)
    requires
        b.cells_ok(),
        first_king_from(sorted_leaves(b), 0) is None,
        exists|i: int, j: int|
            #![trigger sorted_leaves(b)[i], sorted_leaves(b)[j]]
            0 <= i < sorted_leaves(b).len() && 0 <= j < sorted_leaves(b).len() && spec_cards_match(
                sorted_leaves(b)[i],
                sorted_leaves(b)[j],
            ) && (spec_is_solo(b, spec_rank(sorted_leaves(b)[i].0) as int) || spec_is_solo(
                b,
                spec_rank(sorted_leaves(b)[j].0) as int,
            )),
    ensures
        board_moves_spec(b).0 is Some,
        moves_spec(b) == seq![board_moves_spec(b).0->0],
        ({
            let m = board_moves_spec(b).0->0;
            &&& m.0 is Board
            &&& m.1 == 0
            &&& m.2.1 is Some
            &&& (spec_is_solo(b, spec_rank(m.2.0.0) as int) || spec_is_solo(
                b,
                spec_rank((m.2.1->0).0) as int,
            ))
            &&& spec_cards_match(m.2.0, m.2.1->0)
        }),
{
    let s = sorted_leaves(b);
    if board_moves_spec(b).0 is None {
        let (i, j) = choose|i: int, j: int|
            #![trigger s[i], s[j]]
            0 <= i < s.len() && 0 <= j < s.len() && spec_cards_match(s[i], s[j]) && (spec_is_solo(
                b,
                spec_rank(s[i].0) as int,
            ) || spec_is_solo(b, spec_rank(s[j].0) as int));
        if spec_is_solo(b, spec_rank(s[i].0) as int) {
            lemma_bm_outer_solo_finds(b, s, 0, Set::empty(), Seq::empty(), i, j);
        } else {
            assert(spec_cards_match(s[j], s[i]));
            lemma_bm_outer_solo_finds(b, s, 0, Set::empty(), Seq::empty(), j, i);
        }
        assert(false);
    }
    lemma_solo_pair_forces_single(b);
}

} // verus!
