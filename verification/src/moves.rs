//! Moves and the deterministic order they are listed in.
//!
//! A move is a category, a draw cost, and one card or a matched pair. Move
//! lists are always handed out sorted: first by draw cost, then by category
//! priority, then by the left card, then lone cards before pairs, then by the
//! right card. The order is total, so a sorted move list is unique.

use crate::{MatchType, RawCard};
use core::cmp::Ordering;
use vstd::prelude::*;
use vstd::relations::total_ordering;

verus! {

/// A legal action: its category, how many pile draws it costs, and the card
/// (or matched pair of cards) it removes.
pub type Move = (MatchType, i32, (RawCard, Option<RawCard>));

/// The priority rank of a move category: Board before BoardStack before
/// Stack.
pub open spec fn type_rank(t: MatchType) -> int {
    match t {
        MatchType::Board => 0,
        MatchType::BoardStack => 1,
        MatchType::Stack => 2,
    }
}

/// The sort key of an optional right-hand card: a lone card sorts before any
/// pair, and pairs sort by the right card's value.
pub open spec fn right_key(r: Option<RawCard>) -> int {
    match r {
        Option::None => -1,
        Option::Some(c) => c.0 as int,
    }
}

/// The strict move order: draw cost, then category, then left card, then
/// lone-before-pair, then right card.
pub open spec fn move_lt(a: Move, b: Move) -> bool {
    if a.1 != b.1 {
        a.1 < b.1
    } else if type_rank(a.0) != type_rank(b.0) {
        type_rank(a.0) < type_rank(b.0)
    } else if a.2.0 != b.2.0 {
        a.2.0.0 < b.2.0.0
    } else {
        right_key(a.2.1) < right_key(b.2.1)
    }
}

/// The reflexive closure of the move order.
pub open spec fn move_le(a: Move, b: Move) -> bool {
    move_lt(a, b) || a == b
}

/// Two moves that neither precede nor follow each other are the same move:
/// the sort key identifies a move completely.
pub proof fn lemma_move_order_tight(a: Move, b: Move)
    ensures
        !move_lt(a, b) && !move_lt(b, a) ==> a == b,
        !(move_lt(a, b) && move_lt(b, a)),
{
}

/// The move order, taken reflexively, is a total ordering, so a sorted list
/// of moves is uniquely determined by its contents.
pub proof fn lemma_move_le_total_ordering()
    ensures
        total_ordering(|a: Move, b: Move| move_le(a, b)),
{
    let leq = |a: Move, b: Move| move_le(a, b);
    assert forall|a: Move, b: Move, c: Move| #[trigger] leq(a, b) && #[trigger] leq(b, c) implies leq(
        a,
        c,
    ) by {
        lemma_move_order_tight(a, b);
        lemma_move_order_tight(b, c);
        lemma_move_order_tight(a, c);
    }
    assert forall|a: Move, b: Move| #[trigger] leq(a, b) && #[trigger] leq(b, a) implies a == b by {
        lemma_move_order_tight(a, b);
    }
    assert forall|a: Move, b: Move| true implies #[trigger] leq(a, b) || #[trigger] leq(b, a) by {
        lemma_move_order_tight(a, b);
    }
}

/// Compare two moves in the order move lists are handed out in: draw cost
/// first, then category priority, then the left card, then a lone card ahead
/// of a pair, then the right card.
pub fn move_sort(a: &Move, b: &Move) -> (r: Ordering)
    ensures
        r == Ordering::Less <==> move_lt(*a, *b),
        r == Ordering::Equal <==> *a == *b,
        r == Ordering::Greater <==> move_lt(*b, *a),
{
    proof {
        lemma_move_order_tight(*a, *b);
    }
    // 1. Number of draws first
    if a.1 != b.1 {
        return if a.1 < b.1 {
            Ordering::Less
        } else {
            Ordering::Greater
        };
    }
    // 2. Then move type
    let a_rank = match_type_rank(a.0);
    let b_rank = match_type_rank(b.0);
    if a_rank != b_rank {
        return if a_rank < b_rank {
            Ordering::Less
        } else {
            Ordering::Greater
        };
    }
    // 3. The left card, if not the same
    if a.2.0.0 != b.2.0.0 {
        return if a.2.0.0 < b.2.0.0 {
            Ordering::Less
        } else {
            Ordering::Greater
        };
    }
    // 4. Less/greater depending on the right card being absent
    // 5. The right card if both are present
    match (a.2.1, b.2.1) {
        (Option::None, Option::None) => Ordering::Equal,
        (Option::None, Option::Some(_)) => Ordering::Less,
        (Option::Some(_), Option::None) => Ordering::Greater,
        (Option::Some(x), Option::Some(y)) => {
            if x.0 < y.0 {
                Ordering::Less
            } else if x.0 > y.0 {
                Ordering::Greater
            } else {
                Ordering::Equal
            }
        },
    }
}

/// The priority rank of a move category as a number.
pub fn match_type_rank(t: MatchType) -> (r: u8)
    ensures
        r as int == type_rank(t),
{
    match t {
        MatchType::Board => 0,
        MatchType::BoardStack => 1,
        MatchType::Stack => 2,
    }
}

/// The move order as a single spec value, for use with sorting lemmas.
pub open spec fn move_le_fn() -> spec_fn(Move, Move) -> bool {
    |a: Move, b: Move| move_le(a, b)
}

/// Sort a list of moves into the canonical order. The result is the unique
/// sorted arrangement of the input's elements.
pub fn sort_moves(moves: Vec<Move>) -> (r: Vec<Move>)
    ensures
        r@ == moves@.sort_by(move_le_fn()),
        r@.to_multiset() == moves@.to_multiset(),
        vstd::relations::sorted_by(r@, move_le_fn()),
{
    let ghost leq = move_le_fn();
    let mut out: Vec<Move> = Vec::new();
    let mut i: usize = 0;
    proof {
        lemma_move_le_total_ordering();
        moves@.take(0).lemma_sort_by_ensures(leq);
        assert(moves@.take(0).sort_by(leq).len() == 0) by {
            vstd::seq_lib::to_multiset_len(moves@.take(0).sort_by(leq));
            vstd::seq_lib::to_multiset_len(moves@.take(0));
            assert(moves@.take(0).len() == 0);
        }
        assert(out@ =~= moves@.take(0).sort_by(leq));
    }
    while i < moves.len()
        invariant
            i <= moves@.len(),
            out@ == moves@.take(i as int).sort_by(move_le_fn()),
            vstd::relations::sorted_by(out@, move_le_fn()),
        decreases moves@.len() - i,
    {
        let m = moves[i];
        let j = find_insert_pos(&out, &m);
        let ghost prev_seq = out@;
        out.insert(j, m);
        proof {
            assert(out@.remove(j as int) =~= prev_seq);
            lemma_insert_sorted(out@, moves@, i + 1, j as int, m);
        }
        i += 1;
    }
    proof {
        assert(moves@.take(moves@.len() as int) =~= moves@);
        moves@.lemma_sort_by_ensures(leq);
    }
    out
}

/// The position where a move belongs in a sorted move list: everything before
/// it comes no later in the order, everything after comes strictly later.
fn find_insert_pos(v: &Vec<Move>, m: &Move) -> (j: usize)
    requires
        vstd::relations::sorted_by(v@, move_le_fn()),
    ensures
        j <= v@.len(),
        forall|k: int| 0 <= k < j ==> move_le(v@[k], *m),
        forall|k: int| j <= k < v@.len() ==> move_lt(*m, v@[k]),
{
    let mut j: usize = 0;
    while j < v.len()
        invariant
            j <= v@.len(),
            vstd::relations::sorted_by(v@, move_le_fn()),
            forall|k: int| 0 <= k < j ==> move_le(v@[k], *m),
        decreases v@.len() - j,
    {
        let after = match move_sort(m, &v[j]) {
            Ordering::Less => true,
            _ => false,
        };
        if after {
            proof {
                let leq = move_le_fn();
                assert forall|k: int| j <= k < v@.len() implies move_lt(*m, v@[k]) by {
                    assert(leq(v@[j as int], v@[k]));
                    lemma_move_order_tight(*m, v@[j as int]);
                    lemma_move_order_tight(v@[j as int], v@[k]);
                    lemma_move_order_tight(*m, v@[k]);
                }
            }
            return j;
        }
        proof {
            lemma_move_order_tight(v@[j as int], *m);
        }
        j += 1;
    }
    j
}

/// Inserting a move at the boundary between the part that precedes it and the
/// part that follows it keeps the list equal to the canonical sorted
/// arrangement of the elements taken so far.
proof fn lemma_insert_sorted(cur: Seq<Move>, all: Seq<Move>, i: int, j: int, m: Move)
    requires
        0 < i <= all.len(),
        m == all[i - 1],
        0 <= j < cur.len(),
        cur[j as int] == m,
        cur.remove(j) == all.take(i - 1).sort_by(move_le_fn()),
        vstd::relations::sorted_by(cur.remove(j), move_le_fn()),
        forall|k: int| 0 <= k < j ==> move_le(cur.remove(j)[k], m),
        forall|k: int| j <= k < cur.remove(j).len() ==> move_lt(m, cur.remove(j)[k]),
    ensures
        cur == all.take(i).sort_by(move_le_fn()),
        vstd::relations::sorted_by(cur, move_le_fn()),
{
    broadcast use vstd::seq_lib::group_to_multiset_ensures;

    let leq = move_le_fn();
    lemma_move_le_total_ordering();
    let prev = cur.remove(j);
    // cur is sorted: elements before j come no later than m, elements after
    // come strictly later
    assert forall|p: int, q: int| 0 <= p < q < cur.len() implies leq(cur[p], cur[q]) by {
        lemma_move_order_tight(cur[p], cur[q]);
        if q < j {
            assert(cur[p] == prev[p] && cur[q] == prev[q]);
        } else if q == j {
            assert(cur[p] == prev[p]);
        } else if p == j {
            assert(cur[q] == prev[q - 1]);
            assert(move_lt(m, prev[q - 1]));
        } else if p < j {
            assert(cur[p] == prev[p] && cur[q] == prev[q - 1]);
            if q - 1 >= j {
                lemma_move_order_tight(prev[p], m);
                lemma_move_order_tight(m, prev[q - 1]);
            }
        } else {
            assert(cur[p] == prev[p - 1] && cur[q] == prev[q - 1]);
        }
    }
    assert(vstd::relations::sorted_by(cur, leq));
    // cur holds the same moves as all.take(i)
    assert(prev.insert(j, m) =~= cur);
    assert(cur.to_multiset() == prev.to_multiset().insert(m));
    all.take(i - 1).lemma_sort_by_ensures(leq);
    assert(all.take(i) =~= all.take(i - 1).push(m));
    assert(all.take(i).to_multiset() == all.take(i - 1).to_multiset().insert(m));
    assert(cur.to_multiset() == all.take(i).to_multiset());
    // and a sorted sequence with those moves is the canonical one
    all.take(i).lemma_sort_by_ensures(leq);
    vstd::seq_lib::lemma_sorted_unique(cur, all.take(i).sort_by(leq), leq);
    assert(cur =~= all.take(i).sort_by(leq));
}

} // verus!
