//! Deck validation: a playable deal holds exactly four cards of every rank
//! across the triangle and the pile together.

use crate::board::count_rank;
use crate::RawCard;
use vstd::prelude::*;

verus! {

/// A deck whose rank counts are off: the lowest offending rank and how many
/// cards of it the deal holds.
#[derive(Debug, PartialEq, Eq, Clone, Copy)]
pub struct DeckError {
    /// The lowest rank (1 is an Ace, 13 a King) that does not appear exactly
    /// four times.
    pub rank: u8,
    /// How many cards of that rank the deal holds.
    pub count: u8,
}

/// Check that the deal holds exactly four cards of every rank across the
/// triangle and the pile together. A failure names the lowest offending rank
/// and its count; the deal passes exactly when no rank is off.
#[verifier::loop_isolation(false)]
pub fn validate_board(board_cards: &Vec<RawCard>, stack_cards: &Vec<RawCard>) -> (r: Result<
    (),
    DeckError,
>)
    requires
        board_cards@.len() <= 28,
        stack_cards@.len() <= 24,
    ensures
        r is Ok <==> forall|k: int|
            0 <= k < 13 ==> count_rank(board_cards@, k) + count_rank(stack_cards@, k) == 4,
        r is Err ==> {
            let k = r->Err_0.rank - 1;
            &&& 1 <= r->Err_0.rank <= 13
            &&& count_rank(board_cards@, k as int) + count_rank(stack_cards@, k as int)
                == r->Err_0.count as int
            &&& r->Err_0.count != 4
            &&& forall|k2: int|
                0 <= k2 < k ==> count_rank(board_cards@, k2) + count_rank(stack_cards@, k2) == 4
        },
{
    let mut card_counts: Vec<u8> = Vec::new();
    let mut z: usize = 0;
    while z < 13
        invariant
            z <= 13,
            card_counts@.len() == z,
            forall|k: int| 0 <= k < z ==> card_counts@[k] == 0,
        decreases 13 - z,
    {
        card_counts.push(0);
        z += 1;
    }
    let mut i: usize = 0;
    while i < board_cards.len()
        invariant
            i <= board_cards@.len(),
            card_counts@.len() == 13,
            forall|k: int|
                0 <= k < 13 ==> #[trigger] card_counts@[k] as int == count_rank(
                    board_cards@.take(i as int),
                    k,
                ),
        decreases board_cards@.len() - i,
    {
        let idx = (board_cards[i].0 % 13) as usize;
        proof {
            crate::board::lemma_count_rank_le_len(board_cards@.take(i as int), idx as int);
        }
        let c = card_counts[idx];
        card_counts.set(idx, c + 1);
        proof {
            assert forall|k: int| 0 <= k < 13 implies #[trigger] card_counts@[k] as int
                == count_rank(board_cards@.take(i as int + 1), k) by {
                assert(board_cards@.take(i as int + 1).drop_last() =~= board_cards@.take(i as int));
                assert(board_cards@.take(i as int + 1).last() == board_cards@[i as int]);
            }
        }
        i += 1;
    }
    proof {
        assert(board_cards@.take(board_cards@.len() as int) =~= board_cards@);
    }
    let mut j: usize = 0;
    while j < stack_cards.len()
        invariant
            j <= stack_cards@.len(),
            card_counts@.len() == 13,
            forall|k: int|
                0 <= k < 13 ==> #[trigger] card_counts@[k] as int == count_rank(board_cards@, k)
                    + count_rank(stack_cards@.take(j as int), k),
        decreases stack_cards@.len() - j,
    {
        let idx = (stack_cards[j].0 % 13) as usize;
        proof {
            crate::board::lemma_count_rank_le_len(board_cards@, idx as int);
            crate::board::lemma_count_rank_le_len(stack_cards@.take(j as int), idx as int);
        }
        let c = card_counts[idx];
        card_counts.set(idx, c + 1);
        proof {
            assert forall|k: int| 0 <= k < 13 implies #[trigger] card_counts@[k] as int
                == count_rank(board_cards@, k) + count_rank(stack_cards@.take(j as int + 1), k) by {
                assert(stack_cards@.take(j as int + 1).drop_last() =~= stack_cards@.take(j as int));
                assert(stack_cards@.take(j as int + 1).last() == stack_cards@[j as int]);
            }
        }
        j += 1;
    }
    proof {
        assert(stack_cards@.take(stack_cards@.len() as int) =~= stack_cards@);
    }
    let mut k: usize = 0;
    while k < 13
        invariant
            k <= 13,
            card_counts@.len() == 13,
            forall|k2: int|
                0 <= k2 < 13 ==> #[trigger] card_counts@[k2] as int == count_rank(board_cards@, k2)
                    + count_rank(stack_cards@, k2),
            forall|k2: int|
                0 <= k2 < k ==> count_rank(board_cards@, k2) + count_rank(stack_cards@, k2) == 4,
        decreases 13 - k,
    {
        if card_counts[k] != 4 {
            return Err(DeckError { rank: (k + 1) as u8, count: card_counts[k] });
        }
        k += 1;
    }
    Ok(())
}

} // verus!
