//! The search for a winning move sequence.
//!
//! States are kept in buckets indexed by their move count. Each round drains
//! the current bucket: a finished state yields its recorded path; otherwise
//! the state's moves are tried in their listed order, cheap moves always and
//! costlier ones up to a width cap, and each undiscarded branch is placed in
//! the bucket matching its new move count. States already met (by their
//! canonical signature) are pruned, as are branches that would pass the move
//! budget. The search is exhaustive only up to those prunings: an empty
//! result means no solution was found within the budget, not that none
//! exists.

use crate::board::Board;
use crate::gen::{moves_spec, reaches, steps_to};
use std::collections::HashSet;
use vstd::prelude::*;

verus! {

/// One queued branch: a board state and the 1-based indices of the moves
/// chosen so far, each an index into the move list of the state it was
/// played from.
pub type Branch = (Board, Vec<usize>);

/// Whether a queued branch is sound: its state keeps the board rules, its
/// move count is inside the budget, and its path entries are all 1-based.
pub open spec fn branch_ok(item: Branch, max_depth: int) -> bool {
    &&& item.0.cells_ok()
    &&& !item.0.completed ==> item.0.inv()
    &&& 0 <= item.0.moves < max_depth
    &&& forall|k: int| 0 <= k < item.1@.len() ==> item.1@[k] >= 1
}

/// Whether a queued branch records where it came from: replaying its path
/// from the seed state, one listed move at a time, lands exactly on its
/// board.
pub open spec fn branch_reaches(init: Board, item: Branch) -> bool {
    exists|chain: Seq<Board>| reaches(init, chain, item.1@) && chain.last() == item.0
}

/// A fresh branch holding the seed state and an empty path trivially records
/// where it came from.
proof fn lemma_seed_reaches(init: Board, item: Branch)
    requires
        item.0 == init,
        item.1@.len() == 0,
    ensures
        branch_reaches(init, item),
{
    let chain0: Seq<Board> = seq![item.0];
    assert(chain0.last() == item.0);
    assert(reaches(init, chain0, item.1@));
}

/// The success obligation on the seed state, up to the first `n` listed
/// moves: none of them that the search tries — every move costing no draw,
/// and others up to the width cap — steps, within the budget, to a finished
/// state. The search may only come back empty when this holds of the whole
/// list: success on a tried first move is owed.
pub open spec fn seed_tried_upto(b0: Board, cap: int, max_depth: int, n: int) -> bool {
    forall|j: int, post: Board|
        0 <= j < n && j < moves_spec(b0).len() && ((moves_spec(b0)[j].1 as int) <= 0 || j <= cap)
            && (moves_spec(b0)[j].1 as int) + b0.moves + 1 < max_depth && #[trigger] steps_to(
            b0,
            moves_spec(b0)[j],
            post,
        ) ==> !post.completed
}

/// The success obligation over the seed's whole move list.
pub open spec fn seed_tried(b0: Board, cap: int, max_depth: int) -> bool {
    seed_tried_upto(b0, cap, max_depth, moves_spec(b0).len() as int)
}

/// Once a listed move is pruned — it costs draws and sits past the width cap,
/// or it would pass the budget — so does every later one: the list is sorted
/// by cost, so the obligation over the scanned part extends to the whole
/// list.
proof fn lemma_seed_suffix_pruned(b0: Board, cap: int, max_depth: int, n: int)
    requires
        seed_tried_upto(b0, cap, max_depth, n),
        0 <= n < moves_spec(b0).len(),
        ((moves_spec(b0)[n].1 as int) > 0 && n > cap) || (moves_spec(b0)[n].1 as int) + b0.moves
            + 1 >= max_depth,
    ensures
        seed_tried(b0, cap, max_depth),
{
    assert forall|j: int, post: Board|
        0 <= j < moves_spec(b0).len() && ((moves_spec(b0)[j].1 as int) <= 0 || j <= cap) && (
        moves_spec(b0)[j].1 as int) + b0.moves + 1 < max_depth && #[trigger] steps_to(
            b0,
            moves_spec(b0)[j],
            post,
        ) implies !post.completed by {
        if j >= n {
            crate::gen::lemma_moves_spec_costs_sorted(b0, n, j);
        }
    }
}

/// A tried move whose stepped state is unfinished extends the obligation one
/// move further: any state the same move steps to is equally unfinished.
proof fn lemma_seed_step_checked(b0: Board, cap: int, max_depth: int, n: int, child: Board)
    requires
        seed_tried_upto(b0, cap, max_depth, n),
        0 <= n < moves_spec(b0).len(),
        steps_to(b0, moves_spec(b0)[n], child),
        !child.completed,
    ensures
        seed_tried_upto(b0, cap, max_depth, n + 1),
{
    assert forall|j: int, post: Board|
        0 <= j < n + 1 && j < moves_spec(b0).len() && ((moves_spec(b0)[j].1 as int) <= 0 || j
            <= cap) && (moves_spec(b0)[j].1 as int) + b0.moves + 1 < max_depth
            && #[trigger] steps_to(b0, moves_spec(b0)[j], post) implies !post.completed by {
        if j == n {
            crate::gen::lemma_steps_to_same_completed(b0, moves_spec(b0)[n], post, child);
        }
    }
}

/// Search for a move sequence that finishes the deal, trying at most
/// `max_depth` moves (draws included). Per visited state, all free moves are
/// tried and at most `top_moves` others (`first_top_moves` while the state is
/// at most `first_games` moves deep, to widen the opening). Gives the 1-based
/// indices of the chosen moves, or an empty path when no completed state was
/// found within the budget; a deal that is already finished gives an empty
/// path. A non-empty result is a real solution: replaying it from the seed,
/// picking at each step the listed move its entry names, steps through live,
/// well-formed states and ends on a finished one inside the budget. And some
/// success is owed: the search only comes back empty when none of the seed's
/// tried moves — all its free ones and the capped prefix of the others —
/// steps straight to a finished state inside the budget.
#[verifier::rlimit(100)]
#[verifier::spinoff_prover]
pub fn simulate_games(
    board: Board,
    max_depth: usize,
    top_moves: usize,
    first_top_moves: usize,
    first_games: usize,
) -> (r: Vec<usize>)
    requires
        board.inv(),
        board.moves == 0,
        1 <= max_depth <= 0x3fffffff,
    ensures
        forall|k: int| 0 <= k < r@.len() ==> r@[k] >= 1,
        board.completed ==> r@.len() == 0,
        r@.len() > 0 ==> exists|chain: Seq<Board>|
            reaches(board, chain, r@) && chain.last().completed && chain.last().moves < max_depth,
        !board.completed && r@.len() == 0 ==> seed_tried(
            board,
            first_top_moves as int,
            max_depth as int,
        ),
{
    let ghost init_completed = board.completed;
    let mut seen_states: HashSet<String> = HashSet::new();
    // one queue per move count
    let mut queues: Vec<Vec<Branch>> = Vec::new();
    let mut qi: usize = 0;
    while qi < max_depth
        invariant
            qi <= max_depth,
            queues@.len() == qi,
            forall|q: int| 0 <= q < qi ==> queues@[q]@.len() == 0,
        decreases max_depth - qi,
    {
        queues.push(Vec::new());
        qi += 1;
    }
    // the initial board sits at move count zero with an empty path
    let mut first: Vec<Branch> = Vec::new();
    first.push((board, Vec::new()));
    proof {
        lemma_seed_reaches(first@[0].0, first@[0]);
    }
    let ghost init = first@[0].0;
    let ghost qpre = queues@;
    let _ = queues.remove(0);
    queues.insert(0, first);
    proof {
        qpre.remove_ensures(0);
        qpre.remove(0).insert_ensures(0, first);
        assert(queues@.len() == max_depth);
        assert forall|q: int, k: int|
            0 <= q < max_depth && 0 <= k < queues@[q]@.len() implies branch_ok(
            #[trigger] queues@[q]@[k],
            max_depth as int,
        ) && branch_reaches(init, queues@[q]@[k]) by {
            if q == 0 {
                assert(queues@[0] == first);
                assert(k == 0);
                assert(queues@[0]@[0] == (board, first@[0].1));
            } else {
                assert(queues@[q] == qpre.remove(0)[q - 1]);
                assert(qpre.remove(0)[q - 1] == qpre[q]);
                assert(qpre[q]@.len() == 0);
            }
        }
        if init_completed {
            assert forall|q: int, k: int|
                0 <= q < max_depth && 0 <= k < queues@[q]@.len() implies (
            #[trigger] queues@[q]@[k]).0.completed && queues@[q]@[k].1@.len() == 0 by {
                if q == 0 {
                    assert(queues@[0]@[0] == (board, first@[0].1));
                } else {
                    assert(queues@[q] == qpre.remove(0)[q - 1]);
                    assert(qpre.remove(0)[q - 1] == qpre[q]);
                    assert(qpre[q]@.len() == 0);
                }
            }
        }
    }
    let mut queue_num: usize = 0;
    while queue_num < max_depth
        invariant
            1 <= max_depth <= 0x3fffffff,
            queues@.len() == max_depth,
            init == board,
            board.moves == 0,
            forall|q: int, k: int|
                0 <= q < max_depth && 0 <= k < queues@[q]@.len() ==> branch_ok(
                    #[trigger] queues@[q]@[k],
                    max_depth as int,
                ),
            forall|q: int, k: int|
                0 <= q < max_depth && 0 <= k < queues@[q]@.len() ==> branch_reaches(
                    init,
                    #[trigger] queues@[q]@[k],
                ),
            init_completed ==> forall|q: int, k: int|
                0 <= q < max_depth && 0 <= k < queues@[q]@.len() ==> (#[trigger] queues@[q]@[k]).0.completed
                    && queues@[q]@[k].1@.len() == 0,
            queue_num == 0 ==> queues@[0int]@.len() == 1 && queues@[0int]@[0int].0 == board
                && queues@[0int]@[0int].1@.len() == 0,
            !init_completed && queue_num >= 1 ==> seed_tried(
                board,
                first_top_moves as int,
                max_depth as int,
            ),
        decreases max_depth - queue_num,
    {
        let ghost qbefore = queues@;
        let bucket = queues.remove(queue_num);
        queues.insert(queue_num, Vec::new());
        proof {
            assert(bucket@ == qbefore[queue_num as int]@);
            assert(queues@.len() == max_depth);
        }
        let mut bi: usize = 0;
        while bi < bucket.len()
            invariant
                1 <= max_depth <= 0x3fffffff,
                queue_num < max_depth,
                queues@.len() == max_depth,
                init == board,
                board.moves == 0,
                bi <= bucket@.len(),
                forall|k: int|
                    0 <= k < bucket@.len() ==> branch_ok(#[trigger] bucket@[k], max_depth as int),
                forall|k: int|
                    0 <= k < bucket@.len() ==> branch_reaches(init, #[trigger] bucket@[k]),
                forall|q: int, k: int|
                    0 <= q < max_depth && 0 <= k < queues@[q]@.len() ==> branch_ok(
                        #[trigger] queues@[q]@[k],
                        max_depth as int,
                    ),
                forall|q: int, k: int|
                    0 <= q < max_depth && 0 <= k < queues@[q]@.len() ==> branch_reaches(
                        init,
                        #[trigger] queues@[q]@[k],
                    ),
                init_completed ==> forall|k: int|
                    0 <= k < bucket@.len() ==> (#[trigger] bucket@[k]).0.completed
                        && bucket@[k].1@.len() == 0,
                init_completed ==> forall|q: int, k: int|
                    0 <= q < max_depth && 0 <= k < queues@[q]@.len() ==> (#[trigger] queues@[q]@[k]).0.completed
                        && queues@[q]@[k].1@.len() == 0,
                queue_num == 0 ==> bucket@.len() == 1 && bucket@[0int].0 == board
                    && bucket@[0int].1@.len() == 0,
                !init_completed && (queue_num >= 1 || bi >= 1) ==> seed_tried(
                    board,
                    first_top_moves as int,
                    max_depth as int,
                ),
            decreases bucket@.len() - bi,
        {
            let cur: &Branch = &bucket[bi];
            if cur.0.completed {
                // this branch finished the deal: its path is the answer
                let r = crate::board::copy_cells(&cur.1);
                proof {
                    if r@.len() > 0 {
                        let chain = choose|chain: Seq<Board>|
                            reaches(init, chain, bucket@[bi as int].1@) && chain.last()
                                == bucket@[bi as int].0;
                        assert(reaches(board, chain, r@) && chain.last().completed
                            && chain.last().moves < max_depth);
                    }
                }
                return r;
            }
            let moves = cur.0.get_moves();
            if moves.len() == 0 {
                // dead end; an empty list owes no success either
                proof {
                    if queue_num == 0 && !init_completed {
                        assert(moves_spec(board).len() == 0);
                        assert(seed_tried(board, first_top_moves as int, max_depth as int));
                    }
                }
                bi += 1;
                continue ;
            }
            let max_moves = if cur.0.moves as usize <= first_games {
                first_top_moves
            } else {
                top_moves
            };
            let mut mp: usize = 0;
            let mut stop = false;
            while mp < moves.len() && !stop
                invariant
                    1 <= max_depth <= 0x3fffffff,
                    queue_num < max_depth,
                    queues@.len() == max_depth,
                    init == board,
                    bi < bucket@.len(),
                    mp <= moves@.len(),
                    queue_num == 0 ==> bucket@[bi as int].0 == board && max_moves
                        == first_top_moves && board.moves == 0,
                    !init_completed && queue_num >= 1 ==> seed_tried(
                        board,
                        first_top_moves as int,
                        max_depth as int,
                    ),
                    !init_completed && queue_num == 0 ==> seed_tried_upto(
                        board,
                        first_top_moves as int,
                        max_depth as int,
                        mp as int,
                    ),
                    stop && !init_completed && queue_num == 0 ==> seed_tried(
                        board,
                        first_top_moves as int,
                        max_depth as int,
                    ),
                    !bucket@[bi as int].0.completed,
                    moves@ == moves_spec(bucket@[bi as int].0),
                    forall|k: int|
                        0 <= k < moves@.len() ==> crate::gen::move_valid(
                            bucket@[bi as int].0,
                            #[trigger] moves@[k],
                        ),
                    forall|k: int|
                        0 <= k < bucket@.len() ==> branch_ok(
                            #[trigger] bucket@[k],
                            max_depth as int,
                        ),
                    forall|k: int|
                        0 <= k < bucket@.len() ==> branch_reaches(init, #[trigger] bucket@[k]),
                    forall|q: int, k: int|
                        0 <= q < max_depth && 0 <= k < queues@[q]@.len() ==> branch_ok(
                            #[trigger] queues@[q]@[k],
                            max_depth as int,
                        ),
                    forall|q: int, k: int|
                        0 <= q < max_depth && 0 <= k < queues@[q]@.len() ==> branch_reaches(
                            init,
                            #[trigger] queues@[q]@[k],
                        ),
                    init_completed ==> forall|k: int|
                        0 <= k < bucket@.len() ==> (#[trigger] bucket@[k]).0.completed
                            && bucket@[k].1@.len() == 0,
                    init_completed ==> forall|q: int, k: int|
                        0 <= q < max_depth && 0 <= k < queues@[q]@.len() ==> (
                        #[trigger] queues@[q]@[k]).0.completed && queues@[q]@[k].1@.len() == 0,
                decreases moves@.len() - mp + (if stop {
                    0int
                } else {
                    1int
                }),
            {
                let m = moves[mp];
                let (_, draws, _) = m;
                if draws > 0 && mp > max_moves {
                    // free moves are always tried; costly ones only up to the
                    // cap, and later moves cost at least as much
                    proof {
                        if queue_num == 0 && !init_completed {
                            lemma_seed_suffix_pruned(
                                board,
                                first_top_moves as int,
                                max_depth as int,
                                mp as int,
                            );
                        }
                    }
                    stop = true;
                } else if draws + bucket[bi].0.moves + 1 >= max_depth as i32 {
                    // this branch would pass the budget, and so would every
                    // later, costlier one
                    proof {
                        if queue_num == 0 && !init_completed {
                            lemma_seed_suffix_pruned(
                                board,
                                first_top_moves as int,
                                max_depth as int,
                                mp as int,
                            );
                        }
                    }
                    stop = true;
                } else {
                let mut new_board: Board = bucket[bi].0.clone();
                let ghost cl = new_board;
                proof {
                    assert(crate::gen::same_core(bucket@[bi as int].0, new_board));
                    crate::gen::lemma_inv_same(bucket@[bi as int].0, new_board);
                    assert(crate::gen::move_valid(bucket@[bi as int].0, m));
                    crate::gen::lemma_move_valid_same(bucket@[bi as int].0, new_board, m);
                }
                new_board.play_move(m);
                proof {
                    crate::gen::lemma_steps_to_pre_same(cl, bucket@[bi as int].0, m, new_board);
                }
                let mut path = crate::board::copy_cells(&bucket[bi].1);
                path.push(mp + 1);
                let ghost parent = bucket@[bi as int];
                let ghost child: Branch = (new_board, path);
                proof {
                        let pchain = choose|chain: Seq<Board>|
                            reaches(init, chain, parent.1@) && chain.last() == parent.0;
                        let chain2 = pchain.push(new_board);
                        assert(chain2.last() == new_board);
                        assert forall|i: int| 0 <= i < child.1@.len() implies {
                            &&& !(#[trigger] chain2[i]).completed
                            &&& chain2[i].inv()
                            &&& 1 <= child.1@[i] <= moves_spec(chain2[i]).len()
                            &&& steps_to(
                                chain2[i],
                                moves_spec(chain2[i])[child.1@[i] - 1],
                                chain2[i + 1],
                            )
                        } by {
                            if i < parent.1@.len() {
                                assert(chain2[i] == pchain[i]);
                                assert(chain2[i + 1] == pchain[i + 1]);
                                assert(child.1@[i] == parent.1@[i]);
                            } else {
                                assert(chain2[i] == pchain[parent.1@.len() as int]);
                                assert(pchain[parent.1@.len() as int] == pchain.last());
                                assert(chain2[i] == parent.0);
                                assert(child.1@[i] == mp + 1);
                                assert(moves_spec(parent.0)[mp as int] == m);
                            }
                        }
                        assert(reaches(init, chain2, child.1@));
                        assert(branch_reaches(init, child));
                }
                if new_board.completed {
                    // the move just played finishes the deal: answer at once
                    proof {
                        let chain2 = choose|chain2: Seq<Board>|
                            reaches(init, chain2, child.1@) && chain2.last() == child.0;
                        assert(chain2.last().completed && chain2.last().moves < max_depth);
                        assert forall|k: int| 0 <= k < path@.len() implies path@[k] >= 1 by {
                            if k < parent.1@.len() {
                                assert(parent.1@[k] >= 1);
                            }
                        }
                    }
                    return path;
                }
                let board_state = new_board.get_state();
                if !seen_states.contains(&board_state) {
                    seen_states.insert(board_state);
                    let slot = new_board.moves as usize;
                    let ghost q0 = queues@;
                    let mut target = queues.remove(slot);
                    let ghost t0 = target@;
                    target.push((new_board, path));
                    queues.insert(slot, target);
                    proof {
                        if init_completed {
                            assert(bucket@[bi as int].0.completed);
                            assert(false);
                        }
                        q0.remove_ensures(slot as int);
                        q0.remove(slot as int).insert_ensures(slot as int, target);
                        assert(queues@ == q0.remove(slot as int).insert(slot as int, target));
                        assert(queues@.len() == max_depth);
                        assert forall|q: int, k: int|
                            0 <= q < max_depth && 0 <= k < queues@[q]@.len() implies branch_ok(
                            #[trigger] queues@[q]@[k],
                            max_depth as int,
                        ) && branch_reaches(init, queues@[q]@[k]) by {
                            if q == slot as int {
                                assert(queues@[q] == target);
                                if k < t0.len() {
                                    assert(target@[k] == t0[k]);
                                    assert(t0[k] == q0[q]@[k]);
                                    assert(branch_ok(q0[q]@[k], max_depth as int));
                                    assert(branch_reaches(init, q0[q]@[k]));
                                } else {
                                    assert(target@[k] == child);
                                }
                            } else if q < slot as int {
                                assert(queues@[q] == q0[q]);
                                assert(branch_ok(q0[q]@[k], max_depth as int));
                                assert(branch_reaches(init, q0[q]@[k]));
                            } else {
                                assert(queues@[q] == q0.remove(slot as int)[q - 1]);
                                assert(q0.remove(slot as int)[q - 1] == q0[q]);
                                assert(branch_ok(q0[q]@[k], max_depth as int));
                                assert(branch_reaches(init, q0[q]@[k]));
                            }
                        }
                    }
                }
                proof {
                    if queue_num == 0 && !init_completed {
                        lemma_seed_step_checked(
                            board,
                            first_top_moves as int,
                            max_depth as int,
                            mp as int,
                            new_board,
                        );
                    }
                }
                mp += 1;
                }
            }
            proof {
                if queue_num == 0 && !init_completed {
                    if !stop {
                        assert(mp == moves@.len());
                    }
                    assert(seed_tried(board, first_top_moves as int, max_depth as int));
                }
            }
            bi += 1;
        }
        queue_num += 1;
    }
    // no bucket produced a finished state within the budget
    Vec::new()
}

} // verus!
