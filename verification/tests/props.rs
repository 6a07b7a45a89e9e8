use pyrasol::board::Board;
use pyrasol::moves::Move;
use pyrasol::solver::simulate_games;
use pyrasol::utils::{card_from_raw, cards_match, match_card};
use pyrasol::validators::validate_board;
use pyrasol::{Card, MatchType, RawCard};
use pyrasol::blocks::{card_blocked_by, card_blocks, card_directly_blocks};

fn reference_deal() -> (Vec<RawCard>, Vec<RawCard>) {
    let cards = vec![
        RawCard(7),
        RawCard(6),
        RawCard(4),
        RawCard(11),
        RawCard(0),
        RawCard(3),
        RawCard(10),
        RawCard(19),
        RawCard(13),
        RawCard(5),
        RawCard(24),
        RawCard(2),
        RawCard(26),
        RawCard(37),
        RawCard(32),
        RawCard(18),
        RawCard(1),
        RawCard(9),
        RawCard(17),
        RawCard(30),
        RawCard(8),
        RawCard(12),
        RawCard(14),
        RawCard(22),
        RawCard(16),
        RawCard(27),
        RawCard(23),
        RawCard(15),
    ];
    let stack = vec![
        RawCard(31),
        RawCard(20),
        RawCard(36),
        RawCard(44),
        RawCard(33),
        RawCard(25),
        RawCard(38),
        RawCard(46),
        RawCard(35),
        RawCard(50),
        RawCard(28),
        RawCard(29),
        RawCard(40),
        RawCard(49),
        RawCard(39),
        RawCard(45),
        RawCard(48),
        RawCard(21),
        RawCard(34),
        RawCard(42),
        RawCard(41),
        RawCard(51),
        RawCard(47),
        RawCard(43),
    ];
    (cards, stack)
}

fn bottom_row() -> Vec<usize> {
    vec![21, 22, 23, 24, 25, 26, 27]
}

#[test]
fn initial_leaves_are_the_bottom_row() {
    let (cards, stack) = reference_deal();
    let expected: Vec<RawCard> = {
        let mut cs: Vec<RawCard> = cards[21..28].to_vec();
        cs.sort();
        cs
    };
    let board = Board::new(cards, stack, bottom_row(), false);
    assert_eq!(board.leaves(), expected);
    assert_eq!(board.leaf_idxs, bottom_row());
}

#[test]
fn removing_the_apex_completes_the_deal() {
    // a nearly finished deal: only the apex is left on the triangle
    let (cards, stack) = reference_deal();
    let mut board = Board::new(cards.clone(), stack.clone(), vec![21, 22, 23, 24, 25, 26, 27], false);
    // remove everything from the bottom up, two by two, straight through the
    // state API so the leaf bookkeeping stays exact
    for row in (1..7).rev() {
        let start = row * (row + 1) / 2;
        for k in (start..start + row + 1).step_by(2) {
            if k + 1 < start + row + 1 {
                board.remove_cards((cards[k], Some(cards[k + 1])));
            } else {
                board.remove_cards((cards[k], None));
            }
        }
    }
    assert_eq!(board.leaf_idxs, vec![0]);
    assert!(!board.completed);
    board.remove_cards((cards[0], None));
    assert!(board.completed);
}

#[test]
fn clear_all_needs_an_empty_pile_too() {
    let (cards, stack) = reference_deal();
    let mut board = Board::new(cards.clone(), stack, bottom_row(), true);
    for row in (1..7).rev() {
        let start = row * (row + 1) / 2;
        for k in (start..start + row + 1).step_by(2) {
            if k + 1 < start + row + 1 {
                board.remove_cards((cards[k], Some(cards[k + 1])));
            } else {
                board.remove_cards((cards[k], None));
            }
        }
    }
    // the pile still holds cards, so taking the apex does not finish
    board.remove_cards((cards[0], None));
    assert!(!board.completed);
}

#[test]
fn played_cards_are_never_offered_again() {
    let (cards, stack) = reference_deal();
    let mut board = Board::new(cards, stack, bottom_row(), false);
    // walk a few moves; after each, the fresh move list must not mention the
    // cards just removed
    for _ in 0..6 {
        let moves = board.get_moves();
        if moves.is_empty() || board.completed {
            break;
        }
        let m: Move = moves[0];
        board.play_move(m);
        if board.completed {
            break;
        }
        let after = board.get_moves();
        for n in after.iter() {
            assert_ne!(n.2 .0, m.2 .0);
            if let Some(right) = m.2 .1 {
                assert_ne!(n.2 .0, right);
                if let Some(r2) = n.2 .1 {
                    assert_ne!(r2, right);
                }
            }
            if let Some(r2) = n.2 .1 {
                assert_ne!(r2, m.2 .0);
            }
        }
    }
}

#[test]
fn cursor_wraps_by_pile_length_plus_one() {
    let (cards, stack) = reference_deal();
    let pile_len = stack.len() as i32;
    let mut board = Board::new(cards, stack, bottom_row(), false);
    // draw 10: cursor sits at 10
    board.stack_draw(10);
    assert_eq!(board.stack_idx, 10);
    // drawing the whole remaining pile plus one wraps back to the start:
    // a full cycle of pileLength + 1 returns to the origin
    board.stack_draw(pile_len - 10 + 1);
    assert_eq!(board.stack_idx, 0);
    // and the wrap is by exactly pile length + 1
    board.stack_draw(pile_len + 1);
    assert_eq!(board.stack_idx, 0);
}

#[test]
fn reference_deal_first_moves() {
    // the very first call gives exactly one move: the King among the leaves
    let (cards, stack) = reference_deal();
    let mut board = Board::new(cards, stack, bottom_row(), false);
    let moves = board.get_moves();
    assert_eq!(moves.len(), 1);
    assert_eq!(moves[0].0, MatchType::Board);
    assert_eq!(moves[0].1, 0);
    assert_eq!(card_from_raw(moves[0].2 .0 .0), 13);
    assert_eq!(moves[0].2 .1, None);

    // after removing it there are exactly 20 moves: 3 on the board, 12
    // board-to-pile, 5 inside the pile
    let m = moves[0];
    board.play_move(m);
    let moves = board.get_moves();
    assert_eq!(moves.len(), 20);
    assert_eq!(moves.iter().filter(|m| m.0 == MatchType::Board).count(), 3);
    assert_eq!(
        moves.iter().filter(|m| m.0 == MatchType::BoardStack).count(),
        12
    );
    assert_eq!(moves.iter().filter(|m| m.0 == MatchType::Stack).count(), 5);
}

#[test]
fn solver_finds_a_replayable_solution() {
    let (cards, stack) = reference_deal();
    let board = Board::new(cards.clone(), stack.clone(), bottom_row(), false);
    let solution = simulate_games(board, 60, 2, 3, 5);
    assert!(!solution.is_empty());

    // replaying the 1-based move choices against a fresh board finishes it
    let mut board = Board::new(cards, stack, bottom_row(), false);
    for choice in solution.iter() {
        let moves = board.get_moves();
        assert!(*choice >= 1);
        assert!(*choice <= moves.len());
        board.play_move(moves[*choice - 1]);
    }
    assert!(board.completed);
}

#[test]
fn validate_board_counts_every_rank() {
    let (cards, stack) = reference_deal();
    assert!(validate_board(&cards, &stack).is_ok());

    // swapping one card for a fifth copy of another rank must name the
    // missing rank and its count
    let mut bad = cards.clone();
    bad[0] = RawCard(45); // a second copy of the seven replaces a jack
    let e = validate_board(&bad, &stack).unwrap_err();
    assert_eq!(e.rank, 7);
    assert_eq!(e.count, 5);
}

#[test]
fn rank_and_match_formulas() {
    assert_eq!(card_from_raw(0), 1);
    assert_eq!(card_from_raw(13), 1);
    assert_eq!(card_from_raw(26), 1);
    assert_eq!(card_from_raw(39), 1);
    assert_eq!(card_from_raw(12), 13);
    assert_eq!(match_card(Card(1)), Card(12));
    assert_eq!(match_card(Card(6)), Card(7));
    assert_eq!(match_card(Card(13)), Card(13));
}

#[test]
fn cards_match_is_exact() {
    // ace (rank 1) and queen (rank 12) sum to thirteen
    assert!(cards_match(RawCard(0), RawCard(11)));
    // two kings match each other
    assert!(cards_match(RawCard(12), RawCard(25)));
    // a card never matches itself
    assert!(!cards_match(RawCard(12), RawCard(12)));
    // ranks that do not sum to thirteen do not match
    assert!(!cards_match(RawCard(0), RawCard(1)));
}

#[test]
fn blocking_tables_follow_the_triangle() {
    // the apex blocks nothing
    assert_eq!(card_directly_blocks(0), (0, 0));
    // an interior cell holds up the two cells above it
    assert_eq!(card_directly_blocks(4), (1, 2));
    // edge cells hold up one cell
    assert_eq!(card_directly_blocks(3), (1, 1));
    assert_eq!(card_directly_blocks(27), (20, 1));
    // everything above cell 7, row by row upward
    assert_eq!(card_blocks(7), vec![3, 4, 1, 2, 0]);
    // everything that must leave before cell 3 is exposed
    assert_eq!(
        card_blocked_by(3),
        vec![6, 7, 10, 11, 12, 15, 16, 17, 18, 21, 22, 23, 24, 25]
    );
    // bottom-row cells are never blocked
    assert_eq!(card_blocked_by(21), Vec::<usize>::new());
}

#[test]
fn state_signature_lists_the_four_parts() {
    let cards: Vec<RawCard> = (0..28u8).map(RawCard).collect();
    let stack: Vec<RawCard> = vec![RawCard(30), RawCard(41)];
    let board = Board::new(cards, stack, bottom_row(), false);
    assert_eq!(
        board.get_state(),
        "0|21:22:23:24:25:26:27|30:41|0".to_string()
    );

    // the pile component is sorted: the deal order does not show through
    let cards2: Vec<RawCard> = (0..28u8).map(RawCard).collect();
    let stack2: Vec<RawCard> = vec![RawCard(41), RawCard(30)];
    let board2 = Board::new(cards2, stack2, bottom_row(), false);
    assert_eq!(
        board2.get_state(),
        "0|21:22:23:24:25:26:27|30:41|0".to_string()
    );
}

#[test]
fn solo_board_pair_preempts_everything() {
    // two matching leaves where the left one is the last card of its rank:
    // the move list collapses to that single pair, even though another
    // board match (the two fives on cells 24 and 25) is available
    let (cards, stack) = reference_deal();
    let mut board = Board::new(cards, stack, bottom_row(), false);
    // play the forced King first
    let first = board.get_moves();
    board.play_move(first[0]);
    // declare the six (rank of RawCard(31) is 6) down to its last copy
    let moves_before = board.get_moves();
    assert!(moves_before.len() > 1);
    let solo_rank_idx = (board.get_moves()[0].2 .0 .0 % 13) as usize;
    board.card_counts[solo_rank_idx] = 1;
    let moves = board.get_moves();
    assert_eq!(moves.len(), 1);
    assert_eq!(moves[0].0, MatchType::Board);
    assert_eq!(moves[0].1, 0);
    assert!(moves[0].2 .1.is_some());
}

#[test]
fn empty_pile_deal_offers_board_moves_only() {
    // a deal with no pile at all: only triangle moves can exist
    let cards: Vec<RawCard> = (0..28u8).map(RawCard).collect();
    let mut board = Board::new(cards, Vec::new(), bottom_row(), false);

    // the bottom row holds a King (value 25), which is forced first
    let moves = board.get_moves();
    assert_eq!(moves, vec![(MatchType::Board, 0, (RawCard(25), None))]);

    board.play_move(moves[0]);
    let moves = board.get_moves();
    assert_eq!(
        moves,
        vec![
            (MatchType::Board, 0, (RawCard(23), Some(RawCard(27)))),
            (MatchType::Board, 0, (RawCard(24), Some(RawCard(26)))),
        ]
    );
}

#[test]
fn wrapped_pair_is_offered_after_a_flip() {
    // an Ace and a Queen sit flipped past at the bottom of the pile: they can
    // be reached again by drawing to the end, flipping, and drawing back to
    // them, at a cost of one full remainder plus their depth plus two
    let cards: Vec<RawCard> = (12..40u8).map(RawCard).collect();
    let stack: Vec<RawCard> = vec![
        RawCard(0),
        RawCard(11),
        RawCard(1),
        RawCard(2),
        RawCard(42),
        RawCard(43),
        RawCard(44),
        RawCard(45),
    ];
    let mut board = Board::new(cards, stack, vec![27], false);
    board.stack_idx = 4;
    let moves = board.get_stack_moves();
    assert_eq!(
        moves,
        vec![
            (MatchType::Stack, 3, (RawCard(44), Some(RawCard(45)))),
            (MatchType::Stack, 6, (RawCard(0), Some(RawCard(11)))),
        ]
    );
}

#[test]
fn solo_right_member_also_preempts() {
    // the forced-pair cut fires whichever member of the pair is down to the
    // last card of its rank
    let (cards, stack) = reference_deal();
    let mut board = Board::new(cards, stack, bottom_row(), false);
    let first = board.get_moves();
    board.play_move(first[0]);
    let moves_before = board.get_moves();
    assert!(moves_before.len() > 1);
    let pair = moves_before
        .iter()
        .find(|m| m.0 == MatchType::Board)
        .unwrap();
    let right = pair.2 .1.unwrap();
    board.card_counts[(right.0 % 13) as usize] = 1;
    let moves = board.get_moves();
    assert_eq!(moves.len(), 1);
    assert_eq!(moves[0].0, MatchType::Board);
    assert_eq!(moves[0].1, 0);
    assert!(moves[0].2 .1.is_some());
}

#[test]
fn board_matches_suppress_the_forced_pile_pair() {
    // a last-of-its-rank leaf has a free pile match, but the triangle offers
    // a match of its own: the forced cut must not fire, and the triangle move
    // stays in the list
    let mut cards: Vec<RawCard> = (9..37u8).map(RawCard).collect();
    cards[25] = RawCard(5); // rank 6
    cards[26] = RawCard(6); // rank 7
    cards[27] = RawCard(8); // rank 9
    let stack: Vec<RawCard> = vec![RawCard(3)]; // rank 4, the 9's match
    let mut board = Board::new(cards, stack, vec![25, 26, 27], false);
    board.card_counts[8] = 1; // rank 9 is down to its last card
    let moves = board.get_moves();
    assert_eq!(
        moves,
        vec![
            (MatchType::Board, 0, (RawCard(5), Some(RawCard(6)))),
            (MatchType::BoardStack, 0, (RawCard(8), Some(RawCard(3)))),
        ]
    );
}
