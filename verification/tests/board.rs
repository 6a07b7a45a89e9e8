use pyrasol::board::Board;
use pyrasol::moves::Move;
use pyrasol::{MatchType, RawCard};

fn get_base_board() -> Board {
    let cards: Vec<RawCard> = vec![
        RawCard(7),
        RawCard(6),
        RawCard(4),
        RawCard(11),
        RawCard(0),
        RawCard(3),
        RawCard(10),
        RawCard(19),
        RawCard(13),
        RawCard(5),
        RawCard(24),
        RawCard(2),
        RawCard(26),
        RawCard(37),
        RawCard(32),
        RawCard(18),
        RawCard(1),
        RawCard(9),
        RawCard(17),
        RawCard(30),
        RawCard(8),
        RawCard(12),
        RawCard(14),
        RawCard(22),
        RawCard(16),
        RawCard(27),
        RawCard(23),
        RawCard(15),
    ];
    let stack: Vec<RawCard> = vec![
        RawCard(31),
        RawCard(20),
        RawCard(36),
        RawCard(44),
        RawCard(33),
        RawCard(25),
        RawCard(38),
        RawCard(46),
        RawCard(35),
        RawCard(50),
        RawCard(28),
        RawCard(29),
        RawCard(40),
        RawCard(49),
        RawCard(39),
        RawCard(45),
        RawCard(48),
        RawCard(21),
        RawCard(34),
        RawCard(42),
        RawCard(41),
        RawCard(51),
        RawCard(47),
        RawCard(43),
    ];
    let leaf_idxs: Vec<usize> = vec![21, 22, 23, 24, 25, 26, 27];

    Board::new(cards, stack, leaf_idxs, false)
}

#[test]
fn board_test_board_new() {
    let board = get_base_board();

    assert_eq!(
        board.leaves(),
        vec![
            RawCard(12),
            RawCard(14),
            RawCard(15),
            RawCard(16),
            RawCard(22),
            RawCard(23),
            RawCard(27)
        ]
    );
}

#[test]
fn board_test_board_remove_cards() {
    let mut board = get_base_board();

    assert_eq!(
        board.leaves(),
        vec![
            RawCard(12),
            RawCard(14),
            RawCard(15),
            RawCard(16),
            RawCard(22),
            RawCard(23),
            RawCard(27)
        ]
    );

    board.remove_cards((RawCard(12), Some(RawCard(16))));

    assert_eq!(
        board.leaves(),
        vec![
            RawCard(14),
            RawCard(15),
            RawCard(22),
            RawCard(23),
            RawCard(27)
        ]
    );

    board.remove_cards((RawCard(14), Some(RawCard(22))));

    assert_eq!(
        board.leaves(),
        vec![
            RawCard(1),
            RawCard(9),
            RawCard(15),
            RawCard(18),
            RawCard(23),
            RawCard(27)
        ]
    );
}

#[test]
fn board_test_board_get_moves() {
    let mut board = get_base_board();

    let moves = board.get_moves();

    assert_eq!(moves.len(), 1);

    let (move_type, draws, cards) = &moves[0];

    // Only one move makes sense, the king (12) in the leaves
    assert_eq!(*move_type, MatchType::Board);
    assert_eq!(*draws, 0);
    assert_eq!(*cards, (RawCard(12), None));

    // Remove the king
    board.remove_cards((RawCard(12), None));

    // Get the next possible moves
    let moves = board.get_moves();

    // There should be exactly 3 Board matches
    let board_matches = moves
        .iter()
        .filter(|m| m.0 == MatchType::Board)
        .count();
    assert_eq!(board_matches, 3);

    // There should be exactly 12 BoardStack matches
    let board_stack_matches = moves
        .iter()
        .filter(|m| m.0 == MatchType::BoardStack)
        .count();
    assert_eq!(board_stack_matches, 12);

    // And finally there should be exactly 5 Stack matches
    let stack_matches = moves
        .iter()
        .filter(|m| m.0 == MatchType::Stack)
        .count();
    assert_eq!(stack_matches, 5);

    // For a total of 20 moves
    assert_eq!(moves.len(), 20);
}

#[test]
fn board_test_board_play_move() {
    let mut board = get_base_board();

    let moves = board.get_moves();

    assert_eq!(moves.len(), 1);
    let m: Move = moves.into_iter().next().unwrap();

    board.play_move(m);

    let moves = board.get_moves();

    assert_eq!(moves.len(), 20);
}

#[test]
fn board_test_board_get_moves_has_a_stable_order() {
    let mut board_a = get_base_board();
    let mut board_b = get_base_board();

    // Play moves to get to 20 moves, as the first list of moves is just one move
    let m: Move = board_a.get_moves().into_iter().next().unwrap();
    board_a.play_move(m);
    let m: Move = board_b.get_moves().into_iter().next().unwrap();
    board_b.play_move(m);

    let moves_a = board_a.get_moves();
    let moves_b = board_b.get_moves();

    println!("{:?}", moves_a);
    println!("{:?}", moves_b);

    assert_eq!(moves_a.len(), 20);
    assert_eq!(moves_b.len(), 20);

    assert_eq!(moves_a, moves_b);

    let board_c = board_a.clone();
    let moves_c = board_c.get_moves();

    assert_eq!(moves_a, moves_c);
}

#[test]
fn test_stack_draws_king_in_stack() {
    let cards = vec![
        RawCard(1),
        RawCard(6),
        RawCard(0),
        RawCard(7),
        RawCard(13),
        RawCard(12),
        RawCard(9),
        RawCard(14),
        RawCard(22),
        RawCard(10),
        RawCard(11),
        RawCard(20),
        RawCard(35),
        RawCard(5),
        RawCard(23),
        RawCard(25),
        RawCard(26),
        RawCard(8),
        RawCard(2),
        RawCard(33),
        RawCard(18),
        RawCard(38),
        RawCard(19),
        RawCard(31),
        RawCard(4),
        RawCard(36),
        RawCard(39),
        RawCard(24),
    ];
    let stack = vec![
        RawCard(3),
        RawCard(37),
        RawCard(17),
        RawCard(16),
        RawCard(29),
        RawCard(44),
        RawCard(50),
        RawCard(49),
        RawCard(21),
        RawCard(34),
        RawCard(15),
        RawCard(47),
        RawCard(28),
        RawCard(30),
        RawCard(51),
        RawCard(48),
        RawCard(46),
        RawCard(41),
        RawCard(42),
        RawCard(43),
    ];
    let leaf_idxs = vec![18, 17, 22];

    let mut board = Board::new(cards, stack, leaf_idxs, false);
    board.stack_idx = 11;
    board.moves = 18;

    let stack_moves: Vec<Move> = board.get_stack_moves().into_iter().collect::<Vec<_>>();
    assert_eq!(
        stack_moves,
        vec![(MatchType::Stack, 3, (RawCard(51), None))]
    );

    let moves = board.get_moves();
    assert_eq!(
        moves,
        vec![
            (MatchType::Stack, 3, (RawCard(51), None)),
            (MatchType::BoardStack, 4, (RawCard(2), Some(RawCard(48)))),
            (MatchType::BoardStack, 7, (RawCard(8), Some(RawCard(42)))),
            (MatchType::BoardStack, 10, (RawCard(8), Some(RawCard(3)))),
            (MatchType::BoardStack, 13, (RawCard(8), Some(RawCard(16)))),
            (MatchType::BoardStack, 14, (RawCard(8), Some(RawCard(29)))),
            (MatchType::BoardStack, 15, (RawCard(19), Some(RawCard(44))))
        ]
    );
}

#[test]
fn test_leaves() {
    let board = get_base_board();

    let leaves: Vec<RawCard> = board.leaves().into_iter().collect();

    assert_eq!(
        leaves,
        vec![
            RawCard(12),
            RawCard(14),
            RawCard(15),
            RawCard(16),
            RawCard(22),
            RawCard(23),
            RawCard(27),
        ]
    );
}
