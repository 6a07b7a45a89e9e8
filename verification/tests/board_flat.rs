//! The same fresh-deal checks, driven through the crate-root re-exports.

use pyrasol::{parse_board, Board, MatchType, RawCard};

fn flat_base_board() -> Board {
    let cards: Vec<RawCard> = vec![
        RawCard(7),
        RawCard(6),
        RawCard(4),
        RawCard(11),
        RawCard(0),
        RawCard(3),
        RawCard(10),
        RawCard(19),
        RawCard(13),
        RawCard(5),
        RawCard(24),
        RawCard(2),
        RawCard(26),
        RawCard(37),
        RawCard(32),
        RawCard(18),
        RawCard(1),
        RawCard(9),
        RawCard(17),
        RawCard(30),
        RawCard(8),
        RawCard(12),
        RawCard(14),
        RawCard(22),
        RawCard(16),
        RawCard(27),
        RawCard(23),
        RawCard(15),
    ];
    let stack: Vec<RawCard> = vec![
        RawCard(31),
        RawCard(20),
        RawCard(36),
        RawCard(44),
        RawCard(33),
        RawCard(25),
        RawCard(38),
        RawCard(46),
        RawCard(35),
        RawCard(50),
        RawCard(28),
        RawCard(29),
        RawCard(40),
        RawCard(49),
        RawCard(39),
        RawCard(45),
        RawCard(48),
        RawCard(21),
        RawCard(34),
        RawCard(42),
        RawCard(41),
        RawCard(51),
        RawCard(47),
        RawCard(43),
    ];
    let leaf_idxs: Vec<usize> = vec![21, 22, 23, 24, 25, 26, 27];

    Board::new(cards, stack, leaf_idxs, false)
}

#[test]
fn test_board_new() {
    let board = flat_base_board();

    assert_eq!(
        board.leaves(),
        vec![
            RawCard(12),
            RawCard(14),
            RawCard(15),
            RawCard(16),
            RawCard(22),
            RawCard(23),
            RawCard(27)
        ]
    );
}

#[test]
fn test_board_remove_cards() {
    let mut board = flat_base_board();

    assert_eq!(
        board.leaves(),
        vec![
            RawCard(12),
            RawCard(14),
            RawCard(15),
            RawCard(16),
            RawCard(22),
            RawCard(23),
            RawCard(27)
        ]
    );

    board.remove_cards((RawCard(12), Some(RawCard(16))));

    assert_eq!(
        board.leaves(),
        vec![
            RawCard(14),
            RawCard(15),
            RawCard(22),
            RawCard(23),
            RawCard(27)
        ]
    );

    board.remove_cards((RawCard(14), Some(RawCard(22))));

    assert_eq!(
        board.leaves(),
        vec![
            RawCard(1),
            RawCard(9),
            RawCard(15),
            RawCard(18),
            RawCard(23),
            RawCard(27)
        ]
    );
}

#[test]
fn test_board_get_moves() {
    let mut board = flat_base_board();

    let moves = board.get_moves();

    assert_eq!(moves.len(), 1);

    let (move_type, draws, cards) = &moves[0];

    // Only one move makes sense, the king (12) in the leaves
    assert_eq!(*move_type, MatchType::Board);
    assert_eq!(*draws, 0);
    assert_eq!(*cards, (RawCard(12), None));

    // Remove the king
    board.remove_cards((RawCard(12), None));

    // Get the next possible moves
    let moves = board.get_moves();

    // There should be exactly 3 Board matches
    let board_matches = moves
        .iter()
        .filter(|m| m.0 == MatchType::Board)
        .count();
    assert_eq!(board_matches, 3);

    // There should be exactly 12 BoardStack matches
    let board_stack_matches = moves
        .iter()
        .filter(|m| m.0 == MatchType::BoardStack)
        .count();
    assert_eq!(board_stack_matches, 12);

    // And finally there should be exactly 5 Stack matches
    let stack_matches = moves
        .iter()
        .filter(|m| m.0 == MatchType::Stack)
        .count();
    assert_eq!(stack_matches, 5);

    // For a total of 20 moves
    assert_eq!(moves.len(), 20);
}

#[test]
fn test_parse_board() {
    let cards_str = "12jk".to_string();
    let stack_str = "aakq".to_string();

    let (cards, stack) = parse_board(cards_str, stack_str).unwrap();

    assert_eq!(
        cards,
        vec![RawCard(0), RawCard(1), RawCard(10), RawCard(12)]
    );
    assert_eq!(
        stack,
        vec![RawCard(13), RawCard(26), RawCard(25), RawCard(11)]
    );
}
