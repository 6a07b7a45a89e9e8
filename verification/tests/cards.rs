use pyrasol::utils::{parse_board, parse_verbosity, Verbosity};
use pyrasol::{MatchType, RawCard};

#[test]
fn board_test_move_type_order() {
    let mut move_types = vec![MatchType::BoardStack, MatchType::Stack, MatchType::Board];

    move_types.sort();

    assert_eq!(
        move_types,
        vec![MatchType::Board, MatchType::BoardStack, MatchType::Stack]
    );
}

#[test]
fn board_test_raw_card_order() {
    let mut cards = vec![
        RawCard(10),
        RawCard(21),
        RawCard(3),
        RawCard(7),
        RawCard(1),
        RawCard(2),
        RawCard(14),
    ];

    cards.sort();

    assert_eq!(
        cards,
        vec![
            RawCard(1),
            RawCard(2),
            RawCard(3),
            RawCard(7),
            RawCard(10),
            RawCard(14),
            RawCard(21)
        ]
    );
}

#[test]
fn card_test_move_type_order() {
    let mut move_types = vec![MatchType::BoardStack, MatchType::Stack, MatchType::Board];

    move_types.sort();

    assert_eq!(
        move_types,
        vec![MatchType::Board, MatchType::BoardStack, MatchType::Stack]
    );
}

#[test]
fn card_test_raw_card_order() {
    let mut cards = vec![
        RawCard(10),
        RawCard(21),
        RawCard(3),
        RawCard(7),
        RawCard(1),
        RawCard(2),
        RawCard(14),
    ];

    cards.sort();

    assert_eq!(
        cards,
        vec![
            RawCard(1),
            RawCard(2),
            RawCard(3),
            RawCard(7),
            RawCard(10),
            RawCard(14),
            RawCard(21)
        ]
    );
}

#[test]
fn utils_test_parse_board() {
    let cards_str = "12jk".to_string();
    let stack_str = "aakq".to_string();

    let (cards, stack) = parse_board(cards_str, stack_str).unwrap();

    assert_eq!(
        cards,
        vec![RawCard(0), RawCard(1), RawCard(10), RawCard(12)]
    );
    assert_eq!(
        stack,
        vec![RawCard(13), RawCard(26), RawCard(25), RawCard(11)]
    );
}

#[test]
fn test_verbosity_order() {
    assert!(Verbosity::Off < Verbosity::Low);
    assert!(Verbosity::Low < Verbosity::Medium);
    assert!(Verbosity::Medium < Verbosity::High);
    assert!(Verbosity::High < Verbosity::VeryHigh);
}

#[test]
fn test_parse_verbosity_levels() {
    assert_eq!(parse_verbosity(0), Verbosity::Off);
    assert_eq!(parse_verbosity(1), Verbosity::Low);
    assert_eq!(parse_verbosity(2), Verbosity::Medium);
    assert_eq!(parse_verbosity(3), Verbosity::High);
    assert_eq!(parse_verbosity(9), Verbosity::VeryHigh);
}

#[test]
fn test_parse_board_rejects_unknown_character() {
    let r = parse_board("12x".to_string(), "".to_string());
    assert_eq!(r.unwrap_err().ch, 'x');

    let r2 = parse_board("12".to_string(), "3!".to_string());
    assert_eq!(r2.unwrap_err().ch, '!');
}
