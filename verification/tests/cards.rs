use holdem_evaluator::parse_hand;
use holdem_evaluator::Card;
use holdem_evaluator::Hand;
use holdem_evaluator::Rank;
use holdem_evaluator::Suit;

#[test]
fn card_test() {
    assert_eq!(
        "5d".parse::<Card>(),
        Ok(Card {
            rank: Rank::Five,
            suit: Suit::Diamond,
        })
    );
    assert_eq!(
        "Qh".parse::<Card>(),
        Ok(Card {
            rank: Rank::Queen,
            suit: Suit::Heart,
        })
    );
    assert_eq!("Jx".parse::<Card>(), Err(()));
    assert_eq!("1s".parse::<Card>(), Err(()));
    assert_eq!("".parse::<Card>(), Err(()));
    assert_eq!("4cG".parse::<Card>(), Err(()));
}

#[test]
fn test() {
    assert_eq!(
        "5d".parse::<Card>(),
        Ok(Card {
            rank: Rank::Five,
            suit: Suit::Diamond,
        })
    );
    assert_eq!(
        "Qh".parse::<Card>(),
        Ok(Card {
            rank: Rank::Queen,
            suit: Suit::Heart,
        })
    );
    assert_eq!("Jx".parse::<Card>(), Err(()));
    assert_eq!("1s".parse::<Card>(), Err(()));
    assert_eq!("".parse::<Card>(), Err(()));
    assert_eq!("4cG".parse::<Card>(), Err(()));

    assert_eq!(parse_hand(""), Ok(Vec::new()));
    assert_eq!(
        parse_hand("2d3cKs"),
        Ok(vec![
            Card {
                rank: Rank::Deuce,
                suit: Suit::Diamond,
            },
            Card {
                rank: Rank::Trey,
                suit: Suit::Club,
            },
            Card {
                rank: Rank::King,
                suit: Suit::Spade,
            },
        ])
    );
    assert_eq!(parse_hand("2d3cKsA"), Err(()));
}

#[test]
fn test_parser() {
    let cards = vec![2, 3, 5, 7, 11, 13, 17];
    let hand_from_vec = Hand::from_vec(&cards);
    let hand_from_str = "2h2s3d3s4s5d6d".parse::<Hand>();
    assert_eq!(hand_from_str, Ok(hand_from_vec));
    assert_eq!("".parse::<Hand>(), Ok(Hand::new()));
    assert_eq!(
        "A".parse::<Hand>(),
        Err("parse failed: expected suit character, but got EOF".into())
    );
    assert_eq!(
        "Ax".parse::<Hand>(),
        Err("parse failed: expected suit character, but got 'x'".into())
    );
    assert_eq!(
        "10s".parse::<Hand>(),
        Err("parse failed: expected rank character, but got '1'".into())
    );
}
