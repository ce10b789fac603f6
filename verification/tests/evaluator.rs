use std::collections::HashSet;

use holdem_evaluator::Hand;
use holdem_evaluator::Tables;

fn evaluate_hand_str(t: &Tables, hand_str: &str) -> u16 {
    let hand = hand_str.parse::<Hand>().unwrap();
    assert_eq!(hand.len(), 7);
    hand.evaluate(t)
}

#[test]
fn test_lookup_table() {
    let t = Tables::build().unwrap();
    let mut rankset = HashSet::new();
    for rank in &t.lookup {
        rankset.insert(rank);
    }
    for rank in &t.lookup_flush {
        rankset.insert(rank);
    }
    assert_eq!(rankset.len(), 4825); // 4824 + 1 (zero)
}

#[test]
fn test_edge_cases() {
    let t = Tables::build().unwrap();

    // straight flushes
    assert_eq!(evaluate_hand_str(&t, "AsKsQsJsTs7d5s"), (8 << 12) + 9);
    assert_eq!(evaluate_hand_str(&t, "Ac7c6c5c4c3c2c"), (8 << 12) + 2);
    assert_eq!(evaluate_hand_str(&t, "AdQsJc5d4d3d2d"), (8 << 12) + 0);

    // four of a kinds
    assert_eq!(evaluate_hand_str(&t, "AsAcAhAdKsQcTh"), (7 << 12) + 155);
    assert_eq!(evaluate_hand_str(&t, "3d3h3s2c2d2h2s"), (7 << 12) + 0);

    // full houses
    assert_eq!(evaluate_hand_str(&t, "AsAdAhKcKdKh2d"), (6 << 12) + 155);
    assert_eq!(evaluate_hand_str(&t, "4h4c3s3c2d2c2h"), (6 << 12) + 1);
    assert_eq!(evaluate_hand_str(&t, "5h4c3s3c2d2c2h"), (6 << 12) + 0);

    // flushes
    assert_eq!(evaluate_hand_str(&t, "AhKhQhJh9h9c9s"), (5 << 12) + 1276);
    assert_eq!(evaluate_hand_str(&t, "Js7c6d5c4c3c2c"), (5 << 12) + 0);

    // straights
    assert_eq!(evaluate_hand_str(&t, "AhKcKdKhQcJdTs"), (4 << 12) + 9);
    assert_eq!(evaluate_hand_str(&t, "Ac8c7c5d4d3d2d"), (4 << 12) + 0);

    // three of a kinds
    assert_eq!(evaluate_hand_str(&t, "AsAcAhKhQd5c3s"), (3 << 12) + 857);
    assert_eq!(evaluate_hand_str(&t, "7d5c4c3c2d2s2h"), (3 << 12) + 8);

    // two pairs
    assert_eq!(evaluate_hand_str(&t, "AsAhKsKhQsQhJs"), (2 << 12) + 857);
    assert_eq!(evaluate_hand_str(&t, "7c6d5h3s3c2d2h"), (2 << 12) + 3);

    // one pairs
    assert_eq!(evaluate_hand_str(&t, "AdAsKhQdJs3s2c"), (1 << 12) + 2859);
    assert_eq!(evaluate_hand_str(&t, "8s7s5h4c3c2d2c"), (1 << 12) + 18);

    // high cards
    assert_eq!(evaluate_hand_str(&t, "AdKdQdJd9s3h2c"), (0 << 12) + 1276);
    assert_eq!(evaluate_hand_str(&t, "9h8s7d5d4d3c2d"), (0 << 12) + 48);
}
