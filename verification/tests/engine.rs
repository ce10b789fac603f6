use holdem_evaluator::adjust_hand_rank;
use holdem_evaluator::build_rank_table;
use holdem_evaluator::enumerate_hand_category;
use holdem_evaluator::eval_6cards;
use holdem_evaluator::eval_7cards;
use holdem_evaluator::get_hand_category;
use holdem_evaluator::heads_up_win_frequency;
use holdem_evaluator::Hand;
use holdem_evaluator::HandCategory;
use holdem_evaluator::Tables;

#[test]
fn tables_build_succeeds() {
    // every construction-time invariant check passes for the shipped weights
    assert!(Tables::build().is_some());
}

#[test]
fn binomial_values() {
    assert_eq!(holdem_evaluator::binomial::binom_u32(48, 5), 1712304);
    assert_eq!(holdem_evaluator::binomial::binom_u32(50, 5), 2118760);
    assert_eq!(holdem_evaluator::binomial::binom_u32(50, 2), 1225);
    assert_eq!(holdem_evaluator::binomial::binom_u32(52, 7), 133784560);
    assert_eq!(holdem_evaluator::binomial::binom_u32(52, 0), 1);
    assert_eq!(holdem_evaluator::binomial::binom_u32(4, 7), 0);
}

#[test]
fn hand_accumulation_is_order_free() {
    // the same card set in any insertion order is bit-identical
    let a = Hand::new().add_card(0).add_card(17).add_card(38);
    let b = Hand::new().add_card(38).add_card(0).add_card(17);
    let c = Hand::new().add_card(17).add_card(38).add_card(0);
    assert_eq!(a, b);
    assert_eq!(b, c);
    // adding then removing a card restores the hand exactly
    let d = a.add_card(51).remove_card(51);
    assert_eq!(a, d);
    let e = a.remove_card(17).add_card(17);
    assert_eq!(a, e);
    assert_eq!(a.len(), 3);
}

#[test]
fn evaluate_matches_reference_ranks() {
    // the table-driven evaluator agrees with the best-of-21-subsets
    // reference on a sample that includes flushes and straight flushes
    let t = Tables::build().unwrap();
    let rt = build_rank_table().unwrap();
    let sample: Vec<usize> = vec![3, 7, 11, 15, 19, 23, 27, 31, 47, 51, 0, 46];
    let n = sample.len();
    for a in 0..n {
        for b in (a + 1)..n {
            for c in (b + 1)..n {
                for d in (c + 1)..n {
                    for e in (d + 1)..n {
                        for f in (e + 1)..n {
                            for g in (f + 1)..n {
                                let ids =
                                    [sample[a], sample[b], sample[c], sample[d], sample[e],
                                        sample[f], sample[g]];
                                let mut hand = Hand::new();
                                for id in &ids {
                                    hand = hand.add_card(*id);
                                }
                                let fast = hand.evaluate(&t);
                                let kev = eval_7cards(
                                    &rt, ids[0], ids[1], ids[2], ids[3], ids[4], ids[5], ids[6],
                                );
                                assert_eq!(fast, adjust_hand_rank(kev));
                            }
                        }
                    }
                }
            }
        }
    }
}

#[test]
fn six_card_rank_beats_its_subsets() {
    let rt = build_rank_table().unwrap();
    // a six-card rank never loses to any of its five-card subsets
    let cards = [0usize, 5, 18, 22, 33, 47];
    let six = eval_6cards(&rt, cards[0], cards[1], cards[2], cards[3], cards[4], cards[5]);
    for omit in 0..6 {
        let mut five = Vec::new();
        for (i, c) in cards.iter().enumerate() {
            if i != omit {
                five.push(*c);
            }
        }
        let r = holdem_evaluator::eval_5cards(&rt, five[0], five[1], five[2], five[3], five[4]);
        assert!(six <= r);
    }
}

#[test]
fn enumerate_counts_every_completion() {
    let t = Tables::build().unwrap();
    // aces of spades and hearts, nothing else dead: C(50, 5) completions
    let hand = Hand::new().add_card(51).add_card(50);
    let counts = enumerate_hand_category(&hand, &Hand::new(), &t);
    let total: u64 = counts.iter().map(|c| *c as u64).sum();
    assert_eq!(total, 2118760);
    // a complete hand has exactly one category: its own
    let full = Hand::from_vec(&vec![51, 50, 49, 48, 47, 46, 45]);
    let counts1 = enumerate_hand_category(&full, &Hand::new(), &t);
    let total1: u64 = counts1.iter().map(|c| *c as u64).sum();
    assert_eq!(total1, 1);
    // four aces with king kickers: category index 7
    assert_eq!(counts1[7], 1);
}

#[test]
fn heads_up_counts_every_run_out() {
    let t = Tables::build().unwrap();
    // aces versus kings, no board, no dead cards: C(48, 5) run-outs
    let aces = Hand::new().add_card(51).add_card(50);
    let kings = Hand::new().add_card(47).add_card(46);
    let (w1, w2, ties) = heads_up_win_frequency(&aces, &kings, &Hand::new(), &Hand::new(), &t);
    assert_eq!(w1 as u64 + w2 as u64 + ties as u64, 1712304);
    assert!(w1 > w2);
    // on a fixed full board there is exactly one run-out
    let board = Hand::from_vec(&vec![0, 5, 10, 19, 24]);
    let (x1, x2, x3) = heads_up_win_frequency(&aces, &kings, &board, &Hand::new(), &t);
    assert_eq!(x1 + x2 + x3, 1);
    assert_eq!((x1, x2, x3), (1, 0, 0));
    // an unknown opponent on the full board: two cards from the 45 left
    let (y1, y2, y3) = heads_up_win_frequency(&aces, &Hand::new(), &board, &Hand::new(), &t);
    assert_eq!(y1 as u64 + y2 as u64 + y3 as u64, 45 * 44 / 2);
}

#[test]
fn strength_encoding_boundaries() {
    // the best reference rank becomes the best strength, the worst becomes 0
    assert_eq!(adjust_hand_rank(1), (8 << 12) + 9);
    assert_eq!(adjust_hand_rank(10), (8 << 12) + 0);
    assert_eq!(adjust_hand_rank(7462), 0);
    assert_eq!(adjust_hand_rank(6186), 1276);
    assert_eq!(adjust_hand_rank(6185), (1 << 12) + 0);
    assert_eq!(get_hand_category(8 << 12), HandCategory::StraightFlush);
    assert_eq!(get_hand_category((4 << 12) + 9), HandCategory::Straight);
    assert_eq!(get_hand_category(0), HandCategory::HighCard);
    assert!(HandCategory::StraightFlush < HandCategory::FourOfAKind);
    assert!(HandCategory::OnePair < HandCategory::HighCard);
}
