use holdem_evaluator::get_hand_category;
use holdem_evaluator::Hand;
use holdem_evaluator::HandCategory;
use holdem_evaluator::Tables;

const NUMBER_OF_CARDS: usize = 52;

#[test]
fn test_all_7card_combinations() {
    let t = Tables::build().unwrap();
    let mut seen = vec![false; 65536];
    let mut counts: [u64; 9] = [0; 9];

    for i in 0..(NUMBER_OF_CARDS - 6) {
        let hand = Hand::new().add_card(i);
        for j in (i + 1)..(NUMBER_OF_CARDS - 5) {
            let hand = hand.add_card(j);
            for k in (j + 1)..(NUMBER_OF_CARDS - 4) {
                let hand = hand.add_card(k);
                for m in (k + 1)..(NUMBER_OF_CARDS - 3) {
                    let hand = hand.add_card(m);
                    for n in (m + 1)..(NUMBER_OF_CARDS - 2) {
                        let hand = hand.add_card(n);
                        for p in (n + 1)..(NUMBER_OF_CARDS - 1) {
                            let hand = hand.add_card(p);
                            for q in (p + 1)..NUMBER_OF_CARDS {
                                let hand = hand.add_card(q);
                                let rank = hand.evaluate(&t);
                                seen[rank as usize] = true;
                                counts[(rank >> 12) as usize] += 1;
                            }
                        }
                    }
                }
            }
        }
    }

    let distinct = seen.iter().filter(|b| **b).count();
    assert_eq!(distinct, 4824);
    let of = |c: HandCategory| -> u64 {
        for tag in 0..9u16 {
            if get_hand_category(tag << 12) == c {
                return counts[tag as usize];
            }
        }
        unreachable!()
    };
    assert_eq!(of(HandCategory::StraightFlush), 41584);
    assert_eq!(of(HandCategory::FourOfAKind), 224848);
    assert_eq!(of(HandCategory::FullHouse), 3473184);
    assert_eq!(of(HandCategory::Flush), 4047644);
    assert_eq!(of(HandCategory::Straight), 6180020);
    assert_eq!(of(HandCategory::ThreeOfAKind), 6461620);
    assert_eq!(of(HandCategory::TwoPair), 31433400);
    assert_eq!(of(HandCategory::OnePair), 58627800);
    assert_eq!(of(HandCategory::HighCard), 23294460);
}
