//! Textual card notation: ranks, suits, and two-character card names such
//! as `"Ah"` or `"2d"`. This layer converts between text and the card-id
//! space [0, 52) that the evaluator works on.

use core::str::FromStr;
use vstd::prelude::*;
use vstd::string::StringExecFns;
use vstd::string::StrSliceExecFns;

use crate::hand::{empty_hand, hand_plus, Hand};

verus! {

/// A card rank, deuce through ace.
#[derive(Clone, Copy, Debug, Eq, Hash, Ord, PartialEq, PartialOrd, Structural)]
pub enum Rank {
    Deuce,
    Trey,
    Four,
    Five,
    Six,
    Seven,
    Eight,
    Nine,
    Ten,
    Jack,
    Queen,
    King,
    Ace,
}

/// A card suit.
#[derive(Clone, Copy, Debug, Eq, Hash, Ord, PartialEq, PartialOrd, Structural)]
pub enum Suit {
    Club,
    Diamond,
    Heart,
    Spade,
}

/// A card: a rank and a suit.
#[derive(Clone, Copy, Debug, Eq, Hash, Ord, PartialEq, PartialOrd, Structural)]
pub struct Card {
    pub rank: Rank,
    pub suit: Suit,
}

/// The index of a rank: 0 for the deuce through 12 for the ace.
pub open spec fn rank_index(r: Rank) -> int {
    match r {
        Rank::Deuce => 0,
        Rank::Trey => 1,
        Rank::Four => 2,
        Rank::Five => 3,
        Rank::Six => 4,
        Rank::Seven => 5,
        Rank::Eight => 6,
        Rank::Nine => 7,
        Rank::Ten => 8,
        Rank::Jack => 9,
        Rank::Queen => 10,
        Rank::King => 11,
        Rank::Ace => 12,
    }
}

/// The index of a suit: clubs, diamonds, hearts, spades.
pub open spec fn suit_index(s: Suit) -> int {
    match s {
        Suit::Club => 0,
        Suit::Diamond => 1,
        Suit::Heart => 2,
        Suit::Spade => 3,
    }
}

/// The rank named by a character, if any. Ten through ace accept both cases.
pub open spec fn spec_rank_of_char(c: char) -> Option<Rank> {
    match c {
        '2' => Some(Rank::Deuce),
        '3' => Some(Rank::Trey),
        '4' => Some(Rank::Four),
        '5' => Some(Rank::Five),
        '6' => Some(Rank::Six),
        '7' => Some(Rank::Seven),
        '8' => Some(Rank::Eight),
        '9' => Some(Rank::Nine),
        'T' | 't' => Some(Rank::Ten),
        'J' | 'j' => Some(Rank::Jack),
        'Q' | 'q' => Some(Rank::Queen),
        'K' | 'k' => Some(Rank::King),
        'A' | 'a' => Some(Rank::Ace),
        _ => None,
    }
}

/// The suit named by a character, if any; either case is accepted.
pub open spec fn spec_suit_of_char(c: char) -> Option<Suit> {
    match c {
        'c' | 'C' => Some(Suit::Club),
        'd' | 'D' => Some(Suit::Diamond),
        'h' | 'H' => Some(Suit::Heart),
        's' | 'S' => Some(Suit::Spade),
        _ => None,
    }
}

/// Reads a rank character.
pub fn rank_of_char(c: char) -> (r: Option<Rank>)
    ensures
        r == spec_rank_of_char(c),
{
    match c {
        '2' => Some(Rank::Deuce),
        '3' => Some(Rank::Trey),
        '4' => Some(Rank::Four),
        '5' => Some(Rank::Five),
        '6' => Some(Rank::Six),
        '7' => Some(Rank::Seven),
        '8' => Some(Rank::Eight),
        '9' => Some(Rank::Nine),
        'T' | 't' => Some(Rank::Ten),
        'J' | 'j' => Some(Rank::Jack),
        'Q' | 'q' => Some(Rank::Queen),
        'K' | 'k' => Some(Rank::King),
        'A' | 'a' => Some(Rank::Ace),
        _ => None,
    }
}

/// Reads a suit character.
pub fn suit_of_char(c: char) -> (s: Option<Suit>)
    ensures
        s == spec_suit_of_char(c),
{
    match c {
        'c' | 'C' => Some(Suit::Club),
        'd' | 'D' => Some(Suit::Diamond),
        'h' | 'H' => Some(Suit::Heart),
        's' | 'S' => Some(Suit::Spade),
        _ => None,
    }
}

impl Card {
    /// The card id: 4 times the rank index plus the suit index, so 0 is the
    /// deuce of clubs and 51 the ace of spades.
    pub fn id(&self) -> (id: usize)
        ensures
            id == 4 * rank_index(self.rank) + suit_index(self.suit),
            id < 52,
    {
        let rank_id: usize = match self.rank {
            Rank::Deuce => 0,
            Rank::Trey => 1,
            Rank::Four => 2,
            Rank::Five => 3,
            Rank::Six => 4,
            Rank::Seven => 5,
            Rank::Eight => 6,
            Rank::Nine => 7,
            Rank::Ten => 8,
            Rank::Jack => 9,
            Rank::Queen => 10,
            Rank::King => 11,
            Rank::Ace => 12,
        };
        let suit_id: usize = match self.suit {
            Suit::Club => 0,
            Suit::Diamond => 1,
            Suit::Heart => 2,
            Suit::Spade => 3,
        };
        4 * rank_id + suit_id
    }
}

/// The card named by two characters, if both name a rank and a suit.
pub open spec fn spec_card_of_chars(r: char, s: char) -> Option<Card> {
    match (spec_rank_of_char(r), spec_suit_of_char(s)) {
        (Some(rank), Some(suit)) => Some(Card { rank, suit }),
        _ => None,
    }
}

/// Reads a card from a two-character name such as `"5d"`.
pub fn card_from_str(s: &str) -> (c: Result<Card, ()>)
    ensures
        s@.len() == 2 && spec_card_of_chars(s@[0], s@[1]) is Some ==> c == Ok::<Card, ()>(
            spec_card_of_chars(s@[0], s@[1]).unwrap(),
        ),
        s@.len() != 2 || spec_card_of_chars(s@[0], s@[1]) is None ==> c == Err::<Card, ()>(()),
{
    let n = s.unicode_len();
    if n != 2 {
        return Err(());
    }
    let rc = s.get_char(0);
    let sc = s.get_char(1);
    match (rank_of_char(rc), suit_of_char(sc)) {
        (Some(rank), Some(suit)) => Ok(Card { rank, suit }),
        _ => Err(()),
    }
}

/// The hand named by a string of two-character card names, if every pair of
/// characters names a card and the length is even.
pub open spec fn spec_parse_hand(s: Seq<char>) -> Option<Seq<Card>>
    decreases s.len(),
{
    if s.len() == 0 {
        Some(Seq::<Card>::empty())
    } else if s.len() == 1 {
        None
    } else {
        match spec_card_of_chars(s[0], s[1]) {
            None => None,
            Some(card) => match spec_parse_hand(s.skip(2)) {
                None => None,
                Some(rest) => Some(seq![card] + rest),
            },
        }
    }
}

/// Reads a string of two-character card names, such as `"2d3cKs"`, into the
/// cards it names, in order.
pub fn parse_hand(s: &str) -> (r: Result<Vec<Card>, ()>)
    ensures
        match r {
            Ok(cards) => spec_parse_hand(s@) == Some(cards@),
            Err(_) => spec_parse_hand(s@) is None,
        },
{
    let n = s.unicode_len();
    let mut cards: Vec<Card> = Vec::new();
    if n % 2 == 1 {
        proof {
            lemma_parse_hand_odd_len(s@);
        }
        return Err(());
    }
    let mut i: usize = 0;
    proof {
        assert(s@.skip(0) =~= s@);
    }
    while i < n
        invariant
            i <= n,
            i % 2 == 0,
            n % 2 == 0,
            n == s@.len(),
            spec_parse_hand(s@) == match spec_parse_hand(s@.skip(i as int)) {
                None => None::<Seq<Card>>,
                Some(rest) => Some(cards@ + rest),
            },
        decreases n - i,
    {
        let rc = s.get_char(i);
        let sc = s.get_char(i + 1);
        match (rank_of_char(rc), suit_of_char(sc)) {
            (Some(rank), Some(suit)) => {
                let card = Card { rank, suit };
                proof {
                    let rest = s@.skip(i as int);
                    assert(rest[0] == s@[i as int]);
                    assert(rest[1] == s@[i as int + 1]);
                    assert(rest.skip(2) =~= s@.skip(i as int + 2));
                    assert(spec_card_of_chars(rest[0], rest[1]) == Some(card));
                }
                cards.push(card);
                proof {
                    let rest2 = s@.skip(i as int + 2);
                    if spec_parse_hand(rest2) is Some {
                        assert(cards@ + spec_parse_hand(rest2).unwrap() =~= cards@.drop_last() + (
                        seq![card] + spec_parse_hand(rest2).unwrap()));
                    }
                }
                i = i + 2;
            },
            _ => {
                proof {
                    let rest = s@.skip(i as int);
                    assert(rest.len() >= 2);
                    assert(rest[0] == s@[i as int]);
                    assert(rest[1] == s@[i as int + 1]);
                }
                return Err(());
            },
        }
    }
    proof {
        assert(s@.skip(n as int) =~= Seq::<char>::empty());
        assert(cards@ + Seq::<Card>::empty() =~= cards@);
    }
    Ok(cards)
}

/// A string of odd length never parses as a hand.
proof fn lemma_parse_hand_odd_len(s: Seq<char>)
    requires
        s.len() % 2 == 1,
    ensures
        spec_parse_hand(s) is None,
    decreases s.len(),
{
    if s.len() > 1 {
        assert(s.skip(2).len() % 2 == 1);
        lemma_parse_hand_odd_len(s.skip(2));
    }
}

impl FromStr for Rank {
    type Err = ();

    fn from_str(s: &str) -> Result<Self, Self::Err> {
        if s.unicode_len() != 1 {
            return Err(());
        }
        match rank_of_char(s.get_char(0)) {
            Some(r) => Ok(r),
            None => Err(()),
        }
    }
}

impl FromStr for Suit {
    type Err = ();

    fn from_str(s: &str) -> Result<Self, Self::Err> {
        if s.unicode_len() != 1 {
            return Err(());
        }
        match suit_of_char(s.get_char(0)) {
            Some(r) => Ok(r),
            None => Err(()),
        }
    }
}

impl FromStr for Card {
    type Err = ();

    fn from_str(s: &str) -> Result<Self, Self::Err> {
        card_from_str(s)
    }
}

/// Builds the message for a character that is not a rank.
/// Relies on std's format macro to splice the character into the text.
#[verifier::external_body]
fn rank_error_message(ch: char) -> (r: String)
    ensures
        r@ == "parse failed: expected rank character, but got '"@ + seq![ch] + "'"@,
{
    format!("parse failed: expected rank character, but got '{}'", ch)
}

/// Builds the message for a character that is not a suit.
/// Relies on std's format macro to splice the character into the text.
#[verifier::external_body]
fn suit_error_message(ch: char) -> (r: String)
    ensures
        r@ == "parse failed: expected suit character, but got '"@ + seq![ch] + "'"@,
{
    format!("parse failed: expected suit character, but got '{}'", ch)
}

impl FromStr for Hand {
    type Err = String;

    /// Reads a hand from consecutive two-character card names, such as
    /// `"2h2s3d3s4s5d6d"`; an empty string is the empty hand. Each card must
    /// be valid; cards must not repeat for the hand to be meaningful, which
    /// this convenience parser, like the card ids it feeds, leaves to the
    /// caller.
    fn from_str(hand_str: &str) -> Result<Self, Self::Err> {
        let mut hand = Hand::new();
        let n = hand_str.unicode_len();
        let mut i: usize = 0;
        while i < n
            invariant
                n == hand_str@.len(),
            decreases n - i,
        {
            let rank_char = hand_str.get_char(i);
            let rank = match rank_of_char(rank_char) {
                Some(r) => r,
                None => {
                    return Err(rank_error_message(rank_char));
                },
            };
            if i + 1 >= n {
                return Err(<String as StringExecFns>::from_str(
                    "parse failed: expected suit character, but got EOF",
                ));
            }
            let suit_char = hand_str.get_char(i + 1);
            let suit = match suit_of_char(suit_char) {
                Some(t) => t,
                None => {
                    return Err(suit_error_message(suit_char));
                },
            };
            let card = Card { rank, suit };
            hand = hand.add_card(card.id());
            i = i + 2;
        }
        Ok(hand)
    }
}

} // verus!
