//! A verified evaluator for 5-to-7-card poker hands.
//!
//! A `Hand` accumulates cards as a pair of 64-bit words (a key and a mask);
//! a `Tables` value, built once and validated during construction, maps a
//! 7-card hand to a 16-bit strength where the top 4 bits are the hand
//! category and the low 12 bits the ordinal within the category. On top of
//! the evaluator sit exhaustive enumeration of hand categories and
//! head-to-head win counting over all run-outs.

pub mod binomial;
pub mod cards;
pub mod category;
pub mod classes;
pub mod counting;
pub mod deck;
pub mod encoding;
pub mod enumerate;
pub mod hand;
pub mod heads_up;
pub mod rank_table;
pub mod reference;
pub mod tables;

pub use cards::parse_hand;
pub use cards::Card;
pub use cards::Rank;
pub use cards::Suit;
pub use category::adjust_hand_rank;
pub use category::get_hand_category;
pub use category::HandCategory;
pub use enumerate::enumerate_hand_category;
pub use hand::Hand;
pub use heads_up::heads_up_win_frequency;
pub use rank_table::build_rank_table;
pub use reference::eval_5cards;
pub use reference::eval_6cards;
pub use reference::eval_7cards;
pub use tables::Tables;
