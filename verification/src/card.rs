//! The card model: suits, joker colors, the card variant type, the numeric
//! value used for sale prices and destroy refunds, and the total order used
//! to sort boss cards.

use vstd::prelude::*;

verus! {

/// The four suits, listed in the order used to break rank ties:
/// Hearts < Diamonds < Clubs < Spades.
#[derive(Clone, Copy, PartialEq, Eq, Debug, Structural)]
pub enum Suit {
    Hearts,
    Diamonds,
    Clubs,
    Spades,
}

/// The color of a joker. Black sorts below Red.
#[derive(Clone, Copy, PartialEq, Eq, Debug, Structural)]
pub enum JokerColor {
    Red,
    Black,
}

/// A card: either a regular ranked card (Ace = 1 .. King = 13) or a joker.
#[derive(Clone, Copy, PartialEq, Eq, Debug, Structural)]
pub enum Card {
    Regular { suit: Suit, rank: u8 },
    Joker { color: JokerColor },
}

/// Position of a suit in the tie-breaking order.
pub open spec fn suit_key(s: Suit) -> int {
    match s {
        Suit::Hearts => 0,
        Suit::Diamonds => 1,
        Suit::Clubs => 2,
        Suit::Spades => 3,
    }
}

impl Card {
    /// A regular card carries a rank between Ace (1) and King (13).
    pub open spec fn wf(self) -> bool {
        match self {
            Card::Regular { rank, .. } => 1 <= rank <= 13,
            Card::Joker { .. } => true,
        }
    }

    /// The numeric value of a card: its rank, or 15 for a joker.
    /// Used as the sale price in the shop and halved as the destroy refund.
    pub open spec fn value_spec(self) -> u32 {
        match self {
            Card::Regular { rank, .. } => rank as u32,
            Card::Joker { .. } => 15,
        }
    }

    /// Key of the total order over cards: regular cards compare by rank and
    /// then by suit, every regular card is less than every joker, and the
    /// black joker is less than the red one.
    pub open spec fn ord_key(self) -> int {
        match self {
            Card::Regular { suit, rank } => rank * 4 + suit_key(suit),
            Card::Joker { color } => match color {
                JokerColor::Black => 10000,
                JokerColor::Red => 10001,
            },
        }
    }

    /// The numeric value of the card.
    pub fn get_value(&self) -> (r: u32)
        ensures
            r == self.value_spec(),
    {
        match self {
            Card::Regular { rank, .. } => *rank as u32,
            Card::Joker { .. } => 15,
        }
    }

    /// Whether `self` comes no later than `other` in the card order.
    pub fn le(&self, other: &Card) -> (r: bool)
        ensures
            r == (self.ord_key() <= other.ord_key()),
    {
        let a = self.ord_key_exec();
        let b = other.ord_key_exec();
        a <= b
    }

    /// The order key, computed at run time.
    fn ord_key_exec(&self) -> (k: u32)
        ensures
            k == self.ord_key(),
    {
        match self {
            Card::Regular { suit, rank } => {
                let s: u32 = match suit {
                    Suit::Hearts => 0,
                    Suit::Diamonds => 1,
                    Suit::Clubs => 2,
                    Suit::Spades => 3,
                };
                (*rank as u32) * 4 + s
            }
            Card::Joker { color } => match color {
                JokerColor::Black => 10000,
                JokerColor::Red => 10001,
            },
        }
    }
}

/// A monster: a Clubs or Spades regular card, fought with `use_card`.
pub open spec fn is_monster(c: Card) -> bool {
    match c {
        Card::Regular { suit, .. } => suit == Suit::Clubs || suit == Suit::Spades,
        Card::Joker { .. } => false,
    }
}

/// A card that the deck builder sends to the dungeon pool: rank 4..9, any suit.
pub open spec fn is_dungeon_card(c: Card) -> bool {
    match c {
        Card::Regular { rank, .. } => 4 <= rank <= 9,
        Card::Joker { .. } => false,
    }
}

/// A card that the deck builder sends to the shop pool: rank 10..13 Hearts or
/// Diamonds, or a joker.
pub open spec fn is_shop_card(c: Card) -> bool {
    match c {
        Card::Regular { suit, rank } => 10 <= rank <= 13 && (suit == Suit::Hearts
            || suit == Suit::Diamonds),
        Card::Joker { .. } => true,
    }
}

/// A boss card: rank 10..13 Clubs or Spades.
pub open spec fn is_boss_card(c: Card) -> bool {
    match c {
        Card::Regular { suit, rank } => 10 <= rank <= 13 && (suit == Suit::Clubs
            || suit == Suit::Spades),
        Card::Joker { .. } => false,
    }
}

/// A card that the deck builder drops on the floor of the game: rank Ace..3.
pub open spec fn is_dropped_card(c: Card) -> bool {
    match c {
        Card::Regular { rank, .. } => rank <= 3,
        Card::Joker { .. } => false,
    }
}

/// A potion: a Hearts regular card.
pub open spec fn is_potion(c: Card) -> bool {
    match c {
        Card::Regular { suit, .. } => suit == Suit::Hearts,
        Card::Joker { .. } => false,
    }
}

/// A weapon or repair card: a Diamonds regular card.
pub open spec fn is_gear(c: Card) -> bool {
    match c {
        Card::Regular { suit, .. } => suit == Suit::Diamonds,
        Card::Joker { .. } => false,
    }
}

/// The rank of a regular card; 0 for a joker.
pub open spec fn rank_of(c: Card) -> u8 {
    match c {
        Card::Regular { rank, .. } => rank,
        Card::Joker { .. } => 0,
    }
}

/// Ascending by the card order.
pub open spec fn sorted_cards(s: Seq<Card>) -> bool {
    forall|i: int, j: int|
        0 <= i <= j < s.len() ==> #[trigger] s[i].ord_key() <= #[trigger] s[j].ord_key()
}

/// Every card in the sequence carries a legal rank.
pub open spec fn all_wf(s: Seq<Card>) -> bool {
    forall|i: int| 0 <= i < s.len() ==> (#[trigger] s[i]).wf()
}

/// Removing a card keeps every remaining card legal.
pub proof fn lemma_all_wf_remove(s: Seq<Card>, i: int)
    requires
        all_wf(s),
        0 <= i < s.len(),
    ensures
        all_wf(s.remove(i)),
{
    assert forall|j: int| 0 <= j < s.remove(i).len() implies (#[trigger] s.remove(i)[j]).wf() by {
        if j < i {
            assert(s.remove(i)[j] == s[j]);
        } else {
            assert(s.remove(i)[j] == s[j + 1]);
        }
    }
}

/// Reordering a pile keeps every card legal.
pub proof fn lemma_all_wf_permutation(s: Seq<Card>, t: Seq<Card>)
    requires
        s.to_multiset() == t.to_multiset(),
        all_wf(s),
    ensures
        all_wf(t),
{
    broadcast use vstd::seq_lib::group_to_multiset_ensures;

    assert forall|i: int| 0 <= i < t.len() implies (#[trigger] t[i]).wf() by {
        assert(t.contains(t[i]));
        assert(t.to_multiset().count(t[i]) > 0);
        assert(s.to_multiset().count(t[i]) > 0);
        assert(s.contains(t[i]));
        let j = choose|j: int| 0 <= j < s.len() && s[j] == t[i];
        assert(s[j].wf());
    }
}

} // verus!
