use dungeon_deck::card::{Card, JokerColor, Suit};
use dungeon_deck::game::Game;

fn reg(suit: Suit, rank: u8) -> Card {
    Card::Regular { suit, rank }
}

#[test]
fn value_of_regular_cards_is_their_rank() {
    assert_eq!(reg(Suit::Hearts, 1).get_value(), 1);
    assert_eq!(reg(Suit::Clubs, 7).get_value(), 7);
    assert_eq!(reg(Suit::Spades, 13).get_value(), 13);
}

#[test]
fn value_of_jokers_is_fifteen() {
    assert_eq!(Card::Joker { color: JokerColor::Black }.get_value(), 15);
    assert_eq!(Card::Joker { color: JokerColor::Red }.get_value(), 15);
}

#[test]
fn order_is_rank_then_suit() {
    assert!(reg(Suit::Spades, 4).le(&reg(Suit::Hearts, 5)));
    assert!(!reg(Suit::Hearts, 5).le(&reg(Suit::Spades, 4)));
    assert!(reg(Suit::Hearts, 7).le(&reg(Suit::Diamonds, 7)));
    assert!(reg(Suit::Diamonds, 7).le(&reg(Suit::Clubs, 7)));
    assert!(reg(Suit::Clubs, 7).le(&reg(Suit::Spades, 7)));
    assert!(!reg(Suit::Spades, 7).le(&reg(Suit::Clubs, 7)));
}

#[test]
fn every_regular_card_is_below_every_joker() {
    let king = reg(Suit::Spades, 13);
    let black = Card::Joker { color: JokerColor::Black };
    let red = Card::Joker { color: JokerColor::Red };
    assert!(king.le(&black));
    assert!(king.le(&red));
    assert!(black.le(&red));
    assert!(!red.le(&black));
}

#[test]
fn created_deck_has_54_cards_in_build_order() {
    let deck = Game::create_deck();
    assert_eq!(deck.len(), 54);
    assert_eq!(deck[0], reg(Suit::Hearts, 1));
    assert_eq!(deck[12], reg(Suit::Hearts, 13));
    assert_eq!(deck[13], reg(Suit::Diamonds, 1));
    assert_eq!(deck[26], reg(Suit::Clubs, 1));
    assert_eq!(deck[39], reg(Suit::Spades, 1));
    assert_eq!(deck[51], reg(Suit::Spades, 13));
    assert_eq!(deck[52], Card::Joker { color: JokerColor::Black });
    assert_eq!(deck[53], Card::Joker { color: JokerColor::Red });
}
