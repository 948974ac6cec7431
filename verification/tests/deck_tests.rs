use dungeon_deck::card::{Card, JokerColor, Suit};
use dungeon_deck::game::{Game, GameState, PRISTINE};

fn reg(suit: Suit, rank: u8) -> Card {
    Card::Regular { suit, rank }
}

fn is_red(suit: Suit) -> bool {
    matches!(suit, Suit::Hearts | Suit::Diamonds)
}

#[test]
fn new_game_partitions_the_deck_exactly() {
    // Whatever the shuffle did, the pools hold fixed counts and kinds.
    let g = Game::new();
    assert_eq!(g.dungeon.len(), 24);
    assert_eq!(g.shop.len(), 10);
    assert_eq!(g.bosses.len(), 8);
    assert_eq!(g.room.len(), 0);
    assert_eq!(g.dungeon_discard.len(), 0);
    assert_eq!(g.shop_stock.len(), 0);
    assert_eq!(g.shop_discard.len(), 0);
    for c in &g.dungeon {
        match c {
            Card::Regular { rank, .. } => assert!(4 <= *rank && *rank <= 9),
            Card::Joker { .. } => panic!("joker in the dungeon pool"),
        }
    }
    let mut jokers = 0;
    for c in &g.shop {
        match c {
            Card::Regular { suit, rank } => {
                assert!(10 <= *rank && *rank <= 13);
                assert!(is_red(*suit));
            }
            Card::Joker { .. } => jokers += 1,
        }
    }
    assert_eq!(jokers, 2);
    for c in &g.bosses {
        match c {
            Card::Regular { suit, rank } => {
                assert!(10 <= *rank && *rank <= 13);
                assert!(!is_red(*suit));
            }
            Card::Joker { .. } => panic!("joker in the boss pool"),
        }
    }
}

#[test]
fn new_game_boss_pool_is_sorted_ascending() {
    // Only eight boss cards exist, so the sorted pool is fully determined.
    let g = Game::new();
    let expected = vec![
        reg(Suit::Clubs, 10),
        reg(Suit::Spades, 10),
        reg(Suit::Clubs, 11),
        reg(Suit::Spades, 11),
        reg(Suit::Clubs, 12),
        reg(Suit::Spades, 12),
        reg(Suit::Clubs, 13),
        reg(Suit::Spades, 13),
    ];
    assert_eq!(g.bosses, expected);
    for w in g.bosses.windows(2) {
        assert!(w[0].le(&w[1]));
    }
}

#[test]
fn dungeon_holds_each_low_card_exactly_once() {
    let g = Game::new();
    for suit in [Suit::Hearts, Suit::Diamonds, Suit::Clubs, Suit::Spades] {
        for rank in 4..=9u8 {
            let wanted = reg(suit, rank);
            let count = g.dungeon.iter().filter(|c| **c == wanted).count();
            assert_eq!(count, 1);
        }
    }
}

#[test]
fn new_game_player_starts_fresh() {
    let g = Game::new();
    assert_eq!(g.health, 12);
    assert_eq!(g.money, 5);
    assert_eq!(g.weapon_damage, 0);
    assert_eq!(g.weapon_durability, PRISTINE);
    assert!(!g.fled);
    assert_eq!(g.state, GameState::Floor);
}
