use dungeon_deck::card::{Card, JokerColor, Suit};
use dungeon_deck::game::{BuyOutcome, FleeOutcome, Game, GameState, PRISTINE};

fn reg(suit: Suit, rank: u8) -> Card {
    Card::Regular { suit, rank }
}

fn blank_game() -> Game {
    Game {
        dungeon: vec![],
        dungeon_discard: vec![],
        room: vec![],
        bosses: vec![],
        shop: vec![],
        shop_stock: vec![],
        shop_discard: vec![],
        health: 12,
        money: 5,
        weapon_damage: 0,
        weapon_durability: PRISTINE,
        fled: false,
        state: GameState::Floor,
    }
}

#[test]
fn flee_needs_a_full_room_and_cannot_repeat() {
    let mut g = blank_game();
    g.room = vec![
        reg(Suit::Hearts, 4),
        reg(Suit::Clubs, 5),
        reg(Suit::Diamonds, 6),
        reg(Suit::Spades, 7),
    ];
    g.dungeon = vec![reg(Suit::Hearts, 8)];
    let r = g.flee();
    assert_eq!(r, FleeOutcome::Fled);
    assert!(g.fled);
    assert_eq!(g.room.len(), 0);
    // popped from the last slot first, so the room comes back reversed
    assert_eq!(
        g.dungeon,
        vec![
            reg(Suit::Hearts, 8),
            reg(Suit::Spades, 7),
            reg(Suit::Diamonds, 6),
            reg(Suit::Clubs, 5),
            reg(Suit::Hearts, 4),
        ]
    );
    // deal a fresh full room and try again without an intervening card use
    g.room = vec![
        reg(Suit::Hearts, 4),
        reg(Suit::Clubs, 5),
        reg(Suit::Diamonds, 6),
        reg(Suit::Spades, 7),
    ];
    let r = g.flee();
    assert_eq!(r, FleeOutcome::FledBefore);
    assert_eq!(g.room.len(), 4);
}

#[test]
fn flee_from_a_short_room_is_refused() {
    let mut g = blank_game();
    g.room = vec![reg(Suit::Hearts, 4), reg(Suit::Clubs, 5), reg(Suit::Diamonds, 6)];
    let r = g.flee();
    assert_eq!(r, FleeOutcome::RoomNotFull);
    assert!(!g.fled);
    assert_eq!(g.room.len(), 3);
}

#[test]
fn refresh_restocks_a_low_room_from_the_dungeon_front() {
    let mut g = blank_game();
    g.room = vec![reg(Suit::Hearts, 4)];
    g.dungeon = vec![
        reg(Suit::Clubs, 5),
        reg(Suit::Diamonds, 6),
        reg(Suit::Spades, 7),
        reg(Suit::Hearts, 8),
        reg(Suit::Hearts, 9),
    ];
    let rep = g.refresh_room(false);
    assert!(rep.restocked);
    assert!(!rep.lost);
    assert!(!rep.floor_complete);
    assert_eq!(
        g.room,
        vec![reg(Suit::Hearts, 4), reg(Suit::Clubs, 5), reg(Suit::Diamonds, 6), reg(Suit::Spades, 7)]
    );
    assert_eq!(g.dungeon, vec![reg(Suit::Hearts, 8), reg(Suit::Hearts, 9)]);
    assert_eq!(g.state, GameState::Floor);
}

#[test]
fn quiet_refresh_restocks_without_saying_so() {
    let mut g = blank_game();
    g.dungeon = vec![reg(Suit::Clubs, 5), reg(Suit::Clubs, 6)];
    let rep = g.refresh_room(true);
    assert!(!rep.restocked);
    assert_eq!(g.room.len(), 2);
}

#[test]
fn refresh_with_two_or_more_room_cards_draws_nothing() {
    let mut g = blank_game();
    g.room = vec![reg(Suit::Hearts, 4), reg(Suit::Clubs, 5)];
    g.dungeon = vec![reg(Suit::Diamonds, 6)];
    let rep = g.refresh_room(false);
    assert!(!rep.restocked);
    assert_eq!(g.room.len(), 2);
    assert_eq!(g.dungeon.len(), 1);
}

#[test]
fn loss_beats_the_win_check() {
    let mut g = blank_game();
    g.health = 0;
    let rep = g.refresh_room(false);
    assert!(rep.lost);
    assert!(!rep.floor_complete);
    assert_eq!(g.state, GameState::Lost);
}

#[test]
fn empty_dungeon_and_no_monster_with_no_bosses_wins() {
    let mut g = blank_game();
    g.room = vec![reg(Suit::Hearts, 4), reg(Suit::Diamonds, 9)];
    let rep = g.refresh_room(false);
    assert!(rep.floor_complete);
    assert_eq!(g.state, GameState::Won);
}

#[test]
fn empty_dungeon_with_bosses_left_opens_the_shop() {
    let mut g = blank_game();
    g.room = vec![reg(Suit::Hearts, 4)];
    g.bosses = vec![reg(Suit::Clubs, 10), reg(Suit::Spades, 10)];
    g.shop = vec![
        reg(Suit::Hearts, 10),
        reg(Suit::Hearts, 11),
        reg(Suit::Diamonds, 10),
        reg(Suit::Diamonds, 11),
        reg(Suit::Hearts, 12),
    ];
    let rep = g.refresh_room(false);
    assert!(rep.floor_complete);
    assert_eq!(g.state, GameState::Shop);
    // up to four cards move on sale, from the front, in order
    assert_eq!(
        g.shop_stock,
        vec![reg(Suit::Hearts, 10), reg(Suit::Hearts, 11), reg(Suit::Diamonds, 10), reg(Suit::Diamonds, 11)]
    );
    assert_eq!(g.shop, vec![reg(Suit::Hearts, 12)]);
}

#[test]
fn a_monster_in_the_room_keeps_the_floor_going() {
    let mut g = blank_game();
    g.room = vec![reg(Suit::Hearts, 4), reg(Suit::Spades, 9)];
    let rep = g.refresh_room(false);
    assert!(!rep.floor_complete);
    assert_eq!(g.state, GameState::Floor);
}

#[test]
fn buying_needs_enough_money() {
    let mut g = blank_game();
    g.state = GameState::Shop;
    g.bosses = vec![reg(Suit::Clubs, 10), reg(Suit::Spades, 10)];
    g.money = 5;
    g.shop_stock = vec![Card::Joker { color: JokerColor::Red }, reg(Suit::Hearts, 10)];
    // the joker costs 15: refused, nothing changes
    let r = g.buy_card(1);
    assert_eq!(r, BuyOutcome::CantAfford);
    assert_eq!(g.money, 5);
    assert_eq!(g.shop_stock.len(), 2);
    assert_eq!(g.dungeon.len(), 0);
}

#[test]
fn buying_an_affordable_card_moves_it_to_the_dungeon_end() {
    let mut g = blank_game();
    g.state = GameState::Shop;
    g.bosses = vec![reg(Suit::Clubs, 10), reg(Suit::Spades, 10)];
    g.money = 5;
    g.dungeon = vec![reg(Suit::Clubs, 4)];
    g.shop_stock = vec![reg(Suit::Hearts, 5)];
    let r = g.buy_card(1);
    assert_eq!(r, BuyOutcome::Bought { card: reg(Suit::Hearts, 5), price: 5 });
    assert_eq!(g.money, 0);
    assert_eq!(g.shop_stock.len(), 0);
    assert_eq!(g.dungeon, vec![reg(Suit::Clubs, 4), reg(Suit::Hearts, 5)]);
}

#[test]
fn buying_from_an_empty_slot_is_refused() {
    let mut g = blank_game();
    g.state = GameState::Shop;
    g.bosses = vec![reg(Suit::Clubs, 10), reg(Suit::Spades, 10)];
    assert_eq!(g.buy_card(0), BuyOutcome::NoCard);
    assert_eq!(g.buy_card(1), BuyOutcome::NoCard);
}

#[test]
fn stealing_takes_a_card_without_paying() {
    let mut g = blank_game();
    g.state = GameState::Shop;
    g.bosses = vec![reg(Suit::Clubs, 10), reg(Suit::Spades, 10)];
    g.shop_stock = vec![Card::Joker { color: JokerColor::Black }];
    assert!(g.steal_card(1));
    assert_eq!(g.money, 5);
    assert_eq!(g.dungeon, vec![Card::Joker { color: JokerColor::Black }]);
    assert!(!g.steal_card(1));
}

#[test]
fn leaving_the_shop_releases_the_two_lowest_bosses() {
    let mut g = blank_game();
    g.state = GameState::Shop;
    g.health = 7;
    g.weapon_damage = 4;
    g.weapon_durability = 9;
    g.bosses = vec![
        reg(Suit::Clubs, 10),
        reg(Suit::Spades, 10),
        reg(Suit::Clubs, 11),
        reg(Suit::Spades, 11),
    ];
    g.shop = vec![reg(Suit::Hearts, 10)];
    g.shop_stock = vec![reg(Suit::Diamonds, 10)];
    let rep = g.leave_shop();
    assert!(!rep.shop_restocked);
    assert_eq!(rep.boss1, reg(Suit::Clubs, 10));
    assert_eq!(rep.boss2, reg(Suit::Spades, 10));
    assert_eq!(g.bosses, vec![reg(Suit::Clubs, 11), reg(Suit::Spades, 11)]);
    assert_eq!(g.state, GameState::Floor);
    // the new floor resets the player
    assert_eq!(g.health, 12);
    assert_eq!(g.weapon_damage, 0);
    assert_eq!(g.weapon_durability, PRISTINE);
    // unsold stock went to the shop discard
    assert_eq!(g.shop_discard, vec![reg(Suit::Diamonds, 10)]);
    // both bosses are in play: dealt to the room or waiting in the dungeon
    let mut in_play = g.room.clone();
    in_play.extend(g.dungeon.iter().cloned());
    assert_eq!(in_play.len(), 2);
    assert!(in_play.contains(&reg(Suit::Clubs, 10)));
    assert!(in_play.contains(&reg(Suit::Spades, 10)));
}

#[test]
fn an_empty_shop_pile_is_restocked_from_its_discard() {
    let mut g = blank_game();
    g.state = GameState::Shop;
    g.bosses = vec![reg(Suit::Clubs, 10), reg(Suit::Spades, 10)];
    g.shop = vec![];
    g.shop_discard = vec![reg(Suit::Hearts, 11)];
    g.shop_stock = vec![reg(Suit::Diamonds, 12)];
    let rep = g.leave_shop();
    assert!(rep.shop_restocked);
    assert_eq!(g.shop_discard.len(), 0);
    assert_eq!(g.shop.len(), 2);
    assert!(g.shop.contains(&reg(Suit::Hearts, 11)));
    assert!(g.shop.contains(&reg(Suit::Diamonds, 12)));
}

#[test]
fn a_full_run_reaches_a_verdict() {
    // Drive a fresh game with a blunt policy: always play slot 1, answer a
    // joker with slot 2, buy nothing. The loop must end in Lost or Won
    // rather than run forever or panic.
    let mut g = Game::new();
    g.start_floor();
    g.refresh_room(true);
    let mut steps = 0;
    loop {
        match g.state {
            GameState::Floor => {
                let destroy = if g.needs_destroy_choice(1) { Some(2) } else { None };
                let _ = g.use_card(1, destroy);
                let _ = g.refresh_room(false);
            }
            GameState::Shop => {
                let _ = g.leave_shop();
            }
            GameState::Lost | GameState::Won => break,
        }
        steps += 1;
        assert!(steps < 10_000, "the game made no progress");
    }
}
