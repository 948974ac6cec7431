//! The room/floor/shop engine: the single mutable game aggregate, its
//! invariant, and the operations the player drives it with.

use vstd::prelude::*;

use crate::card::{
    all_wf, is_boss_card, is_dungeon_card, is_gear, is_monster, is_potion, is_shop_card,
    lemma_all_wf_permutation, lemma_all_wf_remove, rank_of, sorted_cards, Card, JokerColor, Suit,
};
use crate::deck::{
    boss_pred, dungeon_pred, lemma_partition_sizes, lemma_sorted_skip, partition, shop_pred,
    sort_cards, standard_deck,
};
use crate::rng::shuffle_cards;

verus! {

/// Durability of a weapon that has not fought yet.
pub const PRISTINE: u8 = 255;

/// The phase the game is in.
#[derive(Clone, Copy, PartialEq, Eq, Debug, Structural)]
pub enum GameState {
    Floor,
    Shop,
    Lost,
    Won,
}

/// The whole game: the card pools, the player, and the current phase.
pub struct Game {
    /// Draw pile of the current floor; the front is drawn next.
    pub dungeon: Vec<Card>,
    /// Cards consumed this floor, recycled at the next floor start.
    pub dungeon_discard: Vec<Card>,
    /// The up-to-four cards facing the player, addressed as slots 1..4.
    pub room: Vec<Card>,
    /// The boss cards still to come, sorted ascending, released two at a time.
    pub bosses: Vec<Card>,
    /// Draw pile of the shop.
    pub shop: Vec<Card>,
    /// The up-to-four cards on sale.
    pub shop_stock: Vec<Card>,
    /// Shop cards left behind, recycled when the shop pile empties.
    pub shop_discard: Vec<Card>,
    /// Hit points; 12 at floor start, above 12 only through a full heal.
    pub health: u8,
    /// Coins for the shop.
    pub money: u32,
    /// Damage of the equipped weapon; 0 means unarmed.
    pub weapon_damage: u8,
    /// Highest monster rank the weapon may still fight, or `PRISTINE`.
    pub weapon_durability: u8,
    /// Set right after a flee; forbids a second flee in a row.
    pub fled: bool,
    /// The current phase.
    pub state: GameState,
}

impl Game {
    /// The invariant every operation preserves.
    pub open spec fn wf(self) -> bool {
        &&& all_wf(self.dungeon@)
        &&& all_wf(self.dungeon_discard@)
        &&& all_wf(self.room@)
        &&& all_wf(self.bosses@)
        &&& all_wf(self.shop@)
        &&& all_wf(self.shop_stock@)
        &&& all_wf(self.shop_discard@)
        &&& self.room@.len() <= 4
        &&& self.health <= 18
        &&& self.weapon_damage <= 10
        &&& (self.weapon_durability == PRISTINE || 1 <= self.weapon_durability <= 254)
        &&& self.bosses@.len() % 2 == 0
        &&& sorted_cards(self.bosses@)
        &&& (forall|i: int| 0 <= i < self.bosses@.len() ==> is_boss_card(#[trigger] self.bosses@[i]))
        &&& (self.state is Shop ==> self.bosses@.len() > 0)
    }
}

/// The pools and the phase that a room action never touches.
pub open spec fn pools_untouched(a: Game, b: Game) -> bool {
    &&& a.dungeon@ == b.dungeon@
    &&& a.bosses@ == b.bosses@
    &&& a.shop@ == b.shop@
    &&& a.shop_stock@ == b.shop_stock@
    &&& a.shop_discard@ == b.shop_discard@
    &&& a.state == b.state
}

/// Nothing observable changed: a failed action leaves the game as it was.
pub open spec fn same_game(a: Game, b: Game) -> bool {
    &&& pools_untouched(a, b)
    &&& a.dungeon_discard@ == b.dungeon_discard@
    &&& a.room@ == b.room@
    &&& a.health == b.health
    &&& a.money == b.money
    &&& a.weapon_damage == b.weapon_damage
    &&& a.weapon_durability == b.weapon_durability
    &&& a.fled == b.fled
}

impl Game {
    /// Builds the unshuffled 54-card deck: every rank of every suit, then
    /// the black and the red joker.
    pub fn create_deck() -> (deck: Vec<Card>)
        ensures
            deck@ == standard_deck(),
    {
        let mut deck: Vec<Card> = Vec::with_capacity(54);
        let mut i: usize = 0;
        while i < 52
            invariant
                i <= 52,
                deck@.len() == i,
                forall|j: int| 0 <= j < i ==> deck@[j] == crate::deck::deck_card(j),
            decreases 52 - i,
        {
            let suit = if i < 13 {
                Suit::Hearts
            } else if i < 26 {
                Suit::Diamonds
            } else if i < 39 {
                Suit::Clubs
            } else {
                Suit::Spades
            };
            let rank: u8 = if i < 13 {
                (i + 1) as u8
            } else if i < 26 {
                (i - 12) as u8
            } else if i < 39 {
                (i - 25) as u8
            } else {
                (i - 38) as u8
            };
            deck.push(Card::Regular { suit, rank });
            i += 1;
        }
        deck.push(Card::Joker { color: JokerColor::Black });
        deck.push(Card::Joker { color: JokerColor::Red });
        proof {
            assert(deck@ =~= standard_deck());
        }
        deck
    }

    /// A fresh game: the deck is built, shuffled and partitioned, the boss
    /// pool sorted, and the player starts with 12 health, 5 coins and bare
    /// hands. The dungeon holds the 24 cards of rank 4..9, the shop the 8
    /// high Hearts/Diamonds cards and both jokers, the boss pool the 8 high
    /// Clubs/Spades cards.
    pub fn new() -> (g: Game)
        ensures
            g.wf(),
            g.health == 12,
            g.money == 5,
            g.weapon_damage == 0,
            g.weapon_durability == PRISTINE,
            !g.fled,
            g.state is Floor,
            g.room@.len() == 0,
            g.dungeon_discard@.len() == 0,
            g.shop_stock@.len() == 0,
            g.shop_discard@.len() == 0,
            g.dungeon@.len() == 24,
            g.shop@.len() == 10,
            g.bosses@.len() == 8,
            forall|i: int| 0 <= i < g.dungeon@.len() ==> is_dungeon_card(#[trigger] g.dungeon@[i]),
            forall|i: int| 0 <= i < g.shop@.len() ==> is_shop_card(#[trigger] g.shop@[i]),
            forall|i: int| 0 <= i < g.bosses@.len() ==> is_boss_card(#[trigger] g.bosses@[i]),
            sorted_cards(g.bosses@),
            g.dungeon@.to_multiset() == standard_deck().filter(dungeon_pred()).to_multiset(),
            g.shop@.to_multiset() == standard_deck().filter(shop_pred()).to_multiset(),
            g.bosses@.to_multiset() == standard_deck().filter(boss_pred()).to_multiset(),
    {
        broadcast use vstd::seq_lib::group_filter_ensures;
        broadcast use vstd::seq_lib::group_to_multiset_ensures;

        let mut deck = Self::create_deck();
        shuffle_cards(&mut deck);
        proof {
            lemma_partition_sizes(deck@);
        }
        let (dungeon, shop, bosses_unsorted) = partition(deck);
        let bosses = sort_cards(bosses_unsorted);
        proof {
            crate::deck::lemma_filter_to_multiset(deck@, dungeon_pred());
            crate::deck::lemma_filter_to_multiset(standard_deck(), dungeon_pred());
            crate::deck::lemma_filter_to_multiset(deck@, shop_pred());
            crate::deck::lemma_filter_to_multiset(standard_deck(), shop_pred());
            crate::deck::lemma_filter_to_multiset(deck@, boss_pred());
            crate::deck::lemma_filter_to_multiset(standard_deck(), boss_pred());
            let filtered = deck@.filter(boss_pred());
            assert forall|i: int| 0 <= i < bosses@.len() implies is_boss_card(
                #[trigger] bosses@[i],
            ) by {
                assert(bosses@.contains(bosses@[i]));
                assert(bosses@.to_multiset().count(bosses@[i]) > 0);
                assert(filtered.to_multiset().count(bosses@[i]) > 0);
                assert(filtered.contains(bosses@[i]));
                let j = choose|j: int| 0 <= j < filtered.len() && filtered[j] == bosses@[i];
                assert(boss_pred()(filtered[j]));
            }
        }
        let g = Game {
            dungeon,
            dungeon_discard: Vec::new(),
            room: Vec::new(),
            bosses,
            shop,
            shop_stock: Vec::new(),
            shop_discard: Vec::new(),
            health: 12,
            money: 5,
            weapon_damage: 0,
            weapon_durability: PRISTINE,
            fled: false,
            state: GameState::Floor,
        };
        proof {
            assert forall|i: int| 0 <= i < g.dungeon@.len() implies is_dungeon_card(
                #[trigger] g.dungeon@[i],
            ) by {
                assert(dungeon_pred()(g.dungeon@[i]));
            }
            assert forall|i: int| 0 <= i < g.shop@.len() implies is_shop_card(
                #[trigger] g.shop@[i],
            ) by {
                assert(shop_pred()(g.shop@[i]));
            }
        }
        g
    }

    /// Starts a floor: health and weapon reset, the room and the discard
    /// pile are folded back into the dungeon, and the dungeon is shuffled.
    pub fn start_floor(&mut self)
        requires
            old(self).wf(),
        ensures
            final(self).wf(),
            final(self).health == 12,
            final(self).weapon_damage == 0,
            final(self).weapon_durability == PRISTINE,
            final(self).room@.len() == 0,
            final(self).dungeon_discard@.len() == 0,
            final(self).dungeon@.to_multiset() == old(self).dungeon@.to_multiset().add(
                old(self).room@.to_multiset(),
            ).add(old(self).dungeon_discard@.to_multiset()),
            final(self).dungeon@.len() == old(self).dungeon@.len() + old(self).room@.len() + old(
                self,
            ).dungeon_discard@.len(),
            final(self).bosses@ == old(self).bosses@,
            final(self).shop@ == old(self).shop@,
            final(self).shop_stock@ == old(self).shop_stock@,
            final(self).shop_discard@ == old(self).shop_discard@,
            final(self).money == old(self).money,
            final(self).fled == old(self).fled,
            final(self).state == old(self).state,
    {
        broadcast use vstd::seq_lib::group_to_multiset_ensures;

        self.health = 12;
        self.weapon_damage = 0;
        self.weapon_durability = PRISTINE;

        let ghost d0 = self.dungeon@;
        let ghost r0 = self.room@;
        let ghost x0 = self.dungeon_discard@;
        self.dungeon.append(&mut self.room);
        self.dungeon.append(&mut self.dungeon_discard);
        proof {
            vstd::seq_lib::lemma_multiset_commutative(d0, r0);
            vstd::seq_lib::lemma_multiset_commutative(d0 + r0, x0);
            assert(all_wf(self.dungeon@)) by {
                assert forall|i: int| 0 <= i < self.dungeon@.len() implies (
                #[trigger] self.dungeon@[i]).wf() by {
                    if i < d0.len() {
                        assert(self.dungeon@[i] == d0[i]);
                    } else if i < d0.len() + r0.len() {
                        assert(self.dungeon@[i] == r0[i - d0.len()]);
                    } else {
                        assert(self.dungeon@[i] == x0[i - d0.len() - r0.len()]);
                    }
                }
            }
        }
        let ghost merged = self.dungeon@;
        shuffle_cards(&mut self.dungeon);
        proof {
            lemma_all_wf_permutation(merged, self.dungeon@);
        }
    }
}

/// How many cards a room refresh draws: a room down to one card or none is
/// topped back up toward four, as far as the dungeon lasts.
pub open spec fn restock_count(g: Game) -> int {
    if g.room@.len() <= 1 {
        if g.dungeon@.len() < 4 - g.room@.len() {
            g.dungeon@.len() as int
        } else {
            4 - g.room@.len()
        }
    } else {
        0
    }
}

/// The room after the restock step.
pub open spec fn room_after_restock(g: Game) -> Seq<Card> {
    g.room@ + g.dungeon@.take(restock_count(g))
}

/// The dungeon after the restock step.
pub open spec fn dungeon_after_restock(g: Game) -> Seq<Card> {
    g.dungeon@.skip(restock_count(g))
}

/// Whether any card of the room is a monster.
pub open spec fn room_has_monster(room: Seq<Card>) -> bool {
    exists|i: int| 0 <= i < room.len() && is_monster(#[trigger] room[i])
}

/// The floor is done when, after restocking, the dungeon is empty and no
/// monster remains in the room.
pub open spec fn floor_cleared(g: Game) -> bool {
    dungeon_after_restock(g).len() == 0 && !room_has_monster(room_after_restock(g))
}

/// How many cards move on sale when the shop opens.
pub open spec fn shop_restock_count(g: Game) -> int {
    if g.shop@.len() < 4 {
        g.shop@.len() as int
    } else {
        4
    }
}

/// What a room refresh reported: the status lines the caller should show.
pub struct RefreshReport {
    /// Cards were drawn into the room, in the floor phase, not silenced.
    pub restocked: bool,
    /// Health was found at zero: the game is lost.
    pub lost: bool,
    /// The floor is complete: the game is won or the shop opens.
    pub floor_complete: bool,
}

impl Game {
    /// Refreshes the room after an action. A room down to one card is
    /// topped back up to four from the dungeon front. Then, the loss check
    /// first: at zero health the game is Lost. Otherwise, once the dungeon
    /// is empty and no monster remains in the room, the floor is complete:
    /// with no bosses left the game is Won, else the shop opens and up to
    /// four cards go on sale.
    pub fn refresh_room(&mut self, quiet: bool) -> (rep: RefreshReport)
        requires
            old(self).wf(),
        ensures
            final(self).wf(),
            final(self).room@ == room_after_restock(*old(self)),
            final(self).dungeon@ == dungeon_after_restock(*old(self)),
            rep.restocked == (restock_count(*old(self)) > 0 && old(self).state is Floor
                && !quiet),
            final(self).dungeon_discard@ == old(self).dungeon_discard@,
            final(self).bosses@ == old(self).bosses@,
            final(self).shop_discard@ == old(self).shop_discard@,
            final(self).health == old(self).health,
            final(self).money == old(self).money,
            final(self).weapon_damage == old(self).weapon_damage,
            final(self).weapon_durability == old(self).weapon_durability,
            final(self).fled == old(self).fled,
            rep.lost == (old(self).health == 0),
            rep.floor_complete == (old(self).health > 0 && floor_cleared(*old(self))),
            old(self).health == 0 ==> final(self).state is Lost
                && final(self).shop@ == old(self).shop@
                && final(self).shop_stock@ == old(self).shop_stock@,
            old(self).health > 0 && floor_cleared(*old(self)) && old(self).bosses@.len() == 0
                ==> final(self).state is Won
                && final(self).shop@ == old(self).shop@
                && final(self).shop_stock@ == old(self).shop_stock@,
            old(self).health > 0 && floor_cleared(*old(self)) && old(self).bosses@.len() > 0
                ==> final(self).state is Shop
                && final(self).shop_stock@ == old(self).shop_stock@
                    + old(self).shop@.take(shop_restock_count(*old(self)))
                && final(self).shop@ == old(self).shop@.skip(shop_restock_count(*old(self))),
            old(self).health > 0 && !floor_cleared(*old(self))
                ==> final(self).state == old(self).state
                && final(self).shop@ == old(self).shop@
                && final(self).shop_stock@ == old(self).shop_stock@,
    {
        let ghost g0 = *self;
        let mut drew: usize = 0;
        if self.room.len() <= 1 {
            let want = 4 - self.room.len();
            let avail = self.dungeon.len();
            let n = if avail < want {
                avail
            } else {
                want
            };
            proof {
                assert(n == restock_count(g0));
            }
            while drew < n
                invariant
                    drew <= n,
                    n == restock_count(g0),
                    n <= g0.dungeon@.len(),
                    self.room@ == g0.room@ + g0.dungeon@.take(drew as int),
                    self.dungeon@ == g0.dungeon@.skip(drew as int),
                    self.dungeon_discard@ == g0.dungeon_discard@,
                    self.bosses@ == g0.bosses@,
                    self.shop@ == g0.shop@,
                    self.shop_stock@ == g0.shop_stock@,
                    self.shop_discard@ == g0.shop_discard@,
                    self.health == g0.health,
                    self.money == g0.money,
                    self.weapon_damage == g0.weapon_damage,
                    self.weapon_durability == g0.weapon_durability,
                    self.fled == g0.fled,
                    self.state == g0.state,
                decreases n - drew,
            {
                let c = self.dungeon.remove(0);
                self.room.push(c);
                proof {
                    assert(g0.dungeon@.skip(drew as int).remove(0) =~= g0.dungeon@.skip(
                        drew + 1,
                    ));
                    assert(g0.dungeon@.skip(drew as int)[0] == g0.dungeon@[drew as int]);
                    assert(g0.dungeon@.take(drew + 1) =~= g0.dungeon@.take(drew as int).push(
                        g0.dungeon@[drew as int],
                    ));
                }
                drew += 1;
            }
        }
        proof {
            if g0.room@.len() > 1 {
                assert(self.room@ =~= g0.room@ + g0.dungeon@.take(0));
                assert(self.dungeon@ =~= g0.dungeon@.skip(0));
            }
            assert(all_wf(self.room@)) by {
                assert forall|i: int| 0 <= i < self.room@.len() implies (
                #[trigger] self.room@[i]).wf() by {
                    if i < g0.room@.len() {
                        assert(self.room@[i] == g0.room@[i]);
                    } else {
                        assert(self.room@[i] == g0.dungeon@[i - g0.room@.len()]);
                    }
                }
            }
            assert(all_wf(self.dungeon@)) by {
                assert forall|i: int| 0 <= i < self.dungeon@.len() implies (
                #[trigger] self.dungeon@[i]).wf() by {
                    assert(self.dungeon@[i] == g0.dungeon@[i + restock_count(g0)]);
                }
            }
        }
        let in_floor = match self.state {
            GameState::Floor => true,
            _ => false,
        };
        let restocked = drew > 0 && in_floor && !quiet;

        if self.health == 0 {
            self.state = GameState::Lost;
            return RefreshReport { restocked, lost: true, floor_complete: false };
        }
        let monster = room_monster_check(&self.room);
        if self.dungeon.len() == 0 && !monster {
            if self.bosses.len() == 0 {
                self.state = GameState::Won;
                return RefreshReport { restocked, lost: false, floor_complete: true };
            }
            self.state = GameState::Shop;
            let ghost s0 = *self;
            let avail = self.shop.len();
            let m = if avail < 4 {
                avail
            } else {
                4
            };
            proof {
                assert(m == shop_restock_count(g0));
            }
            let mut moved: usize = 0;
            while moved < m
                invariant
                    moved <= m,
                    m == shop_restock_count(g0),
                    m <= g0.shop@.len(),
                    self.shop_stock@ == g0.shop_stock@ + g0.shop@.take(moved as int),
                    self.shop@ == g0.shop@.skip(moved as int),
                    self.room@ == s0.room@,
                    self.dungeon@ == s0.dungeon@,
                    self.dungeon_discard@ == g0.dungeon_discard@,
                    self.bosses@ == g0.bosses@,
                    self.shop_discard@ == g0.shop_discard@,
                    self.health == g0.health,
                    self.money == g0.money,
                    self.weapon_damage == g0.weapon_damage,
                    self.weapon_durability == g0.weapon_durability,
                    self.fled == g0.fled,
                    self.state is Shop,
                    g0.bosses@.len() > 0,
                decreases m - moved,
            {
                let c = self.shop.remove(0);
                self.shop_stock.push(c);
                proof {
                    assert(g0.shop@.skip(moved as int).remove(0) =~= g0.shop@.skip(moved + 1));
                    assert(g0.shop@.skip(moved as int)[0] == g0.shop@[moved as int]);
                    assert(g0.shop@.take(moved + 1) =~= g0.shop@.take(moved as int).push(
                        g0.shop@[moved as int],
                    ));
                }
                moved += 1;
            }
            proof {
                assert(self.shop_stock@ =~= g0.shop_stock@ + g0.shop@.take(shop_restock_count(g0)));
                assert(all_wf(self.shop_stock@)) by {
                    assert forall|i: int| 0 <= i < self.shop_stock@.len() implies (
                    #[trigger] self.shop_stock@[i]).wf() by {
                        if i < g0.shop_stock@.len() {
                            assert(self.shop_stock@[i] == g0.shop_stock@[i]);
                        } else {
                            assert(self.shop_stock@[i] == g0.shop@[i - g0.shop_stock@.len()]);
                        }
                    }
                }
                assert(all_wf(self.shop@)) by {
                    assert forall|i: int| 0 <= i < self.shop@.len() implies (
                    #[trigger] self.shop@[i]).wf() by {
                        assert(self.shop@[i] == g0.shop@[i + shop_restock_count(g0)]);
                    }
                }
            }
            return RefreshReport { restocked, lost: false, floor_complete: true };
        }
        RefreshReport { restocked, lost: false, floor_complete: false }
    }
}

/// Addition on coins that stops at the top of the range instead of
/// wrapping; the cap is far beyond any reachable amount.
pub open spec fn sat_add(m: u32, v: u32) -> u32 {
    if m + v <= u32::MAX {
        (m + v) as u32
    } else {
        u32::MAX
    }
}

/// Health after taking a hit, floored at zero.
pub open spec fn hit(h: u8, d: u8) -> u8 {
    if h > d {
        (h - d) as u8
    } else {
        0
    }
}

/// Health after drinking a plain potion: healing raises health toward the
/// cap of 12, and never lowers health already above it.
pub open spec fn heal(h: u8, r: u8) -> u8 {
    if h >= 12 {
        h
    } else if h + r <= 12 {
        (h + r) as u8
    } else {
        12
    }
}

/// Durability after a repair: a pristine weapon is left alone, a worn one
/// gains the repair amount, stopping just short of the pristine mark.
pub open spec fn repair_apply(d: u8, rep: u8) -> u8 {
    if d == PRISTINE {
        d
    } else if d + rep <= 254 {
        (d + rep) as u8
    } else {
        254
    }
}

/// Whether the equipped weapon may fight a monster of this rank.
pub open spec fn weapon_usable(g: Game, rank: u8) -> bool {
    g.weapon_damage > 0 && g.weapon_durability > rank
}

/// The refund for destroying a card with a joker: half its value, rounded up.
pub open spec fn destroy_refund(c: Card) -> u32 {
    ((c.value_spec() + 1) / 2) as u32
}

/// The slot that a joker keeps after the destroyed card left the room.
pub open spec fn joker_slot_after(joker_idx: int, target_idx: int) -> int {
    if target_idx < joker_idx {
        joker_idx - 1
    } else {
        joker_idx
    }
}

/// What playing a room card did.
#[derive(Clone, Copy, PartialEq, Eq, Debug, Structural)]
pub enum UseOutcome {
    /// The slot is empty or out of range: nothing happened.
    NoCard,
    /// A joker was played but no destroy slot was given: nothing happened.
    NoTarget,
    /// The destroy slot is empty or out of range: nothing happened.
    TargetMissing,
    /// The joker was asked to destroy its own slot: nothing happened.
    TargetSelf,
    /// The joker destroyed a card, refunding half its value.
    Destroyed { card: Card, gain: u32 },
    /// The weapon overkilled the monster: coins instead of pain.
    WeaponBounty { rank: u8, bounty: u8 },
    /// The weapon was used; the rank beyond the weapon's damage hurt.
    WeaponHit { rank: u8, damage: u8 },
    /// No usable weapon: the full rank hurt.
    BareHit { rank: u8 },
    /// A plain potion healed toward the cap.
    Healed { amount: u8 },
    /// A face potion set health above the cap.
    FullHeal { bonus: u8 },
    /// A new weapon was equipped, pristine.
    Equipped { damage: u8 },
    /// A repair card raised a worn weapon's durability.
    Repaired { amount: u8 },
}

/// The common tail of every successful card play: the played card moved
/// from the room to the discard pile and the flee flag cleared.
pub open spec fn played_from(g: Game, f: Game, idx: int, played: Card) -> bool {
    &&& f.room@ == g.room@.remove(idx - 1)
    &&& f.dungeon_discard@ == g.dungeon_discard@.push(played)
    &&& !f.fled
    &&& pools_untouched(g, f)
}

impl Game {
    /// Whether playing this slot will ask for a second slot to destroy.
    pub fn needs_destroy_choice(&self, room_idx: usize) -> (r: bool)
        ensures
            r == (1 <= room_idx <= self.room@.len() && self.room@[room_idx as int - 1] is Joker),
    {
        if room_idx == 0 || room_idx > self.room.len() {
            return false;
        }
        match self.room[room_idx - 1] {
            Card::Joker { .. } => true,
            _ => false,
        }
    }

    /// Plays the card in 1-based slot `room_idx`. A joker also takes the
    /// slot of a card to destroy, handed in by the caller. A monster is
    /// fought with the weapon when one is equipped and its durability
    /// exceeds the monster's rank, else barehanded; a Hearts card heals; a
    /// Diamonds card equips or repairs. On success the played card moves to
    /// the discard pile and the flee flag clears; on a bad slot nothing
    /// changes. Outside a full heal, a run that never went above 12 health
    /// stays at or below 12.
    pub fn use_card(&mut self, room_idx: usize, destroy_idx: Option<usize>) -> (r: UseOutcome)
        requires
            old(self).wf(),
        ensures
            final(self).wf(),
            (r is NoCard) == !(1 <= room_idx <= old(self).room@.len()),
            r is NoCard ==> same_game(*old(self), *final(self)),
            // a joker needs a target slot: its own slot is refused, as is a bad one
            1 <= room_idx <= old(self).room@.len() && old(self).room@[room_idx as int - 1] is Joker
                ==> {
                let t = destroy_idx->Some_0;
                &&& destroy_idx is None ==> r is NoTarget && same_game(*old(self), *final(self))
                &&& (destroy_idx is Some && !(1 <= t <= old(self).room@.len()))
                    ==> r is TargetMissing && same_game(*old(self), *final(self))
                &&& (destroy_idx is Some && 1 <= t <= old(self).room@.len() && t == room_idx)
                    ==> r is TargetSelf && same_game(*old(self), *final(self))
                &&& (destroy_idx is Some && 1 <= t <= old(self).room@.len() && t != room_idx)
                    ==> {
                    let target = old(self).room@[t as int - 1];
                    let joker = old(self).room@[room_idx as int - 1];
                    let adj = joker_slot_after(room_idx as int, t as int);
                    &&& r == (UseOutcome::Destroyed { card: target, gain: destroy_refund(target) })
                    &&& final(self).money == sat_add(old(self).money, destroy_refund(target))
                    &&& final(self).room@ == old(self).room@.remove(t as int - 1).remove(adj - 1)
                    &&& final(self).dungeon_discard@ == old(self).dungeon_discard@.push(target).push(joker)
                    &&& !final(self).fled
                    &&& pools_untouched(*old(self), *final(self))
                    &&& final(self).health == old(self).health
                    &&& final(self).weapon_damage == old(self).weapon_damage
                    &&& final(self).weapon_durability == old(self).weapon_durability
                }
            },
            // a monster is fought
            1 <= room_idx <= old(self).room@.len() && is_monster(
                old(self).room@[room_idx as int - 1],
            ) ==> {
                let c = old(self).room@[room_idx as int - 1];
                let rank = rank_of(c);
                &&& played_from(*old(self), *final(self), room_idx as int, c)
                &&& weapon_usable(*old(self), rank) ==> {
                    &&& final(self).weapon_durability == rank
                    &&& final(self).weapon_damage == old(self).weapon_damage
                    &&& rank < old(self).weapon_damage ==> {
                        &&& r == (UseOutcome::WeaponBounty {
                            rank,
                            bounty: (old(self).weapon_damage - rank) as u8,
                        })
                        &&& final(self).money == sat_add(
                            old(self).money,
                            (old(self).weapon_damage - rank) as u32,
                        )
                        &&& final(self).health == old(self).health
                    }
                    &&& rank >= old(self).weapon_damage ==> {
                        &&& r == (UseOutcome::WeaponHit {
                            rank,
                            damage: (rank - old(self).weapon_damage) as u8,
                        })
                        &&& final(self).health == hit(
                            old(self).health,
                            (rank - old(self).weapon_damage) as u8,
                        )
                        &&& final(self).money == old(self).money
                    }
                }
                &&& !weapon_usable(*old(self), rank) ==> {
                    &&& r == (UseOutcome::BareHit { rank })
                    &&& final(self).health == hit(old(self).health, rank)
                    &&& final(self).money == old(self).money
                    &&& final(self).weapon_damage == old(self).weapon_damage
                    &&& final(self).weapon_durability == old(self).weapon_durability
                }
            },
            // a potion heals
            1 <= room_idx <= old(self).room@.len() && is_potion(
                old(self).room@[room_idx as int - 1],
            ) ==> {
                let c = old(self).room@[room_idx as int - 1];
                let rank = rank_of(c);
                &&& played_from(*old(self), *final(self), room_idx as int, c)
                &&& final(self).money == old(self).money
                &&& final(self).weapon_damage == old(self).weapon_damage
                &&& final(self).weapon_durability == old(self).weapon_durability
                &&& rank < 11 ==> r == (UseOutcome::Healed { amount: rank }) && final(self).health
                    == heal(old(self).health, rank)
                &&& rank >= 11 ==> r == (UseOutcome::FullHeal { bonus: ((rank - 10) * 2) as u8 })
                    && final(self).health == 12 + (rank - 10) * 2
            },
            // a Diamonds card equips or repairs
            1 <= room_idx <= old(self).room@.len() && is_gear(
                old(self).room@[room_idx as int - 1],
            ) ==> {
                let c = old(self).room@[room_idx as int - 1];
                let rank = rank_of(c);
                &&& played_from(*old(self), *final(self), room_idx as int, c)
                &&& final(self).money == old(self).money
                &&& final(self).health == old(self).health
                &&& rank < 11 ==> r == (UseOutcome::Equipped { damage: rank })
                    && final(self).weapon_damage == rank
                    && final(self).weapon_durability == PRISTINE
                &&& rank >= 11 ==> r == (UseOutcome::Repaired { amount: ((rank - 10) * 2) as u8 })
                    && final(self).weapon_damage == old(self).weapon_damage
                    && final(self).weapon_durability == repair_apply(
                        old(self).weapon_durability,
                        ((rank - 10) * 2) as u8,
                    )
            },
            // health above the cap needs a full heal
            old(self).health <= 12 && !(r is FullHeal) ==> final(self).health <= 12,
    {
        if room_idx == 0 || room_idx > self.room.len() {
            return UseOutcome::NoCard;
        }
        let mut idx = room_idx;
        let played = self.room[idx - 1];
        let outcome: UseOutcome;
        match played {
            Card::Joker { .. } => {
                match destroy_idx {
                    None => {
                        return UseOutcome::NoTarget;
                    }
                    Some(t) => {
                        if t == 0 || t > self.room.len() {
                            return UseOutcome::TargetMissing;
                        }
                        if t == idx {
                            return UseOutcome::TargetSelf;
                        }
                        let target = self.room[t - 1];
                        let v = sat_add_coins(0, (target.get_value() + 1) / 2);
                        self.money = sat_add_coins(self.money, v);
                        let removed = self.room.remove(t - 1);
                        self.dungeon_discard.push(removed);
                        proof {
                            lemma_all_wf_remove(old(self).room@, t as int - 1);
                        }
                        if t < idx {
                            idx -= 1;
                        }
                        outcome = UseOutcome::Destroyed { card: target, gain: v };
                    }
                }
            }
            Card::Regular { suit, rank } => {
                match suit {
                    Suit::Clubs | Suit::Spades => {
                        if self.weapon_damage > 0 && self.weapon_durability > rank {
                            if rank < self.weapon_damage {
                                let b = self.weapon_damage - rank;
                                self.money = sat_add_coins(self.money, b as u32);
                                outcome = UseOutcome::WeaponBounty { rank, bounty: b };
                            } else {
                                let d = rank - self.weapon_damage;
                                self.health = if self.health > d {
                                    self.health - d
                                } else {
                                    0
                                };
                                outcome = UseOutcome::WeaponHit { rank, damage: d };
                            }
                            self.weapon_durability = rank;
                        } else {
                            self.health = if self.health > rank {
                                self.health - rank
                            } else {
                                0
                            };
                            outcome = UseOutcome::BareHit { rank };
                        }
                    }
                    Suit::Hearts => {
                        if rank < 11 {
                            self.health = if self.health >= 12 {
                                self.health
                            } else if self.health + rank <= 12 {
                                self.health + rank
                            } else {
                                12
                            };
                            outcome = UseOutcome::Healed { amount: rank };
                        } else {
                            let bonus = (rank - 10) * 2;
                            self.health = 12 + bonus;
                            outcome = UseOutcome::FullHeal { bonus };
                        }
                    }
                    Suit::Diamonds => {
                        if rank < 11 {
                            self.weapon_damage = rank;
                            self.weapon_durability = PRISTINE;
                            outcome = UseOutcome::Equipped { damage: rank };
                        } else {
                            let rep = (rank - 10) * 2;
                            if self.weapon_durability < PRISTINE {
                                self.weapon_durability = if self.weapon_durability <= 254 - rep {
                                    self.weapon_durability + rep
                                } else {
                                    254
                                };
                            }
                            outcome = UseOutcome::Repaired { amount: rep };
                        }
                    }
                }
            }
        }
        let ghost room_before_last = self.room@;
        let c = self.room.remove(idx - 1);
        self.dungeon_discard.push(c);
        self.fled = false;
        proof {
            lemma_all_wf_remove(room_before_last, idx as int - 1);
        }
        outcome
    }
}

/// A flee is allowed only from a full room, and not twice in a row.
pub open spec fn flee_allowed(g: Game) -> bool {
    g.room@.len() == 4 && !g.fled
}

/// Law: right after a successful flee the flag is set, so a second flee
/// without an intervening card play is refused.
pub proof fn lemma_no_consecutive_flee(g: Game)
    requires
        g.fled,
    ensures
        !flee_allowed(g),
{
}

/// What a flee attempt did.
#[derive(Clone, Copy, PartialEq, Eq, Debug, Structural)]
pub enum FleeOutcome {
    /// The room went back into the dungeon.
    Fled,
    /// Refused: the room was not full.
    RoomNotFull,
    /// Refused: the previous action was already a flee.
    FledBefore,
}

/// What a purchase attempt did.
#[derive(Clone, Copy, PartialEq, Eq, Debug, Structural)]
pub enum BuyOutcome {
    /// The slot is empty or out of range: nothing happened.
    NoCard,
    /// The card was paid for and joined the back of the dungeon.
    Bought { card: Card, price: u32 },
    /// Refused: not enough coins.
    CantAfford,
}

/// What leaving the shop reported: the status lines the caller should show.
pub struct ShopExit {
    /// The shop pile was empty and its discard was reshuffled into it.
    pub shop_restocked: bool,
    /// The first boss released into the dungeon.
    pub boss1: Card,
    /// The second boss released into the dungeon.
    pub boss2: Card,
}

impl Game {
    /// Flees the room: all four cards go back to the dungeon's end (in
    /// reverse order, as they are picked up from the last slot first) to be
    /// redealt later. Allowed only from a full room and not twice in a row.
    pub fn flee(&mut self) -> (r: FleeOutcome)
        requires
            old(self).wf(),
        ensures
            final(self).wf(),
            (r is Fled) == flee_allowed(*old(self)),
            old(self).room@.len() < 4 ==> r is RoomNotFull,
            old(self).room@.len() == 4 && old(self).fled ==> r is FledBefore,
            !(r is Fled) ==> same_game(*old(self), *final(self)),
            r is Fled ==> {
                &&& final(self).room@.len() == 0
                &&& final(self).dungeon@ == old(self).dungeon@ + old(self).room@.reverse()
                &&& final(self).fled
                &&& final(self).dungeon_discard@ == old(self).dungeon_discard@
                &&& final(self).bosses@ == old(self).bosses@
                &&& final(self).shop@ == old(self).shop@
                &&& final(self).shop_stock@ == old(self).shop_stock@
                &&& final(self).shop_discard@ == old(self).shop_discard@
                &&& final(self).health == old(self).health
                &&& final(self).money == old(self).money
                &&& final(self).weapon_damage == old(self).weapon_damage
                &&& final(self).weapon_durability == old(self).weapon_durability
                &&& final(self).state == old(self).state
            },
    {
        if self.room.len() < 4 {
            return FleeOutcome::RoomNotFull;
        }
        if self.fled {
            return FleeOutcome::FledBefore;
        }
        let c1 = self.room.pop().unwrap();
        self.dungeon.push(c1);
        let c2 = self.room.pop().unwrap();
        self.dungeon.push(c2);
        let c3 = self.room.pop().unwrap();
        self.dungeon.push(c3);
        let c4 = self.room.pop().unwrap();
        self.dungeon.push(c4);
        self.fled = true;
        proof {
            assert(self.dungeon@ =~= old(self).dungeon@ + old(self).room@.reverse());
            assert(all_wf(self.dungeon@)) by {
                assert forall|i: int| 0 <= i < self.dungeon@.len() implies (
                #[trigger] self.dungeon@[i]).wf() by {
                    if i < old(self).dungeon@.len() {
                        assert(self.dungeon@[i] == old(self).dungeon@[i]);
                    } else {
                        assert(self.dungeon@[i] == old(self).room@[old(self).dungeon@.len() + 3
                            - i]);
                    }
                }
            }
        }
        FleeOutcome::Fled
    }

    /// Buys the card in 1-based shop slot `shop_idx`: when affordable, its
    /// value is paid and the card joins the back of the dungeon for the
    /// next floor; otherwise nothing changes.
    pub fn buy_card(&mut self, shop_idx: usize) -> (r: BuyOutcome)
        requires
            old(self).wf(),
        ensures
            final(self).wf(),
            (r is NoCard) == !(1 <= shop_idx <= old(self).shop_stock@.len()),
            !(r is Bought) ==> same_game(*old(self), *final(self)),
            1 <= shop_idx <= old(self).shop_stock@.len() ==> {
                let card = old(self).shop_stock@[shop_idx as int - 1];
                &&& (r is Bought) == (old(self).money >= card.value_spec())
                &&& old(self).money < card.value_spec() ==> r is CantAfford
                &&& r is Bought ==> {
                    &&& r == (BuyOutcome::Bought { card, price: card.value_spec() })
                    &&& final(self).money == old(self).money - card.value_spec()
                    &&& final(self).shop_stock@ == old(self).shop_stock@.remove(shop_idx as int - 1)
                    &&& final(self).dungeon@ == old(self).dungeon@.push(card)
                    &&& final(self).room@ == old(self).room@
                    &&& final(self).dungeon_discard@ == old(self).dungeon_discard@
                    &&& final(self).bosses@ == old(self).bosses@
                    &&& final(self).shop@ == old(self).shop@
                    &&& final(self).shop_discard@ == old(self).shop_discard@
                    &&& final(self).health == old(self).health
                    &&& final(self).weapon_damage == old(self).weapon_damage
                    &&& final(self).weapon_durability == old(self).weapon_durability
                    &&& final(self).fled == old(self).fled
                    &&& final(self).state == old(self).state
                }
            },
    {
        if shop_idx == 0 || shop_idx > self.shop_stock.len() {
            return BuyOutcome::NoCard;
        }
        let price = self.shop_stock[shop_idx - 1].get_value();
        if self.money >= price {
            let ghost stock0 = self.shop_stock@;
            self.money = self.money - price;
            let card = self.shop_stock.remove(shop_idx - 1);
            self.dungeon.push(card);
            proof {
                lemma_all_wf_remove(stock0, shop_idx as int - 1);
                assert(all_wf(self.dungeon@)) by {
                    assert forall|i: int| 0 <= i < self.dungeon@.len() implies (
                    #[trigger] self.dungeon@[i]).wf() by {
                        if i < old(self).dungeon@.len() {
                            assert(self.dungeon@[i] == old(self).dungeon@[i]);
                        }
                    }
                }
            }
            BuyOutcome::Bought { card, price }
        } else {
            BuyOutcome::CantAfford
        }
    }

    /// Takes the card in 1-based shop slot `shop_idx` without paying; a
    /// debugging back door kept off the normal command set.
    pub fn steal_card(&mut self, shop_idx: usize) -> (r: bool)
        requires
            old(self).wf(),
        ensures
            final(self).wf(),
            r == (1 <= shop_idx <= old(self).shop_stock@.len()),
            !r ==> same_game(*old(self), *final(self)),
            r ==> {
                &&& final(self).shop_stock@ == old(self).shop_stock@.remove(shop_idx as int - 1)
                &&& final(self).dungeon@ == old(self).dungeon@.push(
                    old(self).shop_stock@[shop_idx as int - 1],
                )
                &&& final(self).money == old(self).money
                &&& final(self).room@ == old(self).room@
                &&& final(self).dungeon_discard@ == old(self).dungeon_discard@
                &&& final(self).bosses@ == old(self).bosses@
                &&& final(self).shop@ == old(self).shop@
                &&& final(self).shop_discard@ == old(self).shop_discard@
                &&& final(self).health == old(self).health
                &&& final(self).weapon_damage == old(self).weapon_damage
                &&& final(self).weapon_durability == old(self).weapon_durability
                &&& final(self).fled == old(self).fled
                &&& final(self).state == old(self).state
            },
    {
        if shop_idx == 0 || shop_idx > self.shop_stock.len() {
            return false;
        }
        let ghost stock0 = self.shop_stock@;
        let card = self.shop_stock.remove(shop_idx - 1);
        self.dungeon.push(card);
        proof {
            lemma_all_wf_remove(stock0, shop_idx as int - 1);
            assert(all_wf(self.dungeon@)) by {
                assert forall|i: int| 0 <= i < self.dungeon@.len() implies (
                #[trigger] self.dungeon@[i]).wf() by {
                    if i < old(self).dungeon@.len() {
                        assert(self.dungeon@[i] == old(self).dungeon@[i]);
                    }
                }
            }
        }
        true
    }
}

impl Game {
    /// Leaves the shop: unsold stock moves to the shop discard; an empty
    /// shop pile is refilled from its discard and reshuffled; the two
    /// lowest bosses join the dungeon; then the next floor starts, with a
    /// silent room refresh. The game always lands in the Floor phase: the
    /// released bosses are monsters, so the fresh floor cannot already be
    /// complete, and the reset health cannot be zero.
    pub fn leave_shop(&mut self) -> (rep: ShopExit)
        requires
            old(self).wf(),
            old(self).state is Shop,
        ensures
            final(self).wf(),
            rep.boss1 == old(self).bosses@[0],
            rep.boss2 == old(self).bosses@[1],
            final(self).bosses@ == old(self).bosses@.skip(2),
            final(self).state is Floor,
            final(self).health == 12,
            final(self).weapon_damage == 0,
            final(self).weapon_durability == PRISTINE,
            final(self).money == old(self).money,
            final(self).fled == old(self).fled,
            final(self).shop_stock@.len() == 0,
            final(self).dungeon_discard@.len() == 0,
            rep.shop_restocked == (old(self).shop@.len() == 0),
            old(self).shop@.len() > 0 ==> final(self).shop@ == old(self).shop@
                && final(self).shop_discard@ == old(self).shop_discard@ + old(self).shop_stock@,
            old(self).shop@.len() == 0 ==> final(self).shop@.to_multiset()
                == old(self).shop_discard@.to_multiset().add(old(self).shop_stock@.to_multiset())
                && final(self).shop_discard@.len() == 0,
            final(self).dungeon@.to_multiset().add(final(self).room@.to_multiset())
                == old(self).dungeon@.to_multiset().add(old(self).room@.to_multiset()).add(
                old(self).dungeon_discard@.to_multiset(),
            ).insert(old(self).bosses@[0]).insert(old(self).bosses@[1]),
    {
        broadcast use vstd::seq_lib::group_to_multiset_ensures;
        broadcast use vstd::multiset::group_multiset_axioms;

        proof {
            assert(old(self).bosses@.len() >= 2);
        }
        let ghost sd0 = self.shop_discard@;
        let ghost st0 = self.shop_stock@;
        self.shop_discard.append(&mut self.shop_stock);
        proof {
            assert(all_wf(self.shop_discard@)) by {
                assert forall|i: int| 0 <= i < self.shop_discard@.len() implies (
                #[trigger] self.shop_discard@[i]).wf() by {
                    if i < sd0.len() {
                        assert(self.shop_discard@[i] == sd0[i]);
                    } else {
                        assert(self.shop_discard@[i] == st0[i - sd0.len()]);
                    }
                }
            }
        }
        let mut restocked = false;
        if self.shop.len() == 0 {
            let ghost sd1 = self.shop_discard@;
            self.shop.append(&mut self.shop_discard);
            proof {
                assert(self.shop@ =~= sd1);
                vstd::seq_lib::lemma_multiset_commutative(sd0, st0);
            }
            let ghost pre_shuffle = self.shop@;
            shuffle_cards(&mut self.shop);
            proof {
                lemma_all_wf_permutation(pre_shuffle, self.shop@);
            }
            restocked = true;
        }
        let b1 = self.bosses.remove(0);
        let b2 = self.bosses.remove(0);
        proof {
            assert(old(self).bosses@.remove(0).remove(0) =~= old(self).bosses@.skip(2));
            assert(b1 == old(self).bosses@[0]);
            assert(b2 == old(self).bosses@.remove(0)[0]);
            assert(b2 == old(self).bosses@[1]);
            lemma_sorted_skip(old(self).bosses@, 2);
            assert forall|i: int| 0 <= i < self.bosses@.len() implies is_boss_card(
                #[trigger] self.bosses@[i],
            ) by {
                assert(self.bosses@[i] == old(self).bosses@[i + 2]);
            }
            assert(all_wf(self.bosses@)) by {
                assert forall|i: int| 0 <= i < self.bosses@.len() implies (
                #[trigger] self.bosses@[i]).wf() by {
                    assert(self.bosses@[i] == old(self).bosses@[i + 2]);
                }
            }
            assert(is_boss_card(b1));
            assert(is_boss_card(b2));
        }
        let ghost d0 = self.dungeon@;
        self.dungeon.push(b1);
        self.dungeon.push(b2);
        self.state = GameState::Floor;
        proof {
            assert(all_wf(self.dungeon@)) by {
                assert forall|i: int| 0 <= i < self.dungeon@.len() implies (
                #[trigger] self.dungeon@[i]).wf() by {
                    if i < d0.len() {
                        assert(self.dungeon@[i] == d0[i]);
                    }
                }
            }
        }
        let ghost g_mid = *self;
        self.start_floor();
        let ghost g1 = *self;
        proof {
            // The dungeon now holds the released bosses, so the fresh floor
            // cannot already be complete.
            assert(g_mid.dungeon@.to_multiset().count(b1) > 0) by {
                assert(g_mid.dungeon@[d0.len() as int] == b1);
                assert(g_mid.dungeon@.contains(b1));
            }
            assert(g1.dungeon@.to_multiset().count(b1) > 0);
            assert(g1.dungeon@.contains(b1));
            assert(is_monster(b1));
            let n = restock_count(g1);
            if g1.dungeon@.len() <= 4 {
                assert(n == g1.dungeon@.len());
                assert(room_after_restock(g1) =~= g1.dungeon@);
                let i = choose|i: int| 0 <= i < g1.dungeon@.len() && g1.dungeon@[i] == b1;
                assert(is_monster(room_after_restock(g1)[i]));
                assert(room_has_monster(room_after_restock(g1)));
            } else {
                assert(dungeon_after_restock(g1).len() == g1.dungeon@.len() - 4);
            }
            assert(!floor_cleared(g1));
        }
        let _ = self.refresh_room(true);
        proof {
            let n = restock_count(g1);
            assert(g1.dungeon@.take(n) + g1.dungeon@.skip(n) =~= g1.dungeon@);
            vstd::seq_lib::lemma_multiset_commutative(g1.dungeon@.take(n), g1.dungeon@.skip(n));
            assert(g1.room@ + g1.dungeon@.take(n) =~= g1.dungeon@.take(n));
            vstd::seq_lib::lemma_multiset_commutative(d0, old(self).room@);
            vstd::seq_lib::lemma_multiset_commutative(
                d0 + old(self).room@,
                old(self).dungeon_discard@,
            );
            assert(g_mid.dungeon@ =~= d0.push(b1).push(b2));
        }
        ShopExit { shop_restocked: restocked, boss1: b1, boss2: b2 }
    }
}

/// Coin addition, stopping at the top of the range.
fn sat_add_coins(m: u32, v: u32) -> (r: u32)
    ensures
        r == sat_add(m, v),
{
    if m <= u32::MAX - v {
        m + v
    } else {
        u32::MAX
    }
}

/// Whether the room holds a monster, checked at run time.
fn room_monster_check(room: &Vec<Card>) -> (r: bool)
    ensures
        r == room_has_monster(room@),
{
    let mut i: usize = 0;
    loop
        invariant
            i <= room@.len(),
            forall|j: int| 0 <= j < i ==> !is_monster(#[trigger] room@[j]),
        decreases room@.len() - i,
    {
        if i == room.len() {
            return false;
        }
        match room[i] {
            Card::Regular { suit: Suit::Clubs, .. } | Card::Regular { suit: Suit::Spades, .. } => {
                return true;
            }
            _ => {}
        }
        i += 1;
    }
}

} // verus!

