//! The deck builder: the standard 54-card deck, its partition into dungeon,
//! shop and boss pools, and the sort applied to the boss pool.

use vstd::multiset::Multiset;
use vstd::prelude::*;

use crate::card::{
    is_boss_card, is_dropped_card, is_dungeon_card, is_shop_card, sorted_cards, Card, JokerColor,
    Suit,
};

verus! {

/// The card at position `i` of the freshly built (unshuffled) deck:
/// thirteen Hearts, thirteen Diamonds, thirteen Clubs, thirteen Spades,
/// each run ascending from Ace to King, then the black and the red joker.
pub open spec fn deck_card(i: int) -> Card {
    if i < 13 {
        Card::Regular { suit: Suit::Hearts, rank: (i + 1) as u8 }
    } else if i < 26 {
        Card::Regular { suit: Suit::Diamonds, rank: (i - 12) as u8 }
    } else if i < 39 {
        Card::Regular { suit: Suit::Clubs, rank: (i - 25) as u8 }
    } else if i < 52 {
        Card::Regular { suit: Suit::Spades, rank: (i - 38) as u8 }
    } else if i == 52 {
        Card::Joker { color: JokerColor::Black }
    } else {
        Card::Joker { color: JokerColor::Red }
    }
}

/// The full 54-card deck in build order.
pub open spec fn standard_deck() -> Seq<Card> {
    Seq::new(54, |i: int| deck_card(i))
}

/// The dungeon test as a reusable function value, so that every mention of
/// `filter` over it denotes the same predicate.
pub open spec fn dungeon_pred() -> spec_fn(Card) -> bool {
    |c: Card| is_dungeon_card(c)
}

/// The shop test as a reusable function value.
pub open spec fn shop_pred() -> spec_fn(Card) -> bool {
    |c: Card| is_shop_card(c)
}

/// The boss test as a reusable function value.
pub open spec fn boss_pred() -> spec_fn(Card) -> bool {
    |c: Card| is_boss_card(c)
}

/// The dropped-card test as a reusable function value.
pub open spec fn dropped_pred() -> spec_fn(Card) -> bool {
    |c: Card| is_dropped_card(c)
}

/// Law: the four classes cover every legal card, and no card falls in two
/// of them, so the deck builder accounts for each card exactly once.
pub proof fn lemma_card_classes(c: Card)
    requires
        c.wf(),
    ensures
        is_dungeon_card(c) || is_shop_card(c) || is_boss_card(c) || is_dropped_card(c),
        is_dungeon_card(c) ==> !is_shop_card(c) && !is_boss_card(c) && !is_dropped_card(c),
        is_shop_card(c) ==> !is_boss_card(c) && !is_dropped_card(c),
        is_boss_card(c) ==> !is_dropped_card(c),
{
}

/// Appending one element filters to the old result, extended by the element
/// when the predicate accepts it.
pub proof fn lemma_filter_push<A>(s: Seq<A>, x: A, p: spec_fn(A) -> bool)
    ensures
        s.push(x).filter(p) == (if p(x) {
            s.filter(p).push(x)
        } else {
            s.filter(p)
        }),
{
    reveal(Seq::filter);
    let q = s.push(x);
    assert(q.drop_last() =~= s);
    assert(q.last() == x);
}

/// Two sequences with the same cards (as a multiset) keep the same number of
/// cards under any filter: shuffling changes no count.
pub proof fn lemma_filter_len_permutation<A>(s: Seq<A>, t: Seq<A>, p: spec_fn(A) -> bool)
    requires
        s.to_multiset() == t.to_multiset(),
    ensures
        s.filter(p).len() == t.filter(p).len(),
    decreases s.len(),
{
    broadcast use vstd::seq_lib::group_to_multiset_ensures;

    if s.len() == 0 {
        assert(t.to_multiset().len() == 0);
        assert(t.len() == 0);
        reveal(Seq::filter);
    } else {
        let x = s.last();
        let n = s.len() - 1;
        assert(s[n] == x);
        assert(s.contains(x));
        assert(s.to_multiset().count(x) > 0);
        assert(t.to_multiset().count(x) > 0);
        assert(t.contains(x));
        let j = choose|j: int| 0 <= j < t.len() && t[j] == x;
        assert(s.drop_last() =~= s.remove(n));
        assert(s.remove(n).to_multiset() == s.to_multiset().remove(x));
        assert(t.remove(j).to_multiset() == t.to_multiset().remove(x));
        lemma_filter_len_permutation(s.drop_last(), t.remove(j), p);

        // The last element of s adds one accepted card exactly when p takes it.
        lemma_filter_push(s.drop_last(), x, p);
        assert(s.drop_last().push(x) =~= s);

        // The same element, removed from t, accounts for the same difference.
        let t0 = t.subrange(0, j);
        let t1 = t.subrange(j + 1, t.len() as int);
        assert(t =~= t0 + (seq![x] + t1));
        assert(t.remove(j) =~= t0 + t1);
        Seq::filter_distributes_over_add(t0, seq![x] + t1, p);
        Seq::filter_distributes_over_add(seq![x], t1, p);
        Seq::filter_distributes_over_add(t0, t1, p);
        assert(seq![x] =~= Seq::empty().push(x));
        lemma_filter_push(Seq::empty(), x, p);
        assert(Seq::<A>::empty().filter(p).len() == 0) by {
            reveal(Seq::filter);
        }
    }
}

/// Filtering commutes with forgetting the order: the filtered sequence
/// holds, as a multiset, exactly the accepted cards of the original.
pub proof fn lemma_filter_to_multiset<A>(s: Seq<A>, p: spec_fn(A) -> bool)
    ensures
        s.filter(p).to_multiset() == s.to_multiset().filter(p),
    decreases s.len(),
{
    broadcast use vstd::seq_lib::group_to_multiset_ensures;
    broadcast use vstd::multiset::group_multiset_axioms;

    if s.len() == 0 {
        reveal(Seq::filter);
        assert(s.to_multiset() =~= Multiset::<A>::empty());
        assert(s.to_multiset().filter(p) =~= Multiset::<A>::empty());
    } else {
        let x = s.last();
        let d = s.drop_last();
        lemma_filter_to_multiset(d, p);
        reveal(Seq::filter);
        assert(d.push(x) =~= s);
        assert(s.to_multiset() == d.to_multiset().insert(x));
        if p(x) {
            assert(d.to_multiset().insert(x).filter(p) =~= d.to_multiset().filter(p).insert(x));
            assert(s.filter(p) == d.filter(p).push(x));
        } else {
            assert(d.to_multiset().insert(x).filter(p) =~= d.to_multiset().filter(p));
            assert(s.filter(p) == d.filter(p));
        }
    }
}

/// The first `n` ranks of one suit, ascending from Ace.
pub open spec fn rank_run(s: Suit, n: int) -> Seq<Card> {
    Seq::new(n as nat, |i: int| Card::Regular { suit: s, rank: (i + 1) as u8 })
}

/// How many of the first `n` ranks of a suit land in each pool.
proof fn lemma_rank_run_counts(s: Suit, n: int)
    requires
        0 <= n <= 13,
    ensures
        rank_run(s, n).filter(dungeon_pred()).len() == (if n <= 3 {
            0int
        } else if n <= 9 {
            n - 3
        } else {
            6int
        }),
        rank_run(s, n).filter(shop_pred()).len() == (if (s == Suit::Hearts || s == Suit::Diamonds)
            && n > 9 {
            n - 9
        } else {
            0int
        }),
        rank_run(s, n).filter(boss_pred()).len() == (if (s == Suit::Clubs || s == Suit::Spades)
            && n > 9 {
            n - 9
        } else {
            0int
        }),
        rank_run(s, n).filter(dropped_pred()).len() == (if n <= 3 {
            n
        } else {
            3int
        }),
    decreases n,
{
    if n == 0 {
        assert(rank_run(s, 0).len() == 0);
        assert(rank_run(s, 0) =~= Seq::empty());
        reveal(Seq::filter);
    } else {
        lemma_rank_run_counts(s, n - 1);
        let c = Card::Regular { suit: s, rank: n as u8 };
        assert(rank_run(s, n) =~= rank_run(s, n - 1).push(c));
        lemma_filter_push(rank_run(s, n - 1), c, dungeon_pred());
        lemma_filter_push(rank_run(s, n - 1), c, shop_pred());
        lemma_filter_push(rank_run(s, n - 1), c, boss_pred());
        lemma_filter_push(rank_run(s, n - 1), c, dropped_pred());
    }
}

/// Pool sizes of the standard deck before any shuffle.
proof fn lemma_standard_deck_counts()
    ensures
        standard_deck().len() == 54,
        standard_deck().filter(dungeon_pred()).len() == 24,
        standard_deck().filter(shop_pred()).len() == 10,
        standard_deck().filter(boss_pred()).len() == 8,
        standard_deck().filter(dropped_pred()).len() == 12,
{
    let h = rank_run(Suit::Hearts, 13);
    let d = rank_run(Suit::Diamonds, 13);
    let c = rank_run(Suit::Clubs, 13);
    let s = rank_run(Suit::Spades, 13);
    let jb = Card::Joker { color: JokerColor::Black };
    let jr = Card::Joker { color: JokerColor::Red };
    let jokers = seq![jb, jr];
    assert(standard_deck() =~= h + d + c + s + jokers);

    broadcast use Seq::filter_distributes_over_add;

    lemma_rank_run_counts(Suit::Hearts, 13);
    lemma_rank_run_counts(Suit::Diamonds, 13);
    lemma_rank_run_counts(Suit::Clubs, 13);
    lemma_rank_run_counts(Suit::Spades, 13);

    assert(jokers =~= Seq::empty().push(jb).push(jr));
    lemma_filter_push(Seq::empty().push(jb), jr, dungeon_pred());
    lemma_filter_push(Seq::empty(), jb, dungeon_pred());
    lemma_filter_push(Seq::empty().push(jb), jr, shop_pred());
    lemma_filter_push(Seq::empty(), jb, shop_pred());
    lemma_filter_push(Seq::empty().push(jb), jr, boss_pred());
    lemma_filter_push(Seq::empty(), jb, boss_pred());
    lemma_filter_push(Seq::empty().push(jb), jr, dropped_pred());
    lemma_filter_push(Seq::empty(), jb, dropped_pred());
    assert(Seq::<Card>::empty().filter(dungeon_pred()).len() == 0) by {
        reveal(Seq::filter);
    }
    assert(Seq::<Card>::empty().filter(shop_pred()).len() == 0) by {
        reveal(Seq::filter);
    }
    assert(Seq::<Card>::empty().filter(boss_pred()).len() == 0) by {
        reveal(Seq::filter);
    }
    assert(Seq::<Card>::empty().filter(dropped_pred()).len() == 0) by {
        reveal(Seq::filter);
    }
}

/// Law: the deck builder partitions every shuffle of the standard deck the
/// same way. The dungeon receives the 24 cards of rank 4..9, the shop the
/// 8 cards of rank 10..13 in Hearts or Diamonds together with the 2 jokers,
/// the boss pool the 8 cards of rank 10..13 in Clubs or Spades, and the
/// 12 cards of rank Ace..3 are dropped; all 54 cards are accounted for.
pub proof fn lemma_partition_sizes(deck: Seq<Card>)
    requires
        deck.to_multiset() == standard_deck().to_multiset(),
    ensures
        deck.len() == 54,
        deck.filter(dungeon_pred()).len() == 24,
        deck.filter(shop_pred()).len() == 10,
        deck.filter(boss_pred()).len() == 8,
        deck.filter(dropped_pred()).len() == 12,
{
    broadcast use vstd::seq_lib::group_to_multiset_ensures;

    lemma_standard_deck_counts();
    lemma_filter_len_permutation(deck, standard_deck(), dungeon_pred());
    lemma_filter_len_permutation(deck, standard_deck(), shop_pred());
    lemma_filter_len_permutation(deck, standard_deck(), boss_pred());
    lemma_filter_len_permutation(deck, standard_deck(), dropped_pred());
    vstd::seq_lib::to_multiset_len(deck);
    vstd::seq_lib::to_multiset_len(standard_deck());
    assert(deck.to_multiset().len() == standard_deck().to_multiset().len());
}

/// Splits a deck into the dungeon, shop and boss pools, keeping the order in
/// which the cards arrive; cards of rank Ace..3 are dropped.
pub fn partition(deck: Vec<Card>) -> (r: (Vec<Card>, Vec<Card>, Vec<Card>))
    ensures
        r.0@ == deck@.filter(dungeon_pred()),
        r.1@ == deck@.filter(shop_pred()),
        r.2@ == deck@.filter(boss_pred()),
{
    let mut dungeon: Vec<Card> = Vec::new();
    let mut shop: Vec<Card> = Vec::new();
    let mut bosses: Vec<Card> = Vec::new();
    let ghost empty = Seq::<Card>::empty();
    proof {
        assert(empty.filter(dungeon_pred()).len() == 0 && empty.filter(shop_pred()).len() == 0
            && empty.filter(boss_pred()).len() == 0) by {
            reveal(Seq::filter);
        }
        assert(deck@.subrange(0, 0) =~= empty);
    }
    let n = deck.len();
    let mut i: usize = 0;
    while i < n
        invariant
            i <= n,
            n == deck@.len(),
            dungeon@ == deck@.subrange(0, i as int).filter(dungeon_pred()),
            shop@ == deck@.subrange(0, i as int).filter(shop_pred()),
            bosses@ == deck@.subrange(0, i as int).filter(boss_pred()),
        decreases n - i,
    {
        let c = deck[i];
        proof {
            let pre = deck@.subrange(0, i as int);
            assert(deck@.subrange(0, i + 1) =~= pre.push(deck@[i as int]));
            lemma_filter_push(pre, deck@[i as int], dungeon_pred());
            lemma_filter_push(pre, deck@[i as int], shop_pred());
            lemma_filter_push(pre, deck@[i as int], boss_pred());
        }
        match c {
            Card::Regular { suit, rank } => {
                if 4 <= rank && rank <= 9 {
                    dungeon.push(c);
                } else if 10 <= rank && rank <= 13 {
                    match suit {
                        Suit::Hearts | Suit::Diamonds => shop.push(c),
                        Suit::Clubs | Suit::Spades => bosses.push(c),
                    }
                }
            }
            Card::Joker { .. } => shop.push(c),
        }
        i += 1;
    }
    proof {
        assert(deck@.subrange(0, n as int) =~= deck@);
    }
    (dungeon, shop, bosses)
}

/// The position at which `c` belongs in the sorted pile `out`.
fn insert_pos(out: &Vec<Card>, c: &Card) -> (j: usize)
    requires
        sorted_cards(out@),
    ensures
        j <= out@.len(),
        forall|k: int| 0 <= k < j ==> #[trigger] out@[k].ord_key() <= c.ord_key(),
        forall|k: int| j <= k < out@.len() ==> c.ord_key() < #[trigger] out@[k].ord_key(),
{
    let mut j: usize = 0;
    loop
        invariant
            j <= out@.len(),
            sorted_cards(out@),
            forall|k: int| 0 <= k < j ==> #[trigger] out@[k].ord_key() <= c.ord_key(),
        decreases out@.len() - j,
    {
        if j == out.len() {
            return j;
        }
        if !out[j].le(c) {
            return j;
        }
        j += 1;
    }
}

/// Sorts a pile of cards ascending by the card order; the result holds
/// exactly the cards of the input.
pub fn sort_cards(input: Vec<Card>) -> (out: Vec<Card>)
    ensures
        sorted_cards(out@),
        out@.to_multiset() == input@.to_multiset(),
        out@.len() == input@.len(),
{
    broadcast use vstd::seq_lib::group_to_multiset_ensures;

    let mut out: Vec<Card> = Vec::new();
    proof {
        assert(input@.subrange(0, 0) =~= Seq::<Card>::empty());
        assert(out@.to_multiset() =~= input@.subrange(0, 0).to_multiset());
    }
    let n = input.len();
    let mut i: usize = 0;
    while i < n
        invariant
            i <= n,
            n == input@.len(),
            sorted_cards(out@),
            out@.to_multiset() == input@.subrange(0, i as int).to_multiset(),
            out@.len() == i,
        decreases n - i,
    {
        let c = input[i];
        let j = insert_pos(&out, &c);
        let ghost pre_out = out@;
        out.insert(j, c);
        proof {
            let pre = input@.subrange(0, i as int);
            assert(input@.subrange(0, i + 1) =~= pre.push(input@[i as int]));
            vstd::seq_lib::to_multiset_insert(pre_out, j as int, c);
            vstd::seq_lib::to_multiset_build(pre, c);
            assert(pre.push(c).to_multiset() == pre.to_multiset().insert(c));
        }
        i += 1;
    }
    proof {
        assert(input@.subrange(0, n as int) =~= input@);
    }
    out
}

/// A sorted pile stays sorted when cards are handed out from its front, as
/// the boss pool is, two at a time.
pub proof fn lemma_sorted_skip(s: Seq<Card>, n: int)
    requires
        sorted_cards(s),
        0 <= n <= s.len(),
    ensures
        sorted_cards(s.skip(n)),
{
    assert forall|i: int, j: int| 0 <= i <= j < s.skip(n).len() implies #[trigger] s.skip(n)[i].ord_key()
        <= #[trigger] s.skip(n)[j].ord_key() by {
        assert(s.skip(n)[i] == s[i + n]);
        assert(s.skip(n)[j] == s[j + n]);
    }
}

} // verus!
