//! The deterministic strategy of unattended players: which three cards to
//! pass, and which card to play.
use vstd::prelude::*;
use crate::card::{Cards, Transfer, NO_CARD, QUEEN_OF_SPADES, deck, is_card_pos, queen_of_spades_pos, lemma_view_empty, lemma_view_finite, lemma_view_single};
use crate::bits::lemma_named_cards;
use crate::card::{CLUBS, DIAMONDS, SPADES, HEARTS, TWO_OF_CLUBS, suit_cards, two_of_clubs_pos, lemma_masks};
use crate::game::Game;
use crate::player::Player;

verus! {

/// The cards the passing strategy has looked at once it reaches rank `r`
/// and has tried `k` suits of it (hearts, spades, diamonds, clubs in turn).
pub open spec fn passed_over(q: int, r: int, k: int) -> bool {
    is_card_pos(q) && (q % 16 > r || (q % 16 == r && 3 - q / 16 < k))
}

/// The order in which the passing strategy looks at cards, highest first:
/// by rank, then hearts, spades, diamonds, clubs.
pub open spec fn pass_order(p: int) -> int {
    4 * (p % 16) + p / 16
}

/// `d` is what the passing strategy picks from `hand`: the queen of spades
/// when held, then the cards first in `pass_order`, three in all (or the
/// whole hand when it holds fewer).
pub open spec fn is_pass_pick(hand: Cards, d: Set<int>) -> bool {
    &&& d.subset_of(hand@)
    &&& d.subset_of(deck())
    &&& d.finite()
    &&& d.len() <= 3
    &&& hand@.contains(queen_of_spades_pos()) ==> d.contains(queen_of_spades_pos())
    &&& hand@.subset_of(deck()) ==> d.len() == if hand@.len() < 3 { hand@.len() } else { 3 }
    &&& forall|p: int, q: int| d.contains(p) && p != queen_of_spades_pos() && hand@.contains(q) && is_card_pos(q)
        && !d.contains(q) ==> pass_order(q) < pass_order(p)
}

proof fn lemma_insert_len(s: Set<int>, p: int)
    requires
        s.finite(),
        !s.contains(p),
    ensures
        s.insert(p).len() == s.len() + 1,
        s.insert(p).finite(),
{
}

impl Cards {
    /// Chooses three cards to pass: the queen of spades when held, then the
    /// highest ranks, hearts before spades before diamonds before clubs.
    pub fn pick_three_cards(self) -> (r: Transfer)
        ensures
            r.src@ == self@.difference(r.dest@),
            is_pass_pick(self, r.dest@),
    {
        let mut src = self;
        let mut dest = Cards(NO_CARD);
        let mut passed: u8 = 0;
        proof {
            lemma_view_empty();
            lemma_view_finite(self);
            assert(self@.difference(Set::<int>::empty()) =~= self@);
        }
        if let Some(t) = self.transfer(Cards(QUEEN_OF_SPADES)) {
            src = t.src;
            dest = t.dest;
            passed = 1;
            proof {
                lemma_named_cards();
                lemma_view_single(44);
                assert(dest@ =~= set![queen_of_spades_pos()]);
            }
        } else {
            proof {
                lemma_named_cards();
                lemma_view_single(44);
                assert(!self@.contains(queen_of_spades_pos()));
            }
        }
        let mut rank: u8 = 14;
        while rank >= 2
            invariant
                1 <= rank <= 14,
                dest@.subset_of(self@),
                src@ == self@.difference(dest@),
                dest@.finite(),
                passed as int == dest@.len(),
                passed < 3,
                self@.contains(queen_of_spades_pos()) ==> dest@.contains(queen_of_spades_pos()),
                forall|q: int| self@.contains(q) && passed_over(q, rank as int, 0) ==> dest@.contains(q),
                forall|p: int| dest@.contains(p) && p != queen_of_spades_pos() ==> is_card_pos(p) && passed_over(p, rank as int, 0),
            decreases rank,
        {
            let mut k: u8 = 0;
            while k < 4
                invariant
                    2 <= rank <= 14,
                    k <= 4,
                    dest@.subset_of(self@),
                    src@ == self@.difference(dest@),
                    dest@.finite(),
                    passed as int == dest@.len(),
                    passed < 3,
                    self@.contains(queen_of_spades_pos()) ==> dest@.contains(queen_of_spades_pos()),
                    forall|q: int| self@.contains(q) && passed_over(q, rank as int, k as int) ==> dest@.contains(q),
                    forall|p: int| dest@.contains(p) && p != queen_of_spades_pos() ==> is_card_pos(p) && passed_over(p, rank as int, k as int),
                decreases 4 - k,
            {
                let base: u8 = 48 - 16 * k;
                let card = Cards::of(rank, base);
                let ghost pos = rank + base;
                assert(pos % 16 == rank as int && pos / 16 == 3 - k) by (nonlinear_arith)
                    requires
                        pos == rank + base,
                        base == 48 - 16 * k,
                        2 <= rank <= 14,
                        k < 4,
                ;
                assert(is_card_pos(pos) && passed_over(pos, rank as int, k + 1));
                if let Some(t) = (Transfer { src, dest }).transfer(card) {
                    proof {
                        assert(card@.contains(pos));
                        assert(src@.contains(pos));
                        lemma_insert_len(dest@, pos);
                        assert(t.dest@ =~= dest@.insert(pos));
                        assert(t.src@ =~= self@.difference(t.dest@));
                        assert forall|p: int| t.dest@.contains(p) && p != queen_of_spades_pos() implies is_card_pos(p) && passed_over(p, rank as int, k + 1) by {
                            if p != pos {
                                assert(dest@.contains(p));
                                assert(passed_over(p, rank as int, k as int));
                            }
                        }
                    }
                    src = t.src;
                    dest = t.dest;
                    passed = passed + 1;
                    assert forall|p: int| dest@.contains(p) && p != queen_of_spades_pos() implies is_card_pos(p) && passed_over(p, rank as int, k + 1) by {
                        assert(t.dest@.contains(p));
                    }
                    if passed == 3 {
                        proof {
                            lemma_view_finite(self);
                            vstd::set_lib::lemma_len_subset(dest@, self@);
                            assert forall|p: int, q: int| dest@.contains(p) && p != queen_of_spades_pos() && self@.contains(q) && is_card_pos(q)
                                && !dest@.contains(q) implies pass_order(q) < pass_order(p) by {
                                assert(t.dest@.contains(p));
                                assert(passed_over(p, rank as int, k + 1));
                                if passed_over(q, rank as int, k + 1) {
                                    if q != pos {
                                        assert(passed_over(q, rank as int, k as int));
                                    }
                                }
                                assert(!passed_over(q, rank as int, k + 1));
                            }
                        }
                        return Transfer { src, dest };
                    }
                } else {
                    proof {
                        assert(card@.contains(pos));
                        if src@.contains(pos) {
                            assert(card@.subset_of(src@));
                        }
                        assert forall|p: int| dest@.contains(p) && p != queen_of_spades_pos() implies is_card_pos(p) && passed_over(p, rank as int, k + 1) by {
                            assert(passed_over(p, rank as int, k as int));
                        }
                    }
                }
                assert(forall|p: int| dest@.contains(p) && p != queen_of_spades_pos() ==> is_card_pos(p) && passed_over(p, rank as int, k + 1));
                k = k + 1;
            }
            assert forall|q: int| self@.contains(q) && passed_over(q, rank - 1, 0) implies dest@.contains(q) by {
                assert(passed_over(q, rank as int, 4));
            }
            assert forall|p: int| dest@.contains(p) && p != queen_of_spades_pos() implies is_card_pos(p) && passed_over(p, rank - 1, 0) by {
                assert(passed_over(p, rank as int, 4));
            }
            rank = rank - 1;
        }
        proof {
            assert forall|q: int| self@.contains(q) && is_card_pos(q) implies dest@.contains(q) by {
                assert(passed_over(q, 1, 0));
            }
            if self@.subset_of(deck()) {
                assert(dest@ =~= self@);
            }
        }
        Transfer { src, dest }
    }
}


/// Player `who` holds the card at position `p`.
pub open spec fn held(g: Game, who: int, p: int) -> bool {
    is_card_pos(p) && g.players[who].hand@.contains(p)
}

/// How eager a leader is to lead suit `s` (0 clubs to 3 hearts), smallest
/// first: the short minor suits, spades only while holding nothing from the
/// queen up, hearts only once broken.
pub open spec fn lead_key(g: Game, who: int, s: int) -> int {
    let hand = g.players[who].hand;
    if s == 0 {
        hand@.intersect(Cards(CLUBS)@).len() as int
    } else if s == 1 {
        hand@.intersect(Cards(DIAMONDS)@).len() as int
    } else if s == 2 {
        if hand.0 & SPADES >= QUEEN_OF_SPADES { 14 } else { 1 }
    } else if g.discarded.meets(Cards(HEARTS)) {
        hand@.intersect(Cards(HEARTS)@).len() as int
    } else {
        15
    }
}

/// Leading after the first trick: the lowest card of the suit with the
/// smallest key, the lower suit on a tie.
pub open spec fn best_lead(g: Game, who: int, p: int) -> bool {
    &&& held(g, who, p)
    &&& forall|q: int| held(g, who, q) ==> lead_key(g, who, p / 16) < lead_key(g, who, q / 16) || (lead_key(g, who, p / 16)
        == lead_key(g, who, q / 16) && p <= q)
}

/// The base of the suit led (`NO_SUIT` when none is led).
pub open spec fn led_suit(g: Game) -> u8 {
    g.suit_mask.mask_to_suit_spec()
}

/// A card of the suit led in the hand of `who`.
pub open spec fn in_led(g: Game, who: int, p: int) -> bool {
    held(g, who, p) && led_suit(g) as int <= p < led_suit(g) + 16
}

/// The card at position `p` is lower than the trick's high card.
pub open spec fn under_high(g: Game, p: int) -> bool {
    (1u64 << (p as u64)) < g.high_card.0
}

pub open spec fn can_duck(g: Game, who: int) -> bool {
    exists|q: int| in_led(g, who, q) && under_high(g, q)
}

/// Spades are led under a card higher than the queen of spades, which `who` holds.
pub open spec fn queen_under(g: Game, who: int) -> bool {
    g.suit_mask.0 == SPADES && held(g, who, queen_of_spades_pos()) && QUEEN_OF_SPADES < g.high_card.0
}

/// One of the players still to play after `who` in this trick may hold the suit led.
pub open spec fn late_follow(g: Game, who: int) -> bool {
    let j1 = (who + 1) % 4;
    let j2 = (who + 2) % 4;
    let b = led_suit(g);
    j1 != g.under_the_gun && ((g.players[j1].suit_bits >> (b / 16)) & 1 == 1 || (j2 != g.under_the_gun
        && (g.players[j2].suit_bits >> (b / 16)) & 1 == 1))
}

/// The hand holds a card of the suit led other than the queen of spades, and
/// the suit led is not hearts.
pub open spec fn has_high_discard(g: Game, who: int) -> bool {
    led_suit(g) != 0x30 && exists|q: int| in_led(g, who, q) && q != queen_of_spades_pos()
}

/// Following suit: the highest card under the trick's high card (the queen of
/// spades first when spades run under a higher spade); if none, the lowest
/// card, or the highest safe one when nobody after may still follow.
pub open spec fn best_follow(g: Game, who: int, p: int) -> bool {
    if can_duck(g, who) {
        if queen_under(g, who) {
            p == queen_of_spades_pos()
        } else {
            in_led(g, who, p) && under_high(g, p) && forall|q: int| in_led(g, who, q) && under_high(g, q) ==> q <= p
        }
    } else if late_follow(g, who) || !has_high_discard(g, who) {
        in_led(g, who, p) && forall|q: int| in_led(g, who, q) ==> p <= q
    } else {
        in_led(g, who, p) && p != queen_of_spades_pos() && forall|q: int| in_led(g, who, q) && q != queen_of_spades_pos() ==> q <= p
    }
}

/// A card other than a heart that `who` may shed, the queen of spades not on the first trick.
pub open spec fn sheddable(g: Game, who: int, q: int) -> bool {
    held(g, who, q) && q < 48 && !(g.round == 1 && q == queen_of_spades_pos())
}

pub open spec fn highest_heart(g: Game, who: int, p: int) -> bool {
    held(g, who, p) && p >= 48 && forall|q: int| held(g, who, q) && q >= 48 ==> q <= p
}

/// Unable to follow: the queen of spades, then the highest heart (neither on
/// the first trick), then the highest other card by rank, spades before
/// diamonds before clubs, then the highest heart.
pub open spec fn best_void(g: Game, who: int, p: int) -> bool {
    if held(g, who, queen_of_spades_pos()) && g.round != 1 {
        p == queen_of_spades_pos()
    } else if (exists|q: int| held(g, who, q) && q >= 48) && g.round != 1 {
        highest_heart(g, who, p)
    } else if exists|q: int| sheddable(g, who, q) {
        sheddable(g, who, p) && forall|q: int| sheddable(g, who, q) ==> q % 16 < p % 16 || (q % 16 == p % 16 && q / 16 <= p / 16)
    } else {
        highest_heart(g, who, p)
    }
}

/// The card at `p` is the one the strategy plays for `who`.
pub open spec fn best_card(g: Game, who: int, p: int) -> bool {
    if who == g.under_the_gun {
        if g.round == 1 {
            p == two_of_clubs_pos() && held(g, who, p)
        } else {
            best_lead(g, who, p)
        }
    } else if g.players[who].hand.meets(g.suit_mask) {
        led_suit(g) != crate::card::NO_SUIT && best_follow(g, who, p)
    } else {
        best_void(g, who, p)
    }
}

/// The position of the card the strategy plays for `who`, if any.
pub open spec fn pick_choice(g: Game, who: int) -> Option<int> {
    if exists|p: int| best_card(g, who, p) {
        Some(choose|p: int| best_card(g, who, p))
    } else {
        None
    }
}

/// At most one card is the strategy's choice.
pub proof fn lemma_best_card_unique(g: Game, who: int, p1: int, p2: int)
    requires
        best_card(g, who, p1),
        best_card(g, who, p2),
    ensures
        p1 == p2,
{
    if who == g.under_the_gun && g.round != 1 {
        assert(held(g, who, p2) && held(g, who, p1));
    } else if who != g.under_the_gun && !g.players[who].hand.meets(g.suit_mask) {
        if !(held(g, who, queen_of_spades_pos()) && g.round != 1) && !((exists|q: int| held(g, who, q) && q >= 48) && g.round != 1)
            && (exists|q: int| sheddable(g, who, q)) {
            assert(sheddable(g, who, p1) && sheddable(g, who, p2));
            assert(p1 == 16 * (p1 / 16) + p1 % 16);
            assert(p2 == 16 * (p2 / 16) + p2 % 16);
        }
    }
}

proof fn lemma_pick_choice_is(g: Game, who: int, p: int)
    requires
        best_card(g, who, p),
    ensures
        pick_choice(g, who) == Some(p),
{
    let c = choose|q: int| best_card(g, who, q);
    lemma_best_card_unique(g, who, c, p);
}

proof fn lemma_holds_single(hand: Cards, c: Cards, p: int)
    requires
        c@ == set![p],
    ensures
        hand.holds(c) == hand@.contains(p),
{
    assert(c@.contains(p));
    if hand@.contains(p) {
        assert(c@.subset_of(hand@));
    }
}

/// A state in which `who` plays to a trick as the rules lead there: the hand
/// is made of cards of the deck, only the first trick's leader still holds
/// the two of clubs, the first trick is led in clubs, a leader leads into an
/// empty trick, and a follower follows a whole suit.
pub open spec fn in_play(g: Game, who: int) -> bool {
    &&& 1 <= g.round <= 13
    &&& g.players[who].hand@.subset_of(deck())
    &&& g.players[who].hand@.contains(two_of_clubs_pos()) ==> g.round == 1 && who == g.under_the_gun
    &&& g.round == 1 ==> g.suit_mask.0 == CLUBS
    &&& (who == g.under_the_gun && g.round != 1) ==> g.suit_mask@ == Set::<int>::empty()
    &&& who != g.under_the_gun ==> (g.suit_mask.0 == CLUBS || g.suit_mask.0 == DIAMONDS || g.suit_mask.0 == SPADES
        || g.suit_mask.0 == HEARTS)
}

/// Some single card of the hand of `who` breaks no rule.
pub open spec fn has_legal_card(g: Game, who: int) -> bool {
    exists|c: Cards, x: int| c@ == set![x] && crate::game::violation(g, who, c) is None
}

/// A hand holds at most the 13 cards of a suit.
proof fn lemma_suit_len(hand: Cards, b: int)
    requires
        b == 0 || b == 16 || b == 32 || b == 48,
    ensures
        hand@.intersect(suit_cards(b)).len() <= 13,
{
    let r = vstd::set_lib::set_int_range(b + 2, b + 15);
    assert(suit_cards(b) =~= r);
    vstd::set_lib::lemma_int_range(b + 2, b + 15);
    vstd::set_lib::lemma_len_subset(hand@.intersect(suit_cards(b)), r);
}

/// In play, the strategy's card breaks no rule whenever some card does.
pub proof fn lemma_strategy_plays_legally(g: Game, who: int, p: int, c: Cards)
    requires
        0 <= who < 4,
        in_play(g, who),
        has_legal_card(g, who),
        pick_choice(g, who) == Some(p),
        c@ == set![p],
    ensures
        crate::game::violation(g, who, c) is None,
{
    lemma_masks();
    lemma_named_cards();
    crate::card::lemma_view_single(2);
    crate::card::lemma_view_single(44);
    lemma_view_empty();
    let hand = g.players[who].hand;
    assert(best_card(g, who, p)) by {
        if !best_card(g, who, p) {
            assert(exists|q: int| best_card(g, who, q));
        }
    }
    assert(held(g, who, p));
    assert(hand.holds(c)) by {
        assert(c@.subset_of(hand@));
        assert(c@.contains(p));
    }
    assert(!(hand@.contains(two_of_clubs_pos()) && c@ != set![two_of_clubs_pos()]));
    let hearts = Cards(HEARTS);
    if hearts@.contains(p) {
        assert(c@.intersect(hearts@).contains(p));
    } else {
        assert(c@.intersect(hearts@) =~= Set::<int>::empty());
    }
    assert(c.meets(hearts) == (48 <= p));
    assert((c@ == set![queen_of_spades_pos()]) == (p == queen_of_spades_pos())) by {
        if c@ == set![queen_of_spades_pos()] {
            assert(c@.contains(queen_of_spades_pos()));
        }
    }
    if who == g.under_the_gun {
        if g.round == 1 {
            assert(c@.intersect(g.suit_mask@).contains(two_of_clubs_pos()));
            assert(hand@.intersect(g.suit_mask@).contains(two_of_clubs_pos()));
        } else {
            if c.meets(hearts) && !hand@.subset_of(hearts@) && !g.discarded.meets(hearts) {
                if !hearts@.contains(p) {
                    assert(c@.intersect(hearts@) =~= Set::<int>::empty());
                }
                assert(48 <= p);
                let q = choose|q: int| hand@.contains(q) && !hearts@.contains(q);
                assert(held(g, who, q));
                assert(q < 48);
                assert(lead_key(g, who, p / 16) == 15);
                lemma_suit_len(hand, 0);
                lemma_suit_len(hand, 16);
                assert(lead_key(g, who, q / 16) <= 14);
            }
        }
    } else if hand.meets(g.suit_mask) {
        assert(in_led(g, who, p));
        assert(c@.intersect(g.suit_mask@).contains(p));
        if c.meets(hearts) {
            if !hearts@.contains(p) {
                assert(c@.intersect(hearts@) =~= Set::<int>::empty());
            }
            assert(48 <= p);
            assert(g.suit_mask.0 == HEARTS);
        }
    } else {
        assert(hand@.intersect(g.suit_mask@) =~= Set::<int>::empty());
        if g.round == 1 && !(held(g, who, queen_of_spades_pos()) && g.round != 1) && !(exists|q: int| sheddable(g, who, q))
            && highest_heart(g, who, p) && !hand@.subset_of(hearts@) {
            let (c0, x0) = choose|c0: Cards, x0: int| c0@ == set![x0] && crate::game::violation(g, who, c0) is None;
            assert(c0@.contains(x0));
            assert(hand@.contains(x0)) by {
                assert(c0@.subset_of(hand@));
            }
            let q = choose|q: int| hand@.contains(q) && !hearts@.contains(q);
            assert(held(g, who, q) && q < 48);
            assert(!sheddable(g, who, q));
            assert(q == queen_of_spades_pos());
            assert(held(g, who, x0));
            if x0 < 48 {
                assert(!sheddable(g, who, x0));
                assert(x0 == queen_of_spades_pos());
                assert(c0@ == set![queen_of_spades_pos()]);
            } else {
                assert(c0@.intersect(hearts@).contains(x0));
            }
        }
    }
}

/// The strategy reads only the state of play: two games that agree on the
/// players, the cards played, the trick in progress and its leader get the
/// same card.
pub proof fn lemma_pick_choice_reads_play(g1: Game, g2: Game, who: int)
    requires
        0 <= who < 4,
        g1.players == g2.players,
        g1.discarded == g2.discarded,
        g1.suit_mask == g2.suit_mask,
        g1.round == g2.round,
        g1.under_the_gun == g2.under_the_gun,
        g1.high_card == g2.high_card,
    ensures
        pick_choice(g1, who) == pick_choice(g2, who),
{
    assert(forall|q: int| #[trigger] held(g1, who, q) == held(g2, who, q));
    assert(forall|s: int| #[trigger] lead_key(g1, who, s) == lead_key(g2, who, s));
    assert(forall|q: int| #[trigger] in_led(g1, who, q) == in_led(g2, who, q));
    assert(forall|q: int| #[trigger] under_high(g1, q) == under_high(g2, q));
    assert(forall|q: int| #[trigger] sheddable(g1, who, q) == sheddable(g2, who, q));
    assert(can_duck(g1, who) == can_duck(g2, who)) by {
        if can_duck(g1, who) {
            let q = choose|q: int| in_led(g1, who, q) && under_high(g1, q);
            assert(in_led(g2, who, q) && under_high(g2, q));
        }
        if can_duck(g2, who) {
            let q = choose|q: int| in_led(g2, who, q) && under_high(g2, q);
            assert(in_led(g1, who, q) && under_high(g1, q));
        }
    }
    assert(has_high_discard(g1, who) == has_high_discard(g2, who)) by {
        if has_high_discard(g1, who) {
            let q = choose|q: int| in_led(g1, who, q) && q != queen_of_spades_pos();
            assert(in_led(g2, who, q));
        }
        if has_high_discard(g2, who) {
            let q = choose|q: int| in_led(g2, who, q) && q != queen_of_spades_pos();
            assert(in_led(g1, who, q));
        }
    }
    assert((exists|q: int| held(g1, who, q) && q >= 48) == (exists|q: int| held(g2, who, q) && q >= 48)) by {
        if exists|q: int| held(g1, who, q) && q >= 48 {
            let q = choose|q: int| held(g1, who, q) && q >= 48;
            assert(held(g2, who, q));
        }
        if exists|q: int| held(g2, who, q) && q >= 48 {
            let q = choose|q: int| held(g2, who, q) && q >= 48;
            assert(held(g1, who, q));
        }
    }
    assert((exists|q: int| sheddable(g1, who, q)) == (exists|q: int| sheddable(g2, who, q))) by {
        if exists|q: int| sheddable(g1, who, q) {
            let q = choose|q: int| sheddable(g1, who, q);
            assert(sheddable(g2, who, q));
        }
        if exists|q: int| sheddable(g2, who, q) {
            let q = choose|q: int| sheddable(g2, who, q);
            assert(sheddable(g1, who, q));
        }
    }
    assert(late_follow(g1, who) == late_follow(g2, who));
    assert(queen_under(g1, who) == queen_under(g2, who));
    assert forall|p: int| best_card(g1, who, p) == best_card(g2, who, p) by {
        if best_lead(g1, who, p) {
            assert forall|q: int| held(g2, who, q) implies lead_key(g2, who, p / 16) < lead_key(g2, who, q / 16) || (lead_key(g2, who, p / 16)
                == lead_key(g2, who, q / 16) && p <= q) by {
                assert(held(g1, who, q));
            }
        }
        if best_lead(g2, who, p) {
            assert forall|q: int| held(g1, who, q) implies lead_key(g1, who, p / 16) < lead_key(g1, who, q / 16) || (lead_key(g1, who, p / 16)
                == lead_key(g1, who, q / 16) && p <= q) by {
                assert(held(g2, who, q));
            }
        }
        if highest_heart(g1, who, p) {
            assert forall|q: int| held(g2, who, q) && q >= 48 implies q <= p by {
                assert(held(g1, who, q));
            }
        }
        if highest_heart(g2, who, p) {
            assert forall|q: int| held(g1, who, q) && q >= 48 implies q <= p by {
                assert(held(g2, who, q));
            }
        }
        assert((forall|q: int| in_led(g1, who, q) && under_high(g1, q) ==> q <= p) ==> (forall|q: int| in_led(g2, who, q) && under_high(g2, q) ==> q <= p)) by {
            if forall|q: int| in_led(g1, who, q) && under_high(g1, q) ==> q <= p {
                assert forall|q: int| in_led(g2, who, q) && under_high(g2, q) implies q <= p by {
                    assert(in_led(g1, who, q) && under_high(g1, q));
                }
            }
        }
        assert((forall|q: int| in_led(g1, who, q) ==> p <= q) ==> (forall|q: int| in_led(g2, who, q) ==> p <= q)) by {
            if forall|q: int| in_led(g1, who, q) ==> p <= q {
                assert forall|q: int| in_led(g2, who, q) implies p <= q by {
                    assert(in_led(g1, who, q));
                }
            }
        }
        assert((forall|q: int| in_led(g1, who, q) && q != queen_of_spades_pos() ==> q <= p) ==> (forall|q: int| in_led(g2, who, q) && q != queen_of_spades_pos() ==> q <= p)) by {
            if forall|q: int| in_led(g1, who, q) && q != queen_of_spades_pos() ==> q <= p {
                assert forall|q: int| in_led(g2, who, q) && q != queen_of_spades_pos() implies q <= p by {
                    assert(in_led(g1, who, q));
                }
            }
        }
        assert((forall|q: int| sheddable(g1, who, q) ==> q % 16 < p % 16 || (q % 16 == p % 16 && q / 16 <= p / 16)) ==> (forall|q: int| sheddable(g2, who, q) ==> q % 16 < p % 16 || (q % 16 == p % 16 && q / 16 <= p / 16))) by {
            if forall|q: int| sheddable(g1, who, q) ==> q % 16 < p % 16 || (q % 16 == p % 16 && q / 16 <= p / 16) {
                assert forall|q: int| sheddable(g2, who, q) implies q % 16 < p % 16 || (q % 16 == p % 16 && q / 16 <= p / 16) by {
                    assert(sheddable(g1, who, q));
                }
            }
        }
        assert((forall|q: int| in_led(g2, who, q) && under_high(g2, q) ==> q <= p) ==> (forall|q: int| in_led(g1, who, q) && under_high(g1, q) ==> q <= p)) by {
            if forall|q: int| in_led(g2, who, q) && under_high(g2, q) ==> q <= p {
                assert forall|q: int| in_led(g1, who, q) && under_high(g1, q) implies q <= p by {
                    assert(in_led(g2, who, q) && under_high(g2, q));
                }
            }
        }
        assert((forall|q: int| in_led(g2, who, q) ==> p <= q) ==> (forall|q: int| in_led(g1, who, q) ==> p <= q)) by {
            if forall|q: int| in_led(g2, who, q) ==> p <= q {
                assert forall|q: int| in_led(g1, who, q) implies p <= q by {
                    assert(in_led(g2, who, q));
                }
            }
        }
        assert((forall|q: int| in_led(g2, who, q) && q != queen_of_spades_pos() ==> q <= p) ==> (forall|q: int| in_led(g1, who, q) && q != queen_of_spades_pos() ==> q <= p)) by {
            if forall|q: int| in_led(g2, who, q) && q != queen_of_spades_pos() ==> q <= p {
                assert forall|q: int| in_led(g1, who, q) && q != queen_of_spades_pos() implies q <= p by {
                    assert(in_led(g2, who, q));
                }
            }
        }
        assert((forall|q: int| sheddable(g2, who, q) ==> q % 16 < p % 16 || (q % 16 == p % 16 && q / 16 <= p / 16)) ==> (forall|q: int| sheddable(g1, who, q) ==> q % 16 < p % 16 || (q % 16 == p % 16 && q / 16 <= p / 16))) by {
            if forall|q: int| sheddable(g2, who, q) ==> q % 16 < p % 16 || (q % 16 == p % 16 && q / 16 <= p / 16) {
                assert forall|q: int| sheddable(g1, who, q) implies q % 16 < p % 16 || (q % 16 == p % 16 && q / 16 <= p / 16) by {
                    assert(sheddable(g2, who, q));
                }
            }
        }
        assert(best_lead(g1, who, p) == best_lead(g2, who, p));
        assert(best_follow(g1, who, p) == best_follow(g2, who, p));
        assert(highest_heart(g1, who, p) == highest_heart(g2, who, p));
        assert(best_void(g1, who, p) == best_void(g2, who, p));
    }
    if exists|p: int| best_card(g1, who, p) {
        let p = choose|p: int| best_card(g1, who, p);
        lemma_pick_choice_is(g1, who, p);
        lemma_pick_choice_is(g2, who, p);
    }
}

/// The lowest rank of suit `base` in the hand.
fn lowest_rank(hand: Cards, base: u8) -> (r: Option<u8>)
    requires
        base == 0 || base == 16 || base == 32 || base == 48,
    ensures
        r matches Some(k) ==> 2 <= k <= 14 && hand@.contains(base + k) && forall|q: int| base + 2 <= q < base + k ==> !hand@.contains(q),
        r is None ==> forall|q: int| base + 2 <= q <= base + 14 ==> !hand@.contains(q),
{
    let mut rank: u8 = 2;
    while rank <= 14
        invariant
            2 <= rank <= 15,
            base == 0 || base == 16 || base == 32 || base == 48,
            forall|p: int| base + 2 <= p < base + rank ==> !hand@.contains(p),
        decreases 15 - rank,
    {
        let card = Cards::of(rank, base);
        assert(card@.contains(rank + base));
        if hand.contains(card) {
            return Some(rank);
        }
        proof {
            if hand@.contains(rank + base) {
                assert(card@ =~= set![rank + base]);
                assert(card@.subset_of(hand@));
            }
        }
        rank = rank + 1;
    }
    None
}

/// The highest rank of suit `base` in the hand.
fn highest_rank(hand: Cards, base: u8) -> (r: Option<u8>)
    requires
        base == 0 || base == 16 || base == 32 || base == 48,
    ensures
        r matches Some(k) ==> 2 <= k <= 14 && hand@.contains(base + k) && forall|q: int| base + k < q <= base + 14 ==> !hand@.contains(q),
        r is None ==> forall|q: int| base + 2 <= q <= base + 14 ==> !hand@.contains(q),
{
    let mut rank: u8 = 14;
    while rank >= 2
        invariant
            1 <= rank <= 14,
            base == 0 || base == 16 || base == 32 || base == 48,
            forall|p: int| base + rank < p <= base + 14 ==> !hand@.contains(p),
        decreases rank,
    {
        let card = Cards::of(rank, base);
        assert(card@.contains(rank + base));
        if hand.contains(card) {
            return Some(rank);
        }
        proof {
            if hand@.contains(rank + base) {
                assert(card@ =~= set![rank + base]);
                assert(card@.subset_of(hand@));
            }
        }
        rank = rank - 1;
    }
    None
}

impl Game {
    /// Moves `card` out of the hand of `who`, when the hand holds it.
    pub fn transfer_card(&self, who: usize, card: Cards) -> (r: Option<Transfer>)
        requires
            who < 4,
        ensures
            r.is_some() == self.players[who as int].hand.holds(card),
            r matches Some(t) ==> t@ == (self.players[who as int].hand@.difference(card@), card@),
    {
        self.players[who].hand.transfer(card)
    }

    /// Plays the card at position `p` of the hand of `who`, the strategy's choice.
    fn play(&self, who: usize, card: Cards, Ghost(p): Ghost<int>) -> (r: Option<Transfer>)
        requires
            who < 4,
            card@ == set![p],
            best_card(*self, who as int, p),
        ensures
            pick_choice(*self, who as int) == Some(p),
            r matches Some(t) && t.dest@ == set![p] && t.src@ == self.players[who as int].hand@.difference(set![p]),
    {
        proof {
            lemma_pick_choice_is(*self, who as int, p);
            if who == self.under_the_gun && self.round == 1 {
            } else if who == self.under_the_gun {
            } else if self.players[who as int].hand.meets(self.suit_mask) {
                if can_duck(*self, who as int) && queen_under(*self, who as int) {
                    assert(held(*self, who as int, p));
                } else {
                    assert(held(*self, who as int, p));
                }
            } else {
                assert(held(*self, who as int, p));
            }
        }
        assert(card@.subset_of(self.players[who as int].hand@));
        assert(card@.contains(p));
        self.transfer_card(who, card)
    }

    /// The card that the strategy plays for `who` (see `best_card`): the two
    /// of clubs to open the first trick; as leader, the lowest card of the
    /// shortest safe suit; when following, the highest card that stays under
    /// the trick, else the lowest (or, when nobody after may still follow, the
    /// highest); when unable to follow, the queen of spades, then the highest
    /// heart, then the highest card. `None` when no card fits, which a
    /// consistent state never gives.
    pub fn pick_card(&self, who: usize) -> (r: Option<Transfer>)
        requires
            who < 4,
        ensures
            ({
                let hand = self.players[who as int].hand;
                &&& match pick_choice(*self, who as int) {
                    Some(p) => r matches Some(t) && t.dest@ == set![p] && t.src@ == hand@.difference(set![p]),
                    None => r is None,
                }
                &&& (who != self.under_the_gun && hand.meets(self.suit_mask) && r is Some) ==> r->0.dest@.subset_of(self.suit_mask@)
                &&& (who == self.under_the_gun && self.round == 1) ==> (r is Some <==> hand@.contains(two_of_clubs_pos()))
                &&& (who == self.under_the_gun && self.round == 1 && r is Some) ==> r->0.dest@ == set![two_of_clubs_pos()]
                &&& (hand@ != Set::<int>::empty() && hand@.subset_of(crate::card::deck())
                    && (who == self.under_the_gun && self.round == 1 ==> hand@.contains(two_of_clubs_pos()))
                    && (self.suit_mask@ == Set::<int>::empty() || self.suit_mask.0 == CLUBS || self.suit_mask.0 == DIAMONDS
                        || self.suit_mask.0 == SPADES || self.suit_mask.0 == HEARTS)
                    && !(self.round == 1 && hand@ == set![queen_of_spades_pos()])) ==> r is Some
                &&& (in_play(*self, who as int) && has_legal_card(*self, who as int) && r is Some)
                    ==> crate::game::violation(*self, who as int, r->0.dest) is None
            }),
    {
        let r = self.strategy_card(who);
        proof {
            if in_play(*self, who as int) && has_legal_card(*self, who as int) && r is Some {
                let p = pick_choice(*self, who as int)->0;
                lemma_strategy_plays_legally(*self, who as int, p, r->0.dest);
            }
        }
        r
    }

    /// The strategy's card for `who`, found by scanning the hand.
    fn strategy_card(&self, who: usize) -> (r: Option<Transfer>)
        requires
            who < 4,
        ensures
            ({
                let hand = self.players[who as int].hand;
                &&& match pick_choice(*self, who as int) {
                    Some(p) => r matches Some(t) && t.dest@ == set![p] && t.src@ == hand@.difference(set![p]),
                    None => r is None,
                }
                &&& (who != self.under_the_gun && hand.meets(self.suit_mask) && r is Some) ==> r->0.dest@.subset_of(self.suit_mask@)
                &&& (who == self.under_the_gun && self.round == 1) ==> (r is Some <==> hand@.contains(two_of_clubs_pos()))
                &&& (who == self.under_the_gun && self.round == 1 && r is Some) ==> r->0.dest@ == set![two_of_clubs_pos()]
                &&& (hand@ != Set::<int>::empty() && hand@.subset_of(crate::card::deck())
                    && (who == self.under_the_gun && self.round == 1 ==> hand@.contains(two_of_clubs_pos()))
                    && (self.suit_mask@ == Set::<int>::empty() || self.suit_mask.0 == CLUBS || self.suit_mask.0 == DIAMONDS
                        || self.suit_mask.0 == SPADES || self.suit_mask.0 == HEARTS)
                    && !(self.round == 1 && hand@ == set![queen_of_spades_pos()])) ==> r is Some
            }),
    {
        let hand = self.players[who].hand;
        let ghost g = *self;
        let ghost w = who as int;
        proof {
            lemma_masks();
            lemma_named_cards();
            crate::card::lemma_view_single(2);
            crate::card::lemma_view_single(44);
            lemma_view_empty();
        }
        if self.under_the_gun == who {
            if self.round == 1 {
                let two = Cards(TWO_OF_CLUBS);
                assert(two@ =~= set![two_of_clubs_pos()]);
                assert(two@.contains(two_of_clubs_pos()));
                if hand.contains(two) {
                    return self.play(who, two, Ghost(two_of_clubs_pos()));
                }
                proof {
                    if hand@.contains(two_of_clubs_pos()) {
                        assert(two@.subset_of(hand@));
                    }
                    assert forall|p: int| !best_card(g, w, p) by {}
                }
                return None;
            }
            let keys: [u8; 4] = [
                hand.count_suit(Cards(CLUBS)),
                hand.count_suit(Cards(DIAMONDS)),
                if hand.intersect(Cards(SPADES)).0 >= QUEEN_OF_SPADES { 14 } else { 1 },
                if self.heart_broken() { hand.count_suit(Cards(HEARTS)) } else { 15 },
            ];
            assert(forall|k: int| 0 <= k < 4 ==> keys[k] as int == lead_key(g, w, k));
            let mut v: u16 = 0;
            while v <= 255
                invariant
                    v <= 256,
                    who < 4,
                    g == *self,
                    w == who,
                    who == self.under_the_gun,
                    self.round != 1,
                    hand == self.players[who as int].hand,
                    forall|k: int| 0 <= k < 4 ==> keys[k] as int == lead_key(g, w, k),
                    forall|q: int| held(g, w, q) ==> keys[q / 16] >= v,
                decreases 256 - v,
            {
                let mut k: u8 = 0;
                while k < 4
                    invariant
                        v <= 255,
                        k <= 4,
                        who < 4,
                        g == *self,
                        w == who,
                        who == self.under_the_gun,
                        self.round != 1,
                        hand == self.players[who as int].hand,
                        forall|k: int| 0 <= k < 4 ==> keys[k] as int == lead_key(g, w, k),
                        forall|q: int| held(g, w, q) ==> keys[q / 16] >= v,
                        forall|q: int| held(g, w, q) && keys[q / 16] == v ==> q / 16 >= k,
                    decreases 4 - k,
                {
                    if keys[k as usize] as u16 == v {
                        if let Some(rank) = lowest_rank(hand, k * 16) {
                            let card = Cards::of(rank, k * 16);
                            let ghost p = rank + 16 * k;
                            assert(p / 16 == k as int);
                            assert(best_lead(g, w, p)) by {
                                assert forall|q: int| held(g, w, q) implies lead_key(g, w, p / 16) < lead_key(g, w, q / 16) || (lead_key(g, w, p / 16)
                                    == lead_key(g, w, q / 16) && p <= q) by {
                                    if q / 16 == k as int {
                                        assert(!(16 * k + 2 <= q < p));
                                    }
                                }
                            }
                            return self.play(who, card, Ghost(p));
                        }
                        assert forall|q: int| held(g, w, q) && keys[q / 16] == v implies q / 16 >= k + 1 by {
                            if q / 16 == k as int {
                                assert(16 * k + 2 <= q <= 16 * k + 14);
                            }
                        }
                    }
                    k = k + 1;
                }
                v = v + 1;
            }
            proof {
                assert forall|p: int| !best_card(g, w, p) by {
                    if held(g, w, p) {
                        assert(keys[p / 16] >= 256);
                    }
                }
                assert forall|p: int| hand@.contains(p) && crate::card::deck().contains(p) implies false by {
                    assert(held(g, w, p));
                    assert(keys[p / 16] >= 256);
                }
                if hand@.subset_of(crate::card::deck()) {
                    assert(hand@ =~= Set::<int>::empty());
                }
            }
            None
        } else if hand.contains_suit(self.suit_mask) {
            let suit = self.suit_mask.mask_to_suit();
            if suit == crate::card::NO_SUIT {
                proof {
                    if self.suit_mask@ == Set::<int>::empty() {
                        assert(hand@.intersect(self.suit_mask@) =~= Set::<int>::empty());
                    }
                    assert forall|p: int| !best_card(g, w, p) by {}
                }
                return None;
            }
            let ghost b = suit as int;
            assert(self.suit_mask@ == suit_cards(b));
            let mut to_discard = Cards::of(crate::card::ACE, suit);
            let mut high_card_to_discard = Cards(NO_CARD);
            let ghost mut td: int = b + 14;
            proof {
                crate::card::lemma_card_word(to_discard, b + 14);
            }
            let ghost mut hd: int = -1;
            let mut rank: u8 = 14;
            while rank >= 2
                invariant
                    1 <= rank <= 14,
                    suit == 0 || suit == 16 || suit == 32 || suit == 48,
                    b == suit as int,
                    who < 4,
                    g == *self,
                    w == who,
                    suit == led_suit(g),
                    who != self.under_the_gun,
                    hand == self.players[who as int].hand,
                    hand.meets(self.suit_mask),
                    self.suit_mask@ == suit_cards(b),
                    forall|q: int| b + rank < q <= b + 14 && in_led(g, w, q) ==> !under_high(g, q),
                    to_discard@ == set![td],
                    to_discard.0 == 1u64 << (td as u64),
                    b + rank <= td <= b + 14,
                    td == b + 14 || in_led(g, w, td),
                    forall|q: int| b + rank < q <= b + 14 && in_led(g, w, q) ==> in_led(g, w, td) && td <= q,
                    hd == -1 ==> high_card_to_discard.0 == 0 && high_card_to_discard@ == Set::<int>::empty()
                        && forall|q: int| b + rank < q <= b + 14 && in_led(g, w, q) ==> b == 48 || q == 44,
                    hd != -1 ==> high_card_to_discard@ == set![hd] && high_card_to_discard.0 == 1u64 << (hd as u64)
                        && in_led(g, w, hd) && hd != 44 && b != 48 && b + rank < hd <= b + 14
                        && forall|q: int| b + rank < q <= b + 14 && in_led(g, w, q) && q != 44 ==> q <= hd,
                decreases rank,
            {
                let card = Cards::of(rank, suit);
                let ghost p = rank + b;
                assert(card@.contains(p));
                proof {
                    lemma_masks();
                    lemma_named_cards();
                    crate::card::lemma_view_single(44);
                    crate::card::lemma_card_word(card, p);
                    crate::bits::lemma_shift_order(p as u64, td as u64);
                    crate::bits::lemma_shift_order(p as u64, 44);
                    if hd != -1 {
                        crate::bits::lemma_shift_order(p as u64, hd as u64);
                    }
                    crate::bits::lemma_shift_order(0, p as u64);
                }
                if hand.contains(card) {
                    assert(in_led(g, w, p));
                    if card.0 < self.high_card.0 {
                        assert(under_high(g, p));
                        if self.suit_mask.0 == SPADES && hand.contains(Cards(QUEEN_OF_SPADES)) && QUEEN_OF_SPADES < self.high_card.0 {
                            let q = Cards(QUEEN_OF_SPADES);
                            assert(q@ =~= set![queen_of_spades_pos()]);
                            assert(q@.contains(queen_of_spades_pos()));
                            assert(q@.subset_of(hand@));
                            assert(best_card(g, w, queen_of_spades_pos()));
                            return self.play(who, q, Ghost(queen_of_spades_pos()));
                        }
                        proof {
                            lemma_holds_single(hand, Cards(QUEEN_OF_SPADES), queen_of_spades_pos());
                            assert(!queen_under(g, w));
                            assert forall|q: int| in_led(g, w, q) && under_high(g, q) implies q <= p by {
                                if q > p {
                                    assert(b + rank < q <= b + 14);
                                }
                            }
                        }
                        assert(best_card(g, w, p));
                        return self.play(who, card, Ghost(p));
                    }
                    if to_discard.0 >= card.0 {
                        to_discard = card;
                        proof {
                            td = p;
                        }
                        if high_card_to_discard.0 < card.0 && suit != crate::card::HEART && card.0 != QUEEN_OF_SPADES {
                            high_card_to_discard = card;
                            proof {
                                hd = p;
                            }
                        }
                    }
                } else {
                    proof {
                        if hand@.contains(p) {
                            assert(card@.subset_of(hand@));
                        }
                    }
                }
                rank = rank - 1;
            }
            let j1 = (who + 1) % 4;
            let j2 = (who + 2) % 4;
            let late_hand_follows = j1 != self.under_the_gun && (self.players[j1].may_have(suit) || (j2 != self.under_the_gun
                && self.players[j2].may_have(suit)));
            assert(late_hand_follows == late_follow(g, w));
            proof {
                if !(exists|p: int| hand@.intersect(self.suit_mask@).contains(p)) {
                    assert(hand@.intersect(self.suit_mask@) =~= Set::<int>::empty());
                }
                let p0 = choose|p: int| hand@.intersect(self.suit_mask@).contains(p);
                assert(in_led(g, w, p0));
            }
            assert(!can_duck(g, w));
            assert(has_high_discard(g, w) <==> hd != -1);
            if late_hand_follows || high_card_to_discard.is_empty() {
                assert(in_led(g, w, td));
                assert forall|q: int| in_led(g, w, q) implies td <= q by {
                    assert(b + 1 < q <= b + 14);
                }
                assert(hd != -1 ==> high_card_to_discard@.contains(hd));
                assert(late_follow(g, w) || !has_high_discard(g, w));
                assert(best_follow(g, w, td));
                assert(best_card(g, w, td));
                self.play(who, to_discard, Ghost(td))
            } else {
                assert(best_card(g, w, hd));
                self.play(who, high_card_to_discard, Ghost(hd))
            }
        } else {
            if hand.contains(Cards(QUEEN_OF_SPADES)) && self.round != 1 {
                let q = Cards(QUEEN_OF_SPADES);
                assert(q@ =~= set![queen_of_spades_pos()]);
                assert(q@.contains(queen_of_spades_pos()));
                assert(q@.subset_of(hand@));
                assert(best_card(g, w, queen_of_spades_pos()));
                return self.play(who, q, Ghost(queen_of_spades_pos()));
            }
            proof {
                let q = Cards(QUEEN_OF_SPADES);
                assert(q@ =~= set![queen_of_spades_pos()]);
                lemma_holds_single(hand, q, queen_of_spades_pos());
                assert(!(held(g, w, queen_of_spades_pos()) && g.round != 1));
            }
            let hearts = hand.contains_suit(Cards(HEARTS));
            assert(hearts == exists|q: int| held(g, w, q) && q >= 48) by {
                if !(exists|q: int| held(g, w, q) && q >= 48) {
                    assert forall|x: int| !hand@.intersect(Cards(HEARTS)@).contains(x) by {
                        if hand@.intersect(Cards(HEARTS)@).contains(x) {
                            assert(suit_cards(48).contains(x));
                            assert(held(g, w, x));
                        }
                    }
                    assert(hand@.intersect(Cards(HEARTS)@) =~= Set::<int>::empty());
                } else {
                    let q = choose|q: int| held(g, w, q) && q >= 48;
                    assert(hand@.intersect(Cards(HEARTS)@).contains(q));
                }
            }
            if hearts && self.round != 1 {
                if let Some(rank) = highest_rank(hand, 0x30) {
                    let card = Cards::of(rank, 0x30);
                    assert(best_card(g, w, rank + 48));
                    return self.play(who, card, Ghost(rank + 48));
                }
            }
            let skip_queen = self.round == 1;
            let mut rank: u8 = 14;
            while rank >= 2
                invariant
                    1 <= rank <= 14,
                    who < 4,
                    g == *self,
                    w == who,
                    hand == self.players[who as int].hand,
                    skip_queen == (self.round == 1),
                    who != self.under_the_gun,
                    !hand.meets(self.suit_mask),
                    !(held(g, w, queen_of_spades_pos()) && g.round != 1),
                    !(hearts && g.round != 1),
                    hearts == exists|q: int| held(g, w, q) && q >= 48,
                    forall|p: int| is_card_pos(p) && p < 48 && p % 16 > rank && hand@.contains(p) ==> skip_queen && p == queen_of_spades_pos(),
                decreases rank,
            {
                let mut k: u8 = 0;
                while k < 3
                    invariant
                        2 <= rank <= 14,
                        k <= 3,
                        who < 4,
                        g == *self,
                        w == who,
                        hand == self.players[who as int].hand,
                        skip_queen == (self.round == 1),
                        who != self.under_the_gun,
                        !hand.meets(self.suit_mask),
                        !(held(g, w, queen_of_spades_pos()) && g.round != 1),
                        !(hearts && g.round != 1),
                        hearts == exists|q: int| held(g, w, q) && q >= 48,
                        forall|p: int| is_card_pos(p) && p < 48 && p % 16 > rank && hand@.contains(p) ==> skip_queen && p == queen_of_spades_pos(),
                        forall|p: int| is_card_pos(p) && p < 48 && p % 16 == rank && 2 - p / 16 < k && hand@.contains(p) ==> skip_queen && p == queen_of_spades_pos(),
                    decreases 3 - k,
                {
                    let base: u8 = 32 - 16 * k;
                    let card = Cards::of(rank, base);
                    let ghost p = rank + base;
                    assert(p % 16 == rank as int && p / 16 == 2 - k) by (nonlinear_arith)
                        requires
                            p == rank + base,
                            base == 32 - 16 * k,
                            2 <= rank <= 14,
                            k < 3,
                    ;
                    assert(card@.contains(p));
                    proof {
                        lemma_named_cards();
                        crate::card::lemma_card_word(card, p);
                        crate::bits::lemma_shift_order(p as u64, 44);
                        crate::bits::lemma_shift_order(44, p as u64);
                    }
                    if !(skip_queen && card.0 == QUEEN_OF_SPADES) && hand.contains(card) {
                        assert(sheddable(g, w, p));
                        assert(best_card(g, w, p)) by {
                            assert forall|q: int| sheddable(g, w, q) implies q % 16 < p % 16 || (q % 16 == p % 16 && q / 16 <= p / 16) by {}
                        }
                        return self.play(who, card, Ghost(p));
                    }
                    proof {
                        if hand@.contains(p) {
                            assert(card@ =~= set![p]);
                            assert(card@.subset_of(hand@));
                        }
                    }
                    k = k + 1;
                }
                rank = rank - 1;
            }
            assert(!exists|q: int| sheddable(g, w, q)) by {
                assert forall|q: int| !sheddable(g, w, q) by {
                    if sheddable(g, w, q) {
                        assert(q % 16 > 1);
                    }
                }
            }
            if let Some(rank) = highest_rank(hand, 0x30) {
                let card = Cards::of(rank, 0x30);
                assert(best_card(g, w, rank + 48));
                return self.play(who, card, Ghost(rank + 48));
            }
            proof {
                assert forall|p: int| !best_card(g, w, p) by {}
                if hand@ != Set::<int>::empty() && hand@.subset_of(crate::card::deck()) && !(self.round == 1 && hand@ == set![queen_of_spades_pos()]) {
                    assert forall|p: int| hand@.contains(p) implies p == queen_of_spades_pos() && self.round == 1 by {
                        assert(is_card_pos(p));
                        if p >= 48 {
                            assert(false);
                        } else {
                            assert(p % 16 > 1);
                        }
                    }
                    if !(exists|p: int| hand@.contains(p)) {
                        assert(hand@ =~= Set::<int>::empty());
                    }
                    let p = choose|p: int| hand@.contains(p);
                    assert(hand@ =~= set![queen_of_spades_pos()]);
                }
            }
            None
        }
    }
}

/// Whose passed cards player `i` receives on deal number `deal`: passing goes
/// one way, the other way, across, and not at all in turn.
pub open spec fn pass_source(deal: int, i: int) -> int {
    let offset: int = if deal % 4 == 0 {
        0
    } else if deal % 4 == 1 {
        3
    } else if deal % 4 == 2 {
        1
    } else {
        2
    };
    (i + offset) % 4
}

/// Player `i` passed `q[i]`, a legal proposal when there was one, and
/// received `q[pass_source(deal, i)]`.
pub open spec fn passed_by(before: Game, after: Game, proposals: [Cards; 4], q: Seq<Cards>, i: int) -> bool {
    &&& exchanged_by(before, after, proposals, q, i)
    &&& after.players[i] == (Player { hand: after.players[i].hand, ..before.players[i] })
}

/// Player `i`'s hand after the exchange: `q[i]` went out, a legal proposal
/// when there was one, and `q[pass_source(deal, i)]` came in.
pub open spec fn exchanged_by(before: Game, after: Game, proposals: [Cards; 4], q: Seq<Cards>, i: int) -> bool {
    &&& q[i]@.subset_of(before.players[i].hand@)
    &&& (crate::game::is_legal(before, i, proposals[i]) ==> q[i] == proposals[i])
    &&& (!crate::game::is_legal(before, i, proposals[i]) ==> is_pass_pick(before.players[i].hand, q[i]@))
    &&& (before.players[i].hand@.subset_of(crate::card::deck()) && before.players[i].hand@.len() >= 3 ==> q[i]@.len() == 3)
    &&& after.players[i].hand@ == before.players[i].hand@.difference(q[i]@).union(q[pass_source(before.deal as int, i)]@)
}

/// The hands are those of `before` after every player passed `q[i]`.
pub open spec fn exchanged(before: Game, after: Game, proposals: [Cards; 4], q: Seq<Cards>) -> bool {
    &&& q.len() == 4
    &&& q[0] == proposals[0]
    &&& forall|i: int| 0 <= i < 4 ==> #[trigger] exchanged_by(before, after, proposals, q, i)
}

/// Every player passed three cards at once, this player's being `proposals[0]`.
pub open spec fn passed(before: Game, after: Game, proposals: [Cards; 4], q: Seq<Cards>) -> bool {
    &&& q.len() == 4
    &&& q[0] == proposals[0]
    &&& forall|i: int| 0 <= i < 4 ==> #[trigger] passed_by(before, after, proposals, q, i)
}

/// Exchanging cards taken from the hands themselves keeps every card in
/// exactly one hand or among the cards played.
proof fn lemma_exchange_accounted(before: Game, after: Game, q: Seq<Cards>)
    requires
        crate::game::cards_accounted(before),
        q.len() == 4,
        forall|i: int| 0 <= i < 4 ==> (#[trigger] q[i])@.subset_of(before.players[i].hand@),
        forall|i: int| 0 <= i < 4 ==> (#[trigger] after.players[i]).hand@ == before.players[i].hand@.difference(q[i]@).union(q[pass_source(before.deal as int, i)]@),
        after.discarded == before.discarded,
    ensures
        crate::game::cards_accounted(after),
{
    let h = |i: int| before.players[i].hand@;
    let s = |i: int| pass_source(before.deal as int, i);
    assert forall|i: int| 0 <= i < 4 implies 0 <= #[trigger] s(i) < 4 by {}
    assert forall|i: int, j: int| 0 <= i < 4 && 0 <= j < 4 && i != j implies #[trigger] h(i).disjoint(h(j)) by {
        if i < j {
            assert(before.players[i].hand@.disjoint(before.players[j].hand@));
        } else {
            assert(before.players[j].hand@.disjoint(before.players[i].hand@));
        }
    }
    assert forall|i: int, j: int| 0 <= i < 4 && 0 <= j < 4 && i != j implies #[trigger] s(i) != #[trigger] s(j) by {}
    assert forall|i: int, j: int| 0 <= i < j < 4 implies after.players[i].hand@.disjoint(after.players[j].hand@) by {
        assert forall|x: int| after.players[i].hand@.contains(x) implies !after.players[j].hand@.contains(x) by {
            assert(q[i]@.subset_of(h(i)) && q[j]@.subset_of(h(j)));
            assert(q[s(i)]@.subset_of(h(s(i))) && q[s(j)]@.subset_of(h(s(j))));
            assert(h(i).disjoint(h(j)));
            if s(i) != i {
                assert(h(i).disjoint(h(s(i))));
            }
            if s(j) != j {
                assert(h(j).disjoint(h(s(j))));
            }
            if s(j) != i {
                assert(h(i).disjoint(h(s(j))));
            }
            if s(i) != j {
                assert(h(j).disjoint(h(s(i))));
            }
            assert(h(s(i)).disjoint(h(s(j))));
        }
    }
    assert forall|i: int| 0 <= i < 4 implies after.players[i].hand@.disjoint(after.discarded@) by {
        assert(before.players[i].hand@.disjoint(before.discarded@));
        assert(before.players[s(i)].hand@.disjoint(before.discarded@));
        assert(q[s(i)]@.subset_of(h(s(i))));
    }
    let ua = after.players[0].hand@.union(after.players[1].hand@).union(after.players[2].hand@).union(after.players[3].hand@).union(after.discarded@);
    let ub = h(0).union(h(1)).union(h(2)).union(h(3)).union(before.discarded@);
    assert forall|x: int| ua.contains(x) <==> ub.contains(x) by {
        if ub.contains(x) && !before.discarded@.contains(x) {
            let k = if h(0).contains(x) { 0 } else if h(1).contains(x) { 1 } else if h(2).contains(x) { 2 } else { 3int };
            assert(h(k).contains(x));
            if !q[k]@.contains(x) {
                assert(after.players[k].hand@.contains(x));
            } else {
                let m = if s(0) == k { 0 } else if s(1) == k { 1 } else if s(2) == k { 2 } else { 3int };
                assert(s(m) == k);
                assert(after.players[m].hand@.contains(x));
            }
        }
        if ua.contains(x) && !after.discarded@.contains(x) {
            let k = if after.players[0].hand@.contains(x) { 0 } else if after.players[1].hand@.contains(x) { 1 } else if after.players[2].hand@.contains(x) { 2 } else { 3int };
            assert(q[k]@.subset_of(h(k)) && q[s(k)]@.subset_of(h(s(k))));
            assert(h(k).contains(x) || h(s(k)).contains(x));
        }
    }
    assert(ua =~= ub);
}

/// `c` is what the strategy passes (while passing) or plays for `who`.
pub open spec fn is_strategy_pick(g: Game, who: int, c: Cards) -> bool {
    if g.round == 0 {
        is_pass_pick(g.players[who].hand, c@)
    } else {
        match pick_choice(g, who) {
            Some(p) => c@ == set![p],
            None => c@ == Set::<int>::empty(),
        }
    }
}

impl Game {
    /// What the strategy passes (while passing) or plays for `who`.
    pub fn pick_cards(&self, who: usize) -> (r: Cards)
        requires
            who < 4,
        ensures
            r@.subset_of(self.players[who as int].hand@),
            self.round == 0 && self.players[who as int].hand@.subset_of(crate::card::deck())
                && self.players[who as int].hand@.len() >= 3 ==> r@.len() == 3,
            self.round != 0 ==> r@ == Set::<int>::empty() || exists|p: int| r@ == set![p],
            is_strategy_pick(*self, who as int, r),
    {
        if self.round == 0 {
            self.players[who].hand.pick_three_cards().dest
        } else {
            match self.pick_card(who) {
                Some(t) => t.dest,
                None => {
                    proof {
                        lemma_view_empty();
                    }
                    Cards(NO_CARD)
                },
            }
        }
    }

    /// The cards that `who` passes or plays: `proposal` when it breaks no
    /// rule, else the strategy's choice.
    pub fn pick_cards_for(&self, who: usize, proposal: Cards) -> (r: Transfer)
        requires
            who < 4,
        ensures
            crate::game::violation(*self, who as int, proposal) is None ==> r.dest == proposal,
            crate::game::violation(*self, who as int, proposal) is Some ==> is_strategy_pick(*self, who as int, r.dest),
            r.dest@.subset_of(self.players[who as int].hand@),
            r.src@ == self.players[who as int].hand@.difference(r.dest@),
            self.round == 0 && self.players[who as int].hand@.subset_of(crate::card::deck())
                && self.players[who as int].hand@.len() >= 3 ==> r.dest@.len() == 3,
    {
        let hand = self.players[who].hand;
        let cards = if self.break_the_rule(who, proposal).is_some() {
            self.pick_cards(who)
        } else {
            proposal
        };
        Transfer { src: hand.difference(cards), dest: cards }
    }

    /// The cards each player passes: their proposal when legal, else the
    /// strategy's choice.
    fn passes_for(&self, proposals: [Cards; 4]) -> (t: [Transfer; 4])
        requires
            self.round == 0,
        ensures
            forall|k: int| 0 <= k < 4 ==> {
                &&& (#[trigger] t[k]).dest@.subset_of(self.players[k].hand@)
                &&& t[k].src@ == self.players[k].hand@.difference(t[k].dest@)
                &&& (crate::game::is_legal(*self, k, proposals[k]) ==> t[k].dest == proposals[k])
                &&& (!crate::game::is_legal(*self, k, proposals[k]) ==> is_pass_pick(self.players[k].hand, t[k].dest@))
                &&& (self.players[k].hand@.subset_of(crate::card::deck()) && self.players[k].hand@.len() >= 3 ==> t[k].dest@.len() == 3)
            },
    {
        proof {
            reveal(crate::game::is_legal);
        }
        [
            self.pick_cards_for(0, proposals[0]),
            self.pick_cards_for(1, proposals[1]),
            self.pick_cards_for(2, proposals[2]),
            self.pick_cards_for(3, proposals[3]),
        ]
    }

    /// Player `i` keeps `t[i].src` and receives `t[pass_source(deal, i)].dest`.
    fn exchange(&mut self, t: [Transfer; 4])
        ensures
            *final(self) == (Game { players: final(self).players, ..*old(self) }),
            forall|j: int| 0 <= j < 4 ==> (#[trigger] final(self).players[j]).hand@ == t[j].src@.union(t[pass_source(old(self).deal as int, j)].dest@)
                && final(self).players[j] == (Player { hand: final(self).players[j].hand, ..old(self).players[j] }),
            final(self).round == old(self).round,
            final(self).deal == old(self).deal,
            final(self).discarded == old(self).discarded,
            final(self).winner == old(self).winner,
    {
        let m = self.deal % 4;
        let offset: usize = if m == 0 {
            0
        } else if m == 1 {
            3
        } else if m == 2 {
            1
        } else {
            2
        };
        let mut i: usize = 0;
        while i < 4
            invariant
                i <= 4,
                m == old(self).deal % 4,
                *self == (Game { players: self.players, ..*old(self) }),
                offset == if m == 0 { 0usize } else if m == 1 { 3 } else if m == 2 { 1 } else { 2 },
                self.round == old(self).round,
                self.deal == old(self).deal,
                self.discarded == old(self).discarded,
                self.winner == old(self).winner,
                forall|j: int| 0 <= j < i ==> (#[trigger] self.players[j]).hand@ == t[j].src@.union(t[pass_source(old(self).deal as int, j)].dest@)
                    && self.players[j] == (Player { hand: self.players[j].hand, ..old(self).players[j] }),
                forall|j: int| i <= j < 4 ==> self.players[j] == old(self).players[j],
            decreases 4 - i,
        {
            let j = (i + offset) % 4;
            let mut p = self.players[i];
            p.hand = t[i].src.union(t[j].dest);
            self.players[i] = p;
            assert(j as int == pass_source(old(self).deal as int, i as int));
            i = i + 1;
        }
    }

    /// Passes three cards from every hand: `proposals[ME]` for this player,
    /// who must offer a legal pass, and for each other player their proposal
    /// when it is legal, else the strategy's choice. Player `i` receives the
    /// cards of `pass_source(deal, i)`. Returns false, changing nothing, when
    /// this player's pass is not legal.
    pub fn pass_cards_with(&mut self, proposals: [Cards; 4]) -> (r: bool)
        requires
            old(self).round == 0,
        ensures
            r == crate::game::is_legal(*old(self), 0, proposals[0]),
            !r ==> final(self).players == old(self).players,
            r ==> exists|q: Seq<Cards>| passed(*old(self), *final(self), proposals, q),
            final(self).round == old(self).round,
            final(self).deal == old(self).deal,
            final(self).discarded == old(self).discarded,
            final(self).winner == old(self).winner,
            crate::game::cards_accounted(*old(self)) ==> crate::game::cards_accounted(*final(self)),
            *final(self) == (Game { players: final(self).players, ..*old(self) }),
    {
        let broken = self.break_the_rule(0, proposals[0]);
        if broken.is_some() {
            assert(!crate::game::is_legal(*self, 0, proposals[0])) by {
                reveal(crate::game::is_legal);
            }
            return false;
        }
        assert(crate::game::is_legal(*self, 0, proposals[0])) by {
            reveal(crate::game::is_legal);
        }
        let t = self.passes_for(proposals);
        let ghost q = seq![t[0].dest, t[1].dest, t[2].dest, t[3].dest];
        let ghost before = *self;
        self.exchange(t);
        proof {
            assert forall|k: int| 0 <= k < 4 implies #[trigger] q[k] == t[k].dest by {}
            assert(q[0] == proposals[0]);
            assert forall|i: int| 0 <= i < 4 implies passed_by(before, *self, proposals, q, i) by {
                assert(q[i] == t[i].dest);
                let s = pass_source(before.deal as int, i);
                assert(0 <= s < 4);
                assert(q[s] == t[s].dest);
            }
            assert(passed(before, *self, proposals, q));
            if crate::game::cards_accounted(before) {
                assert forall|i: int| 0 <= i < 4 implies (#[trigger] q[i])@.subset_of(before.players[i].hand@) by {
                    assert(passed_by(before, *self, proposals, q, i));
                }
                assert forall|i: int| 0 <= i < 4 implies (#[trigger] self.players[i]).hand@ == before.players[i].hand@.difference(q[i]@).union(q[pass_source(before.deal as int, i)]@) by {
                    assert(passed_by(before, *self, proposals, q, i));
                }
                lemma_exchange_accounted(before, *self, q);
            }
        }
        true
    }

    /// Passes `my_three_cards` for this player and the strategy's choice for
    /// the others (see `pass_cards_with`).
    pub fn pass_cards(&mut self, my_three_cards: Cards) -> (r: bool)
        requires
            old(self).round == 0,
        ensures
            r == crate::game::is_legal(*old(self), 0, my_three_cards),
            !r ==> final(self).players == old(self).players,
            r ==> exists|q: Seq<Cards>| passed(*old(self), *final(self), [my_three_cards, Cards(NO_CARD), Cards(NO_CARD), Cards(NO_CARD)], q),
            crate::game::cards_accounted(*old(self)) ==> crate::game::cards_accounted(*final(self)),
    {
        self.pass_cards_with([my_three_cards, Cards(NO_CARD), Cards(NO_CARD), Cards(NO_CARD)])
    }
}

} // verus!
