//! The game engine: the rules of play, the trick bookkeeping, scoring with
//! shooting the moon, and the end of the game.
use vstd::prelude::*;
use crate::card::{
    Cards, Transfer, NO_CARD, CLUBS, DIAMONDS, SPADES, HEARTS, TWO_OF_CLUBS, TWO_OF_DIAMONDS,
    TWO_OF_SPADES, TWO_OF_HEARTS, queen_of_spades_pos, two_of_clubs_pos, lemma_masks, lemma_view_empty,
};
use crate::deal::is_deal;
use crate::player::{Player, NOBODY, ALL_SUIT_BITS};
use crate::bits::lemma_named_cards;

verus! {

/// The rules that a play can break.
#[derive(Copy, Clone, PartialEq, Eq, Structural, Debug)]
pub enum Rule {
    /// Passed cards must be in the hand.
    PassInHand,
    /// Exactly three cards are passed.
    PassThreeCards,
    /// A played card must be in the hand.
    DiscardInHand,
    /// Whoever holds the two of clubs plays it first.
    TwoOfClubs,
    /// A player who holds the suit led follows it.
    FollowSuit,
    /// Hearts are not led before a heart has been played in the deal.
    Heartbreak,
    /// No heart is played on the first trick.
    HeartInFirstRound,
    /// The queen of spades is not played on the first trick.
    QueenInFirstRound,
}

/// The state of a game: four players, the deal and trick in progress, and
/// the generator that shuffles.
pub struct Game {
    pub players: [Player; 4],
    /// The winner of the last game, or `NOBODY`.
    pub winner: usize,
    /// How many deals were made in this game; it sets the direction of passing.
    pub deal: usize,
    /// Every card played in this deal.
    pub discarded: Cards,
    /// The suit led in this trick, or no card before the lead.
    pub suit_mask: Cards,
    /// 0 while passing, then the trick number 1 to 13.
    pub round: usize,
    /// Who leads this trick.
    pub under_the_gun: usize,
    /// Who holds the trick so far.
    pub round_winner: usize,
    /// The highest card of the suit led so far in this trick.
    pub high_card: Cards,
    pub started: bool,
    pub rng: fastrand::Rng,
}

/// The rule, if any, that `card` played (or passed) by `who` breaks, checked in
/// this order. The queen of spades is barred from the first trick for every
/// player, the leader included; the leader of the first trick holds the two of
/// clubs and must play it, so this never stops a legal lead.
pub open spec fn violation(g: Game, who: int, card: Cards) -> Option<Rule> {
    let hand = g.players[who].hand;
    if g.round == 0 {
        if !hand.holds(card) {
            Some(Rule::PassInHand)
        } else if card@.len() != 3 {
            Some(Rule::PassThreeCards)
        } else {
            None
        }
    } else if !hand.holds(card) {
        Some(Rule::DiscardInHand)
    } else if hand@.contains(two_of_clubs_pos()) && card@ != set![two_of_clubs_pos()] {
        Some(Rule::TwoOfClubs)
    } else if g.suit_mask@ != Set::<int>::empty() && hand.meets(g.suit_mask) && !card.meets(g.suit_mask) {
        Some(Rule::FollowSuit)
    } else if card.meets(Cards(HEARTS)) && !hand@.subset_of(Cards(HEARTS)@) {
        if g.under_the_gun == who {
            if !g.discarded.meets(Cards(HEARTS)) {
                Some(Rule::Heartbreak)
            } else {
                None
            }
        } else if g.round == 1 {
            Some(Rule::HeartInFirstRound)
        } else {
            None
        }
    } else if card@ == set![queen_of_spades_pos()] && g.round == 1 {
        Some(Rule::QueenInFirstRound)
    } else {
        None
    }
}

/// `card` breaks no rule when `who` passes or plays it.
#[verifier::opaque]
pub open spec fn is_legal(g: Game, who: int, card: Cards) -> bool {
    violation(g, who, card) is None
}

/// Every card of the deck is in exactly one hand or among the cards played
/// in this deal.
pub open spec fn cards_accounted(g: Game) -> bool {
    &&& forall|i: int, j: int| 0 <= i < j < 4 ==> g.players[i].hand@.disjoint(g.players[j].hand@)
    &&& forall|i: int| 0 <= i < 4 ==> g.players[i].hand@.disjoint(g.discarded@)
    &&& g.players[0].hand@.union(g.players[1].hand@).union(g.players[2].hand@).union(g.players[3].hand@).union(
        g.discarded@,
    ) == crate::card::deck()
}

/// The whole suit found by the order of the set's word (see `Cards::suit_mask`).
pub open spec fn suit_mask_of(c: Cards) -> Cards {
    Cards(
        if c.0 < TWO_OF_DIAMONDS {
            CLUBS
        } else if c.0 < TWO_OF_SPADES {
            DIAMONDS
        } else if c.0 < TWO_OF_HEARTS {
            SPADES
        } else {
            HEARTS
        },
    )
}

/// The suit bits after a player has played `played` on the suit `led`: the bit
/// of the suit led is cleared when the play does not follow it.
pub open spec fn void_update(bits: u8, led: Cards, played: Cards) -> u8 {
    if led.0 == CLUBS && !played.meets(led) {
        bits & !1u8
    } else if led.0 == DIAMONDS && !played.meets(led) {
        bits & !2u8
    } else if led.0 == SPADES && !played.meets(led) {
        bits & !4u8
    } else if led.0 == HEARTS && !played.meets(led) {
        bits & !8u8
    } else {
        bits
    }
}

/// The points a played card carries: one per heart, 13 for the queen of spades.
pub open spec fn points(c: Cards) -> int {
    if c.meets(Cards(HEARTS)) {
        1
    } else if c@ == set![queen_of_spades_pos()] {
        13
    } else {
        0
    }
}

/// The points of the trick on the table.
pub open spec fn trick_points(g: Game) -> int {
    points(g.players[0].discarding) + points(g.players[1].discarding) + points(g.players[2].discarding) + points(
        g.players[3].discarding,
    )
}

/// Player `i`'s hand score once the trick's points go to the trick's winner:
/// a winner who reaches exactly 26 shoots the moon, scoring 0 while every
/// other player gets 26.
pub open spec fn hand_score_after(g: Game, i: int) -> int {
    let w = g.round_winner as int;
    let pts = trick_points(g);
    if pts == 0 {
        g.players[i].hand_score as int
    } else if g.players[w].hand_score + pts == 26 {
        if i == w { 0 } else { 26 }
    } else if i == w {
        g.players[w].hand_score + pts
    } else {
        g.players[i].hand_score as int
    }
}

/// The first player whose game score is the lowest.
pub open spec fn is_lowest(g: Game, r: int) -> bool {
    &&& 0 <= r < 4
    &&& forall|j: int| 0 <= j < 4 ==> g.players[r].game_score <= g.players[j].game_score
    &&& forall|j: int| 0 <= j < r ==> g.players[j].game_score > g.players[r].game_score
}

pub open spec fn game_over(g: Game) -> bool {
    exists|i: int| 0 <= i < 4 && g.players[i].game_score >= 100
}

impl Game {
    /// A game before its first deal, with a generator started from `seed`.
    pub fn with_seed(seed: u64) -> (r: Game)
        ensures
            forall|i: int| 0 <= i < 4 ==> (#[trigger] r.players[i]).hand == Cards(NO_CARD) && r.players[i].game_score == 0
                && r.players[i].hand_score == 0 && r.players[i].awards == 0,
            r.winner == NOBODY,
            r.deal == 0,
            r.round == 0,
            r.discarded == Cards(NO_CARD),
            r.suit_mask == Cards(NO_CARD),
            r.under_the_gun == NOBODY,
            r.round_winner == NOBODY,
            r.high_card == Cards(NO_CARD),
            !r.started,
    {
        Game {
            players: [Player::new(), Player::new(), Player::new(), Player::new()],
            winner: NOBODY,
            deal: 0,
            discarded: Cards(NO_CARD),
            suit_mask: Cards(NO_CARD),
            round: 0,
            under_the_gun: NOBODY,
            round_winner: NOBODY,
            high_card: Cards(NO_CARD),
            started: false,
            rng: fastrand::Rng::with_seed(seed),
        }
    }

    /// Whether player `who` may still hold cards of `suit` (a suit base).
    pub fn player_may_have(&self, who: usize, suit: u8) -> (r: bool)
        requires
            who < 4,
            suit < 0x80,
        ensures
            r == ((self.players[who as int].suit_bits >> (suit / 16)) & 1 == 1),
    {
        self.players[who].may_have(suit)
    }

    /// Starts the game over: every player's cards and scores are cleared, their
    /// wins kept.
    pub fn reset(&mut self)
        ensures
            forall|i: int| 0 <= i < 4 ==> {
                &&& (#[trigger] final(self).players[i]).hand == Cards(NO_CARD)
                &&& final(self).players[i].discarding == Cards(NO_CARD)
                &&& final(self).players[i].hand_score == 0
                &&& final(self).players[i].game_score == 0
                &&& final(self).players[i].suit_bits == 0
                &&& final(self).players[i].awards == old(self).players[i].awards
            },
            final(self).winner == NOBODY,
            final(self).deal == 0,
            final(self).round == 0,
            final(self).discarded == Cards(NO_CARD),
            final(self).suit_mask == Cards(NO_CARD),
            final(self).under_the_gun == NOBODY,
            final(self).round_winner == NOBODY,
            final(self).high_card == Cards(NO_CARD),
            !final(self).started,
    {
        let mut i: usize = 0;
        while i < 4
            invariant
                i <= 4,
                forall|j: int| 0 <= j < i ==> {
                    &&& (#[trigger] self.players[j]).hand == Cards(NO_CARD)
                    &&& self.players[j].discarding == Cards(NO_CARD)
                    &&& self.players[j].hand_score == 0
                    &&& self.players[j].game_score == 0
                    &&& self.players[j].suit_bits == 0
                    &&& self.players[j].awards == old(self).players[j].awards
                },
                forall|j: int| i <= j < 4 ==> self.players[j] == old(self).players[j],
            decreases 4 - i,
        {
            let mut p = self.players[i];
            p.reset();
            self.players[i] = p;
            i = i + 1;
        }
        self.winner = NOBODY;
        self.deal = 0;
        self.discarded = Cards(NO_CARD);
        self.suit_mask = Cards(NO_CARD);
        self.round = 0;
        self.under_the_gun = NOBODY;
        self.round_winner = NOBODY;
        self.high_card = Cards(NO_CARD);
        self.started = false;
    }

    pub fn start(&mut self)
        ensures
            final(self).started,
            final(self).players == old(self).players,
            final(self).round == old(self).round,
            final(self).deal == old(self).deal,
    {
        self.started = true;
    }

    /// Whether the cards of this deal are passed: on three deals out of four.
    pub fn needs_pass_cards(&self) -> (r: bool)
        ensures
            r == (self.deal % 4 != 0),
    {
        self.deal % 4 != 0
    }

    /// Whether a heart has been played in this deal.
    pub fn heart_broken(&self) -> (r: bool)
        ensures
            r == self.discarded.meets(Cards(HEARTS)),
    {
        self.discarded.contains_suit(Cards(HEARTS))
    }

    /// The suit base of the suit led, or `NO_SUIT`.
    pub fn suit(&self) -> (r: u8)
        ensures
            r == self.suit_mask.mask_to_suit_spec(),
    {
        self.suit_mask.mask_to_suit()
    }

    /// The rule that `card`, passed or played by `who`, breaks, if any.
    pub fn break_the_rule(&self, who: usize, card: Cards) -> (r: Option<Rule>)
        requires
            who < 4,
        ensures
            r == violation(*self, who as int, card),
    {
        let hand = self.players[who].hand;
        proof {
            lemma_named_cards();
            crate::card::lemma_view_single(2);
            crate::card::lemma_view_single(44);
            lemma_view_empty();
        }
        if self.round == 0 {
            if !hand.contains(card) {
                Some(Rule::PassInHand)
            } else if card.count() != 3 {
                Some(Rule::PassThreeCards)
            } else {
                None
            }
        } else {
            if !hand.contains(card) {
                return Some(Rule::DiscardInHand);
            }
            let two = Cards(TWO_OF_CLUBS);
            assert(two@.contains(two_of_clubs_pos()));
            if hand.contains(two) && card.0 != TWO_OF_CLUBS {
                proof {
                    if card@ == set![two_of_clubs_pos()] {
                        crate::card::lemma_view_injective(card, two);
                    }
                }
                return Some(Rule::TwoOfClubs);
            }
            proof {
                if hand@.contains(two_of_clubs_pos()) {
                    assert(two@.subset_of(hand@));
                }
            }
            if !self.suit_mask.is_empty() && hand.contains_suit(self.suit_mask) && !card.contains_suit(self.suit_mask) {
                Some(Rule::FollowSuit)
            } else if card.is_heart() && !hand.are_all_of(Cards(HEARTS)) {
                if self.under_the_gun == who {
                    if !self.heart_broken() {
                        Some(Rule::Heartbreak)
                    } else {
                        None
                    }
                } else if self.round == 1 {
                    Some(Rule::HeartInFirstRound)
                } else {
                    None
                }
            } else if card.is_queen_of_spade() && self.round == 1 {
                Some(Rule::QueenInFirstRound)
            } else {
                None
            }
        }
    }
}

/// The leader of the first trick may always play the two of clubs they hold.
pub proof fn lemma_two_of_clubs_lead_is_legal(g: Game, who: int)
    requires
        0 <= who < 4,
        g.round == 1,
        g.under_the_gun == who,
        g.suit_mask == Cards(CLUBS) || g.suit_mask@ == Set::<int>::empty(),
        g.players[who].hand@.contains(two_of_clubs_pos()),
    ensures
        violation(g, who, Cards(TWO_OF_CLUBS)) == None::<Rule>,
{
    lemma_named_cards();
    crate::card::lemma_view_single(2);
    lemma_masks();
    let two = Cards(TWO_OF_CLUBS);
    assert(two@ =~= set![two_of_clubs_pos()]);
    assert(two@.subset_of(g.players[who].hand@));
    assert(two@.intersect(Cards(CLUBS)@).contains(2));
    assert(two@.intersect(Cards(HEARTS)@) =~= Set::<int>::empty());
}


/// The state after `who` plays `t.dest`, keeping `t.src`: what is known of
/// the player's suits, the cards played in the deal, the suit led (set by the
/// first card of a trick) and the trick's high card and winner follow; the
/// rest stays as it was.
pub open spec fn discard_effect(before: Game, after: Game, who: int, t: Transfer) -> bool {
    let old_p = before.players[who];
    let led = if before.suit_mask@ == Set::<int>::empty() { suit_mask_of(t.dest) } else { before.suit_mask };
    let card = t.dest.0 & led.0;
    &&& after.players[who] == (Player {
        hand: t.src,
        discarding: t.dest,
        suit_bits: void_update(old_p.suit_bits, before.suit_mask, t.dest),
        ..old_p
    })
    &&& forall|j: int| 0 <= j < 4 && j != who ==> after.players[j] == before.players[j]
    &&& after.discarded@ == before.discarded@.union(t.dest@)
    &&& after.suit_mask == led
    &&& if before.high_card.0 < card {
        after.high_card == Cards(card) && after.round_winner == who
    } else {
        after.high_card == before.high_card && after.round_winner == before.round_winner
    }
    &&& after == (Game {
        players: after.players,
        discarded: after.discarded,
        suit_mask: after.suit_mask,
        high_card: after.high_card,
        round_winner: after.round_winner,
        ..before
    })
}

/// The state after the next trick begins (see `Game::next_round`).
pub open spec fn next_round_effect(before: Game, after: Game) -> bool {
    &&& after.round == before.round + 1
    &&& forall|i: int| 0 <= i < 4 ==> (#[trigger] after.players[i]) == (Player { discarding: Cards(NO_CARD), ..before.players[i] })
    &&& after.round == 1 ==> after.suit_mask == Cards(CLUBS) && after.under_the_gun <= 4
        && (after.under_the_gun < 4 ==> before.players[after.under_the_gun as int].hand@.contains(two_of_clubs_pos()))
        && forall|j: int| 0 <= j < after.under_the_gun ==> !before.players[j].hand@.contains(two_of_clubs_pos())
    &&& after.round != 1 ==> after.suit_mask == Cards(NO_CARD) && after.under_the_gun == before.round_winner
    &&& after.round_winner == NOBODY
    &&& after.high_card == Cards(NO_CARD)
    &&& after == (Game {
        players: after.players,
        round: after.round,
        under_the_gun: after.under_the_gun,
        suit_mask: after.suit_mask,
        round_winner: after.round_winner,
        high_card: after.high_card,
        ..before
    })
}

/// The state after the trick on the table is scored (see `Game::keep_score`).
pub open spec fn keep_score_effect(before: Game, after: Game) -> bool {
    &&& forall|i: int| 0 <= i < 4 ==> (#[trigger] after.players[i]).hand_score == hand_score_after(before, i)
    &&& forall|i: int| 0 <= i < 4 ==> (#[trigger] after.players[i]).game_score == if before.round == 13 {
        before.players[i].game_score + hand_score_after(before, i)
    } else {
        before.players[i].game_score as int
    }
    &&& forall|i: int| 0 <= i < 4 ==> (#[trigger] after.players[i]) == (Player {
        hand_score: after.players[i].hand_score,
        game_score: after.players[i].game_score,
        ..before.players[i]
    })
    &&& after == (Game { players: after.players, ..before })
}

impl Game {
    /// The first player who holds the two of clubs, or `NOBODY`.
    pub fn who_holds_two_of_clubs(&self) -> (r: usize)
        ensures
            r <= 4,
            r < 4 ==> self.players[r as int].hand@.contains(two_of_clubs_pos()),
            forall|j: int| 0 <= j < r ==> !self.players[j].hand@.contains(two_of_clubs_pos()),
    {
        proof {
            lemma_named_cards();
            crate::card::lemma_view_single(2);
        }
        let two = Cards(TWO_OF_CLUBS);
        assert(two@ =~= set![two_of_clubs_pos()]);
        let mut i: usize = 0;
        while i < 4
            invariant
                i <= 4,
                two@ == set![two_of_clubs_pos()],
                forall|j: int| 0 <= j < i ==> !self.players[j].hand@.contains(two_of_clubs_pos()),
            decreases 4 - i,
        {
            if self.players[i].hand.contains(two) {
                return i;
            }
            proof {
                if self.players[i as int].hand@.contains(two_of_clubs_pos()) {
                    assert(two@.subset_of(self.players[i as int].hand@));
                    assert(two@.contains(two_of_clubs_pos()));
                }
            }
            i = i + 1;
        }
        NOBODY
    }

    /// Moves on to the next trick: the holder of the two of clubs leads the
    /// first one, on clubs; the winner of the last trick leads the others.
    /// Returns false once the 13 tricks of the deal are over.
    pub fn next_round(&mut self) -> (r: bool)
        requires
            old(self).round < 1000,
        ensures
            next_round_effect(*old(self), *final(self)),
            r == (final(self).round <= 13),
            cards_accounted(*old(self)) ==> cards_accounted(*final(self)),
    {
        self.round = self.round + 1;
        let mut i: usize = 0;
        while i < 4
            invariant
                i <= 4,
                self.round == old(self).round + 1,
                *self == (Game { players: self.players, round: self.round, ..*old(self) }),
                forall|j: int| 0 <= j < i ==> (#[trigger] self.players[j]) == (Player { discarding: Cards(NO_CARD), ..old(self).players[j] }),
                forall|j: int| i <= j < 4 ==> self.players[j] == old(self).players[j],
            decreases 4 - i,
        {
            let mut p = self.players[i];
            p.discarding = Cards(NO_CARD);
            self.players[i] = p;
            i = i + 1;
        }
        assert(forall|j: int| 0 <= j < 4 ==> self.players[j].hand == old(self).players[j].hand);
        if self.round == 1 {
            self.under_the_gun = self.who_holds_two_of_clubs();
            self.suit_mask = Cards(CLUBS);
        } else {
            self.under_the_gun = self.round_winner;
            self.suit_mask = Cards(NO_CARD);
        }
        self.round_winner = NOBODY;
        self.high_card = Cards(NO_CARD);
        proof {
            assert(self.players[0].hand == old(self).players[0].hand && self.players[1].hand == old(self).players[1].hand);
            assert(self.players[2].hand == old(self).players[2].hand && self.players[3].hand == old(self).players[3].hand);
        }
        self.round <= 13
    }

    /// Commits a play of `who`: the hand becomes `transfered.src`, the card
    /// played `transfered.dest`. It updates what is known of the player's
    /// suits, the cards played in the deal, the suit led, and who holds the trick.
    pub fn discard(&mut self, who: usize, transfered: Transfer)
        requires
            who < 4,
        ensures
            discard_effect(*old(self), *final(self), who as int, transfered),
            cards_accounted(*old(self)) && transfered.dest@.subset_of(old(self).players[who as int].hand@)
                && transfered.src@ == old(self).players[who as int].hand@.difference(transfered.dest@) ==> cards_accounted(*final(self)),
    {
        let ghost before = *self;
        let mut p = self.players[who];
        p.hand = transfered.src;
        let discarding = transfered.dest;
        p.discarding = discarding;
        let led = self.suit_mask;
        if led.0 == CLUBS && !discarding.contains_suit(led) {
            p.suit_bits = p.suit_bits & !1u8;
        } else if led.0 == DIAMONDS && !discarding.contains_suit(led) {
            p.suit_bits = p.suit_bits & !2u8;
        } else if led.0 == SPADES && !discarding.contains_suit(led) {
            p.suit_bits = p.suit_bits & !4u8;
        } else if led.0 == HEARTS && !discarding.contains_suit(led) {
            p.suit_bits = p.suit_bits & !8u8;
        }
        self.players[who] = p;
        self.discarded.add_assign(discarding);
        if self.suit_mask.is_empty() {
            self.suit_mask = transfered.dest.suit_mask();
        }
        let card = discarding.intersect(self.suit_mask);
        if self.high_card.0 < card.0 {
            self.high_card = card;
            self.round_winner = who;
        }
        proof {
            if cards_accounted(before) && transfered.dest@.subset_of(before.players[who as int].hand@)
                && transfered.src@ == before.players[who as int].hand@.difference(transfered.dest@) {
                let d = transfered.dest@;
                assert forall|i: int, j: int| 0 <= i < j < 4 implies self.players[i].hand@.disjoint(self.players[j].hand@) by {
                    assert(before.players[i].hand@.disjoint(before.players[j].hand@));
                }
                assert forall|i: int| 0 <= i < 4 implies self.players[i].hand@.disjoint(self.discarded@) by {
                    assert(before.players[i].hand@.disjoint(before.discarded@));
                    if i != who {
                        let (a, b) = if i < who { (i, who as int) } else { (who as int, i) };
                        assert(before.players[a].hand@.disjoint(before.players[b].hand@));
                    }
                }
                let hb = seq![before.players[0].hand@, before.players[1].hand@, before.players[2].hand@, before.players[3].hand@];
                let ha = seq![self.players[0].hand@, self.players[1].hand@, self.players[2].hand@, self.players[3].hand@];
                assert(ha[0].union(ha[1]).union(ha[2]).union(ha[3]).union(self.discarded@) =~= hb[0].union(hb[1]).union(hb[2]).union(hb[3]).union(before.discarded@));
            }
        }
    }

    /// The points of one played card.
    fn points_of(c: Cards) -> (r: u8)
        ensures
            r as int == points(c),
    {
        if c.is_heart() {
            1
        } else if c.is_queen_of_spade() {
            13
        } else {
            0
        }
    }

    /// Gives the points of the trick on the table to the player who took it,
    /// with shooting the moon.
    fn score_trick(&mut self)
        requires
            trick_points(*old(self)) != 0 ==> old(self).round_winner < 4,
            forall|i: int| 0 <= i < 4 ==> (#[trigger] old(self).players[i]).hand_score <= 100,
        ensures
            forall|i: int| 0 <= i < 4 ==> (#[trigger] final(self).players[i]) == (Player {
                hand_score: hand_score_after(*old(self), i) as u8,
                ..old(self).players[i]
            }),
            forall|i: int| 0 <= i < 4 ==> 0 <= #[trigger] hand_score_after(*old(self), i) <= 152,
            *final(self) == (Game { players: final(self).players, ..*old(self) }),
            final(self).round == old(self).round,
            final(self).deal == old(self).deal,
            final(self).round_winner == old(self).round_winner,
            final(self).under_the_gun == old(self).under_the_gun,
            final(self).discarded == old(self).discarded,
            final(self).winner == old(self).winner,
    {
        let score: u8 = Game::points_of(self.players[0].discarding) + Game::points_of(self.players[1].discarding)
            + Game::points_of(self.players[2].discarding) + Game::points_of(self.players[3].discarding);
        if score != 0 {
            let w = self.round_winner;
            let mut p = self.players[w];
            p.hand_score = p.hand_score + score;
            self.players[w] = p;
            if p.hand_score == 26 {
                let mut i: usize = 0;
                while i < 4
                    invariant
                        i <= 4,
                        w < 4,
                        *self == (Game { players: self.players, ..*old(self) }),
                        self.round == old(self).round,
                        self.deal == old(self).deal,
                        self.round_winner == w,
                        self.under_the_gun == old(self).under_the_gun,
                        self.discarded == old(self).discarded,
                        self.winner == old(self).winner,
                        forall|j: int| 0 <= j < i ==> (#[trigger] self.players[j]) == (Player { hand_score: if j == w { 0 } else { 26 }, ..old(self).players[j] }),
                        forall|j: int| i <= j < 4 && j != w ==> self.players[j] == old(self).players[j],
                        i <= w ==> self.players[w as int] == (Player { hand_score: 26, ..old(self).players[w as int] }),
                    decreases 4 - i,
                {
                    let mut q = self.players[i];
                    q.hand_score = if i == w { 0 } else { 26 };
                    self.players[i] = q;
                    i = i + 1;
                }
            }
        }
    }

    /// Scores the trick on the table: one point per heart and 13 for the queen
    /// of spades go to the player who took it. Whoever reaches exactly 26 shoots
    /// the moon: they score 0 and every other player 26. After the 13th trick
    /// each hand score is added to the game score.
    pub fn keep_score(&mut self)
        requires
            trick_points(*old(self)) != 0 ==> old(self).round_winner < 4,
            forall|i: int| 0 <= i < 4 ==> (#[trigger] old(self).players[i]).hand_score <= 100,
            old(self).round == 13 ==> forall|i: int| 0 <= i < 4 ==> (#[trigger] old(self).players[i]).game_score < 100,
        ensures
            keep_score_effect(*old(self), *final(self)),
            cards_accounted(*old(self)) ==> cards_accounted(*final(self)),
    {
        self.score_trick();
        if self.round == 13 {
            let ghost mid = *self;
            let mut i: usize = 0;
            while i < 4
                invariant
                    i <= 4,
                    self.round == 13,
                    *self == (Game { players: self.players, ..mid }),
                    forall|j: int| 0 <= j < 4 ==> (#[trigger] mid.players[j]).hand_score <= 152,
                    forall|j: int| 0 <= j < 4 ==> (#[trigger] mid.players[j]).game_score < 100,
                    self.deal == mid.deal,
                    self.round_winner == mid.round_winner,
                    self.under_the_gun == mid.under_the_gun,
                    self.discarded == mid.discarded,
                    self.winner == mid.winner,
                    forall|j: int| 0 <= j < i ==> (#[trigger] self.players[j]) == (Player { game_score: (mid.players[j].game_score + mid.players[j].hand_score) as u8, ..mid.players[j] }),
                    forall|j: int| i <= j < 4 ==> self.players[j] == mid.players[j],
                decreases 4 - i,
            {
                assert(self.players[i as int] == mid.players[i as int]);
                assert(mid.players[i as int].hand_score <= 152 && mid.players[i as int].game_score < 100);
                let mut q = self.players[i];
                q.game_score = q.game_score + q.hand_score;
                self.players[i] = q;
                i = i + 1;
            }
        }
        proof {
            assert(self.players[0].hand == old(self).players[0].hand && self.players[1].hand == old(self).players[1].hand);
            assert(self.players[2].hand == old(self).players[2].hand && self.players[3].hand == old(self).players[3].hand);
        }
    }

    /// Ends the game when a player's game score has reached 100: the first
    /// player with the lowest game score wins and is credited with the win.
    /// Returns that player, or `NOBODY` while the game goes on.
    pub fn get_winner(&mut self) -> (r: usize)
        requires
            forall|i: int| 0 <= i < 4 ==> (#[trigger] old(self).players[i]).awards < u32::MAX,
        ensures
            game_over(*old(self)) ==> is_lowest(*old(self), r as int) && final(self).winner == r
                && final(self).players[r as int] == (Player { awards: (old(self).players[r as int].awards + 1) as u32, ..old(self).players[r as int] })
                && forall|j: int| 0 <= j < 4 && j != r ==> final(self).players[j] == old(self).players[j],
            !game_over(*old(self)) ==> r == NOBODY && *final(self) == *old(self),
            *final(self) == (Game { players: final(self).players, winner: final(self).winner, ..*old(self) }),
    {
        let mut over = false;
        let mut winner: usize = 0;
        let mut min_score = self.players[0].game_score;
        let mut i: usize = 0;
        while i < 4
            invariant
                i <= 4,
                winner < 4,
                winner <= i || (i == 0 && winner == 0),
                min_score == self.players[winner as int].game_score,
                forall|j: int| 0 <= j < i ==> self.players[winner as int].game_score <= self.players[j].game_score,
                forall|j: int| 0 <= j < winner ==> self.players[j].game_score > self.players[winner as int].game_score,
                over == exists|j: int| 0 <= j < i && self.players[j].game_score >= 100,
            decreases 4 - i,
        {
            let s = self.players[i].game_score;
            if s >= 100 {
                over = true;
            }
            if s < min_score {
                min_score = s;
                winner = i;
            }
            i = i + 1;
        }
        if over {
            self.winner = winner;
            let mut p = self.players[winner];
            p.awards = p.awards + 1;
            self.players[winner] = p;
            winner
        } else {
            NOBODY
        }
    }

    /// Shuffles and deals a new hand to every player: hand scores and what is
    /// known of their suits start over, and the deal count goes up by one.
    pub fn deal(&mut self)
        requires
            old(self).deal < usize::MAX,
        ensures
            is_deal(seq![final(self).players[0].hand@, final(self).players[1].hand@, final(self).players[2].hand@, final(self).players[3].hand@]),
            forall|i: int| 0 <= i < 4 ==> (#[trigger] final(self).players[i]) == (Player {
                hand: final(self).players[i].hand,
                hand_score: 0,
                suit_bits: ALL_SUIT_BITS,
                ..old(self).players[i]
            }),
            final(self).deal == old(self).deal + 1,
            final(self).round == 0,
            final(self).discarded == Cards(NO_CARD),
            final(self).winner == old(self).winner,
            cards_accounted(*final(self)),
            *final(self) == (Game {
                players: final(self).players,
                deal: final(self).deal,
                round: 0,
                discarded: Cards(NO_CARD),
                rng: final(self).rng,
                ..*old(self)
            }),
    {
        self.discarded = Cards(NO_CARD);
        self.deal = self.deal + 1;
        self.round = 0;
        let hands = Cards::deal(&mut self.rng);
        let mut i: usize = 0;
        while i < 4
            invariant
                i <= 4,
                self.discarded == Cards(NO_CARD),
                self.deal == old(self).deal + 1,
                self.round == 0,
                self.winner == old(self).winner,
                *self == (Game { players: self.players, deal: self.deal, round: 0, discarded: Cards(NO_CARD), rng: self.rng, ..*old(self) }),
                forall|j: int| 0 <= j < i ==> (#[trigger] self.players[j]) == (Player { hand: hands[j], hand_score: 0, suit_bits: ALL_SUIT_BITS, ..old(self).players[j] }),
                forall|j: int| i <= j < 4 ==> self.players[j] == old(self).players[j],
            decreases 4 - i,
        {
            let mut p = self.players[i];
            p.hand = hands[i];
            p.hand_score = 0;
            p.suit_bits = ALL_SUIT_BITS;
            self.players[i] = p;
            i = i + 1;
        }
        proof {
            lemma_view_empty();
            let h = seq![hands[0]@, hands[1]@, hands[2]@, hands[3]@];
            assert(h[0] == self.players[0].hand@ && h[1] == self.players[1].hand@ && h[2] == self.players[2].hand@ && h[3] == self.players[3].hand@);
            assert forall|i: int, j: int| 0 <= i < j < 4 implies self.players[i].hand@.disjoint(self.players[j].hand@) by {
                assert(h[i].disjoint(h[j]));
            }
            assert forall|i: int| 0 <= i < 4 implies self.players[i].hand@.disjoint(self.discarded@) by {}
            assert(h[0].union(h[1]).union(h[2]).union(h[3]).union(Set::<int>::empty()) =~= h[0].union(h[1]).union(h[2]).union(h[3]));
        }
    }
}


/// Shooting the moon: when a trick takes its winner's hand score to exactly
/// 26, the winner's hand score becomes 0 and every other player's 26.
pub proof fn lemma_shoot_the_moon(g: Game, i: int)
    requires
        0 <= i < 4,
        trick_points(g) != 0,
        g.players[g.round_winner as int].hand_score + trick_points(g) == 26,
    ensures
        hand_score_after(g, i) == if i == g.round_winner { 0int } else { 26int },
{
}

} // verus!
