//! A set of cards packed into one `u64`: one bit per card, suits spaced 16
//! bits apart, ranks 2 to ace on bits 2 to 14 of each suit.
use vstd::prelude::*;
use crate::bits::{
    bit, lemma_bit_or, lemma_bit_and, lemma_bit_not, lemma_bit_single, lemma_bit_zero, lemma_bits_equal,
    lemma_shift_order, lemma_shift_down, lemma_mask_bits, lemma_named_cards,
};

verus! {

pub const BIT_CLUB: u8 = 0b0001;
pub const BIT_DIAMOND: u8 = 0b0010;
pub const BIT_SPADE: u8 = 0b0100;
pub const BIT_HEART: u8 = 0b1000;

pub const CLUB: u8 = 0x00;
pub const DIAMOND: u8 = 0x10;
pub const SPADE: u8 = 0x20;
pub const HEART: u8 = 0x30;
pub const NO_SUIT: u8 = 0x40;

pub const NO_RANK: u8 = 0x0;
pub const TWO: u8 = 0x2;
pub const THREE: u8 = 0x3;
pub const FOUR: u8 = 0x4;
pub const FIVE: u8 = 0x5;
pub const SIX: u8 = 0x6;
pub const SEVEN: u8 = 0x7;
pub const EIGHT: u8 = 0x8;
pub const NINE: u8 = 0x9;
pub const TEN: u8 = 0xa;
pub const JACK: u8 = 0xb;
pub const QUEEN: u8 = 0xc;
pub const KING: u8 = 0xd;
pub const ACE: u8 = 0xe;

/// A set of cards. Bit `suit + rank` stands for the card of that rank and suit,
/// so the order of the integer is the order of the deck: clubs, diamonds,
/// spades, hearts, and in each suit 2 up to the ace.
/// A single card is a set of one.
#[derive(Copy, Clone, PartialEq, Eq, Structural, Debug, Hash, PartialOrd, Ord)]
pub struct Cards(pub u64);

/// Masks of card sets, to be wrapped as `Cards(..)`.
pub const NO_CARD: u64 = 0;
pub const CLUBS: u64 = 0x7ffc;
pub const DIAMONDS: u64 = 0x7ffc_0000;
pub const SPADES: u64 = 0x7ffc_0000_0000;
pub const HEARTS: u64 = 0x7ffc_0000_0000_0000;
pub const ALL_CARDS: u64 = 0x7ffc_7ffc_7ffc_7ffc;

pub const TWO_OF_CLUBS: u64 = 0x4;
pub const THREE_OF_CLUBS: u64 = 0x8;
pub const FOUR_OF_CLUBS: u64 = 0x10;
pub const FIVE_OF_CLUBS: u64 = 0x20;
pub const SIX_OF_CLUBS: u64 = 0x40;
pub const SEVEN_OF_CLUBS: u64 = 0x80;
pub const EIGHT_OF_CLUBS: u64 = 0x100;
pub const NINE_OF_CLUBS: u64 = 0x200;
pub const TEN_OF_CLUBS: u64 = 0x400;
pub const JACK_OF_CLUBS: u64 = 0x800;
pub const QUEEN_OF_CLUBS: u64 = 0x1000;
pub const KING_OF_CLUBS: u64 = 0x2000;
pub const ACE_OF_CLUBS: u64 = 0x4000;
pub const TWO_OF_DIAMONDS: u64 = 0x4_0000;
pub const THREE_OF_DIAMONDS: u64 = 0x8_0000;
pub const FOUR_OF_DIAMONDS: u64 = 0x10_0000;
pub const FIVE_OF_DIAMONDS: u64 = 0x20_0000;
pub const SIX_OF_DIAMONDS: u64 = 0x40_0000;
pub const SEVEN_OF_DIAMONDS: u64 = 0x80_0000;
pub const EIGHT_OF_DIAMONDS: u64 = 0x100_0000;
pub const NINE_OF_DIAMONDS: u64 = 0x200_0000;
pub const TEN_OF_DIAMONDS: u64 = 0x400_0000;
pub const JACK_OF_DIAMONDS: u64 = 0x800_0000;
pub const QUEEN_OF_DIAMONDS: u64 = 0x1000_0000;
pub const KING_OF_DIAMONDS: u64 = 0x2000_0000;
pub const ACE_OF_DIAMONDS: u64 = 0x4000_0000;
pub const TWO_OF_SPADES: u64 = 0x4_0000_0000;
pub const THREE_OF_SPADES: u64 = 0x8_0000_0000;
pub const FOUR_OF_SPADES: u64 = 0x10_0000_0000;
pub const FIVE_OF_SPADES: u64 = 0x20_0000_0000;
pub const SIX_OF_SPADES: u64 = 0x40_0000_0000;
pub const SEVEN_OF_SPADES: u64 = 0x80_0000_0000;
pub const EIGHT_OF_SPADES: u64 = 0x100_0000_0000;
pub const NINE_OF_SPADES: u64 = 0x200_0000_0000;
pub const TEN_OF_SPADES: u64 = 0x400_0000_0000;
pub const JACK_OF_SPADES: u64 = 0x800_0000_0000;
pub const QUEEN_OF_SPADES: u64 = 0x1000_0000_0000;
pub const KING_OF_SPADES: u64 = 0x2000_0000_0000;
pub const ACE_OF_SPADES: u64 = 0x4000_0000_0000;
pub const TWO_OF_HEARTS: u64 = 0x4_0000_0000_0000;
pub const THREE_OF_HEARTS: u64 = 0x8_0000_0000_0000;
pub const FOUR_OF_HEARTS: u64 = 0x10_0000_0000_0000;
pub const FIVE_OF_HEARTS: u64 = 0x20_0000_0000_0000;
pub const SIX_OF_HEARTS: u64 = 0x40_0000_0000_0000;
pub const SEVEN_OF_HEARTS: u64 = 0x80_0000_0000_0000;
pub const EIGHT_OF_HEARTS: u64 = 0x100_0000_0000_0000;
pub const NINE_OF_HEARTS: u64 = 0x200_0000_0000_0000;
pub const TEN_OF_HEARTS: u64 = 0x400_0000_0000_0000;
pub const JACK_OF_HEARTS: u64 = 0x800_0000_0000_0000;
pub const QUEEN_OF_HEARTS: u64 = 0x1000_0000_0000_0000;
pub const KING_OF_HEARTS: u64 = 0x2000_0000_0000_0000;
pub const ACE_OF_HEARTS: u64 = 0x4000_0000_0000_0000;

/// A bit position that stands for a card: rank 2 to ace within one of the four suits.
pub open spec fn is_card_pos(p: int) -> bool {
    0 <= p < 64 && 2 <= p % 16 <= 14
}

/// The positions of the 52 cards.
pub open spec fn deck() -> Set<int> {
    Set::new(|p: int| is_card_pos(p))
}

/// The positions of the 13 cards of the suit whose base is `base` (0, 16, 32 or 48).
pub open spec fn suit_cards(base: int) -> Set<int> {
    Set::new(|p: int| is_card_pos(p) && base <= p < base + 16)
}

/// The base of the suit of the card at position `p`.
pub open spec fn suit_base(p: int) -> int {
    (p / 16) * 16
}

pub open spec fn queen_of_spades_pos() -> int {
    44
}

pub open spec fn two_of_clubs_pos() -> int {
    2
}

impl View for Cards {
    type V = Set<int>;

    /// The positions of the cards in the set.
    open spec fn view(&self) -> Set<int> {
        Set::new(|i: int| bit(self.0, i))
    }
}

impl Cards {
    /// This set is the single card at position `p`.
    pub open spec fn is_card(self, p: int) -> bool {
        is_card_pos(p) && self@ == set![p]
    }

    /// This set is a single card.
    pub open spec fn is_single(self) -> bool {
        exists|p: int| self.is_card(p)
    }

    /// `cards` is not empty and all of it is in this set.
    pub open spec fn holds(self, cards: Cards) -> bool {
        cards@ != Set::<int>::empty() && cards@.subset_of(self@)
    }

    /// This set meets the suit (or any set) `mask`.
    pub open spec fn meets(self, mask: Cards) -> bool {
        self@.intersect(mask@) != Set::<int>::empty()
    }
}

/// The rank of the card at position `p`, 2 to 14.
pub open spec fn rank_of(p: int) -> int {
    p % 16
}

/// The place of the card at position `p` in the ordered deck.
pub open spec fn deck_index_of(p: int) -> int {
    13 * (p / 16) + p % 16 - 2
}

/// The position of the card at place `k` of the ordered deck.
pub open spec fn card_pos_of_index(k: int) -> int {
    16 * (k / 13) + k % 13 + 2
}

/// The positions `0..64` of a word.
pub open spec fn word_positions() -> Set<int> {
    Set::new(|i: int| 0 <= i < 64)
}

pub proof fn lemma_view_finite(c: Cards)
    ensures
        c@.finite(),
        c@.subset_of(Set::new(|i: int| 0 <= i < 64)),
{
    let r = Set::new(|i: int| 0 <= i < 64);
    assert(r =~= vstd::set_lib::set_int_range(0, 64));
    vstd::set_lib::lemma_int_range(0, 64);
    vstd::set_lib::lemma_set_subset_finite(r, c@);
}

pub proof fn lemma_view_union(a: u64, b: u64)
    ensures
        Cards(a | b)@ =~= Cards(a)@.union(Cards(b)@),
{
    assert forall|i: int| 0 <= i < 64 implies (bit(a | b, i) <==> (bit(a, i) || bit(b, i))) by {
        lemma_bit_or(a, b, i as u64);
    }
}

pub proof fn lemma_view_intersect(a: u64, b: u64)
    ensures
        Cards(a & b)@ =~= Cards(a)@.intersect(Cards(b)@),
{
    assert forall|i: int| 0 <= i < 64 implies (bit(a & b, i) <==> (bit(a, i) && bit(b, i))) by {
        lemma_bit_and(a, b, i as u64);
    }
}

pub proof fn lemma_view_complement(a: u64)
    ensures
        Cards(!a)@ =~= Set::new(|i: int| 0 <= i < 64).difference(Cards(a)@),
{
    assert forall|i: int| 0 <= i < 64 implies (bit(!a, i) <==> !bit(a, i)) by {
        lemma_bit_not(a, i as u64);
    }
}

pub proof fn lemma_view_difference(a: u64, b: u64)
    ensures
        Cards(a & !b)@ =~= Cards(a)@.difference(Cards(b)@),
{
    lemma_view_complement(b);
    lemma_view_intersect(a, !b);
}

pub proof fn lemma_view_empty()
    ensures
        Cards(0)@ =~= Set::<int>::empty(),
{
    assert forall|i: int| 0 <= i < 64 implies !bit(0, i) by {
        lemma_bit_zero(i as u64);
    }
}

pub proof fn lemma_view_single(k: u64)
    requires
        k < 64,
    ensures
        Cards(1u64 << k)@ =~= set![k as int],
{
    assert forall|i: int| 0 <= i < 64 implies (bit(1u64 << k, i) <==> i == k) by {
        lemma_bit_single(k, i as u64);
    }
}

/// Two sets with the same cards are the same value.
pub proof fn lemma_view_injective(a: Cards, b: Cards)
    requires
        a@ == b@,
    ensures
        a == b,
{
    assert forall|i: int| 0 <= i < 64 implies bit(a.0, i) == bit(b.0, i) by {
        assert(a@.contains(i) == bit(a.0, i));
        assert(b@.contains(i) == bit(b.0, i));
    }
    lemma_bits_equal(a.0, b.0);
}

pub proof fn lemma_masks()
    ensures
        Cards(CLUBS)@ =~= suit_cards(0),
        Cards(DIAMONDS)@ =~= suit_cards(16),
        Cards(SPADES)@ =~= suit_cards(32),
        Cards(HEARTS)@ =~= suit_cards(48),
        Cards(ALL_CARDS)@ =~= deck(),
{
    assert forall|i: int| 0 <= i < 64 implies {
        &&& (bit(CLUBS, i) <==> suit_cards(0).contains(i))
        &&& (bit(DIAMONDS, i) <==> suit_cards(16).contains(i))
        &&& (bit(SPADES, i) <==> suit_cards(32).contains(i))
        &&& (bit(HEARTS, i) <==> suit_cards(48).contains(i))
        &&& (bit(ALL_CARDS, i) <==> deck().contains(i))
    } by {
        lemma_mask_bits(i as u64);
    }
    assert forall|i: int| suit_cards(0).contains(i) || deck().contains(i) implies 0 <= i < 64 by {}
}

/// A single card is the word with only its bit set.
pub proof fn lemma_card_word(c: Cards, p: int)
    requires
        c.is_card(p),
    ensures
        c.0 == 1u64 << (p as u64),
{
    lemma_view_single(p as u64);
    lemma_view_injective(c, Cards(1u64 << (p as u64)));
}

/// Position of the lowest set bit of a non-zero word.
fn lowest_bit(bits: u64) -> (r: u8)
    requires
        bits != 0,
    ensures
        r as int == vstd::std_specs::bits::u64_trailing_zeros(bits),
        r < 64,
{
    broadcast use vstd::std_specs::bits::axiom_u64_trailing_zeros;

    let ghost tz = vstd::std_specs::bits::u64_trailing_zeros(bits);
    let mut cnt: u64 = 0;
    while (bits >> cnt) & 1 == 0
        invariant
            cnt <= tz < 64,
            tz == vstd::std_specs::bits::u64_trailing_zeros(bits),
        decreases tz - cnt,
    {
        assert(cnt != tz);
        cnt = cnt + 1;
    }
    cnt as u8
}

impl Cards {
    /// The card of `rank` in `suit` (a suit base: 0, 16, 32 or 48).
    pub fn of(rank: u8, suit: u8) -> (r: Cards)
        requires
            rank + suit < 64,
        ensures
            r@ == set![(rank + suit) as int],
    {
        let k = (rank + suit) as u64;
        proof {
            lemma_view_single(k);
        }
        Cards(1u64 << k)
    }

    /// Whether the set holds no card.
    pub fn is_empty(self) -> (r: bool)
        ensures
            r == (self@ == Set::<int>::empty()),
    {
        proof {
            lemma_view_empty();
            if self@ == Set::<int>::empty() {
                lemma_view_injective(self, Cards(0));
            }
        }
        self.0 == NO_CARD
    }

    /// Whether `cards` is non-empty and wholly within this set.
    pub fn contains(self, cards: Cards) -> (r: bool)
        ensures
            r == self.holds(cards),
    {
        proof {
            lemma_view_empty();
            lemma_view_intersect(self.0, cards.0);
            if cards@ == Set::<int>::empty() {
                lemma_view_injective(cards, Cards(0));
            }
            if cards@.subset_of(self@) {
                assert(Cards(self.0 & cards.0)@ =~= cards@);
                lemma_view_injective(Cards(self.0 & cards.0), cards);
            }
        }
        cards.0 != 0 && self.0 & cards.0 == cards.0
    }

    /// The number of cards in the set.
    pub fn count(self) -> (r: u8)
        ensures
            r as int == self@.len(),
            self@.finite(),
    {
        let mut n: u8 = 0;
        let mut i: u64 = 0;
        proof {
            lemma_view_finite(self);
            assert(self@.filter(|p: int| p < 0) =~= Set::<int>::empty());
        }
        while i < 64
            invariant
                i <= 64,
                n <= i,
                self@.finite(),
                n as int == self@.filter(|p: int| p < i).len(),
            decreases 64 - i,
        {
            let ghost s0 = self@.filter(|p: int| p < i);
            let ghost s1 = self@.filter(|p: int| p < i + 1);
            if (self.0 >> i) & 1 == 1 {
                n = n + 1;
                assert(s1 =~= s0.insert(i as int));
            } else {
                assert(s1 =~= s0);
            }
            i = i + 1;
        }
        assert(self@.filter(|p: int| p < 64) =~= self@);
        n
    }

    /// The number of cards of the set within `suit_mask`.
    pub fn count_suit(self, suit_mask: Cards) -> (r: u8)
        ensures
            r as int == self@.intersect(suit_mask@).len(),
    {
        proof {
            lemma_view_intersect(self.0, suit_mask.0);
        }
        self.intersect(suit_mask).count()
    }

    /// The cards of either set.
    pub fn union(self, other: Cards) -> (r: Cards)
        ensures
            r@ == self@.union(other@),
            r == Cards(self.0 | other.0),
    {
        proof {
            lemma_view_union(self.0, other.0);
        }
        Cards(self.0 | other.0)
    }

    /// Adds the cards of `other` to this set.
    pub fn add_assign(&mut self, other: Cards)
        ensures
            final(self)@ == old(self)@.union(other@),
    {
        *self = self.union(other);
    }

    /// The cards of both sets.
    pub fn intersect(self, other: Cards) -> (r: Cards)
        ensures
            r@ == self@.intersect(other@),
            r == Cards(self.0 & other.0),
    {
        proof {
            lemma_view_intersect(self.0, other.0);
        }
        Cards(self.0 & other.0)
    }

    /// Every bit position of the word that is not in the set; only meaningful
    /// when masked again.
    pub fn complement(self) -> (r: Cards)
        ensures
            r@ == word_positions().difference(self@),
    {
        proof {
            lemma_view_complement(self.0);
        }
        Cards(!self.0)
    }

    /// The cards of this set that are not in `other`.
    pub fn difference(self, other: Cards) -> (r: Cards)
        ensures
            r@ == self@.difference(other@),
            r == Cards(self.0 & !other.0),
    {
        proof {
            lemma_view_difference(self.0, other.0);
        }
        Cards(self.0 & !other.0)
    }

    /// Whether the set holds a heart.
    pub fn is_heart(self) -> (r: bool)
        ensures
            r == self.meets(Cards(HEARTS)),
    {
        self.contains_suit(Cards(HEARTS))
    }

    /// Whether the set is exactly the queen of spades.
    pub fn is_queen_of_spade(self) -> (r: bool)
        ensures
            r == (self@ == set![queen_of_spades_pos()]),
    {
        proof {
            lemma_view_single(44);
            lemma_named_cards();
            if self@ == set![queen_of_spades_pos()] {
                lemma_view_injective(self, Cards(QUEEN_OF_SPADES));
            }
        }
        self.0 == QUEEN_OF_SPADES
    }

    /// Whether the set holds a card of `suit_mask`.
    pub fn contains_suit(self, suit_mask: Cards) -> (r: bool)
        ensures
            r == self.meets(suit_mask),
    {
        proof {
            lemma_view_intersect(self.0, suit_mask.0);
            lemma_view_empty();
            if self@.intersect(suit_mask@) == Set::<int>::empty() {
                lemma_view_injective(Cards(self.0 & suit_mask.0), Cards(0));
            }
        }
        self.0 & suit_mask.0 != 0
    }

    /// Whether every card of the set is within `suit_mask`.
    pub fn are_all_of(self, suit_mask: Cards) -> (r: bool)
        ensures
            r == self@.subset_of(suit_mask@),
    {
        proof {
            lemma_view_difference(self.0, suit_mask.0);
            lemma_view_empty();
            if self@.subset_of(suit_mask@) {
                assert(Cards(self.0 & !suit_mask.0)@ =~= Set::<int>::empty());
                lemma_view_injective(Cards(self.0 & !suit_mask.0), Cards(0));
            } else {
                let p = choose|p: int| self@.contains(p) && !suit_mask@.contains(p);
                assert(Cards(self.0 & !suit_mask.0)@.contains(p));
            }
        }
        self.0 & !suit_mask.0 == 0
    }
}


impl Cards {
    /// The mask of all ranks in the lowest suit.
    pub fn rank_mask() -> (r: Cards)
        ensures
            r@ == suit_cards(0),
    {
        proof {
            lemma_masks();
        }
        Cards(CLUBS)
    }

    /// The whole suit of a card, found by comparing the set with the first card
    /// of diamonds, spades and hearts.
    pub fn suit_mask(self) -> (r: Cards)
        ensures
            r == Cards(
                if self.0 < TWO_OF_DIAMONDS {
                    CLUBS
                } else if self.0 < TWO_OF_SPADES {
                    DIAMONDS
                } else if self.0 < TWO_OF_HEARTS {
                    SPADES
                } else {
                    HEARTS
                },
            ),
            forall|p: int| self.is_card(p) ==> r@ == suit_cards(suit_base(p)),
    {
        let r = if self.0 < TWO_OF_DIAMONDS {
            Cards(CLUBS)
        } else if self.0 < TWO_OF_SPADES {
            Cards(DIAMONDS)
        } else if self.0 < TWO_OF_HEARTS {
            Cards(SPADES)
        } else {
            Cards(HEARTS)
        };
        proof {
            lemma_masks();
            lemma_named_cards();
            assert forall|p: int| self.is_card(p) implies r@ == suit_cards(suit_base(p)) by {
                lemma_card_word(self, p);
                lemma_shift_order(p as u64, 18);
                lemma_shift_order(p as u64, 34);
                lemma_shift_order(p as u64, 50);
            }
        }
        r
    }

    /// The suit base that a whole-suit mask stands for, or `NO_SUIT`.
    pub open spec fn mask_to_suit_spec(self) -> u8 {
        if self.0 == CLUBS {
            CLUB
        } else if self.0 == DIAMONDS {
            DIAMOND
        } else if self.0 == SPADES {
            SPADE
        } else if self.0 == HEARTS {
            HEART
        } else {
            NO_SUIT
        }
    }

    /// The suit base that a whole-suit mask stands for, or `NO_SUIT`.
    pub fn mask_to_suit(self) -> (r: u8)
        ensures
            r == self.mask_to_suit_spec(),
    {
        if self.0 == CLUBS {
            CLUB
        } else if self.0 == DIAMONDS {
            DIAMOND
        } else if self.0 == SPADES {
            SPADE
        } else if self.0 == HEARTS {
            HEART
        } else {
            NO_SUIT
        }
    }

    /// The suit base of a card, found by comparing the set with the last card
    /// of clubs, diamonds and spades.
    pub fn suit(self) -> (r: u8)
        ensures
            r == if self.0 <= ACE_OF_CLUBS {
                CLUB
            } else if self.0 <= ACE_OF_DIAMONDS {
                DIAMOND
            } else if self.0 <= ACE_OF_SPADES {
                SPADE
            } else {
                HEART
            },
            forall|p: int| self.is_card(p) ==> r as int == suit_base(p),
    {
        let r = if self.0 <= ACE_OF_CLUBS {
            CLUB
        } else if self.0 <= ACE_OF_DIAMONDS {
            DIAMOND
        } else if self.0 <= ACE_OF_SPADES {
            SPADE
        } else {
            HEART
        };
        proof {
            lemma_named_cards();
            assert forall|p: int| self.is_card(p) implies r as int == suit_base(p) by {
                lemma_card_word(self, p);
                lemma_shift_order(p as u64, 14);
                lemma_shift_order(p as u64, 30);
                lemma_shift_order(p as u64, 46);
            }
        }
        r
    }

    /// The suit base and the rank of a single card.
    pub fn suit_and_rank(self) -> (r: (u8, u8))
        requires
            self.is_single(),
        ensures
            forall|p: int| self.is_card(p) ==> r.0 as int == suit_base(p) && r.1 as int == rank_of(p),
    {
        let ghost p = choose|p: int| self.is_card(p);
        let suit = self.suit();
        assert(suit as int == suit_base(p));
        proof {
            broadcast use vstd::std_specs::bits::axiom_u64_trailing_zeros;

            lemma_card_word(self, p);
            lemma_shift_down(p as u64, suit as u64);
            let k = (p - suit) as u64;
            let tz = vstd::std_specs::bits::u64_trailing_zeros(1u64 << k);
            lemma_bit_single(k, k);
            if tz < 64 {
                lemma_bit_single(k, tz as u64);
            }
            assert forall|q: int| self.is_card(q) implies q == p by {
                assert(self@.contains(q));
            }
        }
        let rank = lowest_bit(self.0 >> (suit as u64));
        (suit, rank)
    }

    /// The place of a single card in the ordered deck, 0 to 51.
    pub fn deck_index(self) -> (r: usize)
        requires
            self.is_single(),
        ensures
            forall|p: int| self.is_card(p) ==> r as int == deck_index_of(p),
    {
        let (suit, rank) = self.suit_and_rank();
        let ghost p = choose|p: int| self.is_card(p);
        assert(suit as int == suit_base(p) && rank as int == rank_of(p));
        assert forall|q: int| self.is_card(q) implies q == p by {
            assert(self@.contains(q));
        }
        (13 * (suit / 16) as usize + rank as usize - 2) as usize
    }

    /// The card at place `index` of the ordered deck.
    pub fn from_deck_index(index: u8) -> (r: Cards)
        requires
            index < 52,
        ensures
            r.is_card(card_pos_of_index(index as int)),
    {
        Cards::of(index % 13 + 2, (index / 13) * 16)
    }
}

/// Each card has one place in the ordered deck and each place one card: the
/// two of clubs is first, the ace of hearts last.
pub proof fn lemma_deck_index_bijection()
    ensures
        forall|p: int| #[trigger] is_card_pos(p) ==> 0 <= deck_index_of(p) < 52 && card_pos_of_index(deck_index_of(p)) == p,
        forall|k: int| 0 <= k < 52 ==> is_card_pos(#[trigger] card_pos_of_index(k)) && deck_index_of(card_pos_of_index(k)) == k,
        deck_index_of(two_of_clubs_pos()) == 0,
        deck_index_of(62) == 51,
{
    assert forall|p: int| #[trigger] is_card_pos(p) implies 0 <= deck_index_of(p) < 52 && card_pos_of_index(deck_index_of(p)) == p by {
        if p < 16 {
        } else if p < 32 {
        } else if p < 48 {
        } else {
        }
    }
    assert forall|k: int| 0 <= k < 52 implies is_card_pos(#[trigger] card_pos_of_index(k)) && deck_index_of(card_pos_of_index(k)) == k by {
        if k < 13 {
        } else if k < 26 {
        } else if k < 39 {
        } else {
        }
    }
}

/// The result of moving cards out of `src` into `dest`.
#[derive(Copy, Clone, PartialEq, Eq, Structural, Debug)]
pub struct Transfer {
    /// The cards that remain.
    pub src: Cards,
    /// The cards that were moved.
    pub dest: Cards,
}

impl View for Transfer {
    type V = (Set<int>, Set<int>);

    open spec fn view(&self) -> (Set<int>, Set<int>) {
        (self.src@, self.dest@)
    }
}

impl Transfer {
    /// Moves `cards` from `src` to `dest`; fails unless `src` holds them.
    pub fn transfer(self, cards: Cards) -> (r: Option<Transfer>)
        ensures
            r.is_some() == self.src.holds(cards),
            r matches Some(t) ==> t@ == (self.src@.difference(cards@), self.dest@.union(cards@)),
    {
        if self.src.contains(cards) {
            Some(Transfer { src: self.src.difference(cards), dest: self.dest.union(cards) })
        } else {
            None
        }
    }
}

impl Cards {
    /// Moves `cards` out of this set; fails unless the set holds them.
    pub fn transfer(self, cards: Cards) -> (r: Option<Transfer>)
        ensures
            r.is_some() == self.holds(cards),
            r matches Some(t) ==> t@ == (self@.difference(cards@), cards@),
    {
        proof {
            lemma_view_empty();
        }
        let r = (Transfer { src: self, dest: Cards(NO_CARD) }).transfer(cards);
        proof {
            if let Some(t) = r {
                assert(t.dest@ =~= cards@);
            }
        }
        r
    }
}

/// A transfer out of `s` succeeds exactly when `s` holds `c`; then what
/// remains and what moved are disjoint and make up `s` again.
pub proof fn lemma_transfer_invertible(s: Cards, c: Cards)
    ensures
        s.holds(c) ==> s@.difference(c@).union(c@) == s@ && s@.difference(c@).disjoint(c@),
{
    if s.holds(c) {
        assert(s@.difference(c@).union(c@) =~= s@);
    }
}


/// A walk over the cards of a set, from either end: the cards still to come
/// are those of `card` at positions `front..back`.
#[derive(Clone, Copy, Debug)]
pub struct CardIter {
    pub card: Cards,
    pub front: u64,
    pub back: u64,
}

impl CardIter {
    pub open spec fn wf(&self) -> bool {
        self.front <= self.back <= 64
    }

    /// The positions of the cards still to come.
    pub open spec fn remaining(&self) -> Set<int> {
        self.card@.filter(|p: int| self.front <= p < self.back)
    }

    /// The lowest card still to come.
    pub fn next(&mut self) -> (r: Option<Cards>)
        requires
            old(self).wf(),
        ensures
            final(self).wf(),
            r is None ==> old(self).remaining() == Set::<int>::empty() && final(self).remaining() == Set::<int>::empty(),
            r matches Some(c) ==> exists|p: int| {
                &&& c@ == set![p]
                &&& old(self).remaining().contains(p)
                &&& forall|q: int| old(self).remaining().contains(q) ==> p <= q
                &&& final(self).remaining() == old(self).remaining().remove(p)
            },
    {
        while self.front < self.back
            invariant
                self.wf(),
                self.card == old(self).card,
                self.back == old(self).back,
                old(self).front <= self.front,
                forall|q: int| old(self).front <= q < self.front ==> !self.card@.contains(q),
            decreases self.back - self.front,
        {
            let pos = self.front;
            self.front = self.front + 1;
            if (self.card.0 >> pos) & 1 == 1 {
                proof {
                    lemma_view_single(pos);
                    assert(self.card@.contains(pos as int));
                    assert(self.remaining() =~= old(self).remaining().remove(pos as int));
                }
                return Some(Cards(1u64 << pos));
            }
        }
        assert(old(self).remaining() =~= Set::<int>::empty());
        assert(self.remaining() =~= Set::<int>::empty());
        None
    }

    /// The highest card still to come.
    pub fn next_back(&mut self) -> (r: Option<Cards>)
        requires
            old(self).wf(),
        ensures
            final(self).wf(),
            r is None ==> old(self).remaining() == Set::<int>::empty() && final(self).remaining() == Set::<int>::empty(),
            r matches Some(c) ==> exists|p: int| {
                &&& c@ == set![p]
                &&& old(self).remaining().contains(p)
                &&& forall|q: int| old(self).remaining().contains(q) ==> q <= p
                &&& final(self).remaining() == old(self).remaining().remove(p)
            },
    {
        while self.front < self.back
            invariant
                self.wf(),
                self.card == old(self).card,
                self.front == old(self).front,
                self.back <= old(self).back,
                forall|q: int| self.back <= q < old(self).back ==> !self.card@.contains(q),
            decreases self.back - self.front,
        {
            self.back = self.back - 1;
            let pos = self.back;
            if (self.card.0 >> pos) & 1 == 1 {
                proof {
                    lemma_view_single(pos);
                    assert(self.card@.contains(pos as int));
                    assert(self.remaining() =~= old(self).remaining().remove(pos as int));
                }
                return Some(Cards(1u64 << pos));
            }
        }
        assert(old(self).remaining() =~= Set::<int>::empty());
        assert(self.remaining() =~= Set::<int>::empty());
        None
    }
}

impl Cards {
    /// A walk over the cards of the set, lowest first with `next`, highest
    /// first with `next_back`.
    pub fn iter(self) -> (r: CardIter)
        ensures
            r.wf(),
            r.remaining() == self@,
    {
        let r = CardIter { card: self, front: 0, back: 64 };
        proof {
            lemma_view_finite(self);
            assert(r.remaining() =~= self@);
        }
        r
    }

    /// A walk over the cards of the set within `suit_mask`.
    pub fn iter_of_suit(self, suit_mask: Cards) -> (r: CardIter)
        ensures
            r.wf(),
            r.remaining() == self@.intersect(suit_mask@),
    {
        let cards = self.intersect(suit_mask);
        let r = CardIter { card: cards, front: 0, back: 64 };
        proof {
            lemma_view_finite(cards);
            assert(r.remaining() =~= self@.intersect(suit_mask@));
        }
        r
    }
}

} // verus!
