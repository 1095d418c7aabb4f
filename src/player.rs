//! A player's cards, scores and what the others have learned of their hand.
use vstd::prelude::*;
use crate::card::{Cards, NO_CARD};

verus! {

pub const ME: usize = 0;
pub const LEFT: usize = 1;
pub const OPPOSITE: usize = 2;
pub const RIGHT: usize = 3;
pub const NOBODY: usize = 4;

/// All four suits may still be in a hand.
pub const ALL_SUIT_BITS: u8 = 0b1111;

/// One of the four players.
#[derive(Clone, Copy, Debug)]
pub struct Player {
    /// The cards in hand.
    pub hand: Cards,
    /// The card played in the current trick.
    pub discarding: Cards,
    /// The score of this deal, up to 26.
    pub hand_score: u8,
    /// The score of this game; the game ends at 100.
    pub game_score: u8,
    /// One bit per suit (clubs lowest) that the hand may still hold; a bit is
    /// cleared when the player fails to follow that suit.
    pub suit_bits: u8,
    /// How many games this player has won.
    pub awards: u32,
}

/// The letters of the suits whose bits are set, hearts first.
pub open spec fn suit_letters(bits: u8) -> Seq<char> {
    (if bits & 8 != 0 { seq!['h'] } else { Seq::empty() }) + (if bits & 4 != 0 { seq!['s'] } else { Seq::empty() }) + (
    if bits & 2 != 0 {
        seq!['d']
    } else {
        Seq::empty()
    }) + (if bits & 1 != 0 { seq!['c'] } else { Seq::empty() })
}

impl Player {
    /// A player with no cards, no score and no win.
    pub fn new() -> (r: Player)
        ensures
            r.hand == Cards(NO_CARD),
            r.discarding == Cards(NO_CARD),
            r.hand_score == 0,
            r.game_score == 0,
            r.suit_bits == 0,
            r.awards == 0,
    {
        Player { hand: Cards(NO_CARD), discarding: Cards(NO_CARD), hand_score: 0, game_score: 0, suit_bits: 0, awards: 0 }
    }

    /// Clears everything but the number of games won.
    pub fn reset(&mut self)
        ensures
            final(self).hand == Cards(NO_CARD),
            final(self).discarding == Cards(NO_CARD),
            final(self).hand_score == 0,
            final(self).game_score == 0,
            final(self).suit_bits == 0,
            final(self).awards == old(self).awards,
    {
        self.hand = Cards(NO_CARD);
        self.discarding = Cards(NO_CARD);
        self.hand_score = 0;
        self.game_score = 0;
        self.suit_bits = 0;
    }

    /// Whether the hand may still hold cards of `suit` (a suit base), as far as
    /// the others can tell.
    pub fn may_have(&self, suit: u8) -> (r: bool)
        requires
            suit < 0x80,
        ensures
            r == ((self.suit_bits >> (suit / 16)) & 1 == 1),
    {
        let k = suit >> 4;
        assert(suit >> 4 == suit / 16) by (bit_vector);
        assert(k < 8);
        let bits = self.suit_bits;
        assert(bits & (1u8 << k) != 0 <==> (bits >> k) & 1 == 1) by (bit_vector)
            requires
                k < 8,
        ;
        bits & (1u8 << k) != 0
    }

    /// The letters of the suits the hand may still hold, hearts first.
    pub fn suit_chars(&self) -> (r: &'static str)
        requires
            self.suit_bits < 16,
        ensures
            r@ == suit_letters(self.suit_bits),
    {
        let bits = self.suit_bits;
        assert(bits & 8 != 0 <==> bits >= 8 && bits < 16) by (bit_vector)
            requires
                bits < 16,
        ;
        assert(bits & 4 != 0 <==> bits % 8 >= 4) by (bit_vector);
        assert(bits & 2 != 0 <==> bits % 4 >= 2) by (bit_vector);
        assert(bits & 1 != 0 <==> bits % 2 == 1) by (bit_vector);
        match bits {
            0b0000 => {
                proof {
                    reveal_strlit("");
                }
                ""
            },
            0b0001 => {
                proof {
                    reveal_strlit("c");
                }
                "c"
            },
            0b0010 => {
                proof {
                    reveal_strlit("d");
                }
                "d"
            },
            0b0011 => {
                proof {
                    reveal_strlit("dc");
                }
                "dc"
            },
            0b0100 => {
                proof {
                    reveal_strlit("s");
                }
                "s"
            },
            0b0101 => {
                proof {
                    reveal_strlit("sc");
                }
                "sc"
            },
            0b0110 => {
                proof {
                    reveal_strlit("sd");
                }
                "sd"
            },
            0b0111 => {
                proof {
                    reveal_strlit("sdc");
                }
                "sdc"
            },
            0b1000 => {
                proof {
                    reveal_strlit("h");
                }
                "h"
            },
            0b1001 => {
                proof {
                    reveal_strlit("hc");
                }
                "hc"
            },
            0b1010 => {
                proof {
                    reveal_strlit("hd");
                }
                "hd"
            },
            0b1011 => {
                proof {
                    reveal_strlit("hdc");
                }
                "hdc"
            },
            0b1100 => {
                proof {
                    reveal_strlit("hs");
                }
                "hs"
            },
            0b1101 => {
                proof {
                    reveal_strlit("hsc");
                }
                "hsc"
            },
            0b1110 => {
                proof {
                    reveal_strlit("hsd");
                }
                "hsd"
            },
            _ => {
                proof {
                    reveal_strlit("hsdc");
                }
                "hsdc"
            },
        }
    }
}

} // verus!
