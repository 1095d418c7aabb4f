//! The game as a state machine: what the game waits for next, and one step
//! of it for each decision handed in.
use vstd::prelude::*;
use crate::card::{Cards, Transfer};
use crate::deal::is_deal;
use crate::game::{
    Game, cards_accounted, game_over, is_legal, is_lowest, trick_points, discard_effect, next_round_effect,
    keep_score_effect,
};
use crate::strategy::{is_strategy_pick, is_pass_pick, passed};

verus! {

/// What the game waits for.
#[derive(Copy, Clone, PartialEq, Eq, Structural, Debug)]
pub enum Phase {
    /// Every player passes three cards.
    AwaitPass,
    /// Player `who` plays a card to the trick.
    AwaitPlay { who: usize },
    /// All four have played; the trick is scored next.
    TrickComplete,
    /// A new deal is due.
    DealComplete,
    /// A player has reached 100; `winner` has the lowest score.
    GameComplete { winner: usize },
}

/// How many players have played to the trick on the table.
pub open spec fn n_played(g: Game) -> int {
    (if g.players[0].discarding@ != Set::<int>::empty() { 1int } else { 0 }) + (if g.players[1].discarding@
        != Set::<int>::empty() { 1int } else { 0 }) + (if g.players[2].discarding@ != Set::<int>::empty() {
        1int
    } else {
        0
    }) + (if g.players[3].discarding@ != Set::<int>::empty() { 1int } else { 0 })
}

/// The first player with the lowest game score (see `is_lowest`).
pub open spec fn lowest_player(g: Game) -> int {
    choose|r: int| is_lowest(g, r)
}

/// The phase of a game: between deals (before the first, after the 13th
/// trick) a new deal or the end of the game; while passing, the pass; during
/// a trick, the next player after the leader, or the scoring.
pub open spec fn phase_of(g: Game) -> Phase {
    if (g.round == 0 && g.deal == 0) || g.round > 13 {
        if game_over(g) {
            Phase::GameComplete { winner: lowest_player(g) as usize }
        } else {
            Phase::DealComplete
        }
    } else if g.round == 0 {
        Phase::AwaitPass
    } else if n_played(g) < 4 {
        Phase::AwaitPlay { who: ((g.under_the_gun + n_played(g)) % 4) as usize }
    } else {
        Phase::TrickComplete
    }
}

/// The bounds under which a step is taken; every game played by the rules
/// stays within them.
pub open spec fn can_step(g: Game) -> bool {
    &&& g.deal < 1_000_000
    &&& g.round < 1000
    &&& forall|i: int| 0 <= i < 4 ==> (#[trigger] g.players[i]).hand_score <= 100 && g.players[i].awards < u32::MAX
    &&& (g.round == 13 ==> forall|i: int| 0 <= i < 4 ==> (#[trigger] g.players[i]).game_score < 100)
    &&& (trick_points(g) != 0 ==> g.round_winner < 4)
}

proof fn lemma_lowest(g: Game, r: int)
    requires
        is_lowest(g, r),
    ensures
        r == lowest_player(g),
{
    let c = choose|c: int| is_lowest(g, c);
    assert(is_lowest(g, c));
    if c < r {
        assert(g.players[c].game_score > g.players[r].game_score);
    } else if r < c {
        assert(g.players[r].game_score > g.players[c].game_score);
    }
}

/// `who` played `c`: the proposal when legal, else the strategy's choice.
pub open spec fn played(before: Game, after: Game, who: int, proposal: Cards, t: Transfer) -> bool {
    &&& (is_legal(before, who, proposal) ==> t.dest == proposal)
    &&& (!is_legal(before, who, proposal) ==> is_strategy_pick(before, who, t.dest))
    &&& t.src@ == before.players[who].hand@.difference(t.dest@)
    &&& discard_effect(before, after, who, t)
}

/// Every player passed (`passed`, with `proposals[0]` for this player) and
/// the first trick began; nothing else changed.
pub open spec fn pass_step(before: Game, after: Game, proposals: [Cards; 4]) -> bool {
    exists|q: Seq<Cards>, mid: Game| {
        &&& passed(before, mid, proposals, q)
        &&& mid == (Game { players: mid.players, ..before })
        &&& next_round_effect(mid, after)
    }
}

impl Game {
    fn n_played_exec(&self) -> (r: usize)
        ensures
            r as int == n_played(*self),
    {
        let mut n: usize = 0;
        if !self.players[0].discarding.is_empty() {
            n = n + 1;
        }
        if !self.players[1].discarding.is_empty() {
            n = n + 1;
        }
        if !self.players[2].discarding.is_empty() {
            n = n + 1;
        }
        if !self.players[3].discarding.is_empty() {
            n = n + 1;
        }
        n
    }

    fn lowest_exec(&self) -> (r: usize)
        ensures
            r as int == lowest_player(*self),
    {
        let a: usize = if self.players[1].game_score < self.players[0].game_score { 1 } else { 0 };
        let b: usize = if self.players[2].game_score < self.players[a].game_score { 2 } else { a };
        let r: usize = if self.players[3].game_score < self.players[b].game_score { 3 } else { b };
        proof {
            assert(is_lowest(*self, r as int));
            lemma_lowest(*self, r as int);
        }
        r
    }

    /// What the game waits for now.
    pub fn phase(&self) -> (r: Phase)
        ensures
            r == phase_of(*self),
    {
        if (self.round == 0 && self.deal == 0) || self.round > 13 {
            let over = self.players[0].game_score >= 100 || self.players[1].game_score >= 100
                || self.players[2].game_score >= 100 || self.players[3].game_score >= 100;
            if over {
                Phase::GameComplete { winner: self.lowest_exec() }
            } else {
                Phase::DealComplete
            }
        } else if self.round == 0 {
            Phase::AwaitPass
        } else {
            let n = self.n_played_exec();
            if n < 4 {
                Phase::AwaitPlay { who: (self.under_the_gun % 4 + n) % 4 }
            } else {
                Phase::TrickComplete
            }
        }
    }

    /// Takes one step of the game. `proposals[i]` is what player `i` offers
    /// to pass or play; an offer that breaks a rule is replaced by the
    /// strategy's choice when `fallback` is set, else the step is refused and
    /// nothing changes (the player is asked again). While passing, the other
    /// players' offers always fall back. Returns the phase reached.
    pub fn step(&mut self, proposals: [Cards; 4], fallback: bool) -> (r: Phase)
        requires
            can_step(*old(self)),
        ensures
            r == phase_of(*final(self)),
            cards_accounted(*old(self)) && phase_of(*old(self)) != Phase::DealComplete && !(phase_of(*old(self)) is GameComplete)
                ==> cards_accounted(*final(self)),
            phase_of(*old(self)) matches Phase::GameComplete { winner } ==> {
                &&& final(self).players[winner as int].awards == old(self).players[winner as int].awards + 1
                &&& forall|i: int| 0 <= i < 4 && i != winner ==> final(self).players[i].awards == old(self).players[i].awards
                &&& forall|i: int| 0 <= i < 4 ==> (#[trigger] final(self).players[i]).game_score == 0 && final(self).players[i].hand@
                    == Set::<int>::empty()
                &&& final(self).round == 0 && final(self).deal == 0
            },
            phase_of(*old(self)) == Phase::DealComplete ==> {
                &&& is_deal(seq![final(self).players[0].hand@, final(self).players[1].hand@, final(self).players[2].hand@, final(self).players[3].hand@])
                &&& cards_accounted(*final(self))
                &&& final(self).deal == old(self).deal + 1
                &&& final(self).round == if final(self).deal % 4 != 0 { 0usize } else { 1usize }
                &&& forall|i: int| 0 <= i < 4 ==> (#[trigger] final(self).players[i]).game_score == old(self).players[i].game_score
            },
            phase_of(*old(self)) == Phase::AwaitPass && is_legal(*old(self), 0, proposals[0]) ==> pass_step(
                *old(self),
                *final(self),
                proposals,
            ),
            phase_of(*old(self)) == Phase::AwaitPass && !is_legal(*old(self), 0, proposals[0]) ==> if fallback {
                exists|m: Cards| {
                    &&& is_pass_pick(old(self).players[0].hand, m@)
                    &&& if is_legal(*old(self), 0, m) {
                        pass_step(*old(self), *final(self), [m, proposals[1], proposals[2], proposals[3]])
                    } else {
                        *final(self) == *old(self)
                    }
                }
            } else {
                *final(self) == *old(self)
            },
            phase_of(*old(self)) matches Phase::AwaitPlay { who } ==> if !fallback && !is_legal(*old(self), who as int, proposals[who as int]) {
                *final(self) == *old(self)
            } else {
                exists|t: Transfer| played(*old(self), *final(self), who as int, proposals[who as int], t)
            },
            phase_of(*old(self)) == Phase::TrickComplete ==> exists|mid: Game| keep_score_effect(*old(self), mid) && next_round_effect(mid, *final(self)),
    {
        let phase = self.phase();
        match phase {
            Phase::GameComplete { winner } => {
                let w = self.get_winner();
                proof {
                    lemma_lowest(*old(self), w as int);
                }
                self.reset();
                proof {
                    crate::card::lemma_view_empty();
                    assert(w == winner);
                }
            },
            Phase::DealComplete => {
                self.deal();
                let ghost dealt = *self;
                if !self.needs_pass_cards() {
                    self.next_round();
                }
                assert(forall|i: int| 0 <= i < 4 ==> self.players[i].hand == dealt.players[i].hand);
                assert(seq![self.players[0].hand@, self.players[1].hand@, self.players[2].hand@, self.players[3].hand@] == seq![dealt.players[0].hand@, dealt.players[1].hand@, dealt.players[2].hand@, dealt.players[3].hand@]);
            },
            Phase::AwaitPass => {
                let legal = self.break_the_rule(0, proposals[0]).is_none();
                proof {
                    reveal(crate::game::is_legal);
                }
                if legal {
                    let ghost before = *self;
                    self.pass_cards_with(proposals);
                    let ghost mid = *self;
                    self.next_round();
                    proof {
                        let q = choose|q: Seq<Cards>| passed(before, mid, proposals, q);
                        assert(passed(before, mid, proposals, q) && mid == (Game { players: mid.players, ..before })
                            && next_round_effect(mid, *self));
                    }
                } else if fallback {
                    let ghost before = *self;
                    let mine = self.pick_cards_for(0, proposals[0]).dest;
                    let offers = [mine, proposals[1], proposals[2], proposals[3]];
                    if self.pass_cards_with(offers) {
                        let ghost mid = *self;
                        self.next_round();
                        proof {
                            let q = choose|q: Seq<Cards>| passed(before, mid, offers, q);
                            assert(passed(before, mid, offers, q) && mid == (Game { players: mid.players, ..before })
                                && next_round_effect(mid, *self));
                            assert(is_pass_pick(before.players[0].hand, mine@));
                        }
                    } else {
                        assert(is_pass_pick(before.players[0].hand, mine@));
                    }
                }
            },
            Phase::AwaitPlay { who } => {
                let legal = self.break_the_rule(who, proposals[who]).is_none();
                proof {
                    reveal(crate::game::is_legal);
                }
                if legal || fallback {
                    let ghost before = *self;
                    let t = self.pick_cards_for(who, proposals[who]);
                    self.discard(who, t);
                    proof {
                        assert(played(before, *self, who as int, proposals[who as int], t));
                    }
                }
            },
            Phase::TrickComplete => {
                self.keep_score();
                let ghost mid = *self;
                self.next_round();
                assert(keep_score_effect(*old(self), mid) && next_round_effect(mid, *self));
                proof {
                    crate::card::lemma_view_empty();
                }
            },
        }
        self.phase()
    }
}

} // verus!
