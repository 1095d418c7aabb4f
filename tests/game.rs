use heartless::card::{Cards, ALL_CARDS, CLUBS, NO_CARD, QUEEN_OF_SPADES, TWO_OF_CLUBS, SPADES, ACE_OF_HEARTS, DIAMONDS};
use heartless::game::{Game, Rule};
use heartless::phase::Phase;
use heartless::player::{Player, ME, NOBODY, ALL_SUIT_BITS};

fn hand(text: &str) -> Cards {
    text.parse::<Cards>().unwrap()
}

/// Plays a whole game with the built-in strategy for every player and
/// records every hand dealt, every card played and the final scores.
fn play_game(seed: u64) -> (Vec<u64>, [u8; 4], usize) {
    let mut g = Game::with_seed(seed);
    let mut log = Vec::new();
    let none = [Cards(NO_CARD); 4];
    loop {
        match g.phase() {
            Phase::GameComplete { winner } => {
                let scores = [g.players[0].game_score, g.players[1].game_score, g.players[2].game_score, g.players[3].game_score];
                return (log, scores, winner);
            }
            Phase::DealComplete => {
                g.step(none, true);
                for p in g.players.iter() {
                    log.push(p.hand.0);
                }
            }
            Phase::AwaitPass => {
                let mine = g.pick_cards(ME);
                assert_eq!(g.step([mine, Cards(NO_CARD), Cards(NO_CARD), Cards(NO_CARD)], false), Phase::AwaitPlay { who: g.under_the_gun });
            }
            Phase::AwaitPlay { who } => {
                let card = g.pick_cards(who);
                assert_eq!(card.count(), 1);
                assert!(g.break_the_rule(who, card).is_none());
                log.push(card.0);
                g.step([Cards(NO_CARD); 4], true);
                assert_eq!(g.players[who].discarding, card);
                let held = g.players.iter().fold(Cards(NO_CARD), |acc, p| acc.union(p.hand));
                assert_eq!(held.union(g.discarded), Cards(ALL_CARDS));
                assert_eq!(held.intersect(g.discarded), Cards(NO_CARD));
            }
            Phase::TrickComplete => {
                let last = g.round == 13;
                g.step(none, true);
                if last {
                    let total: u32 = g.players.iter().map(|p| p.hand_score as u32).sum();
                    assert!(total == 26 || total == 78);
                }
            }
        }
    }
}

#[test]
fn phases_of_a_deal() {
    let mut g = Game::with_seed(5);
    assert_eq!(g.phase(), Phase::DealComplete);
    assert_eq!(g.step([Cards(NO_CARD); 4], true), Phase::AwaitPass);
    // an illegal pass without fallback changes nothing
    assert_eq!(g.step([Cards(NO_CARD); 4], false), Phase::AwaitPass);
    let holder = (0..4).find(|&i| g.players[i].hand.contains(Cards(TWO_OF_CLUBS))).unwrap();
    let phase = g.step([g.pick_cards(ME), Cards(NO_CARD), Cards(NO_CARD), Cards(NO_CARD)], false);
    let holder_after = (0..4).find(|&i| g.players[i].hand.contains(Cards(TWO_OF_CLUBS))).unwrap();
    assert_eq!(phase, Phase::AwaitPlay { who: holder_after });
    let _ = holder;
    // the leader must play the two of clubs: anything else is refused
    let other = g.players[holder_after].hand.difference(Cards(TWO_OF_CLUBS)).iter().next().unwrap();
    assert_eq!(g.step([other; 4], false), Phase::AwaitPlay { who: holder_after });
    let next = g.step([Cards(TWO_OF_CLUBS); 4], false);
    assert_eq!(next, Phase::AwaitPlay { who: (holder_after + 1) % 4 });
    for _ in 0..3 {
        g.step([Cards(NO_CARD); 4], true);
    }
    assert_eq!(g.phase(), Phase::TrickComplete);
    assert!(matches!(g.step([Cards(NO_CARD); 4], true), Phase::AwaitPlay { .. }));
    assert_eq!(g.round, 2);
}

#[test]
fn game_complete_credits_the_winner_and_restarts() {
    let mut g = Game::with_seed(3);
    g.round = 14;
    g.deal = 3;
    g.round_winner = 0;
    g.players[0].game_score = 101;
    g.players[1].game_score = 40;
    g.players[2].game_score = 30;
    g.players[3].game_score = 30;
    assert_eq!(g.phase(), Phase::GameComplete { winner: 2 });
    assert_eq!(g.step([Cards(NO_CARD); 4], true), Phase::DealComplete);
    assert_eq!(g.players[2].awards, 1);
    assert_eq!(g.players[0].game_score, 0);
}

#[test]
fn deal_splits_the_deck_for_every_seed() {
    for seed in [0u64, 1, 7, 2024, u64::MAX] {
        let mut rng = fastrand::Rng::with_seed(seed);
        let hands = Cards::deal(&mut rng);
        let mut all = Cards(NO_CARD);
        for (i, h) in hands.iter().enumerate() {
            assert_eq!(h.count(), 13);
            for other in hands.iter().skip(i + 1) {
                assert_eq!(h.intersect(*other), Cards(NO_CARD));
            }
            all = all.union(*h);
        }
        assert_eq!(all, Cards(ALL_CARDS));
    }
}

#[test]
fn same_seed_deals_the_same_hands() {
    let a = Cards::deal(&mut fastrand::Rng::with_seed(42));
    let b = Cards::deal(&mut fastrand::Rng::with_seed(42));
    assert_eq!(a, b);
}

#[test]
fn dealing_shuffles_the_deck() {
    let a = Cards::deal(&mut fastrand::Rng::with_seed(42));
    let b = Cards::deal(&mut fastrand::Rng::with_seed(43));
    assert_ne!(a, b);
    // unshuffled, the first hand would be all the clubs
    assert_ne!(a[0], Cards(CLUBS));
}

#[test]
fn a_seeded_game_replays_identically() {
    let (log_a, scores_a, winner_a) = play_game(2024);
    let (log_b, scores_b, winner_b) = play_game(2024);
    assert_eq!(log_a, log_b);
    assert_eq!(scores_a, scores_b);
    assert_eq!(winner_a, winner_b);
    assert!(scores_a.iter().any(|s| *s >= 100));
    assert!(scores_a.iter().all(|s| *s >= scores_a[winner_a]));
}

fn game_with_hands(hands: [Cards; 4]) -> Game {
    let mut g = Game::with_seed(1);
    for i in 0..4 {
        g.players[i].hand = hands[i];
        g.players[i].suit_bits = ALL_SUIT_BITS;
    }
    g
}

#[test]
fn first_trick_leader_plays_two_of_clubs() {
    let mut g = game_with_hands([hand("2346c"), hand("5c"), hand("7c"), hand("8c")]);
    assert!(g.next_round());
    assert_eq!(g.round, 1);
    assert_eq!(g.under_the_gun, 0);
    assert_eq!(g.suit_mask, Cards(CLUBS));
    assert!(g.break_the_rule(0, Cards(TWO_OF_CLUBS)).is_none());
    assert_eq!(g.break_the_rule(0, hand("3c")), Some(Rule::TwoOfClubs));
    assert_eq!(g.pick_card(0).unwrap().dest, Cards(TWO_OF_CLUBS));
}

#[test]
fn rule_violations_in_order() {
    let mut g = game_with_hands([hand("2c 3d Qs 4h"), hand("5c 6h"), hand("7d Qs"), hand("8h 9h")]);
    // passing
    assert_eq!(g.break_the_rule(0, hand("5c")), Some(Rule::PassInHand));
    assert_eq!(g.break_the_rule(0, hand("2c 3d")), Some(Rule::PassThreeCards));
    assert!(g.break_the_rule(0, hand("2c 3d 4h")).is_none());
    g.next_round();
    assert_eq!(g.break_the_rule(0, hand("5c")), Some(Rule::DiscardInHand));
    assert_eq!(g.break_the_rule(0, hand("3d")), Some(Rule::TwoOfClubs));
    // player 1 holds clubs and must follow
    assert_eq!(g.break_the_rule(1, hand("6h")), Some(Rule::FollowSuit));
    // player 2 cannot follow: no heart, no queen of spades on the first trick
    assert_eq!(g.break_the_rule(2, Cards(QUEEN_OF_SPADES)), Some(Rule::QueenInFirstRound));
    assert!(g.break_the_rule(2, hand("7d")).is_none());
    // player 3 holds only hearts and may play one
    assert!(g.break_the_rule(3, hand("8h")).is_none());
    let mut h = game_with_hands([hand("3d 4h"), hand("5d 6h"), hand("7d Qs"), hand("8h 9c")]);
    h.round = 1;
    h.under_the_gun = 0;
    h.suit_mask = Cards(DIAMONDS);
    assert_eq!(h.break_the_rule(3, hand("8h")), Some(Rule::HeartInFirstRound));
    h.round = 2;
    h.suit_mask = Cards(NO_CARD);
    assert_eq!(h.break_the_rule(0, hand("4h")), Some(Rule::Heartbreak));
    h.discarded = Cards(ACE_OF_HEARTS);
    assert!(h.break_the_rule(0, hand("4h")).is_none());
}

#[test]
fn discard_updates_the_trick() {
    let mut g = game_with_hands([hand("2c 3d"), hand("5c 6h"), hand("7d Qs"), hand("8h 9c")]);
    g.next_round();
    let t = g.players[0].hand.transfer(Cards(TWO_OF_CLUBS)).unwrap();
    g.discard(0, t);
    assert_eq!(g.round_winner, 0);
    assert_eq!(g.high_card, Cards(TWO_OF_CLUBS));
    let t = g.players[2].hand.transfer(hand("7d")).unwrap();
    g.discard(2, t);
    assert!(!g.player_may_have(2, heartless::card::CLUB));
    assert!(g.player_may_have(2, heartless::card::DIAMOND));
    assert_eq!(g.players[2].suit_chars(), "hsd");
    let t = g.players[1].hand.transfer(hand("5c")).unwrap();
    g.discard(1, t);
    assert_eq!(g.round_winner, 1);
    assert_eq!(g.discarded, hand("2c 5c 7d"));
}

#[test]
fn trick_points_go_to_the_winner() {
    let mut g = game_with_hands([Cards(NO_CARD); 4]);
    g.round = 5;
    g.round_winner = 2;
    g.players[0].discarding = Cards(QUEEN_OF_SPADES);
    g.players[1].discarding = hand("2h");
    g.players[2].discarding = hand("5s");
    g.players[3].discarding = hand("Ah");
    g.keep_score();
    assert_eq!(g.players[2].hand_score, 15);
    assert_eq!(g.players[0].hand_score, 0);
}

#[test]
fn shooting_the_moon_inverts_the_scores() {
    let mut g = game_with_hands([Cards(NO_CARD); 4]);
    g.round = 13;
    g.round_winner = 1;
    g.players[1].hand_score = 24;
    g.players[0].game_score = 10;
    g.players[1].game_score = 20;
    g.players[0].discarding = hand("2h");
    g.players[1].discarding = hand("3h");
    g.players[2].discarding = hand("4s");
    g.players[3].discarding = hand("5s");
    g.keep_score();
    assert_eq!([g.players[0].hand_score, g.players[1].hand_score, g.players[2].hand_score, g.players[3].hand_score], [26, 0, 26, 26]);
    assert_eq!([g.players[0].game_score, g.players[1].game_score, g.players[2].game_score, g.players[3].game_score], [36, 20, 26, 26]);
}

#[test]
fn lowest_score_wins_once_someone_reaches_100() {
    let mut g = game_with_hands([Cards(NO_CARD); 4]);
    g.players[0].game_score = 40;
    g.players[1].game_score = 30;
    g.players[2].game_score = 99;
    g.players[3].game_score = 30;
    assert_eq!(g.get_winner(), NOBODY);
    g.players[2].game_score = 104;
    assert_eq!(g.get_winner(), 1);
    assert_eq!(g.players[1].awards, 1);
    assert_eq!(g.winner, 1);
    g.reset();
    assert_eq!(g.players[1].awards, 1);
    assert_eq!(g.players[1].game_score, 0);
    assert_eq!(g.winner, NOBODY);
}

#[test]
fn passing_rotates_three_cards() {
    let mut g = Game::with_seed(9);
    g.deal();
    assert_eq!(g.deal, 1);
    assert!(g.needs_pass_cards());
    let before: Vec<Cards> = g.players.iter().map(|p| p.hand).collect();
    let mine = g.players[0].hand.pick_three_cards().dest;
    assert!(!g.pass_cards(Cards(NO_CARD)));
    assert!(g.pass_cards(mine));
    for (i, p) in g.players.iter().enumerate() {
        assert_eq!(p.hand.count(), 13);
        let from = (i + 3) % 4;
        let received = before[from].pick_three_cards().dest;
        let sent = if i == 0 { mine } else { before[i].pick_three_cards().dest };
        assert_eq!(p.hand, before[i].difference(sent).union(received));
    }
}

#[test]
fn follower_ducks_under_the_high_card() {
    let mut g = game_with_hands([hand("2s"), hand("3s 9s Qs As 4h"), hand("5c"), hand("6c")]);
    g.round = 3;
    g.under_the_gun = 0;
    g.suit_mask = Cards(SPADES);
    g.high_card = hand("Ks");
    g.round_winner = 0;
    // the queen of spades goes under the king
    assert_eq!(g.pick_card(1).unwrap().dest, Cards(QUEEN_OF_SPADES));
    g.high_card = hand("0s");
    assert_eq!(g.pick_card(1).unwrap().dest, hand("9s"));
    // unable to follow, a player sheds the queen of spades first
    let mut h = game_with_hands([hand("2d"), hand("Qs 4h"), hand("5c"), hand("6c")]);
    h.round = 3;
    h.under_the_gun = 0;
    h.suit_mask = Cards(DIAMONDS);
    assert_eq!(h.pick_card(1).unwrap().dest, Cards(QUEEN_OF_SPADES));
}

#[test]
fn player_reset_keeps_wins() {
    let mut p = Player::new();
    p.hand = Cards(ALL_CARDS);
    p.game_score = 50;
    p.awards = 3;
    p.suit_bits = ALL_SUIT_BITS;
    assert!(p.may_have(heartless::card::HEART));
    assert_eq!(p.suit_chars(), "hsdc");
    p.reset();
    assert_eq!(p.hand, Cards(NO_CARD));
    assert_eq!(p.game_score, 0);
    assert_eq!(p.awards, 3);
    assert_eq!(p.suit_chars(), "");
}

#[test]
fn strategy_is_a_function_of_the_state() {
    let mut g = Game::with_seed(11);
    g.step([Cards(NO_CARD); 4], true);
    let mine = g.pick_cards(ME);
    g.step([mine, Cards(NO_CARD), Cards(NO_CARD), Cards(NO_CARD)], false);
    for _ in 0..6 {
        if let Phase::AwaitPlay { who } = g.phase() {
            let a = g.pick_card(who).unwrap();
            let b = g.pick_card(who).unwrap();
            assert_eq!(a, b);
            assert!(g.break_the_rule(who, a.dest).is_none());
            // an illegal proposal is replaced by the strategy's own card
            let t = g.pick_cards_for(who, Cards(NO_CARD));
            assert_eq!(t.dest, a.dest);
            assert_eq!(t.src, a.src);
        }
        g.step([Cards(NO_CARD); 4], true);
    }
}

#[test]
fn leading_two_of_clubs_needs_clubs_led() {
    let mut g = game_with_hands([hand("2c 5d"), hand("3c"), hand("4c"), hand("6c")]);
    g.round = 1;
    g.under_the_gun = 0;
    g.suit_mask = Cards(DIAMONDS);
    assert_eq!(g.break_the_rule(0, Cards(TWO_OF_CLUBS)), Some(Rule::FollowSuit));
    g.suit_mask = Cards(CLUBS);
    assert!(g.break_the_rule(0, Cards(TWO_OF_CLUBS)).is_none());
}

#[test]
fn fallback_pass_uses_the_strategy_pick() {
    let mut g = Game::with_seed(21);
    g.step([Cards(NO_CARD); 4], true);
    assert_eq!(g.phase(), Phase::AwaitPass);
    let before: Vec<Cards> = g.players.iter().map(|p| p.hand).collect();
    let picks: Vec<Cards> = before.iter().map(|h| h.pick_three_cards().dest).collect();
    g.step([Cards(NO_CARD); 4], true);
    assert_eq!(g.round, 1);
    for i in 0..4 {
        let from = (i + 3) % 4;
        assert_eq!(g.players[i].hand, before[i].difference(picks[i]).union(picks[from]));
    }
}
