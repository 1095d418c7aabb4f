use heartless::card::{ACE_OF_SPADES, KING_OF_DIAMONDS, THREE_OF_HEARTS, JACK_OF_CLUBS};
use heartless::card::{
    Cards, Transfer, ACE_OF_HEARTS, ALL_CARDS, CLUB, CLUBS, DIAMOND, DIAMONDS, FOUR_OF_CLUBS, HEART, HEARTS, NO_CARD,
    QUEEN_OF_CLUBS, QUEEN_OF_SPADES, SPADE, SPADES, TWO_OF_CLUBS, TWO_OF_DIAMONDS, TEN_OF_CLUBS, ACE, QUEEN, TWO,
};
use heartless::text::{ParseError, ASCII_SUIT, LOWERCASE_RANK, NO_SHARED_SUIT, NO_SPACES};

fn sample_hand() -> Cards {
    "467QAc 480d 9Ks 6QKh".parse::<Cards>().unwrap()
}

#[test]
fn parse_in_hand_with_suit_marker() {
    let hand = sample_hand();
    assert_eq!(Cards::parse_in_hand("4ch", hand, Cards(NO_CARD)).unwrap(), Cards(FOUR_OF_CLUBS));
}

#[test]
fn parse_in_hand_preferred_suit() {
    let hand = sample_hand();
    assert_eq!(Cards::parse_in_hand("Q", hand, Cards(CLUBS)).unwrap(), Cards(QUEEN_OF_CLUBS));
}

#[test]
fn parse_in_hand_card_not_held() {
    let hand = sample_hand();
    assert!(matches!(Cards::parse_in_hand("0", hand, Cards(CLUBS)), Err(ParseError::NoCard)));
}

#[test]
fn parse_reports_invalid_char_with_offset() {
    match Cards::parse_in_hand("4c x", Cards(NO_CARD), Cards(NO_CARD)) {
        Err(ParseError::Invalid { invalid, offset }) => {
            assert_eq!(invalid, 'x');
            assert_eq!(offset, 3);
        }
        other => panic!("{other:?}"),
    }
    match Cards::parse_in_hand("\u{2663}zQ", Cards(NO_CARD), Cards(NO_CARD)) {
        Err(ParseError::Invalid { invalid, offset }) => {
            assert_eq!(invalid, 'z');
            assert_eq!(offset, 1);
        }
        other => panic!("{other:?}"),
    }
}

#[test]
fn parse_reports_ambiguous_ranks() {
    let hand = sample_hand();
    // the queen is held in clubs and hearts, the four only in clubs and diamonds
    match Cards::parse_in_hand("Q 9", hand, Cards(NO_CARD)) {
        Err(ParseError::Ambiguous { cards, ok, err }) => {
            assert_eq!(ok, Cards(1 << (0x20 + 9)));
            assert_eq!(err, Cards(QUEEN_OF_CLUBS | (1 << (0x30 + QUEEN))));
            assert_eq!(cards, Cards(ok.0 | err.0));
        }
        other => panic!("{other:?}"),
    }
}

#[test]
fn parse_without_hand_accepts_any_card() {
    assert_eq!("0c".parse::<Cards>().unwrap(), Cards(TEN_OF_CLUBS));
    assert_eq!("AH".parse::<Cards>().unwrap(), Cards(ACE_OF_HEARTS));
    assert_eq!("2\u{2663}".parse::<Cards>().unwrap(), Cards(TWO_OF_CLUBS));
    assert!(matches!("Q".parse::<Cards>(), Err(ParseError::Ambiguous { .. })));
    assert!(matches!("".parse::<Cards>(), Err(ParseError::NoCard)));
    assert!(matches!("  ".parse::<Cards>(), Err(ParseError::NoCard)));
}

#[test]
fn text_renders_under_each_option() {
    let cards = sample_hand();
    assert_eq!(cards.text(0), "467QA\u{2663} 480\u{2666} 9K\u{2660} 6QK\u{2665}");
    assert_eq!(cards.text(ASCII_SUIT), "467QAc 480d 9Ks 6QKh");
    assert_eq!(cards.text(NO_SPACES), "467QA\u{2663}480\u{2666}9K\u{2660}6QK\u{2665}");
    assert_eq!(
        cards.text(NO_SHARED_SUIT),
        "4\u{2663} 6\u{2663} 7\u{2663} Q\u{2663} A\u{2663} 4\u{2666} 8\u{2666} 0\u{2666} 9\u{2660} K\u{2660} 6\u{2665} Q\u{2665} K\u{2665}"
    );
    assert_eq!(cards.text(LOWERCASE_RANK), "467qa\u{2663} 480\u{2666} 9k\u{2660} 6qk\u{2665}");
    assert_eq!(cards.text(ASCII_SUIT | NO_SHARED_SUIT | NO_SPACES), "4c6c7cQcAc4d8d0d9sKs6hQhKh");
    assert_eq!(Cards(NO_CARD).text(0), "");
}

#[test]
fn round_trip_every_card_every_option() {
    for index in 0..52u8 {
        let card = Cards::from_deck_index(index);
        for flags in 0..16u32 {
            let text = card.text(flags);
            assert_eq!(text.chars().count(), 2);
            assert_eq!(text.parse::<Cards>().unwrap(), card, "{text}");
        }
    }
}

#[test]
fn deck_index_is_a_bijection() {
    assert_eq!(Cards(TWO_OF_CLUBS).deck_index(), 0);
    assert_eq!(Cards(TWO_OF_DIAMONDS).deck_index(), 13);
    assert_eq!(Cards(QUEEN_OF_SPADES).deck_index(), 36);
    assert_eq!(Cards(ACE_OF_HEARTS).deck_index(), 51);
    let mut seen = [false; 52];
    for index in 0..52u8 {
        let card = Cards::from_deck_index(index);
        assert_eq!(card.count(), 1);
        assert_eq!(card.deck_index(), index as usize);
        assert!(!seen[index as usize]);
        seen[index as usize] = true;
    }
}

#[test]
fn suit_and_rank_of_cards() {
    assert_eq!(Cards(QUEEN_OF_SPADES).suit_and_rank(), (SPADE, QUEEN));
    assert_eq!(Cards(TWO_OF_CLUBS).suit_and_rank(), (CLUB, TWO));
    assert_eq!(Cards(ACE_OF_HEARTS).suit_and_rank(), (HEART, ACE));
    assert_eq!(Cards(TWO_OF_DIAMONDS).suit(), DIAMOND);
    assert_eq!(Cards(QUEEN_OF_SPADES).suit_mask(), Cards(SPADES));
    assert_eq!(Cards(TWO_OF_DIAMONDS).suit_mask(), Cards(DIAMONDS));
    assert_eq!(Cards(HEARTS).mask_to_suit(), HEART);
    assert_eq!(Cards(NO_CARD).mask_to_suit(), heartless::card::NO_SUIT);
    assert_eq!(Cards::of(QUEEN, SPADE), Cards(QUEEN_OF_SPADES));
    assert_eq!(Cards::rank_mask(), Cards(CLUBS));
}

#[test]
fn set_operations() {
    let hand = sample_hand();
    assert_eq!(hand.count(), 13);
    assert_eq!(hand.count_suit(Cards(CLUBS)), 5);
    assert_eq!(hand.count_suit(Cards(SPADES)), 2);
    assert!(hand.contains(Cards(FOUR_OF_CLUBS)));
    assert!(!hand.contains(Cards(NO_CARD)));
    assert!(!hand.contains(Cards(TEN_OF_CLUBS)));
    assert!(hand.contains_suit(Cards(HEARTS)));
    assert!(!hand.are_all_of(Cards(HEARTS)));
    assert!(Cards(ACE_OF_HEARTS).are_all_of(Cards(HEARTS)));
    assert!(Cards(ACE_OF_HEARTS).is_heart());
    assert!(Cards(QUEEN_OF_SPADES).is_queen_of_spade());
    assert!(!Cards(QUEEN_OF_CLUBS).is_queen_of_spade());
    assert_eq!(hand.union(Cards(TEN_OF_CLUBS)).count(), 14);
    assert_eq!(hand.intersect(Cards(CLUBS)).count(), 5);
    assert_eq!(hand.difference(Cards(CLUBS)).count(), 8);
    assert_eq!(Cards(ALL_CARDS).complement().intersect(Cards(ALL_CARDS)), Cards(NO_CARD));
    let mut acc = Cards(NO_CARD);
    acc.add_assign(Cards(TWO_OF_CLUBS));
    assert_eq!(acc, Cards(TWO_OF_CLUBS));
    assert_eq!(Cards(ALL_CARDS).count(), 52);
}

#[test]
fn transfer_moves_held_cards_only() {
    let hand = sample_hand();
    let t = hand.transfer(Cards(FOUR_OF_CLUBS)).unwrap();
    assert_eq!(t.dest, Cards(FOUR_OF_CLUBS));
    assert_eq!(t.src.union(t.dest), hand);
    assert_eq!(t.src.intersect(t.dest), Cards(NO_CARD));
    assert!(hand.transfer(Cards(TEN_OF_CLUBS)).is_none());
    assert!(hand.transfer(Cards(NO_CARD)).is_none());
    let more = t.transfer(Cards(QUEEN_OF_CLUBS)).unwrap();
    assert_eq!(more.dest, Cards(FOUR_OF_CLUBS | QUEEN_OF_CLUBS));
    assert_eq!(more.src.count(), 11);
    assert!(Transfer { src: more.src, dest: more.dest }.transfer(Cards(FOUR_OF_CLUBS)).is_none());
}

#[test]
fn iterators_walk_both_ways() {
    let hand = sample_hand();
    let mut it = hand.iter();
    let mut up = Vec::new();
    while let Some(c) = it.next() {
        up.push(c);
    }
    assert_eq!(up.len(), 13);
    assert_eq!(up[0], Cards(FOUR_OF_CLUBS));
    assert!(up.windows(2).all(|w| w[0].0 < w[1].0));
    let mut it = hand.iter();
    assert_eq!(it.next_back(), Some(Cards(1 << (0x30 + 13))));
    let mut clubs = hand.iter_of_suit(Cards(CLUBS));
    let mut n = 0;
    while let Some(c) = clubs.next_back() {
        assert!(c.are_all_of(Cards(CLUBS)));
        n += 1;
    }
    assert_eq!(n, 5);
}

#[test]
fn pick_three_cards_passes_queen_then_highest() {
    let hand = sample_hand();
    let t = hand.pick_three_cards();
    // no queen of spades: the aces and kings go, hearts before spades before diamonds before clubs
    assert_eq!(t.dest, Cards(1 << (0x00 + ACE) | 1 << (0x30 + 13) | 1 << (0x20 + 13)));
    assert_eq!(t.src.union(t.dest), hand);
    let with_queen = hand.union(Cards(QUEEN_OF_SPADES));
    let t = with_queen.pick_three_cards();
    assert!(t.dest.contains(Cards(QUEEN_OF_SPADES)));
    assert_eq!(t.dest.count(), 3);
    let two = Cards(TWO_OF_CLUBS | FOUR_OF_CLUBS);
    assert_eq!(two.pick_three_cards().dest, two);
}

#[test]
fn named_cards_follow_the_deck() {
    assert_eq!(Cards(JACK_OF_CLUBS).deck_index(), 9);
    assert_eq!(Cards(KING_OF_DIAMONDS).deck_index(), 24);
    assert_eq!(Cards(ACE_OF_SPADES).deck_index(), 38);
    assert_eq!(Cards(THREE_OF_HEARTS).deck_index(), 40);
}
