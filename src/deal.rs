//! Dealing: shuffle the 52 cards with a seeded generator and hand out four
//! groups of 13.
use vstd::prelude::*;
use crate::card::{Cards, NO_CARD, deck, card_pos_of_index, is_card_pos, deck_index_of, lemma_view_empty, lemma_deck_index_bijection};

verus! {

/// The seeded generator of `fastrand`, carried as an opaque value.
#[verifier::external_type_specification]
#[verifier::external_body]
pub struct ExRng(fastrand::Rng);

/// Relies on `fastrand::Rng::with_seed`: a generator started from `seed`.
pub assume_specification[ fastrand::Rng::with_seed ](seed: u64) -> fastrand::Rng;

/// Relies on `fastrand::Rng::shuffle`, which only swaps items of the slice:
/// the same items come back, in some order.
#[verifier::external_body]
fn shuffle(rng: &mut fastrand::Rng, deck: &mut Vec<u8>)
    ensures
        final(deck)@.to_multiset() == old(deck)@.to_multiset(),
{
    rng.shuffle(deck.as_mut_slice());
}

/// The places of the ordered deck, 0 to 51.
pub open spec fn ordered_deck() -> Seq<u8> {
    Seq::new(52, |i: int| i as u8)
}

/// A shuffled deck: the 52 places, each once, in some order.
pub open spec fn is_shuffled(d: Seq<u8>) -> bool {
    d.to_multiset() == ordered_deck().to_multiset()
}

/// The positions of the cards at places `lo..hi` of the shuffled deck `d`.
pub open spec fn dealt(d: Seq<u8>, lo: int, hi: int) -> Set<int> {
    Set::new(|p: int| exists|j: int| lo <= j < hi && p == card_pos_of_index(d[j] as int))
}

/// The positions of the cards of player `k`'s hand.
pub open spec fn hand_dealt(d: Seq<u8>, k: int) -> Set<int> {
    dealt(d, 13 * k, 13 * k + 13)
}

/// Four hands that split the deck: pairwise disjoint, 13 cards each, all 52 together.
pub open spec fn is_deal(h: Seq<Set<int>>) -> bool {
    &&& h.len() == 4
    &&& forall|a: int, b: int| 0 <= a < b < 4 ==> h[a].disjoint(h[b])
    &&& forall|a: int| 0 <= a < 4 ==> (#[trigger] h[a]).len() == 13 && h[a].finite()
    &&& h[0].union(h[1]).union(h[2]).union(h[3]) == deck()
}

proof fn lemma_shuffled_facts(d: Seq<u8>)
    requires
        is_shuffled(d),
    ensures
        d.len() == 52,
        d.no_duplicates(),
        forall|j: int| 0 <= j < 52 ==> d[j] < 52,
        forall|k: u8| k < 52 ==> #[trigger] d.contains(k),
{
    broadcast use vstd::seq_lib::to_multiset_contains, vstd::seq_lib::to_multiset_len;

    let c = ordered_deck();
    assert(d.len() == d.to_multiset().len());
    assert(c.len() == c.to_multiset().len());
    assert(c.no_duplicates());
    c.lemma_multiset_has_no_duplicates();
    d.lemma_multiset_has_no_duplicates_conv();
    assert forall|j: int| 0 <= j < d.len() implies d[j] < 52 by {
        assert(d.contains(d[j]));
        assert(d.to_multiset().count(d[j]) > 0);
        assert(c.contains(d[j]));
    }
    assert forall|k: u8| k < 52 implies #[trigger] d.contains(k) by {
        assert(c[k as int] == k);
        assert(c.contains(k));
        assert(c.to_multiset().count(k) > 0);
    }
}

/// Whatever order the shuffle leaves, the four dealt hands are pairwise
/// disjoint, hold 13 cards each and together the whole deck.
pub proof fn lemma_deal_partitions(d: Seq<u8>)
    requires
        is_shuffled(d),
    ensures
        is_deal(seq![hand_dealt(d, 0), hand_dealt(d, 1), hand_dealt(d, 2), hand_dealt(d, 3)]),
{
    lemma_shuffled_facts(d);
    lemma_deck_index_bijection();
    let h = seq![hand_dealt(d, 0), hand_dealt(d, 1), hand_dealt(d, 2), hand_dealt(d, 3)];
    assert forall|a: int, b: int| 0 <= a < b < 4 implies h[a].disjoint(h[b]) by {
        assert forall|p: int| h[a].contains(p) implies !h[b].contains(p) by {
            let j1 = choose|j: int| 13 * a <= j < 13 * a + 13 && p == card_pos_of_index(d[j] as int);
            if h[b].contains(p) {
                let j2 = choose|j: int| 13 * b <= j < 13 * b + 13 && p == card_pos_of_index(d[j] as int);
                assert(deck_index_of(card_pos_of_index(d[j1] as int)) == d[j1]);
                assert(deck_index_of(card_pos_of_index(d[j2] as int)) == d[j2]);
                assert(j1 != j2);
            }
        }
    }
    assert forall|a: int| 0 <= a < 4 implies (#[trigger] h[a]).len() == 13 && h[a].finite() by {
        let s = d.subrange(13 * a, 13 * a + 13).map_values(|x: u8| card_pos_of_index(x as int));
        assert forall|i: int, k: int| 0 <= i < s.len() && 0 <= k < s.len() && i != k implies s[i] != s[k] by {
            assert(deck_index_of(s[i]) == d[13 * a + i]);
            assert(deck_index_of(s[k]) == d[13 * a + k]);
        }
        assert(s.no_duplicates());
        s.unique_seq_to_set();
        assert forall|p: int| h[a].contains(p) <==> s.to_set().contains(p) by {
            if h[a].contains(p) {
                let j = choose|j: int| 13 * a <= j < 13 * a + 13 && p == card_pos_of_index(d[j] as int);
                assert(s[j - 13 * a] == p);
            }
            if s.to_set().contains(p) {
                let i = choose|i: int| 0 <= i < s.len() && s[i] == p;
                assert(p == card_pos_of_index(d[13 * a + i] as int));
            }
        }
        assert(h[a] =~= s.to_set());
    }
    let u = h[0].union(h[1]).union(h[2]).union(h[3]);
    assert forall|p: int| u.contains(p) <==> deck().contains(p) by {
        if deck().contains(p) {
            let k = deck_index_of(p) as u8;
            assert(d.contains(k));
            let j = choose|j: int| 0 <= j < 52 && d[j] == k;
            assert(is_card_pos(p));
            assert(h[j / 13].contains(p));
        }
        if u.contains(p) {
            let j = choose|j: int| 0 <= j < 52 && p == card_pos_of_index(d[j] as int);
        }
    }
    assert(u =~= deck());
}

/// The hand made of the cards at places `lo..lo + 13` of the shuffled deck.
fn hand_from(d: &Vec<u8>, lo: usize) -> (r: Cards)
    requires
        lo <= 39,
        d@.len() == 52,
        forall|j: int| 0 <= j < d@.len() ==> d@[j] < 52,
    ensures
        r@ == dealt(d@, lo as int, lo + 13),
{
    let mut hand = Cards(NO_CARD);
    let hi = lo + 13;
    let mut j: usize = lo;
    proof {
        lemma_view_empty();
        assert(dealt(d@, lo as int, lo as int) =~= Set::<int>::empty());
    }
    while j < hi
        invariant
            hi == lo + 13,
            lo <= j <= lo + 13,
            lo + 13 <= d@.len(),
            forall|j: int| 0 <= j < d@.len() ==> d@[j] < 52,
            hand@ == dealt(d@, lo as int, j as int),
        decreases hi - j,
    {
        let card = Cards::from_deck_index(d[j]);
        hand = hand.union(card);
        assert(hand@ =~= dealt(d@, lo as int, j + 1));
        j = j + 1;
    }
    hand
}

/// Hands out a shuffled deck: places 0 to 12 to player 0, 13 to 25 to player 1,
/// and so on.
pub fn deal_shuffled(d: &Vec<u8>) -> (r: [Cards; 4])
    requires
        is_shuffled(d@),
    ensures
        forall|k: int| 0 <= k < 4 ==> (#[trigger] r[k])@ == hand_dealt(d@, k),
        is_deal(seq![r[0]@, r[1]@, r[2]@, r[3]@]),
{
    proof {
        lemma_shuffled_facts(d@);
        lemma_deal_partitions(d@);
    }
    let r = [hand_from(d, 0), hand_from(d, 13), hand_from(d, 26), hand_from(d, 39)];
    assert(seq![r[0]@, r[1]@, r[2]@, r[3]@] =~= seq![hand_dealt(d@, 0), hand_dealt(d@, 1), hand_dealt(d@, 2), hand_dealt(d@, 3)]);
    r
}

impl Cards {
    /// Shuffles a deck with `rng` and deals it to four players.
    pub fn deal(rng: &mut fastrand::Rng) -> (r: [Cards; 4])
        ensures
            is_deal(seq![r[0]@, r[1]@, r[2]@, r[3]@]),
    {
        let mut d: Vec<u8> = Vec::new();
        let mut i: u8 = 0;
        while i < 52
            invariant
                i <= 52,
                d@ == ordered_deck().subrange(0, i as int),
            decreases 52 - i,
        {
            d.push(i);
            i = i + 1;
            assert(d@ =~= ordered_deck().subrange(0, i as int));
        }
        assert(d@ =~= ordered_deck());
        shuffle(rng, &mut d);
        deal_shuffled(&d)
    }
}

} // verus!
