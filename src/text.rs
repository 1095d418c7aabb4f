//! The text form of a set of cards: rendering with four independent options
//! and parsing against the hand of the player who typed it.
use vstd::prelude::*;
use vstd::string::StrSliceExecFns;
use crate::card::{
    Cards, NO_SUIT, CLUBS, DIAMONDS, SPADES, HEARTS, NO_CARD, lemma_view_empty,
};

verus! {

/// Why a text does not stand for cards of the hand.
#[derive(Copy, Clone, PartialEq, Eq, Structural, Debug)]
pub enum ParseError {
    /// A character that is neither a rank, a suit nor a space, at this character offset.
    Invalid { invalid: char, offset: usize },
    /// Some ranks could be more than one card of the hand: `err` holds every such
    /// candidate, `ok` the cards that were resolved, `cards` both.
    Ambiguous { cards: Cards, ok: Cards, err: Cards },
    /// The text names no card of the hand.
    NoCard,
}

/// The suit base that a suit character stands for.
pub open spec fn suit_of_char(c: char) -> Option<int> {
    if c == 'c' || c == 'C' || c == '\u{2663}' {
        Some(0)
    } else if c == 'd' || c == 'D' || c == '\u{2666}' {
        Some(16)
    } else if c == 's' || c == 'S' || c == '\u{2660}' {
        Some(32)
    } else if c == 'h' || c == 'H' || c == '\u{2665}' {
        Some(48)
    } else {
        None
    }
}

/// The rank that a rank character stands for; `0` is the ten.
pub open spec fn rank_of_char(c: char) -> Option<int> {
    if '2' <= c <= '9' {
        Some(c as int - '0' as int)
    } else if c == '0' {
        Some(10)
    } else if c == 'j' || c == 'J' {
        Some(11)
    } else if c == 'q' || c == 'Q' {
        Some(12)
    } else if c == 'k' || c == 'K' {
        Some(13)
    } else if c == 'a' || c == 'A' {
        Some(14)
    } else {
        None
    }
}

/// A character of the grammar: a rank, a suit or a space.
pub open spec fn is_card_char(c: char) -> bool {
    suit_of_char(c).is_some() || rank_of_char(c).is_some() || c == ' '
}

/// The suit of the nearest suit character at or after offset `i`.
pub open spec fn suit_from(s: Seq<char>, i: int) -> Option<int>
    decreases s.len() - i,
{
    if i < 0 || i >= s.len() {
        None
    } else if suit_of_char(s[i]).is_some() {
        suit_of_char(s[i])
    } else {
        suit_from(s, i + 1)
    }
}

/// Whether a text may name the card at position `p` for this hand: any card
/// when the hand is empty, else a card of the hand.
pub open spec fn admits(hand: Cards, p: int) -> bool {
    hand@ == Set::<int>::empty() || hand@.contains(p)
}

pub open spec fn candidate(hand: Cards, p: int) -> Set<int> {
    if admits(hand, p) {
        set![p]
    } else {
        Set::empty()
    }
}

/// The cards of rank `r` in any suit that the hand admits.
pub open spec fn candidates(hand: Cards, r: int) -> Set<int> {
    candidate(hand, r).union(candidate(hand, r + 16)).union(candidate(hand, r + 32)).union(
        candidate(hand, r + 48),
    )
}

pub open spec fn n_candidates(hand: Cards, r: int) -> int {
    (if admits(hand, r) { 1int } else { 0 }) + (if admits(hand, r + 16) { 1int } else { 0 }) + (
    if admits(hand, r + 32) {
        1int
    } else {
        0
    }) + (if admits(hand, r + 48) { 1int } else { 0 })
}

/// The suit that `suits` stands for, when it is a whole suit.
pub open spec fn suit_of_mask(suits: Cards) -> Option<int> {
    if suits.0 == CLUBS {
        Some(0)
    } else if suits.0 == DIAMONDS {
        Some(16)
    } else if suits.0 == SPADES {
        Some(32)
    } else if suits.0 == HEARTS {
        Some(48)
    } else {
        None
    }
}

/// The suit that a rank without a suit marker falls back to: `suits`, when
/// the hand holds a card of it.
pub open spec fn preferred_suit(hand: Cards, suits: Cards) -> Option<int> {
    if hand.meets(suits) {
        suit_of_mask(suits)
    } else {
        None
    }
}

/// What the rank `r` at offset `i` contributes: (cards resolved, ambiguous candidates).
pub open spec fn resolve(s: Seq<char>, i: int, r: int, hand: Cards, pref: Option<int>) -> (Set<int>, Set<int>) {
    let su = match suit_from(s, i + 1) {
        Some(b) => Some(b),
        None => pref,
    };
    match su {
        Some(b) => (candidate(hand, r + b), Set::empty()),
        None => if n_candidates(hand, r) > 1 {
            (Set::empty(), candidates(hand, r))
        } else {
            (candidates(hand, r), Set::empty())
        },
    }
}

/// What the ranks at offsets `i` and after contribute.
pub open spec fn parsed_from(s: Seq<char>, i: int, hand: Cards, pref: Option<int>) -> (Set<int>, Set<int>)
    decreases s.len() - i,
{
    if i < 0 || i >= s.len() {
        (Set::empty(), Set::empty())
    } else {
        let rest = parsed_from(s, i + 1, hand, pref);
        match rank_of_char(s[i]) {
            Some(r) => {
                let here = resolve(s, i, r, hand, pref);
                (rest.0.union(here.0), rest.1.union(here.1))
            },
            None => rest,
        }
    }
}

/// The outcome of parsing a text that holds only characters of the grammar.
pub open spec fn parsed(s: Seq<char>, hand: Cards, suits: Cards) -> (Set<int>, Set<int>) {
    parsed_from(s, 0, hand, preferred_suit(hand, suits))
}

proof fn lemma_suit_from_range(s: Seq<char>, i: int)
    ensures
        suit_from(s, i) matches Some(b) ==> 0 <= b <= 48,
    decreases s.len() - i,
{
    if 0 <= i < s.len() && suit_of_char(s[i]).is_none() {
        lemma_suit_from_range(s, i + 1);
    }
}

proof fn lemma_parsed_step(s: Seq<char>, i: int, hand: Cards, pref: Option<int>)
    requires
        0 <= i < s.len(),
    ensures
        parsed_from(s, i, hand, pref) == (match rank_of_char(s[i]) {
            Some(r) => (
                parsed_from(s, i + 1, hand, pref).0.union(resolve(s, i, r, hand, pref).0),
                parsed_from(s, i + 1, hand, pref).1.union(resolve(s, i, r, hand, pref).1),
            ),
            None => parsed_from(s, i + 1, hand, pref),
        }),
{
}

/// The card of `rank` in the suit `base` when the hand admits it.
fn admitted(hand: Cards, rank: u8, base: u8) -> (r: (Cards, u8))
    requires
        rank + base < 64,
    ensures
        r.0@ == candidate(hand, rank + base),
        r.1 as int == if admits(hand, rank + base) { 1int } else { 0 },
{
    let card = Cards::of(rank, base);
    proof {
        lemma_view_empty();
        assert(card@.contains(rank + base));
    }
    if hand.is_empty() || hand.contains(card) {
        (card, 1)
    } else {
        (Cards(NO_CARD), 0)
    }
}

/// The cards of rank `rank` that the hand admits, and how many there are.
fn candidates_of(hand: Cards, rank: u8) -> (r: (Cards, u8))
    requires
        2 <= rank <= 14,
    ensures
        r.0@ == candidates(hand, rank as int),
        r.1 as int == n_candidates(hand, rank as int),
{
    let (c0, n0) = admitted(hand, rank, 0x00);
    let (c1, n1) = admitted(hand, rank, 0x10);
    let (c2, n2) = admitted(hand, rank, 0x20);
    let (c3, n3) = admitted(hand, rank, 0x30);
    (c0.union(c1).union(c2).union(c3), n0 + n1 + n2 + n3)
}

/// What a suit or the absence of one is written as in the parser's state.
pub open spec fn suit_code(su: Option<int>) -> int {
    match su {
        Some(b) => b,
        None => NO_SUIT as int,
    }
}

fn suit_of(c: char) -> (r: u8)
    ensures
        r as int == suit_code(suit_of_char(c)),
{
    if c == 'c' || c == 'C' || c == '\u{2663}' {
        0x00
    } else if c == 'd' || c == 'D' || c == '\u{2666}' {
        0x10
    } else if c == 's' || c == 'S' || c == '\u{2660}' {
        0x20
    } else if c == 'h' || c == 'H' || c == '\u{2665}' {
        0x30
    } else {
        NO_SUIT
    }
}

fn rank_of(c: char) -> (r: u8)
    ensures
        r == 0 <==> rank_of_char(c).is_none(),
        rank_of_char(c) matches Some(k) ==> r as int == k,
{
    if '2' <= c && c <= '9' {
        (c as u32 - '0' as u32) as u8
    } else if c == '0' {
        0xa
    } else if c == 'j' || c == 'J' {
        0xb
    } else if c == 'q' || c == 'Q' {
        0xc
    } else if c == 'k' || c == 'K' {
        0xd
    } else if c == 'a' || c == 'A' {
        0xe
    } else {
        0
    }
}

impl Cards {
    /// Parses the cards that `input` names within `hand` (any cards when `hand`
    /// is empty). A rank takes the suit of the nearest suit marker after it;
    /// without one it takes the suit `suits` when the hand holds a card of it,
    /// else the one suit in which the hand holds that rank.
    pub fn parse_in_hand(input: &str, hand: Cards, suits: Cards) -> (r: Result<Cards, ParseError>)
        ensures
            (exists|j: int| 0 <= j < input@.len() && !is_card_char(input@[j])) <==> r matches Err(ParseError::Invalid { .. }),
            r matches Err(ParseError::Invalid { invalid, offset }) ==> {
                &&& offset < input@.len()
                &&& invalid == input@[offset as int]
                &&& !is_card_char(invalid)
                &&& forall|j: int| offset < j < input@.len() ==> is_card_char(input@[j])
            },
            (forall|j: int| 0 <= j < input@.len() ==> is_card_char(input@[j])) ==> {
                let (ok, amb) = parsed(input@, hand, suits);
                if amb != Set::<int>::empty() {
                    r matches Err(ParseError::Ambiguous { cards, ok: o, err }) && cards@ == ok.union(amb)
                        && o@ == ok && err@ == amb
                } else if ok == Set::<int>::empty() {
                    r == Err::<Cards, ParseError>(ParseError::NoCard)
                } else {
                    r matches Ok(c) && c@ == ok
                }
            },
    {
        let ghost s = input@;
        let ghost pref = preferred_suit(hand, suits);
        let pref_suit = {
            let suit = suits.mask_to_suit();
            if hand.contains_suit(suits) {
                suit
            } else {
                NO_SUIT
            }
        };
        assert(pref_suit as int == suit_code(pref));
        let n = input.unicode_len();
        let mut cards = Cards(NO_CARD);
        let mut ambiguous_cards = Cards(NO_CARD);
        let mut suit: u8 = NO_SUIT;
        let mut i: usize = n;
        proof {
            lemma_view_empty();
        }
        while i > 0
            invariant
                i <= n,
                n == s.len(),
                s == input@,
                pref == preferred_suit(hand, suits),
                pref_suit as int == suit_code(pref),
                pref_suit == NO_SUIT || pref_suit <= 0x30,
                suit == NO_SUIT || suit <= 0x30,
                suit as int == suit_code(suit_from(s, i as int)),
                forall|j: int| i <= j < n ==> is_card_char(s[j]),
                cards@ == parsed_from(s, i as int, hand, pref).0,
                ambiguous_cards@ == parsed_from(s, i as int, hand, pref).1,
            decreases i,
        {
            let k = i - 1;
            let ch = input.get_char(k);
            proof {
                lemma_parsed_step(s, k as int, hand, pref);
            }
            let su = suit_of(ch);
            let rank = rank_of(ch);
            let ghost before = parsed_from(s, i as int, hand, pref);
            proof {
                lemma_suit_from_range(s, i as int);
            }
            if su != NO_SUIT {
                suit = su;
                assert(rank_of_char(ch).is_none());
            } else if rank != 0 {
                let eff = if suit == NO_SUIT { pref_suit } else { suit };
                let ghost here = resolve(s, k as int, rank as int, hand, pref);
                if eff == NO_SUIT {
                    let (guess, found) = candidates_of(hand, rank);
                    if found > 1 {
                        ambiguous_cards = ambiguous_cards.union(guess);
                        assert(here.0 =~= Set::<int>::empty());
                        assert(cards@ =~= before.0.union(here.0));
                    } else {
                        cards = cards.union(guess);
                        assert(here.1 =~= Set::<int>::empty());
                        assert(ambiguous_cards@ =~= before.1.union(here.1));
                    }
                } else {
                    let (card, _) = admitted(hand, rank, eff);
                    cards = cards.union(card);
                    assert(here.1 =~= Set::<int>::empty());
                    assert(ambiguous_cards@ =~= before.1.union(here.1));
                }
            } else if ch != ' ' {
                return Err(ParseError::Invalid { invalid: ch, offset: k });
            }
            i = k;
        }
        if !ambiguous_cards.is_empty() {
            Err(ParseError::Ambiguous { cards: cards.union(ambiguous_cards), ok: cards, err: ambiguous_cards })
        } else if cards.is_empty() {
            Err(ParseError::NoCard)
        } else {
            Ok(cards)
        }
    }
}


/// Writes clubs, diamonds, spades, hearts as `c`, `d`, `s`, `h` instead of suit glyphs.
pub const ASCII_SUIT: u32 = 0b1;
/// Writes jack, queen, king, ace as `j`, `q`, `k`, `a`.
pub const LOWERCASE_RANK: u32 = 0b10;
/// Gives every card its own suit character.
pub const NO_SHARED_SUIT: u32 = 0b100;
/// Puts no spaces between groups.
pub const NO_SPACES: u32 = 0b1000;

/// Rendering options, a set of the flags above.
#[derive(Copy, Clone)]
struct Mask(u32);

impl Mask {
    fn matches(self, flags: u32) -> (r: bool)
        ensures
            r == (self.0 & flags == flags),
    {
        self.0 & flags == flags
    }
}

pub open spec fn has_flag(flags: u32, f: u32) -> bool {
    flags & f == f
}

/// The character of rank `r` (2 to 14); the ten is written `0`.
pub open spec fn rank_char(r: int, lower: bool) -> char {
    if r == 10 {
        '0'
    } else if r < 10 {
        ('0' as int + r) as char
    } else if r == 11 {
        if lower { 'j' } else { 'J' }
    } else if r == 12 {
        if lower { 'q' } else { 'Q' }
    } else if r == 13 {
        if lower { 'k' } else { 'K' }
    } else if lower {
        'a'
    } else {
        'A'
    }
}

/// The character of the suit with base `b`.
pub open spec fn suit_char(b: int, ascii: bool) -> char {
    if b == 0 {
        if ascii { 'c' } else { '\u{2663}' }
    } else if b == 16 {
        if ascii { 'd' } else { '\u{2666}' }
    } else if b == 32 {
        if ascii { 's' } else { '\u{2660}' }
    } else if ascii {
        'h'
    } else {
        '\u{2665}'
    }
}

/// The positions of the cards of suit `b` with rank below `r`, ascending.
pub open spec fn ranks_below(c: Cards, b: int, r: int) -> Seq<int>
    decreases r,
{
    if r <= 2 {
        Seq::empty()
    } else if c@.contains(b + r - 1) {
        ranks_below(c, b, r - 1).push(b + r - 1)
    } else {
        ranks_below(c, b, r - 1)
    }
}

/// The groups that suit `b` is written as: one per card, or one for the whole
/// suit with the suit character once at its end.
pub open spec fn suit_parts(c: Cards, b: int, flags: u32) -> Seq<Seq<char>> {
    let rs = ranks_below(c, b, 15);
    let lower = has_flag(flags, LOWERCASE_RANK);
    let ascii = has_flag(flags, ASCII_SUIT);
    if has_flag(flags, NO_SHARED_SUIT) {
        rs.map_values(|p: int| seq![rank_char(p - b, lower), suit_char(b, ascii)])
    } else if rs.len() == 0 {
        Seq::empty()
    } else {
        seq![rs.map_values(|p: int| rank_char(p - b, lower)).push(suit_char(b, ascii))]
    }
}

/// The groups of the suits before suit number `k`.
pub open spec fn parts_before(c: Cards, k: int, flags: u32) -> Seq<Seq<char>>
    decreases k,
{
    if k <= 0 {
        Seq::empty()
    } else {
        parts_before(c, k - 1, flags) + suit_parts(c, 16 * (k - 1), flags)
    }
}

/// Groups written one after the other with `sep` between two of them.
pub open spec fn join(parts: Seq<Seq<char>>, sep: Seq<char>) -> Seq<char>
    decreases parts.len(),
{
    if parts.len() == 0 {
        Seq::empty()
    } else if parts.len() == 1 {
        parts[0]
    } else {
        join(parts.drop_last(), sep) + sep + parts.last()
    }
}

/// The text of a set of cards: suits in deck order, ranks ascending.
pub open spec fn text_of(c: Cards, flags: u32) -> Seq<char> {
    join(parts_before(c, 4, flags), if has_flag(flags, NO_SPACES) { Seq::empty() } else { seq![' '] })
}

proof fn lemma_join_push(parts: Seq<Seq<char>>, x: Seq<char>, sep: Seq<char>)
    ensures
        join(parts.push(x), sep) == if parts.len() == 0 { x } else { join(parts, sep) + sep + x },
{
    assert(parts.push(x).drop_last() =~= parts);
}

/// Relies on `String`'s `FromIterator<char>`: the string of exactly these characters.
#[verifier::external_body]
fn string_of(chars: &Vec<char>) -> (r: String)
    ensures
        r@ == chars@,
{
    chars.iter().collect()
}

fn push_part(out: &mut Vec<char>, part: &Vec<char>, first: bool, spaces: bool, Ghost(parts): Ghost<Seq<Seq<char>>>)
    requires
        old(out)@ == join(parts, if spaces { seq![' '] } else { Seq::empty() }),
        first == (parts.len() == 0),
    ensures
        final(out)@ == join(parts.push(part@), if spaces { seq![' '] } else { Seq::empty() }),
{
    let ghost sep: Seq<char> = if spaces { seq![' '] } else { Seq::empty() };
    proof {
        lemma_join_push(parts, part@, sep);
    }
    if !first && spaces {
        out.push(' ');
    }
    let ghost mid = out@;
    let mut j: usize = 0;
    while j < part.len()
        invariant
            j <= part.len(),
            out@ == mid + part@.subrange(0, j as int),
        decreases part.len() - j,
    {
        out.push(part[j]);
        j = j + 1;
        assert(out@ =~= mid + part@.subrange(0, j as int));
    }
    assert(part@.subrange(0, part@.len() as int) =~= part@);
    if first {
        assert(old(out)@ =~= Seq::<char>::empty());
        assert(out@ =~= part@);
    } else if !spaces {
        assert(out@ =~= old(out)@ + sep + part@);
    }
}

fn rank_char_of(r: u8, lower: bool) -> (c: char)
    requires
        2 <= r <= 14,
    ensures
        c == rank_char(r as int, lower),
{
    if r == 10 {
        '0'
    } else if r < 10 {
        (('0' as u8) + r) as char
    } else if r == 11 {
        if lower { 'j' } else { 'J' }
    } else if r == 12 {
        if lower { 'q' } else { 'Q' }
    } else if r == 13 {
        if lower { 'k' } else { 'K' }
    } else if lower {
        'a'
    } else {
        'A'
    }
}

fn suit_char_of(k: u8, ascii: bool) -> (c: char)
    requires
        k < 4,
    ensures
        c == suit_char(16 * k, ascii),
{
    if k == 0 {
        if ascii { 'c' } else { '\u{2663}' }
    } else if k == 1 {
        if ascii { 'd' } else { '\u{2666}' }
    } else if k == 2 {
        if ascii { 's' } else { '\u{2660}' }
    } else if ascii {
        'h'
    } else {
        '\u{2665}'
    }
}

impl Cards {
    /// The text of the set under the rendering `flags`.
    pub fn text(&self, flags: u32) -> (r: String)
        ensures
            r@ == text_of(*self, flags),
    {
        let mask = Mask(flags);
        let ascii = mask.matches(ASCII_SUIT);
        let lower = mask.matches(LOWERCASE_RANK);
        let shared = !mask.matches(NO_SHARED_SUIT);
        let spaces = !mask.matches(NO_SPACES);
        let ghost sep: Seq<char> = if spaces { seq![' '] } else { Seq::empty() };
        let mut out: Vec<char> = Vec::new();
        let mut n_parts: usize = 0;
        let ghost mut parts: Seq<Seq<char>> = Seq::empty();
        let mut k: u8 = 0;
        while k < 4
            invariant
                k <= 4,
                ascii == has_flag(flags, ASCII_SUIT),
                lower == has_flag(flags, LOWERCASE_RANK),
                shared == !has_flag(flags, NO_SHARED_SUIT),
                spaces == !has_flag(flags, NO_SPACES),
                sep == if spaces { seq![' '] } else { Seq::<char>::empty() },
                parts == parts_before(*self, k as int, flags),
                n_parts as int == parts.len(),
                n_parts <= 13 * k,
                out@ == join(parts, sep),
            decreases 4 - k,
        {
            let base: u8 = k * 16;
            let suit_ch = suit_char_of(k, ascii);
            let ghost start = parts;
            let ghost b = base as int;
            let mut group: Vec<char> = Vec::new();
            let mut r: u8 = 2;
            while r <= 14
                invariant
                    2 <= r <= 15,
                    k < 4,
                    base == k * 16,
                    b == base as int,
                    ascii == has_flag(flags, ASCII_SUIT),
                    lower == has_flag(flags, LOWERCASE_RANK),
                    shared == !has_flag(flags, NO_SHARED_SUIT),
                    spaces == !has_flag(flags, NO_SPACES),
                    sep == if spaces { seq![' '] } else { Seq::<char>::empty() },
                    suit_ch == suit_char(b, ascii),
                    start == parts_before(*self, k as int, flags),
                    n_parts as int == parts.len(),
                    n_parts <= 13 * k + (r - 2),
                    out@ == join(parts, sep),
                    shared ==> parts == start,
                    shared ==> group@ == ranks_below(*self, b, r as int).map_values(|p: int| rank_char(p - b, lower)),
                    !shared ==> parts == start + ranks_below(*self, b, r as int).map_values(|p: int| seq![rank_char(p - b, lower), suit_char(b, ascii)]),
                decreases 15 - r,
            {
                let card = Cards::of(r, base);
                let rc = rank_char_of(r, lower);
                let ghost rs = ranks_below(*self, b, r as int);
                let ghost p = b + r;
                proof {
                    assert(card@.contains(p));
                }
                if self.contains(card) {
                    assert(ranks_below(*self, b, r + 1) == rs.push(p));
                    if shared {
                        group.push(rc);
                        assert(rs.push(p).map_values(|p: int| rank_char(p - b, lower)) =~= rs.map_values(|p: int| rank_char(p - b, lower)).push(rc));
                    } else {
                        let mut tok: Vec<char> = Vec::new();
                        tok.push(rc);
                        tok.push(suit_ch);
                        push_part(&mut out, &tok, n_parts == 0, spaces, Ghost(parts));
                        proof {
                            assert(tok@ =~= seq![rc, suit_ch]);
                            assert(rs.push(p).map_values(|p: int| seq![rank_char(p - b, lower), suit_char(b, ascii)]) =~= rs.map_values(|p: int| seq![rank_char(p - b, lower), suit_char(b, ascii)]).push(tok@));
                            assert(start + rs.push(p).map_values(|p: int| seq![rank_char(p - b, lower), suit_char(b, ascii)]) =~= parts.push(tok@));
                            parts = parts.push(tok@);
                        }
                        n_parts = n_parts + 1;
                    }
                } else {
                    assert(!self@.contains(p));
                    assert(ranks_below(*self, b, r + 1) == rs);
                }
                r = r + 1;
            }
            if shared && group.len() > 0 {
                group.push(suit_ch);
                push_part(&mut out, &group, n_parts == 0, spaces, Ghost(parts));
                proof {
                    parts = parts.push(group@);
                }
                n_parts = n_parts + 1;
            }
            proof {
                let rs = ranks_below(*self, b, 15);
                assert(16 * (k + 1 - 1) == b);
                if shared {
                    if rs.len() == 0 {
                        assert(parts =~= parts_before(*self, k + 1, flags));
                    } else {
                        assert(parts =~= parts_before(*self, k + 1, flags));
                    }
                } else {
                    assert(parts =~= parts_before(*self, k + 1, flags));
                }
            }
            k = k + 1;
        }
        string_of(&out)
    }
}


proof fn lemma_ranks_of_single(c: Cards, p: int, b: int, r: int)
    requires
        c.is_card(p),
        b == 0 || b == 16 || b == 32 || b == 48,
        r <= 15,
    ensures
        ranks_below(c, b, r) == if b + 2 <= p < b + r { seq![p] } else { Seq::<int>::empty() },
    decreases r,
{
    if r > 2 {
        lemma_ranks_of_single(c, p, b, r - 1);
        assert(c@.contains(b + r - 1) <==> b + r - 1 == p);
        if b + 2 <= p < b + r - 1 {
        } else if p == b + r - 1 {
            assert(Seq::<int>::empty().push(p) =~= seq![p]);
        }
    }
}

/// Writing a single card under any rendering options and reading the text back
/// with no hand to match gives that card again.
pub proof fn lemma_round_trip(c: Cards, flags: u32)
    requires
        c.is_single(),
    ensures
        forall|j: int| 0 <= j < text_of(c, flags).len() ==> is_card_char(#[trigger] text_of(c, flags)[j]),
        parsed(text_of(c, flags), Cards(NO_CARD), Cards(NO_CARD)) == (c@, Set::<int>::empty()),
{
    let p = choose|p: int| c.is_card(p);
    let b = (p / 16) * 16;
    let r = p - b;
    let lower = has_flag(flags, LOWERCASE_RANK);
    let ascii = has_flag(flags, ASCII_SUIT);
    let rc = rank_char(r, lower);
    let sc = suit_char(b, ascii);
    let tok = seq![rc, sc];
    lemma_ranks_of_single(c, p, 0, 15);
    lemma_ranks_of_single(c, p, 16, 15);
    lemma_ranks_of_single(c, p, 32, 15);
    lemma_ranks_of_single(c, p, 48, 15);
    let sep: Seq<char> = if has_flag(flags, NO_SPACES) { Seq::empty() } else { seq![' '] };
    assert(seq![p].map_values(|q: int| seq![rank_char(q - b, lower), suit_char(b, ascii)]) =~= seq![tok]);
    assert(seq![p].map_values(|q: int| rank_char(q - b, lower)).push(sc) =~= tok);
    assert(Seq::<int>::empty().map_values(|q: int| seq![rank_char(q - 0, lower), suit_char(0, ascii)]) =~= Seq::<Seq<char>>::empty());
    assert(Seq::<int>::empty().map_values(|q: int| seq![rank_char(q - 16, lower), suit_char(16, ascii)]) =~= Seq::<Seq<char>>::empty());
    assert(Seq::<int>::empty().map_values(|q: int| seq![rank_char(q - 32, lower), suit_char(32, ascii)]) =~= Seq::<Seq<char>>::empty());
    assert(Seq::<int>::empty().map_values(|q: int| seq![rank_char(q - 48, lower), suit_char(48, ascii)]) =~= Seq::<Seq<char>>::empty());
    assert(suit_parts(c, b, flags) == seq![tok]);
    assert(parts_before(c, 0, flags) =~= Seq::<Seq<char>>::empty());
    assert forall|k: int| 0 <= k < 4 implies #[trigger] suit_parts(c, 16 * k, flags) == if 16 * k == b { seq![tok] } else { Seq::<Seq<char>>::empty() } by {
        let bb = 16 * k;
        if bb != b {
            assert(ranks_below(c, bb, 15) == Seq::<int>::empty());
            assert(Seq::<int>::empty().map_values(|q: int| seq![rank_char(q - bb, lower), suit_char(bb, ascii)]) =~= Seq::<Seq<char>>::empty());
        }
    }
    assert(suit_parts(c, 16 * 0int, flags) == suit_parts(c, 0int, flags));
    assert(suit_parts(c, 16 * 1int, flags) == suit_parts(c, 16int, flags));
    assert(suit_parts(c, 16 * 2int, flags) == suit_parts(c, 32int, flags));
    assert(suit_parts(c, 16 * 3int, flags) == suit_parts(c, 48int, flags));
    let e0 = Seq::<Seq<char>>::empty();
    let s0 = suit_parts(c, 0, flags);
    let s1 = suit_parts(c, 16, flags);
    let s2 = suit_parts(c, 32, flags);
    let s3 = suit_parts(c, 48, flags);
    assert(parts_before(c, 1, flags) == e0 + s0);
    assert(parts_before(c, 2, flags) == e0 + s0 + s1);
    assert(parts_before(c, 3, flags) == e0 + s0 + s1 + s2);
    assert(parts_before(c, 4, flags) == e0 + s0 + s1 + s2 + s3);
    assert(parts_before(c, 4, flags) =~= seq![tok]);
    assert(text_of(c, flags) == tok);
    assert(rank_of_char(rc) == Some(r));
    assert(suit_of_char(sc) == Some(b));
    lemma_view_empty();
    let e = Cards(NO_CARD);
    assert(suit_from(tok, 1) == Some(b));
    assert(parsed_from(tok, 2, e, preferred_suit(e, e)) == (Set::<int>::empty(), Set::<int>::empty()));
    assert(parsed_from(tok, 1, e, preferred_suit(e, e)) == (Set::<int>::empty(), Set::<int>::empty()));
    assert(candidate(e, r + b) == set![p]);
    assert(Set::<int>::empty().union(set![p]) =~= c@);
    assert(Set::<int>::empty().union(Set::<int>::empty()) =~= Set::<int>::empty());
}


impl std::str::FromStr for Cards {
    type Err = ParseError;

    /// Reads any cards, with no hand to match.
    fn from_str(s: &str) -> Result<Cards, ParseError> {
        Cards::parse_in_hand(s, Cards(NO_CARD), Cards(NO_CARD))
    }
}

} // verus!
