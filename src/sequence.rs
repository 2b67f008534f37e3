//! Sequences of cards: hands, melds and decks, with the rules that make a meld valid.

use vstd::prelude::*;
use rand::seq::SliceRandom;
use crate::card::{Card, Suit, card_bytes, card_of_bytes, suit_key, rank_key, value_card_by_suit, value_card_by_rank};

verus! {

broadcast use vstd::seq_lib::group_to_multiset_ensures;

/// Whether a card is a regular card (not a joker).
pub open spec fn is_regular(c: Card) -> bool {
    match c {
        Card::RegularCard(_, _) => true,
        Card::Joker => false,
    }
}

/// Rank of a regular card.
pub open spec fn rank_of(c: Card) -> int {
    match c {
        Card::RegularCard(_, v) => v as int,
        Card::Joker => 0,
    }
}

/// Suit of a regular card.
pub open spec fn suit_of(c: Card) -> Suit {
    match c {
        Card::RegularCard(s, _) => s,
        Card::Joker => Suit::Heart,
    }
}

/// `f` is the position of the first regular card of `s`.
pub open spec fn is_first_regular(s: Seq<Card>, f: int) -> bool {
    &&& 0 <= f < s.len()
    &&& is_regular(s[f])
    &&& forall|j: int| 0 <= j < f ==> !is_regular(#[trigger] s[j])
}

/// The card at position `k` continues the run anchored at position `f`: it is a joker, or
/// it has the anchor's suit and the rank `k - f` steps above the anchor's, where the step
/// after the king may be taken once by an ace.
pub open spec fn fits_run(s: Seq<Card>, f: int, k: int) -> bool {
    is_regular(s[k]) ==> {
        &&& suit_of(s[k]) == suit_of(s[f])
        &&& (rank_of(s[k]) == rank_of(s[f]) + (k - f) || (rank_of(s[f]) + (k - f) == 14
            && rank_of(s[k]) == 1))
    }
}

/// A run: every card from the first regular one on continues it.
pub open spec fn is_run(s: Seq<Card>) -> bool {
    forall|f: int, k: int| is_first_regular(s, f) && f <= k < s.len() ==> #[trigger] fits_run(s, f, k)
}

/// A set: all regular cards share one rank and have pairwise different suits.
pub open spec fn is_set(s: Seq<Card>) -> bool {
    forall|i: int, j: int|
        0 <= i < j < s.len() && is_regular(#[trigger] s[i]) && is_regular(#[trigger] s[j]) ==> {
            &&& rank_of(s[i]) == rank_of(s[j])
            &&& suit_of(s[i]) != suit_of(s[j])
        }
}

/// A meld that may be laid on the table: at least three cards forming a run or a set.
pub open spec fn is_valid_meld(s: Seq<Card>) -> bool {
    s.len() >= 3 && (is_run(s) || is_set(s))
}

/// Multiset inclusion: each card of `small` occurs in `big` at least as many times.
pub open spec fn includes(big: Seq<Card>, small: Seq<Card>) -> bool {
    small.to_multiset().subset_of(big.to_multiset())
}

/// Some suit of a regular card of `s` before position `i` is `x`.
pub open spec fn suit_seen(s: Seq<Card>, i: int, x: Suit) -> bool {
    exists|j: int| 0 <= j < i && is_regular(#[trigger] s[j]) && suit_of(s[j]) == x
}

/// An ordered list of cards, used as a hand, a meld or a deck.
#[derive(Clone, Debug)]
pub struct Sequence(Vec<Card>);

impl View for Sequence {
    type V = Seq<Card>;

    closed spec fn view(&self) -> Seq<Card> {
        self.0@
    }
}

impl PartialEq for Sequence {
    fn eq(&self, other: &Sequence) -> (r: bool) {
        if self.0.len() != other.0.len() {
            return false;
        }
        let n = self.0.len();
        let mut i: usize = 0;
        while i < n
            invariant
                n == self@.len(),
                n == other@.len(),
                i <= n,
                forall|j: int| 0 <= j < i ==> self@[j] == other@[j],
            decreases n - i,
        {
            if self.0[i] != other.0[i] {
                return false;
            }
            i += 1;
        }
        proof {
            assert(self@ =~= other@);
        }
        true
    }
}

impl vstd::std_specs::cmp::PartialEqSpecImpl for Sequence {
    open spec fn obeys_eq_spec() -> bool {
        true
    }

    open spec fn eq_spec(&self, other: &Sequence) -> bool {
        self@ == other@
    }
}

impl Sequence {
    /// An empty sequence.
    pub fn new() -> (r: Sequence)
        ensures
            r@ == Seq::<Card>::empty(),
    {
        Sequence(Vec::new())
    }

    /// A sequence holding the given cards in order.
    pub fn from_cards(cards: &[Card]) -> (r: Sequence)
        ensures
            r@ == cards@,
    {
        let mut v: Vec<Card> = Vec::new();
        let mut i: usize = 0;
        while i < cards.len()
            invariant
                i <= cards@.len(),
                v@ == cards@.take(i as int),
            decreases cards@.len() - i,
        {
            v.push(cards[i]);
            i += 1;
            proof {
                assert(v@ =~= cards@.take(i as int));
            }
        }
        proof {
            assert(v@ =~= cards@);
        }
        Sequence(v)
    }

    /// Number of cards.
    pub fn number_cards(&self) -> (r: usize)
        ensures
            r == self@.len(),
    {
        self.0.len()
    }

    /// Append a card at the tail.
    pub fn add_card(&mut self, card: Card)
        ensures
            final(self)@ == old(self)@.push(card),
    {
        self.0.push(card);
    }

    /// Remove and return the card at the tail; `None` when the sequence is empty.
    pub fn draw_card(&mut self) -> (r: Option<Card>)
        ensures
            old(self)@.len() == 0 ==> r is None && final(self)@ == old(self)@,
            old(self)@.len() > 0 ==> r == Some(old(self)@.last()) && final(self)@ == old(
                self,
            )@.drop_last(),
    {
        self.0.pop()
    }

    /// Remove and return the card at the 1-based position `i`, shifting the later cards;
    /// `None`, with the sequence unchanged, when `i` is not in `1..=len`.
    pub fn take_card(&mut self, i: usize) -> (r: Option<Card>)
        ensures
            1 <= i <= old(self)@.len() ==> r == Some(old(self)@[i - 1]) && final(self)@ == old(
                self,
            )@.remove(i - 1),
            !(1 <= i <= old(self)@.len()) ==> r is None && final(self)@ == old(self)@,
    {
        if i > 0 && i <= self.0.len() {
            let card = self.0.remove(i - 1);
            return Some(card);
        }
        None
    }

    /// Whether the sequence holds a joker.
    pub fn contains_joker(&self) -> (r: bool)
        ensures
            r == self@.contains(Card::Joker),
    {
        let mut i: usize = 0;
        while i < self.0.len()
            invariant
                i <= self@.len(),
                forall|j: int| 0 <= j < i ==> self@[j] != Card::Joker,
            decreases self@.len() - i,
        {
            if self.0[i] == Card::Joker {
                return true;
            }
            i += 1;
        }
        false
    }

    /// The cards, in order.
    pub fn to_vec(&self) -> (r: Vec<Card>)
        ensures
            r@ == self@,
    {
        let mut v: Vec<Card> = Vec::new();
        let mut i: usize = 0;
        while i < self.0.len()
            invariant
                i <= self@.len(),
                v@ == self@.take(i as int),
            decreases self@.len() - i,
        {
            v.push(self.0[i]);
            i += 1;
            proof {
                assert(v@ =~= self@.take(i as int));
            }
        }
        proof {
            assert(v@ =~= self@);
        }
        v
    }

    /// Whether the sequence is a valid meld: at least three cards forming a run or a set.
    pub fn is_valid(&self) -> (r: bool)
        ensures
            r == is_valid_meld(self@),
    {
        if self.0.len() < 3 {
            return false;
        }
        if self.is_valid_sequence_same_suit() {
            return true;
        }
        if self.is_valid_sequence_same_val() {
            return true;
        }
        false
    }

    /// Whether the sequence is a run.
    fn is_valid_sequence_same_suit(&self) -> (r: bool)
        ensures
            r == is_run(self@),
    {
        let s = Ghost(self@);
        let n = self.0.len();
        let mut found = false;
        let mut first: usize = 0;
        let mut common_suit = Suit::Club;
        let mut first_value: u8 = 0;
        let mut i: usize = 0;
        while i < n
            invariant
                n == s@.len(),
                s@ == self@,
                i <= n,
                !found ==> forall|j: int| 0 <= j < i ==> !is_regular(#[trigger] s@[j]),
                found ==> {
                    &&& is_first_regular(s@, first as int)
                    &&& first < i
                    &&& s@[first as int] == Card::RegularCard(common_suit, first_value)
                    &&& forall|k: int| first <= k < i ==> #[trigger] fits_run(s@, first as int, k)
                },
            decreases n - i,
        {
            match self.0[i] {
                Card::RegularCard(suit, value) => {
                    if !found {
                        found = true;
                        first = i;
                        common_suit = suit;
                        first_value = value;
                    } else {
                        let d: usize = i - first;
                        let follows = (value >= first_value && (value - first_value) as usize == d)
                            || (value == 1 && first_value <= 14 && d == (14 - first_value) as usize);
                        if suit != common_suit || !follows {
                            proof {
                                assert(!fits_run(s@, first as int, i as int));
                            }
                            return false;
                        }
                    }
                },
                Card::Joker => {},
            }
            i += 1;
        }
        proof {
            assert forall|f: int, k: int| is_first_regular(s@, f) && f <= k < s@.len() implies #[trigger] fits_run(
                s@,
                f,
                k,
            ) by {
                if found {
                    if f < first {
                        assert(!is_regular(s@[f]));
                    }
                    if first < f {
                        assert(!is_regular(s@[first as int]));
                    }
                } else {
                    assert(!is_regular(s@[f]));
                }
            }
        }
        true
    }

    /// Whether the sequence is a set.
    fn is_valid_sequence_same_val(&self) -> (r: bool)
        ensures
            r == is_set(self@),
    {
        let s = Ghost(self@);
        let n = self.0.len();
        let mut found = false;
        let mut common_value: u8 = 0;
        let mut seen_heart = false;
        let mut seen_diamond = false;
        let mut seen_club = false;
        let mut seen_spade = false;
        let mut i: usize = 0;
        while i < n
            invariant
                n == s@.len(),
                s@ == self@,
                i <= n,
                found <==> exists|j: int| 0 <= j < i && is_regular(#[trigger] s@[j]),
                forall|j: int| 0 <= j < i && is_regular(#[trigger] s@[j]) ==> rank_of(s@[j]) == common_value,
                seen_heart == suit_seen(s@, i as int, Suit::Heart),
                seen_diamond == suit_seen(s@, i as int, Suit::Diamond),
                seen_club == suit_seen(s@, i as int, Suit::Club),
                seen_spade == suit_seen(s@, i as int, Suit::Spade),
                is_set(s@.take(i as int)),
            decreases n - i,
        {
            match self.0[i] {
                Card::RegularCard(suit, value) => {
                    if !found {
                        found = true;
                        common_value = value;
                    } else if value != common_value {
                        proof {
                            let j = choose|j: int| 0 <= j < i && is_regular(#[trigger] s@[j]);
                            assert(is_regular(s@[j]) && is_regular(s@[i as int]));
                        }
                        return false;
                    }
                    let already = match suit {
                        Suit::Heart => seen_heart,
                        Suit::Diamond => seen_diamond,
                        Suit::Club => seen_club,
                        Suit::Spade => seen_spade,
                    };
                    if already {
                        proof {
                            let j = choose|j: int|
                                0 <= j < i && is_regular(#[trigger] s@[j]) && suit_of(s@[j]) == suit;
                            assert(is_regular(s@[j]) && is_regular(s@[i as int]));
                        }
                        return false;
                    }
                    match suit {
                        Suit::Heart => { seen_heart = true; },
                        Suit::Diamond => { seen_diamond = true; },
                        Suit::Club => { seen_club = true; },
                        Suit::Spade => { seen_spade = true; },
                    }
                },
                Card::Joker => {},
            }
            proof {
                let t = s@.take(i + 1);
                assert forall|a: int, b: int|
                    0 <= a < b < t.len() && is_regular(#[trigger] t[a]) && is_regular(#[trigger] t[b]) implies {
                    &&& rank_of(t[a]) == rank_of(t[b])
                    &&& suit_of(t[a]) != suit_of(t[b])
                } by {
                    if b < i {
                        assert(s@.take(i as int)[a] == t[a]);
                        assert(s@.take(i as int)[b] == t[b]);
                    } else {
                        assert(t[a] == s@[a]);
                        if suit_of(t[a]) == suit_of(t[b]) {
                            assert(suit_seen(s@, i as int, suit_of(s@[i as int])));
                        }
                    }
                }
                assert forall|x: Suit| suit_seen(s@, i + 1, x) == (suit_seen(s@, i as int, x) || (
                is_regular(s@[i as int]) && suit_of(s@[i as int]) == x)) by {
                    if suit_seen(s@, i + 1, x) {
                        let j = choose|j: int|
                            0 <= j < i + 1 && is_regular(#[trigger] s@[j]) && suit_of(s@[j]) == x;
                        if j < i {
                            assert(suit_seen(s@, i as int, x));
                        }
                    }
                    if suit_seen(s@, i as int, x) {
                        let j = choose|j: int|
                            0 <= j < i && is_regular(#[trigger] s@[j]) && suit_of(s@[j]) == x;
                        assert(0 <= j < i + 1 && is_regular(s@[j]) && suit_of(s@[j]) == x);
                    }
                    if is_regular(s@[i as int]) && suit_of(s@[i as int]) == x {
                        assert(0 <= i < i + 1 && is_regular(s@[i as int]));
                    }
                }
                if is_regular(s@[i as int]) {
                    assert(0 <= i < i + 1 && is_regular(s@[i as int]));
                }
            }
            i += 1;
        }
        proof {
            assert(s@.take(n as int) =~= s@);
        }
        true
    }
}


/// The cards of `s` in reverse order.
pub open spec fn reversed(s: Seq<Card>) -> Seq<Card> {
    Seq::new(s.len(), |i: int| s[s.len() - 1 - i])
}

/// Sort key of a card in the order chosen by `by_suit`.
pub open spec fn sort_key(c: Card, by_suit: bool) -> int {
    if by_suit {
        suit_key(c)
    } else {
        rank_key(c)
    }
}

/// The keys of `s` never decrease.
pub open spec fn sorted_by(s: Seq<Card>, by_suit: bool) -> bool {
    forall|a: int, b: int| 0 <= a < b < s.len() ==> sort_key(#[trigger] s[a], by_suit) <= sort_key(#[trigger] s[b], by_suit)
}

/// The cards of `s`, sorted stably by key (insertion after every card of equal key).
fn sorted_cards(s: &Vec<Card>, by_suit: bool) -> (r: Vec<Card>)
    ensures
        sorted_by(r@, by_suit),
        r@.to_multiset() == s@.to_multiset(),
{
    let mut r: Vec<Card> = Vec::new();
    let mut i: usize = 0;
    while i < s.len()
        invariant
            i <= s@.len(),
            sorted_by(r@, by_suit),
            r@.to_multiset() == s@.take(i as int).to_multiset(),
        decreases s@.len() - i,
    {
        let c = s[i];
        let key = if by_suit { value_card_by_suit(&c) } else { value_card_by_rank(&c) };
        let mut pos: usize = 0;
        while pos < r.len()
            invariant
                pos <= r@.len(),
                key == sort_key(c, by_suit),
                forall|a: int| 0 <= a < pos ==> sort_key(#[trigger] r@[a], by_suit) <= key,
            ensures
                pos <= r@.len(),
                forall|a: int| 0 <= a < pos ==> sort_key(#[trigger] r@[a], by_suit) <= key,
                pos < r@.len() ==> sort_key(r@[pos as int], by_suit) > key,
            decreases r@.len() - pos,
        {
            let k = if by_suit { value_card_by_suit(&r[pos]) } else { value_card_by_rank(&r[pos]) };
            if k > key {
                break;
            }
            pos += 1;
        }
        let ghost old_r = r@;
        r.insert(pos, c);
        proof {
            assert forall|a: int, b: int| 0 <= a < b < r@.len() implies sort_key(#[trigger] r@[a], by_suit)
                <= sort_key(#[trigger] r@[b], by_suit) by {
                if b < pos {
                } else if b == pos {
                } else if a < pos {
                    assert(r@[b] == old_r[b - 1]);
                } else if a == pos {
                    assert(r@[b] == old_r[b - 1]);
                    assert(sort_key(old_r[pos as int], by_suit) > key);
                    if b - 1 > pos {
                        assert(sort_key(old_r[pos as int], by_suit) <= sort_key(old_r[b - 1], by_suit));
                    }
                } else {
                    assert(r@[a] == old_r[a - 1]);
                    assert(r@[b] == old_r[b - 1]);
                }
            }
            assert(s@.take(i + 1) =~= s@.take(i as int).push(c));
        }
        i += 1;
    }
    proof {
        assert(s@.take(s@.len() as int) =~= s@);
    }
    r
}

impl Sequence {
    /// How many times `card` occurs in the sequence.
    fn count_cards(&self, card: &Card) -> (r: usize)
        ensures
            r == self@.to_multiset().count(*card),
    {
        let mut count: usize = 0;
        let mut i: usize = 0;
        while i < self.0.len()
            invariant
                i <= self@.len(),
                count <= i,
                count == self@.take(i as int).to_multiset().count(*card),
            decreases self@.len() - i,
        {
            proof {
                assert(self@.take(i + 1) =~= self@.take(i as int).push(self@[i as int]));
            }
            if self.0[i] == *card {
                count += 1;
            }
            i += 1;
        }
        proof {
            assert(self@.take(self@.len() as int) =~= self@);
        }
        count
    }

    /// Whether every card of `seq` occurs in this sequence at least as many times as in `seq`.
    pub fn contains(&self, seq: &Sequence) -> (r: bool)
        ensures
            r == includes(self@, seq@),
    {
        let mut i: usize = 0;
        while i < seq.0.len()
            invariant
                i <= seq@.len(),
                forall|j: int| 0 <= j < i ==> seq@.to_multiset().count(#[trigger] seq@[j]) <= self@.to_multiset().count(seq@[j]),
            decreases seq@.len() - i,
        {
            let card = seq.0[i];
            if seq.count_cards(&card) > self.count_cards(&card) {
                return false;
            }
            i += 1;
        }
        proof {
            assert forall|x: Card| seq@.to_multiset().count(x) <= self@.to_multiset().count(x) by {
                if seq@.to_multiset().count(x) > 0 {
                    assert(seq@.contains(x));
                    let j = choose|j: int| 0 <= j < seq@.len() && seq@[j] == x;
                    assert(seq@.to_multiset().count(seq@[j]) <= self@.to_multiset().count(seq@[j]));
                }
            }
        }
        true
    }

    /// Move all the cards of `seq` onto the tail of this sequence, drawing them from the tail of
    /// `seq`: `seq` is appended in reverse order.
    pub fn merge(&mut self, seq: Sequence)
        ensures
            final(self)@ == old(self)@ + reversed(seq@),
    {
        let ghost orig = seq@;
        let ghost start = self@;
        let mut seq = seq;
        while seq.0.len() > 0
            invariant
                seq@ == orig.take(seq@.len() as int),
                seq@.len() <= orig.len(),
                self@ == start + reversed(orig.subrange(seq@.len() as int, orig.len() as int)),
            decreases seq@.len(),
        {
            let card = seq.0.pop().unwrap();
            self.0.push(card);
            proof {
                assert(seq@ =~= orig.take(seq@.len() as int));
                assert(self@ =~= start + reversed(orig.subrange(seq@.len() as int, orig.len() as int)));
            }
        }
        proof {
            assert(orig.subrange(0, orig.len() as int) =~= orig);
        }
    }

    /// Sort the cards by suit, then by rank; jokers last.
    pub fn sort_by_suit(&mut self)
        ensures
            sorted_by(final(self)@, true),
            final(self)@.to_multiset() == old(self)@.to_multiset(),
    {
        self.0 = sorted_cards(&self.0, true);
    }

    /// Sort the cards by rank, then by suit; jokers last.
    pub fn sort_by_rank(&mut self)
        ensures
            sorted_by(final(self)@, false),
            final(self)@.to_multiset() == old(self)@.to_multiset(),
    {
        self.0 = sorted_cards(&self.0, false);
    }
}


/// The thread-local random number generator of rand.
#[verifier::external_type_specification]
#[verifier::external_body]
pub struct ExThreadRng(rand::rngs::ThreadRng);

/// Relies on rand's `SliceRandom::shuffle`, which permutes the slice in place by swaps:
/// the same cards remain, in an order drawn from `rng`.
#[verifier::external_body]
fn shuffle_cards(cards: &mut Vec<Card>, rng: &mut rand::rngs::ThreadRng)
    ensures
        final(cards)@.to_multiset() == old(cards)@.to_multiset(),
{
    cards.shuffle(rng);
}

/// Suit of the card at position `k` (0 to 3) within one rank of a fresh deck.
pub open spec fn suit_at(k: int) -> Suit {
    if k == 0 {
        Suit::Heart
    } else if k == 1 {
        Suit::Diamond
    } else if k == 2 {
        Suit::Club
    } else {
        Suit::Spade
    }
}

/// The 52 regular cards of a fresh deck: rank by rank, each rank in the four suits.
pub open spec fn regular_cards() -> Seq<Card> {
    Seq::new(52, |i: int| Card::RegularCard(suit_at(i % 4), (i / 4 + 1) as u8))
}

/// One fresh deck: the 52 regular cards, then `n_jokers` jokers.
pub open spec fn one_deck(n_jokers: nat) -> Seq<Card> {
    regular_cards() + Seq::new(n_jokers, |_i: int| Card::Joker)
}

/// `n_decks` fresh decks one after the other, before shuffling.
pub open spec fn ordered_decks(n_decks: nat, n_jokers: nat) -> Seq<Card>
    decreases n_decks,
{
    if n_decks == 0 {
        Seq::empty()
    } else {
        ordered_decks((n_decks - 1) as nat, n_jokers) + one_deck(n_jokers)
    }
}

pub proof fn lemma_ordered_decks_len(n_decks: nat, n_jokers: nat)
    ensures
        ordered_decks(n_decks, n_jokers).len() == n_decks * (52 + n_jokers),
    decreases n_decks,
{
    if n_decks == 0 {
        assert(n_decks * (52 + n_jokers) == 0) by (nonlinear_arith)
            requires
                n_decks == 0,
        ;
    } else {
        lemma_ordered_decks_len((n_decks - 1) as nat, n_jokers);
        assert(one_deck(n_jokers).len() == 52 + n_jokers);
        assert((n_decks - 1) * (52 + n_jokers) + 52 + n_jokers == n_decks * (52 + n_jokers))
            by (nonlinear_arith);
    }
}

impl Sequence {
    /// A shuffled deck of `n_decks` full decks of 52 cards, each with `n_jokers_per_deck` jokers.
    pub fn multi_deck(n_decks: u8, n_jokers_per_deck: u8, rng: &mut rand::rngs::ThreadRng) -> (r: Sequence)
        ensures
            r@.to_multiset() == ordered_decks(n_decks as nat, n_jokers_per_deck as nat).to_multiset(),
            r@.len() == n_decks * (52 + n_jokers_per_deck),
    {
        let mut deck: Vec<Card> = Vec::new();
        let mut d: u8 = 0;
        while d < n_decks
            invariant
                d <= n_decks,
                deck@ == ordered_decks(d as nat, n_jokers_per_deck as nat),
            decreases n_decks - d,
        {
            let ghost base = deck@;
            let mut val: u8 = 1;
            while val <= 13
                invariant
                    1 <= val <= 14,
                    deck@ == base + regular_cards().take(4 * (val - 1)),
                decreases 14 - val,
            {
                let mut k: usize = 0;
                while k < 4
                    invariant
                        1 <= val <= 13,
                        k <= 4,
                        deck@ == base + regular_cards().take(4 * (val - 1) + k),
                    decreases 4 - k,
                {
                    let suit = if k == 0 {
                        Suit::Heart
                    } else if k == 1 {
                        Suit::Diamond
                    } else if k == 2 {
                        Suit::Club
                    } else {
                        Suit::Spade
                    };
                    deck.push(Card::RegularCard(suit, val));
                    proof {
                        let p = 4 * (val - 1) + k;
                        assert(p / 4 == val - 1 && p % 4 == k);
                        assert(regular_cards()[p] == Card::RegularCard(suit, val));
                        assert(deck@ =~= base + regular_cards().take(p + 1));
                    }
                    k += 1;
                }
                val += 1;
            }
            let mut t: u8 = 0;
            while t < n_jokers_per_deck
                invariant
                    t <= n_jokers_per_deck,
                    deck@ == base + regular_cards() + Seq::new(t as nat, |_i: int| Card::Joker),
                decreases n_jokers_per_deck - t,
            {
                proof {
                    assert(regular_cards().take(52) =~= regular_cards());
                }
                deck.push(Card::Joker);
                t += 1;
                proof {
                    assert(deck@ =~= base + regular_cards() + Seq::new(t as nat, |_i: int| Card::Joker));
                }
            }
            proof {
                assert(regular_cards().take(52) =~= regular_cards());
                assert(deck@ =~= ordered_decks((d + 1) as nat, n_jokers_per_deck as nat));
            }
            d += 1;
        }
        proof {
            lemma_ordered_decks_len(n_decks as nat, n_jokers_per_deck as nat);
        }
        let ghost before = deck@;
        shuffle_cards(&mut deck, rng);
        proof {
            vstd::seq_lib::to_multiset_len(before);
            vstd::seq_lib::to_multiset_len(deck@);
        }
        Sequence(deck)
    }
}


/// Encoding of a list of cards: the two bytes of each card, in order, with no length.
pub open spec fn seq_bytes(s: Seq<Card>) -> Seq<u8>
    decreases s.len(),
{
    if s.len() == 0 {
        Seq::empty()
    } else {
        card_bytes(s[0]) + seq_bytes(s.drop_first())
    }
}

/// The cards that a byte string encodes, if it encodes a list of cards.
pub open spec fn cards_of_bytes(b: Seq<u8>) -> Option<Seq<Card>>
    decreases b.len(),
{
    if b.len() == 0 {
        Some(Seq::empty())
    } else if b.len() == 1 {
        None
    } else {
        match (card_of_bytes(b[0], b[1]), cards_of_bytes(b.subrange(2, b.len() as int))) {
            (Some(c), Some(rest)) => Some(seq![c] + rest),
            _ => None,
        }
    }
}

pub proof fn lemma_seq_bytes_len(s: Seq<Card>)
    ensures
        seq_bytes(s).len() == 2 * s.len(),
    decreases s.len(),
{
    if s.len() > 0 {
        lemma_seq_bytes_len(s.drop_first());
    }
}

/// Decoding the encoding of a list of cards gives back that list.
pub proof fn lemma_seq_bytes_round_trip(s: Seq<Card>)
    ensures
        cards_of_bytes(seq_bytes(s)) == Some(s),
    decreases s.len(),
{
    if s.len() > 0 {
        let b = seq_bytes(s);
        lemma_seq_bytes_round_trip(s.drop_first());
        assert(b.subrange(2, b.len() as int) =~= seq_bytes(s.drop_first()));
        assert(seq![s[0]] + s.drop_first() =~= s);
    }
}

impl Sequence {
    /// Encode the cards, two bytes each, in order.
    pub fn to_bytes(&self) -> (r: Vec<u8>)
        ensures
            r@ == seq_bytes(self@),
    {
        let mut r: Vec<u8> = Vec::new();
        let mut i: usize = 0;
        proof {
            assert(self@.subrange(0, self@.len() as int) =~= self@);
            assert(r@ + seq_bytes(self@) =~= seq_bytes(self@));
        }
        while i < self.0.len()
            invariant
                i <= self@.len(),
                seq_bytes(self@) == r@ + seq_bytes(self@.subrange(i as int, self@.len() as int)),
            decreases self@.len() - i,
        {
            let b = self.0[i].to_bytes();
            proof {
                let rest = self@.subrange(i as int, self@.len() as int);
                assert(rest.drop_first() =~= self@.subrange(i + 1, self@.len() as int));
            }
            r.push(b[0]);
            r.push(b[1]);
            i += 1;
            proof {
                assert(r@ + seq_bytes(self@.subrange(i as int, self@.len() as int)) =~= seq_bytes(self@));
            }
        }
        proof {
            assert(r@ + seq_bytes(self@.subrange(i as int, self@.len() as int)) =~= r@);
        }
        r
    }

    /// Decode a sequence from the encoding of its cards; `None` when the length is odd or a
    /// suit byte is not 0 to 4.
    pub fn from_bytes(bytes: &[u8]) -> (r: Option<Sequence>)
        ensures
            r matches Some(s) ==> cards_of_bytes(bytes@) == Some(s@),
            r is None ==> cards_of_bytes(bytes@) is None,
    {
        let b = Ghost(bytes@);
        let n = bytes.len();
        let mut v: Vec<Card> = Vec::new();
        let mut i: usize = 0;
        proof {
            assert(b@.subrange(0, n as int) =~= b@);
            match cards_of_bytes(b@) {
                Some(rest) => {
                    assert(v@ + rest =~= rest);
                },
                None => {},
            }
        }
        while i + 1 < n
            invariant
                n == b@.len(),
                i <= n,
                i % 2 == 0,
                b@ == bytes@,
                cards_of_bytes(b@) == match cards_of_bytes(b@.subrange(i as int, n as int)) {
                    Some(rest) => Some(v@ + rest),
                    None => None::<Seq<Card>>,
                },
            decreases n - i,
        {
            let ghost tail = b@.subrange(i as int, n as int);
            proof {
                assert(tail.subrange(2, tail.len() as int) =~= b@.subrange(i + 2, n as int));
            }
            match Card::from_bytes(bytes[i], bytes[i + 1]) {
                Some(c) => {
                    proof {
                        match cards_of_bytes(b@.subrange(i + 2, n as int)) {
                            Some(rest) => {
                                assert(v@ + (seq![c] + rest) =~= v@.push(c) + rest);
                            },
                            None => {},
                        }
                    }
                    v.push(c);
                },
                None => {
                    return None;
                },
            }
            i += 2;
        }
        if i < n {
            return None;
        }
        proof {
            assert(b@.subrange(i as int, n as int) =~= Seq::<u8>::empty());
            assert(v@ + Seq::<Card>::empty() =~= v@);
        }
        Some(Sequence(v))
    }
}


/// No sequence of fewer than three cards is a valid meld.
pub proof fn lemma_short_sequences_invalid(s: Seq<Card>)
    requires
        s.len() < 3,
    ensures
        !is_valid_meld(s),
{
}

} // verus!
