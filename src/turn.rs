//! One player's turn: which actions are legal, and what each does to the hand, the table and
//! the deck. The caller reads the player's choices and shows the replies.

use vstd::prelude::*;
use crate::card::Card;
use crate::sequence::{Sequence, includes, is_valid_meld, reversed, sorted_by};
use crate::table::Table;

verus! {

broadcast use vstd::seq_lib::group_to_multiset_ensures;

/// The deck was empty.
#[derive(Debug)]
pub struct NoMoreCards {}

/// What a player may ask for during a turn.
#[derive(Debug)]
pub enum Action {
    SaveAndQuit,
    PickCard,
    /// 1-based positions in the hand as displayed, in the order of the meld.
    PlaySequence(Vec<usize>),
    /// 1-based position of a meld on the table.
    TakeFromTable(usize),
    EndTurn,
    SortByRank,
    SortBySuit,
}

/// Where a turn stands.
#[derive(Clone, Copy, Debug, PartialEq, Eq, Structural)]
pub enum TurnStatus {
    /// The player may still act.
    Acting,
    /// The turn is over; the game goes on.
    Ended,
    /// The turn is over and the game is to be saved and left.
    SaveRequested,
}

/// The answer to an action.
#[derive(Debug)]
pub enum Reply {
    Picked(Card),
    NoMoreCards,
    Played,
    InvalidSequence(Sequence),
    TakenFromTable,
    NotOnTable,
    Sorted,
    TurnEnded,
    SaveAndQuit,
    SaveBeforePlayingTaken,
    SaveNeedsPass,
    PickBeforePlayingTaken,
    PickAfterPlaying,
    JokersMustBePlayed,
    PassBeforePlayingTaken,
    PassNeedsPlay,
    TurnOver,
}

/// The hand holds no card taken from the table that was not played again: it is within the
/// hand the turn started with.
pub open spec fn nothing_uncommitted(start: Seq<Card>, hand: Seq<Card>) -> bool {
    includes(start, hand)
}

/// The hand still holds every card it started the turn with.
pub open spec fn nothing_removed(start: Seq<Card>, hand: Seq<Card>) -> bool {
    includes(hand, start)
}

/// The joker rule forbids ending the turn with a joker in hand.
pub open spec fn joker_blocks(custom_rule_jokers: bool, hand: Seq<Card>) -> bool {
    custom_rule_jokers && hand.contains(Card::Joker)
}

pub open spec fn may_save(start: Seq<Card>, hand: Seq<Card>) -> bool {
    nothing_uncommitted(start, hand) && nothing_removed(start, hand)
}

pub open spec fn may_pick(start: Seq<Card>, hand: Seq<Card>, custom_rule_jokers: bool) -> bool {
    nothing_uncommitted(start, hand) && nothing_removed(start, hand) && !joker_blocks(custom_rule_jokers, hand)
}

pub open spec fn may_pass(start: Seq<Card>, hand: Seq<Card>, custom_rule_jokers: bool) -> bool {
    nothing_uncommitted(start, hand) && !nothing_removed(start, hand) && !joker_blocks(custom_rule_jokers, hand)
}

/// The status after an action taken in status `status` with the hand `hand`.
pub open spec fn next_status(
    status: TurnStatus,
    start: Seq<Card>,
    custom_rule_jokers: bool,
    action: Action,
    hand: Seq<Card>,
) -> TurnStatus {
    if status != TurnStatus::Acting {
        status
    } else {
        match action {
            Action::SaveAndQuit => if may_save(start, hand) {
                TurnStatus::SaveRequested
            } else {
                TurnStatus::Acting
            },
            Action::PickCard => if may_pick(start, hand, custom_rule_jokers) {
                TurnStatus::Ended
            } else {
                TurnStatus::Acting
            },
            Action::EndTurn => if may_pass(start, hand, custom_rule_jokers) {
                TurnStatus::Ended
            } else {
                TurnStatus::Acting
            },
            _ => TurnStatus::Acting,
        }
    }
}

/// Number of the positions in `used` below `n`.
pub open spec fn count_below(used: Seq<usize>, n: usize) -> nat
    decreases used.len(),
{
    if used.len() == 0 {
        0
    } else {
        count_below(used.drop_last(), n) + if used.last() < n { 1nat } else { 0nat }
    }
}

/// Take the cards at the positions `ps` from `hand`, positions that refer to the hand as it was
/// displayed before any of them was taken (`used` were already taken): each position is shifted
/// down by the number of taken positions below it; a position already taken, or out of range,
/// is skipped. The result is the hand left and the cards taken, in order.
pub open spec fn pick_positions(hand: Seq<Card>, used: Seq<usize>, ps: Seq<usize>) -> (Seq<Card>, Seq<Card>)
    decreases ps.len(),
{
    if ps.len() == 0 {
        (hand, Seq::empty())
    } else {
        let n = ps[0];
        let i = n - count_below(used, n);
        if used.contains(n) || !(1 <= i <= hand.len()) {
            pick_positions(hand, used, ps.drop_first())
        } else {
            let (h, c) = pick_positions(hand.remove(i - 1), used.push(n), ps.drop_first());
            (h, seq![hand[i - 1]] + c)
        }
    }
}

/// Draw the top card of the deck into the hand.
pub fn pick_a_card(hand: &mut Sequence, deck: &mut Sequence) -> (r: Result<Card, NoMoreCards>)
    ensures
        old(deck)@.len() == 0 ==> r is Err && final(deck)@ == old(deck)@ && final(hand)@ == old(hand)@,
        old(deck)@.len() > 0 ==> r == Ok::<Card, NoMoreCards>(old(deck)@.last()) && final(deck)@
            == old(deck)@.drop_last() && final(hand)@ == old(hand)@.push(old(deck)@.last()),
{
    let card = match deck.draw_card() {
        Some(c) => c,
        None => {
            return Err(NoMoreCards {});
        },
    };
    hand.add_card(card);
    Ok(card)
}

/// Lay the cards at `positions` (see `pick_positions`) on the table if they form a valid meld;
/// otherwise put them back at the end of the hand, in reverse order.
pub fn play_sequence(hand: &mut Sequence, table: &mut Table, positions: &Vec<usize>) -> (r: Reply)
    ensures
        ({
            let (rest, cand) = pick_positions(old(hand)@, Seq::empty(), positions@);
            &&& is_valid_meld(cand) ==> r is Played && final(table)@ == old(table)@.push(cand)
                && final(hand)@ == rest
            &&& !is_valid_meld(cand) ==> (r matches Reply::InvalidSequence(s) && s@ == cand)
                && final(table)@ == old(table)@ && final(hand)@ == rest + reversed(cand)
        }),
{
    let ghost ps = positions@;
    let ghost h0 = hand@;
    let mut seq = Sequence::new();
    let mut used: Vec<usize> = Vec::new();
    let mut k: usize = 0;
    proof {
        assert(ps.subrange(0, ps.len() as int) =~= ps);
        let (h, c) = pick_positions(hand@, used@, ps);
        assert(seq@ + c =~= c);
    }
    while k < positions.len()
        invariant
            ps == positions@,
            k <= ps.len(),
            used@.len() <= k,
            ({
                let (h, c) = pick_positions(hand@, used@, ps.subrange(k as int, ps.len() as int));
                pick_positions(h0, Seq::empty(), ps) == (h, seq@ + c)
            }),
        decreases ps.len() - k,
    {
        let n = positions[k];
        let ghost tail = ps.subrange(k as int, ps.len() as int);
        proof {
            assert(tail.drop_first() =~= ps.subrange(k + 1, ps.len() as int));
        }
        let mut below: usize = 0;
        let mut seen = false;
        let mut j: usize = 0;
        while j < used.len()
            invariant
                j <= used@.len(),
                below <= j,
                below == count_below(used@.take(j as int), n),
                seen == used@.take(j as int).contains(n),
            decreases used@.len() - j,
        {
            proof {
                assert(used@.take(j + 1).drop_last() =~= used@.take(j as int));
                assert(used@.take(j + 1).last() == used@[j as int]);
                if used@.take(j + 1).contains(n) && !used@.take(j as int).contains(n) {
                    let w = choose|w: int| 0 <= w < j + 1 && #[trigger] used@.take(j + 1)[w] == n;
                    assert(w == j);
                }
                if used@.take(j as int).contains(n) {
                    let w = choose|w: int| 0 <= w < j && #[trigger] used@.take(j as int)[w] == n;
                    assert(used@.take(j + 1)[w] == n);
                }
            }
            if used[j] < n {
                below += 1;
            }
            if used[j] == n {
                seen = true;
            }
            j += 1;
        }
        proof {
            assert(used@.take(used@.len() as int) =~= used@);
        }
        if !seen && n > below {
            let i = n - below;
            let ghost before = hand@;
            match hand.take_card(i) {
                Some(card) => {
                    proof {
                        let (h, c) = pick_positions(hand@, used@.push(n), tail.drop_first());
                        assert(seq@.push(card) + c =~= seq@ + (seq![card] + c));
                    }
                    seq.add_card(card);
                    used.push(n);
                },
                None => {},
            }
        }
        k += 1;
    }
    proof {
        assert(ps.subrange(k as int, ps.len() as int) =~= Seq::<usize>::empty());
        assert(seq@ + Seq::<Card>::empty() =~= seq@);
    }
    if seq.is_valid() {
        table.add(seq);
        Reply::Played
    } else {
        let shown = Sequence::from_cards(seq.to_vec().as_slice());
        hand.merge(seq);
        Reply::InvalidSequence(shown)
    }
}

/// Take the meld at the 1-based position `n` from the table into the hand (in reverse order).
pub fn take_sequence(table: &mut Table, hand: &mut Sequence, n: usize) -> (r: Reply)
    ensures
        1 <= n <= old(table)@.len() ==> r is TakenFromTable && final(table)@ == old(table)@.remove(n - 1)
            && final(hand)@ == old(hand)@ + reversed(old(table)@[n - 1]),
        !(1 <= n <= old(table)@.len()) ==> r is NotOnTable && final(table)@ == old(table)@
            && final(hand)@ == old(hand)@,
{
    match table.take(n) {
        Some(seq) => {
            hand.merge(seq);
            Reply::TakenFromTable
        },
        None => Reply::NotOnTable,
    }
}


/// The state of a turn: the hand it started with, the joker rule, and where it stands.
#[derive(Debug)]
pub struct TurnEngine {
    hand_start_round: Sequence,
    custom_rule_jokers: bool,
    status: TurnStatus,
}

impl View for TurnEngine {
    type V = (Seq<Card>, bool, TurnStatus);

    closed spec fn view(&self) -> (Seq<Card>, bool, TurnStatus) {
        (self.hand_start_round@, self.custom_rule_jokers, self.status)
    }
}

/// Within one turn, a draw from the hand the turn started with is accepted and ends the
/// acting, and a second draw is then refused, whatever the hand has become.
pub proof fn lemma_single_pick(start: Seq<Card>, custom_rule_jokers: bool, later_hand: Seq<Card>)
    requires
        !joker_blocks(custom_rule_jokers, start),
    ensures
        next_status(TurnStatus::Acting, start, custom_rule_jokers, Action::PickCard, start) == TurnStatus::Ended,
        next_status(TurnStatus::Ended, start, custom_rule_jokers, Action::PickCard, later_hand) == TurnStatus::Ended,
{
    assert(start.to_multiset().subset_of(start.to_multiset()));
}

impl TurnEngine {
    /// Start a turn with the player's current hand.
    pub fn start(hand: &Sequence, custom_rule_jokers: bool) -> (r: TurnEngine)
        ensures
            r@ == (hand@, custom_rule_jokers, TurnStatus::Acting),
    {
        TurnEngine {
            hand_start_round: Sequence::from_cards(hand.to_vec().as_slice()),
            custom_rule_jokers,
            status: TurnStatus::Acting,
        }
    }

    /// Where the turn stands.
    pub fn status(&self) -> (r: TurnStatus)
        ensures
            r == self@.2,
    {
        self.status
    }

    /// Carry out one action of the player.
    pub fn step(&mut self, action: Action, table: &mut Table, hand: &mut Sequence, deck: &mut Sequence) -> (r: Reply)
        ensures
            ({
                let (start, custom, status) = old(self)@;
                let h = old(hand)@;
                &&& final(self)@ == (start, custom, next_status(status, start, custom, action, h))
                &&& status != TurnStatus::Acting ==> r is TurnOver && final(hand)@ == h
                    && final(table)@ == old(table)@ && final(deck)@ == old(deck)@
                &&& status == TurnStatus::Acting ==> match action {
                    Action::SaveAndQuit => {
                        &&& final(hand)@ == h && final(table)@ == old(table)@ && final(deck)@ == old(deck)@
                        &&& !nothing_uncommitted(start, h) ==> r is SaveBeforePlayingTaken
                        &&& nothing_uncommitted(start, h) && !nothing_removed(start, h) ==> r is SaveNeedsPass
                        &&& may_save(start, h) ==> r is SaveAndQuit
                    },
                    Action::PickCard => {
                        &&& final(table)@ == old(table)@
                        &&& !nothing_uncommitted(start, h) ==> r is PickBeforePlayingTaken
                        &&& nothing_uncommitted(start, h) && !nothing_removed(start, h) ==> r is PickAfterPlaying
                        &&& nothing_uncommitted(start, h) && nothing_removed(start, h) && joker_blocks(custom, h)
                            ==> r is JokersMustBePlayed
                        &&& !may_pick(start, h, custom) ==> final(hand)@ == h && final(deck)@ == old(deck)@
                        &&& may_pick(start, h, custom) && old(deck)@.len() == 0 ==> r is NoMoreCards
                            && final(hand)@ == h && final(deck)@ == old(deck)@
                        &&& may_pick(start, h, custom) && old(deck)@.len() > 0 ==> r == Reply::Picked(old(deck)@.last())
                            && final(hand)@ == h.push(old(deck)@.last()) && final(deck)@ == old(deck)@.drop_last()
                    },
                    Action::PlaySequence(ps) => {
                        let (rest, cand) = pick_positions(h, Seq::empty(), ps@);
                        &&& final(deck)@ == old(deck)@
                        &&& is_valid_meld(cand) ==> r is Played && final(table)@ == old(table)@.push(cand)
                            && final(hand)@ == rest
                        &&& !is_valid_meld(cand) ==> (r matches Reply::InvalidSequence(s) && s@ == cand)
                            && final(table)@ == old(table)@ && final(hand)@ == rest + reversed(cand)
                    },
                    Action::TakeFromTable(n) => {
                        &&& final(deck)@ == old(deck)@
                        &&& 1 <= n <= old(table)@.len() ==> r is TakenFromTable && final(table)@
                            == old(table)@.remove(n - 1) && final(hand)@ == h + reversed(old(table)@[n - 1])
                        &&& !(1 <= n <= old(table)@.len()) ==> r is NotOnTable && final(table)@ == old(table)@
                            && final(hand)@ == h
                    },
                    Action::EndTurn => {
                        &&& final(hand)@ == h && final(table)@ == old(table)@ && final(deck)@ == old(deck)@
                        &&& !nothing_uncommitted(start, h) ==> r is PassBeforePlayingTaken
                        &&& nothing_uncommitted(start, h) && nothing_removed(start, h) ==> r is PassNeedsPlay
                        &&& nothing_uncommitted(start, h) && !nothing_removed(start, h) && joker_blocks(custom, h)
                            ==> r is JokersMustBePlayed
                        &&& may_pass(start, h, custom) ==> r is TurnEnded
                    },
                    Action::SortByRank => {
                        &&& r is Sorted && final(table)@ == old(table)@ && final(deck)@ == old(deck)@
                        &&& sorted_by(final(hand)@, false) && final(hand)@.to_multiset() == h.to_multiset()
                    },
                    Action::SortBySuit => {
                        &&& r is Sorted && final(table)@ == old(table)@ && final(deck)@ == old(deck)@
                        &&& sorted_by(final(hand)@, true) && final(hand)@.to_multiset() == h.to_multiset()
                    },
                }
            }),
    {
        if self.status != TurnStatus::Acting {
            return Reply::TurnOver;
        }
        let uncommitted_free = self.hand_start_round.contains(hand);
        let unchanged = hand.contains(&self.hand_start_round);
        match action {
            Action::SaveAndQuit => {
                if !uncommitted_free {
                    Reply::SaveBeforePlayingTaken
                } else if !unchanged {
                    Reply::SaveNeedsPass
                } else {
                    self.status = TurnStatus::SaveRequested;
                    Reply::SaveAndQuit
                }
            },
            Action::PickCard => {
                if !uncommitted_free {
                    Reply::PickBeforePlayingTaken
                } else if !unchanged {
                    Reply::PickAfterPlaying
                } else if self.custom_rule_jokers && hand.contains_joker() {
                    Reply::JokersMustBePlayed
                } else {
                    self.status = TurnStatus::Ended;
                    match pick_a_card(hand, deck) {
                        Ok(card) => Reply::Picked(card),
                        Err(_) => Reply::NoMoreCards,
                    }
                }
            },
            Action::PlaySequence(ps) => play_sequence(hand, table, &ps),
            Action::TakeFromTable(n) => take_sequence(table, hand, n),
            Action::EndTurn => {
                if !uncommitted_free {
                    Reply::PassBeforePlayingTaken
                } else if unchanged {
                    Reply::PassNeedsPlay
                } else if self.custom_rule_jokers && hand.contains_joker() {
                    Reply::JokersMustBePlayed
                } else {
                    self.status = TurnStatus::Ended;
                    Reply::TurnEnded
                }
            },
            Action::SortByRank => {
                hand.sort_by_rank();
                Reply::Sorted
            },
            Action::SortBySuit => {
                hand.sort_by_suit();
                Reply::Sorted
            },
        }
    }
}

} // verus!
