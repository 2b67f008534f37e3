//! The plain text shown to players: cards, sequences, the table, the situation of a turn, the
//! list of actions and the replies to them. No styling is added here but by
//! `reset_style_string`, which the caller writes where it chooses.

use vstd::prelude::*;
use vstd::string::*;
use crate::card::{Card, card_text, decimal, push_decimal};
use crate::sequence::Sequence;
use crate::table::Table;
use crate::turn::Reply;

verus! {

/// How a list of cards is shown: each card followed by a space.
pub open spec fn seq_text(s: Seq<Card>) -> Seq<char>
    decreases s.len(),
{
    if s.len() == 0 {
        Seq::empty()
    } else {
        card_text(s[0]) + seq![' '] + seq_text(s.drop_first())
    }
}

/// How the melds from the `i`-th (counted from 1) on are shown: one line each, its position,
/// a colon and a space, then its cards.
pub open spec fn melds_text(melds: Seq<Seq<Card>>, i: nat) -> Seq<char>
    decreases melds.len(),
{
    if melds.len() == 0 {
        Seq::empty()
    } else {
        decimal(i) + seq![':', ' '] + seq_text(melds[0]) + seq!['\n'] + melds_text(melds.drop_first(), i + 1)
    }
}

/// The terminal codes that reset the style: attributes off, black on white, cursor hidden.
pub fn reset_style_string() -> (r: String)
    ensures
        r@ == "\x1b[0m\x1b[30;47m\x1b[?25l"@,
{
    "\x1b[0m\x1b[30;47m\x1b[?25l".to_owned()
}

/// The actions of a local turn, one per line, with the keys that choose them.
pub fn instructions() -> (r: String)
    ensures
        r@ == "0: Save and quit\n1: Pick a card\n2: Play a sequence\n3: Take from the table\n4: Pass\n5, 6: Sort cards by rank or suit\n"@,
{
    "0: Save and quit\n1: Pick a card\n2: Play a sequence\n3: Take from the table\n4: Pass\n5, 6: Sort cards by rank or suit\n".to_owned()
}

/// The actions of a turn played over the network, where saving is not offered.
pub fn instructions_no_save() -> (r: String)
    ensures
        r@ == "e: End your turn\np: Play a sequence\nt: Take from the table\nr, s: Sort cards by rank or suit\n"@,
{
    "e: End your turn\np: Play a sequence\nt: Take from the table\nr, s: Sort cards by rank or suit\n".to_owned()
}

impl Sequence {
    /// How the sequence is shown: each card followed by a space.
    pub fn to_string(&self) -> (r: String)
        ensures
            r@ == seq_text(self@),
    {
        let cards = self.to_vec();
        let mut out = String::new();
        let mut i: usize = 0;
        proof {
            assert(cards@.subrange(0, cards@.len() as int) =~= cards@);
            assert(out@ + seq_text(cards@) =~= seq_text(cards@));
        }
        while i < cards.len()
            invariant
                i <= cards@.len(),
                seq_text(cards@) == out@ + seq_text(cards@.subrange(i as int, cards@.len() as int)),
            decreases cards@.len() - i,
        {
            let t = cards[i].to_string();
            proof {
                let rest = cards@.subrange(i as int, cards@.len() as int);
                assert(rest.drop_first() =~= cards@.subrange(i + 1, cards@.len() as int));
                reveal_strlit(" ");
            }
            out.append(t.as_str());
            out.append(" ");
            i += 1;
            proof {
                assert(out@ + seq_text(cards@.subrange(i as int, cards@.len() as int)) =~= seq_text(cards@));
            }
        }
        proof {
            assert(out@ + seq_text(cards@.subrange(i as int, cards@.len() as int)) =~= out@);
        }
        out
    }
}

impl Table {
    /// How the table is shown: one meld per line, numbered from 1.
    pub fn to_string(&self) -> (r: String)
        ensures
            r@ == melds_text(self@, 1),
    {
        let ghost m = self@;
        let mut t = self.clone_melds();
        let mut out = String::new();
        let mut i: usize = 0;
        proof {
            assert(m.subrange(0, m.len() as int) =~= m);
            assert(out@ + melds_text(m, 1) =~= melds_text(m, 1));
        }
        while i < t.len()
            invariant
                t@.len() == m.len(),
                forall|j: int| 0 <= j < m.len() ==> (#[trigger] t@[j])@ == m[j],
                i <= m.len(),
                melds_text(m, 1) == out@ + melds_text(m.subrange(i as int, m.len() as int), (i + 1) as nat),
            decreases m.len() - i,
        {
            let line = t[i].to_string();
            proof {
                let rest = m.subrange(i as int, m.len() as int);
                assert(rest.drop_first() =~= m.subrange(i + 1, m.len() as int));
                reveal_strlit(": ");
                reveal_strlit("\n");
            }
            push_decimal(&mut out, i + 1);
            out.append(": ");
            out.append(line.as_str());
            out.append("\n");
            i += 1;
            proof {
                assert(out@ + melds_text(m.subrange(i as int, m.len() as int), (i + 1) as nat) =~= melds_text(m, 1));
            }
        }
        proof {
            assert(out@ + melds_text(m.subrange(i as int, m.len() as int), (i + 1) as nat) =~= out@);
        }
        out
    }
}

/// What a player sees of the game at the start of each action: the table, the hand, and how
/// many cards are left in the deck.
pub fn situation_to_string(table: &Table, hand: &Sequence, deck: &Sequence) -> (r: String)
    ensures
        r@ == "\nTable:\n"@ + melds_text(table@, 1) + "\nYour hand:\n"@ + seq_text(hand@)
            + "\n\nRemaining cards in the deck: "@ + decimal(deck@.len()) + "\n"@,
{
    let mut out = "\nTable:\n".to_owned();
    let t = table.to_string();
    out.append(t.as_str());
    out.append("\nYour hand:\n");
    let h = hand.to_string();
    out.append(h.as_str());
    out.append("\n\nRemaining cards in the deck: ");
    push_decimal(&mut out, deck.number_cards());
    out.append("\n");
    out
}

impl Reply {
    /// The message shown for a reply; empty where the new situation speaks for itself.
    pub fn text(&self) -> (r: String)
        ensures
            self matches Reply::Picked(c) ==> r@ == "You have picked a "@ + card_text(*c),
            self matches Reply::InvalidSequence(s) ==> r@ == seq_text(s@) + " is not a valid sequence!"@,
            self is NoMoreCards ==> r@ == "No more card to draw!"@,
            self is NotOnTable ==> r@ == "This sequence is not on the table"@,
            self is JokersMustBePlayed ==> r@ == "Jokers need to be played!"@,
            self is SaveBeforePlayingTaken ==> r@
                == "You can't save until you've played all the cards you've taken from the table!"@,
            self is SaveNeedsPass ==> r@ == "You need to pass before saving"@,
            self is PickBeforePlayingTaken ==> r@
                == "You can't pick a card until you've played all the cards you've taken from the table!"@,
            self is PickAfterPlaying ==> r@ == "You can't pick a card after having played something"@,
            self is PassBeforePlayingTaken ==> r@
                == "You can't pass until you've played all the cards you've taken from the table!"@,
            self is PassNeedsPlay ==> r@ == "You need to play something to pass"@,
            self is TurnOver ==> r@ == "Your turn is over"@,
            self is Played || self is TakenFromTable || self is Sorted || self is TurnEnded
                || self is SaveAndQuit ==> r@.len() == 0,
    {
        match self {
            Reply::Picked(card) => {
                let mut s = "You have picked a ".to_owned();
                let c = card.to_string();
                s.append(c.as_str());
                s
            },
            Reply::InvalidSequence(seq) => {
                let mut s = seq.to_string();
                s.append(" is not a valid sequence!");
                s
            },
            Reply::NoMoreCards => "No more card to draw!".to_owned(),
            Reply::NotOnTable => "This sequence is not on the table".to_owned(),
            Reply::SaveBeforePlayingTaken => "You can't save until you've played all the cards you've taken from the table!".to_owned(),
            Reply::SaveNeedsPass => "You need to pass before saving".to_owned(),
            Reply::PickBeforePlayingTaken => "You can't pick a card until you've played all the cards you've taken from the table!".to_owned(),
            Reply::PickAfterPlaying => "You can't pick a card after having played something".to_owned(),
            Reply::JokersMustBePlayed => "Jokers need to be played!".to_owned(),
            Reply::PassBeforePlayingTaken => "You can't pass until you've played all the cards you've taken from the table!".to_owned(),
            Reply::PassNeedsPlay => "You need to play something to pass".to_owned(),
            Reply::TurnOver => "Your turn is over".to_owned(),
            _ => String::new(),
        }
    }
}

} // verus!
