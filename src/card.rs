//! Cards: suits, ranks, jokers, their byte encoding and their display.

use vstd::prelude::*;
use vstd::string::*;

verus! {

/// Highest rank of a card (the king).
pub const MAX_VAL: u8 = 13;

/// Key given to a joker by both sort orders, above every regular card.
pub const JOKER_KEY: u16 = 65535;

/// One of the four suits.
#[derive(Clone, Copy, PartialEq, Eq, Hash, Debug, Structural)]
pub enum Suit {
    Heart,
    Diamond,
    Club,
    Spade,
}

/// A regular card, with its suit and its rank (ace = 1, king = 13), or a joker.
#[derive(Clone, Copy, PartialEq, Eq, Hash, Debug, Structural)]
pub enum Card {
    RegularCard(Suit, u8),
    Joker,
}

/// Identifier of a suit on the wire: 1 to 4.
pub open spec fn suit_id(s: Suit) -> u8 {
    match s {
        Suit::Heart => 1,
        Suit::Diamond => 2,
        Suit::Club => 3,
        Suit::Spade => 4,
    }
}

/// The suit with a given identifier, if any.
pub open spec fn suit_with_id(b: u8) -> Option<Suit> {
    if b == 1 {
        Some(Suit::Heart)
    } else if b == 2 {
        Some(Suit::Diamond)
    } else if b == 3 {
        Some(Suit::Club)
    } else if b == 4 {
        Some(Suit::Spade)
    } else {
        None
    }
}

/// The two bytes that encode a card: the suit identifier (0 for a joker), then the rank.
pub open spec fn card_bytes(c: Card) -> Seq<u8> {
    match c {
        Card::RegularCard(s, v) => seq![suit_id(s), v],
        Card::Joker => seq![0u8, 0u8],
    }
}

/// The card that two bytes encode, if they encode one (the rank byte of a joker is ignored).
pub open spec fn card_of_bytes(b0: u8, b1: u8) -> Option<Card> {
    if b0 == 0 {
        Some(Card::Joker)
    } else {
        match suit_with_id(b0) {
            Some(s) => Some(Card::RegularCard(s, b1)),
            None => None,
        }
    }
}

/// Sort key of a card by suit, then by rank; jokers last.
pub open spec fn suit_key(c: Card) -> int {
    match c {
        Card::RegularCard(s, v) => 256 * suit_id(s) + v,
        Card::Joker => JOKER_KEY as int,
    }
}

/// Sort key of a card by rank, then by suit; jokers last.
pub open spec fn rank_key(c: Card) -> int {
    match c {
        Card::RegularCard(s, v) => 8 * v + suit_id(s),
        Card::Joker => JOKER_KEY as int,
    }
}

/// The wire identifier of a suit.
pub fn suit_to_int(suit: Suit) -> (r: u8)
    ensures
        r == suit_id(suit),
        1 <= r <= 4,
{
    match suit {
        Suit::Heart => 1,
        Suit::Diamond => 2,
        Suit::Club => 3,
        Suit::Spade => 4,
    }
}

/// Sort key of a card for sorting by suit.
pub fn value_card_by_suit(card: &Card) -> (r: u16)
    ensures
        r == suit_key(*card),
{
    match *card {
        Card::Joker => JOKER_KEY,
        Card::RegularCard(suit, val) => 256 * (suit_to_int(suit) as u16) + val as u16,
    }
}

/// Sort key of a card for sorting by rank.
pub fn value_card_by_rank(card: &Card) -> (r: u16)
    ensures
        r == rank_key(*card),
{
    match *card {
        Card::Joker => JOKER_KEY,
        Card::RegularCard(suit, val) => 8 * (val as u16) + suit_to_int(suit) as u16,
    }
}

impl Card {
    /// Encode the card on two bytes.
    pub fn to_bytes(&self) -> (r: [u8; 2])
        ensures
            r@ == card_bytes(*self),
    {
        match *self {
            Card::RegularCard(suit, val) => [suit_to_int(suit), val],
            Card::Joker => [0u8, 0u8],
        }
    }

    /// Decode a card from its two bytes; `None` when the first byte is no suit identifier.
    pub fn from_bytes(b0: u8, b1: u8) -> (r: Option<Card>)
        ensures
            r == card_of_bytes(b0, b1),
    {
        if b0 == 0 {
            Some(Card::Joker)
        } else if b0 == 1 {
            Some(Card::RegularCard(Suit::Heart, b1))
        } else if b0 == 2 {
            Some(Card::RegularCard(Suit::Diamond, b1))
        } else if b0 == 3 {
            Some(Card::RegularCard(Suit::Club, b1))
        } else if b0 == 4 {
            Some(Card::RegularCard(Suit::Spade, b1))
        } else {
            None
        }
    }
}


/// The character of a decimal digit.
pub open spec fn digit_char(d: int) -> char {
    if d == 0 {
        '0'
    } else if d == 1 {
        '1'
    } else if d == 2 {
        '2'
    } else if d == 3 {
        '3'
    } else if d == 4 {
        '4'
    } else if d == 5 {
        '5'
    } else if d == 6 {
        '6'
    } else if d == 7 {
        '7'
    } else if d == 8 {
        '8'
    } else {
        '9'
    }
}

/// The decimal writing of a number.
pub open spec fn decimal(v: nat) -> Seq<char>
    decreases v,
{
    if v < 10 {
        seq![digit_char(v as int)]
    } else {
        decimal(v / 10) + seq![digit_char((v % 10) as int)]
    }
}

/// How a rank is shown: A, J, Q, K, or its number.
pub open spec fn rank_text(v: u8) -> Seq<char> {
    if v == 1 {
        seq!['A']
    } else if v == 11 {
        seq!['J']
    } else if v == 12 {
        seq!['Q']
    } else if v == 13 {
        seq!['K']
    } else {
        decimal(v as nat)
    }
}

/// The symbol of a suit.
pub open spec fn suit_char(s: Suit) -> char {
    match s {
        Suit::Heart => '♥',
        Suit::Diamond => '♦',
        Suit::Club => '♣',
        Suit::Spade => '♠',
    }
}

/// How a card is shown: its rank then its suit symbol, or a star for a joker.
pub open spec fn card_text(c: Card) -> Seq<char> {
    match c {
        Card::RegularCard(s, v) => rank_text(v).push(suit_char(s)),
        Card::Joker => seq!['★'],
    }
}

/// The one-character string of a decimal digit.
fn digit_str(d: u8) -> (r: &'static str)
    requires
        d < 10,
    ensures
        r@ == seq![digit_char(d as int)],
{
    proof {
        reveal_strlit("0");
        reveal_strlit("1");
        reveal_strlit("2");
        reveal_strlit("3");
        reveal_strlit("4");
        reveal_strlit("5");
        reveal_strlit("6");
        reveal_strlit("7");
        reveal_strlit("8");
        reveal_strlit("9");
    }
    if d == 0 {
        "0"
    } else if d == 1 {
        "1"
    } else if d == 2 {
        "2"
    } else if d == 3 {
        "3"
    } else if d == 4 {
        "4"
    } else if d == 5 {
        "5"
    } else if d == 6 {
        "6"
    } else if d == 7 {
        "7"
    } else if d == 8 {
        "8"
    } else {
        "9"
    }
}

/// Append the decimal writing of `v` to `out`.
pub fn push_decimal(out: &mut String, v: usize)
    ensures
        final(out)@ == old(out)@ + decimal(v as nat),
    decreases v,
{
    if v >= 10 {
        push_decimal(out, v / 10);
    }
    out.append(digit_str((v % 10) as u8));
    proof {
        assert(old(out)@ + decimal(v as nat) =~= final(out)@) by {
            if v >= 10 {
                assert(decimal(v as nat) == decimal((v / 10) as nat) + seq![digit_char((v % 10) as int)]);
            }
        }
    }
}

impl Card {
    /// How the card is shown.
    pub fn to_string(&self) -> (r: String)
        ensures
            r@ == card_text(*self),
    {
        match *self {
            Card::Joker => {
                proof {
                    reveal_strlit("★");
                }
                "★".to_owned()
            },
            Card::RegularCard(suit, val) => {
                let mut s = String::new();
                proof {
                    reveal_strlit("A");
                    reveal_strlit("J");
                    reveal_strlit("Q");
                    reveal_strlit("K");
                    reveal_strlit("♥");
                    reveal_strlit("♦");
                    reveal_strlit("♣");
                    reveal_strlit("♠");
                }
                if val == 1 {
                    s.append("A");
                } else if val == 11 {
                    s.append("J");
                } else if val == 12 {
                    s.append("Q");
                } else if val == 13 {
                    s.append("K");
                } else {
                    push_decimal(&mut s, val as usize);
                }
                match suit {
                    Suit::Heart => s.append("♥"),
                    Suit::Diamond => s.append("♦"),
                    Suit::Club => s.append("♣"),
                    Suit::Spade => s.append("♠"),
                }
                proof {
                    assert(s@ =~= card_text(*self));
                }
                s
            },
        }
    }
}

} // verus!
