//! The game configuration and its six-byte encoding.

use vstd::prelude::*;

verus! {

/// The parameters of a game: they fix how the deck is built and how many cards each player
/// starts with.
#[derive(Clone, Copy, Debug, PartialEq, Eq, Structural)]
pub struct Config {
    pub n_decks: u8,
    pub n_jokers: u8,
    pub n_cards_to_start: u16,
    pub custom_rule_jokers: bool,
    pub n_players: u8,
}

/// The six bytes of a configuration: decks, jokers, starting cards (high byte, then low byte),
/// the joker rule (0 or 1) and players.
pub open spec fn config_bytes(c: Config) -> Seq<u8> {
    seq![
        c.n_decks,
        c.n_jokers,
        (c.n_cards_to_start / 256) as u8,
        (c.n_cards_to_start % 256) as u8,
        if c.custom_rule_jokers { 1u8 } else { 0u8 },
        c.n_players,
    ]
}

/// The configuration that the first six bytes of `b` encode; any non-zero rule byte enables
/// the joker rule.
pub open spec fn config_of_bytes(b: Seq<u8>) -> Config {
    Config {
        n_decks: b[0],
        n_jokers: b[1],
        n_cards_to_start: (b[2] * 256 + b[3]) as u16,
        custom_rule_jokers: b[4] != 0,
        n_players: b[5],
    }
}

/// Decoding the encoding of a configuration gives it back.
pub proof fn lemma_config_round_trip(c: Config)
    ensures
        config_bytes(c).len() == 6,
        config_of_bytes(config_bytes(c)) == c,
{
}

impl Config {
    /// Encode the configuration on six bytes.
    pub fn to_bytes(&self) -> (r: Vec<u8>)
        ensures
            r@ == config_bytes(*self),
    {
        let mut r: Vec<u8> = Vec::new();
        r.push(self.n_decks);
        r.push(self.n_jokers);
        r.push((self.n_cards_to_start / 256) as u8);
        r.push((self.n_cards_to_start % 256) as u8);
        r.push(if self.custom_rule_jokers { 1u8 } else { 0u8 });
        r.push(self.n_players);
        proof {
            assert(r@ =~= config_bytes(*self));
        }
        r
    }

    /// Decode a configuration from its six bytes (the bytes after the sixth are ignored).
    pub fn from_bytes(bytes: &[u8]) -> (r: Config)
        requires
            bytes@.len() >= 6,
        ensures
            r == config_of_bytes(bytes@),
    {
        Config {
            n_decks: bytes[0],
            n_jokers: bytes[1],
            n_cards_to_start: (bytes[2] as u16) * 256 + (bytes[3] as u16),
            custom_rule_jokers: bytes[4] != 0,
            n_players: bytes[5],
        }
    }
}

} // verus!
