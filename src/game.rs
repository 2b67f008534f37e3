//! Saving and loading a whole game: configuration, player to move, hands, names, deck and table.

use vstd::prelude::*;
use vstd::utf8::{valid_utf8, decode_utf8, encode_utf8};
use crate::card::Card;
use crate::config::{Config, config_bytes, config_of_bytes, lemma_config_round_trip};
use crate::sequence::{Sequence, seq_bytes, cards_of_bytes, lemma_seq_bytes_len, lemma_seq_bytes_round_trip};
use crate::table::{Table, table_bytes, melds_of_bytes, melds_encodable, lemma_table_round_trip};

verus! {

broadcast use vstd::utf8::group_utf8_lib;

/// The bytes that a saved game could not be read from.
#[derive(Debug)]
pub struct LoadingError {}

/// What `load_game` returns: configuration, player to move, table, hands, deck and names.
pub type GameState = (Config, u8, Table, Vec<Sequence>, Sequence, Vec<String>);

/// The model of a game state: configuration, player to move, melds on the table, hands,
/// deck and names.
pub type GameView = (Config, u8, Seq<Seq<Card>>, Seq<Seq<Card>>, Seq<Card>, Seq<Seq<char>>);

/// The card lists of a list of sequences.
pub open spec fn seqs_view(v: Seq<Sequence>) -> Seq<Seq<Card>> {
    v.map_values(|s: Sequence| s@)
}

/// The character lists of a list of strings.
pub open spec fn strings_view(v: Seq<String>) -> Seq<Seq<char>> {
    v.map_values(|s: String| s@)
}

/// The model of a loaded game.
pub open spec fn game_view(g: GameState) -> GameView {
    (g.0, g.1, g.2@, seqs_view(g.3@), g.4@, strings_view(g.5@))
}

/// A count on two bytes, high byte first.
pub open spec fn u16_bytes(n: int) -> Seq<u8> {
    seq![(n / 256) as u8, (n % 256) as u8]
}

/// The hands, each as its card count on two bytes and then its cards.
pub open spec fn hands_bytes(hs: Seq<Seq<Card>>) -> Seq<u8>
    decreases hs.len(),
{
    if hs.len() == 0 {
        Seq::empty()
    } else {
        u16_bytes(hs[0].len() as int) + seq_bytes(hs[0]) + hands_bytes(hs.drop_first())
    }
}

/// The names, each as its UTF-8 length on one byte and then its UTF-8 bytes.
pub open spec fn names_bytes(ns: Seq<Seq<char>>) -> Seq<u8>
    decreases ns.len(),
{
    if ns.len() == 0 {
        Seq::empty()
    } else {
        seq![encode_utf8(ns[0]).len() as u8] + encode_utf8(ns[0]) + names_bytes(ns.drop_first())
    }
}

/// The encoding of a game.
pub open spec fn game_bytes(g: GameView) -> Seq<u8> {
    config_bytes(g.0) + seq![g.1] + hands_bytes(g.3) + names_bytes(g.5) + u16_bytes(g.4.len() as int)
        + seq_bytes(g.4) + table_bytes(g.2)
}

/// Read `k` hands from the front of `b`: the hands and the bytes after them.
pub open spec fn parse_hands(b: Seq<u8>, k: nat) -> Option<(Seq<Seq<Card>>, Seq<u8>)>
    decreases k,
{
    if k == 0 {
        Some((Seq::empty(), b))
    } else if b.len() < 2 {
        None
    } else {
        let end: int = 2 + 2 * (b[0] * 256 + b[1]);
        if b.len() < end {
            None
        } else {
            match (cards_of_bytes(b.subrange(2, end)), parse_hands(b.subrange(end, b.len() as int), (k - 1) as nat)) {
                (Some(h), Some((rest, tail))) => Some((seq![h] + rest, tail)),
                _ => None,
            }
        }
    }
}

/// Read `k` names from the front of `b`: the names and the bytes after them.
pub open spec fn parse_names(b: Seq<u8>, k: nat) -> Option<(Seq<Seq<char>>, Seq<u8>)>
    decreases k,
{
    if k == 0 {
        Some((Seq::empty(), b))
    } else if b.len() < 1 {
        None
    } else {
        let end: int = 1 + b[0];
        if b.len() < end || !valid_utf8(b.subrange(1, end)) {
            None
        } else {
            match parse_names(b.subrange(end, b.len() as int), (k - 1) as nat) {
                Some((rest, tail)) => Some((seq![decode_utf8(b.subrange(1, end))] + rest, tail)),
                None => None,
            }
        }
    }
}

/// Read the deck and then the table, which takes all the remaining bytes.
pub open spec fn parse_deck_and_table(b: Seq<u8>) -> Option<(Seq<Card>, Seq<Seq<Card>>)> {
    if b.len() < 2 {
        None
    } else {
        let end: int = 2 + 2 * (b[0] * 256 + b[1]);
        if b.len() < end {
            None
        } else {
            match (cards_of_bytes(b.subrange(2, end)), melds_of_bytes(b.subrange(end, b.len() as int))) {
                (Some(d), Some(t)) => Some((d, t)),
                _ => None,
            }
        }
    }
}

/// The game that `b` encodes, if it encodes one.
pub open spec fn parse_game(b: Seq<u8>) -> Option<GameView> {
    if b.len() < 7 {
        None
    } else {
        let config = config_of_bytes(b);
        let np = config.n_players as nat;
        match parse_hands(b.subrange(7, b.len() as int), np) {
            Some((hands, t1)) => match parse_names(t1, np) {
                Some((names, t2)) => match parse_deck_and_table(t2) {
                    Some((deck, table)) => Some((config, b[6], table, hands, deck, names)),
                    None => None,
                },
                None => None,
            },
            None => None,
        }
    }
}

/// A game state that the format can hold: one hand and one name per player, counts that fit
/// their fields.
pub open spec fn game_encodable(g: GameView) -> bool {
    &&& g.3.len() == g.0.n_players
    &&& g.5.len() == g.0.n_players
    &&& forall|i: int| 0 <= i < g.3.len() ==> (#[trigger] g.3[i]).len() <= 65535
    &&& forall|i: int| 0 <= i < g.5.len() ==> encode_utf8(#[trigger] g.5[i]).len() <= 255
    &&& g.4.len() <= 65535
    &&& melds_encodable(g.2)
}

proof fn lemma_hands_round_trip(hs: Seq<Seq<Card>>, rest: Seq<u8>)
    requires
        forall|i: int| 0 <= i < hs.len() ==> (#[trigger] hs[i]).len() <= 65535,
    ensures
        parse_hands(hands_bytes(hs) + rest, hs.len()) == Some((hs, rest)),
    decreases hs.len(),
{
    if hs.len() > 0 {
        let h = hs[0];
        let b = hands_bytes(hs) + rest;
        lemma_seq_bytes_len(h);
        lemma_seq_bytes_round_trip(h);
        assert forall|i: int| 0 <= i < hs.drop_first().len() implies (#[trigger] hs.drop_first()[i]).len() <= 65535 by {
            assert(hs.drop_first()[i] == hs[i + 1]);
        }
        lemma_hands_round_trip(hs.drop_first(), rest);
        assert(hs[0].len() <= 65535);
        let end: int = 2 + 2 * h.len() as int;
        assert(b[0] * 256 + b[1] == h.len());
        assert(b.subrange(2, end) =~= seq_bytes(h));
        assert(b.subrange(end, b.len() as int) =~= hands_bytes(hs.drop_first()) + rest);
        assert(seq![h] + hs.drop_first() =~= hs);
    }
}

proof fn lemma_names_round_trip(ns: Seq<Seq<char>>, rest: Seq<u8>)
    requires
        forall|i: int| 0 <= i < ns.len() ==> encode_utf8(#[trigger] ns[i]).len() <= 255,
    ensures
        parse_names(names_bytes(ns) + rest, ns.len()) == Some((ns, rest)),
    decreases ns.len(),
{
    if ns.len() > 0 {
        let e = encode_utf8(ns[0]);
        let b = names_bytes(ns) + rest;
        assert forall|i: int| 0 <= i < ns.drop_first().len() implies encode_utf8(#[trigger] ns.drop_first()[i]).len() <= 255 by {
            assert(ns.drop_first()[i] == ns[i + 1]);
        }
        lemma_names_round_trip(ns.drop_first(), rest);
        assert(encode_utf8(ns[0]).len() <= 255);
        let end: int = 1 + e.len() as int;
        assert(b.subrange(1, end) =~= e);
        assert(b.subrange(end, b.len() as int) =~= names_bytes(ns.drop_first()) + rest);
        assert(seq![ns[0]] + ns.drop_first() =~= ns);
    }
}

/// Loading the saved bytes of a game gives back that game.
#[verifier::rlimit(50)]
pub proof fn lemma_game_round_trip(g: GameView)
    requires
        game_encodable(g),
    ensures
        parse_game(game_bytes(g)) == Some(g),
{
    let b = game_bytes(g);
    let tail_names = names_bytes(g.5) + u16_bytes(g.4.len() as int) + seq_bytes(g.4) + table_bytes(g.2);
    let tail_deck = u16_bytes(g.4.len() as int) + seq_bytes(g.4) + table_bytes(g.2);
    lemma_config_round_trip(g.0);
    assert(b.subrange(0, 6) =~= config_bytes(g.0));
    assert(config_of_bytes(b) == config_of_bytes(config_bytes(g.0)));
    lemma_hands_round_trip(g.3, tail_names);
    assert(b.subrange(7, b.len() as int) =~= hands_bytes(g.3) + tail_names);
    lemma_names_round_trip(g.5, tail_deck);
    assert(names_bytes(g.5) + tail_deck =~= tail_names);
    lemma_seq_bytes_len(g.4);
    lemma_seq_bytes_round_trip(g.4);
    lemma_table_round_trip(g.2);
    let end: int = 2 + 2 * g.4.len() as int;
    assert(tail_deck.subrange(2, end) =~= seq_bytes(g.4));
    assert(tail_deck.subrange(end, tail_deck.len() as int) =~= table_bytes(g.2));
}

/// Relies on std's `String::from_utf8`: it succeeds exactly on valid UTF-8, and the string
/// then holds the characters that the bytes encode.
#[verifier::external_body]
pub(crate) fn string_from_utf8(bytes: Vec<u8>) -> (r: Option<String>)
    ensures
        r is Some <==> valid_utf8(bytes@),
        r matches Some(s) ==> s@ == decode_utf8(bytes@),
{
    String::from_utf8(bytes).ok()
}


/// Encode a game: configuration, player to move, the hands and names of the first
/// `n_players` players, deck and table.
pub fn game_to_bytes(
    player: u8,
    table: &Table,
    hands: &Vec<Sequence>,
    deck: &Sequence,
    config: &Config,
    player_names: &Vec<String>,
) -> (r: Vec<u8>)
    requires
        hands@.len() >= config.n_players,
        player_names@.len() >= config.n_players,
        game_encodable(
            (
                *config,
                player,
                table@,
                seqs_view(hands@).take(config.n_players as int),
                deck@,
                strings_view(player_names@).take(config.n_players as int),
            ),
        ),
    ensures
        r@ == game_bytes(
            (
                *config,
                player,
                table@,
                seqs_view(hands@).take(config.n_players as int),
                deck@,
                strings_view(player_names@).take(config.n_players as int),
            ),
        ),
{
    let np = config.n_players as usize;
    let ghost hs = seqs_view(hands@).take(np as int);
    let ghost ns = strings_view(player_names@).take(np as int);
    let mut bytes = config.to_bytes();
    bytes.push(player);
    let ghost head = bytes@;
    let mut i: usize = 0;
    proof {
        assert(hs.subrange(0, np as int) =~= hs);
        assert(bytes@ =~= head + Seq::<u8>::empty());
        assert(hands_bytes(hs) =~= Seq::<u8>::empty() + hands_bytes(hs.subrange(0, np as int)));
    }
    while i < np
        invariant
            np == config.n_players,
            hands@.len() >= np,
            hs == seqs_view(hands@).take(np as int),
            forall|j: int| 0 <= j < hs.len() ==> (#[trigger] hs[j]).len() <= 65535,
            i <= np,
            bytes@.len() >= head.len(),
            head + hands_bytes(hs) == bytes@ + hands_bytes(hs.subrange(i as int, np as int)),
        decreases np - i,
    {
        let hand = &hands[i];
        let n = hand.number_cards();
        proof {
            assert(hs[i as int] == hand@);
            let rest = hs.subrange(i as int, np as int);
            assert(rest.drop_first() =~= hs.subrange(i + 1, np as int));
            assert(rest[0] == hand@);
        }
        bytes.push((n / 256) as u8);
        bytes.push((n % 256) as u8);
        let mut b = hand.to_bytes();
        bytes.append(&mut b);
        i += 1;
        proof {
            assert(head + hands_bytes(hs) =~= bytes@ + hands_bytes(hs.subrange(i as int, np as int)));
        }
    }
    let ghost after_hands = bytes@;
    proof {
        assert(after_hands =~= head + hands_bytes(hs)) by {
            assert(hs.subrange(np as int, np as int) =~= Seq::<Seq<Card>>::empty());
            assert(after_hands + Seq::<u8>::empty() =~= after_hands);
        }
        assert(ns.subrange(0, np as int) =~= ns);
        assert(bytes@ + names_bytes(ns) =~= after_hands + names_bytes(ns.subrange(0, np as int)));
    }
    let mut i: usize = 0;
    while i < np
        invariant
            np == config.n_players,
            player_names@.len() >= np,
            ns == strings_view(player_names@).take(np as int),
            forall|j: int| 0 <= j < ns.len() ==> encode_utf8(#[trigger] ns[j]).len() <= 255,
            i <= np,
            after_hands + names_bytes(ns) == bytes@ + names_bytes(ns.subrange(i as int, np as int)),
        decreases np - i,
    {
        let name_b = player_names[i].as_str().as_bytes();
        proof {
            assert(ns[i as int] == player_names@[i as int]@);
            let rest = ns.subrange(i as int, np as int);
            assert(rest.drop_first() =~= ns.subrange(i + 1, np as int));
            assert(rest[0] == player_names@[i as int]@);
        }
        bytes.push(name_b.len() as u8);
        let mut b = vstd::slice::slice_to_vec(name_b);
        bytes.append(&mut b);
        i += 1;
        proof {
            assert(after_hands + names_bytes(ns) =~= bytes@ + names_bytes(ns.subrange(i as int, np as int)));
        }
    }
    proof {
        assert(ns.subrange(np as int, np as int) =~= Seq::<Seq<char>>::empty());
    }
    let n_deck = deck.number_cards();
    bytes.push((n_deck / 256) as u8);
    bytes.push((n_deck % 256) as u8);
    let mut b = deck.to_bytes();
    bytes.append(&mut b);
    let mut t = table.to_bytes();
    bytes.append(&mut t);
    proof {
        let g = (*config, player, table@, hs, deck@, ns);
        assert(bytes@ =~= game_bytes(g));
    }
    bytes
}


/// Read a saved game; `LoadingError` when the bytes encode none.
pub fn load_game(bytes: &[u8]) -> (r: Result<GameState, LoadingError>)
    ensures
        r matches Ok(g) ==> parse_game(bytes@) == Some(game_view(g)),
        r is Err ==> parse_game(bytes@) is None,
{
    let ghost b = bytes@;
    let n = bytes.len();
    if n < 7 {
        return Err(LoadingError {});
    }
    let config = Config::from_bytes(bytes);
    let player = bytes[6];
    let np = config.n_players as usize;

    // hands
    let mut hands: Vec<Sequence> = Vec::new();
    let mut i: usize = 7;
    let mut k: usize = 0;
    proof {
        let whole = b.subrange(7, n as int);
        assert(b.subrange(i as int, n as int) =~= whole);
        match parse_hands(whole, np as nat) {
            Some((rest, tail)) => {
                assert(seqs_view(hands@) + rest =~= rest);
            },
            None => {},
        }
    }
    while k < np
        invariant
            b == bytes@,
            n == b.len(),
            7 <= i <= n,
            k <= np,
            np == config.n_players,
            config == config_of_bytes(b),
            parse_hands(b.subrange(7, n as int), np as nat) == match parse_hands(b.subrange(i as int, n as int), (np - k) as nat) {
                Some((rest, tail)) => Some((seqs_view(hands@) + rest, tail)),
                None => None::<(Seq<Seq<Card>>, Seq<u8>)>,
            },
        decreases np - k,
    {
        let ghost tail = b.subrange(i as int, n as int);
        if n - i < 2 {
            proof {
                assert(parse_hands(tail, (np - k) as nat) is None);
                assert(parse_hands(b.subrange(7, n as int), np as nat) is None);
            }
            return Err(LoadingError {});
        }
        let count = (bytes[i] as usize) * 256 + bytes[i + 1] as usize;
        if n - i - 2 < 2 * count {
            proof {
                assert(parse_hands(tail, (np - k) as nat) is None);
                assert(parse_hands(b.subrange(7, n as int), np as nat) is None);
            }
            return Err(LoadingError {});
        }
        let end = i + 2 + 2 * count;
        proof {
            assert(tail.subrange(2, 2 + 2 * count) =~= b.subrange(i + 2, end as int));
            assert(tail.subrange(2 + 2 * count, tail.len() as int) =~= b.subrange(end as int, n as int));
        }
        match Sequence::from_bytes(&bytes[i + 2..end]) {
            Some(hand) => {
                proof {
                    let ghost old_h = seqs_view(hands@);
                    match parse_hands(b.subrange(end as int, n as int), (np - k - 1) as nat) {
                        Some((rest, t)) => {
                            assert(old_h + (seq![hand@] + rest) =~= seqs_view(hands@.push(hand)) + rest);
                        },
                        None => {},
                    }
                }
                hands.push(hand);
            },
            None => {
                proof {
                assert(parse_hands(tail, (np - k) as nat) is None);
                assert(parse_hands(b.subrange(7, n as int), np as nat) is None);
            }
            return Err(LoadingError {});
            },
        }
        i = end;
        k += 1;
    }
    let ghost after_hands = b.subrange(i as int, n as int);
    let ghost hands_v = seqs_view(hands@);
    proof {
        assert(seqs_view(hands@) + Seq::<Seq<Card>>::empty() =~= seqs_view(hands@));
        assert(parse_hands(b.subrange(7, n as int), np as nat) == Some((hands_v, after_hands)));
    }

    // names
    let mut player_names: Vec<String> = Vec::new();
    let mut k: usize = 0;
    proof {
        match parse_names(after_hands, np as nat) {
            Some((rest, tail)) => {
                assert(strings_view(player_names@) + rest =~= rest);
            },
            None => {},
        }
    }
    while k < np
        invariant
            b == bytes@,
            n == b.len(),
            7 <= i <= n,
            k <= np,
            np == config.n_players,
            config == config_of_bytes(b),
            hands_v == seqs_view(hands@),
            parse_hands(b.subrange(7, n as int), np as nat) == Some((hands_v, after_hands)),
            parse_names(after_hands, np as nat) == match parse_names(b.subrange(i as int, n as int), (np - k) as nat) {
                Some((rest, tail)) => Some((strings_view(player_names@) + rest, tail)),
                None => None::<(Seq<Seq<char>>, Seq<u8>)>,
            },
        decreases np - k,
    {
        let ghost tail = b.subrange(i as int, n as int);
        if n - i < 1 {
            proof {
                assert(parse_names(tail, (np - k) as nat) is None);
                assert(parse_names(after_hands, np as nat) is None);
            }
            return Err(LoadingError {});
        }
        let len = bytes[i] as usize;
        if n - i - 1 < len {
            proof {
                assert(parse_names(tail, (np - k) as nat) is None);
                assert(parse_names(after_hands, np as nat) is None);
            }
            return Err(LoadingError {});
        }
        let end = i + 1 + len;
        proof {
            assert(tail.subrange(1, 1 + len) =~= b.subrange(i + 1, end as int));
            assert(tail.subrange(1 + len, tail.len() as int) =~= b.subrange(end as int, n as int));
        }
        let raw = vstd::slice::slice_to_vec(&bytes[i + 1..end]);
        match string_from_utf8(raw) {
            Some(name) => {
                proof {
                    let ghost old_n = strings_view(player_names@);
                    match parse_names(b.subrange(end as int, n as int), (np - k - 1) as nat) {
                        Some((rest, t)) => {
                            assert(old_n + (seq![name@] + rest) =~= strings_view(player_names@.push(name)) + rest);
                        },
                        None => {},
                    }
                }
                player_names.push(name);
            },
            None => {
                proof {
                assert(parse_names(tail, (np - k) as nat) is None);
                assert(parse_names(after_hands, np as nat) is None);
            }
            return Err(LoadingError {});
            },
        }
        i = end;
        k += 1;
    }
    proof {
        assert(strings_view(player_names@) + Seq::<Seq<char>>::empty() =~= strings_view(player_names@));
        assert(parse_names(after_hands, np as nat) == Some((strings_view(player_names@), b.subrange(i as int, n as int))));
    }

    // deck and table
    let ghost t2 = b.subrange(i as int, n as int);
    if n - i < 2 {
        proof {
            assert(parse_deck_and_table(t2) is None);
        }
        return Err(LoadingError {});
    }
    let count = (bytes[i] as usize) * 256 + bytes[i + 1] as usize;
    if n - i - 2 < 2 * count {
        proof {
            assert(parse_deck_and_table(t2) is None);
        }
        return Err(LoadingError {});
    }
    let end = i + 2 + 2 * count;
    proof {
        assert(t2.subrange(2, 2 + 2 * count) =~= b.subrange(i + 2, end as int));
        assert(t2.subrange(2 + 2 * count, t2.len() as int) =~= b.subrange(end as int, n as int));
    }
    let deck = match Sequence::from_bytes(&bytes[i + 2..end]) {
        Some(d) => d,
        None => {
            proof {
            assert(parse_deck_and_table(t2) is None);
        }
        return Err(LoadingError {});
        },
    };
    let table = match Table::from_bytes(&bytes[end..n]) {
        Some(t) => t,
        None => {
            proof {
            assert(parse_deck_and_table(t2) is None);
        }
        return Err(LoadingError {});
        },
    };
    proof {
        assert(bytes@.subrange(end as int, n as int) == b.subrange(end as int, n as int));
        assert(parse_deck_and_table(t2) == Some((deck@, table@)));
    }
    Ok((config, player, table, hands, deck, player_names))
}

} // verus!
