//! Reading what people type: the line-oriented configuration file and the list of positions of
//! a meld. Both are read from their UTF-8 bytes.

use vstd::prelude::*;
use vstd::utf8::{valid_utf8, decode_utf8};
use crate::config::Config;
use crate::game::string_from_utf8;

verus! {

/// Largest position that a meld's list of positions may name; larger ones are skipped, as
/// positions past the hand are.
pub const MAX_POSITION: u64 = 0xFFFF_FFFF;

pub open spec fn is_digit(b: u8) -> bool {
    48 <= b <= 57
}

/// The value of a non-empty run of decimal digits.
pub open spec fn digits_value(s: Seq<u8>) -> Option<nat>
    decreases s.len(),
{
    if s.len() == 0 || !is_digit(s.last()) {
        None
    } else if s.len() == 1 {
        Some((s.last() - 48) as nat)
    } else {
        match digits_value(s.drop_last()) {
            Some(v) => Some(v * 10 + (s.last() - 48) as nat),
            None => None,
        }
    }
}

/// The value of an unsigned number: an optional `+`, then decimal digits.
pub open spec fn unsigned_value(s: Seq<u8>) -> Option<nat> {
    if s.len() > 0 && s[0] == 43 {
        digits_value(s.drop_first())
    } else {
        digits_value(s)
    }
}

/// The unsigned number written in `s`, if there is one and it is at most `limit`.
pub open spec fn bounded_value(s: Seq<u8>, limit: nat) -> Option<nat> {
    match unsigned_value(s) {
        Some(v) => if v <= limit {
            Some(v)
        } else {
            None
        },
        None => None,
    }
}

/// The pieces of `b` between the separators `sep`: one more piece than separators.
pub open spec fn split_on(b: Seq<u8>, sep: u8) -> Seq<Seq<u8>>
    decreases b.len(),
{
    if b.len() == 0 {
        seq![Seq::empty()]
    } else {
        let prev = split_on(b.drop_last(), sep);
        if b.last() == sep {
            prev.push(Seq::empty())
        } else {
            prev.update(prev.len() - 1, prev.last().push(b.last()))
        }
    }
}

pub proof fn lemma_split_on_nonempty(b: Seq<u8>, sep: u8)
    ensures
        split_on(b, sep).len() >= 1,
    decreases b.len(),
{
    if b.len() > 0 {
        lemma_split_on_nonempty(b.drop_last(), sep);
    }
}

/// The values of the pieces that are numbers at most `limit`, in order; other pieces dropped.
pub open spec fn numbers_in(pieces: Seq<Seq<u8>>, limit: nat) -> Seq<nat>
    decreases pieces.len(),
{
    if pieces.len() == 0 {
        Seq::empty()
    } else {
        let prev = numbers_in(pieces.drop_last(), limit);
        match bounded_value(pieces.last(), limit) {
            Some(v) => prev.push(v),
            None => prev,
        }
    }
}

/// What a configuration file holds, if it holds one: line 0 is free, lines 1, 2, 3 and 5 are
/// the decks, jokers, starting cards and players, line 4 is `1` to enable the joker rule, and
/// line 6 names the save file.
pub open spec fn config_of_text(b: Seq<u8>) -> Option<(Config, Seq<char>)> {
    let lines = split_on(b, 10);
    if lines.len() < 7 || !valid_utf8(lines[6]) {
        None
    } else {
        match (bounded_value(lines[1], 255), bounded_value(lines[2], 255), bounded_value(lines[3], 65535),
            bounded_value(lines[5], 255)) {
            (Some(d), Some(j), Some(n), Some(p)) => Some(
                (
                    Config {
                        n_decks: d as u8,
                        n_jokers: j as u8,
                        n_cards_to_start: n as u16,
                        custom_rule_jokers: lines[4] == seq![49u8],
                        n_players: p as u8,
                    },
                    decode_utf8(lines[6]),
                ),
            ),
            _ => None,
        }
    }
}

/// The unsigned number written in `s`, if there is one and it is at most `limit`.
pub fn parse_unsigned(s: &[u8], limit: u64) -> (r: Option<u64>)
    ensures
        r matches Some(v) ==> bounded_value(s@, limit as nat) == Some(v as nat),
        r is None ==> bounded_value(s@, limit as nat) is None,
{
    let start: usize = if s.len() > 0 && s[0] == 43 { 1 } else { 0 };
    let ghost digits = s@.subrange(start as int, s@.len() as int);
    proof {
        if start == 1 {
            assert(digits =~= s@.drop_first());
        } else {
            assert(digits =~= s@);
        }
    }
    if start >= s.len() {
        return None;
    }
    let mut v: u64 = 0;
    let mut i: usize = start;
    while i < s.len()
        invariant
            start < s@.len(),
            start <= i <= s@.len(),
            digits == s@.subrange(start as int, s@.len() as int),
            unsigned_value(s@) == digits_value(digits),
            i > start ==> digits_value(s@.subrange(start as int, i as int)) == Some(v as nat),
            v <= limit,
            i == start ==> v == 0,
            forall|k: int| start <= k < i ==> is_digit(#[trigger] s@[k]),
        decreases s@.len() - i,
    {
        let ghost before = s@.subrange(start as int, i as int);
        let c = s[i];
        proof {
            assert(s@.subrange(start as int, i + 1).drop_last() =~= before);
        }
        if c < 48 || c > 57 {
            proof {
                assert(digits[i - start] == c);
                lemma_digits_need_digits(digits, i - start);
            }
            return None;
        }
        let d = (c - 48) as u64;
        if d > limit || v > (limit - d) / 10 {
            proof {
                assert(digits[i - start] == c);
                if i > start {
                    assert(digits.subrange(0, i - start) =~= before);
                }
                assert(v * 10 + d > limit) by (nonlinear_arith)
                    requires
                        d > limit || v > (limit - d) / 10,
                        v >= 0,
                ;
                lemma_digits_grow(digits, i - start, v as nat, limit as nat);
            }
            return None;
        }
        proof {
            assert(v * 10 + d <= limit) by (nonlinear_arith)
                requires
                    v <= (limit - d) / 10,
                    d <= 9,
                    d <= limit,
            ;
        }
        v = v * 10 + d;
        i += 1;
    }
    proof {
        assert(s@.subrange(start as int, s@.len() as int) =~= digits);
    }
    Some(v)
}

/// A run that holds a non-digit at position `k` has no value.
proof fn lemma_digits_need_digits(s: Seq<u8>, k: int)
    requires
        0 <= k < s.len(),
        !is_digit(s[k]),
    ensures
        digits_value(s) is None,
    decreases s.len(),
{
    if k < s.len() - 1 {
        lemma_digits_need_digits(s.drop_last(), k);
    }
}

/// Once the first `k + 1` digits exceed `limit`, so does the whole run, if it has a value.
proof fn lemma_digits_grow(s: Seq<u8>, k: int, v: nat, limit: nat)
    requires
        0 <= k < s.len(),
        is_digit(s[k]),
        k > 0 ==> digits_value(s.subrange(0, k)) == Some(v),
        k == 0 ==> v == 0,
        v * 10 + (s[k] - 48) > limit,
    ensures
        digits_value(s) matches Some(x) ==> x > limit,
    decreases s.len(),
{
    if s.len() == k + 1 {
        if k > 0 {
            assert(s.drop_last() =~= s.subrange(0, k));
        }
    } else {
        let t = s.drop_last();
        assert(t.subrange(0, k) =~= s.subrange(0, k));
        lemma_digits_grow(t, k, v, limit);
    }
}


/// The byte strings of a list of byte vectors.
pub open spec fn pieces_view(v: Seq<Vec<u8>>) -> Seq<Seq<u8>> {
    v.map_values(|p: Vec<u8>| p@)
}

/// Cut `b` at each `sep`.
pub fn split_bytes(b: &[u8], sep: u8) -> (r: Vec<Vec<u8>>)
    ensures
        pieces_view(r@) == split_on(b@, sep),
{
    let mut done: Vec<Vec<u8>> = Vec::new();
    let mut current: Vec<u8> = Vec::new();
    let mut i: usize = 0;
    proof {
        assert(b@.take(0) =~= Seq::<u8>::empty());
        assert(pieces_view(done@).push(current@) =~= split_on(b@.take(0), sep));
    }
    while i < b.len()
        invariant
            i <= b@.len(),
            pieces_view(done@).push(current@) == split_on(b@.take(i as int), sep),
        decreases b@.len() - i,
    {
        let c = b[i];
        proof {
            assert(b@.take(i + 1).drop_last() =~= b@.take(i as int));
            lemma_split_on_nonempty(b@.take(i as int), sep);
        }
        if c == sep {
            let piece = current;
            current = Vec::new();
            done.push(piece);
            proof {
                assert(pieces_view(done@).push(current@) =~= split_on(b@.take(i + 1), sep));
            }
        } else {
            current.push(c);
            proof {
                assert(pieces_view(done@).push(current@) =~= split_on(b@.take(i + 1), sep));
            }
        }
        i += 1;
    }
    proof {
        assert(b@.take(b@.len() as int) =~= b@);
    }
    done.push(current);
    done
}

/// The positions written in a line, separated by spaces; pieces that are no number, or a
/// number above `MAX_POSITION`, are skipped.
pub fn parse_positions(line: &[u8]) -> (r: Vec<usize>)
    ensures
        r@.map_values(|p: usize| p as nat) == numbers_in(split_on(line@, 32), MAX_POSITION as nat),
{
    let pieces = split_bytes(line, 32);
    let ghost ps = pieces_view(pieces@);
    let mut r: Vec<usize> = Vec::new();
    let mut i: usize = 0;
    proof {
        assert(ps.take(0) =~= Seq::<Seq<u8>>::empty());
        assert(r@.map_values(|p: usize| p as nat) =~= Seq::<nat>::empty());
    }
    while i < pieces.len()
        invariant
            ps == pieces_view(pieces@),
            i <= ps.len(),
            r@.map_values(|p: usize| p as nat) == numbers_in(ps.take(i as int), MAX_POSITION as nat),
        decreases ps.len() - i,
    {
        proof {
            assert(ps.take(i + 1).drop_last() =~= ps.take(i as int));
            assert(ps.take(i + 1).last() == pieces@[i as int]@);
        }
        match parse_unsigned(pieces[i].as_slice(), MAX_POSITION) {
            Some(v) => {
                r.push(v as usize);
                proof {
                    assert(r@.map_values(|p: usize| p as nat) =~= numbers_in(ps.take(i + 1), MAX_POSITION as nat));
                }
            },
            None => {},
        }
        i += 1;
    }
    proof {
        assert(ps.take(ps.len() as int) =~= ps);
    }
    r
}

/// Read a configuration file: the configuration and the name of the save file.
pub fn config_from_text(text: &[u8]) -> (r: Option<(Config, String)>)
    ensures
        r matches Some((c, f)) ==> config_of_text(text@) == Some((c, f@)),
        r is None ==> config_of_text(text@) is None,
{
    let lines = split_bytes(text, 10);
    if lines.len() < 7 {
        return None;
    }
    proof {
        assert(pieces_view(lines@)[1] == lines@[1]@);
        assert(pieces_view(lines@)[2] == lines@[2]@);
        assert(pieces_view(lines@)[3] == lines@[3]@);
        assert(pieces_view(lines@)[4] == lines@[4]@);
        assert(pieces_view(lines@)[5] == lines@[5]@);
        assert(pieces_view(lines@)[6] == lines@[6]@);
    }
    let n_decks = parse_unsigned(lines[1].as_slice(), 255);
    let n_jokers = parse_unsigned(lines[2].as_slice(), 255);
    let n_cards_to_start = parse_unsigned(lines[3].as_slice(), 65535);
    let n_players = parse_unsigned(lines[5].as_slice(), 255);
    let custom_rule_jokers = lines[4].len() == 1 && lines[4][0] == 49;
    proof {
        assert(custom_rule_jokers == (lines@[4]@ == seq![49u8])) by {
            if lines@[4]@.len() == 1 && lines@[4]@[0] == 49 {
                assert(lines@[4]@ =~= seq![49u8]);
            }
        }
    }
    let name = match string_from_utf8(lines[6].clone()) {
        Some(s) => s,
        None => {
            return None;
        },
    };
    match (n_decks, n_jokers, n_cards_to_start, n_players) {
        (Some(d), Some(j), Some(n), Some(p)) => Some(
            (
                Config {
                    n_decks: d as u8,
                    n_jokers: j as u8,
                    n_cards_to_start: n as u16,
                    custom_rule_jokers,
                    n_players: p as u8,
                },
                name,
            ),
        ),
        _ => None,
    }
}

} // verus!
