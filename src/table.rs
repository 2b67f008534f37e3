//! The table: the melds laid by the players, in order.

use vstd::prelude::*;
use crate::sequence::{Sequence, seq_bytes, cards_of_bytes, lemma_seq_bytes_len, lemma_seq_bytes_round_trip};
use crate::card::Card;

verus! {

/// Encoding of a list of melds: each meld as its card count on one byte, then its cards.
pub open spec fn table_bytes(melds: Seq<Seq<Card>>) -> Seq<u8>
    decreases melds.len(),
{
    if melds.len() == 0 {
        Seq::empty()
    } else {
        seq![melds[0].len() as u8] + seq_bytes(melds[0]) + table_bytes(melds.drop_first())
    }
}

/// The melds that a byte string encodes, consuming all of it, if it encodes a list of melds.
pub open spec fn melds_of_bytes(b: Seq<u8>) -> Option<Seq<Seq<Card>>>
    decreases b.len(),
{
    if b.len() == 0 {
        Some(Seq::empty())
    } else {
        let end: int = 1 + 2 * b[0];
        if b.len() < end {
            None
        } else {
            match (cards_of_bytes(b.subrange(1, end)), melds_of_bytes(b.subrange(end, b.len() as int))) {
                (Some(m), Some(rest)) => Some(seq![m] + rest),
                _ => None,
            }
        }
    }
}

/// Every meld has at most 255 cards, so that its count fits on one byte.
pub open spec fn melds_encodable(melds: Seq<Seq<Card>>) -> bool {
    forall|i: int| 0 <= i < melds.len() ==> (#[trigger] melds[i]).len() <= 255
}

/// Decoding the encoding of a list of melds gives it back.
pub proof fn lemma_table_round_trip(melds: Seq<Seq<Card>>)
    requires
        melds_encodable(melds),
    ensures
        melds_of_bytes(table_bytes(melds)) == Some(melds),
    decreases melds.len(),
{
    if melds.len() > 0 {
        let b = table_bytes(melds);
        let m = melds[0];
        lemma_seq_bytes_len(m);
        lemma_seq_bytes_round_trip(m);
        assert(melds_encodable(melds.drop_first())) by {
            assert forall|i: int| 0 <= i < melds.drop_first().len() implies (#[trigger] melds.drop_first()[i]).len() <= 255 by {
                assert(melds.drop_first()[i] == melds[i + 1]);
            }
        }
        lemma_table_round_trip(melds.drop_first());
        assert(melds[0].len() <= 255);
        let end: int = 1 + 2 * m.len() as int;
        assert(b.subrange(1, end) =~= seq_bytes(m));
        assert(b.subrange(end, b.len() as int) =~= table_bytes(melds.drop_first()));
        assert(seq![m] + melds.drop_first() =~= melds);
    }
}

/// The melds on the table, in the order they were laid.
#[derive(Clone, Debug)]
pub struct Table(Vec<Sequence>);

impl View for Table {
    type V = Seq<Seq<Card>>;

    closed spec fn view(&self) -> Seq<Seq<Card>> {
        self.0@.map_values(|s: Sequence| s@)
    }
}

impl Table {
    /// An empty table.
    pub fn new() -> (r: Table)
        ensures
            r@ == Seq::<Seq<Card>>::empty(),
    {
        let r = Table(Vec::new());
        proof {
            assert(r@ =~= Seq::<Seq<Card>>::empty());
        }
        r
    }

    /// Number of melds on the table.
    pub fn number_sequences(&self) -> (r: usize)
        ensures
            r == self@.len(),
    {
        self.0.len()
    }

    /// Lay a meld at the end; its validity is the caller's concern.
    pub fn add(&mut self, seq: Sequence)
        ensures
            final(self)@ == old(self)@.push(seq@),
    {
        self.0.push(seq);
        proof {
            assert(self@ =~= old(self)@.push(seq@));
        }
    }

    /// Remove and return the meld at the 1-based position `i`, shifting the later ones;
    /// `None`, with the table unchanged, when `i` is not in `1..=len`.
    pub fn take(&mut self, i: usize) -> (r: Option<Sequence>)
        ensures
            1 <= i <= old(self)@.len() ==> r is Some && r.unwrap()@ == old(self)@[i - 1]
                && final(self)@ == old(self)@.remove(i - 1),
            !(1 <= i <= old(self)@.len()) ==> r is None && final(self)@ == old(self)@,
    {
        if i > 0 && i <= self.0.len() {
            let seq = self.0.remove(i - 1);
            proof {
                assert(self@ =~= old(self)@.remove(i - 1));
            }
            return Some(seq);
        }
        None
    }

    /// Encode the melds, each preceded by its card count on one byte.
    pub fn to_bytes(&self) -> (r: Vec<u8>)
        requires
            melds_encodable(self@),
        ensures
            r@ == table_bytes(self@),
    {
        let ghost m = self@;
        let mut r: Vec<u8> = Vec::new();
        let mut i: usize = 0;
        proof {
            assert(m.subrange(0, m.len() as int) =~= m);
            assert(r@ + table_bytes(m) =~= table_bytes(m));
        }
        while i < self.0.len()
            invariant
                m == self@,
                m.len() == self.0@.len(),
                melds_encodable(m),
                i <= m.len(),
                table_bytes(m) == r@ + table_bytes(m.subrange(i as int, m.len() as int)),
            decreases m.len() - i,
        {
            let meld = &self.0[i];
            assert(meld@ == m[i as int]);
            let n = meld.number_cards();
            assert(n <= 255);
            let mut b = meld.to_bytes();
            proof {
                let rest = m.subrange(i as int, m.len() as int);
                assert(rest.drop_first() =~= m.subrange(i + 1, m.len() as int));
                assert(rest[0] == m[i as int]);
            }
            r.push(n as u8);
            r.append(&mut b);
            i += 1;
            proof {
                assert(r@ + table_bytes(m.subrange(i as int, m.len() as int)) =~= table_bytes(m));
            }
        }
        proof {
            assert(r@ + table_bytes(m.subrange(i as int, m.len() as int)) =~= r@);
        }
        r
    }

    /// Decode a table from the whole of `bytes`; `None` when they encode no list of melds.
    pub fn from_bytes(bytes: &[u8]) -> (r: Option<Table>)
        ensures
            r matches Some(t) ==> melds_of_bytes(bytes@) == Some(t@),
            r is None ==> melds_of_bytes(bytes@) is None,
    {
        let b = Ghost(bytes@);
        let n = bytes.len();
        let mut v: Vec<Sequence> = Vec::new();
        let mut i: usize = 0;
        proof {
            assert(b@.subrange(0, n as int) =~= b@);
            match melds_of_bytes(b@) {
                Some(rest) => {
                    assert(v@.map_values(|s: Sequence| s@) + rest =~= rest);
                },
                None => {},
            }
        }
        while i < n
            invariant
                n == b@.len(),
                i <= n,
                b@ == bytes@,
                melds_of_bytes(b@) == match melds_of_bytes(b@.subrange(i as int, n as int)) {
                    Some(rest) => Some(v@.map_values(|s: Sequence| s@) + rest),
                    None => None::<Seq<Seq<Card>>>,
                },
            decreases n - i,
        {
            let ghost tail = b@.subrange(i as int, n as int);
            let count = bytes[i] as usize;
            if n - i - 1 < 2 * count {
                return None;
            }
            let end = i + 1 + 2 * count;
            proof {
                assert(tail.subrange(1, 1 + 2 * count) =~= b@.subrange(i + 1, end as int));
                assert(tail.subrange(1 + 2 * count, tail.len() as int) =~= b@.subrange(end as int, n as int));
            }
            match Sequence::from_bytes(&bytes[i + 1..end]) {
                Some(meld) => {
                    proof {
                        assert(bytes@.subrange(i + 1, end as int) == b@.subrange(i + 1, end as int));
                        let ghost old_v = v@.map_values(|s: Sequence| s@);
                        match melds_of_bytes(b@.subrange(end as int, n as int)) {
                            Some(rest) => {
                                assert(old_v + (seq![meld@] + rest) =~= v@.push(meld).map_values(|s: Sequence| s@) + rest);
                            },
                            None => {},
                        }
                    }
                    v.push(meld);
                },
                None => {
                    return None;
                },
            }
            i = end;
        }
        let r = Table(v);
        proof {
            assert(b@.subrange(i as int, n as int) =~= Seq::<u8>::empty());
            assert(v@.map_values(|s: Sequence| s@) + Seq::<Seq<Card>>::empty() =~= r@);
        }
        Some(r)
    }
}


impl Table {
    /// The melds, in order.
    pub fn clone_melds(&self) -> (r: Vec<Sequence>)
        ensures
            r@.len() == self@.len(),
            forall|j: int| 0 <= j < r@.len() ==> (#[trigger] r@[j])@ == self@[j],
    {
        let mut r: Vec<Sequence> = Vec::new();
        let mut i: usize = 0;
        while i < self.0.len()
            invariant
                i <= self.0@.len(),
                self@.len() == self.0@.len(),
                r@.len() == i,
                forall|j: int| 0 <= j < i ==> (#[trigger] r@[j])@ == self@[j],
            decreases self.0@.len() - i,
        {
            let s = Sequence::from_cards(self.0[i].to_vec().as_slice());
            r.push(s);
            i += 1;
        }
        r
    }
}


/// A meld laid on an empty table is the one taken back from position 1, which leaves the table
/// empty.
pub proof fn lemma_add_then_take(meld: Seq<Card>)
    ensures
        1 <= 1 <= Seq::<Seq<Card>>::empty().push(meld).len(),
        Seq::<Seq<Card>>::empty().push(meld)[0] == meld,
        Seq::<Seq<Card>>::empty().push(meld).remove(0) =~= Seq::<Seq<Card>>::empty(),
{
}

/// Taking from an empty table, or from position 0, or from past the last meld finds nothing.
pub proof fn lemma_take_out_of_range(melds: Seq<Seq<Card>>, i: int)
    requires
        melds.len() == 0 || i == 0 || i > melds.len(),
    ensures
        !(1 <= i <= melds.len()),
{
}

} // verus!
