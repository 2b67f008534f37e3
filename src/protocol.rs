//! The wire protocol between the server and its clients: opcodes, and blobs sent as a count
//! byte followed by that many chunks of at most fifty bytes, acknowledged by one zero byte.

use vstd::prelude::*;
use vstd::string::*;

verus! {

/// Largest number of bytes in one chunk.
pub const BUFFER_SIZE: usize = 50;

/// Largest number of chunks in one blob.
pub const MAX_N_BUFFERS: usize = 255;

/// The byte a receiver writes back once it has read a whole blob.
pub const ACK_BYTE: u8 = 0;

/// What the server asks of a client before a blob, or instead of one.
#[derive(Clone, Copy, Debug, PartialEq, Eq, Structural)]
pub enum Opcode {
    /// Show the message that follows.
    Notify,
    /// Clear the view, then show the message that follows.
    ClearAndNotify,
    /// Show the message that follows, then send one blob back.
    PromptAndAwait,
    /// Send one blob back, with no message before.
    SilentAwait,
}

/// The byte of each opcode on the wire.
pub open spec fn opcode_byte(o: Opcode) -> u8 {
    match o {
        Opcode::Notify => 1,
        Opcode::ClearAndNotify => 2,
        Opcode::PromptAndAwait => 3,
        Opcode::SilentAwait => 4,
    }
}

/// The opcode of a byte, if it is one.
pub open spec fn opcode_of_byte(b: u8) -> Option<Opcode> {
    if b == 1 {
        Some(Opcode::Notify)
    } else if b == 2 {
        Some(Opcode::ClearAndNotify)
    } else if b == 3 {
        Some(Opcode::PromptAndAwait)
    } else if b == 4 {
        Some(Opcode::SilentAwait)
    } else {
        None
    }
}

impl Opcode {
    /// The byte sent for this opcode.
    pub fn to_byte(&self) -> (r: u8)
        ensures
            r == opcode_byte(*self),
    {
        match *self {
            Opcode::Notify => 1,
            Opcode::ClearAndNotify => 2,
            Opcode::PromptAndAwait => 3,
            Opcode::SilentAwait => 4,
        }
    }

    /// The opcode that a received byte stands for.
    pub fn from_byte(b: u8) -> (r: Option<Opcode>)
        ensures
            r == opcode_of_byte(b),
    {
        if b == 1 {
            Some(Opcode::Notify)
        } else if b == 2 {
            Some(Opcode::ClearAndNotify)
        } else if b == 3 {
            Some(Opcode::PromptAndAwait)
        } else if b == 4 {
            Some(Opcode::SilentAwait)
        } else {
            None
        }
    }

    /// Whether the client answers this opcode with a blob.
    pub fn awaits_reply(&self) -> (r: bool)
        ensures
            r == (*self == Opcode::PromptAndAwait || *self == Opcode::SilentAwait),
    {
        match *self {
            Opcode::PromptAndAwait | Opcode::SilentAwait => true,
            _ => false,
        }
    }

    /// Whether a message blob follows this opcode.
    pub fn carries_message(&self) -> (r: bool)
        ensures
            r == (*self != Opcode::SilentAwait),
    {
        match *self {
            Opcode::SilentAwait => false,
            _ => true,
        }
    }
}

/// A failure on a connection.
#[derive(Debug)]
pub struct StreamError {
    message: String,
}

/// Bytes received where a UTF-8 string was expected were not UTF-8.
#[derive(Debug)]
pub struct BytesToStringError {}

impl View for StreamError {
    type V = Seq<char>;

    closed spec fn view(&self) -> Seq<char> {
        self.message@
    }
}

impl BytesToStringError {
    /// The connection error that this failure amounts to.
    pub fn to_stream_error(&self) -> (r: StreamError)
        ensures
            r@ == "Could not convert the byte sequence to a string"@,
    {
        StreamError { message: "Could not convert the byte sequence to a string".to_owned() }
    }
}

impl StreamError {
    /// An error with the given description.
    pub fn new(message: String) -> (r: StreamError)
        ensures
            r@ == message@,
    {
        StreamError { message }
    }

    /// The description of the error.
    pub fn message(&self) -> (r: String)
        ensures
            r@ == self@,
    {
        self.message.clone()
    }
}

/// Number of chunks that carry `len` bytes.
pub open spec fn n_chunks(len: nat) -> nat {
    ((len + 49) / 50) as nat
}

/// The `k`-th chunk of `b`: fifty bytes from `50 * k`, or fewer at the end.
pub open spec fn chunk_of(b: Seq<u8>, k: int) -> Seq<u8> {
    let end = if 50 * k + 50 <= b.len() { 50 * k + 50 } else { b.len() as int };
    b.subrange(50 * k, end)
}

/// The chunks put together, in order.
pub open spec fn joined(chunks: Seq<Seq<u8>>) -> Seq<u8>
    decreases chunks.len(),
{
    if chunks.len() == 0 {
        Seq::empty()
    } else {
        joined(chunks.drop_last()) + chunks.last()
    }
}

/// The first `k` chunks of `b`, put together, are the first `50 * k` bytes of `b`.
pub proof fn lemma_joined_prefix(b: Seq<u8>, k: nat)
    requires
        k <= n_chunks(b.len()),
    ensures
        joined(Seq::new(k, |i: int| chunk_of(b, i))) =~= b.subrange(0, if 50 * k <= b.len() { 50 * k as int } else { b.len() as int }),
    decreases k,
{
    let cs = Seq::new(k, |i: int| chunk_of(b, i));
    if k > 0 {
        let k1 = (k - 1) as nat;
        assert(cs.drop_last() =~= Seq::new(k1, |i: int| chunk_of(b, i)));
        lemma_joined_prefix(b, k1);
        assert(50 * k1 < b.len());
    }
}

/// A blob split into its chunks is read back whole: the chunks put together give the payload.
pub proof fn lemma_blob_round_trip(b: Seq<u8>)
    ensures
        joined(Seq::new(n_chunks(b.len()), |i: int| chunk_of(b, i))) == b,
{
    lemma_joined_prefix(b, n_chunks(b.len()));
    assert(b.subrange(0, b.len() as int) =~= b);
}

/// The count byte and the chunks that carry `bytes`; an error when they need more than
/// 255 chunks.
pub fn split_blob(bytes: &[u8]) -> (r: Result<(u8, Vec<Vec<u8>>), StreamError>)
    ensures
        bytes@.len() > MAX_N_BUFFERS * BUFFER_SIZE <==> r is Err,
        r matches Ok((count, chunks)) ==> count == n_chunks(bytes@.len()) && chunks@.len() == count
            && forall|k: int| 0 <= k < count ==> (#[trigger] chunks@[k])@ == chunk_of(bytes@, k),
{
    let n = bytes.len();
    if n > MAX_N_BUFFERS * BUFFER_SIZE {
        return Err(StreamError::new("Stream too long".to_owned()));
    }
    let count: usize = (n + 49) / 50;
    let mut chunks: Vec<Vec<u8>> = Vec::new();
    let mut k: usize = 0;
    while k < count
        invariant
            n == bytes@.len(),
            n <= 12750,
            count == n_chunks(n as nat),
            k <= count,
            chunks@.len() == k,
            forall|i: int| 0 <= i < k ==> (#[trigger] chunks@[i])@ == chunk_of(bytes@, i),
        decreases count - k,
    {
        let start = 50 * k;
        let end = if start + 50 <= n { start + 50 } else { n };
        let c = vstd::slice::slice_to_vec(&bytes[start..end]);
        chunks.push(c);
        k += 1;
    }
    Ok((count as u8, chunks))
}

/// A blob being received: the count byte read first, then the chunks as they come.
#[derive(Debug)]
pub struct BlobReader {
    expected: u8,
    received: u8,
    bytes: Vec<u8>,
}

impl View for BlobReader {
    type V = (u8, u8, Seq<u8>);

    closed spec fn view(&self) -> (u8, u8, Seq<u8>) {
        (self.expected, self.received, self.bytes@)
    }
}

impl BlobReader {
    /// Start reading a blob announced by its count byte.
    pub fn new(count: u8) -> (r: BlobReader)
        ensures
            r@ == (count, 0u8, Seq::<u8>::empty()),
    {
        BlobReader { expected: count, received: 0, bytes: Vec::new() }
    }

    /// Whether every announced chunk has come.
    pub fn is_complete(&self) -> (r: bool)
        ensures
            r == (self@.1 >= self@.0),
    {
        self.received >= self.expected
    }

    /// Add the next chunk.
    pub fn push_chunk(&mut self, chunk: &[u8])
        requires
            old(self)@.1 < old(self)@.0,
        ensures
            final(self)@ == (old(self)@.0, (old(self)@.1 + 1) as u8, old(self)@.2 + chunk@),
    {
        let mut c = vstd::slice::slice_to_vec(chunk);
        self.bytes.append(&mut c);
        self.received = self.received + 1;
    }

    /// The bytes received so far.
    pub fn into_bytes(self) -> (r: Vec<u8>)
        ensures
            r@ == self@.2,
    {
        self.bytes
    }
}


/// One pass of the name-collision rule over the pairs from `(i, j)` on, in order: whenever the
/// `j`-th name equals the `i`-th (`i < j`), an underscore is appended to the `j`-th. The result
/// is the names after the pass and the positions renamed, in the order of renaming.
pub open spec fn rename_pass(names: Seq<Seq<char>>, i: int, j: int) -> (Seq<Seq<char>>, Seq<usize>)
    decreases names.len() - i, names.len() - j,
{
    if i < 0 || j < 0 || i >= names.len() {
        (names, Seq::empty())
    } else if j >= names.len() {
        rename_pass(names, i + 1, i + 2)
    } else if names[j] == names[i] {
        let (n, r) = rename_pass(names.update(j, names[j].push('_')), i, j + 1);
        (n, seq![j as usize] + r)
    } else {
        rename_pass(names, i, j + 1)
    }
}

/// The characters of each name.
pub open spec fn names_view(v: Seq<String>) -> Seq<Seq<char>> {
    v.map_values(|s: String| s@)
}

/// Run one pass of the name-collision rule (see `rename_pass`) and return the positions
/// renamed. Repeating passes until none is renamed leaves all names different.
pub fn rename_duplicate_names(names: &mut Vec<String>) -> (renamed: Vec<usize>)
    ensures
        (names_view(final(names)@), renamed@) == rename_pass(names_view(old(names)@), 0, 1),
{
    let ghost goal = rename_pass(names_view(names@), 0, 1);
    let mut renamed: Vec<usize> = Vec::new();
    let n = names.len();
    let mut i: usize = 0;
    proof {
        assert(renamed@ + goal.1 =~= goal.1);
    }
    while i < n
        invariant
            n == names@.len(),
            i <= n,
            ({
                let (m, r) = rename_pass(names_view(names@), i as int, i + 1);
                goal == (m, renamed@ + r)
            }),
        decreases n - i,
    {
        let mut j: usize = i + 1;
        while j < n
            invariant
                n == names@.len(),
                i < n,
                i + 1 <= j <= n,
                ({
                    let (m, r) = rename_pass(names_view(names@), i as int, j as int);
                    goal == (m, renamed@ + r)
                }),
            decreases n - j,
        {
            let ghost before = names_view(names@);
            if names[j] == names[i] {
                let mut extended = names[j].clone();
                proof {
                    reveal_strlit("_");
                }
                extended.append("_");
                proof {
                    assert(extended@ =~= before[j as int].push('_'));
                }
                names.set(j, extended);
                proof {
                    assert(names_view(names@) =~= before.update(j as int, before[j as int].push('_')));
                    let (m, r) = rename_pass(names_view(names@), i as int, j + 1);
                    assert(renamed@.push(j) + r =~= renamed@ + (seq![j] + r));
                }
                renamed.push(j);
            }
            j += 1;
        }
        proof {
            let (m, r) = rename_pass(names_view(names@), i as int, j as int);
        }
        i += 1;
    }
    proof {
        assert(renamed@ + Seq::<usize>::empty() =~= renamed@);
    }
    renamed
}

} // verus!
