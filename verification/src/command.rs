//! Command parsing: one newline-delimited frame of bytes becomes a
//! structured command, or a parse error with a precise kind.

use vstd::prelude::*;

verus! {

/// The byte that separates the verb, the key and the value on the wire.
pub const SPACE: u8 = 32;

/// The frame delimiter in the input stream.
pub const NEWLINE: u8 = 10;

/// Index of the first occurrence of `b` in `s`, or `-1` if `b` does not occur.
pub open spec fn find_byte(s: Seq<u8>, b: u8) -> int
    decreases s.len(),
{
    if s.len() == 0 {
        -1
    } else if s[0] == b {
        0
    } else {
        let r = find_byte(s.drop_first(), b);
        if r < 0 {
            -1
        } else {
            r + 1
        }
    }
}

/// `find_byte` returns either `-1` (no occurrence anywhere) or the first
/// index holding `b`.
pub proof fn lemma_find_byte(s: Seq<u8>, b: u8)
    ensures
        find_byte(s, b) == -1 || 0 <= find_byte(s, b) < s.len(),
        find_byte(s, b) >= 0 ==> s[find_byte(s, b)] == b,
        forall|j: int| 0 <= j < find_byte(s, b) ==> s[j] != b,
        find_byte(s, b) == -1 ==> forall|j: int| 0 <= j < s.len() ==> s[j] != b,
    decreases s.len(),
{
    if s.len() == 0 {
    } else if s[0] == b {
    } else {
        let t = s.drop_first();
        lemma_find_byte(t, b);
        assert forall|j: int| 0 <= j < find_byte(s, b) implies s[j] != b by {
            if j > 0 {
                assert(s[j] == t[j - 1]);
            }
        }
        if find_byte(s, b) == -1 {
            assert forall|j: int| 0 <= j < s.len() implies s[j] != b by {
                if j > 0 {
                    assert(s[j] == t[j - 1]);
                }
            }
        }
    }
}

/// If `b` first occurs at index `i`, then `find_byte` returns `i`.
pub proof fn lemma_find_byte_at(s: Seq<u8>, b: u8, i: int)
    requires
        0 <= i < s.len(),
        s[i] == b,
        forall|j: int| 0 <= j < i ==> s[j] != b,
    ensures
        find_byte(s, b) == i,
    decreases s.len(),
{
    if i == 0 {
    } else {
        let t = s.drop_first();
        assert(t[i - 1] == s[i]);
        assert forall|j: int| 0 <= j < i - 1 implies t[j] != b by {
            assert(t[j] == s[j + 1]);
        }
        lemma_find_byte_at(t, b, i - 1);
    }
}

/// If `b` occurs nowhere in `s`, then `find_byte` returns `-1`.
pub proof fn lemma_find_byte_none(s: Seq<u8>, b: u8)
    requires
        forall|j: int| 0 <= j < s.len() ==> s[j] != b,
    ensures
        find_byte(s, b) == -1,
    decreases s.len(),
{
    if s.len() == 0 {
    } else {
        let t = s.drop_first();
        assert forall|j: int| 0 <= j < t.len() implies t[j] != b by {
            assert(t[j] == s[j + 1]);
        }
        lemma_find_byte_none(t, b);
    }
}

/// First occurrence of `b` in `v`, as executable code.
pub fn find_first(v: &Vec<u8>, b: u8) -> (r: Option<usize>)
    ensures
        match r {
            Some(i) => find_byte(v@, b) == i as int,
            None => find_byte(v@, b) == -1,
        },
{
    let mut i: usize = 0;
    while i < v.len()
        invariant
            0 <= i <= v@.len(),
            forall|j: int| 0 <= j < i ==> v@[j] != b,
        decreases v@.len() - i,
    {
        if v[i] == b {
            proof {
                lemma_find_byte_at(v@, b, i as int);
            }
            return Some(i);
        }
        i = i + 1;
    }
    proof {
        lemma_find_byte_none(v@, b);
    }
    None
}

/// Copy of the byte range `[a, b)` of `v`.
pub fn subvec(v: &Vec<u8>, a: usize, b: usize) -> (r: Vec<u8>)
    requires
        a <= b <= v@.len(),
    ensures
        r@ == v@.subrange(a as int, b as int),
{
    let mut r: Vec<u8> = Vec::new();
    let mut i: usize = a;
    assert(r@ =~= v@.subrange(a as int, a as int));
    while i < b
        invariant
            a <= i <= b <= v@.len(),
            r@ == v@.subrange(a as int, i as int),
        decreases b - i,
    {
        r.push(v[i]);
        i = i + 1;
        assert(r@ =~= v@.subrange(a as int, i as int));
    }
    r
}

/// A parsed request: keys and values are arbitrary byte sequences.
#[derive(Debug, PartialEq)]
pub enum Command {
    Get(Vec<u8>),
    Put(Vec<u8>, Vec<u8>),
}

/// The mathematical model of a command.
pub enum CommandSpec {
    Get(Seq<u8>),
    Put(Seq<u8>, Seq<u8>),
}

impl View for Command {
    type V = CommandSpec;

    open spec fn view(&self) -> CommandSpec {
        match self {
            Command::Get(k) => CommandSpec::Get(k@),
            Command::Put(k, v) => CommandSpec::Put(k@, v@),
        }
    }
}

/// Why a frame failed to parse.
#[derive(Debug, Clone, Copy, PartialEq, Eq, Structural)]
pub enum ErrorKind {
    CommandNotFound,
    InvalidKey,
    KeyNotFound,
    ValueNotFound,
}

/// The verb that requests a lookup.
pub open spec fn get_verb() -> Seq<u8> {
    seq![103u8, 101u8, 116u8]
}

/// The verb that requests a write.
pub open spec fn set_verb() -> Seq<u8> {
    seq![115u8, 101u8, 116u8]
}

/// What parsing a frame yields: the verb is the bytes before the first
/// space; `get` takes a single key with no further space; `set` takes a key
/// and then a value that may itself contain spaces.
pub open spec fn parse_spec(s: Seq<u8>) -> Result<CommandSpec, ErrorKind> {
    let i = find_byte(s, SPACE);
    if i < 0 {
        Err(ErrorKind::CommandNotFound)
    } else {
        let verb = s.take(i);
        let rest = s.skip(i + 1);
        if verb == get_verb() {
            if find_byte(rest, SPACE) >= 0 {
                Err(ErrorKind::InvalidKey)
            } else if rest.len() == 0 {
                Err(ErrorKind::KeyNotFound)
            } else {
                Ok(CommandSpec::Get(rest))
            }
        } else if verb == set_verb() {
            let j = find_byte(rest, SPACE);
            if j < 0 {
                Err(ErrorKind::KeyNotFound)
            } else {
                let key = rest.take(j);
                let value = rest.skip(j + 1);
                if key.len() == 0 {
                    Err(ErrorKind::KeyNotFound)
                } else if value.len() == 0 {
                    Err(ErrorKind::ValueNotFound)
                } else {
                    Ok(CommandSpec::Put(key, value))
                }
            }
        } else {
            Err(ErrorKind::CommandNotFound)
        }
    }
}

/// Splitting a pending buffer at its first newline: the frame before it
/// (delimiter excluded) and the bytes kept for the next cycle.
pub open spec fn frame_split(s: Seq<u8>) -> Option<(Seq<u8>, Seq<u8>)> {
    let i = find_byte(s, NEWLINE);
    if i < 0 {
        None
    } else {
        Some((s.take(i), s.skip(i + 1)))
    }
}

/// All frames contained whole in `s`, in order.
pub open spec fn frames_of(s: Seq<u8>) -> Seq<Seq<u8>>
    decreases s.len(),
{
    let i = find_byte(s, NEWLINE);
    if 0 <= i < s.len() {
        seq![s.take(i)] + frames_of(s.skip(i + 1))
    } else {
        Seq::empty()
    }
}

/// The bytes of `s` after its last complete frame.
pub open spec fn residue_of(s: Seq<u8>) -> Seq<u8>
    decreases s.len(),
{
    let i = find_byte(s, NEWLINE);
    if 0 <= i < s.len() {
        residue_of(s.skip(i + 1))
    } else {
        s
    }
}

/// Framing is insensitive to chunk boundaries: a stream delivered as `a`
/// and then `b` yields the frames of `a` followed by the frames of what
/// `a` left pending extended by `b` — exactly the frames of the whole
/// stream `a + b`, with the same final residue.
pub proof fn lemma_framing_chunks(a: Seq<u8>, b: Seq<u8>)
    ensures
        frames_of(a + b) == frames_of(a) + frames_of(residue_of(a) + b),
        residue_of(a + b) == residue_of(residue_of(a) + b),
    decreases a.len(),
{
    lemma_find_byte(a, NEWLINE);
    let i = find_byte(a, NEWLINE);
    if i < 0 {
        assert(frames_of(a) + frames_of(a + b) =~= frames_of(a + b));
    } else {
        assert forall|j: int| 0 <= j < i implies (a + b)[j] != NEWLINE by {
            assert((a + b)[j] == a[j]);
        }
        lemma_find_byte_at(a + b, NEWLINE, i);
        assert((a + b).take(i) =~= a.take(i));
        assert((a + b).skip(i + 1) =~= a.skip(i + 1) + b);
        lemma_framing_chunks(a.skip(i + 1), b);
        assert(frames_of(a + b) =~= frames_of(a) + frames_of(residue_of(a) + b));
    }
}

/// One step of frame extraction agrees with the frames of the whole
/// buffer: the split-off frame is the first of them, and what remains
/// carries the rest.
pub proof fn lemma_frame_split(s: Seq<u8>)
    ensures
        match frame_split(s) {
            Some(fr) => frames_of(s) == seq![fr.0] + frames_of(fr.1) && residue_of(s)
                == residue_of(fr.1),
            None => frames_of(s) == Seq::<Seq<u8>>::empty() && residue_of(s) == s,
        },
{
    lemma_find_byte(s, NEWLINE);
}

/// The frames emitted and the bytes left pending after the chunks are
/// appended one at a time, every whole frame being taken as it appears.
pub open spec fn feed_chunks(chunks: Seq<Seq<u8>>) -> (Seq<Seq<u8>>, Seq<u8>)
    decreases chunks.len(),
{
    if chunks.len() == 0 {
        (Seq::empty(), Seq::empty())
    } else {
        let prev = feed_chunks(chunks.drop_last());
        (
            prev.0 + frames_of(prev.1 + chunks.last()),
            residue_of(prev.1 + chunks.last()),
        )
    }
}

/// The bytes of all chunks, in order.
pub open spec fn concat_chunks(chunks: Seq<Seq<u8>>) -> Seq<u8>
    decreases chunks.len(),
{
    if chunks.len() == 0 {
        Seq::empty()
    } else {
        concat_chunks(chunks.drop_last()) + chunks.last()
    }
}

/// However a stream is cut into chunks — one byte at a time, or several
/// frames in one chunk — feeding the chunks yields exactly the frames of
/// the whole stream, in order, and leaves the same bytes pending.
pub proof fn lemma_framing_chunk_independent(chunks: Seq<Seq<u8>>)
    ensures
        feed_chunks(chunks).0 == frames_of(concat_chunks(chunks)),
        feed_chunks(chunks).1 == residue_of(concat_chunks(chunks)),
    decreases chunks.len(),
{
    if chunks.len() == 0 {
    } else {
        lemma_framing_chunk_independent(chunks.drop_last());
        lemma_framing_chunks(concat_chunks(chunks.drop_last()), chunks.last());
    }
}

/// Buffers a byte stream that arrives in arbitrary chunks and hands out
/// one newline-delimited command frame at a time, parsed. The view is the
/// bytes received but not yet emitted as a frame.
#[derive(Debug)]
pub struct CommandStream {
    rd: Vec<u8>,
}

impl View for CommandStream {
    type V = Seq<u8>;

    closed spec fn view(&self) -> Seq<u8> {
        self.rd@
    }
}

/// What one poll cycle of a `CommandStream` yields.
#[derive(Debug)]
pub enum CommandPoll {
    /// A whole frame was pending; here is its parse.
    Item(Result<Command, ErrorKind>),
    /// The peer closed and no whole frame is pending.
    Closed,
    /// No whole frame is pending and the stream is still open.
    Pending,
}

impl CommandStream {
    /// A stream with nothing buffered yet.
    pub fn new() -> (s: Self)
        ensures
            s@ == Seq::<u8>::empty(),
    {
        CommandStream { rd: Vec::new() }
    }

    /// Append newly arrived bytes; bytes already buffered are never dropped.
    pub fn fill(&mut self, chunk: &Vec<u8>)
        ensures
            final(self)@ == old(self)@ + chunk@,
    {
        let mut i: usize = 0;
        assert(self.rd@ =~= old(self).rd@ + chunk@.take(0));
        while i < chunk.len()
            invariant
                i <= chunk@.len(),
                self.rd@ == old(self).rd@ + chunk@.take(i as int),
            decreases chunk@.len() - i,
        {
            self.rd.push(chunk[i]);
            i = i + 1;
            assert(self.rd@ =~= old(self).rd@ + chunk@.take(i as int));
        }
        assert(chunk@.take(chunk@.len() as int) =~= chunk@);
    }

    /// Emit the first pending frame, delimiter stripped, keeping the rest
    /// of the buffer. The emitted frame never contains a newline.
    pub fn next_frame(&mut self) -> (r: Option<Vec<u8>>)
        ensures
            match frame_split(old(self)@) {
                Some(fr) => r matches Some(f) && f@ == fr.0 && final(self)@ == fr.1
                    && find_byte(f@, NEWLINE) == -1,
                None => r is None && final(self)@ == old(self)@,
            },
    {
        proof {
            lemma_find_byte(self.rd@, NEWLINE);
        }
        match find_first(&self.rd, NEWLINE) {
            None => None,
            Some(i) => {
                let n: usize = self.rd.len();
                let f = subvec(&self.rd, 0, i);
                let rest = subvec(&self.rd, i + 1, n);
                self.rd = rest;
                proof {
                    assert forall|j: int| 0 <= j < f@.len() implies f@[j] != NEWLINE by {
                        assert(f@[j] == old(self).rd@[j]);
                    }
                    lemma_find_byte_none(f@, NEWLINE);
                }
                Some(f)
            },
        }
    }

    /// One poll cycle, after any new bytes were appended with `fill`:
    /// parse and emit the next pending frame; with no frame pending,
    /// report completion if the stream hit end-of-input, else stay pending.
    pub fn poll(&mut self, eof: bool) -> (r: CommandPoll)
        ensures
            match frame_split(old(self)@) {
                Some(fr) => {
                    &&& final(self)@ == fr.1
                    &&& r matches CommandPoll::Item(pr) && (match parse_spec(fr.0) {
                        Ok(c) => pr matches Ok(cmd) && cmd@ == c,
                        Err(e) => pr matches Err(e2) && e2 == e,
                    })
                },
                None => final(self)@ == old(self)@ && (if eof {
                    r is Closed
                } else {
                    r is Pending
                }),
            },
    {
        match self.next_frame() {
            Some(f) => CommandPoll::Item(Command::from(f)),
            None => {
                if eof {
                    CommandPoll::Closed
                } else {
                    CommandPoll::Pending
                }
            },
        }
    }
}

impl Command {
    /// Parse one frame. Every outcome, command or error kind, is pinned by
    /// `parse_spec`.
    pub fn from(bytes: Vec<u8>) -> (r: Result<Command, ErrorKind>)
        ensures
            match parse_spec(bytes@) {
                Ok(c) => r matches Ok(cmd) && cmd@ == c,
                Err(e) => r matches Err(e2) && e2 == e,
            },
    {
        proof {
            lemma_find_byte(bytes@, SPACE);
        }
        let first_space: usize = match find_first(&bytes, SPACE) {
            Some(i) => i,
            None => {
                return Err(ErrorKind::CommandNotFound);
            },
        };
        let n: usize = bytes.len();
        let verb = subvec(&bytes, 0, first_space);
        let rest = subvec(&bytes, first_space + 1, n);
        let is_get = verb.len() == 3 && verb[0] == 103 && verb[1] == 101 && verb[2] == 116;
        let is_set = verb.len() == 3 && verb[0] == 115 && verb[1] == 101 && verb[2] == 116;
        proof {
            if is_get {
                assert(verb@ =~= get_verb());
            } else {
                assert(verb@ != get_verb());
            }
            if is_set {
                assert(verb@ =~= set_verb());
            } else {
                assert(verb@ != set_verb());
            }
        }
        if is_get {
            proof {
                lemma_find_byte(rest@, SPACE);
            }
            match find_first(&rest, SPACE) {
                Some(_) => Err(ErrorKind::InvalidKey),
                None => {
                    if rest.len() == 0 {
                        Err(ErrorKind::KeyNotFound)
                    } else {
                        Ok(Command::Get(rest))
                    }
                },
            }
        } else if is_set {
            proof {
                lemma_find_byte(rest@, SPACE);
            }
            match find_first(&rest, SPACE) {
                None => Err(ErrorKind::KeyNotFound),
                Some(j) => {
                    let key = subvec(&rest, 0, j);
                    let value = subvec(&rest, j + 1, rest.len());
                    if key.len() == 0 {
                        Err(ErrorKind::KeyNotFound)
                    } else if value.len() == 0 {
                        Err(ErrorKind::ValueNotFound)
                    } else {
                        Ok(Command::Put(key, value))
                    }
                },
            }
        } else {
            Err(ErrorKind::CommandNotFound)
        }
    }
}

} // verus!
