//! Splitting a UTF-16LE byte stream into lines.
//!
//! The bytes arrive in chunks of at most [`CHUNK_BYTES`]. Each pair of bytes
//! is one little-endian UTF-16 code unit; a code unit equal to `'\n'` ends a
//! line. Units read past the end of a line wait in the reader's buffer for the
//! next line.
use vstd::prelude::*;

verus! {

/// The code unit of `'\n'`.
pub const NEWLINE: u16 = 10;

/// The most bytes that one chunk of the stream holds.
pub const CHUNK_BYTES: usize = 8192;

/// Whether `u` is the first half of a surrogate pair.
pub open spec fn is_high_surrogate(u: u16) -> bool {
    0xD800 <= u <= 0xDBFF
}

/// Whether `u` is the second half of a surrogate pair.
pub open spec fn is_low_surrogate(u: u16) -> bool {
    0xDC00 <= u <= 0xDFFF
}

/// The characters that UTF-16 code units decode to: a unit outside the
/// surrogate range is the character of that value, a high surrogate followed
/// by a low one is the supplementary character they encode, and every other
/// surrogate unit becomes U+FFFD.
pub open spec fn utf16_lossy(units: Seq<u16>) -> Seq<char>
    decreases units.len(),
{
    if units.len() == 0 {
        Seq::empty()
    } else if units.len() >= 2 && is_high_surrogate(units[0]) && is_low_surrogate(units[1]) {
        let c = 0x10000 + (units[0] - 0xD800) * 0x400 + (units[1] - 0xDC00);
        seq![c as char] + utf16_lossy(units.skip(2))
    } else if is_high_surrogate(units[0]) || is_low_surrogate(units[0]) {
        seq!['\u{fffd}'] + utf16_lossy(units.drop_first())
    } else {
        seq![units[0] as char] + utf16_lossy(units.drop_first())
    }
}

/// Decodes UTF-16 code units into a string.
///
/// Trusted: calls `String::from_utf16_lossy`, which decodes the units as
/// UTF-16 and puts U+FFFD in place of each unpaired surrogate; the contract
/// states that decoding.
#[verifier::external_body]
fn decode_utf16_lossy(units: &[u16]) -> (s: String)
    ensures
        s@ == utf16_lossy(units@),
{
    String::from_utf16_lossy(units)
}

/// The code unit stored in the bytes `lo`, `hi` (little-endian).
pub open spec fn le_unit(lo: u8, hi: u8) -> u16 {
    (hi as int * 256 + lo as int) as u16
}

/// The code units in `bytes`, two bytes each; an odd last byte is ignored.
pub open spec fn le_units(bytes: Seq<u8>) -> Seq<u16> {
    Seq::new(bytes.len() / 2, |i: int| le_unit(bytes[2 * i], bytes[2 * i + 1]))
}

/// The index of the first newline at or after `i`, or the length of `units`
/// when there is none.
pub open spec fn line_end(units: Seq<u16>, i: int) -> int
    decreases units.len() - i,
{
    if 0 <= i < units.len() && units[i] != NEWLINE {
        line_end(units, i + 1)
    } else {
        i
    }
}

/// `line_end` finds the first newline.
pub proof fn lemma_line_end(units: Seq<u16>, i: int)
    requires
        0 <= i <= units.len(),
    ensures
        i <= line_end(units, i) <= units.len(),
        forall|j: int| i <= j < line_end(units, i) ==> units[j] != NEWLINE,
        line_end(units, i) < units.len() ==> units[line_end(units, i)] == NEWLINE,
    decreases units.len() - i,
{
    if i < units.len() && units[i] != NEWLINE {
        lemma_line_end(units, i + 1);
    }
}

/// How one step splits the units of a line: the units of a line completed by
/// the step, with its newline, if the step completes one; the start of the
/// line that is not complete yet; and the units that wait for the next line.
pub struct Split {
    pub line: Option<Seq<u16>>,
    pub partial: Seq<u16>,
    pub pending: Seq<u16>,
}

/// Starting a line from the waiting units: they complete a line at their first
/// newline; without a newline they all become the start of the line (whatever
/// start `partial` held is not kept).
pub open spec fn split_waiting(partial: Seq<u16>, pending: Seq<u16>) -> Split {
    let k = line_end(pending, 0);
    if k < pending.len() {
        Split { line: Some(pending.take(k + 1)), partial: partial, pending: pending.skip(k + 1) }
    } else {
        Split { line: None, partial: pending, pending: Seq::empty() }
    }
}

/// Reading new units after the start of a line `partial`: they complete the
/// line at their first newline, the units after it waiting; without a newline
/// they join the start of the line.
pub open spec fn split_units(partial: Seq<u16>, units: Seq<u16>) -> Split {
    let k = line_end(units, 0);
    if k < units.len() {
        Split {
            line: Some(partial + units.take(k + 1)),
            partial: Seq::empty(),
            pending: units.skip(k + 1),
        }
    } else {
        Split { line: None, partial: partial + units, pending: Seq::empty() }
    }
}

/// A step of reading: starting a line ([`BufReader::begin_line`],
/// [`BufReader::take_line`]), or reading the units of a chunk
/// ([`BufReader::feed`], and [`BufReader::chunk_read`] or
/// [`BufReader::byte_read`] once a chunk of bytes is complete).
pub enum SplitEvent {
    Begin,
    Units(Seq<u16>),
}

/// Where reading stands: the units of all lines completed so far, each with
/// its newline, then the start of the current line and the waiting units.
pub struct Progress {
    pub lines: Seq<u16>,
    pub partial: Seq<u16>,
    pub pending: Seq<u16>,
}

/// The units of a completed line, if any.
pub open spec fn line_units(line: Option<Seq<u16>>) -> Seq<u16> {
    match line {
        Some(l) => l,
        None => Seq::empty(),
    }
}

/// One step of reading.
pub open spec fn advance(p: Progress, e: SplitEvent) -> Progress {
    let t = match e {
        SplitEvent::Begin => split_waiting(p.partial, p.pending),
        SplitEvent::Units(u) => split_units(p.partial, u),
    };
    Progress { lines: p.lines + line_units(t.line), partial: t.partial, pending: t.pending }
}

/// The steps in order.
pub open spec fn advance_all(p: Progress, events: Seq<SplitEvent>) -> Progress
    decreases events.len(),
{
    if events.len() == 0 {
        p
    } else {
        advance_all(advance(p, events[0]), events.drop_first())
    }
}

/// A line is only started once the previous one is complete, and units are
/// only read once no units wait: as the reader is driven while no end of
/// stream is met.
pub open spec fn follows_protocol(p: Progress, events: Seq<SplitEvent>) -> bool
    decreases events.len(),
{
    events.len() == 0 || ({
        &&& match events[0] {
            SplitEvent::Begin => p.partial.len() == 0,
            SplitEvent::Units(_) => p.pending.len() == 0,
        }
        &&& follows_protocol(advance(p, events[0]), events.drop_first())
    })
}

/// The units that a step reads.
pub open spec fn u_first(e: SplitEvent) -> Seq<u16> {
    match e {
        SplitEvent::Begin => Seq::<u16>::empty(),
        SplitEvent::Units(u) => u,
    }
}

/// All units read by the steps, in order.
pub open spec fn units_read(events: Seq<SplitEvent>) -> Seq<u16>
    decreases events.len(),
{
    if events.len() == 0 {
        Seq::empty()
    } else {
        u_first(events[0]) + units_read(events.drop_first())
    }
}

/// Every line completed by a step ends at its first newline.
pub proof fn law_completed_line_ends_at_newline(p: Progress, e: SplitEvent)
    ensures
        match (match e {
            SplitEvent::Begin => split_waiting(p.partial, p.pending),
            SplitEvent::Units(u) => split_units(p.partial, u),
        }).line {
            Some(l) => l.len() > 0 && l.last() == NEWLINE,
            None => true,
        },
{
    match e {
        SplitEvent::Begin => lemma_line_end(p.pending, 0),
        SplitEvent::Units(u) => lemma_line_end(u, 0),
    }
}

/// Reading loses and repeats no unit: the completed lines, the start of the
/// current line and the waiting units are exactly what they were before plus
/// every unit read, in order.
pub proof fn law_reading_conserves_units(p: Progress, events: Seq<SplitEvent>)
    requires
        follows_protocol(p, events),
    ensures
        ({
            let q = advance_all(p, events);
            q.lines + q.partial + q.pending == p.lines + p.partial + p.pending + units_read(events)
        }),
    decreases events.len(),
{
    if events.len() > 0 {
        let e = events[0];
        let p1 = advance(p, e);
        law_reading_conserves_units(p1, events.drop_first());
        match e {
            SplitEvent::Begin => {
                lemma_line_end(p.pending, 0);
                let k = line_end(p.pending, 0);
                if k < p.pending.len() {
                    assert(p.pending.take(k + 1) + p.pending.skip(k + 1) =~= p.pending);
                }
                assert(p1.lines + p1.partial + p1.pending =~= p.lines + p.partial + p.pending);
            },
            SplitEvent::Units(u) => {
                lemma_line_end(u, 0);
                let k = line_end(u, 0);
                if k < u.len() {
                    assert(u.take(k + 1) + u.skip(k + 1) =~= u);
                }
                assert(p1.lines + p1.partial + p1.pending =~= p.lines + p.partial + p.pending + u);
            },
        }
        let rest = units_read(events.drop_first());
        assert(units_read(events) == u_first(e) + rest);
        assert(p.lines + p.partial + p.pending + u_first(e) + rest =~= p.lines + p.partial
            + p.pending + (u_first(e) + rest));
    }
}

/// Splits a stream of UTF-16LE bytes into lines.
pub struct BufReader {
    buf: Vec<u16>,
    r_pos: usize,
    l_pos: usize,
    partial: Vec<u16>,
    held: Vec<u8>,
}

impl BufReader {
    /// The reader's own invariant: the buffer has room for the units of one
    /// chunk, and the waiting units lie within it.
    pub closed spec fn wf(&self) -> bool {
        &&& self.buf@.len() == CHUNK_BYTES / 2
        &&& self.l_pos <= self.r_pos <= self.buf@.len()
    }

    /// The code units read past the end of the last line, waiting for the next.
    pub closed spec fn pending(&self) -> Seq<u16> {
        self.buf@.subrange(self.l_pos as int, self.r_pos as int)
    }

    /// The start of a line whose end has not been read yet.
    pub closed spec fn partial(&self) -> Seq<u16> {
        self.partial@
    }

    /// The bytes of a chunk of odd length, held until one more byte is read.
    pub closed spec fn held(&self) -> Seq<u8> {
        self.held@
    }

    /// A reader with nothing read.
    pub fn new() -> (r: Self)
        ensures
            r.wf(),
            r.pending() == Seq::<u16>::empty(),
            r.partial() == Seq::<u16>::empty(),
            r.held() == Seq::<u8>::empty(),
    {
        let mut buf: Vec<u16> = Vec::new();
        while buf.len() < CHUNK_BYTES / 2
            invariant
                buf@.len() <= CHUNK_BYTES / 2,
            decreases CHUNK_BYTES / 2 - buf@.len(),
        {
            buf.push(0);
        }
        let r = BufReader { buf, r_pos: 0, l_pos: 0, partial: Vec::new(), held: Vec::new() };
        assert(r.pending() =~= Seq::<u16>::empty());
        r
    }

    /// Takes the next line from the waiting code units, without its newline.
    /// When they hold no newline, they become the start of the next line and
    /// `None` is returned: the rest of the line is in the stream.
    pub fn take_line(&mut self) -> (r: Option<String>)
        requires
            old(self).wf(),
        ensures
            final(self).wf(),
            final(self).held() == old(self).held(),
            ({
                let t = split_waiting(old(self).partial(), old(self).pending());
                &&& final(self).partial() == t.partial
                &&& final(self).pending() == t.pending
                &&& match t.line {
                    Some(l) => r matches Some(s) && s@ == utf16_lossy(l.drop_last()),
                    None => r is None,
                }
            }),
    {
        proof {
            lemma_line_end(self.pending(), 0);
        }
        let ghost p = self.pending();
        let ghost l0 = self.l_pos as int;
        let ghost k = line_end(p, 0);
        let mut r: Vec<u16> = Vec::new();
        while self.l_pos < self.r_pos
            invariant
                self.buf@.len() == CHUNK_BYTES / 2,
                0 <= l0 <= self.l_pos <= self.r_pos <= self.buf@.len(),
                p == self.buf@.subrange(l0, self.r_pos as int),
                p == old(self).pending(),
                self.partial@ == old(self).partial(),
                self.held@ == old(self).held(),
                r@ == p.take(self.l_pos - l0),
                self.l_pos - l0 <= k,
                k == line_end(p, 0),
                0 <= k <= p.len(),
                forall|j: int| 0 <= j < k ==> p[j] != NEWLINE,
                k < p.len() ==> p[k] == NEWLINE,
            decreases self.r_pos - self.l_pos,
        {
            let c = self.buf[self.l_pos];
            assert(c == p[self.l_pos - l0]);
            if c == NEWLINE {
                assert(self.l_pos - l0 == k);
                self.l_pos = self.l_pos + 1;
                assert(self.pending() =~= p.skip(k + 1));
                assert(p.take(k + 1).drop_last() =~= p.take(k));
                return Some(decode_utf16_lossy(r.as_slice()));
            }
            r.push(c);
            self.l_pos = self.l_pos + 1;
            assert(r@ =~= p.take(self.l_pos - l0));
        }
        assert(r@ =~= p);
        self.l_pos = 0;
        self.r_pos = 0;
        self.partial = r;
        assert(self.pending() =~= Seq::<u16>::empty());
        None
    }

    /// Reads a chunk of the stream after the waiting units ran out. When the
    /// chunk holds a newline, the line ends there: it is returned with its
    /// newline, and the units after it wait for the next line. Otherwise the
    /// whole chunk joins the start of the line and `None` is returned.
    pub fn feed(&mut self, chunk: &[u8]) -> (r: Option<String>)
        requires
            old(self).wf(),
            old(self).pending().len() == 0,
            chunk@.len() <= CHUNK_BYTES,
        ensures
            final(self).wf(),
            final(self).held() == old(self).held(),
            ({
                let t = split_units(old(self).partial(), le_units(chunk@));
                &&& final(self).partial() == t.partial
                &&& final(self).pending() == t.pending
                &&& match t.line {
                    Some(l) => r matches Some(s) && s@ == utf16_lossy(l),
                    None => r is None,
                }
            }),
    {
        let ghost u = le_units(chunk@);
        let ghost k = line_end(u, 0);
        let ghost old_partial = self.partial@;
        proof {
            lemma_line_end(u, 0);
        }
        let n = chunk.len();
        let mut r: Vec<u16> = Vec::new();
        std::mem::swap(&mut r, &mut self.partial);
        self.l_pos = 0;
        self.r_pos = 0;
        let mut found = false;
        let mut pos: usize = 2;
        let mut i: usize = 0;
        while pos <= n
            invariant
                n == chunk@.len() <= CHUNK_BYTES,
                u == le_units(chunk@),
                u.len() == n / 2,
                k == line_end(u, 0),
                0 <= k <= u.len(),
                forall|j: int| 0 <= j < k ==> u[j] != NEWLINE,
                k < u.len() ==> u[k] == NEWLINE,
                pos == 2 * i + 2,
                i <= u.len(),
                self.buf@.len() == CHUNK_BYTES / 2,
                self.l_pos == 0,
                self.partial@ == Seq::<u16>::empty(),
                self.held@ == old(self).held(),
                !found ==> i <= k && r@ == old_partial + u.take(i as int) && self.r_pos == 0,
                found ==> k < i && r@ == old_partial + u.take(k + 1) && self.r_pos == i - (k + 1)
                    && self.buf@.subrange(0, self.r_pos as int) == u.subrange(k + 1, i as int),
            decreases n + 2 - pos,
        {
            let lo = chunk[pos - 2];
            let hi = chunk[pos - 1];
            let c = ((hi as u16) << 8) | (lo as u16);
            assert(c == (hi as int * 256 + lo as int)) by (bit_vector)
                requires
                    c == ((hi as u16) << 8) | (lo as u16),
            ;
            assert(c == u[i as int]);
            if found {
                self.buf.set(self.r_pos, c);
                self.r_pos = self.r_pos + 1;
                assert(self.buf@.subrange(0, self.r_pos as int) =~= u.subrange(k + 1, i + 1));
            } else {
                r.push(c);
                if c == NEWLINE {
                    found = true;
                    assert(i == k);
                }
                assert(r@ =~= old_partial + u.take(i + 1));
            }
            pos = pos + 2;
            i = i + 1;
        }
        if found {
            assert(self.pending() =~= u.skip(k + 1));
            Some(decode_utf16_lossy(r.as_slice()))
        } else {
            assert(u.take(i as int) =~= u);
            self.partial = r;
            assert(self.pending() =~= Seq::<u16>::empty());
            None
        }
    }
}

/// What reading a line asks for next.
#[derive(Debug, PartialEq, Eq)]
pub enum ReadStep {
    /// The line is complete.
    Line(String),
    /// The stream has ended before the line did.
    EndOfStream,
    /// Read the next chunk of at most [`CHUNK_BYTES`] bytes.
    ReadChunk,
    /// Read one more byte: the last chunk had an odd number of bytes.
    ReadOneByte,
}

/// What reading the bytes `bytes` after the start of a line `partial` gives,
/// as [`split_units`] says: the line it completes, or a request for the next
/// chunk.
pub open spec fn after_bytes(
    partial: Seq<u16>,
    bytes: Seq<u8>,
    s: ReadStep,
    pending: Seq<u16>,
    new_partial: Seq<u16>,
) -> bool {
    let t = split_units(partial, le_units(bytes));
    &&& new_partial == t.partial
    &&& pending == t.pending
    &&& match t.line {
        Some(l) => s matches ReadStep::Line(x) && x@ == utf16_lossy(l),
        None => s == ReadStep::ReadChunk,
    }
}

impl BufReader {
    /// Starts reading a line: a line already waiting is complete; otherwise the
    /// waiting units start the line and the next chunk is asked for.
    pub fn begin_line(&mut self) -> (s: ReadStep)
        requires
            old(self).wf(),
        ensures
            final(self).wf(),
            final(self).held() == old(self).held(),
            ({
                let t = split_waiting(old(self).partial(), old(self).pending());
                &&& final(self).partial() == t.partial
                &&& final(self).pending() == t.pending
                &&& match t.line {
                    Some(l) => s matches ReadStep::Line(x) && x@ == utf16_lossy(l.drop_last()),
                    None => s == ReadStep::ReadChunk,
                }
            }),
    {
        match self.take_line() {
            Some(l) => ReadStep::Line(l),
            None => ReadStep::ReadChunk,
        }
    }

    /// Takes a chunk read from the stream. An empty chunk is the end of the
    /// stream. A chunk of odd length is held until one more byte is read.
    /// Otherwise its bytes are read as [`BufReader::feed`] reads them.
    pub fn chunk_read(&mut self, chunk: &[u8]) -> (s: ReadStep)
        requires
            old(self).wf(),
            old(self).pending().len() == 0,
            chunk@.len() <= CHUNK_BYTES,
        ensures
            final(self).wf(),
            chunk@.len() == 0 ==> {
                &&& s == ReadStep::EndOfStream
                &&& final(self).pending() == old(self).pending()
                &&& final(self).partial() == old(self).partial()
                &&& final(self).held() == old(self).held()
            },
            chunk@.len() % 2 == 1 ==> {
                &&& s == ReadStep::ReadOneByte
                &&& final(self).held() == chunk@
                &&& final(self).pending() == old(self).pending()
                &&& final(self).partial() == old(self).partial()
            },
            chunk@.len() > 0 && chunk@.len() % 2 == 0 ==> {
                &&& after_bytes(
                    old(self).partial(),
                    chunk@,
                    s,
                    final(self).pending(),
                    final(self).partial(),
                )
                &&& final(self).held() == old(self).held()
            },
    {
        let n = chunk.len();
        if n == 0 {
            ReadStep::EndOfStream
        } else if n % 2 == 1 {
            let mut bytes: Vec<u8> = Vec::new();
            let mut i: usize = 0;
            while i < n
                invariant
                    n == chunk@.len(),
                    i <= n,
                    bytes@ == chunk@.take(i as int),
                decreases n - i,
            {
                bytes.push(chunk[i]);
                assert(chunk@.take(i + 1) =~= chunk@.take(i as int).push(chunk@[i as int]));
                i += 1;
            }
            assert(chunk@.take(n as int) =~= chunk@);
            self.held = bytes;
            ReadStep::ReadOneByte
        } else {
            match self.feed(chunk) {
                Some(l) => ReadStep::Line(l),
                None => ReadStep::ReadChunk,
            }
        }
    }

    /// Takes the one more byte read after a chunk of odd length, or `None` when
    /// that read found nothing. The held chunk, with the byte if there is one,
    /// is then read as [`BufReader::feed`] reads it.
    pub fn byte_read(&mut self, byte: Option<u8>) -> (s: ReadStep)
        requires
            old(self).wf(),
            old(self).pending().len() == 0,
            old(self).held().len() % 2 == 1,
            old(self).held().len() <= CHUNK_BYTES,
        ensures
            final(self).wf(),
            final(self).held() == Seq::<u8>::empty(),
            after_bytes(
                old(self).partial(),
                match byte {
                    Some(b) => old(self).held().push(b),
                    None => old(self).held(),
                },
                s,
                final(self).pending(),
                final(self).partial(),
            ),
    {
        let mut bytes: Vec<u8> = Vec::new();
        std::mem::swap(&mut bytes, &mut self.held);
        if let Some(b) = byte {
            bytes.push(b);
        }
        match self.feed(bytes.as_slice()) {
            Some(l) => ReadStep::Line(l),
            None => ReadStep::ReadChunk,
        }
    }
}

} // verus!
