//! Input sources: the messages they send, the splitting of a byte stream into
//! lines, and the pseudo-random generator behind the demo signals.

use std::time::Instant;
use vstd::prelude::*;

use crate::text::push_char;

verus! {

#[verifier::external_type_specification]
#[verifier::external_body]
pub struct ExInstant(Instant);

pub enum Msg {
    /// A line of text and the moment it arrived.
    Line(Instant, String),
    Eof,
    Error(String),
}

/// Line endings: `\n` and `\r`.
pub open spec fn is_line_end(b: u8) -> bool {
    b == 10 || b == 13
}

/// The lines completed so far and the line being read, after the bytes `s`.
/// A line ends at `\n` or `\r`; empty lines (such as the middle of `\r\n`) are dropped.
pub open spec fn line_state(s: Seq<u8>) -> (Seq<Seq<u8>>, Seq<u8>)
    decreases s.len(),
{
    if s.len() == 0 {
        (Seq::empty(), Seq::empty())
    } else {
        let (done, cur) = line_state(s.drop_last());
        let b = s.last();
        if is_line_end(b) {
            (
                if cur.len() > 0 {
                    done.push(cur)
                } else {
                    done
                },
                Seq::empty(),
            )
        } else {
            (done, cur.push(b))
        }
    }
}

/// All the lines of a finished stream: a last line without an ending counts.
pub open spec fn stream_lines(s: Seq<u8>) -> Seq<Seq<u8>> {
    let (done, cur) = line_state(s);
    if cur.len() > 0 {
        done.push(cur)
    } else {
        done
    }
}

/// The text `String::from_utf8_lossy` makes of some bytes.
pub uninterp spec fn utf8_lossy(b: Seq<u8>) -> Seq<char>;

/// Calls `String::from_utf8_lossy`, which decodes UTF-8 and puts U+FFFD in place
/// of invalid sequences; only valid input is described beyond the name.
#[verifier::external_body]
fn lossy(bytes: &[u8]) -> (s: String)
    ensures
        s@ == utf8_lossy(bytes@),
        vstd::utf8::valid_utf8(bytes@) ==> s@ == vstd::utf8::decode_utf8(bytes@),
{
    String::from_utf8_lossy(bytes).into_owned()
}

pub open spec fn lossy_lines(lines: Seq<Seq<u8>>) -> Seq<Seq<char>> {
    lines.map_values(|l: Seq<u8>| utf8_lossy(l))
}

pub open spec fn string_views(s: Seq<String>) -> Seq<Seq<char>> {
    s.map_values(|x: String| x@)
}

/// Splits a byte stream that arrives in pieces into lines of text.
pub struct LineSplitter {
    pending: Vec<u8>,
    /// Every byte fed so far.
    seen: Ghost<Seq<u8>>,
    /// Every line handed out so far.
    done: Ghost<Seq<Seq<u8>>>,
}

impl LineSplitter {
    pub closed spec fn seen(&self) -> Seq<u8> {
        self.seen@
    }

    /// The lines handed out so far, as bytes.
    pub closed spec fn emitted(&self) -> Seq<Seq<u8>> {
        self.done@
    }

    pub closed spec fn wf(&self) -> bool {
        line_state(self.seen@) == (self.done@, self.pending@)
    }

    pub fn new() -> (r: Self)
        ensures
            r.wf(),
            r.seen() == Seq::<u8>::empty(),
            r.emitted() == Seq::<Seq<u8>>::empty(),
    {
        LineSplitter { pending: Vec::new(), seen: Ghost(Seq::empty()), done: Ghost(Seq::empty()) }
    }

    /// Feeds the next bytes of the stream; returns the lines they complete.
    pub fn feed(&mut self, chunk: &[u8]) -> (lines: Vec<String>)
        requires
            old(self).wf(),
        ensures
            final(self).wf(),
            final(self).seen() == old(self).seen() + chunk@,
            final(self).emitted().len() == old(self).emitted().len() + lines@.len(),
            final(self).emitted().take(old(self).emitted().len() as int) == old(self).emitted(),
            string_views(lines@) == lossy_lines(
                final(self).emitted().skip(old(self).emitted().len() as int),
            ),
    {
        let mut out: Vec<String> = Vec::new();
        let ghost start_seen = self.seen@;
        let ghost start_done = self.done@;
        let mut i: usize = 0;
        while i < chunk.len()
            invariant
                i <= chunk@.len(),
                self.seen@ == start_seen + chunk@.take(i as int),
                line_state(self.seen@) == (self.done@, self.pending@),
                self.done@.len() == start_done.len() + out@.len(),
                self.done@.take(start_done.len() as int) == start_done,
                string_views(out@) == lossy_lines(self.done@.skip(start_done.len() as int)),
            decreases chunk.len() - i,
        {
            let b = chunk[i];
            let ghost prev_seen = self.seen@;
            let ghost prev_done = self.done@;
            proof {
                self.seen@ = self.seen@.push(b);
                assert(start_seen + chunk@.take(i + 1) =~= self.seen@);
                assert(self.seen@.drop_last() =~= prev_seen);
            }
            if b == 10 || b == 13 {
                if self.pending.len() > 0 {
                    let line = lossy(self.pending.as_slice());
                    let ghost p = self.pending@;
                    let ghost old_out = out@;
                    out.push(line);
                    proof {
                        self.done@ = self.done@.push(p);
                        assert(self.done@.take(start_done.len() as int) =~= start_done);
                        assert(self.done@.skip(start_done.len() as int) =~= prev_done.skip(
                            start_done.len() as int,
                        ).push(p));
                        assert(string_views(out@) =~= string_views(old_out).push(line@));
                        assert(lossy_lines(prev_done.skip(start_done.len() as int).push(p))
                            =~= lossy_lines(prev_done.skip(start_done.len() as int)).push(
                            utf8_lossy(p),
                        ));
                    }
                    self.pending = Vec::new();
                }
            } else {
                self.pending.push(b);
            }
            i = i + 1;
        }
        assert(chunk@.take(chunk@.len() as int) =~= chunk@);
        out
    }

    /// The stream has ended: the last line, if it did not end with a line ending.
    pub fn finish(&self) -> (last: Option<String>)
        requires
            self.wf(),
        ensures
            match last {
                Some(s) => stream_lines(self.seen()) == self.emitted().push(
                    stream_lines(self.seen()).last(),
                ) && s@ == utf8_lossy(stream_lines(self.seen()).last()),
                None => stream_lines(self.seen()) == self.emitted(),
            },
    {
        if self.pending.len() > 0 {
            Some(lossy(self.pending.as_slice()))
        } else {
            None
        }
    }
}

/// The state after more bytes depends on the bytes before only through the
/// state they left.
proof fn lemma_state_append(a: Seq<u8>, b: Seq<u8>, y: Seq<u8>)
    requires
        line_state(a) == line_state(b),
    ensures
        line_state(a + y) == line_state(b + y),
    decreases y.len(),
{
    if y.len() > 0 {
        lemma_state_append(a, b, y.drop_last());
        assert((a + y).drop_last() =~= a + y.drop_last());
        assert((b + y).drop_last() =~= b + y.drop_last());
        assert((a + y).last() == y.last());
        assert((b + y).last() == y.last());
    }
}

/// A line may end in `\n`, `\r\n` or a bare `\r`: all three give the same lines.
pub proof fn lemma_line_endings(a: Seq<u8>, b: Seq<u8>)
    ensures
        stream_lines(a + seq![13u8, 10u8] + b) == stream_lines(a + seq![10u8] + b),
        stream_lines(a + seq![13u8] + b) == stream_lines(a + seq![10u8] + b),
{
    let crlf = a + seq![13u8, 10u8];
    let cr = a + seq![13u8];
    let lf = a + seq![10u8];
    assert(crlf.drop_last() =~= cr);
    assert(cr.drop_last() =~= a);
    assert(lf.drop_last() =~= a);
    assert(line_state(cr) == line_state(lf));
    assert(line_state(cr).1.len() == 0);
    assert(line_state(crlf) == line_state(cr));
    lemma_state_append(crlf, lf, b);
    lemma_state_append(cr, lf, b);
}

/// The lines handed out depend only on the bytes fed, not on how they were
/// split into chunks.
pub proof fn lemma_chunking(a: &LineSplitter, b: &LineSplitter)
    requires
        a.wf(),
        b.wf(),
        a.seen() == b.seen(),
    ensures
        a.emitted() == b.emitted(),
{
}

/// Every line of a stream is non-empty and holds no line ending.
pub proof fn lemma_lines_are_clean(s: Seq<u8>)
    ensures
        forall|i: int|
            0 <= i < stream_lines(s).len() ==> {
                &&& (#[trigger] stream_lines(s)[i]).len() > 0
                &&& forall|j: int|
                    0 <= j < stream_lines(s)[i].len() ==> !is_line_end(stream_lines(s)[i][j])
            },
{
    lemma_state_clean(s);
}

proof fn lemma_state_clean(s: Seq<u8>)
    ensures
        forall|i: int|
            0 <= i < line_state(s).0.len() ==> {
                &&& (#[trigger] line_state(s).0[i]).len() > 0
                &&& forall|j: int|
                    0 <= j < line_state(s).0[i].len() ==> !is_line_end(line_state(s).0[i][j])
            },
        forall|j: int| 0 <= j < line_state(s).1.len() ==> !is_line_end(line_state(s).1[j]),
    decreases s.len(),
{
    if s.len() > 0 {
        lemma_state_clean(s.drop_last());
        let (d, c) = line_state(s.drop_last());
        let b = s.last();
        if is_line_end(b) {
            if c.len() > 0 {
                let nd = d.push(c);
                assert forall|i: int| 0 <= i < nd.len() implies {
                    &&& (#[trigger] nd[i]).len() > 0
                    &&& forall|j: int| 0 <= j < nd[i].len() ==> !is_line_end(nd[i][j])
                } by {
                    if i < d.len() {
                        assert(nd[i] == d[i]);
                    }
                }
            }
        } else {
            let nc = c.push(b);
            assert forall|j: int| 0 <= j < nc.len() implies !is_line_end(nc[j]) by {
                if j < c.len() {
                    assert(nc[j] == c[j]);
                }
            }
        }
    }
}

/// Command output is one sample: its line endings become spaces.
pub fn one_line(text: &str) -> (s: String)
    ensures
        s@.len() == text@.len(),
        forall|i: int|
            0 <= i < text@.len() ==> #[trigger] s@[i] == if text@[i] == '\n' || text@[i] == '\r' {
                ' '
            } else {
                text@[i]
            },
{
    let v = crate::text::chars_of(text);
    let mut s = String::new();
    let mut i: usize = 0;
    while i < v.len()
        invariant
            i <= v.len(),
            v@ == text@,
            s@.len() == i,
            forall|k: int|
                0 <= k < i ==> #[trigger] s@[k] == if v@[k] == '\n' || v@[k] == '\r' {
                    ' '
                } else {
                    v@[k]
                },
        decreases v.len() - i,
    {
        let c = v[i];
        push_char(&mut s, if c == '\n' || c == '\r' { ' ' } else { c });
        i = i + 1;
    }
    s
}

/// xorshift64*: plenty for demo noise.
pub struct Rng {
    state: u64,
}

/// One xorshift step of the state.
pub open spec fn xorshift(x: u64) -> u64 {
    let a = x ^ (x >> 12u64);
    let b = a ^ (a << 25u64);
    b ^ (b >> 27u64)
}

impl Rng {
    pub closed spec fn state(&self) -> u64 {
        self.state
    }

    /// A generator seeded from the clock's nanoseconds; the state is never zero.
    pub fn seeded(nanos: u64) -> (r: Rng)
        ensures
            r.state() == nanos | 1,
            r.state() != 0,
    {
        assert(nanos | 1 != 0) by (bit_vector);
        Rng { state: nanos | 1 }
    }

    /// The next 53 random bits: `uniform` divides them by `2^53`.
    pub fn next_bits(&mut self) -> (r: u64)
        ensures
            final(self).state() == xorshift(old(self).state()),
            r == xorshift(old(self).state()).wrapping_mul(0x2545_F491_4F6C_DD1D) >> 11u64,
            r < 0x20_0000_0000_0000u64,
    {
        let mut x = self.state;
        x = x ^ (x >> 12u64);
        x = x ^ (x << 25u64);
        x = x ^ (x >> 27u64);
        self.state = x;
        let m = x.wrapping_mul(0x2545_F491_4F6C_DD1D);
        let r = m >> 11u64;
        assert(m >> 11u64 < 0x20_0000_0000_0000u64) by (bit_vector);
        r
    }
}

} // verus!
