//! Cuts a stream of bytes into lines of bounded length.
//!
//! The stream comes in chunks, as a buffered reader hands them out. Where the
//! chunks end makes no difference to the lines.

use vstd::prelude::*;

use crate::fault::Fault;

verus! {

/// Calls `std::str::from_utf8` of std and copies the text: there is one exactly
/// when the bytes are valid UTF-8, and they are its encoding.
#[verifier::external_body]
fn decode(bytes: &[u8]) -> (text: Option<String>)
    ensures
        match text {
            Some(text) => vstd::utf8::valid_utf8(bytes@) && text@ == vstd::utf8::decode_utf8(
                bytes@,
            ),
            None => !vstd::utf8::valid_utf8(bytes@),
        },
{
    std::str::from_utf8(bytes).ok().map(|text| text.to_string())
}

/// What one attempt to fill the buffer brought.
pub enum Fill<'a> {
    /// Bytes that have not been consumed yet; none at the end of the stream.
    Chunk(&'a [u8]),
    /// The attempt was interrupted: nothing was read, ask again.
    Interrupted,
    /// The stream cannot be read, for this reason.
    Failed(Fault),
}

/// What became of a line.
pub enum LineOutcome {
    /// The whole line, with its newline unless the stream ended without one.
    Line(Vec<u8>),
    /// The stream has ended.
    Eof,
    /// The line was longer than the bound and has been dropped.
    TooLong,
    /// The stream cannot be read, for this reason.
    Io(Fault),
}

/// Whether `at` is the position of the first newline in `bytes`.
pub open spec fn first_newline(bytes: Seq<u8>, at: int) -> bool {
    &&& 0 <= at < bytes.len()
    &&& bytes[at] == 10
    &&& forall|i: int| 0 <= i < at ==> bytes[i] != 10
}

/// Whether `bytes` hold no newline.
pub open spec fn no_newline(bytes: Seq<u8>) -> bool {
    forall|i: int| 0 <= i < bytes.len() ==> bytes[i] != 10
}

/// The lines that end within `bytes` when `seen` is the start of the first of
/// them, each with its newline, and the start of the line that does not end.
pub open spec fn drained(seen: Seq<u8>, bytes: Seq<u8>) -> (Seq<Seq<u8>>, Seq<u8>)
    decreases bytes.len(),
{
    if bytes.len() == 0 {
        (Seq::empty(), seen)
    } else if bytes[0] == 10 {
        let rest = drained(Seq::empty(), bytes.skip(1));
        (seq![seen.push(bytes[0])] + rest.0, rest.1)
    } else {
        drained(seen.push(bytes[0]), bytes.skip(1))
    }
}

/// Where a stream is cut into chunks makes no difference: the lines of two
/// chunks are those of the first, followed by those of the second begun with
/// what the first left over.
pub proof fn chunks_do_not_matter(seen: Seq<u8>, a: Seq<u8>, b: Seq<u8>)
    ensures
        drained(seen, a + b).0 == drained(seen, a).0 + drained(drained(seen, a).1, b).0,
        drained(seen, a + b).1 == drained(drained(seen, a).1, b).1,
    decreases a.len(),
{
    if a.len() == 0 {
        assert(a + b =~= b);
        assert(drained(seen, a).0 + drained(seen, b).0 =~= drained(seen, b).0);
    } else {
        assert((a + b).skip(1) =~= a.skip(1) + b);
        if a[0] == 10 {
            chunks_do_not_matter(Seq::empty(), a.skip(1), b);
            let line = seq![seen.push(a[0])];
            let rest = drained(Seq::empty(), a.skip(1));
            assert(line + (rest.0 + drained(rest.1, b).0) =~= (line + rest.0) + drained(
                rest.1,
                b,
            ).0);
        } else {
            chunks_do_not_matter(seen.push(a[0]), a.skip(1), b);
        }
    }
}

/// No byte is lost or made up: the lines and what is left over, put together,
/// are what was read.
pub proof fn no_byte_is_lost(seen: Seq<u8>, bytes: Seq<u8>)
    ensures
        drained(seen, bytes).0.flatten() + drained(seen, bytes).1 == seen + bytes,
    decreases bytes.len(),
{
    broadcast use Seq::lemma_flatten_push;

    if bytes.len() == 0 {
        assert(Seq::<Seq<u8>>::empty().flatten() + seen =~= seen + bytes);
    } else if bytes[0] == 10 {
        no_byte_is_lost(Seq::empty(), bytes.skip(1));
        let rest = drained(Seq::empty(), bytes.skip(1));
        let line = seen.push(bytes[0]);
        let all = seq![line] + rest.0;
        assert(all.drop_first() =~= rest.0);
        assert(all.flatten() == line + rest.0.flatten());
        assert((line + rest.0.flatten()) + rest.1 =~= line + (rest.0.flatten() + rest.1));
        assert(line + (Seq::<u8>::empty() + bytes.skip(1)) =~= seen + bytes);
    } else {
        no_byte_is_lost(seen.push(bytes[0]), bytes.skip(1));
        assert(seen.push(bytes[0]) + bytes.skip(1) =~= seen + bytes);
    }
}

proof fn lemma_drained_without_newline(seen: Seq<u8>, bytes: Seq<u8>)
    requires
        no_newline(bytes),
    ensures
        drained(seen, bytes) == (Seq::<Seq<u8>>::empty(), seen + bytes),
    decreases bytes.len(),
{
    if bytes.len() > 0 {
        lemma_drained_without_newline(seen.push(bytes[0]), bytes.skip(1));
        assert(seen.push(bytes[0]) + bytes.skip(1) =~= seen + bytes);
    } else {
        assert(seen + bytes =~= seen);
    }
}

proof fn lemma_drained_one_line(seen: Seq<u8>, bytes: Seq<u8>)
    requires
        bytes.len() > 0,
        first_newline(bytes, bytes.len() - 1),
    ensures
        drained(seen, bytes) == (seq![seen + bytes], Seq::<u8>::empty()),
    decreases bytes.len(),
{
    if bytes.len() == 1 {
        assert(bytes.skip(1) =~= Seq::empty());
        assert(drained(Seq::<u8>::empty(), bytes.skip(1)) == (
            Seq::<Seq<u8>>::empty(),
            Seq::<u8>::empty(),
        ));
        assert(seen.push(bytes[0]) =~= seen + bytes);
        assert(seq![seen.push(bytes[0])] + Seq::<Seq<u8>>::empty() =~= seq![seen + bytes]);
    } else {
        let rest = bytes.skip(1);
        assert(first_newline(rest, rest.len() - 1));
        lemma_drained_one_line(seen.push(bytes[0]), rest);
        assert(seen.push(bytes[0]) + rest =~= seen + bytes);
    }
}

/// The line that is being read.
pub struct LineReader {
    held: Vec<u8>,
    over: bool,
    started: bool,
    cap: usize,
    seen: Ghost<Seq<u8>>,
}

impl LineReader {
    /// The bytes of the current line that have been consumed so far.
    pub closed spec fn seen(self) -> Seq<u8> {
        self.seen@
    }

    /// The most bytes that a line may have, its newline among them.
    pub closed spec fn cap(self) -> usize {
        self.cap
    }

    /// What is held is the line so far, or nothing once it is too long.
    pub closed spec fn well_formed(self) -> bool {
        &&& self.started == (self.seen@.len() > 0)
        &&& self.over == (self.seen@.len() > self.cap)
        &&& !self.over ==> self.held@ == self.seen@
        &&& self.over ==> self.held@.len() == 0
    }

    /// A reader at the start of a line.
    pub fn new(cap: usize) -> (reader: LineReader)
        ensures
            reader.well_formed(),
            reader.seen() == Seq::<u8>::empty(),
            reader.cap() == cap,
    {
        LineReader {
            held: Vec::new(),
            over: false,
            started: false,
            cap,
            seen: Ghost(Seq::empty()),
        }
    }
}

/// What becomes of a line that has been read to its end.
pub open spec fn ended(line: Seq<u8>, cap: usize, outcome: LineOutcome) -> bool {
    if line.len() > cap {
        outcome is TooLong
    } else {
        outcome matches LineOutcome::Line(bytes) && bytes@ == line
    }
}

impl LineReader {
    /// Takes in what one attempt to fill the buffer brought. Returns how many
    /// bytes of the chunk are used up and, once the line has ended, what became
    /// of it; the reader is then at the start of the next line.
    pub fn read_bounded_line(&mut self, fill: Fill<'_>) -> (step: (usize, Option<LineOutcome>))
        requires
            old(self).well_formed(),
        ensures
            final(self).well_formed(),
            final(self).cap() == old(self).cap(),
            (fill matches Fill::Chunk(chunk) && chunk@.len() > 0) ==> {
                let lines = drained(old(self).seen(), (fill->Chunk_0)@.take(step.0 as int));
                &&& lines.0.len() == (if step.1 is Some { 1nat } else { 0nat })
                &&& lines.1 == final(self).seen()
                &&& step.1 matches Some(outcome) ==> ended(lines.0[0], old(self).cap(), outcome)
            },
            match fill {
                Fill::Chunk(chunk) => if chunk@.len() == 0 {
                    &&& step.0 == 0
                    &&& final(self).seen() == Seq::<u8>::empty()
                    &&& step.1 matches Some(outcome)
                    &&& if old(self).seen().len() == 0 {
                        outcome is Eof
                    } else {
                        ended(old(self).seen(), old(self).cap(), outcome)
                    }
                } else if no_newline(chunk@) {
                    &&& step.0 == chunk@.len()
                    &&& step.1 is None
                    &&& final(self).seen() == old(self).seen() + chunk@
                } else {
                    &&& 0 < step.0 <= chunk@.len()
                    &&& first_newline(chunk@, step.0 - 1)
                    &&& final(self).seen() == Seq::<u8>::empty()
                    &&& step.1 matches Some(outcome)
                    &&& ended(
                        old(self).seen() + chunk@.take(step.0 as int),
                        old(self).cap(),
                        outcome,
                    )
                },
                Fill::Interrupted => {
                    &&& step.0 == 0
                    &&& step.1 is None
                    &&& final(self).seen() == old(self).seen()
                },
                Fill::Failed(fault) => {
                    &&& step.0 == 0
                    &&& step.1 == Some(LineOutcome::Io(fault))
                    &&& final(self).seen() == old(self).seen()
                },
            },
    {
        let chunk = match fill {
            Fill::Interrupted => {
                return (0, None);
            },
            Fill::Failed(fault) => {
                return (0, Some(LineOutcome::Io(fault)));
            },
            Fill::Chunk(chunk) => chunk,
        };
        if chunk.len() == 0 {
            if !self.started {
                assert(self.seen@ =~= Seq::empty());
                return (0, Some(LineOutcome::Eof));
            }
            let outcome = self.end_line();
            return (0, Some(outcome));
        }
        let mut take: usize = 0;
        let mut done: bool = false;
        while take < chunk.len() && !done
            invariant
                take <= chunk.len(),
                done ==> take > 0 && first_newline(chunk@, take - 1),
                !done ==> forall|i: int| 0 <= i < take ==> chunk@[i] != 10,
            decreases chunk.len() - take,
        {
            if chunk[take] == 10 {
                done = true;
            }
            take = take + 1;
        }
        let taken = vstd::slice::slice_subrange(chunk, 0, take);
        let ghost line = self.seen@ + taken@;
        if !self.over {
            if self.held.len() > self.cap || self.cap - self.held.len() < take {
                self.over = true;
                self.held.clear();
            } else {
                self.held.extend_from_slice(taken);
                assert(self.held@ =~= line);
            }
        }
        self.started = true;
        self.seen = Ghost(line);
        if done {
            proof {
                assert(first_newline(taken@, taken@.len() - 1));
                lemma_drained_one_line(old(self).seen(), taken@);
                assert(taken@ =~= chunk@.take(take as int));
            }
            let outcome = self.end_line();
            (take, Some(outcome))
        } else {
            proof {
                assert(taken@ =~= chunk@);
                assert(chunk@.take(take as int) =~= chunk@);
                lemma_drained_without_newline(old(self).seen(), chunk@);
            }
            (take, None)
        }
    }

    fn end_line(&mut self) -> (outcome: LineOutcome)
        requires
            old(self).well_formed(),
        ensures
            final(self).well_formed(),
            final(self).cap() == old(self).cap(),
            final(self).seen() == Seq::<u8>::empty(),
            ended(old(self).seen(), old(self).cap(), outcome),
    {
        let mut held: Vec<u8> = Vec::new();
        std::mem::swap(&mut held, &mut self.held);
        let outcome = if self.over {
            LineOutcome::TooLong
        } else {
            LineOutcome::Line(held)
        };
        self.over = false;
        self.started = false;
        self.seen = Ghost(Seq::empty());
        outcome
    }
}

/// Per-line bound of the journal reader, in bytes. A longer record is dropped
/// as it goes by instead of being held.
pub const MAX_LINE_BYTES: usize = 33_554_432;

/// What one attempt to read on brought.
pub enum Pulled {
    /// No line is complete yet, or one was dropped.
    More,
    /// A line of text.
    Line(String),
    /// The stream cannot be read, for this reason. Nothing more will come.
    Failed(Fault),
    /// The stream has ended.
    End,
}

/// The lines of a stream that are valid UTF-8 and within the bound.
pub struct BoundedLines {
    reader: LineReader,
    done: bool,
}

impl BoundedLines {
    /// The start of the line that is being read.
    pub closed spec fn seen(self) -> Seq<u8> {
        self.reader.seen()
    }

    /// Whether the stream has ended or failed.
    pub closed spec fn done(self) -> bool {
        self.done
    }

    /// Whether the reader inside is in order.
    pub closed spec fn well_formed(self) -> bool {
        self.reader.well_formed() && self.reader.cap() == MAX_LINE_BYTES
    }
}

/// The reader of a stream that has not been touched yet.
pub fn bounded_lines() -> (lines: BoundedLines)
    ensures
        lines.well_formed(),
        !lines.done(),
        lines.seen() == Seq::<u8>::empty(),
{
    BoundedLines { reader: LineReader::new(MAX_LINE_BYTES), done: false }
}

/// What a whole line is worth: its text, or nothing where it is over the bound
/// or not UTF-8.
pub open spec fn line_text(line: Seq<u8>) -> Option<Seq<char>> {
    if line.len() <= MAX_LINE_BYTES && vstd::utf8::valid_utf8(line) {
        Some(vstd::utf8::decode_utf8(line))
    } else {
        None
    }
}

/// Whether `pulled` is what a whole line comes out as.
pub open spec fn comes_out(line: Seq<u8>, pulled: Pulled) -> bool {
    match line_text(line) {
        Some(text) => pulled matches Pulled::Line(out) && out@ == text,
        None => pulled is More,
    }
}

impl BoundedLines {
    /// Takes in what one attempt to fill the buffer brought. Returns how many
    /// bytes of the chunk are used up, and what came of it. An interrupted
    /// attempt is made again; a failed one ends the stream at once.
    pub fn pull(&mut self, fill: Fill<'_>) -> (step: (usize, Pulled))
        requires
            old(self).well_formed(),
        ensures
            final(self).well_formed(),
            old(self).done() ==> step.0 == 0 && step.1 is End && final(self).done()
                && final(self).seen() == old(self).seen(),
            !old(self).done() ==> match fill {
                Fill::Chunk(chunk) => if chunk@.len() == 0 {
                    &&& step.0 == 0
                    &&& final(self).seen() == Seq::<u8>::empty()
                    &&& if old(self).seen().len() == 0 {
                        step.1 is End && final(self).done()
                    } else {
                        comes_out(old(self).seen(), step.1) && !final(self).done()
                    }
                } else {
                    let lines = drained(old(self).seen(), chunk@.take(step.0 as int));
                    &&& 0 < step.0 <= chunk@.len()
                    &&& !final(self).done()
                    &&& lines.1 == final(self).seen()
                    &&& if no_newline(chunk@) {
                        step.0 == chunk@.len() && lines.0.len() == 0 && step.1 is More
                    } else {
                        &&& first_newline(chunk@, step.0 - 1)
                        &&& lines.0.len() == 1
                        &&& comes_out(lines.0[0], step.1)
                    }
                },
                Fill::Interrupted => {
                    &&& step.0 == 0
                    &&& step.1 is More
                    &&& !final(self).done()
                    &&& final(self).seen() == old(self).seen()
                },
                Fill::Failed(fault) => {
                    &&& step.0 == 0
                    &&& step.1 == Pulled::Failed(fault)
                    &&& final(self).done()
                },
            },
    {
        if self.done {
            return (0, Pulled::End);
        }
        let (used, outcome) = self.reader.read_bounded_line(fill);
        match outcome {
            None => (used, Pulled::More),
            Some(LineOutcome::TooLong) => (used, Pulled::More),
            Some(LineOutcome::Eof) => {
                self.done = true;
                (used, Pulled::End)
            },
            Some(LineOutcome::Io(fault)) => {
                self.done = true;
                (used, Pulled::Failed(fault))
            },
            Some(LineOutcome::Line(bytes)) => match decode(bytes.as_slice()) {
                Some(text) => (used, Pulled::Line(text)),
                None => (used, Pulled::More),
            },
        }
    }
}

/// A line that has been read to its end comes out whole, unless it has more bytes
/// than the bound: then it is dropped.
pub proof fn lines_come_out_whole(line: Seq<u8>, cap: usize, outcome: LineOutcome, bytes: Vec<u8>)
    ensures
        ended(line, cap, outcome) && line.len() <= cap ==> (outcome matches LineOutcome::Line(bytes)
            && bytes@ == line),
        ended(line, cap, outcome) && line.len() > cap ==> outcome is TooLong,
        line.len() <= cap && bytes@ == line ==> ended(line, cap, LineOutcome::Line(bytes)),
{
}

} // verus!
