use vstd::prelude::*;
use vstd::slice::{slice_subrange, slice_to_vec};
use vstd::utf8::{decode_utf8, valid_utf8};

use crate::header::{
    lemma_parse_wire_header, parse_header, try_decode_header, utf8_lossy, wire_header, FileHeader,
    HEADER_PREFIX_LEN, MAX_NAME_LEN,
};

verus! {

/// What the caller does with one delivery from the transport.
#[derive(Debug)]
pub enum Step {
    /// The header is still incomplete: pull the next delivery.
    NeedMore,
    /// The header has just been completed; these are the body bytes that
    /// came with it, to be written first.
    HeaderReady(Vec<u8>),
    /// Body bytes to be written to the destination.
    Body(Vec<u8>),
}

/// The result of a transfer whose header arrived.
#[derive(Debug, PartialEq, Eq, Structural, Clone, Copy)]
pub enum Completion {
    /// The body had exactly the declared size.
    Complete { bytes: u64 },
    /// The body's length differs from the declared size.
    SizeMismatch { expected: u64, actual: u64 },
}

/// Why a stream yielded no transfer.
#[derive(Debug, PartialEq, Eq, Structural, Clone, Copy)]
pub enum ReceiveError {
    /// The stream ended before a complete header was assembled.
    ProtocolViolation,
}

/// Receive state of one stream: first it gathers deliveries until a header
/// decodes, then it passes every further byte through as body.
pub struct Receiver {
    buffer: Vec<u8>,
    header: Option<FileHeader>,
    bytes_written: u64,
    received: u64,
    stream: Ghost<Seq<u8>>,
}

/// Number of body bytes in `stream`: everything after a complete header.
pub open spec fn body_len(stream: Seq<u8>) -> nat {
    match parse_header(stream) {
        Some((_, _, used)) => (stream.len() - used) as nat,
        None => 0,
    }
}

/// How a transfer whose stream carried `stream` ends.
pub open spec fn completion_of(stream: Seq<u8>) -> Result<Completion, ReceiveError> {
    match parse_header(stream) {
        None => Err(ReceiveError::ProtocolViolation),
        Some((_, size, _)) => if size as nat == body_len(stream) {
            Ok(Completion::Complete { bytes: size })
        } else {
            Ok(Completion::SizeMismatch { expected: size, actual: body_len(stream) as u64 })
        },
    }
}

/// The body bytes in `stream`: everything after a complete header.
pub open spec fn body_of(stream: Seq<u8>) -> Seq<u8> {
    match parse_header(stream) {
        Some((_, _, used)) => stream.subrange(used as int, stream.len() as int),
        None => Seq::empty(),
    }
}

/// The body bytes that a delivery of `chunk` hands out after `before` was
/// received.
pub open spec fn handed_out(before: Seq<u8>, chunk: Seq<u8>) -> Seq<u8> {
    if parse_header(before) is Some {
        chunk
    } else {
        body_of(before + chunk)
    }
}

/// The bytes a step tells the caller to write.
pub open spec fn step_bytes(step: Step) -> Seq<u8> {
    match step {
        Step::NeedMore => Seq::empty(),
        Step::HeaderReady(b) => b@,
        Step::Body(b) => b@,
    }
}

/// All body bytes handed out when `chunks` are delivered one after another,
/// after `before` was received.
pub open spec fn handed_out_all(before: Seq<u8>, chunks: Seq<Seq<u8>>) -> Seq<u8>
    decreases chunks.len(),
{
    if chunks.len() == 0 {
        Seq::empty()
    } else {
        handed_out(before, chunks[0]) + handed_out_all(before + chunks[0], chunks.drop_first())
    }
}

impl Receiver {
    /// Every byte delivered on the stream so far, in order.
    pub closed spec fn stream(&self) -> Seq<u8> {
        self.stream@
    }

    pub closed spec fn wf(&self) -> bool {
        &&& self.received as nat == self.stream@.len()
        &&& match self.header {
            None => {
                &&& parse_header(self.stream@) is None
                &&& self.buffer@ == self.stream@
            },
            Some(h) => {
                let (name, size, used) = parse_header(self.stream@)->Some_0;
                &&& parse_header(self.stream@) is Some
                &&& h.file_name@ == utf8_lossy(name)
                &&& valid_utf8(name) ==> h.file_name@ == decode_utf8(name)
                &&& h.file_size == size
                &&& self.bytes_written as nat == body_len(self.stream@)
            },
        }
    }

    /// A receiver for a freshly accepted stream, with nothing received.
    pub fn new() -> (r: Receiver)
        ensures
            r.wf(),
            r.stream() == Seq::<u8>::empty(),
    {
        Receiver {
            buffer: Vec::new(),
            header: None,
            bytes_written: 0,
            received: 0,
            stream: Ghost(Seq::empty()),
        }
    }

    /// Number of bytes delivered so far, header included.
    pub fn received_len(&self) -> (r: u64)
        requires
            self.wf(),
        ensures
            r as nat == self.stream().len(),
    {
        self.received
    }

    /// Number of body bytes handed out so far.
    pub fn bytes_written(&self) -> (r: u64)
        requires
            self.wf(),
        ensures
            r as nat == body_len(self.stream()),
    {
        match &self.header {
            Some(_) => self.bytes_written,
            None => 0,
        }
    }

    /// The decoded header, once the stream has carried a complete one.
    pub fn header(&self) -> (r: Option<&FileHeader>)
        requires
            self.wf(),
        ensures
            r is Some <==> parse_header(self.stream()) is Some,
            r is Some ==> ({
                let (name, size, _) = parse_header(self.stream())->Some_0;
                &&& r->Some_0.file_name@ == utf8_lossy(name)
                &&& valid_utf8(name) ==> r->Some_0.file_name@ == decode_utf8(name)
                &&& r->Some_0.file_size == size
            }),
    {
        self.header.as_ref()
    }

    /// Take one delivery from the transport.
    ///
    /// While the header is incomplete the bytes are buffered; the delivery
    /// that completes it yields the bytes that follow the header in the
    /// buffer, and every later delivery is body, passed through unchanged.
    pub fn on_chunk(&mut self, chunk: &[u8]) -> (step: Step)
        requires
            old(self).wf(),
            old(self).stream().len() + chunk@.len() <= u64::MAX,
        ensures
            final(self).wf(),
            final(self).stream() == old(self).stream() + chunk@,
            step_bytes(step) == handed_out(old(self).stream(), chunk@),
            parse_header(old(self).stream()) is Some ==> (step matches Step::Body(b) && b@
                == chunk@),
            parse_header(old(self).stream()) is None && parse_header(final(self).stream()) is None
                ==> step is NeedMore,
            parse_header(old(self).stream()) is None && parse_header(final(self).stream()) is Some
                ==> ({
                let s = final(self).stream();
                let used = parse_header(s)->Some_0.2;
                (step matches Step::HeaderReady(b) && b@ == s.subrange(used as int, s.len() as int))
            }),
    {
        let ghost s1 = self.stream@ + chunk@;
        proof {
            lemma_parse_extends(self.stream@, chunk@);
        }
        if self.header.is_some() {
            self.bytes_written = self.bytes_written + chunk.len() as u64;
            self.received = self.received + chunk.len() as u64;
            self.stream = Ghost(s1);
            return Step::Body(slice_to_vec(chunk));
        }
        let mut i: usize = 0;
        while i < chunk.len()
            invariant
                i <= chunk@.len(),
                self.buffer@ == old(self).buffer@ + chunk@.subrange(0, i as int),
                self.received == old(self).received,
                self.stream@ == old(self).stream@,
                self.header is None,
                old(self).wf(),
                old(self).header is None,
                old(self).stream().len() + chunk@.len() <= u64::MAX,
            decreases chunk@.len() - i,
        {
            self.buffer.push(chunk[i]);
            i = i + 1;
            assert(self.buffer@ =~= old(self).buffer@ + chunk@.subrange(0, i as int));
        }
        assert(chunk@.subrange(0, i as int) =~= chunk@);
        self.received = self.received + chunk.len() as u64;
        self.stream = Ghost(s1);
        match try_decode_header(self.buffer.as_slice()) {
            None => Step::NeedMore,
            Some((h, used)) => {
                let len = self.buffer.len();
                let rest = slice_to_vec(slice_subrange(self.buffer.as_slice(), used, len));
                self.bytes_written = (len - used) as u64;
                self.header = Some(h);
                self.buffer = Vec::new();
                Step::HeaderReady(rest)
            },
        }
    }

    /// End of the stream: report how the transfer went.
    pub fn finish(&self) -> (r: Result<Completion, ReceiveError>)
        requires
            self.wf(),
        ensures
            r == completion_of(self.stream()),
    {
        match &self.header {
            None => Err(ReceiveError::ProtocolViolation),
            Some(h) => {
                if h.file_size == self.bytes_written {
                    Ok(Completion::Complete { bytes: h.file_size })
                } else {
                    Ok(Completion::SizeMismatch { expected: h.file_size, actual: self.bytes_written })
                }
            },
        }
    }
}

/// Once a complete header is present, more bytes leave it as it was.
proof fn lemma_parse_extends(s: Seq<u8>, more: Seq<u8>)
    ensures
        parse_header(s) is Some ==> parse_header(s + more) == parse_header(s),
{
    let t = s + more;
    if parse_header(s) is Some {
        assert(t[0] == s[0] && t[1] == s[1]);
        assert(t.subrange(2, 10) =~= s.subrange(2, 10));
        let n = crate::header::announced_name_len(s) as int;
        assert(t.subrange(10, 10 + n) =~= s.subrange(10, 10 + n));
    }
}

/// Each delivery hands out exactly the body bytes it adds.
proof fn lemma_handed_out(before: Seq<u8>, chunk: Seq<u8>)
    ensures
        body_of(before) + handed_out(before, chunk) == body_of(before + chunk),
{
    lemma_parse_extends(before, chunk);
    if parse_header(before) is Some {
        assert(body_of(before) + chunk =~= body_of(before + chunk));
    } else {
        assert(Seq::<u8>::empty() + body_of(before + chunk) =~= body_of(before + chunk));
    }
}

proof fn lemma_handed_out_all(before: Seq<u8>, chunks: Seq<Seq<u8>>)
    ensures
        body_of(before) + handed_out_all(before, chunks) == body_of(before + chunks.flatten()),
    decreases chunks.len(),
{
    if chunks.len() == 0 {
        assert(before + chunks.flatten() =~= before);
        assert(body_of(before) + Seq::<u8>::empty() =~= body_of(before));
    } else {
        let next = before + chunks[0];
        lemma_handed_out(before, chunks[0]);
        lemma_handed_out_all(next, chunks.drop_first());
        assert(next + chunks.drop_first().flatten() =~= before + chunks.flatten());
        assert(body_of(before) + handed_out_all(before, chunks) =~= body_of(before) + handed_out(
            before,
            chunks[0],
        ) + handed_out_all(next, chunks.drop_first()));
    }
}

/// How a stream is cut into deliveries does not matter: two chunkings of
/// the same bytes hand out the same body bytes, which are the body of the
/// whole stream, and end with the same header, byte count and outcome.
pub proof fn lemma_chunking_independent(first: Seq<Seq<u8>>, second: Seq<Seq<u8>>)
    requires
        first.flatten() == second.flatten(),
    ensures
        handed_out_all(Seq::empty(), first) == body_of(first.flatten()),
        handed_out_all(Seq::empty(), first) == handed_out_all(Seq::empty(), second),
        parse_header(first.flatten()) == parse_header(second.flatten()),
        body_len(first.flatten()) == body_len(second.flatten()),
        completion_of(first.flatten()) == completion_of(second.flatten()),
{
    lemma_handed_out_all(Seq::empty(), first);
    lemma_handed_out_all(Seq::empty(), second);
    assert(Seq::<u8>::empty() + first.flatten() =~= first.flatten());
    assert(Seq::<u8>::empty() + second.flatten() =~= second.flatten());
    assert(body_of(Seq::empty()) == Seq::<u8>::empty());
    assert(Seq::<u8>::empty() + handed_out_all(Seq::empty(), first) =~= handed_out_all(
        Seq::empty(),
        first,
    ));
    assert(Seq::<u8>::empty() + handed_out_all(Seq::empty(), second) =~= handed_out_all(
        Seq::empty(),
        second,
    ));
}

/// A stream made of a header and then a body, however it was cut into
/// deliveries, ends in a complete transfer exactly when the body has the
/// declared size, and otherwise reports the declared and the actual size.
pub proof fn lemma_transfer_outcome(name: Seq<u8>, size: u64, body: Seq<u8>)
    requires
        name.len() <= MAX_NAME_LEN,
        body.len() <= u64::MAX,
    ensures
        body_len(wire_header(name, size) + body) == body.len(),
        completion_of(wire_header(name, size) + body) == if body.len() == size {
            Ok::<Completion, ReceiveError>(Completion::Complete { bytes: size })
        } else {
            Ok(Completion::SizeMismatch { expected: size, actual: body.len() as u64 })
        },
{
    let s = wire_header(name, size) + body;
    lemma_parse_wire_header(name, size, body);
    let used = HEADER_PREFIX_LEN + name.len();
    assert(parse_header(s) == Some((name, size, used as nat)));
    assert(s.len() == used + body.len());
    assert(body_len(s) == body.len());
}

/// A stream that ends before the fixed prefix is complete yields no
/// transfer: it is a protocol violation, whatever its bytes.
pub proof fn lemma_short_stream(stream: Seq<u8>)
    requires
        stream.len() < HEADER_PREFIX_LEN,
    ensures
        completion_of(stream) == Err::<Completion, ReceiveError>(ReceiveError::ProtocolViolation),
        body_len(stream) == 0,
{
}

} // verus!
