//! Framing of requests and responses on the byte stream to the agent.
//!
//! A request frame is `seq` (`u64`), `size` (`u32`) and `size` payload bytes.
//! A response frame is `ack` (`u64`), `size` (`u32`), `code` (`u16`) and `size`
//! payload bytes. Every integer is big-endian.
use vstd::prelude::*;
use crate::bytes::{be32, be64, push_u32, push_u64, u16_of, u32_of, u64_of};
use crate::error::ProtocolError;
use crate::payload::{
    decode_response, encode_request, parse_response, request_bytes, RequestPayload, ResponsePayload,
};
use crate::sequence::{successor, SequenceGenerator};

verus! {

/// Length of a response header: `ack`, `size` and `code`.
pub const HEADER_LEN: usize = 14;

/// The most bytes asked of the stream by one read of a response body.
pub const CHUNK_LEN: usize = 2048;

/// A request frame to the agent.
#[derive(Debug, Clone, PartialEq, Eq)]
pub struct Request {
    /// Identifier of the request.
    pub seq: u64,
    /// Length of the payload in bytes.
    pub size: u32,
    /// The encoded payload.
    pub payload: Vec<u8>,
}

/// A response frame from the agent.
#[derive(Debug, Clone, PartialEq, Eq)]
pub struct Response {
    /// Identifier of the request answered.
    pub ack: u64,
    /// Length of the payload in bytes.
    pub size: u32,
    /// Status: 0 is success, anything else a failure reported by the agent.
    pub code: u16,
    /// The encoded payload.
    pub payload: Vec<u8>,
}

impl View for Response {
    type V = (u64, u32, u16, Seq<u8>);

    open spec fn view(&self) -> (u64, u32, u16, Seq<u8>) {
        (self.ack, self.size, self.code, self.payload@)
    }
}

/// The response frame at the start of `s`, if all of it is there: its header
/// fields and its payload. Bytes after the frame are not part of it.
pub open spec fn response_frame(s: Seq<u8>) -> Option<(u64, u32, u16, Seq<u8>)> {
    if s.len() < 14 {
        None
    } else {
        let size = u32_of(s.skip(8));
        if s.len() < 14 + size {
            None
        } else {
            Some((u64_of(s), size, u16_of(s.skip(12)), s.subrange(14, 14 + size)))
        }
    }
}

/// `a` is the start of `b`.
pub open spec fn starts(a: Seq<u8>, b: Seq<u8>) -> bool {
    a.len() <= b.len() && b.take(a.len() as int) == a
}

/// Bytes after a whole frame do not change the frame.
pub proof fn lemma_frame_of_longer(a: Seq<u8>, b: Seq<u8>)
    requires
        starts(a, b),
        response_frame(a) is Some,
    ensures
        response_frame(b) == response_frame(a),
{
    assert(a =~= b.take(a.len() as int));
    assert(u32_of(a.skip(8)) == u32_of(b.skip(8)));
    assert(u64_of(a) == u64_of(b));
    assert(u16_of(a.skip(12)) == u16_of(b.skip(12)));
    let size = u32_of(a.skip(8));
    assert(a.subrange(14, 14 + size) =~= b.subrange(14, 14 + size));
}

impl Request {
    /// The request is well formed: `size` is the payload's length.
    pub open spec fn wf(&self) -> bool {
        self.size as nat == self.payload@.len()
    }

    /// Builds the request for `payload`, taking one identifier from `seqs`
    /// whether or not it succeeds. Fails with `Encode` when the encoded
    /// payload is too long for the 32-bit size field.
    pub fn new(seqs: &mut SequenceGenerator, payload: RequestPayload) -> (r: Result<Request, ProtocolError>)
        ensures
            final(seqs).upcoming() == successor(old(seqs).upcoming()),
            request_bytes(payload@).len() <= u32::MAX ==> r is Ok,
            request_bytes(payload@).len() > u32::MAX ==> r == Err::<Request, ProtocolError>(ProtocolError::Encode),
            r matches Ok(q) ==> q.seq == old(seqs).upcoming() && q.payload@ == request_bytes(payload@)
                && q.wf(),
    {
        let seq = seqs.next();
        let bytes = encode_request(&payload);
        if bytes.len() > u32::MAX as usize {
            return Err(ProtocolError::Encode);
        }
        Ok(Request { seq, size: bytes.len() as u32, payload: bytes })
    }

    /// The frame as it goes on the stream.
    pub fn to_bytes(&self) -> (r: Vec<u8>)
        requires
            self.wf(),
        ensures
            r@ == be64(self.seq) + be32(self.size) + self.payload@,
    {
        let mut out: Vec<u8> = Vec::new();
        push_u64(&mut out, self.seq);
        push_u32(&mut out, self.size);
        let ghost head = out@;
        let mut i: usize = 0;
        while i < self.payload.len()
            invariant
                i <= self.payload@.len(),
                out@ == head + self.payload@.take(i as int),
            decreases self.payload@.len() - i,
        {
            out.push(self.payload[i]);
            i += 1;
            assert(out@ =~= head + self.payload@.take(i as int));
        }
        assert(self.payload@.take(i as int) =~= self.payload@);
        out
    }
}

impl Response {
    /// Whether the agent reports success.
    pub fn is_ok(&self) -> (r: bool)
        ensures
            r == (self.code == 0),
    {
        self.code == 0
    }

    /// The payload decoded; `Decode` when its bytes are no known payload.
    pub fn payload(self) -> (r: Result<ResponsePayload, ProtocolError>)
        ensures
            match r {
                Ok(p) => parse_response(self.payload@) == Some(p@),
                Err(e) => e == ProtocolError::Decode && parse_response(self.payload@) is None,
            },
    {
        decode_response(self.payload.as_slice())
    }
}

} // verus!
