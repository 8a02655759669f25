//! Reading one response frame from a stream that delivers bytes in pieces.
//!
//! The reader asks for the header fields one at a time (8, 4, then 2 bytes),
//! then for the payload in reads of at most [`CHUNK_LEN`] bytes. Whoever owns
//! the stream reads at most [`ResponseReader::wanted`] bytes and hands them to
//! [`ResponseReader::feed`]; a read that ends the stream is fed as no bytes.
use vstd::prelude::*;
use crate::bytes::{read_u16, read_u32, read_u64, u16_of, u32_of, u64_of};
use crate::error::ProtocolError;
use crate::protocol::{
    lemma_frame_of_longer, response_frame, starts, Response, CHUNK_LEN, HEADER_LEN,
};

verus! {

/// The state of a response read that is under way.
pub struct ResponseReader {
    header: Vec<u8>,
    ack: u64,
    size: u32,
    code: u16,
    body: Vec<u8>,
}

impl ResponseReader {
    /// Every byte taken from the stream so far.
    pub closed spec fn received(&self) -> Seq<u8> {
        self.header@ + self.body@
    }

    /// The header fields are read from the header bytes once all of them
    /// are there, and the payload never outgrows the announced size.
    pub closed spec fn wf(&self) -> bool {
        &&& self.header@.len() <= 14
        &&& self.header@.len() < 14 ==> self.body@.len() == 0
        &&& self.header@.len() == 14 ==> {
            &&& self.ack == u64_of(self.header@)
            &&& self.size == u32_of(self.header@.skip(8))
            &&& self.code == u16_of(self.header@.skip(12))
            &&& self.body@.len() <= self.size
        }
    }

    /// The whole frame has arrived.
    pub open spec fn done(&self) -> bool {
        response_frame(self.received()) is Some
    }

    /// How many bytes the next read asks for: what is left of the current
    /// header field (8, 4, then 2 bytes), or what is left of the payload, up
    /// to one chunk of 2048 bytes.
    pub open spec fn wanted_spec(&self) -> nat {
        let n = self.received().len();
        if n < 8 {
            (8 - n) as nat
        } else if n < 12 {
            (12 - n) as nat
        } else if n < 14 {
            (14 - n) as nat
        } else {
            let left = 14 + u32_of(self.received().skip(8)) - n;
            if left > 2048 {
                2048
            } else {
                left as nat
            }
        }
    }

    spec fn wanted_of_fields(&self) -> nat {
        let h = self.header@.len();
        if h < 8 {
            (8 - h) as nat
        } else if h < 12 {
            (12 - h) as nat
        } else if h < 14 {
            (14 - h) as nat
        } else {
            let left = self.size - self.body@.len();
            if left > 2048 {
                2048
            } else {
                left as nat
            }
        }
    }

    proof fn lemma_done(&self)
        requires
            self.wf(),
        ensures
            self.done() <==> (self.header@.len() == 14 && self.body@.len() == self.size),
            self.done() ==> self.wanted_spec() == 0,
            !self.done() ==> 0 < self.wanted_spec() <= 2048,
            self.header@.len() < 14 ==> self.received().len() + self.wanted_spec() <= 14,
            self.header@.len() == 14 ==> self.body@.len() + self.wanted_spec() <= self.size,
            self.wanted_spec() == self.wanted_of_fields(),
            self.received().len() < 14 <==> self.header@.len() < 14,
            self.received().len() >= 14 ==> self.size == u32_of(self.received().skip(8))
                && self.received().len() + self.wanted_spec() <= 14 + u32_of(
                self.received().skip(8),
            ),
    {
        let s = self.received();
        assert(s.len() == self.header@.len() + self.body@.len());
        if self.header@.len() == 14 {
            assert(s.skip(8) =~= self.header@.skip(8) + self.body@);
            assert(u32_of(s.skip(8)) == u32_of(self.header@.skip(8)));
        }
    }

    /// A reader that has received nothing.
    pub fn new() -> (r: ResponseReader)
        ensures
            r.wf(),
            r.received() == Seq::<u8>::empty(),
    {
        let r = ResponseReader { header: Vec::new(), ack: 0, size: 0, code: 0, body: Vec::new() };
        assert(r.received() =~= Seq::<u8>::empty());
        r
    }

    /// Whether the whole frame has arrived.
    pub fn is_done(&self) -> (r: bool)
        requires
            self.wf(),
        ensures
            r == self.done(),
    {
        proof {
            self.lemma_done();
        }
        self.header.len() == HEADER_LEN && self.body.len() == self.size as usize
    }

    /// How many bytes to ask of the stream next: 0 once the frame is whole,
    /// otherwise between 1 and [`CHUNK_LEN`].
    pub fn wanted(&self) -> (r: usize)
        requires
            self.wf(),
        ensures
            r == self.wanted_spec(),
            r == 0 <==> self.done(),
            r <= CHUNK_LEN,
            self.received().len() < 14 ==> self.received().len() + r <= 14,
            self.received().len() >= 14 ==> self.received().len() + r <= 14 + u32_of(
                self.received().skip(8),
            ),
    {
        proof {
            self.lemma_done();
        }
        let h = self.header.len();
        if h < 8 {
            8 - h
        } else if h < 12 {
            12 - h
        } else if h < HEADER_LEN {
            HEADER_LEN - h
        } else {
            let left = self.size as usize - self.body.len();
            if left > CHUNK_LEN {
                CHUNK_LEN
            } else {
                left
            }
        }
    }

    /// Takes the bytes of `data` from `start` on, up to [`wanted`](Self::wanted)
    /// of them, and returns how many it took. No bytes at all means that the
    /// stream ended before the frame was whole: `Io`, and nothing changes.
    pub fn feed(&mut self, data: &[u8], start: usize) -> (r: Result<usize, ProtocolError>)
        requires
            old(self).wf(),
            !old(self).done(),
            start <= data@.len(),
        ensures
            final(self).wf(),
            start == data@.len() ==> r == Err::<usize, ProtocolError>(ProtocolError::Io) && *final(self) == *old(self),
            start < data@.len() ==> r is Ok,
            r matches Ok(k) ==> {
                &&& k == if data@.len() - start < old(self).wanted_spec() {
                    (data@.len() - start) as nat
                } else {
                    old(self).wanted_spec()
                }
                &&& final(self).received() == old(self).received() + data@.subrange(start as int, start + k)
            },
    {
        proof {
            self.lemma_done();
        }
        if start == data.len() {
            return Err(ProtocolError::Io);
        }
        let want = self.wanted();
        let k = if data.len() - start < want {
            data.len() - start
        } else {
            want
        };
        let ghost before = self.received();
        let mut i: usize = 0;
        if self.header.len() < HEADER_LEN {
            while i < k
                invariant
                    i <= k,
                    start + k <= data.len(),
                    self.header@.len() + (k - i) <= 14,
                    self.body@.len() == 0,
                    self.received() == before + data@.subrange(start as int, start + i),
                decreases k - i,
            {
                self.header.push(data[start + i]);
                i += 1;
                assert(self.received() =~= before + data@.subrange(start as int, start + i));
            }
            if self.header.len() == HEADER_LEN {
                let h = self.header.as_slice();
                self.ack = read_u64(h, 0);
                self.size = read_u32(h, 8);
                self.code = read_u16(h, 12);
                assert(u64_of(self.header@) == u64_of(self.header@.subrange(0, 8)));
                assert(u32_of(self.header@.skip(8)) == u32_of(self.header@.subrange(8, 12)));
                assert(u16_of(self.header@.skip(12)) == u16_of(self.header@.subrange(12, 14)));
                self.body = Vec::with_capacity(self.size as usize);
                assert(self.received() =~= before + data@.subrange(start as int, start + i));
            }
        } else {
            while i < k
                invariant
                    i <= k,
                    start + k <= data.len(),
                    self.header@.len() == 14,
                    self.body@.len() + (k - i) <= self.size,
                    self.ack == u64_of(self.header@),
                    self.size == u32_of(self.header@.skip(8)),
                    self.code == u16_of(self.header@.skip(12)),
                    self.received() == before + data@.subrange(start as int, start + i),
                decreases k - i,
            {
                let ghost prev = self.received();
                let b = data[start + i];
                self.body.push(b);
                assert(self.received() =~= prev.push(b));
                assert(data@.subrange(start as int, start + i + 1) =~= data@.subrange(
                    start as int,
                    start + i,
                ).push(b));
                i += 1;
                assert(self.received() =~= before + data@.subrange(start as int, start + i));
            }
        }
        Ok(k)
    }

    /// The response that arrived.
    pub fn into_response(self) -> (r: Response)
        requires
            self.wf(),
            self.done(),
        ensures
            response_frame(self.received()) == Some(r@),
    {
        proof {
            self.lemma_done();
            let s = self.received();
            assert(s.skip(8) =~= self.header@.skip(8) + self.body@);
            assert(s.skip(12) =~= self.header@.skip(12) + self.body@);
            assert(u64_of(s) == u64_of(self.header@));
            assert(u32_of(s.skip(8)) == u32_of(self.header@.skip(8)));
            assert(u16_of(s.skip(12)) == u16_of(self.header@.skip(12)));
            assert(s.subrange(14, 14 + self.size) =~= self.body@);
        }
        Response { ack: self.ack, size: self.size, code: self.code, payload: self.body }
    }
}

/// The bytes of `deliveries`, one after another.
pub open spec fn joined(deliveries: Seq<Vec<u8>>) -> Seq<u8>
    decreases deliveries.len(),
{
    if deliveries.len() == 0 {
        Seq::empty()
    } else {
        joined(deliveries.drop_last()) + deliveries.last()@
    }
}

proof fn lemma_joined_starts(d: Seq<Vec<u8>>, i: int)
    requires
        0 <= i <= d.len(),
    ensures
        starts(joined(d.take(i)), joined(d)),
    decreases d.len() - i,
{
    if i < d.len() {
        lemma_joined_starts(d, i + 1);
        assert(d.take(i + 1).drop_last() =~= d.take(i));
        let a = joined(d.take(i));
        let b = joined(d.take(i + 1));
        assert(b == a + d[i]@);
        assert(b.take(a.len() as int) =~= a);
        assert(joined(d).take(a.len() as int) =~= joined(d).take(b.len() as int).take(
            a.len() as int,
        ));
    } else {
        assert(d.take(i) =~= d);
        assert(joined(d).take(joined(d).len() as int) =~= joined(d));
    }
}

impl Response {
    /// Reads one response from a stream that delivers `deliveries` one after
    /// another and then ends. Fails with `Io` when the stream ends before the
    /// header and the announced payload are all there; bytes after the frame
    /// are left unread.
    pub fn from_chunks(deliveries: &Vec<Vec<u8>>) -> (r: Result<Response, ProtocolError>)
        ensures
            match response_frame(joined(deliveries@)) {
                Some(v) => r matches Ok(resp) && resp@ == v,
                None => r == Err::<Response, ProtocolError>(ProtocolError::Io),
            },
    {
        let ghost d = deliveries@;
        let mut reader = ResponseReader::new();
        let mut i: usize = 0;
        assert(d.take(0) =~= Seq::<Vec<u8>>::empty());
        while i < deliveries.len()
            invariant
                d == deliveries@,
                i <= d.len(),
                reader.wf(),
                !reader.done(),
                reader.received() == joined(d.take(i as int)),
            decreases d.len() - i,
        {
            let chunk = deliveries[i].as_slice();
            let mut pos: usize = 0;
            assert(chunk@.take(0) =~= Seq::<u8>::empty());
            assert(joined(d.take(i as int)) + chunk@.take(0) =~= joined(d.take(i as int)));
            while pos < chunk.len()
                invariant
                    d == deliveries@,
                    i < d.len(),
                    chunk@ == d[i as int]@,
                    pos <= chunk@.len(),
                    reader.wf(),
                    reader.received() == joined(d.take(i as int)) + chunk@.take(pos as int),
                decreases chunk@.len() - pos,
            {
                if reader.is_done() {
                    proof {
                        assert(d.take(i as int + 1).drop_last() =~= d.take(i as int));
                        let upto = joined(d.take(i as int + 1));
                        assert(upto == joined(d.take(i as int)) + chunk@);
                        lemma_joined_starts(d, i as int + 1);
                        let got = reader.received();
                        assert(upto.take(got.len() as int) =~= got);
                        assert(joined(d).take(got.len() as int) =~= upto.take(got.len() as int));
                        lemma_frame_of_longer(got, joined(d));
                    }
                    return Ok(reader.into_response());
                }
                let k = match reader.feed(chunk, pos) {
                    Ok(k) => k,
                    Err(e) => return Err(e),
                };
                assert(chunk@.take(pos as int) + chunk@.subrange(pos as int, pos + k) =~= chunk@.take(
                    pos + k,
                ));
                pos += k;
            }
            if reader.is_done() {
                proof {
                    assert(d.take(i as int + 1).drop_last() =~= d.take(i as int));
                    assert(chunk@.take(pos as int) =~= chunk@);
                    lemma_joined_starts(d, i as int + 1);
                    lemma_frame_of_longer(reader.received(), joined(d));
                }
                return Ok(reader.into_response());
            }
            proof {
                assert(d.take(i as int + 1).drop_last() =~= d.take(i as int));
                assert(chunk@.take(pos as int) =~= chunk@);
            }
            i += 1;
        }
        assert(d.take(i as int) =~= d);
        match reader.feed(&[], 0) {
            Ok(_) => Err(ProtocolError::Io),
            Err(e) => Err(e),
        }
    }
}

/// A header that announces an empty payload is a whole frame by itself: the
/// response has no payload, and no byte past the header is asked for.
pub proof fn lemma_header_only(s: Seq<u8>)
    requires
        s.len() == 14,
        u32_of(s.skip(8)) == 0,
    ensures
        response_frame(s) == Some((u64_of(s), 0u32, u16_of(s.skip(12)), Seq::<u8>::empty())),
{
    assert(s.subrange(14, 14) =~= Seq::<u8>::empty());
}

/// A stream that ends before the announced payload is whole yields no
/// response: never a shorter one.
pub proof fn lemma_short_body_fails(s: Seq<u8>)
    requires
        14 <= s.len() < 14 + u32_of(s.skip(8)),
    ensures
        response_frame(s) is None,
{
}

} // verus!
