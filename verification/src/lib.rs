//! An I/O driver library: a length-prefixed, tagged framing layer over a
//! byte-stream channel, and an HTTP client driver that turns structured
//! values into HTTP requests and HTTP responses back into structured
//! values, tracking in-flight requests so they can be cancelled.
//!
//! Inbound frames are `[length: u64 LE][tag: u8][payload: length-1 bytes]`;
//! a zero length or a stream that ends before a full length field is a
//! graceful end. Outbound frames are `[length: u64 LE][payload]` with no
//! tag. Frame payloads carry serialized structured values (see `noun`).
pub mod http;
pub mod noun;

use vstd::bytes::{
    lemma_auto_spec_u64_to_from_le_bytes, spec_u64_from_le_bytes, spec_u64_to_le_bytes,
    u64_from_le_bytes, u64_to_le_bytes,
};
use vstd::prelude::*;
use vstd::slice::{slice_index_get, slice_subrange, slice_to_vec};

use crate::noun::clone_bytes;

verus! {

/// Tag identifying the type of a serialized IO request.
pub const HTTP_CLIENT: u8 = 0;

/// A malformed inbound byte stream; fatal, no resynchronization is tried.
#[derive(Debug, Clone, Copy, PartialEq, Eq)]
pub enum FrameError {
    /// The stream ended inside a frame's tag or payload.
    Truncated,
    /// A frame carried a tag no driver answers to.
    UnknownTag,
}

/// The byte views of a sequence of payload vectors.
pub open spec fn payloads_view(ps: Seq<Vec<u8>>) -> Seq<Seq<u8>> {
    Seq::new(ps.len(), |i: int| ps[i]@)
}

/// The payloads of the well-known tag held by an inbound byte stream:
/// each frame is a length, a tag byte and `length - 1` payload bytes.
/// A stream end before a full length field, or a zero length, ends the
/// stream gracefully; a frame cut short is `Truncated` and an unknown
/// tag is `UnknownTag`, both fatal.
pub open spec fn spec_read_frames(s: Seq<u8>) -> Result<Seq<Seq<u8>>, FrameError>
    decreases s.len(),
{
    if s.len() < 8 {
        Ok(Seq::empty())
    } else {
        let len = spec_u64_from_le_bytes(s.subrange(0, 8)) as nat;
        if len == 0 {
            Ok(Seq::empty())
        } else if s.len() < 8 + len {
            Err(FrameError::Truncated)
        } else if s[8] != HTTP_CLIENT {
            Err(FrameError::UnknownTag)
        } else {
            match spec_read_frames(s.subrange(8 + len as int, s.len() as int)) {
                Ok(rest) => Ok(seq![s.subrange(9, 8 + len as int)] + rest),
                Err(e) => Err(e),
            }
        }
    }
}

/// Payloads already read, joined to the outcome on the bytes still ahead.
pub open spec fn frames_prepend(a: Seq<Seq<u8>>, r: Result<Seq<Seq<u8>>, FrameError>) -> Result<
    Seq<Seq<u8>>,
    FrameError,
> {
    match r {
        Ok(b) => Ok(a + b),
        Err(e) => Err(e),
    }
}

/// Read incoming IO requests from an input byte stream, collecting the
/// payloads addressed to the HTTP client driver in arrival order.
pub fn recv_io_requests(input: &[u8]) -> (r: Result<Vec<Vec<u8>>, FrameError>)
    ensures
        match spec_read_frames(input@) {
            Ok(ps) => r matches Ok(v) && payloads_view(v@) == ps,
            Err(e) => r matches Err(e2) && e2 == e,
        },
{
    let mut reqs: Vec<Vec<u8>> = Vec::new();
    let mut pos: usize = 0;
    proof {
        assert(input@.subrange(0, input@.len() as int) =~= input@);
        if spec_read_frames(input@) is Ok {
            assert(payloads_view(reqs@) + spec_read_frames(input@)->Ok_0 =~= spec_read_frames(
                input@,
            )->Ok_0);
        }
    }
    loop
        invariant
            pos <= input@.len(),
            frames_prepend(
                payloads_view(reqs@),
                spec_read_frames(input@.subrange(pos as int, input@.len() as int)),
            ) == spec_read_frames(input@),
        decreases input@.len() - pos,
    {
        let ghost suffix = input@.subrange(pos as int, input@.len() as int);
        let remaining = input.len() - pos;
        if remaining < 8 {
            proof {
                assert(payloads_view(reqs@) + Seq::<Seq<u8>>::empty() =~= payloads_view(reqs@));
            }
            return Ok(reqs);
        }
        let len64 = u64_from_le_bytes(slice_subrange(input, pos, pos + 8));
        proof {
            assert(suffix.subrange(0, 8) =~= input@.subrange(pos as int, pos + 8));
        }
        if len64 == 0 {
            proof {
                assert(payloads_view(reqs@) + Seq::<Seq<u8>>::empty() =~= payloads_view(reqs@));
            }
            return Ok(reqs);
        }
        if ((remaining - 8) as u64) < len64 {
            return Err(FrameError::Truncated);
        }
        let len = len64 as usize;
        let tag = *slice_index_get(input, pos + 8);
        proof {
            assert(suffix[8] == input@[pos + 8]);
        }
        if tag != HTTP_CLIENT {
            return Err(FrameError::UnknownTag);
        }
        let payload = slice_to_vec(slice_subrange(input, pos + 9, pos + 8 + len));
        proof {
            assert(suffix.subrange(9, 8 + len as int) =~= input@.subrange(
                pos + 9,
                pos + 8 + len as int,
            ));
            assert(suffix.subrange(8 + len as int, suffix.len() as int) =~= input@.subrange(
                pos + 8 + len as int,
                input@.len() as int,
            ));
        }
        proof {
            let ghost suffix2 = input@.subrange(pos + 8 + len as int, input@.len() as int);
            let old_view = payloads_view(reqs@);
            assert(payloads_view(reqs@.push(payload)) =~= old_view + seq![payload@]);
            if spec_read_frames(suffix2) is Ok {
                let rest = spec_read_frames(suffix2)->Ok_0;
                assert((old_view + seq![payload@]) + rest =~= old_view + (seq![payload@] + rest));
            }
        }
        reqs.push(payload);
        pos = pos + 8 + len;
    }
}

/// The byte stream holding the given payloads as outbound frames: a
/// length then the payload bytes, with no tag byte.
pub open spec fn spec_write_frames(ps: Seq<Seq<u8>>) -> Seq<u8>
    decreases ps.len(),
{
    if ps.len() == 0 {
        Seq::empty()
    } else {
        spec_u64_to_le_bytes(ps[0].len() as u64) + ps[0] + spec_write_frames(
            ps.subrange(1, ps.len() as int),
        )
    }
}

pub proof fn lemma_write_frames_concat(a: Seq<Seq<u8>>, b: Seq<Seq<u8>>)
    ensures
        spec_write_frames(a + b) == spec_write_frames(a) + spec_write_frames(b),
    decreases a.len(),
{
    if a.len() == 0 {
        assert(a + b =~= b);
        assert(spec_write_frames(a) + spec_write_frames(b) =~= spec_write_frames(b));
    } else {
        assert((a + b).subrange(1, (a + b).len() as int) =~= a.subrange(1, a.len() as int) + b);
        lemma_write_frames_concat(a.subrange(1, a.len() as int), b);
        assert((a + b)[0] == a[0]);
        assert(spec_u64_to_le_bytes(a[0].len() as u64) + a[0] + (spec_write_frames(
            a.subrange(1, a.len() as int),
        ) + spec_write_frames(b)) =~= (spec_u64_to_le_bytes(a[0].len() as u64) + a[0]
            + spec_write_frames(a.subrange(1, a.len() as int))) + spec_write_frames(b));
    }
}

/// Read outgoing IO responses and write them to an output byte stream:
/// for each payload an 8-byte little-endian length, then the bytes.
pub fn send_io_responses(resps: &Vec<Vec<u8>>) -> (out: Vec<u8>)
    ensures
        out@ == spec_write_frames(payloads_view(resps@)),
{
    let mut out: Vec<u8> = Vec::new();
    let mut i: usize = 0;
    proof {
        assert(payloads_view(resps@).subrange(0, 0) =~= Seq::<Seq<u8>>::empty());
    }
    while i < resps.len()
        invariant
            i <= resps.len(),
            out@ == spec_write_frames(payloads_view(resps@).subrange(0, i as int)),
        decreases resps.len() - i,
    {
        let ghost done = payloads_view(resps@).subrange(0, i as int);
        let mut lenv = u64_to_le_bytes(resps[i].len() as u64);
        out.append(&mut lenv);
        let mut p = clone_bytes(&resps[i]);
        out.append(&mut p);
        proof {
            let one = seq![resps@[i as int]@];
            lemma_write_frames_concat(done, one);
            assert(spec_write_frames(one.subrange(1, 1)) =~= Seq::<u8>::empty());
            assert(spec_write_frames(one) =~= spec_u64_to_le_bytes(resps@[i as int]@.len() as u64)
                + resps@[i as int]@);
            assert(payloads_view(resps@).subrange(0, i + 1) =~= done + one);
            assert(out@ =~= spec_write_frames(done + one));
        }
        i = i + 1;
    }
    proof {
        assert(payloads_view(resps@).subrange(0, resps@.len() as int) =~= payloads_view(resps@));
    }
    out
}

/// The payloads held by an outbound byte stream, as an independent
/// reader of outbound frames sees them: a length then that many bytes.
pub open spec fn spec_read_response_frames(s: Seq<u8>) -> Result<Seq<Seq<u8>>, FrameError>
    decreases s.len(),
{
    if s.len() < 8 {
        Ok(Seq::empty())
    } else {
        let len = spec_u64_from_le_bytes(s.subrange(0, 8)) as nat;
        if len == 0 {
            Ok(Seq::empty())
        } else if s.len() < 8 + len {
            Err(FrameError::Truncated)
        } else {
            match spec_read_response_frames(s.subrange(8 + len as int, s.len() as int)) {
                Ok(rest) => Ok(seq![s.subrange(8, 8 + len as int)] + rest),
                Err(e) => Err(e),
            }
        }
    }
}

/// Read back the payloads of an outbound byte stream.
pub fn read_response_frames(input: &[u8]) -> (r: Result<Vec<Vec<u8>>, FrameError>)
    ensures
        match spec_read_response_frames(input@) {
            Ok(ps) => r matches Ok(v) && payloads_view(v@) == ps,
            Err(e) => r matches Err(e2) && e2 == e,
        },
{
    let mut resps: Vec<Vec<u8>> = Vec::new();
    let mut pos: usize = 0;
    proof {
        assert(input@.subrange(0, input@.len() as int) =~= input@);
        if spec_read_response_frames(input@) is Ok {
            assert(payloads_view(resps@) + spec_read_response_frames(input@)->Ok_0
                =~= spec_read_response_frames(input@)->Ok_0);
        }
    }
    loop
        invariant
            pos <= input@.len(),
            frames_prepend(
                payloads_view(resps@),
                spec_read_response_frames(input@.subrange(pos as int, input@.len() as int)),
            ) == spec_read_response_frames(input@),
        decreases input@.len() - pos,
    {
        let ghost suffix = input@.subrange(pos as int, input@.len() as int);
        let remaining = input.len() - pos;
        if remaining < 8 {
            proof {
                assert(payloads_view(resps@) + Seq::<Seq<u8>>::empty() =~= payloads_view(resps@));
            }
            return Ok(resps);
        }
        let len64 = u64_from_le_bytes(slice_subrange(input, pos, pos + 8));
        proof {
            assert(suffix.subrange(0, 8) =~= input@.subrange(pos as int, pos + 8));
        }
        if len64 == 0 {
            proof {
                assert(payloads_view(resps@) + Seq::<Seq<u8>>::empty() =~= payloads_view(resps@));
            }
            return Ok(resps);
        }
        if ((remaining - 8) as u64) < len64 {
            return Err(FrameError::Truncated);
        }
        let len = len64 as usize;
        let payload = slice_to_vec(slice_subrange(input, pos + 8, pos + 8 + len));
        proof {
            assert(suffix.subrange(8, 8 + len as int) =~= input@.subrange(
                pos + 8,
                pos + 8 + len as int,
            ));
            assert(suffix.subrange(8 + len as int, suffix.len() as int) =~= input@.subrange(
                pos + 8 + len as int,
                input@.len() as int,
            ));
        }
        proof {
            let ghost suffix2 = input@.subrange(pos + 8 + len as int, input@.len() as int);
            let old_view = payloads_view(resps@);
            assert(payloads_view(resps@.push(payload)) =~= old_view + seq![payload@]);
            if spec_read_response_frames(suffix2) is Ok {
                let rest = spec_read_response_frames(suffix2)->Ok_0;
                assert((old_view + seq![payload@]) + rest =~= old_view + (seq![payload@] + rest));
            }
        }
        resps.push(payload);
        pos = pos + 8 + len;
    }
}

/// Writing any payloads as outbound frames and reading the stream back
/// yields the same payloads in the same order. A zero-length payload is
/// left out: its frame has length zero, which the reader takes as a
/// graceful end of the stream.
pub proof fn lemma_frame_round_trip(ps: Seq<Seq<u8>>)
    requires
        forall|i: int|
            0 <= i < ps.len() ==> 0 < (#[trigger] ps[i]).len() < 0x1_0000_0000_0000_0000,
    ensures
        spec_read_response_frames(spec_write_frames(ps)) == Ok::<Seq<Seq<u8>>, FrameError>(ps),
    decreases ps.len(),
{
    lemma_auto_spec_u64_to_from_le_bytes();
    if ps.len() > 0 {
        let s = spec_write_frames(ps);
        let hdr = spec_u64_to_le_bytes(ps[0].len() as u64);
        let tail = ps.subrange(1, ps.len() as int);
        let rest_bytes = spec_write_frames(tail);
        assert(s =~= hdr + ps[0] + rest_bytes);
        assert(s.subrange(0, 8) =~= hdr);
        let len = ps[0].len() as int;
        assert(spec_u64_from_le_bytes(hdr) == ps[0].len() as u64);
        assert(s.subrange(8, 8 + len) =~= ps[0]);
        assert(s.subrange(8 + len, s.len() as int) =~= rest_bytes);
        lemma_frame_round_trip(tail);
        assert(seq![ps[0]] + tail =~= ps);
    } else {
        assert(ps =~= Seq::<Seq<u8>>::empty());
    }
}

} // verus!
