//! Framing of requests and responses on the wire.
//!
//! Each frame is an eight byte header followed by its payload:
//! a version byte (`1`), a reserved byte (`0`), the payload length as a
//! big-endian `u16`, and the correlation id as a big-endian `u32`.

use vstd::prelude::*;

verus! {

/// Length of the frame header in bytes.
pub const HEADER_LEN: usize = 8;

/// The largest payload that a frame can carry.
pub const MAX_PAYLOAD: usize = 65535;

/// The protocol version written into, and expected in, every header.
pub const FRAME_VERSION: u8 = 1;

/// A request: the correlation id that routes its answer, and its payload.
pub struct Request {
    pub id: u32,
    pub payload: Vec<u8>,
}

/// A response: the correlation id recovered from the wire, and its payload.
pub struct Response {
    pub id: u32,
    pub payload: Vec<u8>,
}

/// Why a response could not be read.
#[derive(Clone, Debug, PartialEq, Eq)]
pub enum ResponseFailure {
    /// The header carried a version or reserved byte other than the expected ones.
    Malformed,
    /// The peer closed the stream.
    Closed,
    /// The read half reported an I/O error, with its message.
    ReadFailed(String),
}

/// The byte at position `shift` (counted in bytes from the low end) of `x`.
pub open spec fn byte_of(x: int, shift: int) -> u8
    recommends
        0 <= shift < 4,
{
    ((x / pow256(shift)) % 256) as u8
}

/// `256` to the power `n`, for `n` below four.
pub open spec fn pow256(n: int) -> int {
    if n == 0 {
        1
    } else if n == 1 {
        256
    } else if n == 2 {
        65536
    } else {
        16777216
    }
}

/// The header of a frame with correlation id `id` and `len` bytes of payload.
pub open spec fn header(id: u32, len: nat) -> Seq<u8> {
    seq![
        FRAME_VERSION,
        0u8,
        byte_of(len as int, 1),
        byte_of(len as int, 0),
        byte_of(id as int, 3),
        byte_of(id as int, 2),
        byte_of(id as int, 1),
        byte_of(id as int, 0),
    ]
}

/// The bytes of a whole frame.
pub open spec fn frame_bytes(id: u32, payload: Seq<u8>) -> Seq<u8> {
    header(id, payload.len()) + payload
}

/// A big-endian `u32` read from four bytes.
pub open spec fn be_u32(b0: u8, b1: u8, b2: u8, b3: u8) -> u32 {
    (b0 as int * 16777216 + b1 as int * 65536 + b2 as int * 256 + b3 as int) as u32
}

/// A big-endian `u16` read from two bytes, as a length.
pub open spec fn be_u16(b0: u8, b1: u8) -> nat {
    (b0 as nat) * 256 + b1 as nat
}

/// What reading one frame from the front of a buffer gives.
pub enum Parsed {
    /// The buffer holds no whole frame yet.
    Incomplete,
    /// A whole frame of `used` bytes was read.
    Complete { response: Response, used: usize },
    /// The header is not one that this protocol writes.
    Malformed,
}

/// The length of the frame at the front of `b`, given that its header is there.
pub open spec fn frame_len(b: Seq<u8>) -> nat
    recommends
        b.len() >= HEADER_LEN,
{
    HEADER_LEN as nat + be_u16(b[2], b[3])
}

/// Whether the header at the front of `b` is one that this protocol writes.
pub open spec fn header_ok(b: Seq<u8>) -> bool
    recommends
        b.len() >= HEADER_LEN,
{
    b[0] == FRAME_VERSION && b[1] == 0
}

impl Request {
    /// A request is well formed when its payload fits in one frame.
    pub open spec fn wf(&self) -> bool {
        self.payload.len() <= MAX_PAYLOAD
    }

    /// A request with correlation id `0`, or `None` when the payload does
    /// not fit in one frame.
    pub fn new(payload: Vec<u8>) -> (r: Option<Request>)
        ensures
            payload.len() <= MAX_PAYLOAD <==> r is Some,
            r matches Some(req) ==> req.id == 0 && req.payload == payload && req.wf(),
    {
        if payload.len() <= MAX_PAYLOAD {
            Some(Request { id: 0, payload })
        } else {
            None
        }
    }

    pub fn id(&self) -> (r: u32)
        ensures
            r == self.id,
    {
        self.id
    }

    /// Stamps the request with a correlation id.
    pub fn set_id(&mut self, id: u32)
        ensures
            final(self).id == id,
            final(self).payload == old(self).payload,
    {
        self.id = id;
    }

    /// The whole frame of this request, as written on the wire.
    pub fn as_bytes(&self) -> (r: Vec<u8>)
        requires
            self.wf(),
        ensures
            r@ == frame_bytes(self.id, self.payload@),
    {
        let len = self.payload.len() as u32;
        let id = self.id;
        let mut out: Vec<u8> = Vec::with_capacity(HEADER_LEN + self.payload.len());
        out.push(FRAME_VERSION);
        out.push(0u8);
        out.push(((len / 256) % 256) as u8);
        out.push((len % 256) as u8);
        out.push(((id / 16777216) % 256) as u8);
        out.push(((id / 65536) % 256) as u8);
        out.push(((id / 256) % 256) as u8);
        out.push((id % 256) as u8);
        assert(out@ =~= header(id, self.payload@.len()));
        let mut i: usize = 0;
        while i < self.payload.len()
            invariant
                i <= self.payload.len(),
                out@ =~= header(id, self.payload@.len()) + self.payload@.subrange(0, i as int),
            decreases self.payload.len() - i,
        {
            out.push(self.payload[i]);
            i = i + 1;
            assert(self.payload@.subrange(0, i as int) =~= self.payload@.subrange(0, i - 1).push(self.payload@[i - 1]));
        }
        assert(self.payload@.subrange(0, i as int) =~= self.payload@);
        out
    }
}

impl Response {
    pub fn id(&self) -> (r: u32)
        ensures
            r == self.id,
    {
        self.id
    }
}

proof fn lemma_u32_bytes(x: u32)
    ensures
        be_u32(byte_of(x as int, 3), byte_of(x as int, 2), byte_of(x as int, 1), byte_of(x as int, 0)) == x,
{
    let v = x as int;
    let b3 = (v / 16777216) % 256;
    let b2 = (v / 65536) % 256;
    let b1 = (v / 256) % 256;
    let b0 = v % 256;
    assert(b3 * 16777216 + b2 * 65536 + b1 * 256 + b0 == v) by (nonlinear_arith)
        requires
            0 <= v < 4294967296,
            b3 == (v / 16777216) % 256,
            b2 == (v / 65536) % 256,
            b1 == (v / 256) % 256,
            b0 == v % 256,
    ;
}

proof fn lemma_u16_bytes(x: nat)
    requires
        x <= MAX_PAYLOAD,
    ensures
        be_u16(byte_of(x as int, 1), byte_of(x as int, 0)) == x,
{
    let v = x as int;
    assert(((v / 256) % 256) * 256 + v % 256 == v) by (nonlinear_arith)
        requires
            0 <= v < 65536,
    ;
}

/// Reading back the frame of a request gives its correlation id and its
/// payload, and uses the whole frame.
pub proof fn lemma_frame_round_trip(id: u32, payload: Seq<u8>)
    requires
        payload.len() <= MAX_PAYLOAD,
    ensures
        frame_bytes(id, payload).len() >= HEADER_LEN,
        header_ok(frame_bytes(id, payload)),
        frame_len(frame_bytes(id, payload)) == frame_bytes(id, payload).len(),
        ({
            let b = frame_bytes(id, payload);
            be_u32(b[4], b[5], b[6], b[7]) == id && b.subrange(HEADER_LEN as int, b.len() as int) == payload
        }),
{
    let b = frame_bytes(id, payload);
    lemma_u32_bytes(id);
    lemma_u16_bytes(payload.len());
    assert(b.subrange(HEADER_LEN as int, b.len() as int) =~= payload);
}

/// Reads one response frame from the front of `buf`.
pub fn parse_response(buf: &Vec<u8>) -> (r: Parsed)
    ensures
        buf@.len() < HEADER_LEN ==> r is Incomplete,
        buf@.len() >= HEADER_LEN && !header_ok(buf@) ==> r is Malformed,
        buf@.len() >= HEADER_LEN && header_ok(buf@) && buf@.len() < frame_len(buf@) ==> r is Incomplete,
        buf@.len() >= HEADER_LEN && header_ok(buf@) && buf@.len() >= frame_len(buf@) ==> (r matches Parsed::Complete { response, used } && used == frame_len(buf@)
            && response.id == be_u32(buf@[4], buf@[5], buf@[6], buf@[7])
            && response.payload@ == buf@.subrange(HEADER_LEN as int, used as int)),
{
    if buf.len() < HEADER_LEN {
        return Parsed::Incomplete;
    }
    if buf[0] != FRAME_VERSION || buf[1] != 0 {
        return Parsed::Malformed;
    }
    let len: usize = buf[2] as usize * 256 + buf[3] as usize;
    if buf.len() - HEADER_LEN < len {
        return Parsed::Incomplete;
    }
    let id: u32 = buf[4] as u32 * 16777216 + buf[5] as u32 * 65536 + buf[6] as u32 * 256 + buf[7] as u32;
    let used: usize = HEADER_LEN + len;
    let mut payload: Vec<u8> = Vec::with_capacity(len);
    let mut i: usize = HEADER_LEN;
    while i < used
        invariant
            HEADER_LEN <= i <= used,
            used <= buf.len(),
            payload@ =~= buf@.subrange(HEADER_LEN as int, i as int),
        decreases used - i,
    {
        payload.push(buf[i]);
        i = i + 1;
    }
    Parsed::Complete { response: Response { id, payload }, used }
}

} // verus!
