use vstd::prelude::*;

verus! {

/// Largest payload a frame may carry: 1 MiB.
pub const MAX_FRAME_LEN: usize = 1048576;

/// The 4-byte header is the payload length, big-endian.
pub const HEADER_LEN: usize = 4;

/// Why bytes could not be framed or unframed.
#[derive(PartialEq, Eq, Structural, Clone, Copy, Debug)]
pub enum FrameError {
    /// The length exceeds `MAX_FRAME_LEN`.
    Oversized,
    /// Fewer bytes than the header, or than the length it announces.
    Incomplete,
}

/// The value of four bytes read big-endian.
pub open spec fn be_value(b0: u8, b1: u8, b2: u8, b3: u8) -> int {
    b0 as int * 16777216 + b1 as int * 65536 + b2 as int * 256 + b3 as int
}

/// The four big-endian bytes of `n`.
pub open spec fn be_bytes(n: int) -> Seq<u8> {
    seq![
        ((n / 16777216) % 256) as u8,
        ((n / 65536) % 256) as u8,
        ((n / 256) % 256) as u8,
        (n % 256) as u8,
    ]
}

/// The bytes of a frame carrying `payload`.
pub open spec fn frame_spec(payload: Seq<u8>) -> Seq<u8> {
    be_bytes(payload.len() as int) + payload
}

/// The length announced by the header at the start of `buf`.
pub open spec fn announced(buf: Seq<u8>) -> int {
    be_value(buf[0], buf[1], buf[2], buf[3])
}

/// What unframing `buf` gives: the first frame's payload and the number of
/// bytes it took, or why there is none.
pub open spec fn unframe_spec(buf: Seq<u8>) -> Result<(Seq<u8>, int), FrameError> {
    if buf.len() < 4 {
        Err(FrameError::Incomplete)
    } else if announced(buf) > MAX_FRAME_LEN {
        Err(FrameError::Oversized)
    } else if buf.len() < 4 + announced(buf) {
        Err(FrameError::Incomplete)
    } else {
        Ok((buf.subrange(4, 4 + announced(buf)), 4 + announced(buf)))
    }
}

pub proof fn lemma_be_round_trip(n: int)
    requires
        0 <= n < 4294967296,
    ensures
        be_bytes(n).len() == 4,
        be_value(be_bytes(n)[0], be_bytes(n)[1], be_bytes(n)[2], be_bytes(n)[3]) == n,
{
    let b = be_bytes(n);
    assert(b[0] as int == (n / 16777216) % 256);
    assert(b[1] as int == (n / 65536) % 256);
    assert(b[2] as int == (n / 256) % 256);
    assert(b[3] as int == n % 256);
    assert(((n / 16777216) % 256) * 16777216 + ((n / 65536) % 256) * 65536 + ((n / 256) % 256)
        * 256 + n % 256 == n) by (nonlinear_arith)
        requires
            0 <= n < 4294967296,
    ;
}

/// Unframing a frame gives back its payload, whatever bytes follow it, for
/// every payload within the size limit.
pub proof fn lemma_frame_round_trip(payload: Seq<u8>, rest: Seq<u8>)
    requires
        payload.len() <= MAX_FRAME_LEN,
    ensures
        unframe_spec(frame_spec(payload) + rest) == Ok::<(Seq<u8>, int), FrameError>(
            (payload, 4 + payload.len() as int),
        ),
{
    let buf = frame_spec(payload) + rest;
    lemma_be_round_trip(payload.len() as int);
    assert(buf[0] == be_bytes(payload.len() as int)[0]);
    assert(buf[1] == be_bytes(payload.len() as int)[1]);
    assert(buf[2] == be_bytes(payload.len() as int)[2]);
    assert(buf[3] == be_bytes(payload.len() as int)[3]);
    assert(announced(buf) == payload.len());
    assert(buf.subrange(4, 4 + payload.len() as int) =~= payload);
}

/// The payload length that a header announces, checked against the limit
/// before any payload is read.
pub fn header_len(header: &[u8; 4]) -> (r: Result<usize, FrameError>)
    ensures
        r == (if be_value(header@[0], header@[1], header@[2], header@[3]) > MAX_FRAME_LEN {
            Err::<usize, FrameError>(FrameError::Oversized)
        } else {
            Ok(be_value(header@[0], header@[1], header@[2], header@[3]) as usize)
        }),
{
    let n: u64 = header[0] as u64 * 16777216 + header[1] as u64 * 65536 + header[2] as u64 * 256
        + header[3] as u64;
    if n > MAX_FRAME_LEN as u64 {
        Err(FrameError::Oversized)
    } else {
        Ok(n as usize)
    }
}

/// The frame that carries `payload`: its length big-endian, then the
/// payload.
pub fn encode_frame(payload: &Vec<u8>) -> (r: Result<Vec<u8>, FrameError>)
    ensures
        payload@.len() > MAX_FRAME_LEN ==> r == Err::<Vec<u8>, FrameError>(FrameError::Oversized),
        payload@.len() <= MAX_FRAME_LEN ==> r is Ok && r->Ok_0@ == frame_spec(payload@),
{
    let n = payload.len();
    if n > MAX_FRAME_LEN {
        return Err(FrameError::Oversized);
    }
    let mut out: Vec<u8> = Vec::new();
    out.push(((n / 16777216) % 256) as u8);
    out.push(((n / 65536) % 256) as u8);
    out.push(((n / 256) % 256) as u8);
    out.push((n % 256) as u8);
    assert(out@ =~= be_bytes(n as int));
    let mut i: usize = 0;
    while i < n
        invariant
            n == payload@.len(),
            i <= n,
            out@ == be_bytes(n as int) + payload@.subrange(0, i as int),
        decreases n - i,
    {
        out.push(payload[i]);
        i = i + 1;
        assert(out@ =~= be_bytes(n as int) + payload@.subrange(0, i as int));
    }
    assert(payload@.subrange(0, n as int) =~= payload@);
    Ok(out)
}

/// The first frame in `buf`: its payload and the number of bytes it took.
pub fn decode_frame(buf: &Vec<u8>) -> (r: Result<(Vec<u8>, usize), FrameError>)
    ensures
        match unframe_spec(buf@) {
            Ok((p, used)) => r is Ok && r->Ok_0.0@ == p && r->Ok_0.1 == used,
            Err(e) => r == Err::<(Vec<u8>, usize), FrameError>(e),
        },
{
    if buf.len() < HEADER_LEN {
        return Err(FrameError::Incomplete);
    }
    let header: [u8; 4] = [buf[0], buf[1], buf[2], buf[3]];
    let n = match header_len(&header) {
        Ok(n) => n,
        Err(e) => {
            return Err(e);
        },
    };
    if buf.len() - HEADER_LEN < n {
        return Err(FrameError::Incomplete);
    }
    let mut p: Vec<u8> = Vec::new();
    let mut i: usize = 0;
    while i < n
        invariant
            4 + n <= buf@.len(),
            buf@.len() <= usize::MAX,
            i <= n,
            p@ == buf@.subrange(4, 4 + i as int),
        decreases n - i,
    {
        p.push(buf[HEADER_LEN + i]);
        i = i + 1;
        assert(p@ =~= buf@.subrange(4, 4 + i as int));
    }
    Ok((p, HEADER_LEN + n))
}

} // verus!
