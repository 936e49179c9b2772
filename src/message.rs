use vstd::prelude::*;
use vstd::string::*;
use vstd::utf8::encode_utf8;
use crate::beam::{Candidate, Decoder, clip_spec};

verus! {

/// Steps of decoding when a request names none.
pub const DEFAULT_MAX_NEW: u32 = 16;

/// A prediction request: the context tokens, and optional overrides of the
/// beam width and of the number of new tokens.
pub struct Request {
    pub tokens: Vec<u32>,
    pub beam_width: Option<u32>,
    pub max_new: Option<u32>,
}

/// The kind tag of an error response.
#[derive(PartialEq, Eq, Structural, Clone, Copy, Debug)]
pub enum ErrorKind {
    Protocol,
    ModelLoad,
    Inference,
    Cancelled,
    Internal,
}

/// A reply: ranked candidates, or an error with a kind and a detail.
pub enum Response {
    Success(Vec<Candidate>),
    Failure(ErrorKind, String),
}

/// The beam width that serves a request: its own, capped by the
/// configured one, or the configured one.
pub open spec fn width_spec(requested: Option<u32>, configured: usize) -> int {
    match requested {
        Some(w) => if (w as int) < configured as int { w as int } else { configured as int },
        None => configured as int,
    }
}

pub fn effective_width(requested: Option<u32>, configured: usize) -> (r: usize)
    ensures
        r == width_spec(requested, configured),
{
    match requested {
        Some(w) => if (w as u64) < (configured as u64) {
            w as usize
        } else {
            configured
        },
        None => configured,
    }
}

/// The number of decoding steps a request asks for.
pub fn effective_max_new(requested: Option<u32>) -> (r: u32)
    ensures
        r == match requested {
            Some(n) => n,
            None => DEFAULT_MAX_NEW,
        },
{
    match requested {
        Some(n) => n,
        None => DEFAULT_MAX_NEW,
    }
}

/// The wire tag of an error kind.
pub open spec fn kind_tag(k: ErrorKind) -> Seq<u8> {
    match k {
        ErrorKind::Protocol => seq![112u8, 114, 111, 116, 111, 99, 111, 108],
        ErrorKind::ModelLoad => seq![109u8, 111, 100, 101, 108, 95, 108, 111, 97, 100],
        ErrorKind::Inference => seq![105u8, 110, 102, 101, 114, 101, 110, 99, 101],
        ErrorKind::Cancelled => seq![99u8, 97, 110, 99, 101, 108, 108, 101, 100],
        ErrorKind::Internal => seq![105u8, 110, 116, 101, 114, 110, 97, 108],
    }
}

/// Decimal digits of `n`, most significant first.
pub open spec fn decimal(n: nat) -> Seq<u8>
    decreases n,
{
    if n < 10 {
        seq![(48 + n) as u8]
    } else {
        decimal(n / 10).push((48 + n % 10) as u8)
    }
}

/// `n` as exactly six digits, zero-padded on the left.
pub open spec fn six_digits(n: nat) -> Seq<u8> {
    seq![
        (48 + (n / 100000) % 10) as u8,
        (48 + (n / 10000) % 10) as u8,
        (48 + (n / 1000) % 10) as u8,
        (48 + (n / 100) % 10) as u8,
        (48 + (n / 10) % 10) as u8,
        (48 + n % 10) as u8,
    ]
}

pub open spec fn abs_int(v: int) -> nat {
    if v < 0 {
        (-v) as nat
    } else {
        v as nat
    }
}

/// A log-probability held in millionths, written as a decimal number with
/// six fractional digits.
pub open spec fn fixed6(v: int) -> Seq<u8> {
    (if v < 0 {
        seq![45u8]
    } else {
        Seq::<u8>::empty()
    }) + decimal(abs_int(v) / 1000000) + seq![46u8] + six_digits(abs_int(v) % 1000000)
}

/// Comma-separated decimal token ids.
pub open spec fn token_list(t: Seq<u32>) -> Seq<u8>
    decreases t.len(),
{
    if t.len() == 0 {
        Seq::empty()
    } else if t.len() == 1 {
        decimal(t[0] as nat)
    } else {
        token_list(t.drop_last()) + seq![44u8] + decimal(t.last() as nat)
    }
}

/// The bytes of an ASCII text.
pub open spec fn ascii(s: Seq<char>) -> Seq<u8> {
    Seq::new(s.len(), |i: int| s[i] as u8)
}

/// `{"tokens":[...],"logprob":...}`
pub open spec fn candidate_json(tokens: Seq<u32>, logprob: int) -> Seq<u8> {
    ascii("{\"tokens\":["@) + token_list(tokens) + ascii("],\"logprob\":"@) + fixed6(logprob)
        + seq![125u8]
}

/// The candidates' texts, comma-separated.
pub open spec fn candidates_json(c: Seq<Candidate>) -> Seq<u8>
    decreases c.len(),
{
    if c.len() == 0 {
        Seq::empty()
    } else if c.len() == 1 {
        candidate_json(c[0].tokens@, c[0].logprob as int)
    } else {
        candidates_json(c.drop_last()) + seq![44u8] + candidate_json(
            c.last().tokens@,
            c.last().logprob as int,
        )
    }
}

/// The JSON text of a string's bytes: quoted, with `"`, `\` and control
/// bytes escaped.
pub open spec fn escaped(b: Seq<u8>) -> Seq<u8>
    decreases b.len(),
{
    if b.len() == 0 {
        Seq::empty()
    } else {
        escaped(b.drop_last()) + escape_byte(b.last())
    }
}

pub open spec fn hex_digit(n: u8) -> u8 {
    if n < 10 {
        (48 + n) as u8
    } else {
        (87 + n) as u8
    }
}

pub open spec fn escape_byte(c: u8) -> Seq<u8> {
    if c == 34 {
        seq![92u8, 34]
    } else if c == 92 {
        seq![92u8, 92]
    } else if c < 32 {
        seq![92u8, 117, 48, 48, hex_digit(c / 16), hex_digit(c % 16)]
    } else {
        seq![c]
    }
}

/// Appends the bytes of the ASCII text `s`.
pub fn push_text(out: &mut Vec<u8>, s: &str)
    requires
        is_ascii(s),
    ensures
        final(out)@ == old(out)@ + ascii(s@),
{
    proof {
        broadcast use is_ascii_spec_bytes;
    }
    let b = s.as_bytes_vec();
    assert(b@ =~= ascii(s@));
    push_all(out, &b);
}

/// Appends the decimal digits of `n`.
pub fn push_decimal(out: &mut Vec<u8>, n: u64)
    ensures
        final(out)@ == old(out)@ + decimal(n as nat),
    decreases n,
{
    if n >= 10 {
        push_decimal(out, n / 10);
    }
    out.push((48 + n % 10) as u8);
    proof {
        if n < 10 {
            assert(decimal(n as nat) == seq![(48 + n) as u8]);
        }
    }
    assert(final(out)@ =~= old(out)@ + decimal(n as nat));
}

/// Appends the bytes of `s`.
pub fn push_all(out: &mut Vec<u8>, s: &Vec<u8>)
    ensures
        final(out)@ == old(out)@ + s@,
{
    let mut i: usize = 0;
    while i < s.len()
        invariant
            i <= s@.len(),
            out@ == old(out)@ + s@.subrange(0, i as int),
        decreases s@.len() - i,
    {
        out.push(s[i]);
        i = i + 1;
        assert(out@ =~= old(out)@ + s@.subrange(0, i as int));
    }
    assert(s@.subrange(0, s@.len() as int) =~= s@);
}

/// Appends `v` millionths as a decimal with six fractional digits.
pub fn push_fixed6(out: &mut Vec<u8>, v: i64)
    ensures
        final(out)@ == old(out)@ + fixed6(v as int),
{
    let ghost start = out@;
    let a: u64 = if v < 0 {
        out.push(45u8);
        (-(v as i128)) as u64
    } else {
        v as u64
    };
    let ghost mid = out@;
    push_decimal(out, a / 1000000);
    out.push(46u8);
    let f = a % 1000000;
    out.push((48 + (f / 100000) % 10) as u8);
    out.push((48 + (f / 10000) % 10) as u8);
    out.push((48 + (f / 1000) % 10) as u8);
    out.push((48 + (f / 100) % 10) as u8);
    out.push((48 + (f / 10) % 10) as u8);
    out.push((48 + f % 10) as u8);
    assert(a as nat == abs_int(v as int));
    assert(mid =~= start + (if v < 0 {
        seq![45u8]
    } else {
        Seq::<u8>::empty()
    }));
    assert(out@ =~= start + fixed6(v as int));
}

/// Appends the comma-separated decimal ids of `t`.
pub fn push_token_list(out: &mut Vec<u8>, t: &Vec<u32>)
    ensures
        final(out)@ == old(out)@ + token_list(t@),
{
    let mut i: usize = 0;
    while i < t.len()
        invariant
            i <= t@.len(),
            out@ == old(out)@ + token_list(t@.subrange(0, i as int)),
        decreases t@.len() - i,
    {
        let ghost before = out@;
        if i > 0 {
            out.push(44u8);
        }
        push_decimal(out, t[i] as u64);
        proof {
            let s = t@.subrange(0, i as int + 1);
            assert(s.drop_last() =~= t@.subrange(0, i as int));
            assert(s.last() == t@[i as int]);
            if i == 0 {
                assert(token_list(t@.subrange(0, 0)) =~= Seq::<u8>::empty());
                assert(out@ =~= old(out)@ + token_list(s));
            } else {
                assert(out@ =~= old(out)@ + token_list(s));
            }
        }
        i = i + 1;
    }
    assert(t@.subrange(0, t@.len() as int) =~= t@);
}

/// Appends the JSON text of one candidate.
pub fn push_candidate(out: &mut Vec<u8>, c: &Candidate)
    ensures
        final(out)@ == old(out)@ + candidate_json(c.tokens@, c.logprob as int),
{
    let ghost start = out@;
    proof {
        reveal_strlit("{\"tokens\":[");
        reveal_strlit("],\"logprob\":");
    }
    push_text(out, "{\"tokens\":[");
    push_token_list(out, &c.tokens);
    push_text(out, "],\"logprob\":");
    push_fixed6(out, c.logprob);
    out.push(125u8);
    assert(out@ =~= start + candidate_json(c.tokens@, c.logprob as int));
}

/// The JSON text of a response.
pub open spec fn response_json(r: Response) -> Seq<u8> {
    match r {
        Response::Success(c) => ascii("{\"status\":\"ok\",\"candidates\":["@) + candidates_json(c@)
            + ascii("]}"@),
        Response::Failure(k, detail) => ascii("{\"status\":\"error\",\"kind\":\""@) + kind_tag(k)
            + ascii("\",\"detail\":\""@) + escaped(encode_utf8(detail@)) + ascii("\"}"@),
    }
}

/// Appends the JSON text of the candidates, comma-separated.
pub fn push_candidates(out: &mut Vec<u8>, c: &Vec<Candidate>)
    ensures
        final(out)@ == old(out)@ + candidates_json(c@),
{
    let mut i: usize = 0;
    while i < c.len()
        invariant
            i <= c@.len(),
            out@ == old(out)@ + candidates_json(c@.subrange(0, i as int)),
        decreases c@.len() - i,
    {
        if i > 0 {
            out.push(44u8);
        }
        push_candidate(out, &c[i]);
        proof {
            let s = c@.subrange(0, i as int + 1);
            assert(s.drop_last() =~= c@.subrange(0, i as int));
            assert(s.last() == c@[i as int]);
            if i == 0 {
                assert(candidates_json(c@.subrange(0, 0)) =~= Seq::<u8>::empty());
            }
            assert(out@ =~= old(out)@ + candidates_json(s));
        }
        i = i + 1;
    }
    assert(c@.subrange(0, c@.len() as int) =~= c@);
}

/// Appends `b` with `"`, `\` and control bytes escaped.
pub fn push_escaped(out: &mut Vec<u8>, b: &Vec<u8>)
    ensures
        final(out)@ == old(out)@ + escaped(b@),
{
    let mut i: usize = 0;
    while i < b.len()
        invariant
            i <= b@.len(),
            out@ == old(out)@ + escaped(b@.subrange(0, i as int)),
        decreases b@.len() - i,
    {
        let c = b[i];
        if c == 34u8 {
            out.push(92u8);
            out.push(34u8);
        } else if c == 92u8 {
            out.push(92u8);
            out.push(92u8);
        } else if c < 32u8 {
            let hi = c / 16;
            let lo = c % 16;
            out.push(92u8);
            out.push(117u8);
            out.push(48u8);
            out.push(48u8);
            out.push(if hi < 10 { 48 + hi } else { 87 + hi });
            out.push(if lo < 10 { 48 + lo } else { 87 + lo });
        } else {
            out.push(c);
        }
        proof {
            let s = b@.subrange(0, i as int + 1);
            assert(s.drop_last() =~= b@.subrange(0, i as int));
            assert(s.last() == c);
            assert(out@ =~= old(out)@ + escaped(s));
        }
        i = i + 1;
    }
    assert(b@.subrange(0, b@.len() as int) =~= b@);
}

/// Appends the wire tag of `k`.
pub fn push_kind(out: &mut Vec<u8>, k: ErrorKind)
    ensures
        final(out)@ == old(out)@ + kind_tag(k),
{
    let tag: Vec<u8> = match k {
        ErrorKind::Protocol => vec![112u8, 114, 111, 116, 111, 99, 111, 108],
        ErrorKind::ModelLoad => vec![109u8, 111, 100, 101, 108, 95, 108, 111, 97, 100],
        ErrorKind::Inference => vec![105u8, 110, 102, 101, 114, 101, 110, 99, 101],
        ErrorKind::Cancelled => vec![99u8, 97, 110, 99, 101, 108, 108, 101, 100],
        ErrorKind::Internal => vec![105u8, 110, 116, 101, 114, 110, 97, 108],
    };
    assert(tag@ =~= kind_tag(k));
    push_all(out, &tag);
}

/// The JSON payload of a response.
pub fn encode_response(r: &Response) -> (out: Vec<u8>)
    ensures
        out@ == response_json(*r),
{
    let mut out: Vec<u8> = Vec::new();
    match r {
        Response::Success(c) => {
            proof {
                reveal_strlit("{\"status\":\"ok\",\"candidates\":[");
                reveal_strlit("]}");
            }
            push_text(&mut out, "{\"status\":\"ok\",\"candidates\":[");
            push_candidates(&mut out, c);
            push_text(&mut out, "]}");
        },
        Response::Failure(k, detail) => {
            proof {
                reveal_strlit("{\"status\":\"error\",\"kind\":\"");
                reveal_strlit("\",\"detail\":\"");
                reveal_strlit("\"}");
            }
            push_text(&mut out, "{\"status\":\"error\",\"kind\":\"");
            push_kind(&mut out, *k);
            push_text(&mut out, "\",\"detail\":\"");
            let bytes = detail.as_str().as_bytes_vec();
            push_escaped(&mut out, &bytes);
            push_text(&mut out, "\"}");
        },
    }
    assert(out@ =~= response_json(*r));
    out
}

/// The search that serves `req`: from the last `window` tokens of its
/// prefix, with its beam width capped by the configured one, for its number
/// of steps. A request for width zero has none.
pub fn decoder_for(req: &Request, configured_width: usize, window: usize, eos: u32) -> (r: Option<
    Decoder,
>)
    requires
        configured_width >= 1,
        window >= 1,
    ensures
        r is None <==> req.beam_width == Some(0u32),
        r is Some ==> ({
            let d = r->Some_0;
            &&& d.wf()
            &&& d.width_view() == width_spec(req.beam_width, configured_width)
            &&& d.steps_left_view() == (match req.max_new {
                Some(n) => n,
                None => DEFAULT_MAX_NEW,
            })
            &&& d.window_view() == window
            &&& d.eos_view() == eos
            &&& d.beam_view().len() == 1
            &&& d.beam_view()[0].tokens@ == clip_spec(req.tokens@, window as int)
            &&& d.beam_view()[0].score == 0
            &&& !d.beam_view()[0].finished
        }),
{
    if req.beam_width == Some(0u32) {
        return None;
    }
    let width = effective_width(req.beam_width, configured_width);
    let steps = effective_max_new(req.max_new);
    Some(Decoder::new(&req.tokens, width, steps as usize, window, eos))
}

} // verus!
