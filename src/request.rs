use vstd::prelude::*;
use crate::message::{Request, decimal, token_list, push_all, push_decimal, push_token_list};

verus! {

/// Where the reader of a request object stands.
#[derive(PartialEq, Eq, Structural, Clone, Copy, Debug)]
pub enum Phase {
    Start,
    ObjOpen,
    ExpectKey,
    Key,
    AfterKey,
    BeforeValue,
    StrVal,
    ListOpen,
    ListNum,
    ListAfterNum,
    ListSep,
    Num,
    Null,
    AfterValue,
    Done,
    Fail,
}

/// The members a request object may hold.
#[derive(PartialEq, Eq, Structural, Clone, Copy, Debug)]
pub enum Field {
    Op,
    Tokens,
    BeamWidth,
    MaxNew,
}

/// The scalar part of the reader's state.
#[derive(PartialEq, Eq, Structural, Clone, Copy, Debug)]
pub struct Scan {
    pub phase: Phase,
    pub field: Field,
    pub acc: u64,
    pub ndigits: u8,
    pub leading_zero: bool,
    pub null_pos: u8,
    pub seen_op: bool,
    pub seen_tokens: bool,
    pub seen_beam_width: bool,
    pub seen_max_new: bool,
    pub beam_width: Option<u32>,
    pub max_new: Option<u32>,
}

/// The reader's whole state: scalars, the token ids read so far, and the
/// text of the key or string being read.
pub struct ParseState {
    pub scan: Scan,
    pub tokens: Seq<u32>,
    pub buf: Seq<u8>,
}

/// Why a payload is not a request.
#[derive(PartialEq, Eq, Structural, Clone, Copy, Debug)]
pub enum ParseError {
    /// Not a JSON object of the request's members, or a member is malformed.
    Syntax,
    /// No `op` member.
    MissingOp,
    /// No `tokens` member.
    MissingTokens,
    /// `tokens` is empty.
    EmptyTokens,
}

/// Longest key or string value the reader holds.
pub const MAX_TEXT: usize = 16;

pub open spec fn is_ws(c: u8) -> bool {
    c == 32 || c == 9 || c == 10 || c == 13
}

pub open spec fn is_digit(c: u8) -> bool {
    48 <= c <= 57
}

pub open spec fn key_field(k: Seq<u8>) -> Option<Field> {
    if k == seq![111u8, 112] {
        Some(Field::Op)
    } else if k == seq![116u8, 111, 107, 101, 110, 115] {
        Some(Field::Tokens)
    } else if k == seq![98u8, 101, 97, 109, 95, 119, 105, 100, 116, 104] {
        Some(Field::BeamWidth)
    } else if k == seq![109u8, 97, 120, 95, 110, 101, 119] {
        Some(Field::MaxNew)
    } else {
        None
    }
}

/// The text `predict`.
pub open spec fn predict_text() -> Seq<u8> {
    seq![112u8, 114, 101, 100, 105, 99, 116]
}

pub open spec fn was_seen(s: Scan, f: Field) -> bool {
    match f {
        Field::Op => s.seen_op,
        Field::Tokens => s.seen_tokens,
        Field::BeamWidth => s.seen_beam_width,
        Field::MaxNew => s.seen_max_new,
    }
}

pub open spec fn mark_seen(s: Scan, f: Field) -> Scan {
    match f {
        Field::Op => Scan { seen_op: true, ..s },
        Field::Tokens => Scan { seen_tokens: true, ..s },
        Field::BeamWidth => Scan { seen_beam_width: true, ..s },
        Field::MaxNew => Scan { seen_max_new: true, ..s },
    }
}

pub open spec fn with_phase(s: Scan, p: Phase) -> Scan {
    Scan { phase: p, ..s }
}

/// A number starts with digit `c`.
pub open spec fn start_number(s: Scan, p: Phase, c: u8) -> Scan {
    Scan { phase: p, acc: (c - 48) as u64, ndigits: 1, leading_zero: c == 48, ..s }
}

/// Digit `c` continues a number: no leading zero, at most ten digits.
pub open spec fn more_digits(s: Scan, c: u8) -> Scan {
    if s.leading_zero || s.ndigits >= 10 {
        with_phase(s, Phase::Fail)
    } else {
        Scan { acc: (s.acc * 10 + (c - 48)) as u64, ndigits: (s.ndigits + 1) as u8, ..s }
    }
}

/// The number just read completes the member being read; `p` follows.
pub open spec fn store_number(s: Scan, p: Phase) -> Scan {
    if s.acc > u32::MAX {
        with_phase(s, Phase::Fail)
    } else if s.field == Field::BeamWidth {
        Scan { phase: p, beam_width: Some(s.acc as u32), ..s }
    } else {
        Scan { phase: p, max_new: Some(s.acc as u32), ..s }
    }
}

pub open spec fn fail(st: ParseState) -> ParseState {
    ParseState { scan: with_phase(st.scan, Phase::Fail), ..st }
}

pub open spec fn goto(st: ParseState, p: Phase) -> ParseState {
    ParseState { scan: with_phase(st.scan, p), ..st }
}

/// The reader's state after byte `c`.
pub open spec fn step(st: ParseState, c: u8) -> ParseState {
    let s = st.scan;
    match s.phase {
        Phase::Start => if is_ws(c) {
            st
        } else if c == 123 {
            goto(st, Phase::ObjOpen)
        } else {
            fail(st)
        },
        Phase::ObjOpen => if is_ws(c) {
            st
        } else if c == 34 {
            ParseState { scan: with_phase(s, Phase::Key), buf: Seq::empty(), ..st }
        } else if c == 125 {
            goto(st, Phase::Done)
        } else {
            fail(st)
        },
        Phase::ExpectKey => if is_ws(c) {
            st
        } else if c == 34 {
            ParseState { scan: with_phase(s, Phase::Key), buf: Seq::empty(), ..st }
        } else {
            fail(st)
        },
        Phase::Key => if c == 34 {
            match key_field(st.buf) {
                Some(f) => if was_seen(s, f) {
                    fail(st)
                } else {
                    ParseState {
                        scan: Scan { phase: Phase::AfterKey, field: f, ..mark_seen(s, f) },
                        ..st
                    }
                },
                None => fail(st),
            }
        } else if c == 92 || c < 32 || st.buf.len() >= MAX_TEXT {
            fail(st)
        } else {
            ParseState { buf: st.buf.push(c), ..st }
        },
        Phase::AfterKey => if is_ws(c) {
            st
        } else if c == 58 {
            goto(st, Phase::BeforeValue)
        } else {
            fail(st)
        },
        Phase::BeforeValue => if is_ws(c) {
            st
        } else {
            match s.field {
                Field::Op => if c == 34 {
                    ParseState { scan: with_phase(s, Phase::StrVal), buf: Seq::empty(), ..st }
                } else {
                    fail(st)
                },
                Field::Tokens => if c == 91 {
                    goto(st, Phase::ListOpen)
                } else {
                    fail(st)
                },
                _ => if is_digit(c) {
                    ParseState { scan: start_number(s, Phase::Num, c), ..st }
                } else if c == 110 {
                    ParseState { scan: Scan { phase: Phase::Null, null_pos: 1, ..s }, ..st }
                } else {
                    fail(st)
                },
            }
        },
        Phase::StrVal => if c == 34 {
            if st.buf == predict_text() {
                goto(st, Phase::AfterValue)
            } else {
                fail(st)
            }
        } else if c == 92 || c < 32 || st.buf.len() >= MAX_TEXT {
            fail(st)
        } else {
            ParseState { buf: st.buf.push(c), ..st }
        },
        Phase::ListOpen => if is_ws(c) {
            st
        } else if c == 93 {
            goto(st, Phase::AfterValue)
        } else if is_digit(c) {
            ParseState { scan: start_number(s, Phase::ListNum, c), ..st }
        } else {
            fail(st)
        },
        Phase::ListNum => if is_digit(c) {
            ParseState { scan: more_digits(s, c), ..st }
        } else if is_ws(c) || c == 44 || c == 93 {
            if s.acc > u32::MAX {
                fail(st)
            } else {
                let p = if is_ws(c) {
                    Phase::ListAfterNum
                } else if c == 44 {
                    Phase::ListSep
                } else {
                    Phase::AfterValue
                };
                ParseState { scan: with_phase(s, p), tokens: st.tokens.push(s.acc as u32), ..st }
            }
        } else {
            fail(st)
        },
        Phase::ListAfterNum => if is_ws(c) {
            st
        } else if c == 44 {
            goto(st, Phase::ListSep)
        } else if c == 93 {
            goto(st, Phase::AfterValue)
        } else {
            fail(st)
        },
        Phase::ListSep => if is_ws(c) {
            st
        } else if is_digit(c) {
            ParseState { scan: start_number(s, Phase::ListNum, c), ..st }
        } else {
            fail(st)
        },
        Phase::Num => if is_digit(c) {
            ParseState { scan: more_digits(s, c), ..st }
        } else if is_ws(c) {
            ParseState { scan: store_number(s, Phase::AfterValue), ..st }
        } else if c == 44 {
            ParseState { scan: store_number(s, Phase::ExpectKey), ..st }
        } else if c == 125 {
            ParseState { scan: store_number(s, Phase::Done), ..st }
        } else {
            fail(st)
        },
        Phase::Null => if (s.null_pos == 1 && c == 117) || (s.null_pos == 2 && c == 108) {
            ParseState { scan: Scan { null_pos: (s.null_pos + 1) as u8, ..s }, ..st }
        } else if s.null_pos == 3 && c == 108 {
            goto(st, Phase::AfterValue)
        } else {
            fail(st)
        },
        Phase::AfterValue => if is_ws(c) {
            st
        } else if c == 44 {
            goto(st, Phase::ExpectKey)
        } else if c == 125 {
            goto(st, Phase::Done)
        } else {
            fail(st)
        },
        Phase::Done => if is_ws(c) {
            st
        } else {
            fail(st)
        },
        Phase::Fail => st,
    }
}

pub open spec fn initial_scan() -> Scan {
    Scan {
        phase: Phase::Start,
        field: Field::Op,
        acc: 0,
        ndigits: 0,
        leading_zero: false,
        null_pos: 0,
        seen_op: false,
        seen_tokens: false,
        seen_beam_width: false,
        seen_max_new: false,
        beam_width: None,
        max_new: None,
    }
}

/// The reader's state after the bytes `b`.
pub open spec fn state_after(b: Seq<u8>) -> ParseState
    decreases b.len(),
{
    if b.len() == 0 {
        ParseState { scan: initial_scan(), tokens: Seq::empty(), buf: Seq::empty() }
    } else {
        step(state_after(b.drop_last()), b.last())
    }
}

/// What reading payload `b` as a request gives: the request's tokens and
/// overrides, or why it is not one.
pub open spec fn parse_spec(b: Seq<u8>) -> Result<(Seq<u32>, Option<u32>, Option<u32>), ParseError> {
    let st = state_after(b);
    if st.scan.phase != Phase::Done {
        Err(ParseError::Syntax)
    } else if !st.scan.seen_op {
        Err(ParseError::MissingOp)
    } else if !st.scan.seen_tokens {
        Err(ParseError::MissingTokens)
    } else if st.tokens.len() == 0 {
        Err(ParseError::EmptyTokens)
    } else {
        Ok((st.tokens, st.scan.beam_width, st.scan.max_new))
    }
}

fn same_bytes(a: &Vec<u8>, b: &Vec<u8>) -> (r: bool)
    ensures
        r == (a@ == b@),
{
    if a.len() != b.len() {
        return false;
    }
    let mut i: usize = 0;
    while i < a.len()
        invariant
            a@.len() == b@.len(),
            i <= a@.len(),
            forall|j: int| 0 <= j < i ==> a@[j] == b@[j],
        decreases a@.len() - i,
    {
        if a[i] != b[i] {
            return false;
        }
        i = i + 1;
    }
    assert(a@ =~= b@);
    true
}

fn lookup_key(k: &Vec<u8>) -> (r: Option<Field>)
    ensures
        r == key_field(k@),
{
    let op: Vec<u8> = vec![111u8, 112];
    let tokens: Vec<u8> = vec![116u8, 111, 107, 101, 110, 115];
    let bw: Vec<u8> = vec![98u8, 101, 97, 109, 95, 119, 105, 100, 116, 104];
    let mn: Vec<u8> = vec![109u8, 97, 120, 95, 110, 101, 119];
    assert(op@ =~= seq![111u8, 112]);
    assert(tokens@ =~= seq![116u8, 111, 107, 101, 110, 115]);
    assert(bw@ =~= seq![98u8, 101, 97, 109, 95, 119, 105, 100, 116, 104]);
    assert(mn@ =~= seq![109u8, 97, 120, 95, 110, 101, 119]);
    if same_bytes(k, &op) {
        Some(Field::Op)
    } else if same_bytes(k, &tokens) {
        Some(Field::Tokens)
    } else if same_bytes(k, &bw) {
        Some(Field::BeamWidth)
    } else if same_bytes(k, &mn) {
        Some(Field::MaxNew)
    } else {
        None
    }
}

fn ws(c: u8) -> (r: bool)
    ensures
        r == is_ws(c),
{
    c == 32 || c == 9 || c == 10 || c == 13
}

fn digit(c: u8) -> (r: bool)
    ensures
        r == is_digit(c),
{
    48 <= c && c <= 57
}

fn seen_exec(s: &Scan, f: Field) -> (r: bool)
    ensures
        r == was_seen(*s, f),
{
    match f {
        Field::Op => s.seen_op,
        Field::Tokens => s.seen_tokens,
        Field::BeamWidth => s.seen_beam_width,
        Field::MaxNew => s.seen_max_new,
    }
}

fn mark_exec(s: &mut Scan, f: Field)
    ensures
        *final(s) == mark_seen(*old(s), f),
{
    match f {
        Field::Op => s.seen_op = true,
        Field::Tokens => s.seen_tokens = true,
        Field::BeamWidth => s.seen_beam_width = true,
        Field::MaxNew => s.seen_max_new = true,
    }
}

fn start_exec(s: &mut Scan, p: Phase, c: u8)
    requires
        is_digit(c),
    ensures
        *final(s) == start_number(*old(s), p, c),
{
    s.phase = p;
    s.acc = (c - 48) as u64;
    s.ndigits = 1;
    s.leading_zero = c == 48;
}

fn more_exec(s: &mut Scan, c: u8)
    requires
        is_digit(c),
        old(s).ndigits <= 10,
        old(s).acc < pow10(old(s).ndigits as nat),
    ensures
        *final(s) == more_digits(*old(s), c),
        final(s).ndigits <= 10,
        final(s).acc < pow10(final(s).ndigits as nat),
{
    if s.leading_zero || s.ndigits >= 10 {
        s.phase = Phase::Fail;
    } else {
        proof {
            assert(pow10(s.ndigits as nat + 1) == 10 * pow10(s.ndigits as nat));
            reveal_with_fuel(pow10, 11);
            assert(pow10(10) == 10000000000);
            lemma_pow10_mono(s.ndigits as nat, 9);
        }
        s.acc = s.acc * 10 + (c - 48) as u64;
        s.ndigits = s.ndigits + 1;
    }
}

fn store_exec(s: &mut Scan, p: Phase)
    ensures
        *final(s) == store_number(*old(s), p),
{
    if s.acc > u32::MAX as u64 {
        s.phase = Phase::Fail;
    } else if s.field == Field::BeamWidth {
        s.phase = p;
        s.beam_width = Some(s.acc as u32);
    } else {
        s.phase = p;
        s.max_new = Some(s.acc as u32);
    }
}

pub open spec fn pow10(n: nat) -> nat
    decreases n,
{
    if n == 0 {
        1
    } else {
        10 * pow10((n - 1) as nat)
    }
}

proof fn lemma_pow10_mono(a: nat, b: nat)
    requires
        a <= b,
    ensures
        pow10(a) <= pow10(b),
    decreases b,
{
    if a < b {
        lemma_pow10_mono(a, (b - 1) as nat);
    }
}

/// Whether the numeric fields of `s` are within their bounds.
pub open spec fn scan_ok(s: Scan) -> bool {
    s.ndigits <= 10 && s.acc < pow10(s.ndigits as nat) && s.null_pos <= 3
}

proof fn lemma_step_keeps_ok(st: ParseState, c: u8)
    requires
        scan_ok(st.scan),
    ensures
        scan_ok(step(st, c).scan),
{
    reveal_with_fuel(pow10, 2);
        assert(pow10(1) == 10);
}

/// Feeds byte `c` to the reader.
#[verifier::rlimit(100)]
fn feed(s: &mut Scan, tokens: &mut Vec<u32>, buf: &mut Vec<u8>, c: u8)
    requires
        scan_ok(*old(s)),
    ensures
        scan_ok(*final(s)),
        (ParseState { scan: *final(s), tokens: final(tokens)@, buf: final(buf)@ }) == step(
            ParseState { scan: *old(s), tokens: old(tokens)@, buf: old(buf)@ },
            c,
        ),
{
    let ghost st = ParseState { scan: *s, tokens: tokens@, buf: buf@ };
    proof {
        lemma_step_keeps_ok(st, c);
        reveal_with_fuel(pow10, 2);
        assert(pow10(1) == 10);
    }
    match s.phase {
        Phase::Start => {
            if ws(c) {
            } else if c == 123 {
                s.phase = Phase::ObjOpen;
            } else {
                s.phase = Phase::Fail;
            }
        },
        Phase::ObjOpen => {
            if ws(c) {
            } else if c == 34 {
                s.phase = Phase::Key;
                buf.clear();
            } else if c == 125 {
                s.phase = Phase::Done;
            } else {
                s.phase = Phase::Fail;
            }
        },
        Phase::ExpectKey => {
            if ws(c) {
            } else if c == 34 {
                s.phase = Phase::Key;
                buf.clear();
            } else {
                s.phase = Phase::Fail;
            }
        },
        Phase::Key => {
            if c == 34 {
                match lookup_key(buf) {
                    Some(f) => {
                        if seen_exec(s, f) {
                            s.phase = Phase::Fail;
                        } else {
                            mark_exec(s, f);
                            s.phase = Phase::AfterKey;
                            s.field = f;
                        }
                    },
                    None => {
                        s.phase = Phase::Fail;
                    },
                }
            } else if c == 92 || c < 32 || buf.len() >= MAX_TEXT {
                s.phase = Phase::Fail;
            } else {
                buf.push(c);
            }
        },
        Phase::AfterKey => {
            if ws(c) {
            } else if c == 58 {
                s.phase = Phase::BeforeValue;
            } else {
                s.phase = Phase::Fail;
            }
        },
        Phase::BeforeValue => {
            if ws(c) {
            } else {
                match s.field {
                    Field::Op => {
                        if c == 34 {
                            s.phase = Phase::StrVal;
                            buf.clear();
                        } else {
                            s.phase = Phase::Fail;
                        }
                    },
                    Field::Tokens => {
                        if c == 91 {
                            s.phase = Phase::ListOpen;
                        } else {
                            s.phase = Phase::Fail;
                        }
                    },
                    _ => {
                        if digit(c) {
                            start_exec(s, Phase::Num, c);
                        } else if c == 110 {
                            s.phase = Phase::Null;
                            s.null_pos = 1;
                        } else {
                            s.phase = Phase::Fail;
                        }
                    },
                }
            }
        },
        Phase::StrVal => {
            if c == 34 {
                let predict: Vec<u8> = vec![112u8, 114, 101, 100, 105, 99, 116];
                assert(predict@ =~= predict_text());
                if same_bytes(buf, &predict) {
                    s.phase = Phase::AfterValue;
                } else {
                    s.phase = Phase::Fail;
                }
            } else if c == 92 || c < 32 || buf.len() >= MAX_TEXT {
                s.phase = Phase::Fail;
            } else {
                buf.push(c);
            }
        },
        Phase::ListOpen => {
            if ws(c) {
            } else if c == 93 {
                s.phase = Phase::AfterValue;
            } else if digit(c) {
                start_exec(s, Phase::ListNum, c);
            } else {
                s.phase = Phase::Fail;
            }
        },
        Phase::ListNum => {
            if digit(c) {
                more_exec(s, c);
            } else if ws(c) || c == 44 || c == 93 {
                if s.acc > u32::MAX as u64 {
                    s.phase = Phase::Fail;
                } else {
                    tokens.push(s.acc as u32);
                    s.phase = if ws(c) {
                        Phase::ListAfterNum
                    } else if c == 44 {
                        Phase::ListSep
                    } else {
                        Phase::AfterValue
                    };
                }
            } else {
                s.phase = Phase::Fail;
            }
        },
        Phase::ListAfterNum => {
            if ws(c) {
            } else if c == 44 {
                s.phase = Phase::ListSep;
            } else if c == 93 {
                s.phase = Phase::AfterValue;
            } else {
                s.phase = Phase::Fail;
            }
        },
        Phase::ListSep => {
            if ws(c) {
            } else if digit(c) {
                start_exec(s, Phase::ListNum, c);
            } else {
                s.phase = Phase::Fail;
            }
        },
        Phase::Num => {
            if digit(c) {
                more_exec(s, c);
            } else if ws(c) {
                store_exec(s, Phase::AfterValue);
            } else if c == 44 {
                store_exec(s, Phase::ExpectKey);
            } else if c == 125 {
                store_exec(s, Phase::Done);
            } else {
                s.phase = Phase::Fail;
            }
        },
        Phase::Null => {
            if (s.null_pos == 1 && c == 117) || (s.null_pos == 2 && c == 108) {
                s.null_pos = s.null_pos + 1;
            } else if s.null_pos == 3 && c == 108 {
                s.phase = Phase::AfterValue;
            } else {
                s.phase = Phase::Fail;
            }
        },
        Phase::AfterValue => {
            if ws(c) {
            } else if c == 44 {
                s.phase = Phase::ExpectKey;
            } else if c == 125 {
                s.phase = Phase::Done;
            } else {
                s.phase = Phase::Fail;
            }
        },
        Phase::Done => {
            if ws(c) {
            } else {
                s.phase = Phase::Fail;
            }
        },
        Phase::Fail => {},
    }
    assert(tokens@ == step(st, c).tokens);
    assert(buf@ =~= step(st, c).buf);
}

/// Reads a request payload: a JSON object with `"op":"predict"`, a
/// non-empty `tokens` array of `u32` ids, and optional `beam_width` and
/// `max_new` (`u32` or `null`); each member at most once, no other member.
pub fn parse_request(b: &Vec<u8>) -> (r: Result<Request, ParseError>)
    ensures
        match parse_spec(b@) {
            Ok((t, w, m)) => r is Ok && r->Ok_0.tokens@ == t && r->Ok_0.beam_width == w
                && r->Ok_0.max_new == m,
            Err(e) => r is Err && r->Err_0 == e,
        },
{
    let mut s = Scan {
        phase: Phase::Start,
        field: Field::Op,
        acc: 0,
        ndigits: 0,
        leading_zero: false,
        null_pos: 0,
        seen_op: false,
        seen_tokens: false,
        seen_beam_width: false,
        seen_max_new: false,
        beam_width: None,
        max_new: None,
    };
    let mut tokens: Vec<u32> = Vec::new();
    let mut buf: Vec<u8> = Vec::new();
    let mut i: usize = 0;
    proof {
        assert(b@.subrange(0, 0) =~= Seq::<u8>::empty());
        assert(pow10(0) == 1);
    }
    while i < b.len()
        invariant
            i <= b@.len(),
            scan_ok(s),
            (ParseState { scan: s, tokens: tokens@, buf: buf@ }) == state_after(
                b@.subrange(0, i as int),
            ),
        decreases b@.len() - i,
    {
        feed(&mut s, &mut tokens, &mut buf, b[i]);
        proof {
            let p = b@.subrange(0, i as int + 1);
            assert(p.drop_last() =~= b@.subrange(0, i as int));
            assert(p.last() == b@[i as int]);
        }
        i = i + 1;
    }
    assert(b@.subrange(0, b@.len() as int) =~= b@);
    if s.phase != Phase::Done {
        Err(ParseError::Syntax)
    } else if !s.seen_op {
        Err(ParseError::MissingOp)
    } else if !s.seen_tokens {
        Err(ParseError::MissingTokens)
    } else if tokens.len() == 0 {
        Err(ParseError::EmptyTokens)
    } else {
        Ok(Request { tokens, beam_width: s.beam_width, max_new: s.max_new })
    }
}

/// The reader's state after the bytes `b`, from state `st`.
pub open spec fn fold_from(st: ParseState, b: Seq<u8>) -> ParseState
    decreases b.len(),
{
    if b.len() == 0 {
        st
    } else {
        step(fold_from(st, b.drop_last()), b.last())
    }
}

pub open spec fn initial_state() -> ParseState {
    ParseState { scan: initial_scan(), tokens: Seq::empty(), buf: Seq::empty() }
}

proof fn lemma_state_after_is_fold(b: Seq<u8>)
    ensures
        state_after(b) == fold_from(initial_state(), b),
    decreases b.len(),
{
    if b.len() > 0 {
        lemma_state_after_is_fold(b.drop_last());
    }
}

proof fn lemma_fold_append(st: ParseState, a: Seq<u8>, b: Seq<u8>)
    ensures
        fold_from(st, a + b) == fold_from(fold_from(st, a), b),
    decreases b.len(),
{
    if b.len() == 0 {
        assert(a + b =~= a);
    } else {
        assert((a + b).drop_last() =~= a + b.drop_last());
        assert((a + b).last() == b.last());
        lemma_fold_append(st, a, b.drop_last());
    }
}

proof fn lemma_fold_one(st: ParseState, c: u8)
    ensures
        fold_from(st, seq![c]) == step(st, c),
{
    reveal_with_fuel(fold_from, 2);
    assert(seq![c].drop_last() =~= Seq::<u8>::empty());
    assert(seq![c].last() == c);
}

/// Bytes that a key or string value may hold as they are.
pub open spec fn plain_text(k: Seq<u8>) -> bool {
    k.len() <= MAX_TEXT && forall|i: int| 0 <= i < k.len() ==> #[trigger] k[i] != 34 && k[i] != 92
        && k[i] >= 32
}

/// Reading the characters of a key or string: they gather in `buf`.
proof fn lemma_text(st: ParseState, k: Seq<u8>)
    requires
        st.scan.phase == Phase::Key || st.scan.phase == Phase::StrVal,
        st.buf.len() == 0,
        plain_text(k),
    ensures
        fold_from(st, k) == (ParseState { buf: k, ..st }),
    decreases k.len(),
{
    if k.len() == 0 {
        assert(st.buf =~= k);
    } else {
        let p = k.drop_last();
        assert(plain_text(p)) by {
            assert forall|i: int| 0 <= i < p.len() implies #[trigger] p[i] != 34 && p[i] != 92
                && p[i] >= 32 by {
                assert(p[i] == k[i]);
            }
        }
        lemma_text(st, p);
        assert(k.last() == k[k.len() - 1]);
        assert(p.push(k.last()) =~= k);
    }
}

proof fn lemma_decimal_shape(n: nat, k: nat)
    requires
        k >= 1,
        n < pow10(k),
    ensures
        1 <= decimal(n).len() <= k,
        forall|i: int| 0 <= i < decimal(n).len() ==> is_digit(#[trigger] decimal(n)[i]),
        n >= 10 ==> decimal(n)[0] != 48,
    decreases n,
{
    if n >= 10 {
        assert(k >= 2) by {
            if k == 1 {
                reveal_with_fuel(pow10, 2);
            }
        }
        assert(n / 10 < pow10((k - 1) as nat));
        lemma_decimal_shape(n / 10, (k - 1) as nat);
        let p = decimal(n / 10);
        assert(decimal(n) == p.push((48 + n % 10) as u8));
        assert forall|i: int| 0 <= i < decimal(n).len() implies is_digit(#[trigger] decimal(n)[i]) by {
            if i < p.len() {
                assert(decimal(n)[i] == p[i]);
            }
        }
        if n / 10 >= 10 {
        } else {
            assert(p == seq![(48 + n / 10) as u8]);
        }
        assert(decimal(n)[0] == p[0]);
    }
}

/// Whether a digit read in `st` starts a number, leaving it in phase `p`.
pub open spec fn starts_number(st: ParseState, p: Phase) -> bool {
    ||| p == Phase::ListNum && (st.scan.phase == Phase::ListOpen || st.scan.phase == Phase::ListSep)
    ||| p == Phase::Num && st.scan.phase == Phase::BeforeValue && (st.scan.field == Field::BeamWidth
        || st.scan.field == Field::MaxNew)
}

/// The state after the digits of `n`, read from `st`.
pub open spec fn after_number(st: ParseState, p: Phase, n: nat) -> ParseState {
    ParseState {
        scan: Scan {
            phase: p,
            acc: n as u64,
            ndigits: decimal(n).len() as u8,
            leading_zero: n == 0,
            ..st.scan
        },
        ..st
    }
}

proof fn lemma_number(st: ParseState, p: Phase, n: nat)
    requires
        starts_number(st, p),
        n <= u32::MAX,
    ensures
        fold_from(st, decimal(n)) == after_number(st, p, n),
    decreases n,
{
    reveal_with_fuel(pow10, 11);
    lemma_decimal_shape(n, 10);
    if n < 10 {
        lemma_fold_one(st, (48 + n) as u8);
    } else {
        lemma_number(st, p, n / 10);
        lemma_decimal_shape(n / 10, 9);
        let q = decimal(n / 10);
        assert(decimal(n) == q.push((48 + n % 10) as u8));
        assert(decimal(n).drop_last() =~= q);
    }
}

proof fn lemma_fold_push(st: ParseState, a: Seq<u8>, c: u8)
    ensures
        fold_from(st, a + seq![c]) == step(fold_from(st, a), c),
{
    lemma_fold_append(st, a, seq![c]);
    lemma_fold_one(fold_from(st, a), c);
}

/// Same member bookkeeping in both scans.
pub open spec fn keeps(a: Scan, b: Scan) -> bool {
    &&& a.field == b.field
    &&& a.seen_op == b.seen_op
    &&& a.seen_tokens == b.seen_tokens
    &&& a.seen_beam_width == b.seen_beam_width
    &&& a.seen_max_new == b.seen_max_new
    &&& a.beam_width == b.beam_width
    &&& a.max_new == b.max_new
}

/// Reading the ids of a non-empty token list: all but the last are kept,
/// the last is still being read.
proof fn lemma_list(st: ParseState, t: Seq<u32>)
    requires
        st.scan.phase == Phase::ListOpen,
        t.len() >= 1,
    ensures
        fold_from(st, token_list(t)).scan.phase == Phase::ListNum,
        fold_from(st, token_list(t)).scan.acc == t.last() as u64,
        fold_from(st, token_list(t)).tokens == st.tokens + t.drop_last(),
        keeps(fold_from(st, token_list(t)).scan, st.scan),
    decreases t.len(),
{
    if t.len() == 1 {
        lemma_number(st, Phase::ListNum, t[0] as nat);
        assert(t.drop_last() =~= Seq::<u32>::empty());
        assert(st.tokens + t.drop_last() =~= st.tokens);
    } else {
        let p = t.drop_last();
        lemma_list(st, p);
        let a = token_list(p);
        let r1 = fold_from(st, a);
        lemma_fold_push(st, a, 44u8);
        let r2 = step(r1, 44u8);
        assert(r2.scan.phase == Phase::ListSep);
        assert(r2.tokens =~= st.tokens + p);
        lemma_fold_append(st, a + seq![44u8], decimal(t.last() as nat));
        lemma_number(r2, Phase::ListNum, t.last() as nat);
        assert(p.drop_last().push(p.last()) =~= p);
    }
}

/// A member is settled once its value is read, or while the number it ends
/// with awaits the next byte.
pub open spec fn settled(st: ParseState) -> bool {
    ||| st.scan.phase == Phase::AfterValue
    ||| (st.scan.phase == Phase::Num && st.scan.acc <= u32::MAX && (st.scan.field == Field::BeamWidth
        || st.scan.field == Field::MaxNew))
}

/// The scan with a pending number stored.
pub open spec fn committed(s: Scan) -> Scan {
    if s.phase == Phase::Num {
        store_number(s, Phase::AfterValue)
    } else {
        s
    }
}

pub open spec fn key_text(f: Field) -> Seq<u8> {
    match f {
        Field::Op => seq![111u8, 112],
        Field::Tokens => seq![116u8, 111, 107, 101, 110, 115],
        Field::BeamWidth => seq![98u8, 101, 97, 109, 95, 119, 105, 100, 116, 104],
        Field::MaxNew => seq![109u8, 97, 120, 95, 110, 101, 119],
    }
}

/// `,"key":n` for a present number member, nothing otherwise.
pub open spec fn member_text(f: Field, v: Option<u32>) -> Seq<u8> {
    match v {
        None => Seq::empty(),
        Some(n) => seq![44u8] + seq![34u8] + key_text(f) + seq![34u8] + seq![58u8] + decimal(n as nat),
    }
}

proof fn lemma_key_text(f: Field)
    ensures
        plain_text(key_text(f)),
        key_field(key_text(f)) == Some(f),
{
    assert(seq![111u8, 112] != seq![116u8, 111, 107, 101, 110, 115]);
    assert(seq![98u8, 101, 97, 109, 95, 119, 105, 100, 116, 104] != seq![111u8, 112]);
    assert(seq![98u8, 101, 97, 109, 95, 119, 105, 100, 116, 104] != seq![116u8, 111, 107, 101, 110, 115]);
    assert(seq![109u8, 97, 120, 95, 110, 101, 119] != seq![111u8, 112]);
    assert(seq![109u8, 97, 120, 95, 110, 101, 119] != seq![116u8, 111, 107, 101, 110, 115]);
    assert(seq![109u8, 97, 120, 95, 110, 101, 119] != seq![98u8, 101, 97, 109, 95, 119, 105, 100, 116, 104]);
}

proof fn lemma_member(st: ParseState, f: Field, n: u32)
    requires
        settled(st),
        f == Field::BeamWidth || f == Field::MaxNew,
        !was_seen(st.scan, f),
    ensures
        ({
            let r = fold_from(st, member_text(f, Some(n)));
            &&& settled(r)
            &&& r.scan.phase == Phase::Num
            &&& r.tokens == st.tokens
            &&& r.scan.seen_op == st.scan.seen_op
            &&& r.scan.seen_tokens == st.scan.seen_tokens
            &&& r.scan.seen_beam_width == (st.scan.seen_beam_width || f == Field::BeamWidth)
            &&& r.scan.seen_max_new == (st.scan.seen_max_new || f == Field::MaxNew)
            &&& committed(r.scan).beam_width == (if f == Field::BeamWidth {
                Some(n)
            } else {
                committed(st.scan).beam_width
            })
            &&& committed(r.scan).max_new == (if f == Field::MaxNew {
                Some(n)
            } else {
                committed(st.scan).max_new
            })
        }),
{
    let k = key_text(f);
    lemma_key_text(f);
    let x1 = seq![44u8];
    lemma_fold_one(st, 44u8);
    let r1 = step(st, 44u8);
    assert(r1.scan.phase == Phase::ExpectKey);
    let x2 = x1 + seq![34u8];
    lemma_fold_push(st, x1, 34u8);
    let r2 = step(r1, 34u8);
    let x3 = x2 + k;
    lemma_fold_append(st, x2, k);
    lemma_text(r2, k);
    let r3 = fold_from(st, x3);
    let x4 = x3 + seq![34u8];
    lemma_fold_push(st, x3, 34u8);
    let r4 = step(r3, 34u8);
    assert(r4.scan.phase == Phase::AfterKey && r4.scan.field == f);
    let x5 = x4 + seq![58u8];
    lemma_fold_push(st, x4, 58u8);
    let r5 = step(r4, 58u8);
    lemma_fold_append(st, x5, decimal(n as nat));
    lemma_number(r5, Phase::Num, n as nat);
}

proof fn lemma_settled_member(st: ParseState, f: Field, v: Option<u32>)
    requires
        settled(st),
        f == Field::BeamWidth || f == Field::MaxNew,
        !was_seen(st.scan, f),
    ensures
        ({
            let r = fold_from(st, member_text(f, v));
            &&& settled(r)
            &&& r.tokens == st.tokens
            &&& r.scan.seen_op == st.scan.seen_op
            &&& r.scan.seen_tokens == st.scan.seen_tokens
            &&& r.scan.seen_beam_width == (st.scan.seen_beam_width || (f == Field::BeamWidth
                && v is Some))
            &&& r.scan.seen_max_new == (st.scan.seen_max_new || (f == Field::MaxNew && v is Some))
            &&& committed(r.scan).beam_width == (if f == Field::BeamWidth && v is Some {
                v
            } else {
                committed(st.scan).beam_width
            })
            &&& committed(r.scan).max_new == (if f == Field::MaxNew && v is Some {
                v
            } else {
                committed(st.scan).max_new
            })
        }),
{
    match v {
        Some(n) => lemma_member(st, f, n),
        None => {
            assert(fold_from(st, Seq::<u8>::empty()) == st);
        },
    }
}

/// `{"op":"predict","tokens":[`
pub open spec fn head_text() -> Seq<u8> {
    seq![123u8] + seq![34u8] + key_text(Field::Op) + seq![34u8] + seq![58u8] + seq![34u8]
        + predict_text() + seq![34u8] + seq![44u8] + seq![34u8] + key_text(Field::Tokens) + seq![34u8]
        + seq![58u8] + seq![91u8]
}

/// The request text in its plain form: no spaces, members in order,
/// absent overrides left out.
pub open spec fn request_text(t: Seq<u32>, w: Option<u32>, m: Option<u32>) -> Seq<u8> {
    head_text() + token_list(t) + seq![93u8] + member_text(Field::BeamWidth, w) + member_text(
        Field::MaxNew,
        m,
    ) + seq![125u8]
}

proof fn lemma_head_op() -> (r: ParseState)
    ensures
        r == fold_from(initial_state(), seq![123u8] + seq![34u8] + key_text(Field::Op) + seq![34u8]
            + seq![58u8] + seq![34u8] + predict_text() + seq![34u8]),
        r.scan.phase == Phase::AfterValue,
        r.tokens.len() == 0,
        r.scan.seen_op,
        !r.scan.seen_tokens,
        !r.scan.seen_beam_width,
        !r.scan.seen_max_new,
        r.scan.beam_width is None,
        r.scan.max_new is None,
{
    let s0 = initial_state();
    lemma_key_text(Field::Op);
    assert(plain_text(predict_text()));
    let x1 = seq![123u8];
    lemma_fold_one(s0, 123u8);
    let s1 = step(s0, 123u8);
    let x2 = x1 + seq![34u8];
    lemma_fold_push(s0, x1, 34u8);
    let s2 = step(s1, 34u8);
    let x3 = x2 + key_text(Field::Op);
    lemma_fold_append(s0, x2, key_text(Field::Op));
    lemma_text(s2, key_text(Field::Op));
    let s3 = fold_from(s0, x3);
    let x4 = x3 + seq![34u8];
    lemma_fold_push(s0, x3, 34u8);
    let s4 = step(s3, 34u8);
    let x5 = x4 + seq![58u8];
    lemma_fold_push(s0, x4, 58u8);
    let s5 = step(s4, 58u8);
    let x6 = x5 + seq![34u8];
    lemma_fold_push(s0, x5, 34u8);
    let s6 = step(s5, 34u8);
    assert(s6.scan.phase == Phase::StrVal && s6.buf.len() == 0);
    let x7 = x6 + predict_text();
    lemma_fold_append(s0, x6, predict_text());
    lemma_text(s6, predict_text());
    let s7 = fold_from(s0, x7);
    let x8 = x7 + seq![34u8];
    lemma_fold_push(s0, x7, 34u8);
    step(s7, 34u8)
}

proof fn lemma_head() -> (r: ParseState)
    ensures
        r == fold_from(initial_state(), head_text()),
        r.scan.phase == Phase::ListOpen,
        r.tokens.len() == 0,
        r.scan.seen_op,
        r.scan.seen_tokens,
        !r.scan.seen_beam_width,
        !r.scan.seen_max_new,
        r.scan.beam_width is None,
        r.scan.max_new is None,
{
    let s0 = initial_state();
    lemma_key_text(Field::Tokens);
    let s8 = lemma_head_op();
    let x8 = seq![123u8] + seq![34u8] + key_text(Field::Op) + seq![34u8] + seq![58u8] + seq![34u8]
        + predict_text() + seq![34u8];
    let x9 = x8 + seq![44u8];
    lemma_fold_push(s0, x8, 44u8);
    let s9 = step(s8, 44u8);
    let x10 = x9 + seq![34u8];
    lemma_fold_push(s0, x9, 34u8);
    let s10 = step(s9, 34u8);
    let x11 = x10 + key_text(Field::Tokens);
    lemma_fold_append(s0, x10, key_text(Field::Tokens));
    lemma_text(s10, key_text(Field::Tokens));
    let s11 = fold_from(s0, x11);
    let x12 = x11 + seq![34u8];
    lemma_fold_push(s0, x11, 34u8);
    let s12 = step(s11, 34u8);
    let x13 = x12 + seq![58u8];
    lemma_fold_push(s0, x12, 58u8);
    let s13 = step(s12, 58u8);
    let x14 = x13 + seq![91u8];
    lemma_fold_push(s0, x13, 91u8);
    step(s13, 91u8)
}

/// Reading a request's plain text gives the request back: its tokens, for
/// any non-empty list, and both overrides, present or absent.
pub proof fn lemma_request_round_trip(t: Seq<u32>, w: Option<u32>, m: Option<u32>)
    requires
        t.len() >= 1,
    ensures
        parse_spec(request_text(t, w, m)) == Ok::<(Seq<u32>, Option<u32>, Option<u32>), ParseError>(
            (t, w, m),
        ),
{
    let s0 = initial_state();
    let s14 = lemma_head();
    let x14 = head_text();
    let x15 = x14 + token_list(t);
    lemma_fold_append(s0, x14, token_list(t));
    lemma_list(s14, t);
    let s15 = fold_from(s0, x15);
    let x16 = x15 + seq![93u8];
    lemma_fold_push(s0, x15, 93u8);
    let s16 = step(s15, 93u8);
    assert(s16.tokens =~= t) by {
        assert(s14.tokens + t.drop_last() =~= t.drop_last());
        assert(t.drop_last().push(t.last()) =~= t);
    }
    assert(s16.scan.phase == Phase::AfterValue);
    let x17 = x16 + member_text(Field::BeamWidth, w);
    lemma_fold_append(s0, x16, member_text(Field::BeamWidth, w));
    lemma_settled_member(s16, Field::BeamWidth, w);
    let s17 = fold_from(s0, x17);
    let x18 = x17 + member_text(Field::MaxNew, m);
    lemma_fold_append(s0, x17, member_text(Field::MaxNew, m));
    lemma_settled_member(s17, Field::MaxNew, m);
    let s18 = fold_from(s0, x18);
    let x19 = x18 + seq![125u8];
    lemma_fold_push(s0, x18, 125u8);
    let s19 = step(s18, 125u8);
    lemma_state_after_is_fold(x19);
    assert(s19.scan.phase == Phase::Done);
    assert(s19.tokens == t);
    assert(s19.scan.beam_width == w);
    assert(s19.scan.max_new == m);
}

fn push_member(out: &mut Vec<u8>, f: Field, v: Option<u32>)
    ensures
        final(out)@ == old(out)@ + member_text(f, v),
{
    match v {
        None => {
            assert(old(out)@ + Seq::<u8>::empty() =~= old(out)@);
        },
        Some(n) => {
            let key: Vec<u8> = match f {
                Field::Op => vec![111u8, 112],
                Field::Tokens => vec![116u8, 111, 107, 101, 110, 115],
                Field::BeamWidth => vec![98u8, 101, 97, 109, 95, 119, 105, 100, 116, 104],
                Field::MaxNew => vec![109u8, 97, 120, 95, 110, 101, 119],
            };
            assert(key@ =~= key_text(f));
            out.push(44u8);
            out.push(34u8);
            push_all(out, &key);
            out.push(34u8);
            out.push(58u8);
            push_decimal(out, n as u64);
            assert(final(out)@ =~= old(out)@ + member_text(f, v));
        },
    }
}

/// The plain JSON text of a request, which `parse_request` reads back.
pub fn encode_request(req: &Request) -> (out: Vec<u8>)
    ensures
        out@ == request_text(req.tokens@, req.beam_width, req.max_new),
{
    let mut out: Vec<u8> = Vec::new();
    let head: Vec<u8> = vec![
        123u8, 34, 111, 112, 34, 58, 34, 112, 114, 101, 100, 105, 99, 116, 34, 44, 34, 116, 111,
        107, 101, 110, 115, 34, 58, 91,
    ];
    assert(head@ =~= head_text());
    push_all(&mut out, &head);
    push_token_list(&mut out, &req.tokens);
    out.push(93u8);
    push_member(&mut out, Field::BeamWidth, req.beam_width);
    push_member(&mut out, Field::MaxNew, req.max_new);
    out.push(125u8);
    assert(out@ =~= request_text(req.tokens@, req.beam_width, req.max_new));
    out
}

} // verus!
