//! The protocol's text grammar: the envelope that the listener hands to the
//! node, `SRC:<ip>:<port>;MSG:<payload>`, and the payloads
//! `INIT CONNECT` and `<JOIN|REQINS|INS>:<LFT|RGT>:<ip>:<port>`.

use vstd::prelude::*;
use vstd::utf8::{encode_utf8, valid_utf8};
use crate::addr::{addr_text, push_bytes, Addr, COLON, DIGIT_ZERO};
use crate::error::DhtError;

verus! {

/// The byte `;`, which ends the source address of an envelope.
pub const SEMICOLON: u8 = 59;

/// Which of a node's two neighbours a message concerns.
#[derive(PartialEq, Eq, Structural, Clone, Copy, Debug)]
pub enum Side {
    /// The predecessor, written `LFT`.
    Left,
    /// The successor, written `RGT`.
    Right,
}

impl Side {
    pub open spec fn flip(self) -> Side {
        match self {
            Side::Left => Side::Right,
            Side::Right => Side::Left,
        }
    }

    /// The other side.
    pub fn opposite(self) -> (r: Side)
        ensures
            r == self.flip(),
    {
        match self {
            Side::Left => Side::Right,
            Side::Right => Side::Left,
        }
    }
}

/// A protocol payload.
#[derive(PartialEq, Eq, Debug)]
pub enum Message {
    /// `INIT CONNECT`: the sender asks to join the ring.
    InitConnect,
    /// `JOIN:<side>:<addr>`: set that neighbour to the address.
    Join(Side, Addr),
    /// `REQINS:<side>:<addr>`: go on searching the slot of the address in that
    /// direction.
    ReqIns(Side, Addr),
    /// `INS:<side>:<addr>`: take the address as that neighbour and tell it so.
    Ins(Side, Addr),
}

impl Clone for Message {
    fn clone(&self) -> (r: Self)
        ensures
            r == *self,
    {
        match self {
            Message::InitConnect => Message::InitConnect,
            Message::Join(s, a) => Message::Join(*s, a.clone()),
            Message::ReqIns(s, a) => Message::ReqIns(*s, a.clone()),
            Message::Ins(s, a) => Message::Ins(*s, a.clone()),
        }
    }
}

/// A received payload together with the address it came from.
#[derive(PartialEq, Eq, Debug)]
pub struct Envelope {
    pub source: Addr,
    pub message: Message,
}

pub open spec fn init_text() -> Seq<u8> {
    seq![73u8, 78, 73, 84, 32, 67, 79, 78, 78, 69, 67, 84]
}

pub open spec fn join_text() -> Seq<u8> {
    seq![74u8, 79, 73, 78]
}

pub open spec fn reqins_text() -> Seq<u8> {
    seq![82u8, 69, 81, 73, 78, 83]
}

pub open spec fn ins_text() -> Seq<u8> {
    seq![73u8, 78, 83]
}

pub open spec fn side_text(s: Side) -> Seq<u8> {
    match s {
        Side::Left => seq![76u8, 70, 84],
        Side::Right => seq![82u8, 71, 84],
    }
}

pub open spec fn src_tag() -> Seq<u8> {
    seq![83u8, 82, 67, 58]
}

pub open spec fn msg_tag() -> Seq<u8> {
    seq![59u8, 77, 83, 71, 58]
}

/// `<verb>:<side>:<ip>:<port>`.
pub open spec fn command_text(verb: Seq<u8>, side: Side, a: Addr) -> Seq<u8> {
    verb + seq![COLON] + side_text(side) + seq![COLON] + addr_text(a)
}

/// The wire form of a payload.
pub open spec fn message_text(m: Message) -> Seq<u8> {
    match m {
        Message::InitConnect => init_text(),
        Message::Join(s, a) => command_text(join_text(), s, a),
        Message::ReqIns(s, a) => command_text(reqins_text(), s, a),
        Message::Ins(s, a) => command_text(ins_text(), s, a),
    }
}

/// The envelope `SRC:<ip>:<port>;MSG:<payload>`.
pub open spec fn envelope_text(source: Addr, payload: Seq<u8>) -> Seq<u8> {
    src_tag() + addr_text(source) + msg_tag() + payload
}

/// Index of the first `x` in `t` at or after `from`; `t.len()` if none.
pub open spec fn first_index(t: Seq<u8>, x: u8, from: int) -> int
    decreases t.len() - from,
{
    if from >= t.len() {
        t.len() as int
    } else if t[from] == x {
        from
    } else {
        first_index(t, x, from + 1)
    }
}

/// Index of the last `x` in `t`; -1 if none.
pub open spec fn last_index(t: Seq<u8>, x: u8) -> int
    decreases t.len(),
{
    if t.len() == 0 {
        -1
    } else if t.last() == x {
        t.len() - 1
    } else {
        last_index(t.drop_last(), x)
    }
}

pub open spec fn all_digits(p: Seq<u8>) -> bool {
    forall|i: int| 0 <= i < p.len() ==> DIGIT_ZERO <= #[trigger] p[i] && p[i] <= DIGIT_ZERO + 9
}

/// The number that a sequence of decimal digits writes.
pub open spec fn digits_value(p: Seq<u8>) -> nat
    decreases p.len(),
{
    if p.len() == 0 {
        0
    } else {
        digits_value(p.drop_last()) * 10 + (p.last() - DIGIT_ZERO) as nat
    }
}

/// A port: one or more decimal digits whose value fits in 32 bits.
pub open spec fn port_ok(p: Seq<u8>) -> bool {
    &&& p.len() > 0
    &&& all_digits(p)
    &&& digits_value(p) <= u32::MAX
}

/// What stands before the last colon of an address token.
pub open spec fn ip_part(t: Seq<u8>) -> Seq<u8> {
    t.subrange(0, last_index(t, COLON))
}

/// What stands after the last colon of an address token.
pub open spec fn port_part(t: Seq<u8>) -> Seq<u8> {
    t.subrange(last_index(t, COLON) + 1, t.len() as int)
}

/// `<ip>:<port>`: a non-empty UTF-8 ip, split from the port at the last colon.
pub open spec fn addr_token_ok(t: Seq<u8>) -> bool {
    &&& last_index(t, COLON) > 0
    &&& valid_utf8(ip_part(t))
    &&& port_ok(port_part(t))
}

/// `a` is the address that the token `t` writes.
pub open spec fn addr_parsed(a: Addr, t: Seq<u8>) -> bool {
    &&& encode_utf8(a.ip@) == ip_part(t)
    &&& a.port as nat == digits_value(port_part(t))
}

pub open spec fn verb_end(p: Seq<u8>) -> int {
    first_index(p, COLON, 0)
}

pub open spec fn verb_part(p: Seq<u8>) -> Seq<u8> {
    p.subrange(0, verb_end(p))
}

pub open spec fn side_part(p: Seq<u8>) -> Seq<u8> {
    p.subrange(verb_end(p) + 1, verb_end(p) + 4)
}

pub open spec fn target_part(p: Seq<u8>) -> Seq<u8> {
    p.subrange(verb_end(p) + 5, p.len() as int)
}

pub open spec fn side_of(t: Seq<u8>) -> Option<Side> {
    if t == side_text(Side::Left) {
        Some(Side::Left)
    } else if t == side_text(Side::Right) {
        Some(Side::Right)
    } else {
        None
    }
}

pub open spec fn is_verb(v: Seq<u8>) -> bool {
    v == join_text() || v == reqins_text() || v == ins_text()
}

/// `<verb>:<side>:<ip>:<port>` with a known verb and side.
pub open spec fn command_ok(p: Seq<u8>) -> bool {
    &&& verb_end(p) + 5 <= p.len()
    &&& is_verb(verb_part(p))
    &&& side_of(side_part(p)) is Some
    &&& p[verb_end(p) + 4] == COLON
    &&& addr_token_ok(target_part(p))
}

/// A payload of the grammar.
pub open spec fn payload_ok(p: Seq<u8>) -> bool {
    p == init_text() || command_ok(p)
}

/// The command `p` has the verb `v`, the side `s` and names `a`.
pub open spec fn command_parsed(p: Seq<u8>, v: Seq<u8>, s: Side, a: Addr) -> bool {
    &&& command_ok(p)
    &&& verb_part(p) == v
    &&& side_of(side_part(p)) == Some(s)
    &&& addr_parsed(a, target_part(p))
}

/// `m` is the message that the payload `p` writes.
pub open spec fn message_parsed(m: Message, p: Seq<u8>) -> bool {
    match m {
        Message::InitConnect => p == init_text(),
        Message::Join(s, a) => command_parsed(p, join_text(), s, a),
        Message::ReqIns(s, a) => command_parsed(p, reqins_text(), s, a),
        Message::Ins(s, a) => command_parsed(p, ins_text(), s, a),
    }
}

pub open spec fn source_end(b: Seq<u8>) -> int {
    first_index(b, SEMICOLON, 4)
}

pub open spec fn source_part(b: Seq<u8>) -> Seq<u8> {
    b.subrange(4, source_end(b))
}

pub open spec fn payload_part(b: Seq<u8>) -> Seq<u8> {
    b.subrange(source_end(b) + 5, b.len() as int)
}

/// `SRC:<ip>:<port>;MSG:<payload>`, the source ending at the first `;`.
pub open spec fn envelope_ok(b: Seq<u8>) -> bool {
    &&& b.len() >= 4
    &&& b.subrange(0, 4) == src_tag()
    &&& source_end(b) + 5 <= b.len()
    &&& b.subrange(source_end(b), source_end(b) + 5) == msg_tag()
    &&& addr_token_ok(source_part(b))
    &&& payload_ok(payload_part(b))
}

proof fn lemma_first_index_bounds(t: Seq<u8>, x: u8, from: int)
    requires
        0 <= from <= t.len(),
    ensures
        from <= first_index(t, x, from) <= t.len(),
        first_index(t, x, from) < t.len() ==> t[first_index(t, x, from)] == x,
    decreases t.len() - from,
{
    if from < t.len() && t[from] != x {
        lemma_first_index_bounds(t, x, from + 1);
    }
}

proof fn lemma_last_index_bounds(t: Seq<u8>, x: u8)
    ensures
        -1 <= last_index(t, x) < t.len(),
    decreases t.len(),
{
    if t.len() > 0 && t.last() != x {
        lemma_last_index_bounds(t.drop_last(), x);
    }
}

proof fn lemma_digits_prefix(p: Seq<u8>, i: int)
    requires
        0 <= i <= p.len(),
    ensures
        digits_value(p.subrange(0, i)) <= digits_value(p),
    decreases p.len(),
{
    if i < p.len() {
        assert(p.drop_last().subrange(0, i) =~= p.subrange(0, i));
        lemma_digits_prefix(p.drop_last(), i);
    } else {
        assert(p.subrange(0, i) =~= p);
    }
}

/// Index of the first `x` in `t` at or after `from`, or `t.len()`.
fn find_first(t: &[u8], x: u8, from: usize) -> (r: usize)
    requires
        from <= t@.len(),
    ensures
        r == first_index(t@, x, from as int),
        from <= r <= t@.len(),
{
    proof {
        lemma_first_index_bounds(t@, x, from as int);
    }
    let mut i = from;
    while i < t.len()
        invariant
            from <= i <= t@.len(),
            first_index(t@, x, from as int) == first_index(t@, x, i as int),
        decreases t@.len() - i,
    {
        if t[i] == x {
            return i;
        }
        i = i + 1;
    }
    i
}

/// Index of the last `x` in `t`, if any.
fn find_last(t: &[u8], x: u8) -> (r: Option<usize>)
    ensures
        match r {
            Some(i) => i == last_index(t@, x) && i < t@.len(),
            None => last_index(t@, x) == -1,
        },
{
    let mut i = t.len();
    assert(t@.subrange(0, i as int) =~= t@);
    while i > 0
        invariant
            i <= t@.len(),
            last_index(t@, x) == last_index(t@.subrange(0, i as int), x),
        decreases i,
    {
        assert(t@.subrange(0, i as int).drop_last() =~= t@.subrange(0, i - 1));
        if t[i - 1] == x {
            return Some(i - 1);
        }
        i = i - 1;
    }
    None
}

/// A copy of `t[a..b]`.
pub fn copy_range(t: &[u8], a: usize, b: usize) -> (r: Vec<u8>)
    requires
        a <= b <= t@.len(),
    ensures
        r@ == t@.subrange(a as int, b as int),
{
    let mut v: Vec<u8> = Vec::new();
    let mut i = a;
    while i < b
        invariant
            a <= i <= b,
            b <= t@.len(),
            v@ == t@.subrange(a as int, i as int),
        decreases b - i,
    {
        v.push(t[i]);
        i = i + 1;
        assert(v@ =~= t@.subrange(a as int, i as int));
    }
    v
}

/// Whether `lit` stands in `t` from index `a` on.
fn has_at(t: &[u8], a: usize, lit: &[u8]) -> (r: bool)
    ensures
        r == (a + lit@.len() <= t@.len() && t@.subrange(a as int, a + lit@.len()) == lit@),
{
    if a > t.len() || lit.len() > t.len() - a {
        return false;
    }
    let n = t.len();
    let mut i: usize = 0;
    while i < lit.len()
        invariant
            n == t@.len(),
            a + lit@.len() <= t@.len(),
            i <= lit@.len(),
            forall|j: int| 0 <= j < i ==> t@[a + j] == lit@[j],
        decreases lit@.len() - i,
    {
        if t[a + i] != lit[i] {
            assert(t@.subrange(a as int, a + lit@.len())[i as int] != lit@[i as int]);
            return false;
        }
        i = i + 1;
    }
    assert(t@.subrange(a as int, a + lit@.len()) =~= lit@);
    true
}

/// Whether `t` is exactly `lit`.
fn same_bytes(t: &[u8], lit: &[u8]) -> (r: bool)
    ensures
        r == (t@ == lit@),
{
    let r = t.len() == lit.len() && has_at(t, 0, lit);
    proof {
        if t@.len() == lit@.len() {
            assert(t@.subrange(0, lit@.len() as int) =~= t@);
        }
    }
    r
}

fn init_bytes() -> (r: Vec<u8>)
    ensures
        r@ == init_text(),
{
    let r: Vec<u8> = vec![73, 78, 73, 84, 32, 67, 79, 78, 78, 69, 67, 84];
    assert(r@ =~= init_text());
    r
}

fn join_bytes() -> (r: Vec<u8>)
    ensures
        r@ == join_text(),
{
    let r: Vec<u8> = vec![74, 79, 73, 78];
    assert(r@ =~= join_text());
    r
}

fn reqins_bytes() -> (r: Vec<u8>)
    ensures
        r@ == reqins_text(),
{
    let r: Vec<u8> = vec![82, 69, 81, 73, 78, 83];
    assert(r@ =~= reqins_text());
    r
}

fn ins_bytes() -> (r: Vec<u8>)
    ensures
        r@ == ins_text(),
{
    let r: Vec<u8> = vec![73, 78, 83];
    assert(r@ =~= ins_text());
    r
}

fn side_bytes(s: Side) -> (r: Vec<u8>)
    ensures
        r@ == side_text(s),
{
    let r: Vec<u8> = match s {
        Side::Left => vec![76, 70, 84],
        Side::Right => vec![82, 71, 84],
    };
    assert(r@ =~= side_text(s));
    r
}

fn src_tag_bytes() -> (r: Vec<u8>)
    ensures
        r@ == src_tag(),
{
    let r: Vec<u8> = vec![83, 82, 67, 58];
    assert(r@ =~= src_tag());
    r
}

fn msg_tag_bytes() -> (r: Vec<u8>)
    ensures
        r@ == msg_tag(),
{
    let r: Vec<u8> = vec![59, 77, 83, 71, 58];
    assert(r@ =~= msg_tag());
    r
}

/// Relies on `std::str::from_utf8`: it succeeds exactly on valid UTF-8, and
/// the text it returns has the input as its bytes.
#[verifier::external_body]
fn utf8_string(b: &[u8]) -> (r: Option<String>)
    ensures
        match r {
            Some(s) => valid_utf8(b@) && encode_utf8(s@) == b@,
            None => !valid_utf8(b@),
        },
{
    match std::str::from_utf8(b) {
        Ok(s) => Some(String::from(s)),
        Err(_) => None,
    }
}

/// The port that the digits `p` write, if they are digits and it fits.
fn parse_port(p: &[u8]) -> (r: Option<u32>)
    ensures
        r == (if port_ok(p@) {
            Some(digits_value(p@) as u32)
        } else {
            None::<u32>
        }),
{
    if p.len() == 0 {
        return None;
    }
    let mut v: u64 = 0;
    let mut i: usize = 0;
    assert(p@.subrange(0, 0) =~= Seq::<u8>::empty());
    while i < p.len()
        invariant
            i <= p@.len(),
            v == digits_value(p@.subrange(0, i as int)),
            v <= u32::MAX,
            all_digits(p@.subrange(0, i as int)),
        decreases p@.len() - i,
    {
        let c = p[i];
        if c < DIGIT_ZERO || c > DIGIT_ZERO + 9 {
            assert(p@[i as int] == c);
            return None;
        }
        assert(p@.subrange(0, i + 1).drop_last() =~= p@.subrange(0, i as int));
        assert forall|j: int| 0 <= j < i + 1 implies DIGIT_ZERO <= #[trigger] p@.subrange(
            0,
            i + 1,
        )[j] && p@.subrange(0, i + 1)[j] <= DIGIT_ZERO + 9 by {
            if j < i {
                assert(p@.subrange(0, i as int)[j] == p@[j]);
            }
        }
        v = v * 10 + (c - DIGIT_ZERO) as u64;
        i = i + 1;
        if v > 0xffff_ffff {
            proof {
                if all_digits(p@) {
                    lemma_digits_prefix(p@, i as int);
                }
            }
            return None;
        }
    }
    assert(p@.subrange(0, i as int) =~= p@);
    Some(v as u32)
}

/// Reads an address token `<ip>:<port>`; the port follows the last colon.
pub fn parse_addr(t: &[u8]) -> (r: Option<Addr>)
    ensures
        r is Some <==> addr_token_ok(t@),
        r matches Some(a) ==> addr_parsed(a, t@),
{
    proof {
        lemma_last_index_bounds(t@, COLON);
    }
    let n = t.len();
    match find_last(t, COLON) {
        None => None,
        Some(c) => {
            if c == 0 {
                return None;
            }
            let ip_bytes = copy_range(t, 0, c);
            let port_bytes = copy_range(t, c + 1, n);
            let ip = utf8_string(ip_bytes.as_slice());
            let port = parse_port(port_bytes.as_slice());
            match ip {
                None => None,
                Some(s) => match port {
                    None => None,
                    Some(n) => Some(Addr { ip: s, port: n }),
                },
            }
        },
    }
}

/// Reads a payload of the protocol. Anything outside the grammar is a
/// `Decode` error.
pub fn parse_message(p: &[u8]) -> (r: Result<Message, DhtError>)
    ensures
        r is Ok <==> payload_ok(p@),
        match r {
            Ok(m) => message_parsed(m, p@),
            Err(e) => e == DhtError::Decode,
        },
{
    let init = init_bytes();
    if same_bytes(p, init.as_slice()) {
        return Ok(Message::InitConnect);
    }
    let k = find_first(p, COLON, 0);
    if k >= p.len() || p.len() - k < 5 {
        return Err(DhtError::Decode);
    }
    if p[k + 4] != COLON {
        return Err(DhtError::Decode);
    }
    let verb = copy_range(p, 0, k);
    let side_tok = copy_range(p, k + 1, k + 4);
    let left = side_bytes(Side::Left);
    let right = side_bytes(Side::Right);
    let side = if same_bytes(side_tok.as_slice(), left.as_slice()) {
        Side::Left
    } else if same_bytes(side_tok.as_slice(), right.as_slice()) {
        Side::Right
    } else {
        return Err(DhtError::Decode);
    };
    let target = copy_range(p, k + 5, p.len());
    let addr = match parse_addr(target.as_slice()) {
        Some(a) => a,
        None => {
            return Err(DhtError::Decode);
        },
    };
    let join = join_bytes();
    let reqins = reqins_bytes();
    let ins = ins_bytes();
    if same_bytes(verb.as_slice(), join.as_slice()) {
        Ok(Message::Join(side, addr))
    } else if same_bytes(verb.as_slice(), reqins.as_slice()) {
        Ok(Message::ReqIns(side, addr))
    } else if same_bytes(verb.as_slice(), ins.as_slice()) {
        Ok(Message::Ins(side, addr))
    } else {
        Err(DhtError::Decode)
    }
}

/// Reads an envelope `SRC:<ip>:<port>;MSG:<payload>`. Anything outside the
/// grammar is a `Decode` error.
pub fn parse_envelope(b: &[u8]) -> (r: Result<Envelope, DhtError>)
    ensures
        r is Ok <==> envelope_ok(b@),
        match r {
            Ok(e) => addr_parsed(e.source, source_part(b@)) && message_parsed(
                e.message,
                payload_part(b@),
            ),
            Err(e) => e == DhtError::Decode,
        },
{
    let n = b.len();
    let tag = src_tag_bytes();
    if !has_at(b, 0, tag.as_slice()) {
        return Err(DhtError::Decode);
    }
    let s = find_first(b, SEMICOLON, 4);
    let mt = msg_tag_bytes();
    if !has_at(b, s, mt.as_slice()) {
        return Err(DhtError::Decode);
    }
    let src = copy_range(b, 4, s);
    let source = match parse_addr(src.as_slice()) {
        Some(a) => a,
        None => {
            return Err(DhtError::Decode);
        },
    };
    let payload = copy_range(b, s + 5, n);
    match parse_message(payload.as_slice()) {
        Ok(message) => Ok(Envelope { source, message }),
        Err(e) => Err(e),
    }
}

/// `<verb>:<side>:<ip>:<port>`.
fn encode_command(verb: Vec<u8>, side: Side, a: &Addr) -> (r: Vec<u8>)
    ensures
        r@ == command_text(verb@, side, *a),
{
    let mut v = verb;
    v.push(COLON);
    let sb = side_bytes(side);
    push_bytes(&mut v, sb.as_slice());
    v.push(COLON);
    let t = a.text();
    push_bytes(&mut v, t.as_slice());
    assert(v@ =~= command_text(verb@, side, *a));
    v
}

impl Message {
    /// The payload's wire form.
    pub fn encode(&self) -> (r: Vec<u8>)
        ensures
            r@ == message_text(*self),
    {
        match self {
            Message::InitConnect => init_bytes(),
            Message::Join(s, a) => encode_command(join_bytes(), *s, a),
            Message::ReqIns(s, a) => encode_command(reqins_bytes(), *s, a),
            Message::Ins(s, a) => encode_command(ins_bytes(), *s, a),
        }
    }
}

/// The envelope that the listener hands on for a datagram from `source`.
pub fn make_envelope(source: &Addr, payload: &[u8]) -> (r: Vec<u8>)
    ensures
        r@ == envelope_text(*source, payload@),
{
    let mut v = src_tag_bytes();
    let t = source.text();
    push_bytes(&mut v, t.as_slice());
    let mt = msg_tag_bytes();
    push_bytes(&mut v, mt.as_slice());
    push_bytes(&mut v, payload);
    assert(v@ =~= envelope_text(*source, payload@));
    v
}

} // verus!
