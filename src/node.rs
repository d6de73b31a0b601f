//! The local ring member: its neighbour links and the transitions that
//! join, insert and leave make of them.
//!
//! Every operation is a function from the node's state and its input to a new
//! state and the datagrams to send; the caller sends them. Only the node's
//! own processing loop calls these, so the links have a single writer.

use vstd::prelude::*;
use crate::addr::{calculate_hash, hash_of, Addr};
use crate::error::DhtError;
use crate::wire::{
    addr_parsed, envelope_ok, message_parsed, parse_envelope, payload_part, source_part, Envelope,
    Message, Side,
};

verus! {

/// A remote node as the local node knows it.
#[derive(PartialEq, Eq, Debug)]
pub struct Neighbour {
    pub hash: u64,
    pub address: Addr,
}

impl Clone for Neighbour {
    fn clone(&self) -> (r: Self)
        ensures
            r == *self,
    {
        Neighbour { hash: self.hash, address: self.address.clone() }
    }
}

/// A datagram to send: the payload and where it goes.
#[derive(PartialEq, Eq, Debug)]
pub struct Outbound {
    pub dest: Addr,
    pub message: Message,
}

/// The local ring member. `hash` and `address` are fixed at construction;
/// the two links are the only state that changes.
#[derive(PartialEq, Eq, Debug)]
pub struct Node {
    pub hash: u64,
    pub address: Addr,
    pub left_neighbour: Option<Neighbour>,
    pub right_neighbour: Option<Neighbour>,
}

/// What the node's processing loop hands to the node.
#[derive(PartialEq, Eq, Debug)]
pub enum Event {
    /// An envelope from the listener.
    Envelope(Vec<u8>),
    /// The shutdown signal fired.
    Shutdown,
    /// The channel from the listener closed.
    ChannelClosed,
}

/// What the processing loop does after an event: send `outbound`, report
/// `error` if there is one, and end if `stop`.
#[derive(PartialEq, Eq, Debug)]
pub struct Step {
    pub outbound: Vec<Outbound>,
    pub error: Option<DhtError>,
    pub stop: bool,
}

/// The relation between a node `n`, the envelope bytes `b`, the node `n2`
/// after them and the result `res`: bytes outside the grammar are a
/// `Decode` error and change nothing; otherwise the envelope they write is
/// received.
pub open spec fn bytes_spec(n: Node, b: Seq<u8>, n2: Node, res: Result<Seq<Outbound>, DhtError>) -> bool {
    if envelope_ok(b) {
        exists|e: Envelope|
            {
                &&& addr_parsed(e.source, source_part(b))
                &&& message_parsed(e.message, payload_part(b))
                &&& (n2, res) == receive_spec(
                    n,
                    e.source,
                    e.message,
                    hash_of(subject(e.source, e.message)),
                )
            }
    } else {
        n2 == n && res == Err::<Seq<Outbound>, DhtError>(DhtError::Decode)
    }
}

/// A step's report seen as a result.
pub open spec fn step_outcome(r: Step) -> Result<Seq<Outbound>, DhtError> {
    match r.error {
        Some(e) => Err(e),
        None => Ok(r.outbound@),
    }
}

/// The result of an operation, with the outbound list seen as a sequence.
pub open spec fn outcome(r: Result<Vec<Outbound>, DhtError>) -> Result<Seq<Outbound>, DhtError> {
    match r {
        Ok(v) => Ok(v@),
        Err(e) => Err(e),
    }
}

pub open spec fn neighbour(address: Addr, hash: u64) -> Neighbour {
    Neighbour { hash, address }
}

pub open spec fn send(dest: Addr, message: Message) -> Outbound {
    Outbound { dest, message }
}

/// The link on side `s`.
pub open spec fn slot(n: Node, s: Side) -> Option<Neighbour> {
    match s {
        Side::Left => n.left_neighbour,
        Side::Right => n.right_neighbour,
    }
}

/// `n` with the link on side `s` replaced by `v`.
pub open spec fn with_slot(n: Node, s: Side, v: Option<Neighbour>) -> Node {
    match s {
        Side::Left => Node { left_neighbour: v, ..n },
        Side::Right => Node { right_neighbour: v, ..n },
    }
}

/// Whether the link on side `s` crosses the seam of the keyspace: a right
/// neighbour below the node's own hash, or a left one above it.
pub open spec fn wraps(n: Node, s: Side) -> bool {
    match slot(n, s) {
        Some(x) => match s {
            Side::Right => x.hash < n.hash,
            Side::Left => x.hash > n.hash,
        },
        None => false,
    }
}

/// The node lies at an end of the ring's order: a link is missing, or one
/// crosses the seam.
pub open spec fn boundary(n: Node) -> bool {
    n.left_neighbour is None || n.right_neighbour is None || wraps(n, Side::Right) || wraps(
        n,
        Side::Left,
    )
}

/// `c` lies strictly between the node's hash `own` and its neighbour's hash
/// `x` on side `s`, without crossing the seam.
pub open spec fn strictly_between(own: u64, s: Side, x: u64, c: u64) -> bool {
    match s {
        Side::Right => own < c && c < x,
        Side::Left => x < c && c < own,
    }
}

/// The link from `own` to `x` on side `s` crosses the seam, and `c` lies
/// beyond the ring's end on that side: no tighter slot exists.
pub open spec fn past_seam(own: u64, s: Side, x: u64, c: u64) -> bool {
    match s {
        Side::Right => x < own && (own < c || c < x),
        Side::Left => own < x && (c < own || x < c),
    }
}

/// The state after `nb` becomes the neighbour on side `s`. A node that had
/// no neighbour at all takes `nb` on both sides: a ring of two.
pub open spec fn inserted(n: Node, s: Side, nb: Neighbour) -> Node {
    if slot(n, s) is None && slot(n, s.flip()) is None {
        with_slot(with_slot(n, s, Some(nb)), s.flip(), Some(nb))
    } else {
        with_slot(n, s, Some(nb))
    }
}

/// What the node tells `nb` when it takes it on side `s`: that the node is
/// its neighbour on the other side; if the node was alone, that it is its
/// neighbour on side `s` too; if another neighbour is displaced, that one,
/// so that `nb` links up with it on its far side.
pub open spec fn insert_notices(n: Node, s: Side, nb: Neighbour) -> Seq<Outbound> {
    let first = seq![send(nb.address, Message::Join(s.flip(), n.address))];
    match slot(n, s) {
        None => if slot(n, s.flip()) is None {
            first + seq![send(nb.address, Message::Join(s, n.address))]
        } else {
            first
        },
        Some(old) => if old.hash != nb.hash {
            first + seq![send(nb.address, Message::Ins(s, old.address))]
        } else {
            first
        },
    }
}

/// The search for the slot of candidate `cand` with hash `c`, going in
/// direction `s`.
pub open spec fn route_spec(n: Node, s: Side, cand: Addr, c: u64) -> (Node, Result<Seq<Outbound>, DhtError>) {
    let nb = neighbour(cand, c);
    if c == n.hash {
        (n, Err(DhtError::SelfJoin))
    } else {
        match slot(n, s) {
            None => (inserted(n, s, nb), Ok(insert_notices(n, s, nb))),
            Some(x) => if c == x.hash {
                (n, Ok(seq![]))
            } else if strictly_between(n.hash, s, x.hash, c) {
                (inserted(n, s, nb), Ok(insert_notices(n, s, nb)))
            } else if past_seam(n.hash, s, x.hash, c) {
                (
                    inserted(n, s, nb),
                    Ok(seq![send(x.address, Message::ReqIns(s, cand))] + insert_notices(n, s, nb)),
                )
            } else {
                (n, Ok(seq![send(x.address, Message::ReqIns(s, cand))]))
            },
        }
    }
}

/// A join request: candidates above the node search rightwards, those
/// below leftwards; the node's own hash is refused.
pub open spec fn join_spec(n: Node, cand: Addr, c: u64) -> (Node, Result<Seq<Outbound>, DhtError>) {
    if c == n.hash {
        (n, Err(DhtError::SelfJoin))
    } else if c > n.hash {
        route_spec(n, Side::Right, cand, c)
    } else {
        route_spec(n, Side::Left, cand, c)
    }
}

/// A link directive: `nb` becomes the neighbour on side `s`. A directive
/// naming the node itself means the ring has shrunk to it on that side: the
/// link is cleared.
pub open spec fn link_spec(n: Node, s: Side, nb: Neighbour) -> Node {
    if nb.hash == n.hash {
        with_slot(n, s, None)
    } else {
        inserted(n, s, nb)
    }
}

/// A commit: `nb` becomes the neighbour on side `s` and learns that the node
/// is its neighbour on the other side. Nothing happens if it already holds
/// that place.
pub open spec fn commit_spec(n: Node, s: Side, nb: Neighbour) -> (Node, Seq<Outbound>) {
    if nb.hash == n.hash {
        (with_slot(n, s, None), seq![])
    } else if slot(n, s) matches Some(x) && x.hash == nb.hash {
        (n, seq![])
    } else {
        (inserted(n, s, nb), seq![send(nb.address, Message::Join(s.flip(), n.address))])
    }
}

/// The address a message is about: the sender for `INIT CONNECT`, the
/// address it carries otherwise.
pub open spec fn subject(source: Addr, m: Message) -> Addr {
    match m {
        Message::InitConnect => source,
        Message::Join(_, a) => a,
        Message::ReqIns(_, a) => a,
        Message::Ins(_, a) => a,
    }
}

/// A message from `source`, whose subject has hash `h`.
pub open spec fn receive_spec(n: Node, source: Addr, m: Message, h: u64) -> (Node, Result<Seq<Outbound>, DhtError>) {
    let a = subject(source, m);
    match m {
        Message::InitConnect => join_spec(n, a, h),
        Message::Join(s, _) => (link_spec(n, s, neighbour(a, h)), Ok(seq![])),
        Message::ReqIns(s, _) => route_spec(n, s, a, h),
        Message::Ins(s, _) => (commit_spec(n, s, neighbour(a, h)).0, Ok(commit_spec(n, s, neighbour(a, h)).1)),
    }
}

/// What leaving tells the neighbours: the left one that its right is now the
/// right one, and the right one that its left is now the left one. A node
/// with a missing link tells nobody.
pub open spec fn leave_spec(n: Node) -> Seq<Outbound> {
    match (n.left_neighbour, n.right_neighbour) {
        (Some(p), Some(q)) => seq![
            send(p.address, Message::Join(Side::Right, q.address)),
            send(q.address, Message::Join(Side::Left, p.address)),
        ],
        _ => seq![],
    }
}

impl Node {
    /// Every hash the node holds is the hash of the address beside it.
    pub open spec fn wf(&self) -> bool {
        &&& self.hash == hash_of(self.address)
        &&& (self.left_neighbour matches Some(p) ==> p.hash == hash_of(p.address))
        &&& (self.right_neighbour matches Some(q) ==> q.hash == hash_of(q.address))
    }

    /// A node alone, at the position of its address.
    pub fn new(address: Addr) -> (r: Node)
        ensures
            r.hash == hash_of(address),
            r.address == address,
            r.left_neighbour is None,
            r.right_neighbour is None,
            r.wf(),
    {
        let hash = calculate_hash(&address);
        Node { hash, address, left_neighbour: None, right_neighbour: None }
    }

    /// A node alone, at a given position.
    pub fn with_hash(address: Addr, hash: u64) -> (r: Node)
        ensures
            r.hash == hash,
            r.address == address,
            r.left_neighbour is None,
            r.right_neighbour is None,
    {
        Node { hash, address, left_neighbour: None, right_neighbour: None }
    }

    fn slot_copy(&self, s: Side) -> (r: Option<Neighbour>)
        ensures
            r == slot(*self, s),
    {
        let v = match s {
            Side::Left => &self.left_neighbour,
            Side::Right => &self.right_neighbour,
        };
        match v {
            Some(x) => Some(x.clone()),
            None => None,
        }
    }

    fn set_slot(&mut self, s: Side, v: Option<Neighbour>)
        ensures
            *final(self) == with_slot(*old(self), s, v),
    {
        match s {
            Side::Left => self.left_neighbour = v,
            Side::Right => self.right_neighbour = v,
        }
    }

    /// Whether the node lies at an end of the ring's order: a link is
    /// missing, the right neighbour's hash is below the node's, or the left
    /// neighbour's is above it.
    pub fn is_boundary(&self) -> (r: bool)
        ensures
            r == boundary(*self),
            r == (self.left_neighbour is None || self.right_neighbour is None || (
            self.right_neighbour matches Some(q) && q.hash < self.hash) || (
            self.left_neighbour matches Some(p) && p.hash > self.hash)),
    {
        match (&self.left_neighbour, &self.right_neighbour) {
            (Some(p), Some(q)) => q.hash < self.hash || p.hash > self.hash,
            _ => true,
        }
    }

    /// The request that asks the node at `entry` to admit this one.
    pub fn initiate_join(&self, entry: &Addr) -> (r: Outbound)
        ensures
            r == send(*entry, Message::InitConnect),
    {
        Outbound { dest: entry.clone(), message: Message::InitConnect }
    }

    fn insert(&mut self, s: Side, address: Addr, hash: u64, is_internal_join: bool) -> (r: Vec<
        Outbound,
    >)
        ensures
            *final(self) == inserted(*old(self), s, neighbour(address, hash)),
            r@ == (if is_internal_join {
                Seq::<Outbound>::empty()
            } else {
                insert_notices(*old(self), s, neighbour(address, hash))
            }),
    {
        let ghost n0 = *self;
        let nb = Neighbour { hash, address };
        let previous = self.slot_copy(s);
        let other = s.opposite();
        let alone = previous.is_none() && self.slot_copy(other).is_none();
        let mut out: Vec<Outbound> = Vec::new();
        if !is_internal_join {
            out.push(
                Outbound {
                    dest: nb.address.clone(),
                    message: Message::Join(other, self.address.clone()),
                },
            );
            match &previous {
                None => {
                    if alone {
                        out.push(
                            Outbound {
                                dest: nb.address.clone(),
                                message: Message::Join(s, self.address.clone()),
                            },
                        );
                    }
                },
                Some(o) => {
                    if o.hash != hash {
                        out.push(
                            Outbound {
                                dest: nb.address.clone(),
                                message: Message::Ins(s, o.address.clone()),
                            },
                        );
                    }
                },
            }
            assert(out@ =~= insert_notices(n0, s, nb));
        }
        if alone {
            self.set_slot(other, Some(nb.clone()));
        }
        self.set_slot(s, Some(nb));
        out
    }

    /// Takes `address` as the left neighbour. Unless the call carries out a
    /// `JOIN` directive, tells the new neighbour so (see `insert_notices`).
    pub fn insert_left(&mut self, address: Addr, hash: u64, is_internal_join: bool) -> (r: Vec<
        Outbound,
    >)
        ensures
            *final(self) == inserted(*old(self), Side::Left, neighbour(address, hash)),
            r@ == (if is_internal_join {
                Seq::<Outbound>::empty()
            } else {
                insert_notices(*old(self), Side::Left, neighbour(address, hash))
            }),
    {
        self.insert(Side::Left, address, hash, is_internal_join)
    }

    /// Takes `address` as the right neighbour. Unless the call carries out a
    /// `JOIN` directive, tells the new neighbour so (see `insert_notices`).
    pub fn insert_right(&mut self, address: Addr, hash: u64, is_internal_join: bool) -> (r: Vec<
        Outbound,
    >)
        ensures
            *final(self) == inserted(*old(self), Side::Right, neighbour(address, hash)),
            r@ == (if is_internal_join {
                Seq::<Outbound>::empty()
            } else {
                insert_notices(*old(self), Side::Right, neighbour(address, hash))
            }),
    {
        self.insert(Side::Right, address, hash, is_internal_join)
    }

    fn route(&mut self, s: Side, cand: Addr, c: u64) -> (r: Result<Vec<Outbound>, DhtError>)
        ensures
            (*final(self), outcome(r)) == route_spec(*old(self), s, cand, c),
    {
        if c == self.hash {
            return Err(DhtError::SelfJoin);
        }
        match self.slot_copy(s) {
            None => Ok(self.insert(s, cand, c, false)),
            Some(x) => {
                let between = match s {
                    Side::Right => self.hash < c && c < x.hash,
                    Side::Left => x.hash < c && c < self.hash,
                };
                let seam = match s {
                    Side::Right => x.hash < self.hash && (self.hash < c || c < x.hash),
                    Side::Left => self.hash < x.hash && (c < self.hash || x.hash < c),
                };
                if c == x.hash {
                    Ok(Vec::new())
                } else if between {
                    Ok(self.insert(s, cand, c, false))
                } else {
                    let mut out: Vec<Outbound> = Vec::new();
                    out.push(Outbound { dest: x.address, message: Message::ReqIns(s, cand.clone()) });
                    if seam {
                        let mut notices = self.insert(s, cand, c, false);
                        out.append(&mut notices);
                    }
                    Ok(out)
                }
            },
        }
    }

    /// Continues the search for the slot of `cand` (hash `c`) rightwards.
    /// With no right neighbour, or with `c` strictly between the node and
    /// it, the candidate is inserted there; past it, the search is forwarded
    /// to it as `REQINS`, and a node whose right link crosses the seam also
    /// inserts the candidate itself; equal to it, nothing is done.
    pub fn route_right(&mut self, cand: Addr, c: u64) -> (r: Result<Vec<Outbound>, DhtError>)
        ensures
            (*final(self), outcome(r)) == route_spec(*old(self), Side::Right, cand, c),
    {
        self.route(Side::Right, cand, c)
    }

    /// Continues the search for the slot of `cand` (hash `c`) leftwards; the
    /// mirror image of `route_right`.
    pub fn route_left(&mut self, cand: Addr, c: u64) -> (r: Result<Vec<Outbound>, DhtError>)
        ensures
            (*final(self), outcome(r)) == route_spec(*old(self), Side::Left, cand, c),
    {
        self.route(Side::Left, cand, c)
    }

    /// A join request from `cand`, whose hash is `c`.
    pub fn join_hashed(&mut self, cand: Addr, c: u64) -> (r: Result<Vec<Outbound>, DhtError>)
        ensures
            (*final(self), outcome(r)) == join_spec(*old(self), cand, c),
    {
        if c == self.hash {
            Err(DhtError::SelfJoin)
        } else if c > self.hash {
            self.route(Side::Right, cand, c)
        } else {
            self.route(Side::Left, cand, c)
        }
    }

    /// A join request from `cand`: `SelfJoin` if it hashes to the node's own
    /// position, which then stays as it was.
    pub fn join(&mut self, cand: Addr) -> (r: Result<Vec<Outbound>, DhtError>)
        ensures
            (*final(self), outcome(r)) == join_spec(*old(self), cand, hash_of(cand)),
    {
        let c = calculate_hash(&cand);
        self.join_hashed(cand, c)
    }

    fn link(&mut self, s: Side, address: Addr, hash: u64)
        ensures
            *final(self) == link_spec(*old(self), s, neighbour(address, hash)),
    {
        if hash == self.hash {
            self.set_slot(s, None);
        } else {
            self.insert(s, address, hash, true);
        }
    }

    fn commit(&mut self, s: Side, address: Addr, hash: u64) -> (r: Vec<Outbound>)
        ensures
            (*final(self), r@) == commit_spec(*old(self), s, neighbour(address, hash)),
    {
        if hash == self.hash {
            self.set_slot(s, None);
            return Vec::new();
        }
        let present = match self.slot_copy(s) {
            Some(x) => x.hash == hash,
            None => false,
        };
        if present {
            return Vec::new();
        }
        let mut out: Vec<Outbound> = Vec::new();
        out.push(
            Outbound {
                dest: address.clone(),
                message: Message::Join(s.opposite(), self.address.clone()),
            },
        );
        self.insert(s, address, hash, true);
        assert(out@ =~= commit_spec(*old(self), s, neighbour(address, hash)).1);
        out
    }

    /// A message from `source`, where `h` is the hash of its subject: the
    /// sender for `INIT CONNECT`, the address it carries otherwise.
    pub fn handle_hashed(&mut self, source: &Addr, m: &Message, h: u64) -> (r: Result<
        Vec<Outbound>,
        DhtError,
    >)
        ensures
            (*final(self), outcome(r)) == receive_spec(*old(self), *source, *m, h),
    {
        match m {
            Message::InitConnect => self.join_hashed(source.clone(), h),
            Message::Join(s, a) => {
                self.link(*s, a.clone(), h);
                Ok(Vec::new())
            },
            Message::ReqIns(s, a) => self.route(*s, a.clone(), h),
            Message::Ins(s, a) => Ok(self.commit(*s, a.clone(), h)),
        }
    }

    /// Dispatches an inbound message; the single entry point that changes the
    /// links.
    pub fn handle_envelope(&mut self, e: &Envelope) -> (r: Result<Vec<Outbound>, DhtError>)
        ensures
            (*final(self), outcome(r)) == receive_spec(
                *old(self),
                e.source,
                e.message,
                hash_of(subject(e.source, e.message)),
            ),
            old(self).wf() ==> final(self).wf(),
    {
        let h = match &e.message {
            Message::InitConnect => calculate_hash(&e.source),
            Message::Join(_, a) => calculate_hash(a),
            Message::ReqIns(_, a) => calculate_hash(a),
            Message::Ins(_, a) => calculate_hash(a),
        };
        self.handle_hashed(&e.source, &e.message, h)
    }

    /// Tells the neighbours that the node leaves: see `leave_spec`.
    pub fn leave(&self) -> (r: Vec<Outbound>)
        ensures
            r@ == leave_spec(*self),
    {
        let mut out: Vec<Outbound> = Vec::new();
        match (&self.left_neighbour, &self.right_neighbour) {
            (Some(p), Some(q)) => {
                out.push(
                    Outbound {
                        dest: p.address.clone(),
                        message: Message::Join(Side::Right, q.address.clone()),
                    },
                );
                out.push(
                    Outbound {
                        dest: q.address.clone(),
                        message: Message::Join(Side::Left, p.address.clone()),
                    },
                );
                assert(out@ =~= leave_spec(*self));
            },
            _ => {},
        }
        out
    }

    /// Reads an envelope and dispatches it. Bytes outside the grammar are a
    /// `Decode` error and leave the node as it was.
    pub fn handle_bytes(&mut self, b: &[u8]) -> (r: Result<Vec<Outbound>, DhtError>)
        ensures
            bytes_spec(*old(self), b@, *final(self), outcome(r)),
            old(self).wf() ==> final(self).wf(),
    {
        match parse_envelope(b) {
            Ok(e) => self.handle_envelope(&e),
            Err(e) => Err(e),
        }
    }

    /// One turn of the processing loop. An envelope is handled and the loop
    /// goes on, whatever its outcome; the shutdown signal, or the channel's
    /// closing, makes the node leave and the loop end.
    pub fn step(&mut self, ev: Event) -> (r: Step)
        ensures
            old(self).wf() ==> final(self).wf(),
            match ev {
                Event::Envelope(b) => {
                    &&& !r.stop
                    &&& (r.error is Some ==> r.outbound@.len() == 0)
                    &&& bytes_spec(*old(self), b@, *final(self), step_outcome(r))
                },
                Event::Shutdown => {
                    &&& r.stop
                    &&& *final(self) == *old(self)
                    &&& r.error is None
                    &&& r.outbound@ == leave_spec(*old(self))
                },
                Event::ChannelClosed => {
                    &&& r.stop
                    &&& *final(self) == *old(self)
                    &&& r.error == Some(DhtError::ChannelClosed)
                    &&& r.outbound@ == leave_spec(*old(self))
                },
            },
    {
        match ev {
            Event::Envelope(b) => match self.handle_bytes(b.as_slice()) {
                Ok(out) => Step { outbound: out, error: None, stop: false },
                Err(e) => Step { outbound: Vec::new(), error: Some(e), stop: false },
            },
            Event::Shutdown => Step { outbound: self.leave(), error: None, stop: true },
            Event::ChannelClosed => Step {
                outbound: self.leave(),
                error: Some(DhtError::ChannelClosed),
                stop: true,
            },
        }
    }
}

} // verus!
