//! Laws of the ring's operations, stated over their specifications.

use vstd::prelude::*;
use crate::addr::{hash_of, Addr};
use crate::error::DhtError;
use crate::node::{leave_spec, neighbour, receive_spec, subject, with_slot, Node, Outbound};
use crate::wire::{Message, Side};

verus! {

/// The hash depends on the address alone: structurally equal addresses
/// have equal hashes.
pub proof fn law_hash_deterministic(a: Addr, b: Addr)
    requires
        a.ip@ == b.ip@,
        a.port == b.port,
    ensures
        hash_of(a) == hash_of(b),
{
}

/// A join request from an address that hashes to the receiving node's own
/// position is refused with `SelfJoin`, and the node keeps its links.
pub proof fn law_self_join(n: Node, source: Addr)
    requires
        hash_of(source) == n.hash,
    ensures
        receive_spec(n, source, Message::InitConnect, hash_of(subject(source, Message::InitConnect)))
            == (n, Err::<Seq<Outbound>, DhtError>(DhtError::SelfJoin)),
{
}

/// Delivering the same `INS` a second time changes nothing and sends
/// nothing.
pub proof fn law_ins_idempotent(n: Node, source: Addr, s: Side, a: Addr, h: u64)
    ensures
        receive_spec(receive_spec(n, source, Message::Ins(s, a), h).0, source, Message::Ins(s, a), h)
            == (receive_spec(n, source, Message::Ins(s, a), h).0, Ok::<
            Seq<Outbound>,
            DhtError,
        >(Seq::empty())),
{
    let n1 = receive_spec(n, source, Message::Ins(s, a), h).0;
    if h == n.hash {
        assert(n1 == with_slot(n, s, None));
        assert(with_slot(n1, s, None) == n1);
    }
}

/// When a node `l` with left neighbour `p` and right neighbour `q` leaves,
/// its two messages make `q` the right neighbour of `p` and `p` the left
/// neighbour of `q`. A node with a missing link sends nothing.
pub proof fn law_leave(l: Node, p: Node, q: Node)
    requires
        p.wf(),
        q.wf(),
        p.hash != q.hash,
        l.left_neighbour == Some(neighbour(p.address, p.hash)),
        l.right_neighbour == Some(neighbour(q.address, q.hash)),
    ensures
        leave_spec(l).len() == 2,
        leave_spec(l)[0].dest == p.address,
        leave_spec(l)[1].dest == q.address,
        receive_spec(
            p,
            l.address,
            leave_spec(l)[0].message,
            hash_of(subject(l.address, leave_spec(l)[0].message)),
        ).0.right_neighbour == Some(neighbour(q.address, q.hash)),
        receive_spec(
            q,
            l.address,
            leave_spec(l)[1].message,
            hash_of(subject(l.address, leave_spec(l)[1].message)),
        ).0.left_neighbour == Some(neighbour(p.address, p.hash)),
{
}

/// A node with a missing link leaves silently.
pub proof fn law_leave_alone(l: Node)
    requires
        l.left_neighbour is None || l.right_neighbour is None,
    ensures
        leave_spec(l).len() == 0,
{
}

} // verus!
