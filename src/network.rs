//! A ring of nodes as a whole, and what delivering datagrams does to it.
//!
//! A network maps each member's hash to its state. Datagrams wait in one
//! queue and are delivered in order, each to the member that its address
//! hashes to; what the member sends goes to the back of the queue. This is
//! reliable delivery: nothing is lost and everything is delivered once.

use vstd::prelude::*;
use crate::addr::{hash_of, Addr};
use crate::node::{
    neighbour, past_seam, receive_spec, route_spec, send, slot, strictly_between, subject, with_slot, Neighbour,
    Node, Outbound,
};
use crate::wire::{Message, Side};

verus! {

/// A datagram in flight: the sender's address and what it sent.
pub type Packet = (Addr, Outbound);

/// The datagrams that a node at `from` sends.
pub open spec fn packets(from: Addr, outs: Seq<Outbound>) -> Seq<Packet> {
    Seq::new(outs.len(), |i: int| (from, outs[i]))
}

/// Delivers one datagram: the member it is addressed to receives it, and
/// what that member sends comes back as new datagrams.
#[verifier::opaque]
pub open spec fn deliver(net: Map<u64, Node>, p: Packet) -> (Map<u64, Node>, Seq<Packet>) {
    let h = hash_of(p.1.dest);
    let n = net[h];
    let r = receive_spec(n, p.0, p.1.message, hash_of(subject(p.0, p.1.message)));
    (
        net.insert(h, r.0),
        match r.1 {
            Ok(o) => packets(n.address, o),
            Err(_) => Seq::empty(),
        },
    )
}

/// Delivers the queue in order, and what the deliveries send, until no
/// datagram is left; `None` if that takes more than `fuel` deliveries.
#[verifier::opaque]
pub open spec fn run(net: Map<u64, Node>, queue: Seq<Packet>, fuel: nat) -> Option<
    Map<u64, Node>,
>
    decreases fuel,
{
    if queue.len() == 0 {
        Some(net)
    } else if fuel == 0 {
        None
    } else {
        let d = deliver(net, queue[0]);
        run(d.0, queue.drop_first() + d.1, (fuel - 1) as nat)
    }
}

/// The index after `i` in a cycle of `n`.
pub open spec fn succ(n: int, i: int) -> int {
    if i + 1 == n {
        0
    } else {
        i + 1
    }
}

/// The index before `i` in a cycle of `n`.
pub open spec fn pred(n: int, i: int) -> int {
    if i == 0 {
        n - 1
    } else {
        i - 1
    }
}

pub open spec fn sorted(hs: Seq<u64>) -> bool {
    forall|i: int, j: int| 0 <= i < j < hs.len() ==> hs[i] < hs[j]
}

/// The record by which the others know the member at `h`.
pub open spec fn link(net: Map<u64, Node>, h: u64) -> Option<Neighbour> {
    Some(neighbour(net[h].address, h))
}

/// `net` is one ring whose members, in the order of their hashes, are `hs`:
/// each member's right neighbour is the next, its left neighbour the one
/// before, cyclically; a member alone has no neighbour.
#[verifier::opaque]
pub open spec fn is_ring(net: Map<u64, Node>, hs: Seq<u64>) -> bool {
    &&& hs.len() >= 1
    &&& sorted(hs)
    &&& forall|h: u64| net.contains_key(h) <==> hs.contains(h)
    &&& forall|i: int| 0 <= i < hs.len() ==> #[trigger] net[hs[i]].wf() && net[hs[i]].hash == hs[i]
    &&& hs.len() == 1 ==> net[hs[0]].left_neighbour is None && net[hs[0]].right_neighbour is None
    &&& hs.len() >= 2 ==> forall|i: int|
        0 <= i < hs.len() ==> {
            &&& (#[trigger] net[hs[i]]).right_neighbour == link(net, hs[succ(hs.len() as int, i)])
            &&& net[hs[i]].left_neighbour == link(net, hs[pred(hs.len() as int, i)])
        }
}

/// An empty queue leaves the network as it is.
proof fn lemma_run_done(net: Map<u64, Node>, fuel: nat)
    ensures
        run(net, Seq::empty(), fuel) == Some(net),
{
    reveal(run);
}

/// The facts of a ring that hold of all its members.
proof fn lemma_ring_basic(net: Map<u64, Node>, hs: Seq<u64>)
    requires
        is_ring(net, hs),
    ensures
        hs.len() >= 1,
        sorted(hs),
        forall|h: u64| net.contains_key(h) <==> hs.contains(h),
{
    reveal(is_ring);
}

/// The facts of a ring about its member at index `i`.
proof fn lemma_ring_member(net: Map<u64, Node>, hs: Seq<u64>, i: int)
    requires
        is_ring(net, hs),
        0 <= i < hs.len(),
    ensures
        net.contains_key(hs[i]),
        net[hs[i]].wf(),
        net[hs[i]].hash == hs[i],
        hs.len() >= 2 ==> net[hs[i]].right_neighbour == link(net, hs[succ(hs.len() as int, i)]),
        hs.len() >= 2 ==> net[hs[i]].left_neighbour == link(net, hs[pred(hs.len() as int, i)]),
        hs.len() == 1 ==> net[hs[i]].left_neighbour is None && net[hs[i]].right_neighbour is None,
{
    reveal(is_ring);
    assert(hs.contains(hs[i]));
}

/// Where `c` goes in the sorted `hs`: how many of its hashes are below it.
pub open spec fn rank(hs: Seq<u64>, c: u64) -> int
    decreases hs.len(),
{
    if hs.len() == 0 {
        0
    } else if hs.last() < c {
        hs.len() as int
    } else {
        rank(hs.drop_last(), c)
    }
}

proof fn lemma_rank(hs: Seq<u64>, c: u64)
    requires
        sorted(hs),
        !hs.contains(c),
    ensures
        0 <= rank(hs, c) <= hs.len(),
        forall|i: int| 0 <= i < rank(hs, c) ==> hs[i] < c,
        forall|i: int| rank(hs, c) <= i < hs.len() ==> hs[i] > c,
    decreases hs.len(),
{
    if hs.len() > 0 {
        if hs.last() < c {
            assert forall|i: int| 0 <= i < rank(hs, c) implies hs[i] < c by {
                if i < hs.len() - 1 {
                    assert(hs[i] < hs[hs.len() - 1]);
                }
            }
        } else {
            let d = hs.drop_last();
            assert(!d.contains(c)) by {
                if d.contains(c) {
                    let k = choose|k: int| 0 <= k < d.len() && d[k] == c;
                    assert(hs[k] == c);
                }
            }
            assert(hs[hs.len() - 1] != c);
            lemma_rank(d, c);
            assert forall|i: int| 0 <= i < rank(hs, c) implies hs[i] < c by {
                assert(d[i] == hs[i]);
            }
            assert forall|i: int| rank(hs, c) <= i < hs.len() implies hs[i] > c by {
                if i < hs.len() - 1 {
                    assert(d[i] == hs[i]);
                }
            }
        }
    }
}

/// The hashes of a ring with `c` added in its place.
pub open spec fn with_member(hs: Seq<u64>, c: u64) -> Seq<u64> {
    hs.insert(rank(hs, c), c)
}

/// The facts about `with_member` that the ring proofs use.
proof fn lemma_with_member(hs: Seq<u64>, c: u64)
    requires
        sorted(hs),
        !hs.contains(c),
    ensures
        ({
            let r = rank(hs, c);
            let hs2 = with_member(hs, c);
            &&& 0 <= r <= hs.len()
            &&& hs2.len() == hs.len() + 1
            &&& hs2[r] == c
            &&& forall|i: int| 0 <= i < r ==> hs2[i] == hs[i]
            &&& forall|i: int| r < i < hs2.len() ==> hs2[i] == hs[i - 1]
            &&& sorted(hs2)
            &&& forall|h: u64| hs2.contains(h) <==> (hs.contains(h) || h == c)
        }),
{
    let r = rank(hs, c);
    let hs2 = with_member(hs, c);
    lemma_rank(hs, c);
    hs.insert_ensures(r, c);
    assert forall|i: int| r < i < hs2.len() implies hs2[i] == hs[i - 1] by {
        assert(hs2[(i - 1) + 1] == hs[i - 1]);
    }
    assert forall|i: int, j: int| 0 <= i < j < hs2.len() implies hs2[i] < hs2[j] by {
        if j < r {
        } else if j == r {
        } else if i < r {
        } else if i == r {
        } else {
            assert(hs[i - 1] < hs[j - 1]);
        }
    }
    assert forall|h: u64| hs2.contains(h) <==> (hs.contains(h) || h == c) by {
        if hs2.contains(h) {
            let i = choose|i: int| 0 <= i < hs2.len() && hs2[i] == h;
            if i < r {
                assert(hs[i] == h);
            } else if i > r {
                assert(hs[i - 1] == h);
            }
        }
        if hs.contains(h) {
            let k = choose|k: int| 0 <= k < hs.len() && hs[k] == h;
            if k < r {
                assert(hs2[k] == h);
            } else {
                assert(hs2[k + 1] == h);
            }
        }
        if h == c {
            assert(hs2[r] == h);
        }
    }
}

/// Index in `hs` of the member at index `i` of `with_member(hs, c)`, where
/// `r` is the candidate's index.
pub open spec fn old_index(r: int, i: int) -> int {
    if i < r {
        i
    } else {
        i - 1
    }
}

/// `net2` is `net` with `cn` spliced in between the members around its
/// slot, `lo` below and `up` above it (cyclically).
pub open spec fn spliced(net: Map<u64, Node>, hs: Seq<u64>, cn: Node, net2: Map<u64, Node>) -> bool {
    let c = cn.hash;
    let r = rank(hs, c);
    let hs2 = with_member(hs, c);
    let m = hs2.len() as int;
    let lo = hs2[pred(m, r)];
    let up = hs2[succ(m, r)];
    &&& forall|h: u64| net2.contains_key(h) <==> (net.contains_key(h) || h == c)
    &&& forall|h: u64| net.contains_key(h) && h != lo && h != up ==> #[trigger] net2[h] == net[h]
    &&& net2[lo] == with_slot(net[lo], Side::Right, Some(neighbour(cn.address, c)))
    &&& net2[up] == with_slot(net[up], Side::Left, Some(neighbour(cn.address, c)))
    &&& net2[c] == Node { left_neighbour: link(net, lo), right_neighbour: link(net, up), ..cn }
}

proof fn lemma_splice_index(net: Map<u64, Node>, hs: Seq<u64>, cn: Node, net2: Map<u64, Node>, i: int)
    requires
        is_ring(net, hs),
        hs.len() >= 2,
        cn.wf(),
        !hs.contains(cn.hash),
        spliced(net, hs, cn, net2),
        0 <= i < hs.len() + 1,
        i != rank(hs, cn.hash),
    ensures
        0 <= old_index(rank(hs, cn.hash), i) < hs.len(),
        with_member(hs, cn.hash)[i] == hs[old_index(rank(hs, cn.hash), i)],
        net.contains_key(with_member(hs, cn.hash)[i]),
{
    reveal(is_ring);
    lemma_with_member(hs, cn.hash);
    let k = old_index(rank(hs, cn.hash), i);
    assert(hs.contains(hs[k]));
}

proof fn lemma_splice_keeps(net: Map<u64, Node>, hs: Seq<u64>, cn: Node, net2: Map<u64, Node>, h: u64)
    requires
        is_ring(net, hs),
        hs.len() >= 2,
        cn.wf(),
        !hs.contains(cn.hash),
        spliced(net, hs, cn, net2),
        net.contains_key(h),
    ensures
        net2[h].address == net[h].address,
        net2[h].hash == net[h].hash,
        h != cn.hash,
{
    reveal(is_ring);
}

#[verifier::spinoff_prover]
#[verifier::rlimit(80)]
proof fn lemma_splice_node(net: Map<u64, Node>, hs: Seq<u64>, cn: Node, net2: Map<u64, Node>, i: int)
    requires
        is_ring(net, hs),
        hs.len() >= 2,
        cn.wf(),
        !hs.contains(cn.hash),
        spliced(net, hs, cn, net2),
        0 <= i < hs.len() + 1,
    ensures
        ({
            let hs2 = with_member(hs, cn.hash);
            let m = hs2.len() as int;
            &&& net2[hs2[i]].wf()
            &&& net2[hs2[i]].hash == hs2[i]
            &&& net2[hs2[i]].right_neighbour == link(net2, hs2[succ(m, i)])
            &&& net2[hs2[i]].left_neighbour == link(net2, hs2[pred(m, i)])
        }),
{
    reveal(is_ring);
    let c = cn.hash;
    let n = hs.len() as int;
    let r = rank(hs, c);
    let hs2 = with_member(hs, c);
    let m = hs2.len() as int;
    lemma_with_member(hs, c);
    let lo = hs2[pred(m, r)];
    let up = hs2[succ(m, r)];
    lemma_splice_index(net, hs, cn, net2, pred(m, r));
    lemma_splice_index(net, hs, cn, net2, succ(m, r));
    lemma_splice_keeps(net, hs, cn, net2, lo);
    lemma_splice_keeps(net, hs, cn, net2, up);
    let a = old_index(r, pred(m, r));
    let b = old_index(r, succ(m, r));
    assert(net[hs[a]].wf() && net[hs[a]].hash == hs[a]);
    assert(net[hs[b]].wf() && net[hs[b]].hash == hs[b]);
    if i == r {
        assert(net2[c].right_neighbour == link(net2, up));
        assert(net2[c].left_neighbour == link(net2, lo));
    } else {
        lemma_splice_index(net, hs, cn, net2, i);
        let k = old_index(r, i);
        let h = hs[k];
        assert(net[hs[k]].wf() && net[hs[k]].hash == hs[k]);
        assert(net[hs[k]].right_neighbour == link(net, hs[succ(n, k)]));
        assert(net[hs[k]].left_neighbour == link(net, hs[pred(n, k)]));
        if succ(m, i) != r {
            lemma_splice_index(net, hs, cn, net2, succ(m, i));
            assert(hs2[succ(m, i)] == hs[succ(n, k)]);
            lemma_splice_keeps(net, hs, cn, net2, hs[succ(n, k)]);
        } else {
            assert(h == lo);
        }
        if pred(m, i) != r {
            lemma_splice_index(net, hs, cn, net2, pred(m, i));
            assert(hs2[pred(m, i)] == hs[pred(n, k)]);
            lemma_splice_keeps(net, hs, cn, net2, hs[pred(n, k)]);
        } else {
            assert(h == up);
        }
    }
}

/// Splicing a candidate in between the members around its slot makes a
/// ring of the members and the candidate.
proof fn lemma_splice_ring(net: Map<u64, Node>, hs: Seq<u64>, cn: Node, net2: Map<u64, Node>)
    requires
        is_ring(net, hs),
        hs.len() >= 2,
        cn.wf(),
        !hs.contains(cn.hash),
        spliced(net, hs, cn, net2),
    ensures
        is_ring(net2, with_member(hs, cn.hash)),
{
    reveal(is_ring);
    let hs2 = with_member(hs, cn.hash);
    lemma_with_member(hs, cn.hash);
    assert forall|h: u64| net2.contains_key(h) <==> hs2.contains(h) by {
        assert(net.contains_key(h) <==> hs.contains(h));
    }
    assert forall|i: int| 0 <= i < hs2.len() implies #[trigger] net2[hs2[i]].wf()
        && net2[hs2[i]].hash == hs2[i] by {
        lemma_splice_node(net, hs, cn, net2, i);
    }
    assert forall|i: int| 0 <= i < hs2.len() implies {
        &&& (#[trigger] net2[hs2[i]]).right_neighbour == link(net2, hs2[succ(hs2.len() as int, i)])
        &&& net2[hs2[i]].left_neighbour == link(net2, hs2[pred(hs2.len() as int, i)])
    } by {
        lemma_splice_node(net, hs, cn, net2, i);
    }
}

/// The index after `m` in the direction `s`.
pub open spec fn step(s: Side, m: int) -> int {
    match s {
        Side::Right => m + 1,
        Side::Left => m - 1,
    }
}

/// How many steps in the direction `s` lead from `k` to `j`.
pub open spec fn dist(s: Side, k: int, j: int) -> int {
    match s {
        Side::Right => j - k,
        Side::Left => k - j,
    }
}

/// `m` lies on the way from `k` to `j` in the direction `s`, `j` excluded.
pub open spec fn on_the_way(s: Side, k: int, j: int, m: int) -> bool {
    match s {
        Side::Right => k <= m < j,
        Side::Left => j < m <= k,
    }
}

/// The member at `hs[m]` hands the search for `ca` on to the member at
/// `hs[step(s, m)]` and keeps its links.
#[verifier::opaque]
pub open spec fn forwards(net: Map<u64, Node>, hs: Seq<u64>, m: int, s: Side, ca: Addr, c: u64) -> bool {
    &&& net.contains_key(hs[m])
    &&& hash_of(net[hs[m]].address) == hs[m]
    &&& route_spec(net[hs[m]], s, ca, c) == (
        net[hs[m]],
        Ok::<Seq<Outbound>, crate::error::DhtError>(
            seq![send(net[hs[step(s, m)]].address, Message::ReqIns(s, ca))],
        ),
    )
}

/// Delivering the search for `ca`, going in direction `s`, to the node at `a`.
pub open spec fn search_at(net: Map<u64, Node>, a: Addr, s: Side, ca: Addr) -> (
    Map<u64, Node>,
    Seq<Packet>,
) {
    deliver(net, (ca, send(a, Message::ReqIns(s, ca))))
}

proof fn lemma_run_one(net: Map<u64, Node>, p: Packet, rest: Seq<Packet>, fuel: nat)
    ensures
        run(net, seq![p] + rest, fuel + 1) == run(
            deliver(net, p).0,
            rest + deliver(net, p).1,
            fuel,
        ),
{
    reveal(run);
    assert((seq![p] + rest)[0] == p);
    assert((seq![p] + rest).drop_first() =~= rest);
}

/// A search passes along the members that forward it until it reaches `j`.
proof fn lemma_chain(
    net: Map<u64, Node>,
    hs: Seq<u64>,
    s: Side,
    ca: Addr,
    c: u64,
    k: int,
    j: int,
    from: Addr,
    fuel: nat,
)
    requires
        hash_of(ca) == c,
        0 <= dist(s, k, j),
        0 <= k < hs.len(),
        0 <= j < hs.len(),
        forall|m: int| on_the_way(s, k, j, m) ==> #[trigger] forwards(net, hs, m, s, ca, c),
    ensures
        run(
            net,
            seq![(from, send(net[hs[k]].address, Message::ReqIns(s, ca)))],
            fuel + dist(s, k, j) as nat + 1,
        ) == run(
            search_at(net, net[hs[j]].address, s, ca).0,
            search_at(net, net[hs[j]].address, s, ca).1,
            fuel,
        ),
    decreases dist(s, k, j),
{
    reveal(deliver);
    reveal(forwards);
    let p = (from, send(net[hs[k]].address, Message::ReqIns(s, ca)));
    lemma_run_one(net, p, Seq::empty(), fuel + dist(s, k, j) as nat);
    assert(seq![p] + Seq::<Packet>::empty() =~= seq![p]);
    if k == j {
        assert(Seq::<Packet>::empty() + deliver(net, p).1 =~= deliver(net, p).1);
    } else {
        assert(forwards(net, hs, k, s, ca, c));
        let k2 = step(s, k);
        let q = (net[hs[k]].address, send(net[hs[k2]].address, Message::ReqIns(s, ca)));
        assert(net.insert(hs[k], net[hs[k]]) =~= net);
        assert(deliver(net, p).1 =~= seq![q]);
        assert(Seq::<Packet>::empty() + seq![q] =~= seq![q]);
        lemma_chain(net, hs, s, ca, c, k2, j, net[hs[k]].address, fuel);
    }
}

/// `net` after the member `cn` is spliced in between the members `x` and
/// `y`, `y` the neighbour of `x` on side `s`.
pub open spec fn splice_result(net: Map<u64, Node>, x: u64, y: u64, cn: Node, s: Side) -> Map<
    u64,
    Node,
> {
    let nbc = neighbour(cn.address, cn.hash);
    let cn2 = with_slot(
        with_slot(cn, s.flip(), Some(neighbour(net[x].address, x))),
        s,
        Some(neighbour(net[y].address, y)),
    );
    net.insert(x, with_slot(net[x], s, Some(nbc))).insert(cn.hash, cn2).insert(
        y,
        with_slot(net[y], s.flip(), Some(nbc)),
    )
}

/// What the splice needs of the network: `x` and `y` are linked members on
/// both sides, `y` the neighbour of `x` on side `s`, and `cn` is a node
/// alone.
pub open spec fn splice_ready(net: Map<u64, Node>, x: u64, y: u64, cn: Node, s: Side) -> bool {
    &&& net.contains_key(x)
    &&& net.contains_key(y)
    &&& net.contains_key(cn.hash)
    &&& x != y
    &&& x != cn.hash
    &&& y != cn.hash
    &&& net[cn.hash] == cn
    &&& cn.wf()
    &&& cn.left_neighbour is None
    &&& cn.right_neighbour is None
    &&& net[x].wf()
    &&& net[x].hash == x
    &&& net[y].wf()
    &&& net[y].hash == y
    &&& slot(net[x], s) == Some(neighbour(net[y].address, y))
    &&& net[x].left_neighbour is Some
    &&& net[x].right_neighbour is Some
    &&& net[y].left_neighbour is Some
    &&& net[y].right_neighbour is Some
}

/// The deliveries that follow the insertion at `x`: the two notices to the
/// candidate, then the candidate's notice to `y`.
proof fn lemma_notices(net0: Map<u64, Node>, x: u64, y: u64, cn: Node, s: Side, rest: Seq<Packet>, fuel: nat)
    requires
        splice_ready(net0, x, y, cn, s),
    ensures
        ({
            let xa = net0[x].address;
            let ya = net0[y].address;
            let ca = cn.address;
            let net1 = net0.insert(x, with_slot(net0[x], s, Some(neighbour(ca, cn.hash))));
            let pj = (xa, send(ca, Message::Join(s.flip(), xa)));
            let pi = (xa, send(ca, Message::Ins(s, ya)));
            let py = (ca, send(ya, Message::Join(s.flip(), ca)));
            run(net1, seq![pj, pi] + rest, fuel + 2) == run(
                net1.insert(cn.hash, with_slot(
                    with_slot(cn, s.flip(), Some(neighbour(xa, x))),
                    s,
                    Some(neighbour(ya, y)),
                )),
                rest + seq![py],
                fuel,
            )
        }),
{
    reveal(deliver);
    let c = cn.hash;
    let xa = net0[x].address;
    let ya = net0[y].address;
    let ca = cn.address;
    let nbx = neighbour(xa, x);
    let nby = neighbour(ya, y);
    let net1 = net0.insert(x, with_slot(net0[x], s, Some(neighbour(ca, c))));
    let pj = (xa, send(ca, Message::Join(s.flip(), xa)));
    let pi = (xa, send(ca, Message::Ins(s, ya)));
    let py = (ca, send(ya, Message::Join(s.flip(), ca)));
    let c1 = with_slot(with_slot(cn, s.flip(), Some(nbx)), s, Some(nbx));
    let c2 = with_slot(with_slot(cn, s.flip(), Some(nbx)), s, Some(nby));
    assert(net1[c] == cn);
    assert(deliver(net1, pj).0 == net1.insert(c, c1));
    assert(deliver(net1, pj).1 =~= Seq::<Packet>::empty());
    lemma_run_one(net1, pj, seq![pi] + rest, fuel + 1);
    assert(seq![pj, pi] + rest =~= seq![pj] + (seq![pi] + rest));
    assert((seq![pi] + rest) + Seq::<Packet>::empty() =~= seq![pi] + rest);
    let net2 = net1.insert(c, c1);
    assert(net2[c] == c1);
    assert(deliver(net2, pi).0 =~= net1.insert(c, c2));
    assert(deliver(net2, pi).1 =~= seq![py]);
    lemma_run_one(net2, pi, rest, fuel);
}

/// The splice at a slot strictly between `x` and its neighbour `y`: once the
/// search reaches `x`, three deliveries splice the candidate in.
proof fn lemma_splice_inside(net0: Map<u64, Node>, x: u64, y: u64, cn: Node, s: Side, fuel: nat)
    requires
        splice_ready(net0, x, y, cn, s),
        strictly_between(x, s, y, cn.hash),
    ensures
        run(
            search_at(net0, net0[x].address, s, cn.address).0,
            search_at(net0, net0[x].address, s, cn.address).1,
            fuel + 3,
        ) == Some(splice_result(net0, x, y, cn, s)),
{
    reveal(deliver);
    let c = cn.hash;
    let xa = net0[x].address;
    let ya = net0[y].address;
    let ca = cn.address;
    let net1 = net0.insert(x, with_slot(net0[x], s, Some(neighbour(ca, c))));
    let pj = (xa, send(ca, Message::Join(s.flip(), xa)));
    let pi = (xa, send(ca, Message::Ins(s, ya)));
    let py = (ca, send(ya, Message::Join(s.flip(), ca)));
    let d = search_at(net0, xa, s, ca);
    assert(d.0 == net1);
    assert(d.1 =~= seq![pj, pi]);
    assert(seq![pj, pi] + Seq::<Packet>::empty() =~= seq![pj, pi]);
    lemma_notices(net0, x, y, cn, s, Seq::empty(), fuel + 1);
    let c2 = with_slot(with_slot(cn, s.flip(), Some(neighbour(xa, x))), s, Some(neighbour(ya, y)));
    let net3 = net1.insert(c, c2);
    assert(Seq::<Packet>::empty() + seq![py] =~= seq![py]);
    assert(net3[y] == net0[y]);
    lemma_run_one(net3, py, Seq::empty(), fuel);
    assert(deliver(net3, py).1 =~= Seq::<Packet>::empty());
    assert(deliver(net3, py).0 =~= splice_result(net0, x, y, cn, s));
    assert(Seq::<Packet>::empty() + Seq::<Packet>::empty() =~= Seq::<Packet>::empty());
    lemma_run_done(splice_result(net0, x, y, cn, s), fuel);
}

/// Splicing changes only `x`, `y` and the candidate, and keeps every address.
proof fn lemma_splice_result_keeps(net0: Map<u64, Node>, x: u64, y: u64, cn: Node, s: Side, h: u64)
    requires
        splice_ready(net0, x, y, cn, s),
        net0.contains_key(h),
    ensures
        splice_result(net0, x, y, cn, s).contains_key(h),
        splice_result(net0, x, y, cn, s)[h].address == net0[h].address,
        h != x && h != y && h != cn.hash ==> splice_result(net0, x, y, cn, s)[h] == net0[h],
{
}

/// A member that forwards the search in `net0`, and that the splice leaves
/// alone, still forwards it after the splice.
proof fn lemma_forwards_after_splice(
    net0: Map<u64, Node>,
    hs: Seq<u64>,
    x: u64,
    y: u64,
    cn: Node,
    s: Side,
    m: int,
)
    requires
        splice_ready(net0, x, y, cn, s),
        forwards(net0, hs, m, s, cn.address, cn.hash),
        0 <= m < hs.len(),
        0 <= step(s, m) < hs.len(),
        net0.contains_key(hs[step(s, m)]),
        hs[m] != x,
        hs[m] != y,
        hs[m] != cn.hash,
    ensures
        forwards(splice_result(net0, x, y, cn, s), hs, m, s, cn.address, cn.hash),
{
    reveal(forwards);
    lemma_splice_result_keeps(net0, x, y, cn, s, hs[m]);
    lemma_splice_result_keeps(net0, x, y, cn, s, hs[step(s, m)]);
}

/// The seam's net after the candidate's notices, before `y` hears from it.
pub open spec fn seam_mid(net0: Map<u64, Node>, x: u64, y: u64, cn: Node, s: Side) -> Map<u64, Node> {
    let ca = cn.address;
    net0.insert(x, with_slot(net0[x], s, Some(neighbour(ca, cn.hash)))).insert(
        cn.hash,
        with_slot(
            with_slot(cn, s.flip(), Some(neighbour(net0[x].address, x))),
            s,
            Some(neighbour(net0[y].address, y)),
        ),
    )
}

/// The first deliveries at the seam: `x` forwards to `y` and inserts the
/// candidate, `y` forwards further, and the candidate takes its links.
proof fn lemma_seam_start(
    net0: Map<u64, Node>,
    hs: Seq<u64>,
    x: u64,
    y: u64,
    cn: Node,
    s: Side,
    iy: int,
    fuel: nat,
)
    requires
        splice_ready(net0, x, y, cn, s),
        past_seam(x, s, y, cn.hash),
        0 <= iy < hs.len(),
        0 <= step(s, iy) < hs.len(),
        hs[iy] == y,
        forwards(net0, hs, iy, s, cn.address, cn.hash),
    ensures
        run(
            search_at(net0, net0[x].address, s, cn.address).0,
            search_at(net0, net0[x].address, s, cn.address).1,
            fuel + 3,
        ) == run(
            seam_mid(net0, x, y, cn, s),
            seq![
                (net0[y].address, send(net0[hs[step(s, iy)]].address, Message::ReqIns(s, cn.address))),
                (cn.address, send(net0[y].address, Message::Join(s.flip(), cn.address))),
            ],
            fuel,
        ),
{
    reveal(deliver);
    reveal(forwards);
    let c = cn.hash;
    let xa = net0[x].address;
    let ya = net0[y].address;
    let ca = cn.address;
    let za = net0[hs[step(s, iy)]].address;
    let net1 = net0.insert(x, with_slot(net0[x], s, Some(neighbour(ca, c))));
    let pf = (xa, send(ya, Message::ReqIns(s, ca)));
    let pj = (xa, send(ca, Message::Join(s.flip(), xa)));
    let pi = (xa, send(ca, Message::Ins(s, ya)));
    let py = (ca, send(ya, Message::Join(s.flip(), ca)));
    let pz = (ya, send(za, Message::ReqIns(s, ca)));
    let d = search_at(net0, xa, s, ca);
    assert(d.0 == net1);
    assert(d.1 =~= seq![pf, pj, pi]);
    assert(net1[y] == net0[y]);
    assert(net1.insert(y, net0[y]) =~= net1);
    assert(deliver(net1, pf).0 == net1);
    assert(deliver(net1, pf).1 =~= seq![pz]);
    lemma_run_one(net1, pf, seq![pj, pi], fuel + 2);
    assert(seq![pf, pj, pi] =~= seq![pf] + seq![pj, pi]);
    lemma_notices(net0, x, y, cn, s, seq![pz], fuel);
    assert(seq![pj, pi] + seq![pz] =~= seq![pj, pi] + seq![pz]);
    assert(seq![pz] + seq![py] =~= seq![pz, py]);
}

/// The seam in a ring of two: the forwarded search comes straight back to
/// `x`, which by then holds the candidate.
proof fn lemma_seam_pair(net0: Map<u64, Node>, hs: Seq<u64>, x: u64, y: u64, cn: Node, s: Side, iy: int)
    requires
        splice_ready(net0, x, y, cn, s),
        0 <= iy < hs.len(),
        0 <= step(s, iy) < hs.len(),
        hs[iy] == y,
        hs[step(s, iy)] == x,
    ensures
        run(
            seam_mid(net0, x, y, cn, s),
            seq![
                (net0[y].address, send(net0[hs[step(s, iy)]].address, Message::ReqIns(s, cn.address))),
                (cn.address, send(net0[y].address, Message::Join(s.flip(), cn.address))),
            ],
            2,
        ) == Some(splice_result(net0, x, y, cn, s)),
{
    reveal(deliver);
    let ca = cn.address;
    let ya = net0[y].address;
    let net3 = seam_mid(net0, x, y, cn, s);
    let pz = (ya, send(net0[x].address, Message::ReqIns(s, ca)));
    let py = (ca, send(ya, Message::Join(s.flip(), ca)));
    assert(net3.insert(x, net3[x]) =~= net3);
    assert(deliver(net3, pz).0 == net3);
    assert(deliver(net3, pz).1 =~= Seq::<Packet>::empty());
    lemma_run_one(net3, pz, seq![py], 1);
    assert(seq![pz, py] =~= seq![pz] + seq![py]);
    assert(seq![py] + Seq::<Packet>::empty() =~= seq![py]);
    assert(net3[y] == net0[y]);
    lemma_run_one(net3, py, Seq::empty(), 0);
    assert(seq![py] + Seq::<Packet>::empty() =~= seq![py]);
    assert(deliver(net3, py).0 =~= splice_result(net0, x, y, cn, s));
    assert(deliver(net3, py).1 =~= Seq::<Packet>::empty());
    assert(Seq::<Packet>::empty() + Seq::<Packet>::empty() =~= Seq::<Packet>::empty());
    lemma_run_done(splice_result(net0, x, y, cn, s), 0);
}

/// A search for a candidate that a member already holds on that side stops
/// there and changes nothing.
proof fn lemma_search_stops(net: Map<u64, Node>, x: u64, s: Side, cn: Node)
    requires
        net.contains_key(x),
        hash_of(net[x].address) == x,
        hash_of(cn.address) == cn.hash,
        net[x].hash != cn.hash,
        slot(net[x], s) == Some(neighbour(cn.address, cn.hash)),
    ensures
        search_at(net, net[x].address, s, cn.address) == (net, Seq::<Packet>::empty()),
{
    reveal(deliver);
    assert(net.insert(x, net[x]) =~= net);
    assert(search_at(net, net[x].address, s, cn.address).1 =~= Seq::<Packet>::empty());
}

/// The seam in a larger ring, first part: the member after `y` hands the
/// search on, and `y` takes the candidate as its neighbour.
#[verifier::spinoff_prover]
proof fn lemma_seam_round_start(
    net0: Map<u64, Node>,
    hs: Seq<u64>,
    x: u64,
    y: u64,
    cn: Node,
    s: Side,
    iy: int,
    fuel: nat,
)
    requires
        splice_ready(net0, x, y, cn, s),
        0 <= iy < hs.len(),
        hs[iy] == y,
        forall|h: u64| hs.contains(h) ==> net0.contains_key(h) && h != cn.hash,
        0 <= step(s, iy) < hs.len(),
        hs[step(s, iy)] != y,
        hs[step(s, iy)] != x,
        forwards(net0, hs, step(s, iy), s, cn.address, cn.hash),
        0 <= step(s, step(s, iy)) < hs.len(),
    ensures
        run(
            seam_mid(net0, x, y, cn, s),
            seq![
                (net0[y].address, send(net0[hs[step(s, iy)]].address, Message::ReqIns(s, cn.address))),
                (cn.address, send(net0[y].address, Message::Join(s.flip(), cn.address))),
            ],
            fuel + 2,
        ) == run(
            splice_result(net0, x, y, cn, s),
            seq![
                (
                    net0[hs[step(s, iy)]].address,
                    send(net0[hs[step(s, step(s, iy))]].address, Message::ReqIns(s, cn.address)),
                ),
            ],
            fuel,
        ),
{
    reveal(deliver);
    reveal(forwards);
    let ca = cn.address;
    let ya = net0[y].address;
    let iz = step(s, iy);
    let z = hs[iz];
    let za = net0[z].address;
    let z2a = net0[hs[step(s, iz)]].address;
    let net3 = seam_mid(net0, x, y, cn, s);
    let fin = splice_result(net0, x, y, cn, s);
    let pz = (ya, send(za, Message::ReqIns(s, ca)));
    let py = (ca, send(ya, Message::Join(s.flip(), ca)));
    let pz2 = (za, send(z2a, Message::ReqIns(s, ca)));
    assert(hs.contains(z));
    assert(net3[z] == net0[z]);
    assert(net3.insert(z, net0[z]) =~= net3);
    assert(deliver(net3, pz).0 == net3);
    assert(deliver(net3, pz).1 =~= seq![pz2]);
    lemma_run_one(net3, pz, seq![py], fuel + 1);
    assert(seq![pz, py] =~= seq![pz] + seq![py]);
    assert(net3[y] == net0[y]);
    lemma_run_one(net3, py, seq![pz2], fuel);
    assert(deliver(net3, py).0 =~= fin);
    assert(deliver(net3, py).1 =~= Seq::<Packet>::empty());
    assert(seq![pz2] + Seq::<Packet>::empty() =~= seq![pz2]);
}

/// The seam in a larger ring, second part: the search passes the members
/// up to `x` and stops there, since `x` holds the candidate.
#[verifier::spinoff_prover]
proof fn lemma_seam_round_end(
    net0: Map<u64, Node>,
    hs: Seq<u64>,
    x: u64,
    y: u64,
    cn: Node,
    s: Side,
    ix: int,
    k: int,
    from: Addr,
)
    requires
        splice_ready(net0, x, y, cn, s),
        hash_of(cn.address) == cn.hash,
        0 <= ix < hs.len(),
        0 <= k < hs.len(),
        hs[ix] == x,
        forall|h: u64| hs.contains(h) ==> net0.contains_key(h) && h != cn.hash,
        0 <= dist(s, k, ix),
        forall|m: int|
            #[trigger] on_the_way(s, k, ix, m) ==> {
                &&& forwards(net0, hs, m, s, cn.address, cn.hash)
                &&& 0 <= step(s, m) < hs.len()
                &&& hs[m] != x
                &&& hs[m] != y
            },
    ensures
        run(
            splice_result(net0, x, y, cn, s),
            seq![(from, send(net0[hs[k]].address, Message::ReqIns(s, cn.address)))],
            (dist(s, k, ix) + 1) as nat,
        ) == Some(splice_result(net0, x, y, cn, s)),
{
    let ca = cn.address;
    let c = cn.hash;
    let xa = net0[x].address;
    let fin = splice_result(net0, x, y, cn, s);
    assert forall|m: int| on_the_way(s, k, ix, m) implies #[trigger] forwards(fin, hs, m, s, ca, c) by {
        assert(forwards(net0, hs, m, s, ca, c) && 0 <= step(s, m) < hs.len() && hs[m] != x && hs[m] != y);
        assert(hs.contains(hs[m]));
        assert(hs.contains(hs[step(s, m)]));
        lemma_forwards_after_splice(net0, hs, x, y, cn, s, m);
    }
    assert(hs.contains(hs[k]));
    lemma_splice_result_keeps(net0, x, y, cn, s, hs[k]);
    lemma_chain(fin, hs, s, ca, c, k, ix, from, 0);
    lemma_splice_result_keeps(net0, x, y, cn, s, x);
    lemma_search_stops(fin, x, s, cn);
    lemma_run_done(fin, 0);
}

/// A member of a ring whose neighbour on side `s` lies between it and the
/// candidate's hash, without the seam, forwards the search.
proof fn lemma_forwards_in_ring(net: Map<u64, Node>, hs: Seq<u64>, cn: Node, s: Side, m: int)
    requires
        is_ring(net, hs),
        hs.len() >= 2,
        !net.contains_key(cn.hash),
        0 <= m < hs.len(),
        0 <= step(s, m) < hs.len(),
        match s {
            Side::Right => hs[step(s, m)] < cn.hash,
            Side::Left => cn.hash < hs[step(s, m)],
        },
    ensures
        forwards(net.insert(cn.hash, cn), hs, m, s, cn.address, cn.hash),
{
    reveal(is_ring);
    reveal(forwards);
    let n = hs.len() as int;
    assert(net[hs[m]].wf() && net[hs[m]].hash == hs[m]);
    assert(net[hs[m]].right_neighbour == link(net, hs[succ(n, m)]));
    assert(net[hs[m]].left_neighbour == link(net, hs[pred(n, m)]));
    assert(hs.contains(hs[m]));
    assert(hs.contains(hs[step(s, m)]));
    match s {
        Side::Right => {
            assert(hs[m] < hs[m + 1]);
        },
        Side::Left => {
            assert(hs[m - 1] < hs[m]);
        },
    }
}

/// From the join request at the entry `e` to the search's arrival at `j`.
proof fn lemma_reach(net0: Map<u64, Node>, hs: Seq<u64>, s: Side, cn: Node, e: int, j: int, fuel: nat)
    requires
        hash_of(cn.address) == cn.hash,
        0 <= e < hs.len(),
        0 <= j < hs.len(),
        0 <= dist(s, e, j),
        net0.contains_key(hs[e]),
        hash_of(net0[hs[e]].address) == hs[e],
        net0[hs[e]].hash == hs[e],
        match s {
            Side::Right => cn.hash > hs[e],
            Side::Left => cn.hash < hs[e],
        },
        forall|m: int| on_the_way(s, e, j, m) ==> #[trigger] forwards(net0, hs, m, s, cn.address, cn.hash),
    ensures
        run(
            net0,
            seq![(cn.address, send(net0[hs[e]].address, Message::InitConnect))],
            fuel + dist(s, e, j) as nat + 1,
        ) == run(
            search_at(net0, net0[hs[j]].address, s, cn.address).0,
            search_at(net0, net0[hs[j]].address, s, cn.address).1,
            fuel,
        ),
{
    reveal(deliver);
    let ca = cn.address;
    let ea = net0[hs[e]].address;
    let pc = (ca, send(ea, Message::InitConnect));
    let pr = (ca, send(ea, Message::ReqIns(s, ca)));
    let f = fuel + dist(s, e, j) as nat;
    assert(deliver(net0, pc) == deliver(net0, pr));
    lemma_run_one(net0, pc, Seq::empty(), f);
    lemma_run_one(net0, pr, Seq::empty(), f);
    assert(seq![pc] + Seq::<Packet>::empty() =~= seq![pc]);
    assert(seq![pr] + Seq::<Packet>::empty() =~= seq![pr]);
    lemma_chain(net0, hs, s, ca, cn.hash, e, j, ca, fuel);
}

/// The network after the splice is the ring with the candidate in its place.
proof fn lemma_finish(net: Map<u64, Node>, hs: Seq<u64>, cn: Node, x: u64, y: u64, s: Side)
    requires
        is_ring(net, hs),
        hs.len() >= 2,
        cn.wf(),
        !net.contains_key(cn.hash),
        net.contains_key(x),
        net.contains_key(y),
        ({
            let r = rank(hs, cn.hash);
            let hs2 = with_member(hs, cn.hash);
            let m = hs2.len() as int;
            match s {
                Side::Right => hs2[pred(m, r)] == x && hs2[succ(m, r)] == y,
                Side::Left => hs2[pred(m, r)] == y && hs2[succ(m, r)] == x,
            }
        }),
    ensures
        is_ring(splice_result(net.insert(cn.hash, cn), x, y, cn, s), with_member(hs, cn.hash)),
{
    reveal(is_ring);
    let c = cn.hash;
    let net0 = net.insert(c, cn);
    let fin = splice_result(net0, x, y, cn, s);
    assert(!hs.contains(c));
    assert(x != y) by {
        lemma_with_member(hs, c);
    }
    assert forall|h: u64| fin.contains_key(h) <==> (net.contains_key(h) || h == c) by {}
    assert(spliced(net, hs, cn, fin));
    lemma_splice_ring(net, hs, cn, fin);
}

/// A join into a ring of two or more, through the member `hs[e]`.
pub open spec fn join_ready(net: Map<u64, Node>, hs: Seq<u64>, cn: Node, e: int) -> bool {
    &&& is_ring(net, hs)
    &&& cn.wf()
    &&& cn.left_neighbour is None
    &&& cn.right_neighbour is None
    &&& !net.contains_key(cn.hash)
    &&& 0 <= e < hs.len()
}

/// The request of `cn` to join through `hs[e]`.
pub open spec fn join_request(net: Map<u64, Node>, hs: Seq<u64>, cn: Node, e: int) -> Seq<Packet> {
    seq![(cn.address, send(net[hs[e]].address, Message::InitConnect))]
}

/// Within `k` deliveries the join of `cn` through `hs[e]` is over, and the
/// network is the ring with `cn` in its place.
pub open spec fn joins_to_ring(net: Map<u64, Node>, hs: Seq<u64>, cn: Node, e: int, k: nat) -> bool {
    let q = run(net.insert(cn.hash, cn), join_request(net, hs, cn, e), k);
    q is Some && is_ring(q->Some_0, with_member(hs, cn.hash))
}

/// The search from the entry reaches the member at `j`, the end of the
/// candidate's way in the direction `s`.
#[verifier::spinoff_prover]
proof fn lemma_reach_slot(net: Map<u64, Node>, hs: Seq<u64>, cn: Node, e: int, s: Side, j: int, fuel: nat)
    requires
        join_ready(net, hs, cn, e),
        hs.len() >= 2,
        0 <= j < hs.len(),
        0 <= dist(s, e, j),
        match s {
            Side::Right => cn.hash > hs[e] && (forall|i: int| 0 <= i <= j ==> hs[i] < cn.hash),
            Side::Left => cn.hash < hs[e] && (forall|i: int| j <= i < hs.len() ==> hs[i] > cn.hash),
        },
    ensures
        run(net.insert(cn.hash, cn), join_request(net, hs, cn, e), fuel + dist(s, e, j) as nat + 1)
            == run(
            search_at(net.insert(cn.hash, cn), net[hs[j]].address, s, cn.address).0,
            search_at(net.insert(cn.hash, cn), net[hs[j]].address, s, cn.address).1,
            fuel,
        ),
{
    let c = cn.hash;
    let net0 = net.insert(c, cn);
    lemma_ring_basic(net, hs);
    lemma_ring_member(net, hs, e);
    lemma_ring_member(net, hs, j);
    assert forall|m: int| on_the_way(s, e, j, m) implies #[trigger] forwards(net0, hs, m, s, cn.address, c) by {
        lemma_forwards_in_ring(net, hs, cn, s, m);
    }
    lemma_reach(net0, hs, s, cn, e, j, fuel);
}

/// A join whose slot lies strictly inside the ring's order.
#[verifier::spinoff_prover]
proof fn lemma_join_inside(net: Map<u64, Node>, hs: Seq<u64>, cn: Node, e: int, s: Side) -> (k: nat)
    requires
        join_ready(net, hs, cn, e),
        hs.len() >= 2,
        match s {
            Side::Right => cn.hash > hs[e] && rank(hs, cn.hash) < hs.len(),
            Side::Left => cn.hash < hs[e] && rank(hs, cn.hash) > 0,
        },
    ensures
        joins_to_ring(net, hs, cn, e, k),
{
    let n = hs.len() as int;
    let c = cn.hash;
    let net0 = net.insert(c, cn);
    lemma_ring_basic(net, hs);
    assert(!hs.contains(c));
    lemma_rank(hs, c);
    lemma_with_member(hs, c);
    let r = rank(hs, c);
    let j = match s {
        Side::Right => r - 1,
        Side::Left => r,
    };
    let iy = step(s, j);
    let x = hs[j];
    let y = hs[iy];
    lemma_ring_member(net, hs, j);
    lemma_ring_member(net, hs, iy);
    assert(splice_ready(net0, x, y, cn, s));
    lemma_splice_inside(net0, x, y, cn, s, 0);
    lemma_reach_slot(net, hs, cn, e, s, j, 3);
    lemma_finish(net, hs, cn, x, y, s);
    (3 + dist(s, e, j) + 1) as nat
}

/// A join whose slot lies at the seam: beyond the last member when going
/// right, before the first when going left.
#[verifier::spinoff_prover]
proof fn lemma_join_seam(net: Map<u64, Node>, hs: Seq<u64>, cn: Node, e: int, s: Side) -> (k: nat)
    requires
        join_ready(net, hs, cn, e),
        hs.len() >= 2,
        match s {
            Side::Right => cn.hash > hs[e] && rank(hs, cn.hash) == hs.len(),
            Side::Left => cn.hash < hs[e] && rank(hs, cn.hash) == 0,
        },
    ensures
        joins_to_ring(net, hs, cn, e, k),
{
    let n = hs.len() as int;
    let c = cn.hash;
    let net0 = net.insert(c, cn);
    lemma_ring_basic(net, hs);
    assert(!hs.contains(c));
    lemma_rank(hs, c);
    lemma_with_member(hs, c);
    let (ix, iy) = match s {
        Side::Right => (n - 1, 0int),
        Side::Left => (0int, n - 1),
    };
    let x = hs[ix];
    let y = hs[iy];
    assert(hs[0] < hs[n - 1]);
    lemma_ring_member(net, hs, ix);
    lemma_ring_member(net, hs, iy);
    assert(splice_ready(net0, x, y, cn, s));
    lemma_forwards_in_ring(net, hs, cn, s, iy);
    lemma_finish(net, hs, cn, x, y, s);
    let iz = step(s, iy);
    if n == 2 {
        lemma_seam_start(net0, hs, x, y, cn, s, iy, 2);
        lemma_seam_pair(net0, hs, x, y, cn, s, iy);
        lemma_reach_slot(net, hs, cn, e, s, ix, 5);
        (5 + dist(s, e, ix) + 1) as nat
    } else {
        let iz2 = step(s, iz);
        assert forall|h: u64| hs.contains(h) implies net0.contains_key(h) && h != c by {}
        assert(hs[0] < hs[iz] && hs[iz] < hs[n - 1]);
        lemma_forwards_in_ring(net, hs, cn, s, iz);
        assert forall|m: int| #[trigger] on_the_way(s, iz2, ix, m) implies {
            &&& forwards(net0, hs, m, s, cn.address, c)
            &&& 0 <= step(s, m) < hs.len()
            &&& hs[m] != x
            &&& hs[m] != y
        } by {
            lemma_forwards_in_ring(net, hs, cn, s, m);
            assert(hs[0] < hs[m]);
            assert(hs[m] < hs[n - 1]);
        }
        let dd = dist(s, iz2, ix);
        lemma_seam_start(net0, hs, x, y, cn, s, iy, (dd + 3) as nat);
        lemma_seam_round_start(net0, hs, x, y, cn, s, iy, (dd + 1) as nat);
        lemma_seam_round_end(net0, hs, x, y, cn, s, ix, iz2, net0[hs[iz]].address);
        lemma_reach_slot(net, hs, cn, e, s, ix, (dd + 6) as nat);
        (dd + 6 + dist(s, e, ix) + 1) as nat
    }
}

/// A join into a ring of one: the entry and the candidate link to each other
/// on both sides.
#[verifier::spinoff_prover]
proof fn lemma_join_alone(net: Map<u64, Node>, hs: Seq<u64>, cn: Node, e: int) -> (k: nat)
    requires
        join_ready(net, hs, cn, e),
        hs.len() == 1,
    ensures
        joins_to_ring(net, hs, cn, e, k),
{
    reveal(deliver);
    let c = cn.hash;
    let ca = cn.address;
    let net0 = net.insert(c, cn);
    lemma_ring_basic(net, hs);
    lemma_ring_member(net, hs, 0);
    assert(!hs.contains(c));
    lemma_rank(hs, c);
    lemma_with_member(hs, c);
    let eh = hs[0];
    let en = net[eh];
    let ea = en.address;
    let s = if c > eh {
        Side::Right
    } else {
        Side::Left
    };
    let nbc = neighbour(ca, c);
    let nbe = neighbour(ea, eh);
    let e1 = with_slot(with_slot(en, s, Some(nbc)), s.flip(), Some(nbc));
    let c1 = with_slot(with_slot(cn, s.flip(), Some(nbe)), s, Some(nbe));
    let pc = (ca, send(ea, Message::InitConnect));
    let pa = (ea, send(ca, Message::Join(s.flip(), ea)));
    let pb = (ea, send(ca, Message::Join(s, ea)));
    let net1 = net0.insert(eh, e1);
    let net2 = net1.insert(c, c1);
    assert(net0[eh] == en);
    assert(deliver(net0, pc).0 == net1);
    assert(deliver(net0, pc).1 =~= seq![pa, pb]);
    lemma_run_one(net0, pc, Seq::empty(), 2);
    assert(seq![pc] + Seq::<Packet>::empty() =~= seq![pc]);
    assert(Seq::<Packet>::empty() + seq![pa, pb] =~= seq![pa] + seq![pb]);
    assert(net1[c] == cn);
    assert(deliver(net1, pa).0 == net2);
    assert(deliver(net1, pa).1 =~= Seq::<Packet>::empty());
    lemma_run_one(net1, pa, seq![pb], 1);
    assert(seq![pb] + Seq::<Packet>::empty() =~= seq![pb]);
    assert(net2[c] == c1);
    assert(with_slot(c1, s, Some(nbe)) == c1);
    assert(net2.insert(c, c1) =~= net2);
    assert(deliver(net2, pb).0 == net2);
    assert(deliver(net2, pb).1 =~= Seq::<Packet>::empty());
    lemma_run_one(net2, pb, Seq::empty(), 0);
    assert(Seq::<Packet>::empty() + Seq::<Packet>::empty() =~= Seq::<Packet>::empty());
    lemma_run_done(net2, 0);
    let hs2 = with_member(hs, c);
    assert(hs2.len() == 2);
    assert forall|h: u64| net2.contains_key(h) <==> hs2.contains(h) by {}
    assert(succ(2, 0) == 1 && succ(2, 1) == 0 && pred(2, 0) == 1 && pred(2, 1) == 0);
    reveal(is_ring);
    assert(is_ring(net2, hs2));
    3
}

/// Joining a ring, with every datagram delivered in order, ends with one
/// ring: whichever member `hs[e]` the candidate `cn` asks, the deliveries
/// come to an end, and then the members and the candidate, in the order of
/// their hashes, each link to the next and to the one before, cyclically.
/// Returns how many deliveries the join takes.
pub proof fn law_join_forms_ring(net: Map<u64, Node>, hs: Seq<u64>, cn: Node, e: int) -> (fuel: nat)
    requires
        is_ring(net, hs),
        cn.wf(),
        cn.left_neighbour is None,
        cn.right_neighbour is None,
        !net.contains_key(cn.hash),
        0 <= e < hs.len(),
    ensures
        joins_to_ring(net, hs, cn, e, fuel),
{
    let c = cn.hash;
    lemma_ring_basic(net, hs);
    lemma_ring_member(net, hs, e);
    assert(!hs.contains(c));
    lemma_rank(hs, c);
    if hs.len() == 1 {
        lemma_join_alone(net, hs, cn, e)
    } else if c > hs[e] {
        if rank(hs, c) < hs.len() {
            lemma_join_inside(net, hs, cn, e, Side::Right)
        } else {
            lemma_join_seam(net, hs, cn, e, Side::Right)
        }
    } else {
        assert(c < hs[e]);
        if rank(hs, c) > 0 {
            lemma_join_inside(net, hs, cn, e, Side::Left)
        } else {
            lemma_join_seam(net, hs, cn, e, Side::Left)
        }
    }
}

proof fn lemma_run_more(net: Map<u64, Node>, q: Seq<Packet>, f: nat, d: nat)
    requires
        run(net, q, f) is Some,
    ensures
        run(net, q, f + d) == run(net, q, f),
    decreases f,
{
    reveal(run);
    if q.len() > 0 {
        let dd = deliver(net, q[0]);
        lemma_run_more(dd.0, q.drop_first() + dd.1, (f - 1) as nat, d);
        assert((f + d - 1) as nat == (f - 1) as nat + d);
    }
}

/// Where delivering the queue ends, if it ends.
pub open spec fn settle(net: Map<u64, Node>, q: Seq<Packet>) -> Option<Map<u64, Node>> {
    if exists|f: nat| run(net, q, f) is Some {
        run(net, q, choose|f: nat| run(net, q, f) is Some)
    } else {
        None
    }
}

proof fn lemma_settle(net: Map<u64, Node>, q: Seq<Packet>, f: nat)
    requires
        run(net, q, f) is Some,
    ensures
        settle(net, q) == run(net, q, f),
{
    let g = choose|g: nat| run(net, q, g) is Some;
    lemma_run_more(net, q, f, g);
    lemma_run_more(net, q, g, f);
    assert(f + g == g + f);
}

/// The network and its members' hashes after the candidates `cands` join
/// one after another, the `i`-th through the member at index `entries[i]`
/// of the ring as it then is, each join settled before the next begins.
pub open spec fn join_all(net: Map<u64, Node>, hs: Seq<u64>, cands: Seq<Node>, entries: Seq<int>) -> Option<
    (Map<u64, Node>, Seq<u64>),
>
    decreases cands.len(),
{
    if cands.len() == 0 || entries.len() == 0 {
        Some((net, hs))
    } else {
        let cn = cands[0];
        match settle(net.insert(cn.hash, cn), join_request(net, hs, cn, entries[0])) {
            Some(net2) => join_all(
                net2,
                with_member(hs, cn.hash),
                cands.drop_first(),
                entries.drop_first(),
            ),
            None => None,
        }
    }
}

/// Every sequence of joins into a ring, each delivered reliably, ends with
/// one ring, of the members and all the candidates.
pub proof fn law_joins_form_ring(
    net: Map<u64, Node>,
    hs: Seq<u64>,
    cands: Seq<Node>,
    entries: Seq<int>,
)
    requires
        is_ring(net, hs),
        entries.len() == cands.len(),
        forall|i: int|
            0 <= i < cands.len() ==> {
                &&& (#[trigger] cands[i]).wf()
                &&& cands[i].left_neighbour is None
                &&& cands[i].right_neighbour is None
                &&& !net.contains_key(cands[i].hash)
                &&& 0 <= entries[i] < hs.len() + i
            },
        forall|i: int, j: int| 0 <= i < j < cands.len() ==> cands[i].hash != cands[j].hash,
    ensures
        join_all(net, hs, cands, entries) matches Some(r) && is_ring(r.0, r.1),
    decreases cands.len(),
{
    if cands.len() > 0 {
        let cn = cands[0];
        let c = cn.hash;
        lemma_ring_basic(net, hs);
        assert(!hs.contains(c));
        let f = law_join_forms_ring(net, hs, cn, entries[0]);
        let q = join_request(net, hs, cn, entries[0]);
        let net2 = run(net.insert(c, cn), q, f)->Some_0;
        lemma_settle(net.insert(c, cn), q, f);
        let hs2 = with_member(hs, c);
        lemma_with_member(hs, c);
        lemma_ring_basic(net2, hs2);
        let rest = cands.drop_first();
        let rest_entries = entries.drop_first();
        assert forall|i: int| 0 <= i < rest.len() implies {
            &&& (#[trigger] rest[i]).wf()
            &&& rest[i].left_neighbour is None
            &&& rest[i].right_neighbour is None
            &&& !net2.contains_key(rest[i].hash)
            &&& 0 <= rest_entries[i] < hs2.len() + i
        } by {
            assert(cands[i + 1] == rest[i]);
            assert(rest_entries[i] == entries[i + 1]);
            assert(cands[i + 1].wf());
            assert(cands[0].hash != cands[i + 1].hash);
            assert(!net.contains_key(rest[i].hash));
            assert(!hs.contains(rest[i].hash));
            assert(!hs2.contains(rest[i].hash));
        }
        assert forall|i: int, j: int| 0 <= i < j < rest.len() implies rest[i].hash != rest[j].hash by {
            assert(cands[i + 1].hash != cands[j + 1].hash);
        }
        law_joins_form_ring(net2, hs2, rest, rest_entries);
    }
}

} // verus!
