use ring_dht::addr::{calculate_hash, Addr};
use ring_dht::error::DhtError;
use ring_dht::node::{Event, Neighbour, Node, Outbound};
use ring_dht::wire::{make_envelope, Message, Side};

fn addr(port: u32) -> Addr {
    Addr { ip: String::from("127.0.0.1"), port }
}

fn nb(port: u32, hash: u64) -> Option<Neighbour> {
    Some(Neighbour { hash, address: addr(port) })
}

fn out(dest: u32, message: Message) -> Outbound {
    Outbound { dest: addr(dest), message }
}

/// Positions chosen by hand: A at 10, B at 20, C at 15.
const A: u32 = 1;
const B: u32 = 2;
const C: u32 = 3;

fn fixed_hash(a: &Addr) -> u64 {
    match a.port {
        1 => 10,
        2 => 20,
        3 => 15,
        p => 100 + p as u64,
    }
}

fn subject(source: &Addr, m: &Message) -> Addr {
    match m {
        Message::InitConnect => source.clone(),
        Message::Join(_, a) | Message::ReqIns(_, a) | Message::Ins(_, a) => a.clone(),
    }
}

/// Delivers every datagram, and every datagram that delivering makes, in
/// order, with the hand-chosen positions. Returns how many were delivered.
fn deliver_fixed(nodes: &mut Vec<Node>, from: Addr, first: Vec<Outbound>) -> usize {
    let mut queue: Vec<(Addr, Outbound)> = first.into_iter().map(|o| (from.clone(), o)).collect();
    let mut count = 0;
    while !queue.is_empty() {
        let (src, o) = queue.remove(0);
        count += 1;
        assert!(count < 1000);
        let node = nodes.iter_mut().find(|n| n.address == o.dest).unwrap();
        let h = fixed_hash(&subject(&src, &o.message));
        let sent = node.handle_hashed(&src, &o.message, h).unwrap();
        let me = node.address.clone();
        queue.extend(sent.into_iter().map(|s| (me.clone(), s)));
    }
    count
}

/// Delivers through the wire form and the real hash.
fn deliver_wire(nodes: &mut Vec<Node>, from: Addr, first: Vec<Outbound>) {
    let mut queue: Vec<(Addr, Outbound)> = first.into_iter().map(|o| (from.clone(), o)).collect();
    let mut count = 0;
    while !queue.is_empty() {
        let (src, o) = queue.remove(0);
        count += 1;
        assert!(count < 10000);
        let node = nodes.iter_mut().find(|n| n.address == o.dest).unwrap();
        let bytes = make_envelope(&src, &o.message.encode());
        let sent = node.handle_bytes(&bytes).unwrap();
        let me = node.address.clone();
        queue.extend(sent.into_iter().map(|s| (me.clone(), s)));
    }
}

fn two_node_ring() -> Vec<Node> {
    let mut nodes = vec![Node::with_hash(addr(A), 10), Node::with_hash(addr(B), 20)];
    let sent = nodes[0].handle_hashed(&addr(B), &Message::InitConnect, 20).unwrap();
    deliver_fixed(&mut nodes, addr(A), sent);
    nodes
}

#[test]
fn self_join_is_refused() {
    let mut a = Node::with_hash(addr(A), 10);
    a.left_neighbour = nb(B, 20);
    a.right_neighbour = nb(B, 20);
    let before_left = a.left_neighbour.clone();
    let r = a.handle_hashed(&addr(7), &Message::InitConnect, 10);
    assert_eq!(r.unwrap_err(), DhtError::SelfJoin);
    assert_eq!(a.left_neighbour, before_left);
    assert_eq!(a.right_neighbour, nb(B, 20));
}

#[test]
fn self_join_through_the_real_hash() {
    let mut a = Node::new(addr(8000));
    let r = a.join(addr(8000));
    assert_eq!(r.unwrap_err(), DhtError::SelfJoin);
    assert_eq!(a.left_neighbour, None);
    assert_eq!(a.right_neighbour, None);
}

#[test]
fn two_nodes_converge() {
    let mut a = Node::with_hash(addr(A), 10);
    let sent = a.handle_hashed(&addr(B), &Message::InitConnect, 20).unwrap();
    assert_eq!(a.right_neighbour, nb(B, 20));
    assert_eq!(a.left_neighbour, nb(B, 20));
    assert_eq!(
        sent,
        vec![
            out(B, Message::Join(Side::Left, addr(A))),
            out(B, Message::Join(Side::Right, addr(A))),
        ]
    );
    let nodes = two_node_ring();
    assert_eq!(nodes[1].left_neighbour, nb(A, 10));
    assert_eq!(nodes[1].right_neighbour, nb(A, 10));
    assert_eq!(nodes[0].left_neighbour, nb(B, 20));
    assert_eq!(nodes[0].right_neighbour, nb(B, 20));
}

fn check_three(nodes: &Vec<Node>) {
    let (a, b, c) = (&nodes[0], &nodes[1], &nodes[2]);
    assert_eq!(a.right_neighbour, nb(C, 15));
    assert_eq!(c.left_neighbour, nb(A, 10));
    assert_eq!(c.right_neighbour, nb(B, 20));
    assert_eq!(b.left_neighbour, nb(C, 15));
    assert_eq!(b.right_neighbour, nb(A, 10));
    assert_eq!(a.left_neighbour, nb(B, 20));
}

#[test]
fn three_nodes_order_via_a() {
    let mut nodes = two_node_ring();
    nodes.push(Node::with_hash(addr(C), 15));
    let sent = nodes[0].handle_hashed(&addr(C), &Message::InitConnect, 15).unwrap();
    deliver_fixed(&mut nodes, addr(A), sent);
    check_three(&nodes);
}

#[test]
fn three_nodes_order_via_b() {
    let mut nodes = two_node_ring();
    nodes.push(Node::with_hash(addr(C), 15));
    let sent = nodes[1].handle_hashed(&addr(C), &Message::InitConnect, 15).unwrap();
    deliver_fixed(&mut nodes, addr(B), sent);
    check_three(&nodes);
}

#[test]
fn join_past_the_seam() {
    let mut nodes = two_node_ring();
    nodes.push(Node::with_hash(addr(4), 104));
    let sent = nodes[0].handle_hashed(&addr(4), &Message::InitConnect, 104).unwrap();
    assert_eq!(sent, vec![out(B, Message::ReqIns(Side::Right, addr(4)))]);
    deliver_fixed(&mut nodes, addr(A), sent);
    assert_eq!(nodes[1].right_neighbour, nb(4, 104));
    assert_eq!(nodes[2].left_neighbour, nb(B, 20));
    assert_eq!(nodes[2].right_neighbour, nb(A, 10));
    assert_eq!(nodes[0].left_neighbour, nb(4, 104));
    assert_eq!(nodes[0].right_neighbour, nb(B, 20));
}

#[test]
fn boundary_detection() {
    let mut n = Node::with_hash(addr(A), 10);
    assert!(n.is_boundary());
    n.right_neighbour = nb(B, 20);
    assert!(n.is_boundary());
    n.left_neighbour = nb(C, 5);
    assert!(!n.is_boundary());
    n.right_neighbour = nb(B, 3);
    assert!(n.is_boundary());
    n.right_neighbour = nb(B, 20);
    n.left_neighbour = nb(C, 30);
    assert!(n.is_boundary());
}

#[test]
fn leave_relinks_neighbours() {
    let mut nodes = two_node_ring();
    nodes.push(Node::with_hash(addr(C), 15));
    let sent = nodes[0].handle_hashed(&addr(C), &Message::InitConnect, 15).unwrap();
    deliver_fixed(&mut nodes, addr(A), sent);
    let bye = nodes[2].leave();
    assert_eq!(
        bye,
        vec![
            out(A, Message::Join(Side::Right, addr(B))),
            out(B, Message::Join(Side::Left, addr(A))),
        ]
    );
    deliver_fixed(&mut nodes, addr(C), bye);
    assert_eq!(nodes[0].right_neighbour, nb(B, 20));
    assert_eq!(nodes[1].left_neighbour, nb(A, 10));
    assert_eq!(nodes[0].left_neighbour, nb(B, 20));
    assert_eq!(nodes[1].right_neighbour, nb(A, 10));
}

#[test]
fn leave_with_a_missing_link_is_silent() {
    let mut n = Node::with_hash(addr(A), 10);
    assert!(n.leave().is_empty());
    n.left_neighbour = nb(B, 20);
    assert!(n.leave().is_empty());
}

#[test]
fn leave_from_a_ring_of_two_clears_the_survivor() {
    let mut nodes = two_node_ring();
    let bye = nodes[1].leave();
    deliver_fixed(&mut nodes, addr(B), bye);
    assert_eq!(nodes[0].left_neighbour, None);
    assert_eq!(nodes[0].right_neighbour, None);
}

#[test]
fn redelivered_ins_changes_nothing() {
    let mut c = Node::with_hash(addr(C), 15);
    c.left_neighbour = nb(A, 10);
    c.right_neighbour = nb(A, 10);
    let m = Message::Ins(Side::Right, addr(B));
    let first = c.handle_hashed(&addr(A), &m, 20).unwrap();
    assert_eq!(first, vec![out(B, Message::Join(Side::Left, addr(C)))]);
    assert_eq!(c.right_neighbour, nb(B, 20));
    let second = c.handle_hashed(&addr(A), &m, 20).unwrap();
    assert!(second.is_empty());
    assert_eq!(c.right_neighbour, nb(B, 20));
    assert_eq!(c.left_neighbour, nb(A, 10));
}

#[test]
fn insert_tells_the_new_neighbour_of_the_displaced_one() {
    let mut a = Node::with_hash(addr(A), 10);
    a.left_neighbour = nb(B, 20);
    a.right_neighbour = nb(B, 20);
    let sent = a.insert_right(addr(C), 15, false);
    assert_eq!(
        sent,
        vec![
            out(C, Message::Join(Side::Left, addr(A))),
            out(C, Message::Ins(Side::Right, addr(B))),
        ]
    );
    assert_eq!(a.right_neighbour, nb(C, 15));
    assert!(a.insert_left(addr(C), 15, true).is_empty());
    assert_eq!(a.left_neighbour, nb(C, 15));
}

#[test]
fn route_forwards_past_the_neighbour() {
    let mut a = Node::with_hash(addr(A), 10);
    a.left_neighbour = nb(C, 5);
    a.right_neighbour = nb(B, 20);
    let sent = a.route_right(addr(9), 30).unwrap();
    assert_eq!(sent, vec![out(B, Message::ReqIns(Side::Right, addr(9)))]);
    assert_eq!(a.right_neighbour, nb(B, 20));
    let same = a.route_left(addr(C), 5).unwrap();
    assert!(same.is_empty());
    assert_eq!(a.route_left(addr(A), 10).unwrap_err(), DhtError::SelfJoin);
}

#[test]
fn step_reports_and_stops() {
    let mut a = Node::new(addr(8000));
    let bad = a.step(Event::Envelope(b"garbage".to_vec()));
    assert_eq!(bad.error, Some(DhtError::Decode));
    assert!(!bad.stop);
    assert!(bad.outbound.is_empty());
    let env = make_envelope(&addr(8001), &Message::InitConnect.encode());
    let ok = a.step(Event::Envelope(env));
    assert_eq!(ok.error, None);
    assert_eq!(ok.outbound.len(), 2);
    assert_eq!(a.right_neighbour.as_ref().unwrap().address, addr(8001));
    let stop = a.step(Event::Shutdown);
    assert!(stop.stop);
    assert_eq!(stop.error, None);
    assert_eq!(stop.outbound.len(), 2);
    let closed = a.step(Event::ChannelClosed);
    assert!(closed.stop);
    assert_eq!(closed.error, Some(DhtError::ChannelClosed));
}

#[test]
fn initiate_join_targets_the_entry() {
    let a = Node::new(addr(8000));
    assert_eq!(a.initiate_join(&addr(9000)), out(9000, Message::InitConnect));
    assert_eq!(a.hash, calculate_hash(&addr(8000)));
}

#[test]
fn sequential_joins_form_one_cycle() {
    let ports: Vec<u32> = vec![8000, 8001, 8002, 8003, 8004, 8005, 9000, 9100, 7000];
    let mut nodes: Vec<Node> = ports.iter().map(|p| Node::new(addr(*p))).collect();
    for i in 1..nodes.len() {
        let entry = if i % 2 == 0 { 0 } else { i - 1 };
        let first = vec![nodes[i].initiate_join(&nodes[entry].address)];
        let from = nodes[i].address.clone();
        deliver_wire(&mut nodes, from, first);
        let k = i + 1;
        for n in nodes.iter().take(k) {
            let r = n.right_neighbour.as_ref().unwrap();
            let right = nodes.iter().find(|m| m.address == r.address).unwrap();
            assert_eq!(right.left_neighbour.as_ref().unwrap().address, n.address);
            assert_ne!(r.address, n.address);
        }
        let mut seen = vec![nodes[0].address.clone()];
        let mut cur = nodes[0].right_neighbour.clone().unwrap().address;
        while cur != nodes[0].address {
            assert!(!seen.contains(&cur));
            seen.push(cur.clone());
            let n = nodes.iter().find(|m| m.address == cur).unwrap();
            cur = n.right_neighbour.clone().unwrap().address;
        }
        assert_eq!(seen.len(), k);
        let seams = nodes
            .iter()
            .take(k)
            .filter(|n| n.right_neighbour.as_ref().unwrap().hash < n.hash)
            .count();
        assert_eq!(seams, 1);
    }
}
