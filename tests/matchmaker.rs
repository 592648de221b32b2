use netcanv::matchmaker::{InvalidPacket, Matchmaker, Outgoing, MAX_ROOM_ID};
use netcanv::protocol::{Address, IpAddress, Packet};

fn addr(last: u8, port: u16) -> Address {
    Address { ip: IpAddress::V4(10, 0, 0, last), port }
}

fn out(to: Address, packet: Packet) -> Outgoing {
    Outgoing { to, packet }
}

fn error(to: Address, message: &str) -> Outgoing {
    out(to, Packet::Error(message.to_string()))
}

/// A registry with a room `1234` hosted by `h`, and connections open for `h` and `others`.
fn with_room(h: Address, others: &[Address]) -> Matchmaker {
    let mut mm = Matchmaker::new();
    mm.connect(h);
    for a in others {
        mm.connect(*a);
    }
    assert_eq!(mm.host_room(h, Some(1234)), vec![out(h, Packet::RoomId(1234))]);
    mm
}

fn register(mm: &mut Matchmaker, client: Address, host: Address) {
    assert_eq!(
        mm.request_relay(client, Some(host)),
        vec![out(client, Packet::Relayed(client, vec![]))]
    );
}

#[test]
fn end_to_end_scenario() {
    let h = addr(1, 1000);
    let a = addr(2, 2000);
    let b = addr(3, 3000);
    let mut mm = with_room(h, &[a, b]);
    assert_eq!(
        mm.handle(a, Packet::GetHost(1234)),
        Ok(vec![out(h, Packet::ClientAddress(a)), out(a, Packet::HostAddress(h))])
    );
    assert_eq!(
        mm.handle(a, Packet::RequestRelay(Some(h))),
        Ok(vec![out(a, Packet::Relayed(a, vec![]))])
    );
    assert_eq!(mm.handle(a, Packet::Relay(None, b"chunk-data".to_vec())), Ok(vec![]));
    assert_eq!(
        mm.handle(b, Packet::RequestRelay(Some(h))),
        Ok(vec![out(b, Packet::Relayed(b, vec![]))])
    );
    assert_eq!(
        mm.handle(a, Packet::Relay(None, b"stroke".to_vec())),
        Ok(vec![out(b, Packet::Relayed(a, b"stroke".to_vec()))])
    );
}

#[test]
fn join_reaches_host_and_client_once() {
    let h = addr(1, 1000);
    let c = addr(2, 2000);
    let mm = with_room(h, &[c]);
    assert_eq!(
        mm.join(c, 1234),
        vec![out(h, Packet::ClientAddress(c)), out(c, Packet::HostAddress(h))]
    );
}

#[test]
fn join_unknown_room() {
    let mm = with_room(addr(1, 1), &[]);
    let c = addr(2, 2);
    assert_eq!(
        mm.join(c, 4321),
        vec![error(c, "No room found with the given ID. Check whether you spelled the ID correctly")]
    );
}

#[test]
fn relay_excludes_sender() {
    let h = addr(1, 1);
    let (a, b, c) = (addr(2, 2), addr(3, 3), addr(4, 4));
    let mut mm = with_room(h, &[a, b, c]);
    for x in [a, b, c] {
        register(&mut mm, x, h);
    }
    assert_eq!(
        mm.relay(a, None, &vec![7]),
        vec![out(b, Packet::Relayed(a, vec![7])), out(c, Packet::Relayed(a, vec![7]))]
    );
}

#[test]
fn relay_targeted() {
    let h = addr(1, 1);
    let (a, b, c) = (addr(2, 2), addr(3, 3), addr(4, 4));
    let mut mm = with_room(h, &[a, b, c]);
    for x in [a, b, c] {
        register(&mut mm, x, h);
    }
    assert_eq!(mm.relay(a, Some(b), &vec![1, 2]), vec![out(b, Packet::Relayed(a, vec![1, 2]))]);
}

#[test]
fn host_relays_to_own_room() {
    let h = addr(1, 1);
    let a = addr(2, 2);
    let mut mm = with_room(h, &[a]);
    assert_eq!(mm.request_relay(h, None), vec![out(h, Packet::Relayed(h, vec![]))]);
    register(&mut mm, a, h);
    assert_eq!(mm.relay(h, None, &vec![5]), vec![out(a, Packet::Relayed(h, vec![5]))]);
    assert_eq!(mm.relay(a, None, &vec![6]), vec![out(h, Packet::Relayed(a, vec![6]))]);
}

#[test]
fn relay_from_non_member() {
    let h = addr(1, 1);
    let a = addr(2, 2);
    let mut mm = with_room(h, &[a]);
    assert_eq!(
        mm.relay(a, None, &vec![1]),
        vec![error(a, "Only relay clients may send Relay packets")]
    );
}

#[test]
fn relay_request_to_unknown_host() {
    let h = addr(1, 1);
    let a = addr(2, 2);
    let mut mm = with_room(h, &[a]);
    assert_eq!(
        mm.request_relay(a, Some(addr(9, 9))),
        vec![error(a, "The host seems to have disconnected")]
    );
}

#[test]
fn relay_after_host_left() {
    let h = addr(1, 1);
    let a = addr(2, 2);
    let mut mm = with_room(h, &[a]);
    register(&mut mm, a, h);
    assert_eq!(mm.disconnect(h), vec![]);
    assert_eq!(mm.relay(a, None, &vec![1]), vec![error(a, "The host seems to have disconnected")]);
}

#[test]
fn disconnect_cleanup() {
    let h = addr(1, 1);
    let c = addr(2, 2);
    let mut mm = with_room(h, &[c]);
    assert_eq!(mm.lookup_room(1234), Some(h));
    mm.disconnect(h);
    assert_eq!(mm.lookup_room(1234), None);
    assert_eq!(
        mm.handle(c, Packet::GetHost(1234)),
        Ok(vec![error(
            c,
            "No room found with the given ID. Check whether you spelled the ID correctly"
        )])
    );
}

#[test]
fn disconnect_notifies_members() {
    let h = addr(1, 1);
    let (a, b) = (addr(2, 2), addr(3, 3));
    let mut mm = with_room(h, &[a, b]);
    register(&mut mm, a, h);
    register(&mut mm, b, h);
    assert_eq!(mm.disconnect(a), vec![out(b, Packet::Disconnected(a))]);
    // a has left the room at once, even though its connection is still open
    assert_eq!(mm.relay(b, None, &vec![1]), vec![]);
    assert_eq!(
        mm.relay(a, None, &vec![1]),
        vec![error(a, "Only relay clients may send Relay packets")]
    );
}

#[test]
fn dead_member_is_pruned() {
    let h = addr(1, 1);
    let (a, b, c) = (addr(2, 2), addr(3, 3), addr(4, 4));
    let mut mm = with_room(h, &[a, b, c]);
    for x in [a, b, c] {
        register(&mut mm, x, h);
    }
    // b's connection drops without a goodbye
    mm.close(b);
    assert_eq!(mm.relay(a, None, &vec![3]), vec![out(c, Packet::Relayed(a, vec![3]))]);
    // b comes back on the same address, but is no longer a member of the room
    mm.connect(b);
    assert_eq!(mm.relay(a, None, &vec![4]), vec![out(c, Packet::Relayed(a, vec![4]))]);
}

#[test]
fn host_assigns_id_in_range() {
    let mut mm = Matchmaker::new();
    let mut ids = Vec::new();
    for i in 0..20u16 {
        let h = addr(1, i);
        let sent = mm.handle(h, Packet::Host).unwrap();
        assert_eq!(sent.len(), 1);
        assert_eq!(sent[0].to, h);
        match &sent[0].packet {
            Packet::RoomId(id) => {
                assert!(*id <= MAX_ROOM_ID);
                assert!(!ids.contains(id));
                assert_eq!(mm.lookup_room(*id), Some(h));
                ids.push(*id);
            }
            other => panic!("unexpected {:?}", other),
        }
    }
}

#[test]
fn host_again_replaces_room() {
    let h = addr(1, 1);
    let mut mm = with_room(h, &[]);
    assert_eq!(mm.host_room(h, Some(42)), vec![out(h, Packet::RoomId(42))]);
    assert_eq!(mm.lookup_room(1234), None);
    assert_eq!(mm.lookup_room(42), Some(h));
}

#[test]
fn host_fails_when_full() {
    let mut mm = Matchmaker::new();
    for id in 0..=MAX_ROOM_ID {
        let h = Address { ip: IpAddress::V4(10, 1, (id / 256) as u8, (id % 256) as u8), port: 1 };
        assert_eq!(mm.host_room(h, Some(id)), vec![out(h, Packet::RoomId(id))]);
    }
    assert_eq!(mm.find_free_room_id(), None);
    let late = addr(200, 2);
    assert_eq!(
        mm.host(late),
        vec![error(late, "Could not find any more free rooms. Try again")]
    );
}

#[test]
fn no_free_id_is_an_error() {
    let h = addr(1, 1);
    let mut mm = Matchmaker::new();
    assert_eq!(
        mm.host_room(h, None),
        vec![error(h, "Could not find any more free rooms. Try again")]
    );
    assert_eq!(mm.lookup_room(0), None);
}

#[test]
fn server_packets_are_refused() {
    let mut mm = Matchmaker::new();
    let a = addr(1, 1);
    assert_eq!(mm.handle(a, Packet::RoomId(3)), Err(InvalidPacket));
    assert_eq!(mm.handle(a, Packet::Error("x".to_string())), Err(InvalidPacket));
    assert_eq!(mm.handle(a, Packet::Disconnected(a)), Err(InvalidPacket));
}

#[test]
fn is_live_follows_connections() {
    let mut mm = Matchmaker::new();
    let a = addr(1, 1);
    assert!(!mm.is_live(a));
    mm.connect(a);
    mm.connect(a);
    assert!(mm.is_live(a));
    mm.close(a);
    assert!(!mm.is_live(a));
}

#[test]
fn relay_client_moves_between_rooms() {
    let h1 = addr(1, 1);
    let h2 = addr(1, 2);
    let (a, b, c) = (addr(2, 2), addr(3, 3), addr(4, 4));
    let mut mm = with_room(h1, &[h2, a, b, c]);
    assert_eq!(mm.host_room(h2, Some(77)), vec![out(h2, Packet::RoomId(77))]);
    register(&mut mm, a, h1);
    register(&mut mm, b, h1);
    register(&mut mm, c, h2);
    // a moves to the second room: the first room no longer reaches it
    register(&mut mm, a, h2);
    assert_eq!(mm.relay(b, None, &vec![1]), vec![]);
    assert_eq!(mm.relay(c, None, &vec![2]), vec![out(a, Packet::Relayed(c, vec![2]))]);
    // registering twice in one room does not duplicate deliveries
    register(&mut mm, c, h2);
    assert_eq!(mm.relay(a, None, &vec![3]), vec![out(c, Packet::Relayed(a, vec![3]))]);
}

#[test]
fn first_host_always_gets_a_room() {
    let mut mm = Matchmaker::new();
    let h = addr(1, 1);
    let sent = mm.host(h);
    assert_eq!(sent.len(), 1);
    assert!(matches!(sent[0].packet, Packet::RoomId(_)));
}
