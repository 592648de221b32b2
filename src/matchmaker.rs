//! The matchmaker: a registry of hosted rooms and the handlers of client requests.
//!
//! A room is created by its host and lives until the host disconnects. Relay clients register
//! with a room and exchange opaque payloads through it. A client is reached through its address;
//! the set of live connections stands in for weak references to them, so a client whose
//! connection closed is skipped, and pruned from its room, on the next relay.
use std::collections::HashMap;

use nanorand::Rng;
use vstd::prelude::*;

use crate::address_map::AddressMap;
use crate::protocol::{Address, Packet, PacketView};

verus! {

broadcast use {vstd::std_specs::hash::group_hash_axioms, vstd::seq_lib::lemma_seq_contains_after_push};

/// The largest room ID.
pub const MAX_ROOM_ID: u32 = 9999;

/// How many random IDs are tried before hosting fails.
pub const ROOM_ID_ATTEMPTS: usize = 49;

#[verifier::external_type_specification]
#[verifier::external_body]
pub struct ExWyRand(nanorand::WyRand);

/// Relies on nanorand's `WyRand::new`: a generator seeded from the system's entropy.
pub assume_specification[ nanorand::WyRand::new ]() -> nanorand::WyRand;

/// Relies on nanorand's `Rng::generate_range` over `0..=max`: the number drawn lies in that
/// range (it does not panic, as the range is not empty and its end plus one fits in a `u32`).
#[verifier::external_body]
fn draw_room_id(rng: &mut nanorand::WyRand, max: u32) -> (r: u32)
    requires
        max < u32::MAX,
    ensures
        r <= max,
{
    rng.generate_range(0..=max)
}

/// One hosted room.
#[derive(Clone, Debug)]
pub struct Room {
    pub id: u32,
    /// The host's address.
    pub host: Address,
    /// The relay clients, in the order they registered.
    pub clients: Vec<Address>,
}

pub struct RoomView {
    pub id: u32,
    pub host: Address,
    pub clients: Seq<Address>,
}

impl View for Room {
    type V = RoomView;

    open spec fn view(&self) -> RoomView {
        RoomView { id: self.id, host: self.host, clients: self.clients@ }
    }
}

/// A packet to be sent to the peer at an address.
#[derive(Clone, Debug, PartialEq, Eq)]
pub struct Outgoing {
    pub to: Address,
    pub packet: Packet,
}

/// The packets in `v`, with their destinations.
pub open spec fn sent(v: Seq<Outgoing>) -> Seq<(Address, PacketView)> {
    v.map_values(|o: Outgoing| (o.to, o.packet@))
}

/// A packet that only the matchmaker sends was received from a client.
#[derive(Clone, Copy, Debug, PartialEq, Eq, Structural)]
pub struct InvalidPacket;

pub open spec fn no_free_rooms_message() -> Seq<char> {
    "Could not find any more free rooms. Try again"@
}

pub open spec fn no_room_message() -> Seq<char> {
    "No room found with the given ID. Check whether you spelled the ID correctly"@
}

pub open spec fn host_gone_message() -> Seq<char> {
    "The host seems to have disconnected"@
}

pub open spec fn not_relay_client_message() -> Seq<char> {
    "Only relay clients may send Relay packets"@
}

/// Which members of a room are still connected.
pub open spec fn is_live_in(live: Set<Address>) -> spec_fn(Address) -> bool {
    |c: Address| live.contains(c)
}

/// Which members of a room get a payload relayed from `from` to `to` (everyone when `None`).
pub open spec fn is_recipient(live: Set<Address>, from: Address, to: Option<Address>) -> spec_fn(
    Address,
) -> bool {
    |c: Address| live.contains(c) && c != from && (to is None || to == Some(c))
}

/// Which members of a room are told that `from` left.
pub open spec fn is_notified(live: Set<Address>, from: Address) -> spec_fn(Address) -> bool {
    |c: Address| live.contains(c) && c != from
}

/// One packet to each address of `s`, in order.
pub open spec fn to_each(s: Seq<Address>, p: PacketView) -> Seq<(Address, PacketView)> {
    s.map_values(|c: Address| (c, p))
}

/// Every address but `c`.
pub open spec fn is_other(c: Address) -> spec_fn(Address) -> bool {
    |x: Address| x != c
}

/// `rooms` with `c` taken out of the client list of room `id`, if that room exists.
pub open spec fn drop_member(rooms: Map<u32, RoomView>, id: u32, c: Address) -> Map<u32, RoomView> {
    if rooms.contains_key(id) {
        rooms.insert(
            id,
            RoomView {
                id: rooms[id].id,
                host: rooms[id].host,
                clients: rooms[id].clients.filter(is_other(c)),
            },
        )
    } else {
        rooms
    }
}

/// The matchmaker's state: rooms by ID, the room of each host, the room of each relay client,
/// and the connections that are open.
pub struct Matchmaker {
    rooms: HashMap<u32, Room>,
    host_rooms: AddressMap,
    relay_clients: AddressMap,
    live: Vec<Address>,
    rng: nanorand::WyRand,
}

impl Matchmaker {
    pub closed spec fn rooms(&self) -> Map<u32, RoomView> {
        self.rooms@.map_values(|r: Room| r@)
    }

    pub closed spec fn host_rooms(&self) -> Map<Address, u32> {
        self.host_rooms@
    }

    pub closed spec fn relay_clients(&self) -> Map<Address, u32> {
        self.relay_clients@
    }

    pub closed spec fn live(&self) -> Set<Address> {
        Set::new(|a: Address| self.live@.contains(a))
    }

    /// Every room is stored under its own ID, which is in range; rooms and hosts correspond one
    /// to one through `host_rooms`; and every member of a room's client list is a relay client
    /// of that room, so no client is a member of two rooms.
    pub closed spec fn wf(&self) -> bool {
        &&& self.host_rooms.wf()
        &&& self.relay_clients.wf()
        &&& forall|id: u32| #[trigger]
            self.rooms@.contains_key(id) ==> {
                let room = self.rooms@[id];
                &&& room.id == id
                &&& id <= MAX_ROOM_ID
                &&& self.host_rooms@.contains_key(room.host)
                &&& self.host_rooms@[room.host] == id
            }
        &&& forall|a: Address| #[trigger]
            self.host_rooms@.contains_key(a) ==> {
                &&& self.rooms@.contains_key(self.host_rooms@[a])
                &&& self.rooms@[self.host_rooms@[a]].host == a
            }
        &&& forall|id: u32, c: Address|
            #![trigger self.rooms@[id].clients@.contains(c)]
            self.rooms@.contains_key(id) && self.rooms@[id].clients@.contains(c) ==> {
                &&& self.relay_clients@.contains_key(c)
                &&& self.relay_clients@[c] == id
            }
    }

    /// The rooms once the room hosted at `a`, if any, is gone.
    pub open spec fn rooms_without_host(&self, a: Address) -> Map<u32, RoomView> {
        if self.host_rooms().contains_key(a) {
            self.rooms().remove(self.host_rooms()[a])
        } else {
            self.rooms()
        }
    }

    /// `self` is `old` after `host` created room `id`.
    pub open spec fn hosted(&self, old: &Matchmaker, host: Address, id: u32) -> bool {
        &&& self.rooms() == old.rooms_without_host(host).insert(
            id,
            RoomView { id, host, clients: Seq::empty() },
        )
        &&& self.host_rooms() == old.host_rooms().insert(host, id)
        &&& self.relay_clients() == old.relay_clients()
        &&& self.live() == old.live()
    }

    /// `self` holds the same rooms, indexes and connections as `old`.
    pub open spec fn same_registry(&self, old: &Matchmaker) -> bool {
        &&& self.rooms() == old.rooms()
        &&& self.host_rooms() == old.host_rooms()
        &&& self.relay_clients() == old.relay_clients()
        &&& self.live() == old.live()
    }

    /// The room that `client` joins when it asks to relay through the room hosted at `host_addr`
    /// (its own room when `None`).
    pub open spec fn relay_room_of(&self, client: Address, host_addr: Option<Address>) -> Option<
        u32,
    > {
        let h = match host_addr {
            Some(h) => h,
            None => client,
        };
        if self.host_rooms().contains_key(h) {
            Some(self.host_rooms()[h])
        } else {
            None
        }
    }

    /// The rooms once `c` has left the client list of the room it relays through, if any.
    pub open spec fn rooms_without_client(&self, c: Address) -> Map<u32, RoomView> {
        if self.relay_clients().contains_key(c) {
            drop_member(self.rooms(), self.relay_clients()[c], c)
        } else {
            self.rooms()
        }
    }

    /// `self` is `old` after `RequestRelay(host_addr)` from `client`, which sent `out`: the
    /// client leaves the room it relayed through before, and joins the end of the new room's
    /// client list.
    pub open spec fn relay_registered(
        &self,
        old: &Matchmaker,
        client: Address,
        host_addr: Option<Address>,
        out: Seq<(Address, PacketView)>,
    ) -> bool {
        match old.relay_room_of(client, host_addr) {
            None => self.same_registry(old) && out == seq![
                (client, PacketView::Error(host_gone_message())),
            ],
            Some(id) => {
                let rooms = old.rooms_without_client(client);
                let room = rooms[id];
                &&& self.rooms() == rooms.insert(
                    id,
                    RoomView { id: room.id, host: room.host, clients: room.clients.push(client) },
                )
                &&& self.host_rooms() == old.host_rooms()
                &&& self.relay_clients() == old.relay_clients().insert(client, id)
                &&& self.live() == old.live()
                &&& out == seq![(client, PacketView::Relayed(client, Seq::empty()))]
            },
        }
    }

    /// `self` is `old` after `Relay(to, data)` from `from`, which sent `out`: the payload goes to
    /// every connected member of the sender's room but the sender (only to `to`, when given),
    /// and the members whose connection closed are pruned from the room.
    pub open spec fn relayed(
        &self,
        old: &Matchmaker,
        from: Address,
        to: Option<Address>,
        data: Seq<u8>,
        out: Seq<(Address, PacketView)>,
    ) -> bool {
        if !old.relay_clients().contains_key(from) {
            self.same_registry(old) && out == seq![
                (from, PacketView::Error(not_relay_client_message())),
            ]
        } else if !old.rooms().contains_key(old.relay_clients()[from]) {
            self.same_registry(old) && out == seq![(from, PacketView::Error(host_gone_message()))]
        } else {
            let id = old.relay_clients()[from];
            let room = old.rooms()[id];
            &&& self.rooms() == old.rooms().insert(
                id,
                RoomView {
                    id: room.id,
                    host: room.host,
                    clients: room.clients.filter(is_live_in(old.live())),
                },
            )
            &&& self.host_rooms() == old.host_rooms()
            &&& self.relay_clients() == old.relay_clients()
            &&& self.live() == old.live()
            &&& out == to_each(
                room.clients.filter(is_recipient(old.live(), from, to)),
                PacketView::Relayed(from, data),
            )
        }
    }

    /// `self` is `old` after the peer at `peer` said goodbye, which sent `out`: the room it
    /// hosted is gone, it is no longer a relay client nor in any client list, and the connected
    /// members of the room it relayed through are told.
    pub open spec fn disconnected(
        &self,
        old: &Matchmaker,
        peer: Address,
        out: Seq<(Address, PacketView)>,
    ) -> bool {
        let rooms = old.rooms_without_host(peer);
        &&& self.rooms() == if old.relay_clients().contains_key(peer) {
            drop_member(rooms, old.relay_clients()[peer], peer)
        } else {
            rooms
        }
        &&& self.host_rooms() == old.host_rooms().remove(peer)
        &&& self.relay_clients() == old.relay_clients().remove(peer)
        &&& self.live() == old.live()
        &&& out == if old.relay_clients().contains_key(peer) && rooms.contains_key(
            old.relay_clients()[peer],
        ) {
            to_each(
                rooms[old.relay_clients()[peer]].clients.filter(is_notified(old.live(), peer)),
                PacketView::Disconnected(peer),
            )
        } else {
            Seq::empty()
        }
    }

    /// `self` is `old` after `Host` from `host`, which sent `out`: a room under a free ID, or an
    /// error, which is certain when every ID is taken. With no room yet, the first draw is free,
    /// so a room is created.
    pub open spec fn host_done(
        &self,
        old: &Matchmaker,
        host: Address,
        out: Seq<(Address, PacketView)>,
    ) -> bool {
        &&& {
            ||| self.same_registry(old) && out == seq![
                (host, PacketView::Error(no_free_rooms_message())),
            ]
            ||| exists|i: u32|
                i <= MAX_ROOM_ID && !old.rooms().contains_key(i) && self.hosted(old, host, i)
                    && out == seq![(host, PacketView::RoomId(i))]
        }
        &&& (forall|id: u32| id <= MAX_ROOM_ID ==> #[trigger] old.rooms().contains_key(id))
            ==> self.same_registry(old) && out == seq![
            (host, PacketView::Error(no_free_rooms_message())),
        ]
        &&& old.rooms() == Map::<u32, RoomView>::empty() ==> exists|i: u32|
            i <= MAX_ROOM_ID && self.hosted(old, host, i) && out == seq![
                (host, PacketView::RoomId(i)),
            ]
    }

    /// What `GetHost(id)` from `client` sends.
    pub open spec fn join_reply(&self, client: Address, id: u32) -> Seq<(Address, PacketView)> {
        if self.rooms().contains_key(id) {
            seq![
                (self.rooms()[id].host, PacketView::ClientAddress(client)),
                (client, PacketView::HostAddress(self.rooms()[id].host)),
            ]
        } else {
            seq![(client, PacketView::Error(no_room_message()))]
        }
    }

    /// An empty registry.
    pub fn new() -> (r: Matchmaker)
        ensures
            r.wf(),
            r.rooms() == Map::<u32, RoomView>::empty(),
            r.host_rooms() == Map::<Address, u32>::empty(),
            r.relay_clients() == Map::<Address, u32>::empty(),
            r.live() == Set::<Address>::empty(),
    {
        let r = Matchmaker {
            rooms: HashMap::new(),
            host_rooms: AddressMap::new(),
            relay_clients: AddressMap::new(),
            live: Vec::new(),
            rng: nanorand::WyRand::new(),
        };
        assert(r.rooms() =~= Map::<u32, RoomView>::empty());
        assert(r.live() =~= Set::<Address>::empty());
        r
    }
    /// Whether the connection from `a` is open.
    pub fn is_live(&self, a: Address) -> (r: bool)
        ensures
            r == self.live().contains(a),
    {
        let mut i: usize = 0;
        while i < self.live.len()
            invariant
                i <= self.live@.len(),
                forall|j: int| 0 <= j < i ==> self.live@[j] != a,
            decreases self.live@.len() - i,
        {
            if self.live[i] == a {
                assert(self.live@.contains(a));
                return true;
            }
            i += 1;
        }
        false
    }

    /// Records that a connection from `a` was opened.
    pub fn connect(&mut self, a: Address)
        requires
            old(self).wf(),
        ensures
            final(self).wf(),
            final(self).live() == old(self).live().insert(a),
            final(self).rooms() == old(self).rooms(),
            final(self).host_rooms() == old(self).host_rooms(),
            final(self).relay_clients() == old(self).relay_clients(),
    {
        if !self.is_live(a) {
            self.live.push(a);
            assert(self.live@[self.live@.len() - 1] == a);
        }
        assert(self.live() =~= old(self).live().insert(a)) by {
            assert forall|b: Address| #[trigger] old(self).live@.contains(b) implies self.live@.contains(b) by {
                let j = choose|j: int| 0 <= j < old(self).live@.len() && old(self).live@[j] == b;
                assert(self.live@[j] == b);
            }
        }
    }

    /// Records that the connection from `a` closed. Its memberships are left in place, and
    /// skipped from now on.
    pub fn close(&mut self, a: Address)
        requires
            old(self).wf(),
        ensures
            final(self).wf(),
            final(self).live() == old(self).live().remove(a),
            final(self).rooms() == old(self).rooms(),
            final(self).host_rooms() == old(self).host_rooms(),
            final(self).relay_clients() == old(self).relay_clients(),
    {
        let mut kept: Vec<Address> = Vec::new();
        let mut i: usize = 0;
        while i < self.live.len()
            invariant
                i <= self.live@.len(),
                forall|b: Address| #[trigger]
                    kept@.contains(b) <==> (b != a && self.live@.subrange(0, i as int).contains(b)),
            decreases self.live@.len() - i,
        {
            let b = self.live[i];
            assert(self.live@.subrange(0, i + 1) =~= self.live@.subrange(0, i as int).push(b));
            if b != a {
                kept.push(b);
            }
            i += 1;
        }
        assert(self.live@.subrange(0, self.live@.len() as int) =~= self.live@);
        self.live = kept;
        assert(self.live() =~= old(self).live().remove(a));
    }

    /// Draws up to `ROOM_ID_ATTEMPTS` random IDs and returns the first that no room holds.
    ///
    /// When every ID is taken, the search ends with `None` after its fixed number of draws.
    pub fn find_free_room_id(&mut self) -> (r: Option<u32>)
        requires
            old(self).wf(),
        ensures
            final(self).wf(),
            final(self).same_registry(old(self)),
            r matches Some(id) ==> id <= MAX_ROOM_ID && !old(self).rooms().contains_key(id),
            (forall|id: u32| id <= MAX_ROOM_ID ==> #[trigger] old(self).rooms().contains_key(id))
                ==> r is None,
            old(self).rooms() == Map::<u32, RoomView>::empty() ==> r is Some,
    {
        let mut attempt: usize = 0;
        while attempt < ROOM_ID_ATTEMPTS
            invariant
                attempt <= ROOM_ID_ATTEMPTS,
                attempt > 0 ==> exists|k: u32| #[trigger] self.rooms@.contains_key(k),
                self.wf(),
                self.same_registry(old(self)),
                self.rooms@ == old(self).rooms@,
            decreases ROOM_ID_ATTEMPTS - attempt,
        {
            let id = draw_room_id(&mut self.rng, MAX_ROOM_ID);
            if !self.rooms.contains_key(&id) {
                assert(!old(self).rooms().contains_key(id));
                return Some(id);
            }
            assert(self.rooms().contains_key(id));
            attempt += 1;
        }
        proof {
            let k = choose|k: u32| #[trigger] self.rooms@.contains_key(k);
            assert(old(self).rooms().contains_key(k));
            assert(!Map::<u32, RoomView>::empty().contains_key(k));
        }
        None
    }

    /// Hosts a new room for `host` under `id`, or reports that no free ID was found (`None`).
    ///
    /// A host holds one room at a time: a room it hosted before is closed.
    pub fn host_room(&mut self, host: Address, id: Option<u32>) -> (r: Vec<Outgoing>)
        requires
            old(self).wf(),
            id matches Some(i) ==> i <= MAX_ROOM_ID && !old(self).rooms().contains_key(i),
        ensures
            final(self).wf(),
            id matches Some(i) ==> final(self).hosted(old(self), host, i) && sent(r@) == seq![
                (host, PacketView::RoomId(i)),
            ],
            id is None ==> final(self).same_registry(old(self)) && sent(r@) == seq![
                (host, PacketView::Error(no_free_rooms_message())),
            ],
    {
        let mut out: Vec<Outgoing> = Vec::new();
        match id {
            None => {
                let message = "Could not find any more free rooms. Try again".to_owned();
                out.push(Outgoing { to: host, packet: Packet::Error(message) });
            },
            Some(i) => {
                if let Some(previous) = self.host_rooms.get(host) {
                    self.rooms.remove(&previous);
                }
                let ghost mid_rooms = self.rooms@;
                let room = Room { id: i, host, clients: Vec::new() };
                self.rooms.insert(i, room);
                self.host_rooms.insert(host, i);
                assert(self.rooms() =~= old(self).rooms_without_host(host).insert(
                    i,
                    RoomView { id: i, host, clients: Seq::empty() },
                ));
                assert forall|a: Address| #[trigger]
                    self.host_rooms@.contains_key(a) implies self.rooms@.contains_key(
                    self.host_rooms@[a],
                ) && self.rooms@[self.host_rooms@[a]].host == a by {
                    if a != host {
                        let j = old(self).host_rooms@[a];
                        assert(old(self).rooms@.contains_key(j));
                        assert(j != i);
                        assert(old(self).rooms@[j].host == a);
                        if old(self).host_rooms@.contains_key(host) {
                            assert(old(self).host_rooms@[host] != j);
                        }
                    }
                }
                assert forall|j: u32| #[trigger] self.rooms@.contains_key(j) implies {
                    let room = self.rooms@[j];
                    &&& room.id == j
                    &&& j <= MAX_ROOM_ID
                    &&& self.host_rooms@.contains_key(room.host)
                    &&& self.host_rooms@[room.host] == j
                } by {
                    if j != i {
                        assert(old(self).rooms@.contains_key(j));
                        let h = old(self).rooms@[j].host;
                        assert(old(self).host_rooms@[h] == j);
                        if h == host {
                            assert(!mid_rooms.contains_key(j));
                        }
                    }
                }
                out.push(Outgoing { to: host, packet: Packet::RoomId(i) });
            },
        }
        proof {
            reveal_strlit("Could not find any more free rooms. Try again");
        }
        assert(sent(out@) =~= seq![(host, out@[0].packet@)]);
        out
    }

    /// Handles `Host`: hosts a room under a free random ID, or reports that none was found.
    pub fn host(&mut self, host: Address) -> (r: Vec<Outgoing>)
        requires
            old(self).wf(),
        ensures
            final(self).wf(),
            final(self).host_done(old(self), host, sent(r@)),
    {
        let id = self.find_free_room_id();
        let r = self.host_room(host, id);
        proof {
            if let Some(i) = id {
                assert(final(self).hosted(old(self), host, i));
            }
        }
        r
    }

    /// The host of room `id`, if that room exists.
    pub fn lookup_room(&self, id: u32) -> (r: Option<Address>)
        ensures
            r == (if self.rooms().contains_key(id) {
                Some(self.rooms()[id].host)
            } else {
                None::<Address>
            }),
    {
        match self.rooms.get(&id) {
            Some(room) => Some(room.host),
            None => None,
        }
    }

    /// Handles `GetHost(id)` from `client`: the host learns the client's address and the client
    /// learns the host's, or the client learns that no such room exists.
    pub fn join(&self, client: Address, id: u32) -> (r: Vec<Outgoing>)
        ensures
            sent(r@) == self.join_reply(client, id),
    {
        let mut out: Vec<Outgoing> = Vec::new();
        match self.lookup_room(id) {
            None => {
                let message =
                    "No room found with the given ID. Check whether you spelled the ID correctly".to_owned();
                out.push(Outgoing { to: client, packet: Packet::Error(message) });
                proof {
                    reveal_strlit(
                        "No room found with the given ID. Check whether you spelled the ID correctly",
                    );
                }
                assert(sent(out@) =~= seq![(client, PacketView::Error(no_room_message()))]);
            },
            Some(host) => {
                out.push(Outgoing { to: host, packet: Packet::ClientAddress(client) });
                out.push(Outgoing { to: client, packet: Packet::HostAddress(host) });
                assert(sent(out@) =~= seq![
                    (host, PacketView::ClientAddress(client)),
                    (client, PacketView::HostAddress(host)),
                ]);
            },
        }
        out
    }
    /// Handles `RequestRelay(host_addr)` from `client`: registers it as a relay client of the
    /// room hosted at `host_addr` (its own room when `None`), and acknowledges with an empty
    /// `Relayed` packet.
    pub fn request_relay(&mut self, client: Address, host_addr: Option<Address>) -> (r: Vec<
        Outgoing,
    >)
        requires
            old(self).wf(),
        ensures
            final(self).wf(),
            final(self).relay_registered(old(self), client, host_addr, sent(r@)),
    {
        let mut out: Vec<Outgoing> = Vec::new();
        let h = match host_addr {
            Some(h) => h,
            None => client,
        };
        match self.host_rooms.get(h) {
            None => {
                let message = "The host seems to have disconnected".to_owned();
                out.push(Outgoing { to: client, packet: Packet::Error(message) });
                proof {
                    reveal_strlit("The host seems to have disconnected");
                }
                assert(sent(out@) =~= seq![(client, PacketView::Error(host_gone_message()))]);
            },
            Some(id) => {
                let ghost left = old(self).rooms_without_client(client);
                if let Some(previous) = self.relay_clients.get(client) {
                    if let Some(room) = self.rooms.remove(&previous) {
                        let clients = without_member(&room.clients, client);
                        self.rooms.insert(previous, Room { id: room.id, host: room.host, clients });
                    }
                }
                assert(self.rooms() =~= left);
                let ghost mid = self.rooms@;
                self.relay_clients.insert(client, id);
                match self.rooms.remove(&id) {
                    Some(room) => {
                        let mut room = room;
                        room.clients.push(client);
                        self.rooms.insert(id, room);
                    },
                    None => {},
                }
                let ghost room_view = left[id];
                assert(self.rooms() =~= left.insert(
                    id,
                    RoomView {
                        id: room_view.id,
                        host: room_view.host,
                        clients: room_view.clients.push(client),
                    },
                ));
                assert forall|j: u32, c: Address|
                    #![trigger self.rooms@[j].clients@.contains(c)]
                    self.rooms@.contains_key(j) && self.rooms@[j].clients@.contains(c) implies {
                    &&& self.relay_clients@.contains_key(c)
                    &&& self.relay_clients@[c] == j
                } by {
                    let had = old(self).relay_clients@.contains_key(client);
                    let prev = old(self).relay_clients@[client];
                    if c != client {
                        // c was a member of room j before
                        let in_mid = mid[j].clients@.contains(c);
                        if j == id {
                            assert(self.rooms@[j].clients@ == mid[j].clients@.push(client));
                        }
                        assert(in_mid);
                        if had && j == prev && old(self).rooms@.contains_key(prev) {
                            lemma_filter_member(old(self).rooms@[j].clients@, is_other(client), c);
                        }
                        assert(old(self).rooms@[j].clients@.contains(c));
                    } else if j != id {
                        assert(self.rooms@[j] == mid[j]);
                        if had && j == prev && old(self).rooms@.contains_key(prev) {
                            lemma_filter_member(old(self).rooms@[j].clients@, is_other(client), c);
                        } else {
                            assert(mid[j] == old(self).rooms@[j]);
                            assert(old(self).rooms@[j].clients@.contains(client));
                        }
                    }
                }
                out.push(Outgoing { to: client, packet: Packet::Relayed(client, Vec::new()) });
                assert(sent(out@) =~= seq![(client, PacketView::Relayed(client, Seq::empty()))]);
            },
        }
        out
    }

    /// Handles `Relay(to, data)` from `from`.
    pub fn relay(&mut self, from: Address, to: Option<Address>, data: &Vec<u8>) -> (r: Vec<
        Outgoing,
    >)
        requires
            old(self).wf(),
        ensures
            final(self).wf(),
            final(self).relayed(old(self), from, to, data@, sent(r@)),
    {
        let mut out: Vec<Outgoing> = Vec::new();
        let id = match self.relay_clients.get(from) {
            Some(id) => id,
            None => {
                let message = "Only relay clients may send Relay packets".to_owned();
                out.push(Outgoing { to: from, packet: Packet::Error(message) });
                proof {
                    reveal_strlit("Only relay clients may send Relay packets");
                }
                assert(sent(out@) =~= seq![
                    (from, PacketView::Error(not_relay_client_message())),
                ]);
                return out;
            },
        };
        let room = match self.rooms.remove(&id) {
            Some(room) => room,
            None => {
                assert(self.rooms() =~= old(self).rooms());
                let message = "The host seems to have disconnected".to_owned();
                out.push(Outgoing { to: from, packet: Packet::Error(message) });
                proof {
                    reveal_strlit("The host seems to have disconnected");
                }
                assert(sent(out@) =~= seq![(from, PacketView::Error(host_gone_message()))]);
                return out;
            },
        };
        let ghost live = old(self).live();
        let ghost clients = room.clients@;
        let ghost payload = PacketView::Relayed(from, data@);
        let mut kept: Vec<Address> = Vec::new();
        let mut i: usize = 0;
        while i < room.clients.len()
            invariant
                i <= clients.len(),
                clients == room.clients@,
                payload == PacketView::Relayed(from, data@),
                self.live() == live,
                kept@ == clients.subrange(0, i as int).filter(is_live_in(live)),
                sent(out@) == to_each(
                    clients.subrange(0, i as int).filter(is_recipient(live, from, to)),
                    payload,
                ),
            decreases clients.len() - i,
        {
            let c = room.clients[i];
            let ghost before = clients.subrange(0, i as int);
            proof {
                lemma_filter_step(clients, i as int, is_live_in(live));
                lemma_filter_step(clients, i as int, is_recipient(live, from, to));
                lemma_to_each_push(before.filter(is_recipient(live, from, to)), c, payload);
            }
            if self.is_live(c) {
                kept.push(c);
                let targeted = match to {
                    None => true,
                    Some(t) => t == c,
                };
                if c != from && targeted {
                    let o = Outgoing { to: c, packet: Packet::Relayed(from, copy_bytes(data)) };
                    assert(o.packet@ == payload);
                    proof {
                        lemma_sent_push(out@, o);
                    }
                    out.push(o);
                }
            }
            i += 1;
        }
        assert(clients.subrange(0, clients.len() as int) =~= clients);
        let ghost old_room = old(self).rooms()[id];
        let pruned = Room { id: room.id, host: room.host, clients: kept };
        self.rooms.insert(id, pruned);
        assert forall|j: u32, c: Address|
            #![trigger self.rooms@[j].clients@.contains(c)]
            self.rooms@.contains_key(j) && self.rooms@[j].clients@.contains(c) implies {
            &&& self.relay_clients@.contains_key(c)
            &&& self.relay_clients@[c] == j
        } by {
            if j == id {
                lemma_filter_member(clients, is_live_in(live), c);
                assert(old(self).rooms@[j].clients@.contains(c));
            } else {
                assert(old(self).rooms@[j] == self.rooms@[j]);
            }
        }
        assert(self.rooms() =~= old(self).rooms().insert(
            id,
            RoomView { id: old_room.id, host: old_room.host, clients: old_room.clients.filter(is_live_in(live)) },
        ));
        out
    }

    /// Handles the goodbye of the peer at `peer`: closes the room it hosted, unregisters it as a
    /// relay client, and tells the other connected members of its room that it left.
    pub fn disconnect(&mut self, peer: Address) -> (r: Vec<Outgoing>)
        requires
            old(self).wf(),
        ensures
            final(self).wf(),
            final(self).disconnected(old(self), peer, sent(r@)),
    {
        let mut out: Vec<Outgoing> = Vec::new();
        if let Some(id) = self.host_rooms.remove(peer) {
            self.rooms.remove(&id);
        }
        assert(self.rooms() =~= old(self).rooms_without_host(peer));
        assert forall|a: Address| #[trigger]
            self.host_rooms@.contains_key(a) implies self.rooms@.contains_key(self.host_rooms@[a])
            && self.rooms@[self.host_rooms@[a]].host == a by {
            let j = old(self).host_rooms@[a];
            if old(self).host_rooms@.contains_key(peer) {
                assert(old(self).rooms@[j].host == a);
            }
        }
        let ghost rooms = self.rooms();
        let ghost live = self.live();
        if let Some(id) = self.relay_clients.remove(peer) {
            if let Some(room) = self.rooms.get(&id) {
                let ghost clients = room.clients@;
                let ghost payload = PacketView::Disconnected(peer);
                let mut i: usize = 0;
                while i < room.clients.len()
                    invariant
                        i <= clients.len(),
                        clients == room.clients@,
                        payload == PacketView::Disconnected(peer),
                        self.live() == live,
                        sent(out@) == to_each(
                            clients.subrange(0, i as int).filter(is_notified(live, peer)),
                            payload,
                        ),
                    decreases clients.len() - i,
                {
                    let c = room.clients[i];
                    let ghost before = clients.subrange(0, i as int);
                    proof {
                        lemma_filter_step(clients, i as int, is_notified(live, peer));
                        lemma_to_each_push(before.filter(is_notified(live, peer)), c, payload);
                    }
                    if c != peer && self.is_live(c) {
                        let o = Outgoing { to: c, packet: Packet::Disconnected(peer) };
                        assert(o.packet@ == payload);
                        proof {
                            lemma_sent_push(out@, o);
                        }
                        out.push(o);
                    }
                    i += 1;
                }
                assert(clients.subrange(0, clients.len() as int) =~= clients);
            } else {
                assert(sent(out@) =~= Seq::empty());
            }
            let ghost before = self.rooms@;
            if let Some(room) = self.rooms.remove(&id) {
                let remaining = without_member(&room.clients, peer);
                self.rooms.insert(id, Room { id: room.id, host: room.host, clients: remaining });
            }
            assert(self.rooms() =~= drop_member(rooms, id, peer));
            assert forall|j: u32, c: Address|
                #![trigger self.rooms@[j].clients@.contains(c)]
                self.rooms@.contains_key(j) && self.rooms@[j].clients@.contains(c) implies {
                &&& self.relay_clients@.contains_key(c)
                &&& self.relay_clients@[c] == j
            } by {
                if j == id {
                    lemma_filter_member(before[j].clients@, is_other(peer), c);
                }
                assert(before[j].clients@.contains(c));
                assert(old(self).rooms@[j] == before[j]);
            }
        } else {
            assert(sent(out@) =~= Seq::empty());
            assert forall|j: u32, c: Address|
                #![trigger self.rooms@[j].clients@.contains(c)]
                self.rooms@.contains_key(j) && self.rooms@[j].clients@.contains(c) implies {
                &&& self.relay_clients@.contains_key(c)
                &&& self.relay_clients@[c] == j
            } by {
                assert(old(self).rooms@[j] == self.rooms@[j]);
            }
        }
        out
    }

    /// Handles one packet from the client at `from`, returning the packets to send.
    ///
    /// A packet that only the matchmaker sends is a protocol violation: the connection is to be
    /// closed, and nothing changes.
    pub fn handle(&mut self, from: Address, packet: Packet) -> (r: Result<Vec<Outgoing>, InvalidPacket>)
        requires
            old(self).wf(),
        ensures
            final(self).wf(),
            match packet@ {
                PacketView::Host => r matches Ok(v) && final(self).host_done(old(self), from, sent(v@)),
                PacketView::GetHost(id) => r matches Ok(v) && final(self).same_registry(old(self))
                    && sent(v@) == old(self).join_reply(from, id),
                PacketView::RequestRelay(h) => r matches Ok(v) && final(self).relay_registered(
                    old(self),
                    from,
                    h,
                    sent(v@),
                ),
                PacketView::Relay(to, d) => r matches Ok(v) && final(self).relayed(
                    old(self),
                    from,
                    to,
                    d,
                    sent(v@),
                ),
                _ => r == Err::<Vec<Outgoing>, InvalidPacket>(InvalidPacket)
                    && final(self).same_registry(old(self)),
            },
    {
        match packet {
            Packet::Host => Ok(self.host(from)),
            Packet::GetHost(id) => Ok(self.join(from, id)),
            Packet::RequestRelay(h) => Ok(self.request_relay(from, h)),
            Packet::Relay(to, data) => Ok(self.relay(from, to, &data)),
            _ => Err(InvalidPacket),
        }
    }
}

// ---------------------------------------------------------------------------------------------
// Properties of the registry

/// A successful `Host` takes an ID that no live room holds, and every other room keeps its ID:
/// no two live rooms ever share an ID. For a host that held no room, the new room is the only
/// change; a host that held one gives it up.
pub proof fn lemma_host_id_unique(
    old: &Matchmaker,
    new: &Matchmaker,
    host: Address,
    out: Seq<(Address, PacketView)>,
    id: u32,
)
    requires
        old.wf(),
        new.host_done(old, host, out),
        out == seq![(host, PacketView::RoomId(id))],
    ensures
        !old.rooms().contains_key(id),
        new.rooms().contains_key(id),
        new.rooms()[id].host == host,
        forall|other: u32| #[trigger]
            new.rooms().contains_key(other) && other != id ==> old.rooms().contains_key(other)
                && new.rooms()[other] == old.rooms()[other],
        !old.host_rooms().contains_key(host) ==> new.rooms() == old.rooms().insert(
            id,
            RoomView { id, host, clients: Seq::empty() },
        ),
{
    let i = choose|i: u32|
        i <= MAX_ROOM_ID && !old.rooms().contains_key(i) && new.hosted(old, host, i) && out
            == seq![(host, PacketView::RoomId(i))];
    assert(out[0] == (host, PacketView::RoomId(i)));
    assert(i == id);
}

/// Every room is stored under its own ID, and every ID lies in `0..=MAX_ROOM_ID`.
pub proof fn lemma_room_ids_in_range(m: &Matchmaker)
    requires
        m.wf(),
    ensures
        forall|id: u32| #[trigger] m.rooms().contains_key(id) ==> id <= MAX_ROOM_ID && m.rooms()[id].id == id,
{
}

/// When all `MAX_ROOM_ID + 1` IDs are taken, `Host` fails with the no-free-room error and
/// changes nothing.
pub proof fn lemma_host_when_full(
    old: &Matchmaker,
    new: &Matchmaker,
    host: Address,
    out: Seq<(Address, PacketView)>,
)
    requires
        new.host_done(old, host, out),
        forall|id: u32| id <= MAX_ROOM_ID ==> #[trigger] old.rooms().contains_key(id),
    ensures
        new.same_registry(old),
        out == seq![(host, PacketView::Error(no_free_rooms_message()))],
{
}

/// `GetHost(id)` for a hosted room sends the client's address to the host and the host's
/// address to the client, once each and nothing else.
pub proof fn lemma_join_reaches_both(m: &Matchmaker, client: Address, id: u32)
    requires
        m.rooms().contains_key(id),
    ensures
        ({
            let h = m.rooms()[id].host;
            let out = m.join_reply(client, id);
            &&& out.len() == 2
            &&& out[0] == (h, PacketView::ClientAddress(client))
            &&& out[1] == (client, PacketView::HostAddress(h))
        }),
{
}

/// A relayed payload never goes back to its sender, and it reaches every other connected
/// member of the room when no target is given.
pub proof fn lemma_relay_excludes_sender(
    old: &Matchmaker,
    new: &Matchmaker,
    from: Address,
    data: Seq<u8>,
    out: Seq<(Address, PacketView)>,
)
    requires
        new.relayed(old, from, None, data, out),
        old.relay_clients().contains_key(from),
        old.rooms().contains_key(old.relay_clients()[from]),
    ensures
        forall|j: int| 0 <= j < out.len() ==> (#[trigger] out[j]).0 != from && out[j].1
            == PacketView::Relayed(from, data),
        forall|j: int|
            0 <= j < out.len() ==> old.rooms()[old.relay_clients()[from]].clients.contains(
                (#[trigger] out[j]).0,
            ) && old.live().contains(out[j].0),
        forall|c: Address|
            old.rooms()[old.relay_clients()[from]].clients.contains(c) && old.live().contains(c)
                && c != from ==> exists|j: int| 0 <= j < out.len() && (#[trigger] out[j]).0 == c,
{
    let clients = old.rooms()[old.relay_clients()[from]].clients;
    let f = clients.filter(is_recipient(old.live(), from, None));
    reveal(Seq::filter);
    f.filter_lemma(is_recipient(old.live(), from, None));
    clients.filter_lemma(is_recipient(old.live(), from, None));
    assert forall|j: int| 0 <= j < out.len() implies clients.contains((#[trigger] out[j]).0)
        && old.live().contains(out[j].0) by {
        assert(f[j] == out[j].0);
        assert(f.contains(f[j]));
        clients.lemma_filter_contains_rev(is_recipient(old.live(), from, None), f[j]);
    }
    assert forall|c: Address|
        clients.contains(c) && old.live().contains(c) && c != from implies exists|j: int|
        0 <= j < out.len() && (#[trigger] out[j]).0 == c by {
        let k = choose|k: int| 0 <= k < clients.len() && clients[k] == c;
        assert(is_recipient(old.live(), from, None)(clients[k]));
        assert(f.contains(c));
        let j = choose|j: int| 0 <= j < f.len() && f[j] == c;
        assert(out[j].0 == c);
    }
}

/// A payload relayed to a target reaches only that target.
pub proof fn lemma_relay_targeted(
    old: &Matchmaker,
    new: &Matchmaker,
    from: Address,
    target: Address,
    data: Seq<u8>,
    out: Seq<(Address, PacketView)>,
)
    requires
        new.relayed(old, from, Some(target), data, out),
        old.relay_clients().contains_key(from),
        old.rooms().contains_key(old.relay_clients()[from]),
    ensures
        forall|j: int| 0 <= j < out.len() ==> (#[trigger] out[j]).0 == target,
{
    let clients = old.rooms()[old.relay_clients()[from]].clients;
    clients.filter_lemma(is_recipient(old.live(), from, Some(target)));
}

/// Once the host of room `id` is gone, the room is gone and `GetHost(id)` gets the no-room
/// error.
pub proof fn lemma_disconnect_closes_room(
    old: &Matchmaker,
    new: &Matchmaker,
    host: Address,
    out: Seq<(Address, PacketView)>,
    id: u32,
    client: Address,
)
    requires
        old.wf(),
        new.disconnected(old, host, out),
        old.rooms().contains_key(id),
        old.rooms()[id].host == host,
    ensures
        !new.rooms().contains_key(id),
        new.join_reply(client, id) == seq![(client, PacketView::Error(no_room_message()))],
{
}

/// A member whose connection closed is neither sent the next relayed payload nor kept in the
/// room, and the relay still succeeds for the sender.
pub proof fn lemma_relay_prunes_closed(
    old: &Matchmaker,
    new: &Matchmaker,
    from: Address,
    to: Option<Address>,
    data: Seq<u8>,
    out: Seq<(Address, PacketView)>,
    gone: Address,
)
    requires
        new.relayed(old, from, to, data, out),
        old.relay_clients().contains_key(from),
        old.rooms().contains_key(old.relay_clients()[from]),
        !old.live().contains(gone),
    ensures
        forall|j: int| 0 <= j < out.len() ==> (#[trigger] out[j]).0 != gone && out[j].1
            == PacketView::Relayed(from, data),
        !new.rooms()[old.relay_clients()[from]].clients.contains(gone),
{
    let id = old.relay_clients()[from];
    let clients = old.rooms()[id].clients;
    clients.filter_lemma(is_recipient(old.live(), from, to));
    clients.filter_lemma(is_live_in(old.live()));
    let kept = clients.filter(is_live_in(old.live()));
    if kept.contains(gone) {
        let j = choose|j: int| 0 <= j < kept.len() && kept[j] == gone;
        assert(is_live_in(old.live())(kept[j]));
    }
}

proof fn lemma_sent_push(s: Seq<Outgoing>, o: Outgoing)
    ensures
        sent(s.push(o)) == sent(s).push((o.to, o.packet@)),
{
    assert(sent(s.push(o)) =~= sent(s).push((o.to, o.packet@)));
}

proof fn lemma_filter_step(s: Seq<Address>, i: int, p: spec_fn(Address) -> bool)
    requires
        0 <= i < s.len(),
    ensures
        s.subrange(0, i + 1).filter(p) == if p(s[i]) {
            s.subrange(0, i).filter(p).push(s[i])
        } else {
            s.subrange(0, i).filter(p)
        },
{
    reveal(Seq::filter);
    assert(s.subrange(0, i + 1).drop_last() =~= s.subrange(0, i));
}

proof fn lemma_to_each_push(s: Seq<Address>, c: Address, p: PacketView)
    ensures
        to_each(s.push(c), p) == to_each(s, p).push((c, p)),
{
    assert(to_each(s.push(c), p) =~= to_each(s, p).push((c, p)));
}

proof fn lemma_filter_member(s: Seq<Address>, p: spec_fn(Address) -> bool, x: Address)
    ensures
        s.filter(p).contains(x) <==> s.contains(x) && p(x),
{
    s.filter_lemma(p);
    if s.filter(p).contains(x) {
        s.lemma_filter_contains_rev(p, x);
        let j = choose|j: int| 0 <= j < s.filter(p).len() && s.filter(p)[j] == x;
        assert(p(s.filter(p)[j]));
    }
    if s.contains(x) && p(x) {
        let j = choose|j: int| 0 <= j < s.len() && s[j] == x;
        assert(s.filter(p).contains(s[j]));
    }
}

/// The addresses of `clients` other than `c`, in order.
fn without_member(clients: &Vec<Address>, c: Address) -> (r: Vec<Address>)
    ensures
        r@ == clients@.filter(is_other(c)),
{
    let mut r: Vec<Address> = Vec::new();
    let mut i: usize = 0;
    while i < clients.len()
        invariant
            i <= clients@.len(),
            r@ == clients@.subrange(0, i as int).filter(is_other(c)),
        decreases clients@.len() - i,
    {
        proof {
            lemma_filter_step(clients@, i as int, is_other(c));
        }
        if clients[i] != c {
            r.push(clients[i]);
        }
        i += 1;
    }
    assert(clients@.subrange(0, clients@.len() as int) =~= clients@);
    r
}

fn copy_bytes(d: &Vec<u8>) -> (r: Vec<u8>)
    ensures
        r@ == d@,
{
    let mut r: Vec<u8> = Vec::with_capacity(d.len());
    let mut i: usize = 0;
    while i < d.len()
        invariant
            i <= d@.len(),
            r@ == d@.subrange(0, i as int),
        decreases d@.len() - i,
    {
        r.push(d[i]);
        i += 1;
        assert(r@ =~= d@.subrange(0, i as int));
    }
    assert(d@.subrange(0, i as int) =~= d@);
    r
}

} // verus!
