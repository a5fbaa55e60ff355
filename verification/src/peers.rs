//! Numbers for the addresses that packets come from.

use vstd::prelude::*;
use crate::packet::Packet;
#[allow(unused_imports)]
use crate::packet::PacketView;

verus! {

/// The address that a packet comes from.
#[derive(Debug, Clone, Copy, PartialEq, Eq, Structural)]
pub struct Peer {
    /// Whether the address is one of version 6.
    pub v6: bool,
    /// The address as a number.
    pub ip: u128,
    /// The port.
    pub port: u16,
    /// The flow information of a version 6 address.
    pub flow: u32,
    /// The scope of a version 6 address.
    pub scope: u32,
}

/// The addresses that have a number. The number of an address is its place.
#[derive(Debug)]
pub struct AddressBook {
    pub peers: Vec<Peer>,
}

/// The number under which a packet from an address is taken, and the book
/// before and after: who joins has a number from then on, and a packet from
/// anybody else without a number has none.
pub open spec fn is_sender(
    before: Seq<Peer>,
    after: Seq<Peer>,
    peer: Peer,
    packet: PacketView,
    id: Option<u64>,
) -> bool {
    &&& after == if packet is Join && !before.contains(peer) {
        before.push(peer)
    } else {
        before
    }
    &&& match id {
        Some(i) => i < after.len() && after[i as int] == peer,
        None => !(packet is Join) && !before.contains(peer),
    }
}

impl AddressBook {
    /// No address stands in the book twice.
    pub open spec fn wf(&self) -> bool {
        self.peers@.no_duplicates()
    }

    /// A book without addresses.
    pub fn new() -> (book: AddressBook)
        ensures
            book.wf(),
            book.peers@ == Seq::<Peer>::empty(),
    {
        AddressBook { peers: Vec::new() }
    }

    /// The number of an address, if it has one.
    pub fn find(&self, peer: Peer) -> (id: Option<u64>)
        ensures
            match id {
                Some(i) => i < self.peers@.len() && self.peers@[i as int] == peer,
                None => !self.peers@.contains(peer),
            },
    {
        let n: usize = self.peers.len();
        for i in 0..n
            invariant
                n == self.peers@.len(),
                forall|j: int| 0 <= j < i ==> self.peers@[j] != peer,
        {
            if self.peers[i] == peer {
                return Some(i as u64);
            }
        }
        None
    }

    /// The number of an address, which gets one if it has none yet.
    pub fn id_of(&mut self, peer: Peer) -> (id: u64)
        requires
            old(self).wf(),
        ensures
            final(self).wf(),
            final(self).peers@ == if old(self).peers@.contains(peer) {
                old(self).peers@
            } else {
                old(self).peers@.push(peer)
            },
            id < final(self).peers@.len(),
            final(self).peers@[id as int] == peer,
    {
        match self.find(peer) {
            Some(id) => id,
            None => {
                let id: usize = self.peers.len();
                self.peers.push(peer);
                id as u64
            },
        }
    }

    /// The number under which the server takes a packet. Who joins gets one;
    /// a packet from anybody else without a number is for nobody.
    pub fn sender_id(&mut self, peer: Peer, packet: &Packet) -> (id: Option<u64>)
        requires
            old(self).wf(),
        ensures
            final(self).wf(),
            is_sender(old(self).peers@, final(self).peers@, peer, packet@, id),
    {
        match packet {
            Packet::Join(_) => Some(self.id_of(peer)),
            _ => self.find(peer),
        }
    }

    /// The address with a number.
    pub fn peer_of(&self, id: u64) -> (peer: Option<Peer>)
        ensures
            peer == if id < self.peers@.len() {
                Some(self.peers@[id as int])
            } else {
                None
            },
    {
        let n: usize = self.peers.len();
        if id < n as u64 {
            Some(self.peers[id as usize])
        } else {
            None
        }
    }
}

/// Two entries of the book with the same address have the same number: a
/// number stands for one address, and an address for one number.
pub proof fn law_ids_tell_peers_apart(book: AddressBook, i: u64, j: u64)
    requires
        book.wf(),
        i < book.peers@.len(),
        j < book.peers@.len(),
    ensures
        i == j <==> book.peers@[i as int] == book.peers@[j as int],
{
}

/// A packet from an address in the book is taken under the number of that
/// address, whatever it is. From another address only a request to join is
/// taken, under the next number. Every number stays with its address.
pub proof fn law_numbers_stay(
    before: Seq<Peer>,
    after: Seq<Peer>,
    peer: Peer,
    packet: PacketView,
    id: Option<u64>,
)
    requires
        before.no_duplicates(),
        is_sender(before, after, peer, packet, id),
    ensures
        after.no_duplicates(),
        after.len() >= before.len(),
        forall|i: int| 0 <= i < before.len() ==> #[trigger] after[i] == before[i],
        forall|i: int|
            0 <= i < before.len() && #[trigger] before[i] == peer ==> id == Some(i as u64)
                && after.len() == before.len(),
        (forall|i: int| 0 <= i < before.len() ==> #[trigger] before[i] != peer) ==> {
            if packet is Join {
                &&& id is Some
                &&& id.unwrap() == before.len()
                &&& after.len() == before.len() + 1
                &&& after[before.len() as int] == peer
            } else {
                &&& id is None
                &&& after.len() == before.len()
            }
        },
{
    assert forall|i: int| 0 <= i < before.len() && #[trigger] before[i] == peer implies id == Some(
        i as u64,
    ) && after.len() == before.len() by {
        assert(before.contains(peer));
        let at = id.unwrap() as int;
        assert(after[at] == before[i]);
        assert(at == i);
    }
    if forall|i: int| 0 <= i < before.len() ==> #[trigger] before[i] != peer {
        assert(!before.contains(peer));
        if let Some(at) = id {
            if at < before.len() {
                assert(before[at as int] == peer);
            }
        }
    }
}

} // verus!
