//! What the client and the server say to each other.

use vstd::prelude::*;
use vstd::slice::slice_subrange;
#[allow(unused_imports)]
use vstd::utf8::{decode_utf8, encode_utf8_decode_utf8, valid_utf8};
#[allow(unused_imports)]
use vstd::string::StringSliceAdditionalSpecFns;
#[allow(unused_imports)]
use crate::grid::grid;

verus! {

/// What came of a request to join.
#[derive(Debug, Clone, Copy, PartialEq, Eq, Structural)]
pub enum NetResult {
    NameTooLong,
    NameInUse,
    NameEmpty,
    NotJoined,
    FailedToJoin,
    Joined,
}

/// A packet.
#[derive(Debug)]
pub enum Packet {
    /// A client wants to join under this name.
    Join(String),
    /// A client asks for a direction.
    Move(char),
    /// A client votes.
    Vote(char),
    /// The server answers a request.
    Reply(NetResult),
    /// The server shows the world.
    State(Vec<Vec<char>>),
}

/// A packet as mathematics sees it.
pub enum PacketView {
    Join(Seq<char>),
    Move(char),
    Vote(char),
    Reply(NetResult),
    State(Seq<Seq<char>>),
}

impl View for Packet {
    type V = PacketView;

    open spec fn view(&self) -> PacketView {
        match self {
            Packet::Join(name) => PacketView::Join(name@),
            Packet::Move(dir) => PacketView::Move(*dir),
            Packet::Vote(c) => PacketView::Vote(*c),
            Packet::Reply(r) => PacketView::Reply(*r),
            Packet::State(v) => PacketView::State(grid(v@)),
        }
    }
}

/// The packet that shows the world to the players.
pub fn state_packet(v: &Vec<Vec<char>>) -> (packet: Packet)
    ensures
        packet@ == PacketView::State(grid(v@)),
{
    let mut rows: Vec<Vec<char>> = Vec::new();
    for y in 0..v.len()
        invariant
            rows@.len() == y,
            forall|i: int| 0 <= i < y ==> (#[trigger] rows@[i])@ == v@[i]@,
    {
        let row: Vec<char> = v[y].clone();
        assert(row@ =~= v@[y as int]@);
        rows.push(row);
    }
    assert(grid(rows@) =~= grid(v@));
    Packet::State(rows)
}

/// What the client does with a byte from the keyboard: the packet that it
/// sends, and whether it quits after that. The byte is taken as the character
/// with that code point.
pub fn input_packet(b: u8) -> (action: (Packet, bool))
    ensures
        action.0@ == PacketView::Move(b as char),
        action.1 == (b as char == 'q'),
{
    let c: char = b as char;
    (Packet::Move(c), c == 'q')
}

/// The packet with which the client joins.
pub fn join_packet() -> (packet: Packet)
    ensures
        packet@ == PacketView::Join("scrubonics"@),
{
    Packet::Join("scrubonics".to_owned())
}

/// What the client makes of the answer to its request to join.
#[derive(Debug, Clone, Copy, PartialEq, Eq, Structural)]
pub enum JoinAnswer {
    /// The client takes part.
    Joined,
    /// The server refused.
    Refused(NetResult),
    /// There was no answer, or it was something else.
    Unknown,
}

/// What the client makes of the packet that came after its request to join,
/// if one came.
pub fn join_answer(received: &Option<Packet>) -> (answer: JoinAnswer)
    ensures
        answer == match received {
            Some(Packet::Reply(r)) => if *r == NetResult::Joined {
                JoinAnswer::Joined
            } else {
                JoinAnswer::Refused(*r)
            },
            _ => JoinAnswer::Unknown,
        },
{
    match received {
        Some(Packet::Reply(NetResult::Joined)) => JoinAnswer::Joined,
        Some(Packet::Reply(r)) => JoinAnswer::Refused(*r),
        _ => JoinAnswer::Unknown,
    }
}

/// The world that the client shows after a packet came, if it shows one.
pub fn shown_world(received: Option<Packet>) -> (world: Option<Vec<Vec<char>>>)
    ensures
        world == match received {
            Some(Packet::State(v)) => Some(v),
            _ => None,
        },
{
    match received {
        Some(Packet::State(v)) => Some(v),
        _ => None,
    }
}

/// `std::str::from_utf8`: the text that the bytes encode. There is none
/// exactly where they are not valid UTF-8.
#[verifier::external_body]
fn text_of(bytes: &[u8]) -> (text: Option<&str>)
    ensures
        text is Some <==> valid_utf8(bytes@),
        text is Some ==> text.unwrap().spec_bytes() == bytes@,
{
    std::str::from_utf8(bytes).ok()
}

/// The text of a datagram: the first `num_bytes` bytes of the buffer, if they
/// are valid UTF-8.
pub fn datagram_text(data: &[u8], num_bytes: usize) -> (text: Option<&str>)
    requires
        num_bytes <= data@.len(),
    ensures
        text is Some <==> valid_utf8(data@.take(num_bytes as int)),
        text is Some ==> text.unwrap()@ == decode_utf8(data@.take(num_bytes as int)),
{
    let bytes: &[u8] = slice_subrange(data, 0, num_bytes);
    assert(bytes@ =~= data@.take(num_bytes as int));
    let text: Option<&str> = text_of(bytes);
    proof {
        if let Some(t) = text {
            encode_utf8_decode_utf8(t@);
        }
    }
    text
}

/// A packet as mathematics sees it is of the same kind and holds the same.
pub proof fn law_view_of_a_packet(packet: Packet)
    ensures
        match packet {
            Packet::Join(name) => packet@ is Join && packet@->Join_0 == name@,
            Packet::Move(dir) => packet@ is Move && packet@->Move_0 == dir,
            Packet::Vote(c) => packet@ is Vote && packet@->Vote_0 == c,
            Packet::Reply(r) => packet@ is Reply && packet@->Reply_0 == r,
            Packet::State(v) => {
                &&& packet@ is State
                &&& packet@->State_0.len() == v@.len()
                &&& forall|y: int|
                    0 <= y < v@.len() ==> #[trigger] packet@->State_0[y] == v@[y]@
            },
        },
{
}

} // verus!
