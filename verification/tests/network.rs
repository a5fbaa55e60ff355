use snaek::packet::{
    datagram_text, input_packet, join_answer, join_packet, shown_world, state_packet, JoinAnswer,
    NetResult, Packet,
};
use snaek::peers::{AddressBook, Peer};
use snaek::screen::{full_address, render_world};
use snaek::server::{join, tick_delay, Reaction, Server};
use std::collections::HashMap;

#[test]
fn keys_become_moves() {
    let (packet, quits) = input_packet(b'w');
    assert!(matches!(packet, Packet::Move('w')));
    assert!(!quits);
    let (packet, quits) = input_packet(b'q');
    assert!(matches!(packet, Packet::Move('q')));
    assert!(quits);
    let (packet, quits) = input_packet(0xe9);
    assert!(matches!(packet, Packet::Move('é')));
    assert!(!quits);
}

#[test]
fn client_joins_under_its_name() {
    match join_packet() {
        Packet::Join(name) => assert_eq!(name, "scrubonics"),
        other => panic!("{:?}", other),
    }
}

#[test]
fn answers_to_a_request_to_join() {
    let reply = |r: NetResult| Some(Packet::Reply(r));
    assert_eq!(join_answer(&reply(NetResult::Joined)), JoinAnswer::Joined);
    for r in [
        NetResult::NameTooLong,
        NetResult::NameInUse,
        NetResult::NameEmpty,
        NetResult::NotJoined,
        NetResult::FailedToJoin,
    ] {
        assert_eq!(join_answer(&reply(r)), JoinAnswer::Refused(r));
    }
    assert_eq!(join_answer(&None), JoinAnswer::Unknown);
    assert_eq!(join_answer(&Some(Packet::Move('w'))), JoinAnswer::Unknown);
}

#[test]
fn client_shows_worlds_only() {
    let v = vec![vec!['a', 'b'], vec!['c', 'd']];
    assert_eq!(shown_world(Some(Packet::State(v.clone()))), Some(v));
    assert_eq!(shown_world(Some(Packet::Vote('a'))), None);
    assert_eq!(shown_world(None), None);
}

#[test]
fn state_packet_holds_the_world() {
    let v = vec![vec!['a', '⬜'], vec!['🍎', 'd']];
    match state_packet(&v) {
        Packet::State(w) => assert_eq!(w, v),
        other => panic!("{:?}", other),
    }
}

#[test]
fn datagrams_are_text() {
    let data = "{\"Move\":\"é\"}xx".as_bytes();
    assert_eq!(datagram_text(data, data.len() - 2), Some("{\"Move\":\"é\"}"));
    assert_eq!(datagram_text(data, 0), Some(""));
    assert_eq!(datagram_text(&[0x61, 0xff, 0x62], 3), None);
    assert_eq!(datagram_text(&[0x61, 0xff, 0x62], 1), Some("a"));
}

#[test]
fn world_as_text() {
    let v = vec![vec!['a', '🍎'], vec!['⬜', 'd']];
    assert_eq!(render_world(&v), "\u{1b}[2Ja🍎\r\n⬜d\r\n");
    assert_eq!(render_world(&Vec::new()), "\u{1b}[2J");
}

#[test]
fn address_and_port() {
    assert_eq!(full_address("localhost", "6969"), "localhost:6969");
    assert_eq!(full_address("", ""), ":");
}

#[test]
fn peers_have_numbers() {
    let a = Peer { v6: false, ip: 1, port: 80, flow: 0, scope: 0 };
    let b = Peer { v6: false, ip: 1, port: 81, flow: 0, scope: 0 };
    let mut book = AddressBook::new();
    assert_eq!(book.id_of(a), 0);
    assert_eq!(book.id_of(b), 1);
    assert_eq!(book.id_of(a), 0);
    assert_eq!(book.peer_of(1), Some(b));
    assert_eq!(book.peer_of(2), None);
    assert_eq!(book.peers.len(), 2);
}

#[test]
fn delay_fills_the_tick() {
    assert_eq!(tick_delay(0), 100_000_000);
    assert_eq!(tick_delay(30_000_000), 70_000_000);
    assert_eq!(tick_delay(100_000_000), 0);
    assert_eq!(tick_delay(u128::MAX), 0);
}

#[test]
fn join_inserts_a_newcomer() {
    let mut players = HashMap::new();
    join(&mut players, 4, String::from("ann"), '@');
    let p = &players[&4];
    assert_eq!(p.name, "ann");
    assert_eq!(p.symbol, '@');
    assert_eq!(p.score, 0);
    assert_eq!(p.last_input, ' ');
    assert!(p.segments.is_empty());
    assert!(!p.alive);
}

#[test]
fn server_plays_a_game() {
    let mut server = Server::new();
    assert!(server.reset);
    server.begin_tick();
    assert!(!server.reset);
    assert_eq!(server.world.len(), 40);
    assert!(server.world.iter().all(|row| row.len() == 40));

    let reaction = server.receive(Some((0, Packet::Join(String::from("ann")))));
    assert!(matches!(reaction, Reaction::Answer(Packet::Reply(NetResult::Joined))));
    assert!(server.reset);
    assert!(!server.players[&0].alive);
    server.end_tick();
    assert!(server.players[&0].segments.is_empty());
    server.begin_tick();
    assert!(server.players[&0].alive);
    assert!(!server.reset);

    assert!(matches!(server.receive(Some((0, Packet::Move('w')))), Reaction::Next));
    assert_eq!(server.players[&0].last_input, 'w');
    assert!(matches!(server.receive(Some((0, Packet::Move('s')))), Reaction::Next));
    assert_eq!(server.players[&0].last_input, 'w');
    assert!(matches!(server.receive(Some((5, Packet::Move('s')))), Reaction::Next));
    assert_eq!(server.players.len(), 1);
    assert!(matches!(server.receive(Some((0, Packet::Vote('s')))), Reaction::Next));
    assert!(matches!(server.receive(None), Reaction::Drained));

    let (x, y) = server.players[&0].segments[0];
    server.end_tick();
    if y > 0 {
        assert_eq!(server.players[&0].segments.last(), Some(&(x, y - 1)));
        assert!(server.players[&0].alive);
    } else {
        assert!(!server.players[&0].alive);
    }
    for _ in 0..40 {
        server.end_tick();
    }
    assert!(!server.players[&0].alive);
}

#[test]
fn joining_again_starts_anew() {
    let mut server = Server::new();
    server.receive(Some((3, Packet::Join(String::from("ann")))));
    server.begin_tick();
    server.receive(Some((3, Packet::Join(String::from("bob")))));
    assert_eq!(server.players.len(), 1);
    assert_eq!(server.players[&3].name, "bob");
    assert!(!server.players[&3].alive);
    assert!(server.reset);
}

#[test]
fn only_who_joins_gets_a_number() {
    let a = Peer { v6: false, ip: 1, port: 80, flow: 0, scope: 0 };
    let b = Peer { v6: true, ip: 1, port: 80, flow: 0, scope: 0 };
    let mut book = AddressBook::new();
    assert_eq!(book.find(a), None);
    assert_eq!(book.sender_id(a, &Packet::Move('w')), None);
    assert!(book.peers.is_empty());
    assert_eq!(book.sender_id(b, &Packet::Join(String::from("ann"))), Some(0));
    assert_eq!(book.sender_id(a, &Packet::Vote('w')), None);
    assert_eq!(book.sender_id(a, &Packet::Join(String::from("bob"))), Some(1));
    assert_eq!(book.sender_id(a, &Packet::Move('w')), Some(1));
    assert_eq!(book.sender_id(b, &Packet::Join(String::from("ann"))), Some(0));
    assert_eq!(book.find(a), Some(1));
    assert_eq!(book.find(b), Some(0));
    assert_eq!(book.peers, vec![b, a]);
}

#[test]
fn everybody_who_plays_has_an_address() {
    let mut server = Server::new();
    let mut book = AddressBook::new();
    let peers: Vec<Peer> =
        (0..4).map(|ip| Peer { v6: false, ip, port: 6969, flow: 0, scope: 0 }).collect();
    let packets = vec![
        (0, Packet::Join(String::from("ann"))),
        (1, Packet::Move('w')),
        (2, Packet::Join(String::from("bob"))),
        (0, Packet::Move('d')),
        (3, Packet::Vote('w')),
        (0, Packet::Join(String::from("eve"))),
    ];
    for (i, packet) in packets {
        server.begin_tick();
        if let Some(id) = book.sender_id(peers[i], &packet) {
            server.receive(Some((id, packet)));
        }
        server.end_tick();
        assert!(server.players.keys().all(|k| book.peer_of(*k).is_some()));
    }
    assert_eq!(server.players.len(), 2);
    assert_eq!(book.peer_of(0), Some(peers[0]));
    assert_eq!(book.peer_of(1), Some(peers[2]));
    assert_eq!(server.players[&0].name, "eve");
    assert_eq!(server.players[&1].name, "bob");
}
