//! The server: rounds, ticks, and the packets in between.

use std::collections::HashMap;
use vstd::prelude::*;
use crate::chance::random_emoji;
use crate::init::init_world;
use crate::packet::{NetResult, Packet};
use crate::snaek::{steer, Snaek};
use crate::update::update_state;
#[allow(unused_imports)]
use crate::arena::{
    arena, can_score, crashes, is_placed, is_refilled, is_steady, is_tick, is_turn, is_under_life,
    roster, same_shape, Arena,
};
#[allow(unused_imports)]
use crate::chance::{emoji_span_of, is_emoji};
#[allow(unused_imports)]
use crate::grid::{covers, is_even, is_rect, on_grid, width, EMPTY, FRUIT};
#[allow(unused_imports)]
use crate::init::{is_drawn_round, is_fresh, is_mark, is_start_of, FRUITS};
#[allow(unused_imports)]
use crate::laws::{
    is_chain, is_fate, law_bodies_hang_together, law_dead_stay_dead, law_fates,
    law_tick_stays_steady,
};
#[allow(unused_imports)]
use crate::laws_steps::{law_requests_are_met, law_view_of_the_game};
#[allow(unused_imports)]
use crate::laws_turn::{law_refill_stays_steady, law_turn_fates};
#[allow(unused_imports)]
use crate::laws_world::{fruit_is_apart, law_fruit_stays_apart};
#[allow(unused_imports)]
use crate::packet::PacketView;
#[allow(unused_imports)]
use crate::peers::{is_sender, Peer};
#[allow(unused_imports)]
use crate::snaek::{is_direction, opposite, steered, SnaekView};

verus! {

broadcast use vstd::std_specs::hash::group_hash_axioms;

/// The number of squares in a row of the server's world.
pub const WIDTH: usize = 40;

/// The number of rows of the server's world.
pub const HEIGHT: usize = 40;

/// The length of a tick in nanoseconds.
pub const TICK_NANOS: u64 = 100_000_000;

/// The server.
#[derive(Debug)]
pub struct Server {
    /// The world.
    pub world: Vec<Vec<char>>,
    /// The players, by the numbers of their addresses.
    pub players: HashMap<u64, Snaek>,
    /// Whether the next tick starts a new round.
    pub reset: bool,
}

/// What the server does after it took a packet.
#[derive(Debug)]
pub enum Reaction {
    /// It sends a packet back, and takes the next one.
    Answer(Packet),
    /// It takes the next one.
    Next,
    /// There was none: the tick goes on.
    Drained,
}

/// A player who has just joined.
pub open spec fn newcomer(name: Seq<char>, symbol: char) -> SnaekView {
    SnaekView {
        name,
        segments: Seq::empty(),
        symbol,
        score: 0,
        last_input: ' ',
        alive: false,
    }
}

/// The players before and after the server took a packet: who joins is a
/// newcomer with some symbol, whose packet asks for a direction is steered
/// into it, and nobody else changes.
pub open spec fn is_reception(
    before: Map<u64, SnaekView>,
    after: Map<u64, SnaekView>,
    from: u64,
    packet: PacketView,
) -> bool {
    match packet {
        PacketView::Join(name) => exists|symbol: char| #[trigger]
            is_emoji(symbol) && after == before.insert(from, newcomer(name, symbol)),
        PacketView::Move(dir) => after == if before.contains_key(from) {
            before.insert(
                from,
                SnaekView {
                    last_input: steered(before[from].last_input, dir),
                    ..before[from]
                },
            )
        } else {
            before
        },
        _ => after == before,
    }
}

/// Every player's number stands for an address in the book.
pub open spec fn are_known(players: Map<u64, SnaekView>, peers: Seq<Peer>) -> bool {
    forall|k: u64| #[trigger] players.contains_key(k) ==> k < peers.len()
}

/// What is true of every player at any time: the mark, the direction, and a
/// body that hangs together.
pub open spec fn is_sound(p: SnaekView) -> bool {
    &&& is_mark(p.symbol)
    &&& is_direction(p.last_input) || p.last_input == ' '
    &&& is_chain(p.segments)
}

/// All players are sound.
pub open spec fn all_sound(players: Map<u64, SnaekView>) -> bool {
    forall|k: u64| #[trigger] players.contains_key(k) ==> is_sound(players[k])
}

/// The state of a game that can go on: the world is steady, no living body
/// lies on a fruit, and all players are sound.
pub open spec fn is_playable(a: Arena) -> bool {
    &&& is_steady(a)
    &&& fruit_is_apart(a)
    &&& all_sound(a.players)
}

/// A new round can be played, and everybody takes part.
pub proof fn law_fresh_is_playable(before: Map<u64, SnaekView>, a: Arena, w: int, h: int)
    requires
        is_fresh(before, a, w, h),
        all_sound(before),
    ensures
        is_playable(a),
        forall|k: u64| #[trigger] a.players.contains_key(k) ==> a.players[k].alive,
{
    assert forall|k: u64| #[trigger] a.players.contains_key(k) implies {
        &&& a.players[k].alive
        &&& is_placed(a, k)
        &&& is_sound(a.players[k])
        &&& is_mark(a.players[k].symbol)
        &&& a.players[k].segments.len() == 1
    } by {
        assert(before.contains_key(k));
        assert(is_start_of(before, a, k));
    }
    if a.world.len() > 0 {
        assert(a.world[0].len() == w);
    }
    assert(is_even(a.world));
    assert forall|x: int, y: int|
        on_grid(a.world, x, y) && #[trigger] is_under_life(a, x, y) implies a.world[y][x]
        != FRUIT by {
        let k = choose|k: u64| #[trigger]
            a.players.contains_key(k) && a.players[k].alive && covers(a.players[k].segments, x, y);
        assert(is_start_of(before, a, k));
        assert(a.players[k].segments.len() == 1);
    }
}

/// A game that can go on still can after a tick.
pub proof fn law_tick_stays_playable(a: Arena, b: Arena)
    requires
        is_playable(a),
        is_tick(a, b),
        a.world.len() <= usize::MAX,
        width(a.world) <= usize::MAX,
    ensures
        is_playable(b),
{
    law_fates(a, b);
    law_tick_stays_steady(a, b);
    law_fruit_stays_apart(a, b);
    assert forall|k: u64| #[trigger] b.players.contains_key(k) implies is_sound(b.players[k]) by {
        assert(a.players.contains_key(k));
        assert(is_fate(a, k, b.players[k]));
        law_bodies_hang_together(a, b, k);
    }
}

/// A game that can go on still can after new fruits have come.
pub proof fn law_refill_stays_playable(m: Arena, b: Arena)
    requires
        is_playable(m),
        is_refilled(m, b),
    ensures
        is_playable(b),
{
    law_refill_stays_steady(m, b);
    assert forall|x: int, y: int|
        on_grid(b.world, x, y) && #[trigger] is_under_life(b, x, y) implies b.world[y][x]
        != FRUIT by {
        assert(m.world[y].len() == b.world[y].len());
        assert(is_under_life(m, x, y));
    }
}

/// A game that can go on still can after everybody has moved and new fruits
/// have come.
pub proof fn law_turn_stays_playable(a: Arena, b: Arena)
    requires
        is_playable(a),
        is_turn(a, b),
        a.world.len() <= usize::MAX,
        width(a.world) <= usize::MAX,
    ensures
        is_playable(b),
        same_shape(a.world, b.world),
{
    let m = choose|m: Arena| #[trigger] is_tick(a, m) && is_refilled(m, b);
    law_fates(a, m);
    law_tick_stays_playable(a, m);
    law_refill_stays_playable(m, b);
}

/// The table of players after somebody joined.
pub fn join(players: &mut HashMap<u64, Snaek>, from: u64, name: String, symbol: char)
    ensures
        roster(final(players)@) == roster(old(players)@).insert(from, newcomer(name@, symbol)),
{
    let snaek = Snaek {
        name,
        segments: Vec::new(),
        symbol,
        score: 0,
        last_input: ' ',
        alive: false,
    };
    assert(snaek@ =~= newcomer(name@, symbol));
    players.insert(from, snaek);
    assert(roster(players@) =~= roster(old(players)@).insert(from, newcomer(name@, symbol)));
}

impl Server {
    /// The world and the players.
    pub open spec fn arena(&self) -> Arena {
        arena(self.world@, self.players@)
    }

    /// The game can go on, and between two rounds the world has its size.
    pub open spec fn wf(&self) -> bool {
        &&& is_playable(self.arena())
        &&& self.reset || is_rect(self.arena().world, WIDTH as int, HEIGHT as int)
    }

    /// A server without players, before the first round.
    pub fn new() -> (server: Server)
        ensures
            server.wf(),
            server.arena().world == Seq::<Seq<char>>::empty(),
            server.arena().players == Map::<u64, SnaekView>::empty(),
            server.reset,
    {
        let server = Server { world: Vec::new(), players: HashMap::new(), reset: true };
        assert(server.arena().world =~= Seq::<Seq<char>>::empty());
        assert(server.arena().players =~= Map::<u64, SnaekView>::empty());
        server
    }

    /// Starts a new round if one is due.
    pub fn begin_tick(&mut self)
        requires
            old(self).wf(),
            old(self).reset ==> old(self).arena().players.len() + FRUITS <= WIDTH * HEIGHT,
        ensures
            final(self).wf(),
            !final(self).reset,
            old(self).reset ==> is_fresh(
                old(self).arena().players,
                final(self).arena(),
                WIDTH as int,
                HEIGHT as int,
            ),
            old(self).reset ==> is_drawn_round(
                old(self).arena().players,
                final(self).arena(),
                WIDTH as int,
                HEIGHT as int,
            ),
            !old(self).reset ==> final(self).arena() == old(self).arena(),
    {
        if self.reset {
            let ghost before = self.arena().players;
            proof {
                assert(before.dom() =~= self.players@.dom());
                assert forall|k: u64| #[trigger] self.players@.contains_key(k) implies is_mark(
                    self.players@[k].symbol,
                ) by {
                    assert(before.contains_key(k));
                    assert(is_sound(before[k]));
                }
            }
            init_world(&mut self.world, WIDTH, HEIGHT, &mut self.players);
            self.reset = false;
            proof {
                law_fresh_is_playable(before, self.arena(), WIDTH as int, HEIGHT as int);
            }
        }
    }

    /// Takes a packet, or notes that there is none.
    ///
    /// Who joins gets a random symbol, waits for the next round, which is due
    /// at once, and is told so; who joined before starts anew. A player who
    /// asks for a direction is steered into it. Everything else is ignored.
    pub fn receive(&mut self, received: Option<(u64, Packet)>) -> (reaction: Reaction)
        requires
            old(self).wf(),
        ensures
            final(self).wf(),
            final(self).arena().world == old(self).arena().world,
            match received {
                Some((from, packet)) => {
                    &&& is_reception(
                        old(self).arena().players,
                        final(self).arena().players,
                        from,
                        packet@,
                    )
                    &&& final(self).reset == (old(self).reset || packet is Join)
                    &&& if packet is Join {
                        &&& reaction matches Reaction::Answer(answer)
                        &&& answer@ == PacketView::Reply(NetResult::Joined)
                    } else {
                        reaction is Next
                    }
                },
                None => {
                    &&& reaction is Drained
                    &&& final(self).reset == old(self).reset
                    &&& final(self).arena() == old(self).arena()
                },
            },
    {
        let ghost a = self.arena();
        match received {
            Some((from, Packet::Join(name))) => {
                let symbol: char = random_emoji();
                join(&mut self.players, from, name, symbol);
                self.reset = true;
                proof {
                    law_emoji_is_mark(symbol);
                    law_newcomer_is_playable(a, self.arena(), from, newcomer(name@, symbol));
                }
                Reaction::Answer(Packet::Reply(NetResult::Joined))
            },
            Some((from, Packet::Move(dir))) => {
                if let Some(mut p) = self.players.remove(&from) {
                    steer(&mut p, dir);
                    let ghost q = p@;
                    self.players.insert(from, p);
                    proof {
                        assert(self.arena().players =~= a.players.insert(from, q));
                        law_steering_is_playable(a, self.arena(), from, dir);
                    }
                } else {
                    assert(self.arena().players =~= a.players);
                }
                Reaction::Next
            },
            Some(_) => Reaction::Next,
            None => Reaction::Drained,
        }
    }

    /// Moves everybody by one square, and brings new fruits if none is left.
    pub fn end_tick(&mut self)
        requires
            old(self).wf(),
            can_score(old(self).arena()),
        ensures
            final(self).wf(),
            is_turn(old(self).arena(), final(self).arena()),
            final(self).reset == old(self).reset,
    {
        let ghost a = self.arena();
        let rows: usize = self.world.len();
        if rows > 0 {
            let columns: usize = self.world[0].len();
            assert(width(a.world) == columns);
        }
        update_state(&mut self.world, &mut self.players);
        proof {
            law_turn_stays_playable(a, self.arena());
            if !self.reset {
                assert forall|y: int| 0 <= y < self.arena().world.len() implies #[trigger]
                    self.arena().world[y].len() == WIDTH by {
                    assert(a.world[y].len() == WIDTH);
                }
            }
        }
    }
}

/// The world reaches everybody: if every player has an address, then so it is
/// after a packet was taken under its sender's number, or dropped because
/// there was none. The addresses of before stay, and who joins has the one
/// that the packet came from.
pub proof fn law_everybody_has_an_address(
    peers: Seq<Peer>,
    more: Seq<Peer>,
    before: Map<u64, SnaekView>,
    after: Map<u64, SnaekView>,
    peer: Peer,
    packet: PacketView,
    id: Option<u64>,
)
    requires
        are_known(before, peers),
        is_sender(peers, more, peer, packet, id),
        match id {
            Some(from) => is_reception(before, after, from, packet),
            None => after == before,
        },
    ensures
        are_known(after, more),
        peers.is_prefix_of(more),
        packet is Join ==> id is Some && after.contains_key(id.unwrap()) && more[id.unwrap() as int]
            == peer,
{
    assert forall|k: u64| #[trigger] after.contains_key(k) implies k < more.len() by {
        if id != Some(k) {
            assert(before.contains_key(k));
        }
    }
}

/// A request for a direction turns the player it comes from, whatever they
/// did before, and no other one. Any of the four directions is taken, except
/// the one that leads back; any other input leaves the player as they are. A
/// request from nobody in the table changes nothing.
pub proof fn law_requests_turn_their_player(
    before: Map<u64, SnaekView>,
    after: Map<u64, SnaekView>,
    from: u64,
    dir: char,
)
    requires
        is_reception(before, after, from, PacketView::Move(dir)),
    ensures
        forall|k: u64| #[trigger] after.contains_key(k) <==> before.contains_key(k),
        forall|k: u64| #[trigger]
            before.contains_key(k) && k != from ==> after[k] == before[k],
        before.contains_key(from) ==> {
            let (p, q) = (before[from], after[from]);
            let asks = dir == 'w' || dir == 'a' || dir == 's' || dir == 'd';
            let back = {
                ||| p.last_input == 'w' && dir == 's'
                ||| p.last_input == 's' && dir == 'w'
                ||| p.last_input == 'a' && dir == 'd'
                ||| p.last_input == 'd' && dir == 'a'
            };
            &&& asks && !back ==> q.last_input == dir
            &&& !asks || back ==> q.last_input == p.last_input
            &&& q.name == p.name
            &&& q.segments == p.segments
            &&& q.symbol == p.symbol
            &&& q.score == p.score
            &&& q.alive == p.alive
        },
{
    law_requests_are_met(before[from].last_input, dir);
}

/// Who joins is in the table from then on, under the name that they gave, with
/// a random symbol, without a body, points or direction, and not alive before
/// the next round. If they were there before, nothing of that is left. Nobody
/// else changes.
pub proof fn law_joining(
    before: Map<u64, SnaekView>,
    after: Map<u64, SnaekView>,
    from: u64,
    name: Seq<char>,
)
    requires
        is_reception(before, after, from, PacketView::Join(name)),
    ensures
        forall|k: u64| #[trigger]
            after.contains_key(k) <==> before.contains_key(k) || k == from,
        forall|k: u64| #[trigger]
            before.contains_key(k) && k != from ==> after[k] == before[k],
        after[from].name == name,
        after[from].segments.len() == 0,
        is_emoji(after[from].symbol),
        after[from].score == 0,
        after[from].last_input == ' ',
        !after[from].alive,
{
    let symbol = choose|symbol: char| #[trigger]
        is_emoji(symbol) && after == before.insert(from, newcomer(name, symbol));
    assert(after[from] == newcomer(name, symbol));
}

/// No other packet changes any player.
pub proof fn law_other_packets_change_nobody(
    before: Map<u64, SnaekView>,
    after: Map<u64, SnaekView>,
    from: u64,
    packet: PacketView,
)
    requires
        is_reception(before, after, from, packet),
        packet is Vote || packet is Reply || packet is State,
    ensures
        after == before,
{
}

/// The arena of a server has the squares of its world and its players.
pub proof fn law_view_of_the_server(server: Server)
    ensures
        server.arena().world.len() == server.world@.len(),
        forall|y: int|
            0 <= y < server.world@.len() ==> #[trigger] server.arena().world[y]
                == server.world@[y]@,
        server.arena().players.dom() == server.players@.dom(),
        forall|k: u64| #[trigger]
            server.players@.contains_key(k) ==> server.arena().players[k] == server.players@[k]@,
{
    law_view_of_the_game(server.world@, server.players@);
}

/// A new round leaves everybody their addresses.
pub proof fn law_rounds_keep_addresses(
    peers: Seq<Peer>,
    before: Map<u64, SnaekView>,
    a: Arena,
    w: int,
    h: int,
)
    requires
        are_known(before, peers),
        is_fresh(before, a, w, h),
    ensures
        are_known(a.players, peers),
{
    assert forall|k: u64| #[trigger] a.players.contains_key(k) implies k < peers.len() by {
        assert(before.contains_key(k));
    }
}

/// A turn leaves everybody their addresses.
pub proof fn law_turns_keep_addresses(peers: Seq<Peer>, a: Arena, b: Arena)
    requires
        are_known(a.players, peers),
        is_steady(a),
        is_turn(a, b),
    ensures
        are_known(b.players, peers),
{
    law_turn_fates(a, b);
    assert forall|k: u64| #[trigger] b.players.contains_key(k) implies k < peers.len() by {
        assert(a.players.contains_key(k));
    }
}

/// A random symbol can be told from an empty square and from a fruit.
pub proof fn law_emoji_is_mark(c: char)
    requires
        is_emoji(c),
    ensures
        is_mark(c),
{
    let kind = choose|kind: int|
        (#[trigger] emoji_span_of(kind)) is Some && emoji_span_of(kind).unwrap().0 <= c as u32
            && c as u32 <= emoji_span_of(kind).unwrap().1;
    assert(EMPTY as u32 == 0x2b1c);
    assert(FRUIT as u32 == 0x1f34e);
}

/// A game that can go on still can after somebody joined, or joined again.
pub proof fn law_newcomer_is_playable(a: Arena, b: Arena, from: u64, p: SnaekView)
    requires
        is_playable(a),
        b.world == a.world,
        b.players == a.players.insert(from, p),
        !p.alive,
        is_sound(p),
    ensures
        is_playable(b),
{
    assert forall|k: u64| #[trigger] b.players.contains_key(k) implies is_sound(b.players[k]) by {
        if k != from {
            assert(a.players.contains_key(k));
        }
    }
    assert forall|k: u64|
        #[trigger] b.players.contains_key(k) && b.players[k].alive implies is_placed(b, k)
        && b.players[k].symbol != FRUIT by {
        assert(a.players.contains_key(k));
        assert(is_placed(a, k));
    }
    assert forall|x: int, y: int|
        on_grid(b.world, x, y) && #[trigger] is_under_life(b, x, y) implies b.world[y][x]
        != FRUIT by {
        let k = choose|k: u64| #[trigger]
            b.players.contains_key(k) && b.players[k].alive && covers(b.players[k].segments, x, y);
        assert(a.players.contains_key(k) && a.players[k].alive);
        assert(is_under_life(a, x, y));
    }
}

/// A game that can go on still can after a player was steered.
pub proof fn law_steering_is_playable(a: Arena, b: Arena, from: u64, dir: char)
    requires
        is_playable(a),
        a.players.contains_key(from),
        b.world == a.world,
        b.players == a.players.insert(
            from,
            SnaekView {
                last_input: steered(a.players[from].last_input, dir),
                ..a.players[from]
            },
        ),
    ensures
        is_playable(b),
{
    assert forall|k: u64| #[trigger] b.players.contains_key(k) implies {
        &&& is_sound(b.players[k])
        &&& b.players[k].alive ==> is_placed(b, k)
    } by {
        assert(a.players.contains_key(k));
        assert(is_sound(a.players[k]));
        assert(a.players[k].alive ==> is_placed(a, k));
    }
    assert forall|k: u64| #[trigger] b.players.contains_key(k) && b.players[k].alive implies
        b.players[k].symbol != FRUIT by {
        assert(a.players.contains_key(k));
    }
    assert forall|x: int, y: int|
        on_grid(b.world, x, y) && #[trigger] is_under_life(b, x, y) implies b.world[y][x]
        != FRUIT by {
        let k = choose|k: u64| #[trigger]
            b.players.contains_key(k) && b.players[k].alive && covers(b.players[k].segments, x, y);
        assert(a.players.contains_key(k) && a.players[k].alive);
        assert(is_under_life(a, x, y));
    }
}

/// Who has joined waits for the next round: no turn touches them before.
pub proof fn law_newcomers_wait(a: Arena, b: Arena, k: u64, name: Seq<char>, symbol: char)
    requires
        is_steady(a),
        is_turn(a, b),
        a.players.contains_key(k),
        a.players[k] == newcomer(name, symbol),
    ensures
        b.players[k] == newcomer(name, symbol),
{
    let m = choose|m: Arena| #[trigger] is_tick(a, m) && is_refilled(m, b);
    law_dead_stay_dead(a, m, k);
}

/// One request never turns a snaek back on itself.
pub proof fn law_no_turning_back(last_input: char, dir: char)
    requires
        is_direction(last_input),
    ensures
        steered(last_input, dir) != opposite(last_input),
        is_direction(steered(last_input, dir)),
{
}

/// A sound player who is alive and placed dies of leaving the world only at
/// its edge: each direction leads out of the world on one side alone.
pub proof fn law_only_edges_are_deadly(a: Arena, k: u64)
    requires
        is_playable(a),
        a.players.contains_key(k),
        a.players[k].alive,
    ensures
        crashes(a, k) <==> {
            let (x, y) = a.players[k].segments.last();
            let dir = a.players[k].last_input;
            ||| dir == 'w' && y == 0
            ||| dir == 'a' && x == 0
            ||| dir == 's' && y == a.world.len() - 1
            ||| dir == 'd' && x == width(a.world) - 1
        },
{
    assert(is_placed(a, k));
    let s = a.players[k].segments;
    assert(on_grid(a.world, s.last().0 as int, s.last().1 as int));
    assert(a.world[s.last().1 as int].len() == width(a.world));
    assert(is_sound(a.players[k]));
}

/// How long the server sleeps at the end of a tick that took so long so far:
/// until the tick is over, and not at all if it is.
pub fn tick_delay(elapsed_nanos: u128) -> (delay: u64)
    ensures
        delay == if elapsed_nanos < TICK_NANOS {
            TICK_NANOS - elapsed_nanos
        } else {
            0
        },
{
    if elapsed_nanos < TICK_NANOS as u128 {
        TICK_NANOS - elapsed_nanos as u64
    } else {
        0
    }
}

} // verus!
