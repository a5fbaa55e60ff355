//! One tick of the game: everybody moves, and some die.

use std::collections::HashMap;
use vstd::prelude::*;
#[allow(unused_imports)]
use vstd::std_specs::iter::IteratorSpec;
use crate::grid::{set_square, EMPTY, FRUIT};
use crate::refill::refill;
use crate::snaek::{kill_snaek, next_square, Snaek};
#[allow(unused_imports)]
use crate::arena::{
    advance, arena, can_score, crashers, crashes, destination, is_lined_up, is_muster, is_muster_of,
    is_placed, is_steady, is_tick, is_turn, lemma_muster_is_lined_up, lemma_next_meeting,
    lemma_slay_keeps_board, lies_on, meet, resolve, riders_can_score, rides, same_shape, slay,
    Arena, HeadView,
};
#[allow(unused_imports)]
use crate::laws::law_tick_stays_steady;
#[allow(unused_imports)]
use crate::grid::{all_on_grid, covers, grid, on_grid, width};

verus! {

broadcast use vstd::std_specs::hash::group_hash_axioms;

/// The snaekes that want to enter one square.
#[derive(Debug)]
pub struct Head {
    /// The square as column and row.
    pub cell: (usize, usize),
    /// Who wants to enter it.
    pub riders: Vec<u64>,
}

impl View for Head {
    type V = HeadView;

    open spec fn view(&self) -> HeadView {
        HeadView { cell: self.cell, riders: self.riders@ }
    }
}

/// The heads as mathematics sees them.
pub open spec fn lineup(heads: Seq<Head>) -> Seq<HeadView> {
    Seq::new(heads.len(), |i: int| heads[i]@)
}

/// Everybody in the table of players, once each. The order is open.
pub fn player_ids(players: &HashMap<u64, Snaek>) -> (ids: Vec<u64>)
    ensures
        ids@.no_duplicates(),
        ids@.to_set() == players@.dom(),
{
    let keys = players.keys();
    let ghost order = keys.remaining();
    let mut ids: Vec<u64> = Vec::new();
    for k in it: keys
        invariant
            it.seq() == order,
            ids@.len() == it.index(),
            forall|i: int| 0 <= i < ids@.len() ==> ids@[i] == *#[trigger] order[i],
    {
        ids.push(*k);
    }
    assert(ids@ =~= order.unref());
    ids
}

/// To slay nobody changes nothing.
proof fn lemma_slay_nobody(a: Arena)
    ensures
        slay(a, Set::empty()) == a,
{
    assert(slay(a, Set::empty()) =~~= a);
}

/// To slay some players and then one more is to slay them all.
proof fn lemma_slay_one_more(a: Arena, ks: Set<u64>, k: u64)
    ensures
        slay(slay(a, ks), set![k]) == slay(a, ks.insert(k)),
{
    let b = slay(a, ks);
    assert forall|x: int, y: int|
        lies_on(a.players, ks.insert(k), x, y) <==> lies_on(a.players, ks, x, y) || lies_on(
            b.players,
            set![k],
            x,
            y,
        ) by {
        if lies_on(a.players, ks.insert(k), x, y) {
            let j = choose|j: u64| #[trigger]
                ks.insert(k).contains(j) && a.players.contains_key(j) && covers(
                    a.players[j].segments,
                    x,
                    y,
                );
            if j == k {
                assert(set![k].contains(k) && b.players.contains_key(k));
            } else {
                assert(ks.contains(j));
            }
        }
        if lies_on(a.players, ks, x, y) {
            let j = choose|j: u64| #[trigger]
                ks.contains(j) && a.players.contains_key(j) && covers(a.players[j].segments, x, y);
            assert(ks.insert(k).contains(j));
        }
        if lies_on(b.players, set![k], x, y) {
            assert(ks.insert(k).contains(k));
        }
    }
    assert(slay(b, set![k]) =~~= slay(a, ks.insert(k)));
}

/// Kills player `k`.
fn slay_player(v: &mut Vec<Vec<char>>, players: &mut HashMap<u64, Snaek>, k: u64)
    requires
        old(players)@.contains_key(k),
        all_on_grid(grid(old(v)@), old(players)@[k]@.segments),
    ensures
        arena(final(v)@, final(players)@) == slay(arena(old(v)@, old(players)@), set![k]),
{
    let ghost a = arena(v@, players@);
    if let Some(mut p) = players.remove(&k) {
        let ghost squares = p@.segments;
        kill_snaek(v, &mut p);
        players.insert(k, p);
        proof {
            assert forall|x: int, y: int|
                lies_on(a.players, set![k], x, y) <==> covers(squares, x, y) by {
                assert(set![k].contains(k));
            }
            assert(arena(v@, players@) =~~= slay(a, set![k]));
        }
    }
}

/// Lets everybody who came to one square meet there.
///
/// A single rider eats the fruit that is there, or moves to the square if it
/// is empty. On any other square the rider dies, unless they rest. Several
/// riders die.
pub fn meet_head(v: &mut Vec<Vec<char>>, players: &mut HashMap<u64, Snaek>, head: &Head)
    requires
        is_lined_up(arena(old(v)@, old(players)@), seq![head@]),
        riders_can_score(arena(old(v)@, old(players)@), seq![head@]),
    ensures
        arena(final(v)@, final(players)@) == meet(arena(old(v)@, old(players)@), head@),
{
    let ghost a = arena(v@, players@);
    let ghost one = seq![head@];
    assert(one[0] == head@);
    let (x, y) = head.cell;
    if head.riders.len() == 1 {
        let k: u64 = head.riders[0];
        assert(one[0].riders.contains(k));
        let found: char = v[y][x];
        if found == FRUIT || found == EMPTY {
            if let Some(mut p) = players.remove(&k) {
                let ghost p0 = p@;
                if found == FRUIT {
                    let tail: (usize, usize) = p.segments[0];
                    p.segments.insert(0, tail);
                    p.score = p.score + 1;
                }
                p.segments.push((x, y));
                let (old_x, old_y) = p.segments.remove(0);
                assert((old_x, old_y) == p0.segments[0]);
                set_square(v, x, y, p.symbol);
                set_square(v, old_x, old_y, EMPTY);
                let ghost p1 = p@;
                players.insert(k, p);
                proof {
                    let b = advance(a, k, head.cell, found == FRUIT);
                    assert(p1 =~= b.players[k]);
                    assert(arena(v@, players@) =~~= b);
                }
            }
        } else {
            let rests: bool = match players.get(&k) {
                Some(p) => p.last_input == ' ',
                None => true,
            };
            if !rests {
                slay_player(v, players, k);
            }
        }
    } else {
        proof {
            lemma_slay_nobody(a);
            assert(head.riders@.take(0).to_set() =~= Set::<u64>::empty());
            assert forall|k: u64| head.riders@.contains(k) implies #[trigger] is_placed(a, k) by {
                assert(one[0].riders.contains(k));
            }
        }
        for i in 0..head.riders.len()
            invariant
                arena(v@, players@) == slay(a, head.riders@.take(i as int).to_set()),
                forall|k: u64| head.riders@.contains(k) ==> #[trigger] is_placed(a, k),
        {
            let k: u64 = head.riders[i];
            proof {
                assert(head.riders@.contains(k));
                assert(is_placed(a, k));
                let b = arena(v@, players@);
                assert(b.players.contains_key(k));
                assert(b.players[k].segments == a.players[k].segments);
                lemma_slay_one_more(a, head.riders@.take(i as int).to_set(), k);
                assert(head.riders@.take(i + 1) =~= head.riders@.take(i as int).push(k));
                head.riders@.take(i as int).lemma_push_to_set_commute(k);
            }
            slay_player(v, players, k);
        }
        assert(head.riders@.take(head.riders@.len() as int) =~= head.riders@);
    }
}

/// Holds the meetings, one after the other.
pub fn resolve_heads(
    v: &mut Vec<Vec<char>>,
    players: &mut HashMap<u64, Snaek>,
    heads: &Vec<Head>,
)
    requires
        is_lined_up(arena(old(v)@, old(players)@), lineup(heads@)),
        riders_can_score(arena(old(v)@, old(players)@), lineup(heads@)),
    ensures
        arena(final(v)@, final(players)@) == resolve(
            arena(old(v)@, old(players)@),
            lineup(heads@),
        ),
{
    let ghost a = arena(v@, players@);
    let ghost line = lineup(heads@);
    assert(line.take(0) =~= Seq::<HeadView>::empty());
    for i in 0..heads.len()
        invariant
            line == lineup(heads@),
            is_lined_up(a, line),
            riders_can_score(a, line),
            arena(v@, players@) == resolve(a, line.take(i as int)),
    {
        proof {
            lemma_next_meeting(a, line, i as int);
            assert(line.take(i + 1).drop_last() =~= line.take(i as int));
            assert(line[i as int] == heads@[i as int]@);
            let b = arena(v@, players@);
            let one = seq![heads@[i as int]@];
            assert forall|j: int, k: u64|
                0 <= j < one.len() && #[trigger] one[j].riders.contains(
                    k,
                ) implies b.players[k].score < usize::MAX by {
                assert(line[i as int].riders.contains(k));
            }
        }
        meet_head(v, players, &heads[i]);
    }
    assert(line.take(line.len() as int) =~= line);
}

/// The index of the head for the square, if there is one.
fn find_head(heads: &Vec<Head>, cell: (usize, usize)) -> (found: Option<usize>)
    ensures
        match found {
            Some(i) => i < heads@.len() && heads@[i as int].cell == cell,
            None => forall|i: int| 0 <= i < heads@.len() ==> (#[trigger] heads@[i]).cell != cell,
        },
{
    for i in 0..heads.len()
        invariant
            forall|j: int| 0 <= j < i ==> (#[trigger] heads@[j]).cell != cell,
    {
        if heads[i].cell.0 == cell.0 && heads[i].cell.1 == cell.1 {
            return Some(i);
        }
    }
    None
}

/// The heads still list who enters which square after player `k` was added:
/// as one more rider of head `at`, or in a new head at the end.
proof fn lemma_add_rider(
    a: Arena,
    line: Seq<HeadView>,
    after: Seq<HeadView>,
    at: int,
    k: u64,
    ks: Set<u64>,
)
    requires
        is_muster_of(a, line, ks),
        rides(a, k),
        !ks.contains(k),
        0 <= at <= line.len(),
        destination(a, k) == Some(after[at].cell),
        at < line.len() ==> {
            &&& after.len() == line.len()
            &&& after[at].cell == line[at].cell
            &&& after[at].riders == line[at].riders.push(k)
        },
        at == line.len() ==> {
            &&& after.len() == line.len() + 1
            &&& after[at].riders == seq![k]
            &&& forall|i: int| 0 <= i < at ==> (#[trigger] line[i]).cell != after[at].cell
        },
        forall|i: int| 0 <= i < line.len() && i != at ==> #[trigger] after[i] == line[i],
    ensures
        is_muster_of(a, after, ks.insert(k)),
{
    let others = if at < line.len() {
        line[at].riders
    } else {
        Seq::empty()
    };
    assert(after[at].riders =~= others.push(k));
    assert(!others.contains(k)) by {
        if at < line.len() && others.contains(k) {
            assert(line[at].riders.contains(k));
        }
    }
    assert forall|j: u64| #[trigger] after[at].riders.contains(j) <==> others.contains(j) || j
        == k by {
        others.lemma_push_to_set_commute(k);
        assert(others.push(k).to_set().contains(j) <==> others.to_set().insert(k).contains(j));
    }
    assert forall|i: int| 0 <= i < after.len() implies (#[trigger] after[i]).riders.len() > 0
        && after[i].riders.no_duplicates() by {
        if i != at {
            assert(line[i].riders.no_duplicates());
        } else if at < line.len() {
            assert(line[at].riders.no_duplicates());
        }
    }
    assert forall|i: int, j: u64|
        0 <= i < after.len() && #[trigger] after[i].riders.contains(j) implies {
        &&& ks.insert(k).contains(j)
        &&& rides(a, j)
        &&& destination(a, j) == Some(after[i].cell)
    } by {
        if i != at || j != k {
            assert(line[i].riders.contains(j));
        }
    }
    assert forall|j: u64| #[trigger] rides(a, j) && ks.insert(k).contains(j) implies exists|i: int|
        0 <= i < after.len() && (#[trigger] after[i]).riders.contains(j) by {
        if j == k {
            assert(after[at].riders.contains(j));
        } else {
            let i = choose|i: int|
                0 <= i < line.len() && (#[trigger] line[i]).riders.contains(j);
            assert(after[i].riders.contains(j));
        }
    }
    assert forall|i: int, j: int| 0 <= i < j < after.len() implies (#[trigger] after[i]).cell != (
    #[trigger] after[j]).cell by {
        assert(after[i].cell == line[i].cell);
        if j < line.len() {
            assert(after[j].cell == line[j].cell);
        }
    }
}

/// Notes that player `k` enters the square: next to the others who do, or as
/// the first one.
fn add_rider(
    heads: &mut Vec<Head>,
    cell: (usize, usize),
    k: u64,
    Ghost(a): Ghost<Arena>,
    Ghost(ks): Ghost<Set<u64>>,
)
    requires
        is_muster_of(a, lineup(old(heads)@), ks),
        rides(a, k),
        destination(a, k) == Some(cell),
        !ks.contains(k),
    ensures
        is_muster_of(a, lineup(final(heads)@), ks.insert(k)),
{
    let ghost line = lineup(heads@);
    match find_head(heads, cell) {
        Some(i) => {
            heads[i].riders.push(k);
            proof {
                lemma_add_rider(a, line, lineup(heads@), i as int, k, ks);
            }
        },
        None => {
            let mut riders: Vec<u64> = Vec::new();
            riders.push(k);
            heads.push(Head { cell, riders });
            proof {
                assert(riders@ =~= seq![k]);
                lemma_add_rider(a, line, lineup(heads@), line.len() as int, k, ks);
            }
        },
    }
}

/// Lets everybody choose the square that they enter next. Who would leave
/// the world dies at once; the others are listed under their squares.
pub fn muster(v: &mut Vec<Vec<char>>, players: &mut HashMap<u64, Snaek>) -> (heads: Vec<Head>)
    requires
        is_steady(arena(old(v)@, old(players)@)),
    ensures
        arena(final(v)@, final(players)@) == slay(
            arena(old(v)@, old(players)@),
            crashers(arena(old(v)@, old(players)@)),
        ),
        is_muster(arena(old(v)@, old(players)@), lineup(heads@)),
{
    let ghost a = arena(v@, players@);
    let ids = player_ids(players);
    let mut heads: Vec<Head> = Vec::new();
    let ghost mut fallen: Set<u64> = Set::empty();
    proof {
        lemma_slay_nobody(a);
        assert(ids@.take(0).to_set() =~= Set::<u64>::empty());
    }
    for i in 0..ids.len()
        invariant
            is_steady(a),
            ids@.no_duplicates(),
            ids@.to_set() == a.players.dom(),
            arena(v@, players@) == slay(a, fallen),
            forall|k: u64|
                #[trigger] fallen.contains(k) <==> crashes(a, k) && ids@.take(
                    i as int,
                ).to_set().contains(k),
            is_muster_of(a, lineup(heads@), ids@.take(i as int).to_set()),
    {
        let k: u64 = ids[i];
        let ghost seen = ids@.take(i as int).to_set();
        proof {
            assert(ids@.contains(k));
            assert(a.players.contains_key(k));
            assert(!ids@.take(i as int).contains(k));
            assert(!fallen.contains(k));
            assert(arena(v@, players@).players.contains_key(k));
            assert(arena(v@, players@).players[k] == a.players[k]);
            assert(ids@.take(i + 1) =~= ids@.take(i as int).push(k));
            ids@.take(i as int).lemma_push_to_set_commute(k);
            lemma_slay_keeps_board(a, fallen);
        }
        let choice: Option<Option<(usize, usize)>> = match players.get(&k) {
            Some(p) => {
                if p.alive {
                    let head: (usize, usize) = p.segments[p.segments.len() - 1];
                    assert(is_placed(a, k));
                    assert(on_grid(a.world, head.0 as int, head.1 as int));
                    assert(a.world[head.1 as int].len() == width(a.world));
                    assert(same_shape(a.world, grid(v@)));
                    assert(grid(v@)[0].len() == a.world[0].len());
                    Some(next_square(head, p.last_input, v[0].len(), v.len()))
                } else {
                    None
                }
            },
            None => None,
        };
        match choice {
            Some(Some(cell)) => {
                add_rider(&mut heads, cell, k, Ghost(a), Ghost(seen));
            },
            Some(None) => {
                slay_player(v, players, k);
                proof {
                    lemma_slay_one_more(a, fallen, k);
                    fallen = fallen.insert(k);
                }
            },
            None => {},
        }
    }
    proof {
        assert(ids@.take(ids@.len() as int) =~= ids@);
        assert forall|k: u64| fallen.contains(k) <==> crashers(a).contains(k) by {
            assert(ids@.contains(k) <==> ids@.to_set().contains(k));
        }
        assert(fallen =~= crashers(a));
    }
    heads
}

/// Moves every living player by one square, and brings new fruits if none is
/// left.
///
/// Who leaves the world dies. Then, for each square that players enter:
/// several die there; a single one eats the fruit or takes the empty square,
/// and otherwise dies unless they rest. In which order the squares have their
/// turn is open. Where the fruit count is too low after that, more fruits
/// are put on free squares.
pub fn update_state(v: &mut Vec<Vec<char>>, players: &mut HashMap<u64, Snaek>)
    requires
        is_steady(arena(old(v)@, old(players)@)),
        can_score(arena(old(v)@, old(players)@)),
    ensures
        is_turn(arena(old(v)@, old(players)@), arena(final(v)@, final(players)@)),
{
    let ghost a = arena(v@, players@);
    let heads = muster(v, players);
    proof {
        lemma_muster_is_lined_up(a, lineup(heads@));
    }
    resolve_heads(v, players, &heads);
    let ghost m = arena(v@, players@);
    proof {
        assert(is_tick(a, m));
        law_tick_stays_steady(a, m);
    }
    refill(v, players);
}

} // verus!
