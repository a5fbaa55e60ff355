//! The world and its players together, and how one tick changes them.

use vstd::prelude::*;
#[allow(unused_imports)]
use crate::grid::{
    all_on_grid, covers, grid, is_even, on_grid, put, squares_with, width, EMPTY, FRUIT, POOP,
};
#[allow(unused_imports)]
use crate::init::FRUITS;
#[allow(unused_imports)]
use crate::snaek::{next_cell, Snaek, SnaekView};

verus! {

/// A world and its players.
#[verifier::ext_equal]
pub struct Arena {
    pub world: Seq<Seq<char>>,
    pub players: Map<u64, SnaekView>,
}

/// The players as mathematics sees them.
pub open spec fn roster(players: Map<u64, Snaek>) -> Map<u64, SnaekView> {
    players.map_values(|p: Snaek| p@)
}

/// The arena that a world and a table of players make.
pub open spec fn arena(v: Seq<Vec<char>>, players: Map<u64, Snaek>) -> Arena {
    Arena { world: grid(v), players: roster(players) }
}

/// The snaekes that want to enter one square.
#[verifier::ext_equal]
pub struct HeadView {
    pub cell: (usize, usize),
    pub riders: Seq<u64>,
}

/// Player `k` has a body, and all of it lies in the world.
pub open spec fn is_placed(a: Arena, k: u64) -> bool {
    &&& a.players.contains_key(k)
    &&& a.players[k].segments.len() > 0
    &&& all_on_grid(a.world, a.players[k].segments)
}

/// The rows of the world are equally long, and every living player is placed.
pub open spec fn is_steady(a: Arena) -> bool {
    &&& is_even(a.world)
    &&& forall|k: u64|
        #[trigger] a.players.contains_key(k) && a.players[k].alive ==> is_placed(a, k)
}

/// No living player has eaten so much that one more fruit could not be counted.
pub open spec fn can_score(a: Arena) -> bool {
    forall|k: u64|
        #[trigger] a.players.contains_key(k) && a.players[k].alive ==> a.players[k].score
            < usize::MAX
}

/// The square that player `k` enters next, if that is not outside the world.
pub open spec fn destination(a: Arena, k: u64) -> Option<(usize, usize)> {
    let p = a.players[k];
    next_cell(p.segments.last(), p.last_input, width(a.world), a.world.len() as int)
}

/// Player `k` is alive and would leave the world.
pub open spec fn crashes(a: Arena, k: u64) -> bool {
    a.players.contains_key(k) && a.players[k].alive && destination(a, k) is None
}

/// Player `k` is alive and stays in the world.
pub open spec fn rides(a: Arena, k: u64) -> bool {
    a.players.contains_key(k) && a.players[k].alive && destination(a, k) is Some
}

/// A body of one of the players in `ks` lies on column `x` of row `y`.
pub open spec fn lies_on(players: Map<u64, SnaekView>, ks: Set<u64>, x: int, y: int) -> bool {
    exists|k: u64|
        #[trigger] ks.contains(k) && players.contains_key(k) && covers(players[k].segments, x, y)
}

/// The arena after the death of the players in `ks`.
pub open spec fn slay(a: Arena, ks: Set<u64>) -> Arena {
    Arena {
        world: Seq::new(
            a.world.len(),
            |y: int|
                Seq::new(
                    a.world[y].len(),
                    |x: int|
                        if lies_on(a.players, ks, x, y) {
                            POOP
                        } else {
                            a.world[y][x]
                        },
                ),
        ),
        players: Map::new(
            |k: u64| a.players.contains_key(k),
            |k: u64|
                if ks.contains(k) {
                    SnaekView { alive: false, ..a.players[k] }
                } else {
                    a.players[k]
                },
        ),
    }
}

/// The arena after player `k` went to `cell`: the head is there, and the
/// square of the last segment is empty. A player who eats keeps that segment.
pub open spec fn advance(a: Arena, k: u64, cell: (usize, usize), eats: bool) -> Arena {
    let p = a.players[k];
    let tail = p.segments[0];
    let longer = p.segments.push(cell);
    let q = SnaekView {
        segments: if eats {
            longer
        } else {
            longer.drop_first()
        },
        score: if eats {
            p.score + 1
        } else {
            p.score
        },
        ..p
    };
    Arena {
        world: put(
            put(a.world, cell.0 as int, cell.1 as int, p.symbol),
            tail.0 as int,
            tail.1 as int,
            EMPTY,
        ),
        players: a.players.insert(k, q),
    }
}

/// The arena after player `k` alone came to `cell`: the player eats a fruit,
/// moves to an empty square, or dies of anything else. Who rests where they
/// are does not die of it.
pub open spec fn enter(a: Arena, k: u64, cell: (usize, usize)) -> Arena {
    let found = a.world[cell.1 as int][cell.0 as int];
    if found == FRUIT {
        advance(a, k, cell, true)
    } else if found == EMPTY {
        advance(a, k, cell, false)
    } else if a.players[k].last_input != ' ' {
        slay(a, set![k])
    } else {
        a
    }
}

/// The arena after everybody who came to one square has met there: one rider
/// enters it, several die.
pub open spec fn meet(a: Arena, head: HeadView) -> Arena {
    if head.riders.len() == 1 {
        enter(a, head.riders[0], head.cell)
    } else {
        slay(a, head.riders.to_set())
    }
}

/// The arena after the meetings, one after the other.
pub open spec fn resolve(a: Arena, heads: Seq<HeadView>) -> Arena
    decreases heads.len(),
{
    if heads.len() == 0 {
        a
    } else {
        meet(resolve(a, heads.drop_last()), heads.last())
    }
}

/// The heads list, for each square that a player of `ks` enters, the players
/// of `ks` who enter it.
pub open spec fn is_muster_of(a: Arena, heads: Seq<HeadView>, ks: Set<u64>) -> bool {
    &&& forall|i: int|
        0 <= i < heads.len() ==> (#[trigger] heads[i]).riders.len() > 0
            && heads[i].riders.no_duplicates()
    &&& forall|i: int, k: u64|
        0 <= i < heads.len() && #[trigger] heads[i].riders.contains(k) ==> {
            &&& ks.contains(k)
            &&& rides(a, k)
            &&& destination(a, k) == Some(heads[i].cell)
        }
    &&& forall|k: u64|
        #[trigger] rides(a, k) && ks.contains(k) ==> exists|i: int|
            0 <= i < heads.len() && (#[trigger] heads[i]).riders.contains(k)
    &&& forall|i: int, j: int|
        0 <= i < j < heads.len() ==> (#[trigger] heads[i]).cell != (#[trigger] heads[j]).cell
}

/// The heads list, for each square that a player enters, who enters it.
/// In which order the squares come is open.
pub open spec fn is_muster(a: Arena, heads: Seq<HeadView>) -> bool {
    is_muster_of(a, heads, a.players.dom())
}

/// The players who leave the world in this tick.
pub open spec fn crashers(a: Arena) -> Set<u64> {
    Set::new(|k: u64| crashes(a, k))
}

/// The arena `b` can follow the arena `a` after one tick: who leaves the world
/// dies, and then the others meet on the squares that they enter, square by
/// square.
pub open spec fn is_tick(a: Arena, b: Arena) -> bool {
    exists|heads: Seq<HeadView>|
        #[trigger] is_muster(a, heads) && b == resolve(slay(a, crashers(a)), heads)
}

/// The body of a living player lies on column `x` of row `y`.
pub open spec fn is_under_life(a: Arena, x: int, y: int) -> bool {
    exists|k: u64|
        #[trigger] a.players.contains_key(k) && a.players[k].alive && covers(
            a.players[k].segments,
            x,
            y,
        )
}

/// Column `x` of row `y` can take a new fruit: it is empty and lies under no
/// living body.
pub open spec fn is_free(a: Arena, x: int, y: int) -> bool {
    on_grid(a.world, x, y) && a.world[y][x] == EMPTY && !is_under_life(a, x, y)
}

/// The squares that can take a new fruit.
pub open spec fn free_squares(a: Arena) -> Set<(int, int)> {
    Set::new(|s: (int, int)| is_free(a, s.0, s.1))
}

/// The fruit count is too low: not a single fruit is left, so nobody could
/// score any more.
pub open spec fn is_low(g: Seq<Seq<char>>) -> bool {
    forall|x: int, y: int| #![trigger g[y][x]] on_grid(g, x, y) ==> g[y][x] != FRUIT
}

/// The arena `b` is the arena `m` with more fruit if the fruit count of `m` is
/// too low, and otherwise `m` itself.
///
/// New fruits lie on free squares. There are as many as a round starts with,
/// or one on every free square if those are fewer.
pub open spec fn is_refilled(m: Arena, b: Arena) -> bool {
    &&& b.players == m.players
    &&& same_shape(m.world, b.world)
    &&& forall|x: int, y: int|
        #![trigger b.world[y][x]]
        on_grid(m.world, x, y) ==> b.world[y][x] == m.world[y][x] || (is_free(m, x, y)
            && b.world[y][x] == FRUIT)
    &&& !is_low(m.world) ==> b.world == m.world
    &&& is_low(m.world) ==> squares_with(b.world, FRUIT).len() == if free_squares(m).len()
        < FRUITS {
        free_squares(m).len()
    } else {
        FRUITS as nat
    }
    &&& is_low(m.world) && (exists|x: int, y: int| is_free(m, x, y)) ==> squares_with(
        b.world,
        FRUIT,
    ).len() > squares_with(m.world, FRUIT).len()
}

/// The arena `b` can follow the arena `a` after everybody has moved and the
/// fruits have been counted.
pub open spec fn is_turn(a: Arena, b: Arena) -> bool {
    exists|m: Arena| #[trigger] is_tick(a, m) && is_refilled(m, b)
}

/// The meetings can be held: every square lies in the world, every rider is
/// placed, and nobody comes to two of them.
pub open spec fn is_lined_up(a: Arena, heads: Seq<HeadView>) -> bool {
    &&& is_even(a.world)
    &&& forall|i: int|
        0 <= i < heads.len() ==> on_grid(
            a.world,
            (#[trigger] heads[i]).cell.0 as int,
            heads[i].cell.1 as int,
        )
    &&& forall|i: int, k: u64|
        0 <= i < heads.len() && #[trigger] heads[i].riders.contains(k) ==> is_placed(a, k)
    &&& forall|i: int, j: int, k: u64|
        0 <= i < j < heads.len() && #[trigger] heads[i].riders.contains(k)
            ==> !#[trigger] heads[j].riders.contains(k)
}

/// No rider has eaten so much that one more fruit could not be counted.
pub open spec fn riders_can_score(a: Arena, heads: Seq<HeadView>) -> bool {
    forall|i: int, k: u64|
        0 <= i < heads.len() && #[trigger] heads[i].riders.contains(k) ==> a.players[k].score
            < usize::MAX
}

/// The worlds have the same squares.
pub open spec fn same_shape(g: Seq<Seq<char>>, h: Seq<Seq<char>>) -> bool {
    &&& g.len() == h.len()
    &&& forall|y: int|
        #![trigger g[y]]
        #![trigger h[y]]
        0 <= y < g.len() ==> g[y].len() == h[y].len()
}

/// What every step of a tick keeps: the squares of the world, who the players
/// are, and that who is placed stays placed. The step touches only `ks`.
pub open spec fn keeps_board(a: Arena, b: Arena, ks: Set<u64>) -> bool {
    &&& same_shape(a.world, b.world)
    &&& a.players.dom() == b.players.dom()
    &&& forall|k: u64| #[trigger] is_placed(a, k) ==> is_placed(b, k)
    &&& forall|k: u64|
        !ks.contains(k) && a.players.contains_key(k) ==> #[trigger] b.players[k] == a.players[k]
}

/// To slay players keeps the board.
pub proof fn lemma_slay_keeps_board(a: Arena, ks: Set<u64>)
    ensures
        keeps_board(a, slay(a, ks), ks),
{
    let b = slay(a, ks);
    assert(a.players.dom() =~= b.players.dom());
    assert forall|k: u64| #[trigger] is_placed(a, k) implies is_placed(b, k) by {
        assert(b.players[k].segments == a.players[k].segments);
    }
}

/// A meeting keeps the board.
pub proof fn lemma_meet_keeps_board(a: Arena, head: HeadView)
    requires
        is_lined_up(a, seq![head]),
    ensures
        keeps_board(a, meet(a, head), head.riders.to_set()),
{
    let one = seq![head];
    assert(one[0] == head);
    let b = meet(a, head);
    let ks = head.riders.to_set();
    if head.riders.len() == 1 {
        let k = head.riders[0];
        let cell = head.cell;
        assert(one[0].riders.contains(k));
        assert(ks.contains(k));
        let found = a.world[cell.1 as int][cell.0 as int];
        if found == FRUIT || found == EMPTY {
            let p = a.players[k];
            assert(a.players.dom() =~= b.players.dom());
            assert(same_shape(a.world, b.world));
            assert forall|j: u64| #[trigger] is_placed(a, j) implies is_placed(b, j) by {
                let s = a.players[j].segments;
                let t = b.players[j].segments;
                if j == k {
                    let longer = s.push(cell);
                    assert forall|i: int| 0 <= i < t.len() implies on_grid(
                        b.world,
                        (#[trigger] t[i]).0 as int,
                        t[i].1 as int,
                    ) by {
                        let at = if found == FRUIT {
                            i
                        } else {
                            i + 1
                        };
                        assert(t[i] == longer[at]);
                        if at < s.len() {
                            assert(s[at] == longer[at]);
                        }
                    }
                } else {
                    assert(s == t);
                }
            }
        } else {
            lemma_slay_keeps_board(a, set![k]);
        }
    } else {
        lemma_slay_keeps_board(a, ks);
    }
}

/// Somebody who comes to one of the first `n` meetings.
pub open spec fn comes_early(heads: Seq<HeadView>, n: int) -> Set<u64> {
    Set::new(|k: u64| exists|i: int| 0 <= i < n && #[trigger] heads[i].riders.contains(k))
}

/// The first meetings keep the board, and the next one can be held.
pub proof fn lemma_next_meeting(a: Arena, heads: Seq<HeadView>, n: int)
    requires
        is_lined_up(a, heads),
        0 <= n <= heads.len(),
    ensures
        keeps_board(a, resolve(a, heads.take(n)), comes_early(heads, n)),
        n < heads.len() ==> is_lined_up(resolve(a, heads.take(n)), seq![heads[n]]),
        n < heads.len() ==> forall|k: u64|
            #[trigger] heads[n].riders.contains(k) ==> resolve(a, heads.take(n)).players[k]
                == a.players[k],
    decreases n,
{
    let b = resolve(a, heads.take(n));
    if n == 0 {
        assert(b == a);
    } else {
        lemma_next_meeting(a, heads, n - 1);
        let c = resolve(a, heads.take(n - 1));
        assert(heads.take(n).drop_last() =~= heads.take(n - 1));
        assert(b == meet(c, heads[n - 1]));
        lemma_meet_keeps_board(c, heads[n - 1]);
        assert forall|k: u64|
            !comes_early(heads, n).contains(k) && a.players.contains_key(
                k,
            ) implies #[trigger] b.players[k] == a.players[k] by {
            assert(!heads[n - 1].riders.contains(k));
            assert(!comes_early(heads, n - 1).contains(k));
            assert(c.players.contains_key(k));
            assert(c.players[k] == a.players[k]);
        }
        assert forall|k: u64| #[trigger] is_placed(a, k) implies is_placed(b, k) by {
            assert(is_placed(c, k));
        }
    }
    if n < heads.len() {
        let one = seq![heads[n]];
        assert(one[0] == heads[n]);
        assert forall|i: int, k: u64|
            0 <= i < one.len() && #[trigger] one[i].riders.contains(k) implies is_placed(b, k)
            && b.players[k] == a.players[k] by {
            assert(heads[n].riders.contains(k));
            assert(is_placed(a, k));
            assert(!comes_early(heads, n).contains(k));
            assert(b.players[k] == a.players[k]);
        }
        assert forall|k: u64| #[trigger] heads[n].riders.contains(k) implies b.players[k]
            == a.players[k] by {
            assert(one[0].riders.contains(k));
        }
        assert forall|i: int|
            0 <= i < one.len() implies on_grid(
            b.world,
            (#[trigger] one[i]).cell.0 as int,
            one[i].cell.1 as int,
        ) by {
            assert(on_grid(a.world, heads[n].cell.0 as int, heads[n].cell.1 as int));
        }
    }
}

/// Who would not leave the world chose a square of it.
pub proof fn lemma_destination_on_grid(a: Arena, k: u64)
    requires
        is_steady(a),
        rides(a, k),
    ensures
        on_grid(a.world, destination(a, k).unwrap().0 as int, destination(a, k).unwrap().1 as int),
{
    let head = a.players[k].segments.last();
    assert(is_placed(a, k));
    assert(on_grid(a.world, head.0 as int, head.1 as int));
    let y = destination(a, k).unwrap().1 as int;
    assert(0 <= y < a.world.len());
    assert(a.world[y].len() == width(a.world));
    assert(a.world[head.1 as int].len() == width(a.world));
}

/// Once those who leave the world are dead, the meetings can be held.
pub proof fn lemma_muster_is_lined_up(a: Arena, heads: Seq<HeadView>)
    requires
        is_steady(a),
        is_muster(a, heads),
    ensures
        is_lined_up(slay(a, crashers(a)), heads),
        can_score(a) ==> riders_can_score(slay(a, crashers(a)), heads),
{
    let b = slay(a, crashers(a));
    lemma_slay_keeps_board(a, crashers(a));
    assert forall|i: int| 0 <= i < heads.len() implies on_grid(
        b.world,
        (#[trigger] heads[i]).cell.0 as int,
        heads[i].cell.1 as int,
    ) by {
        let k = heads[i].riders[0];
        assert(heads[i].riders.contains(k));
        lemma_destination_on_grid(a, k);
    }
    assert forall|i: int, k: u64|
        0 <= i < heads.len() && #[trigger] heads[i].riders.contains(k) implies is_placed(b, k)
        && (can_score(a) ==> b.players[k].score < usize::MAX) by {
        assert(a.players.contains_key(k));
        assert(is_placed(a, k));
    }
    assert forall|i: int, j: int, k: u64|
        0 <= i < j < heads.len() && #[trigger] heads[i].riders.contains(
            k,
        ) implies !#[trigger] heads[j].riders.contains(k) by {
        if heads[j].riders.contains(k) {
            assert(heads[i].cell == heads[j].cell);
        }
    }
}

} // verus!
