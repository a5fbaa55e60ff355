//! What a tick does to the squares of the world.

use vstd::prelude::*;
#[allow(unused_imports)]
use vstd::relations::injective_on;
#[allow(unused_imports)]
use vstd::set_lib::{lemma_len_subset, lemma_map_size, lemma_set_disjoint_lens};
#[allow(unused_imports)]
use crate::arena::{
    crashers, crashes, destination, is_lined_up, is_muster, is_placed, is_steady, is_tick,
    is_under_life, lemma_destination_on_grid, lies_on, meet, resolve, rides, Arena, HeadView,
};
#[allow(unused_imports)]
use crate::grid::{covers, lemma_squares_finite, on_grid, put, squares_with, EMPTY, FRUIT, POOP};
#[allow(unused_imports)]
use crate::laws::{is_fate, law_fates, law_tick_stays_steady, lemma_turn, thinned};
#[allow(unused_imports)]
use crate::snaek::SnaekView;

verus! {

/// Somebody enters column `x` of row `y` in this tick.
pub open spec fn is_entered(a: Arena, x: int, y: int) -> bool {
    exists|k: u64|
        #[trigger] rides(a, k) && destination(a, k).unwrap().0 == x && destination(
            a,
            k,
        ).unwrap().1 == y
}

/// Nobody else enters the square that player `k` enters.
pub open spec fn rides_alone(a: Arena, k: u64) -> bool {
    &&& rides(a, k)
    &&& forall|j: u64| #[trigger] rides(a, j) && destination(a, j) == destination(a, k) ==> j == k
}

/// A single rider's meeting is theirs alone, and only such a rider's is.
pub proof fn lemma_alone(a: Arena, heads: Seq<HeadView>, i: int, k: u64)
    requires
        is_muster(a, heads),
        0 <= i < heads.len(),
        heads[i].riders.contains(k),
    ensures
        heads[i].riders.len() == 1 <==> rides_alone(a, k),
        heads[i].riders.len() == 1 ==> heads[i].riders[0] == k,
{
    let riders = heads[i].riders;
    assert(rides(a, k));
    if riders.len() == 1 {
        assert(riders[0] == k);
        assert forall|j: u64|
            #[trigger] rides(a, j) && destination(a, j) == destination(a, k) implies j == k by {
            let m = choose|m: int| 0 <= m < heads.len() && (#[trigger] heads[m]).riders.contains(j);
            assert(heads[m].cell == heads[i].cell);
            assert(m == i);
        }
    } else {
        let at = choose|at: int| 0 <= at < riders.len() && riders[at] == k;
        let other: int = if at == 0 {
            1
        } else {
            0
        };
        let j = riders[other];
        assert(riders.contains(j));
        assert(j != k);
        assert(rides(a, j));
    }
}

/// What one meeting does to one square: it leaves a square alone on which no
/// rider's body lies and which is not the one that is entered; and what is
/// new on another square is poop, or nothing where a single rider's tail was.
proof fn lemma_meet_square(c: Arena, head: HeadView, x: int, y: int)
    requires
        is_lined_up(c, seq![head]),
        on_grid(c.world, x, y),
        !(head.cell.0 == x && head.cell.1 == y),
    ensures
        ({
            let d = meet(c, head).world[y][x];
            ||| d == c.world[y][x]
            ||| d == POOP && lies_on(c.players, head.riders.to_set(), x, y)
            ||| {
                &&& d == EMPTY
                &&& head.riders.len() == 1
                &&& c.players[head.riders[0]].segments[0].0 == x
                &&& c.players[head.riders[0]].segments[0].1 == y
                &&& lies_on(c.players, head.riders.to_set(), x, y)
            }
        }),
{
    let one = seq![head];
    assert(one[0] == head);
    if head.riders.len() == 1 {
        let k = head.riders[0];
        assert(one[0].riders.contains(k));
        assert(head.riders.to_set().contains(k));
        assert(is_placed(c, k));
        let p = c.players[k];
        let tail = p.segments[0];
        if tail.0 == x && tail.1 == y {
            assert(covers(p.segments, x, y));
        }
        assert(lies_on(c.players, set![k], x, y) ==> lies_on(
            c.players,
            head.riders.to_set(),
            x,
            y,
        ));
        let found = c.world[head.cell.1 as int][head.cell.0 as int];
        if found == FRUIT || found == EMPTY {
            let g = put(c.world, head.cell.0 as int, head.cell.1 as int, p.symbol);
            assert(on_grid(c.world, tail.0 as int, tail.1 as int));
            assert(on_grid(c.world, head.cell.0 as int, head.cell.1 as int));
            assert(g[y][x] == c.world[y][x]);
            assert(meet(c, head).world == put(g, tail.0 as int, tail.1 as int, EMPTY));
        }
    }
}

/// Those who leave the world stain only squares under living players.
proof fn lemma_thinned_square(a: Arena, x: int, y: int)
    requires
        on_grid(a.world, x, y),
    ensures
        thinned(a).world[y][x] == a.world[y][x] || (thinned(a).world[y][x] == POOP
            && is_under_life(a, x, y)),
{
    if lies_on(a.players, crashers(a), x, y) {
        let k = choose|k: u64| #[trigger]
            crashers(a).contains(k) && a.players.contains_key(k) && covers(
                a.players[k].segments,
                x,
                y,
            );
        assert(a.players.contains_key(k) && a.players[k].alive);
    }
}

/// In one of the meetings from `m` to before `n` a single rider comes whose
/// tail is on column `x` of row `y`.
pub open spec fn frees(a: Arena, heads: Seq<HeadView>, m: int, n: int, x: int, y: int) -> bool {
    exists|i: int|
        m <= i < n && (#[trigger] heads[i]).riders.len() == 1
            && a.players[heads[i].riders[0]].segments[0].0 == x
            && a.players[heads[i].riders[0]].segments[0].1 == y
}

/// The body of somebody who comes to one of the meetings from `m` to before
/// `n` lies on column `x` of row `y`.
pub open spec fn brings(a: Arena, heads: Seq<HeadView>, m: int, n: int, x: int, y: int) -> bool {
    exists|i: int, k: u64|
        m <= i < n && #[trigger] heads[i].riders.contains(k) && covers(
            a.players[k].segments,
            x,
            y,
        )
}

/// Who comes to a meeting is alive.
proof fn lemma_brings_life(a: Arena, heads: Seq<HeadView>, m: int, n: int, x: int, y: int)
    requires
        is_muster(a, heads),
        0 <= m <= n <= heads.len(),
        brings(a, heads, m, n, x, y),
    ensures
        is_under_life(a, x, y),
{
    let (i, k) = choose|i: int, k: u64|
        m <= i < n && #[trigger] heads[i].riders.contains(k) && covers(
            a.players[k].segments,
            x,
            y,
        );
    assert(rides(a, k));
    assert(a.players.contains_key(k) && a.players[k].alive);
}

/// What the meetings from `m` to before `n` do to a square that none of them
/// is about.
pub proof fn lemma_square_between(
    a: Arena,
    heads: Seq<HeadView>,
    m: int,
    n: int,
    x: int,
    y: int,
)
    requires
        is_steady(a),
        is_muster(a, heads),
        0 <= m <= n <= heads.len(),
        on_grid(a.world, x, y),
        forall|i: int|
            m <= i < n ==> !((#[trigger] heads[i]).cell.0 == x && heads[i].cell.1 == y),
    ensures
        ({
            let before = resolve(thinned(a), heads.take(m)).world[y][x];
            let after = resolve(thinned(a), heads.take(n)).world[y][x];
            ||| after == before
            ||| brings(a, heads, m, n, x, y) && after == POOP
            ||| brings(a, heads, m, n, x, y) && after == EMPTY && frees(a, heads, m, n, x, y)
        }),
        brings(a, heads, m, n, x, y) ==> is_under_life(a, x, y),
    decreases n,
{
    if m < n {
        lemma_square_between(a, heads, m, n - 1, x, y);
        let head = heads[n - 1];
        let k = head.riders[0];
        assert(head.riders.contains(k));
        lemma_turn(a, heads, n - 1, k);
        let c = resolve(thinned(a), heads.take(n - 1));
        assert(heads.take(n).drop_last() =~= heads.take(n - 1));
        lemma_meet_square(c, head, x, y);
        if lies_on(c.players, head.riders.to_set(), x, y) {
            let j = choose|j: u64| #[trigger]
                head.riders.to_set().contains(j) && c.players.contains_key(j) && covers(
                    c.players[j].segments,
                    x,
                    y,
                );
            assert(heads[n - 1].riders.contains(j));
            lemma_turn(a, heads, n - 1, j);
            assert(brings(a, heads, m, n, x, y));
        }
        if frees(a, heads, m, n - 1, x, y) {
            let i = choose|i: int|
                m <= i < n - 1 && (#[trigger] heads[i]).riders.len() == 1
                    && a.players[heads[i].riders[0]].segments[0].0 == x
                    && a.players[heads[i].riders[0]].segments[0].1 == y;
            assert(m <= i < n && heads[i].riders.len() == 1);
        }
        if brings(a, heads, m, n - 1, x, y) {
            let (i, j) = choose|i: int, j: u64|
                m <= i < n - 1 && #[trigger] heads[i].riders.contains(j) && covers(
                    a.players[j].segments,
                    x,
                    y,
                );
            assert(m <= i < n && heads[i].riders.contains(j));
        }
    }
    if brings(a, heads, m, n, x, y) {
        lemma_brings_life(a, heads, m, n, x, y);
    }
}

/// A square changes while everybody moves only if a living player's body lies
/// on it or somebody enters it.
pub proof fn law_other_squares_stay(a: Arena, b: Arena, x: int, y: int)
    requires
        is_steady(a),
        is_tick(a, b),
        on_grid(a.world, x, y),
        !is_under_life(a, x, y),
        !is_entered(a, x, y),
    ensures
        b.world[y][x] == a.world[y][x],
{
    let heads = choose|heads: Seq<HeadView>|
        #[trigger] is_muster(a, heads) && b == resolve(thinned(a), heads);
    let n = heads.len() as int;
    assert forall|i: int| 0 <= i < n implies !((#[trigger] heads[i]).cell.0 == x
        && heads[i].cell.1 == y) by {
        let k = heads[i].riders[0];
        assert(heads[i].riders.contains(k));
        assert(rides(a, k));
    }
    lemma_thinned_square(a, x, y);
    lemma_square_between(a, heads, 0, n, x, y);
    assert(heads.take(0) =~= Seq::<HeadView>::empty());
    assert(heads.take(n) =~= heads);
}

/// What lies before a rider at their turn: what lay there before the tick,
/// unless a living player's body was on it.
pub proof fn lemma_square_at_turn(a: Arena, heads: Seq<HeadView>, i: int, x: int, y: int)
    requires
        is_steady(a),
        is_muster(a, heads),
        0 <= i < heads.len(),
        heads[i].cell.0 == x,
        heads[i].cell.1 == y,
        on_grid(a.world, x, y),
    ensures
        ({
            let found = resolve(thinned(a), heads.take(i)).world[y][x];
            ||| found == a.world[y][x]
            ||| is_under_life(a, x, y) && found == POOP
            ||| is_under_life(a, x, y) && found == EMPTY && frees(a, heads, 0, i, x, y)
        }),
{
    assert forall|j: int| 0 <= j < i implies !((#[trigger] heads[j]).cell.0 == x
        && heads[j].cell.1 == y) by {
        assert(heads[j].cell != heads[i].cell);
    }
    lemma_thinned_square(a, x, y);
    lemma_square_between(a, heads, 0, i, x, y);
    assert(heads.take(0) =~= Seq::<HeadView>::empty());
}

/// Who alone enters a square that is empty or holds a fruit, and on which no
/// living player's body lies, arrives there alive, eats the fruit, and marks
/// the square.
pub proof fn law_free_square_is_taken(a: Arena, b: Arena, k: u64)
    requires
        is_steady(a),
        is_tick(a, b),
        rides_alone(a, k),
        ({
            let cell = destination(a, k).unwrap();
            let found = a.world[cell.1 as int][cell.0 as int];
            &&& found == EMPTY || found == FRUIT
            &&& !is_under_life(a, cell.0 as int, cell.1 as int)
        }),
    ensures
        ({
            let p = a.players[k];
            let cell = destination(a, k).unwrap();
            if a.world[cell.1 as int][cell.0 as int] == FRUIT {
                b.players[k] == (SnaekView {
                    segments: p.segments.push(cell),
                    score: p.score + 1,
                    ..p
                })
            } else {
                b.players[k] == (SnaekView { segments: p.segments.push(cell).drop_first(), ..p })
            }
        }),
        b.world[destination(a, k).unwrap().1 as int][destination(a, k).unwrap().0 as int]
            == a.players[k].symbol,
{
    let heads = choose|heads: Seq<HeadView>|
        #[trigger] is_muster(a, heads) && b == resolve(thinned(a), heads);
    let i = choose|i: int| 0 <= i < heads.len() && (#[trigger] heads[i]).riders.contains(k);
    let cell = destination(a, k).unwrap();
    lemma_destination_on_grid(a, k);
    lemma_alone(a, heads, i, k);
    lemma_turn(a, heads, i, k);
    lemma_square_at_turn(a, heads, i, cell.0 as int, cell.1 as int);
    let n = heads.len() as int;
    assert forall|j: int| i + 1 <= j < n implies !((#[trigger] heads[j]).cell.0 == cell.0
        && heads[j].cell.1 == cell.1) by {
        assert(heads[i].cell != heads[j].cell);
    }
    lemma_square_between(a, heads, i + 1, n, cell.0 as int, cell.1 as int);
    assert(heads.take(i + 1).drop_last() =~= heads.take(i));
    assert(heads.take(n) =~= heads);
    let tail = a.players[k].segments[0];
    assert(is_placed(a, k));
    assert(on_grid(a.world, tail.0 as int, tail.1 as int));
    assert(tail != cell) by {
        if tail == cell {
            assert(covers(a.players[k].segments, cell.0 as int, cell.1 as int));
            assert(a.players.contains_key(k) && a.players[k].alive);
        }
    }
}

/// A player who moves and lives leaves the square of their tail empty, unless
/// somebody enters it or another living player's body lies on it.
pub proof fn law_tail_square_is_left(a: Arena, b: Arena, k: u64)
    requires
        is_steady(a),
        is_tick(a, b),
        rides(a, k),
        a.players[k].last_input != ' ',
        b.players[k].alive,
        ({
            let tail = a.players[k].segments[0];
            &&& !is_entered(a, tail.0 as int, tail.1 as int)
            &&& forall|j: u64|
                j != k && #[trigger] a.players.contains_key(j) && a.players[j].alive ==> !covers(
                    a.players[j].segments,
                    tail.0 as int,
                    tail.1 as int,
                )
        }),
    ensures
        b.world[a.players[k].segments[0].1 as int][a.players[k].segments[0].0 as int] == EMPTY,
{
    let heads = choose|heads: Seq<HeadView>|
        #[trigger] is_muster(a, heads) && b == resolve(thinned(a), heads);
    let n = heads.len() as int;
    let i = choose|i: int| 0 <= i < heads.len() && (#[trigger] heads[i]).riders.contains(k);
    let tail = a.players[k].segments[0];
    let x = tail.0 as int;
    let y = tail.1 as int;
    lemma_alone(a, heads, i, k);
    lemma_turn(a, heads, i, k);
    assert(is_placed(a, k));
    assert(on_grid(a.world, x, y));
    if heads[i].riders.len() != 1 {
        assert(heads[i].riders.to_set().contains(k));
    }
    let c = resolve(thinned(a), heads.take(i));
    assert(heads.take(i + 1).drop_last() =~= heads.take(i));
    assert(heads.take(n) =~= heads);
    assert(set![k].contains(k));
    lemma_destination_on_grid(a, k);
    assert(meet(c, heads[i]).world[y][x] == EMPTY);
    assert forall|j: int| i + 1 <= j < n implies !((#[trigger] heads[j]).cell.0 == x
        && heads[j].cell.1 == y) by {
        let m = heads[j].riders[0];
        assert(heads[j].riders.contains(m));
        assert(rides(a, m));
    }
    lemma_square_between(a, heads, i + 1, n, x, y);
    if brings(a, heads, i + 1, n, x, y) {
        let (m, j) = choose|m: int, j: u64|
            i + 1 <= m < n && #[trigger] heads[m].riders.contains(j) && covers(
                a.players[j].segments,
                x,
                y,
            );
        assert(heads[m].cell != heads[i].cell);
        assert(rides(a, j));
        assert(j != k);
        assert(a.players.contains_key(j));
    }
}

/// Who moves to a square that holds neither a fruit nor nothing, and from
/// which no other living player's tail can move away, dies.
pub proof fn law_blocked_square_kills(a: Arena, b: Arena, k: u64)
    requires
        is_steady(a),
        is_tick(a, b),
        rides(a, k),
        a.players[k].last_input != ' ',
        ({
            let cell = destination(a, k).unwrap();
            let found = a.world[cell.1 as int][cell.0 as int];
            &&& found != EMPTY && found != FRUIT
            &&& forall|j: u64|
                j != k && #[trigger] rides(a, j) ==> a.players[j].segments[0] != cell
        }),
    ensures
        b.players[k] == (SnaekView { alive: false, ..a.players[k] }),
{
    let heads = choose|heads: Seq<HeadView>|
        #[trigger] is_muster(a, heads) && b == resolve(thinned(a), heads);
    let i = choose|i: int| 0 <= i < heads.len() && (#[trigger] heads[i]).riders.contains(k);
    let cell = destination(a, k).unwrap();
    let x = cell.0 as int;
    let y = cell.1 as int;
    lemma_destination_on_grid(a, k);
    lemma_alone(a, heads, i, k);
    lemma_turn(a, heads, i, k);
    lemma_square_at_turn(a, heads, i, x, y);
    if frees(a, heads, 0, i, x, y) {
        let m = choose|m: int|
            0 <= m < i && (#[trigger] heads[m]).riders.len() == 1
                && a.players[heads[m].riders[0]].segments[0].0 == x
                && a.players[heads[m].riders[0]].segments[0].1 == y;
        let j = heads[m].riders[0];
        assert(heads[m].riders.contains(j));
        assert(rides(a, j));
        assert(heads[m].cell != heads[i].cell);
        assert(j != k);
        assert(false);
    }
    if heads[i].riders.len() != 1 {
        assert(heads[i].riders.to_set().contains(k));
    }
}

/// Poop stays through the meetings from `m` to before `n`, unless a tail
/// lies on it too.
proof fn lemma_poop_between(a: Arena, heads: Seq<HeadView>, m: int, n: int, x: int, y: int)
    requires
        is_steady(a),
        is_muster(a, heads),
        0 <= m <= n <= heads.len(),
        on_grid(a.world, x, y),
        resolve(thinned(a), heads.take(m)).world[y][x] == POOP,
        !frees(a, heads, m, n, x, y),
    ensures
        resolve(thinned(a), heads.take(n)).world[y][x] == POOP,
    decreases n,
{
    if m < n {
        if frees(a, heads, m, n - 1, x, y) {
            let i = choose|i: int|
                m <= i < n - 1 && (#[trigger] heads[i]).riders.len() == 1
                    && a.players[heads[i].riders[0]].segments[0].0 == x
                    && a.players[heads[i].riders[0]].segments[0].1 == y;
            assert(m <= i < n && heads[i].riders.len() == 1);
        }
        lemma_poop_between(a, heads, m, n - 1, x, y);
        let head = heads[n - 1];
        let k = head.riders[0];
        assert(head.riders.contains(k));
        lemma_turn(a, heads, n - 1, k);
        let c = resolve(thinned(a), heads.take(n - 1));
        assert(heads.take(n).drop_last() =~= heads.take(n - 1));
        assert(c.world[y][x] == POOP);
        if !(head.cell.0 == x && head.cell.1 == y) {
            lemma_meet_square(c, head, x, y);
        }
    }
}

/// Poop stays where it is, unless the tail of a player who moves lies on it.
pub proof fn law_poop_stays(a: Arena, b: Arena, x: int, y: int)
    requires
        is_steady(a),
        is_tick(a, b),
        on_grid(a.world, x, y),
        a.world[y][x] == POOP,
        forall|j: u64| #[trigger]
            rides(a, j) ==> !(a.players[j].segments[0].0 == x && a.players[j].segments[0].1 == y),
    ensures
        b.world[y][x] == POOP,
{
    let heads = choose|heads: Seq<HeadView>|
        #[trigger] is_muster(a, heads) && b == resolve(thinned(a), heads);
    let n = heads.len() as int;
    assert(heads.take(0) =~= Seq::<HeadView>::empty());
    assert(heads.take(n) =~= heads);
    lemma_thinned_square(a, x, y);
    if frees(a, heads, 0, n, x, y) {
        let i = lemma_frees_by_rider(a, heads, 0, n, x, y);
    }
    lemma_poop_between(a, heads, 0, n, x, y);
}

/// Who frees a square is a rider.
proof fn lemma_frees_by_rider(
    a: Arena,
    heads: Seq<HeadView>,
    m: int,
    n: int,
    x: int,
    y: int,
) -> (i: int)
    requires
        is_muster(a, heads),
        0 <= m <= n <= heads.len(),
        frees(a, heads, m, n, x, y),
    ensures
        m <= i < n,
        heads[i].riders.contains(heads[i].riders[0]),
        rides(a, heads[i].riders[0]),
        a.players[heads[i].riders[0]].segments[0].0 == x,
        a.players[heads[i].riders[0]].segments[0].1 == y,
{
    let i = choose|i: int|
        m <= i < n && (#[trigger] heads[i]).riders.len() == 1
            && a.players[heads[i].riders[0]].segments[0].0 == x
            && a.players[heads[i].riders[0]].segments[0].1 == y;
    assert(heads[i].riders.contains(heads[i].riders[0]));
    i
}

/// Who dies leaves poop on every square of the body, except where the tail of
/// another player who moves lies too.
pub proof fn law_death_leaves_poop(a: Arena, b: Arena, k: u64, x: int, y: int)
    requires
        is_steady(a),
        is_tick(a, b),
        a.players.contains_key(k),
        a.players[k].alive,
        !b.players[k].alive,
        covers(a.players[k].segments, x, y),
        forall|j: u64|
            j != k && #[trigger] rides(a, j) ==> !(a.players[j].segments[0].0 == x
                && a.players[j].segments[0].1 == y),
    ensures
        b.world[y][x] == POOP,
{
    let heads = choose|heads: Seq<HeadView>|
        #[trigger] is_muster(a, heads) && b == resolve(thinned(a), heads);
    let n = heads.len() as int;
    assert(heads.take(0) =~= Seq::<HeadView>::empty());
    assert(heads.take(n) =~= heads);
    assert(is_placed(a, k));
    assert(on_grid(a.world, x, y)) by {
        let s = a.players[k].segments;
        let i = choose|i: int| 0 <= i < s.len() && (#[trigger] s[i]).0 == x && s[i].1 == y;
        assert(on_grid(a.world, s[i].0 as int, s[i].1 as int));
    }
    if rides(a, k) {
        let i = choose|i: int| 0 <= i < heads.len() && (#[trigger] heads[i]).riders.contains(k);
        lemma_turn(a, heads, i, k);
        lemma_alone(a, heads, i, k);
        let c = resolve(thinned(a), heads.take(i));
        let d = meet(c, heads[i]);
        assert(heads.take(i + 1).drop_last() =~= heads.take(i));
        assert(d == resolve(thinned(a), heads.take(i + 1)));
        assert(!d.players[k].alive);
        assert(heads[i].riders.to_set().contains(k));
        assert(set![k].contains(k));
        assert(c.players.contains_key(k));
        assert(lies_on(c.players, heads[i].riders.to_set(), x, y));
        assert(lies_on(c.players, set![k], x, y));
        assert(on_grid(c.world, x, y));
        assert(d.world[y][x] == POOP);
        if frees(a, heads, i + 1, n, x, y) {
            let m = lemma_frees_by_rider(a, heads, i + 1, n, x, y);
            let j = heads[m].riders[0];
            assert(heads[i].cell != heads[m].cell);
            assert(j != k);
        }
        lemma_poop_between(a, heads, i + 1, n, x, y);
    } else {
        assert(crashers(a).contains(k));
        assert(lies_on(a.players, crashers(a), x, y));
        if frees(a, heads, 0, n, x, y) {
            let m = lemma_frees_by_rider(a, heads, 0, n, x, y);
        }
        lemma_poop_between(a, heads, 0, n, x, y);
    }
}

/// A square that is neither empty nor a fruit and lies under no living body
/// stays through the first `n` meetings.
proof fn lemma_fixed_until(a: Arena, heads: Seq<HeadView>, n: int, x: int, y: int)
    requires
        is_steady(a),
        is_muster(a, heads),
        0 <= n <= heads.len(),
        on_grid(a.world, x, y),
        a.world[y][x] != EMPTY,
        a.world[y][x] != FRUIT,
        !is_under_life(a, x, y),
    ensures
        resolve(thinned(a), heads.take(n)).world[y][x] == a.world[y][x],
    decreases n,
{
    if n == 0 {
        lemma_thinned_square(a, x, y);
        assert(heads.take(0) =~= Seq::<HeadView>::empty());
    } else {
        lemma_fixed_until(a, heads, n - 1, x, y);
        let head = heads[n - 1];
        let k = head.riders[0];
        assert(head.riders.contains(k));
        lemma_turn(a, heads, n - 1, k);
        let c = resolve(thinned(a), heads.take(n - 1));
        assert(heads.take(n).drop_last() =~= heads.take(n - 1));
        assert(!lies_on(c.players, head.riders.to_set(), x, y)) by {
            if lies_on(c.players, head.riders.to_set(), x, y) {
                let j = choose|j: u64| #[trigger]
                    head.riders.to_set().contains(j) && c.players.contains_key(j) && covers(
                        c.players[j].segments,
                        x,
                        y,
                    );
                assert(heads[n - 1].riders.contains(j));
                lemma_turn(a, heads, n - 1, j);
                assert(brings(a, heads, n - 1, n, x, y));
                lemma_brings_life(a, heads, n - 1, n, x, y);
            }
        }
        assert(on_grid(c.world, x, y));
        if head.cell.0 == x && head.cell.1 == y {
            if head.riders.len() == 1 {
                assert(head.riders.to_set().contains(k));
                assert(!lies_on(c.players, set![k], x, y));
            }
        } else {
            lemma_meet_square(c, head, x, y);
        }
    }
}

/// A square that is neither empty nor a fruit, and on which no living
/// player's body lies, keeps what it shows.
pub proof fn law_fixed_squares_stay(a: Arena, b: Arena, x: int, y: int)
    requires
        is_steady(a),
        is_tick(a, b),
        on_grid(a.world, x, y),
        a.world[y][x] != EMPTY,
        a.world[y][x] != FRUIT,
        !is_under_life(a, x, y),
    ensures
        b.world[y][x] == a.world[y][x],
{
    let heads = choose|heads: Seq<HeadView>|
        #[trigger] is_muster(a, heads) && b == resolve(thinned(a), heads);
    lemma_fixed_until(a, heads, heads.len() as int, x, y);
    assert(heads.take(heads.len() as int) =~= heads);
}

/// Who steers onto a square of a snaek that leaves the world in the same tick
/// dies, where no other living player's body lies on that square.
pub proof fn law_crashed_bodies_kill(a: Arena, b: Arena, j: u64, k: u64)
    requires
        is_steady(a),
        is_tick(a, b),
        crashes(a, j),
        rides(a, k),
        a.players[k].last_input != ' ',
        ({
            let cell = destination(a, k).unwrap();
            &&& covers(a.players[j].segments, cell.0 as int, cell.1 as int)
            &&& forall|i: u64|
                i != j && #[trigger] a.players.contains_key(i) && a.players[i].alive ==> !covers(
                    a.players[i].segments,
                    cell.0 as int,
                    cell.1 as int,
                )
        }),
    ensures
        b.players[k] == (SnaekView { alive: false, ..a.players[k] }),
{
    let heads = choose|heads: Seq<HeadView>|
        #[trigger] is_muster(a, heads) && b == resolve(thinned(a), heads);
    let i = choose|i: int| 0 <= i < heads.len() && (#[trigger] heads[i]).riders.contains(k);
    let cell = destination(a, k).unwrap();
    let x = cell.0 as int;
    let y = cell.1 as int;
    lemma_destination_on_grid(a, k);
    lemma_alone(a, heads, i, k);
    lemma_turn(a, heads, i, k);
    assert(heads.take(0) =~= Seq::<HeadView>::empty());
    assert(crashers(a).contains(j));
    assert(lies_on(a.players, crashers(a), x, y));
    assert(thinned(a).world[y][x] == POOP);
    if frees(a, heads, 0, i, x, y) {
        let m = lemma_frees_by_rider(a, heads, 0, i, x, y);
        let r = heads[m].riders[0];
        assert(rides(a, r));
        assert(a.players.contains_key(r));
        assert(is_placed(a, r));
        assert(covers(a.players[r].segments, x, y));
    }
    lemma_poop_between(a, heads, 0, i, x, y);
    if heads[i].riders.len() != 1 {
        assert(heads[i].riders.to_set().contains(k));
    }
}

/// Everybody who lives rests, no two of them with their heads on one square,
/// and each head is on a square that is neither empty nor a fruit.
pub open spec fn is_waiting(a: Arena) -> bool {
    &&& forall|k: u64|
        #[trigger] a.players.contains_key(k) && a.players[k].alive ==> {
            let head = a.players[k].segments.last();
            let shown = a.world[head.1 as int][head.0 as int];
            a.players[k].last_input == ' ' && shown != EMPTY && shown != FRUIT
        }
    &&& forall|j: u64, k: u64|
        #![trigger a.players.contains_key(j), a.players.contains_key(k)]
        a.players.contains_key(j) && a.players.contains_key(k) && a.players[j].alive
            && a.players[k].alive && j != k ==> a.players[j].segments.last()
            != a.players[k].segments.last()
}

/// The meetings of players who wait change nothing.
proof fn lemma_waiting_until(a: Arena, heads: Seq<HeadView>, n: int)
    requires
        is_steady(a),
        is_waiting(a),
        is_muster(a, heads),
        0 <= n <= heads.len(),
    ensures
        resolve(thinned(a), heads.take(n)) == a,
    decreases n,
{
    if n == 0 {
        assert(heads.take(0) =~= Seq::<HeadView>::empty());
        assert(crashers(a) =~= Set::<u64>::empty()) by {
            assert forall|k: u64| !crashers(a).contains(k) by {
                if crashes(a, k) {
                    assert(a.players.contains_key(k));
                }
            }
        }
        assert(thinned(a) =~~= a);
    } else {
        lemma_waiting_until(a, heads, n - 1);
        assert(heads.take(n).drop_last() =~= heads.take(n - 1));
        let k = heads[n - 1].riders[0];
        assert(heads[n - 1].riders.contains(k));
        assert(rides(a, k));
        assert(a.players.contains_key(k));
        assert(rides_alone(a, k)) by {
            assert forall|j: u64|
                #[trigger] rides(a, j) && destination(a, j) == destination(a, k) implies j == k by {
                assert(a.players.contains_key(j));
            }
        }
        lemma_alone(a, heads, n - 1, k);
    }
}

/// Players who wait change nothing: nobody moves, dies or scores.
pub proof fn law_waiting_changes_nothing(a: Arena, b: Arena)
    requires
        is_steady(a),
        is_waiting(a),
        is_tick(a, b),
    ensures
        b == a,
{
    let heads = choose|heads: Seq<HeadView>|
        #[trigger] is_muster(a, heads) && b == resolve(thinned(a), heads);
    lemma_waiting_until(a, heads, heads.len() as int);
    assert(heads.take(heads.len() as int) =~= heads);
}

/// No living player's body lies on a fruit, and none of them looks like one.
pub open spec fn fruit_is_apart(a: Arena) -> bool {
    &&& forall|x: int, y: int|
        on_grid(a.world, x, y) && #[trigger] is_under_life(a, x, y) ==> a.world[y][x] != FRUIT
    &&& forall|k: u64|
        #[trigger] a.players.contains_key(k) && a.players[k].alive ==> a.players[k].symbol != FRUIT
}

/// The square that player `k` enters holds a fruit.
pub open spec fn faces_fruit(a: Arena, k: u64) -> bool {
    let cell = destination(a, k).unwrap();
    a.world[cell.1 as int][cell.0 as int] == FRUIT
}

/// A player scores exactly when they alone enter a square with a fruit.
pub proof fn law_fruit_scores(a: Arena, b: Arena, k: u64)
    requires
        is_steady(a),
        is_tick(a, b),
        fruit_is_apart(a),
        a.players.contains_key(k),
    ensures
        b.players[k].score == if rides_alone(a, k) && faces_fruit(a, k) {
            a.players[k].score + 1
        } else {
            a.players[k].score
        },
{
    law_fates(a, b);
    if rides(a, k) {
        let heads = choose|heads: Seq<HeadView>|
            #[trigger] is_muster(a, heads) && b == resolve(thinned(a), heads);
        let i = choose|i: int| 0 <= i < heads.len() && (#[trigger] heads[i]).riders.contains(k);
        let cell = destination(a, k).unwrap();
        lemma_destination_on_grid(a, k);
        lemma_alone(a, heads, i, k);
        lemma_turn(a, heads, i, k);
        lemma_square_at_turn(a, heads, i, cell.0 as int, cell.1 as int);
        if heads[i].riders.len() != 1 {
            assert(heads[i].riders.to_set().contains(k));
        }
    }
}

/// One player alone enters column `x` of row `y`.
pub open spec fn is_taken(a: Arena, x: int, y: int) -> bool {
    exists|k: u64|
        #[trigger] rides_alone(a, k) && destination(a, k).unwrap().0 == x && destination(
            a,
            k,
        ).unwrap().1 == y
}

/// While everybody moves, a fruit goes exactly when one player alone enters
/// its square. New ones come only after that.
pub proof fn law_fruit_stays(a: Arena, b: Arena, x: int, y: int)
    requires
        is_steady(a),
        is_tick(a, b),
        fruit_is_apart(a),
        on_grid(a.world, x, y),
    ensures
        b.world[y][x] == FRUIT <==> a.world[y][x] == FRUIT && !is_taken(a, x, y),
{
    let heads = choose|heads: Seq<HeadView>|
        #[trigger] is_muster(a, heads) && b == resolve(thinned(a), heads);
    let n = heads.len() as int;
    assert(heads.take(0) =~= Seq::<HeadView>::empty());
    assert(heads.take(n) =~= heads);
    if is_entered(a, x, y) {
        let k = choose|k: u64| #[trigger]
            rides(a, k) && destination(a, k).unwrap().0 == x && destination(a, k).unwrap().1 == y;
        let i = choose|i: int| 0 <= i < heads.len() && (#[trigger] heads[i]).riders.contains(k);
        lemma_alone(a, heads, i, k);
        lemma_turn(a, heads, i, k);
        lemma_square_at_turn(a, heads, i, x, y);
        assert forall|j: int| i + 1 <= j < n implies !((#[trigger] heads[j]).cell.0 == x
            && heads[j].cell.1 == y) by {
            assert(heads[i].cell != heads[j].cell);
        }
        lemma_square_between(a, heads, i + 1, n, x, y);
        assert(heads.take(i + 1).drop_last() =~= heads.take(i));
        let c = resolve(thinned(a), heads.take(i));
        let d = meet(c, heads[i]);
        assert(d == resolve(thinned(a), heads.take(i + 1)));
        let p = a.players[k];
        assert(is_placed(a, k));
        let tail = p.segments[0];
        assert(on_grid(a.world, tail.0 as int, tail.1 as int));
        if heads[i].riders.len() == 1 {
            assert(is_taken(a, x, y));
            assert(p.symbol != FRUIT);
            assert(d.world[y][x] != FRUIT);
        } else {
            assert(!is_taken(a, x, y)) by {
                if is_taken(a, x, y) {
                    let j = choose|j: u64| #[trigger]
                        rides_alone(a, j) && destination(a, j).unwrap().0 == x && destination(
                            a,
                            j,
                        ).unwrap().1 == y;
                    assert(destination(a, k) == destination(a, j));
                    assert(j == k);
                }
            }
            if lies_on(c.players, heads[i].riders.to_set(), x, y) {
                let j = choose|j: u64| #[trigger]
                    heads[i].riders.to_set().contains(j) && c.players.contains_key(j) && covers(
                        c.players[j].segments,
                        x,
                        y,
                    );
                assert(heads[i].riders.contains(j));
                lemma_turn(a, heads, i, j);
                assert(rides(a, j));
                assert(a.players.contains_key(j));
                assert(is_under_life(a, x, y));
            }
        }
    } else {
        assert(!is_taken(a, x, y));
        assert forall|i: int| 0 <= i < n implies !((#[trigger] heads[i]).cell.0 == x
            && heads[i].cell.1 == y) by {
            let k = heads[i].riders[0];
            assert(heads[i].riders.contains(k));
            assert(rides(a, k));
        }
        lemma_thinned_square(a, x, y);
        lemma_square_between(a, heads, 0, n, x, y);
    }
}

/// After a tick, too, no living player's body lies on a fruit.
pub proof fn law_fruit_stays_apart(a: Arena, b: Arena)
    requires
        is_steady(a),
        is_tick(a, b),
        fruit_is_apart(a),
    ensures
        fruit_is_apart(b),
{
    law_fates(a, b);
    assert forall|x: int, y: int|
        on_grid(b.world, x, y) && #[trigger] is_under_life(b, x, y) implies b.world[y][x]
        != FRUIT by {
        let k = choose|k: u64| #[trigger]
            b.players.contains_key(k) && b.players[k].alive && covers(b.players[k].segments, x, y);
        assert(a.players.contains_key(k));
        assert(is_fate(a, k, b.players[k]));
        assert(on_grid(a.world, x, y)) by {
            assert(a.world[y].len() == b.world[y].len());
        }
        law_fruit_stays(a, b, x, y);
        let s = a.players[k].segments;
        let t = b.players[k].segments;
        if covers(s, x, y) {
            assert(is_under_life(a, x, y));
        } else {
            assert(rides(a, k));
            let cell = destination(a, k).unwrap();
            let longer = s.push(cell);
            let i = choose|i: int| 0 <= i < t.len() && (#[trigger] t[i]).0 == x && t[i].1 == y;
            let at = if t.len() == longer.len() {
                i
            } else {
                i + 1
            };
            assert(t != s) by {
                if t == s {
                    assert(covers(s, x, y));
                }
            }
            assert(t[i] == longer[at]);
            if at < s.len() {
                assert(s[at] == longer[at]);
                assert(covers(s, x, y));
            }
            assert(t[i] == cell);
            if !rides_alone(a, k) {
                let j = choose|j: u64| #[trigger]
                    rides(a, j) && destination(a, j) == destination(a, k) && j != k;
                crate::laws::law_meeting_heads_die(a, b, j, k);
            }
            assert(is_taken(a, x, y));
        }
    }
    assert forall|k: u64| #[trigger] b.players.contains_key(k) && b.players[k].alive implies
        b.players[k].symbol != FRUIT by {
        assert(a.players.contains_key(k));
        assert(is_fate(a, k, b.players[k]));
    }
}

/// Who scores in this tick.
pub open spec fn scorers(a: Arena, b: Arena) -> Set<u64> {
    Set::new(|k: u64| a.players.contains_key(k) && b.players[k].score > a.players[k].score)
}

/// As many fruits go while everybody moves as players score.
pub proof fn law_points_are_fruits(a: Arena, b: Arena)
    requires
        is_steady(a),
        is_tick(a, b),
        fruit_is_apart(a),
        a.players.dom().finite(),
    ensures
        scorers(a, b).finite(),
        squares_with(a.world, FRUIT).finite(),
        squares_with(b.world, FRUIT).finite(),
        squares_with(a.world, FRUIT).len() == squares_with(b.world, FRUIT).len() + scorers(
            a,
            b,
        ).len(),
{
    law_fates(a, b);
    law_tick_stays_steady(a, b);
    let ks = scorers(a, b);
    assert(ks.subset_of(a.players.dom()));
    lemma_len_subset(ks, a.players.dom());
    let before = squares_with(a.world, FRUIT);
    let after = squares_with(b.world, FRUIT);
    lemma_squares_finite(a.world, FRUIT);
    lemma_squares_finite(b.world, FRUIT);
    let eaten = before.difference(after);
    let place = |k: u64|
        (destination(a, k).unwrap().0 as int, destination(a, k).unwrap().1 as int);
    assert forall|k: u64| ks.contains(k) implies rides_alone(a, k) && faces_fruit(a, k) by {
        law_fruit_scores(a, b, k);
    }
    assert(injective_on(place, ks)) by {
        assert forall|j: u64, k: u64|
            ks.contains(j) && ks.contains(k) && #[trigger] place(j) == #[trigger] place(k) implies j
            == k by {
            assert(rides_alone(a, k));
            assert(rides_alone(a, j));
            assert(destination(a, j) == destination(a, k));
        }
    }
    assert(ks.map(place) =~= eaten) by {
        assert forall|s: (int, int)| ks.map(place).contains(s) <==> eaten.contains(s) by {
            if ks.map(place).contains(s) {
                let k = choose|k: u64| ks.contains(k) && place(k) == s;
                assert(rides_alone(a, k));
                lemma_destination_on_grid(a, k);
                law_fruit_stays(a, b, s.0, s.1);
                assert(is_taken(a, s.0, s.1));
            }
            if eaten.contains(s) {
                assert(a.world[s.1].len() == b.world[s.1].len());
                law_fruit_stays(a, b, s.0, s.1);
                let k = choose|k: u64| #[trigger]
                    rides_alone(a, k) && destination(a, k).unwrap().0 == s.0 && destination(
                        a,
                        k,
                    ).unwrap().1 == s.1;
                law_fruit_scores(a, b, k);
                assert(ks.contains(k));
                assert(place(k) == s);
            }
        }
    }
    lemma_map_size(ks, eaten, place);
    assert(after.subset_of(before)) by {
        assert forall|s: (int, int)| after.contains(s) implies before.contains(s) by {
            assert(a.world[s.1].len() == b.world[s.1].len());
            law_fruit_stays(a, b, s.0, s.1);
        }
    }
    assert(before =~= after.union(eaten));
    lemma_set_disjoint_lens(after, eaten);
}

} // verus!
