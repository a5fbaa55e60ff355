//! What players can count on from one tick to the next.

use vstd::prelude::*;
#[allow(unused_imports)]
use crate::arena::{
    crashers, crashes, destination, free_squares, is_free, is_low, is_muster, is_placed,
    is_refilled, is_steady, is_tick, is_turn, is_under_life, lemma_destination_on_grid, lies_on,
    meet, resolve, rides, Arena, HeadView,
};
#[allow(unused_imports)]
use crate::grid::{
    covers, lemma_squares_finite, on_grid, squares_with, width, EMPTY, FRUIT, POOP,
};
#[allow(unused_imports)]
use crate::laws::{
    is_fate, law_fates, law_meeting_heads_die, law_survivors_arrive, law_tick_stays_steady,
    law_walls_kill, lemma_turn, thinned,
};
#[allow(unused_imports)]
use crate::laws_steps::{is_corpse_of, is_death_of, law_directions, lemma_slaying_is_death};
#[allow(unused_imports)]
use crate::laws_turn::{law_refill_stays_steady, law_turn_fates};
#[allow(unused_imports)]
use crate::laws_world::{
    brings, is_entered, law_death_leaves_poop, law_free_square_is_taken, law_other_squares_stay,
    law_tail_square_is_left, law_waiting_changes_nothing, lemma_alone, lemma_square_at_turn,
    lemma_square_between, rides_alone,
};
#[allow(unused_imports)]
use crate::refill::lemma_free_finite;
#[allow(unused_imports)]
use crate::snaek::next_cell;
#[allow(unused_imports)]
use vstd::set_lib::lemma_subset_equality;

verus! {

/// Only player `k`, and no other living player, has a segment on column `x` of
/// row `y`.
pub open spec fn lies_alone(a: Arena, k: u64, x: int, y: int) -> bool {
    &&& covers(a.players[k].segments, x, y)
    &&& forall|j: u64|
        j != k && #[trigger] a.players.contains_key(j) && a.players[j].alive ==> !covers(
            a.players[j].segments,
            x,
            y,
        )
}

/// Who lives after a tick has moved as they steered: one square up with `w`,
/// to the left with `a`, down with `s`, to the right with `d`, and not at all
/// with a space. Nobody lives who steered out of the world, or had another
/// input.
pub proof fn law_survivors_go_where_they_steer(a: Arena, b: Arena, k: u64)
    requires
        is_steady(a),
        is_turn(a, b),
        a.world.len() <= usize::MAX,
        width(a.world) <= usize::MAX,
        b.players.contains_key(k),
        b.players[k].alive,
    ensures
        a.players.contains_key(k),
        a.players[k].alive,
        ({
            let input = a.players[k].last_input;
            let (x, y) = (
                a.players[k].segments.last().0 as int,
                a.players[k].segments.last().1 as int,
            );
            let (p, q) = (
                b.players[k].segments.last().0 as int,
                b.players[k].segments.last().1 as int,
            );
            ||| input == 'w' && p == x && q == y - 1
            ||| input == 'a' && p == x - 1 && q == y
            ||| input == 's' && p == x && q == y + 1
            ||| input == 'd' && p == x + 1 && q == y
            ||| input == ' ' && p == x && q == y
        }),
        b.players[k].segments.last().1 < b.world.len(),
        b.players[k].segments.last().0 < b.world[b.players[k].segments.last().1 as int].len(),
{
    let m = choose|m: Arena| #[trigger] is_tick(a, m) && is_refilled(m, b);
    law_turn_fates(a, b);
    law_survivors_arrive(a, m, k);
    assert(is_placed(a, k));
    let s = a.players[k].segments;
    assert(on_grid(a.world, s.last().0 as int, s.last().1 as int));
    assert(a.world[s.last().1 as int].len() == width(a.world));
    law_directions(s.last(), a.players[k].last_input, width(a.world), a.world.len() as int);
    assert(is_placed(b, k));
    let t = b.players[k].segments;
    assert(on_grid(b.world, t[t.len() - 1].0 as int, t[t.len() - 1].1 as int));
}

/// Who steers out of the world dies: up in the first row, down in the last
/// one, to the left in the first column, to the right in the last one. So does
/// who has any other input than a direction or a space.
pub proof fn law_edges_kill(a: Arena, b: Arena, k: u64)
    requires
        is_steady(a),
        is_turn(a, b),
        a.world.len() <= usize::MAX,
        width(a.world) <= usize::MAX,
        a.players.contains_key(k),
        a.players[k].alive,
        ({
            let input = a.players[k].last_input;
            let (x, y) = (
                a.players[k].segments.last().0 as int,
                a.players[k].segments.last().1 as int,
            );
            ||| input == 'w' && y == 0
            ||| input == 'a' && x == 0
            ||| input == 's' && y == a.world.len() - 1
            ||| input == 'd' && x == a.world[y].len() - 1
            ||| input != 'w' && input != 'a' && input != 's' && input != 'd' && input != ' '
        }),
    ensures
        is_corpse_of(a.players[k], b.players[k]),
{
    let m = choose|m: Arena| #[trigger] is_tick(a, m) && is_refilled(m, b);
    assert(is_placed(a, k));
    let s = a.players[k].segments;
    assert(on_grid(a.world, s[s.len() - 1].0 as int, s[s.len() - 1].1 as int));
    assert(a.world[s.last().1 as int].len() == width(a.world));
    law_directions(s.last(), a.players[k].last_input, width(a.world), a.world.len() as int);
    law_walls_kill(a, m, k);
}

/// Name, symbol and last input stay. The dead stay as they are, and who dies
/// keeps body and points too. A survivor's body follows its head: where the points are the
/// same each segment takes the place of the one before it, where there is one
/// point more all of them stay and the head is new. Only who rests may stay
/// as they are.
pub proof fn law_bodies_follow_their_heads(a: Arena, b: Arena, k: u64)
    requires
        is_steady(a),
        is_turn(a, b),
        a.players.contains_key(k),
    ensures
        b.players.contains_key(k),
        ({
            let (p, q) = (a.players[k], b.players[k]);
            let (s, t) = (p.segments, q.segments);
            &&& q.name == p.name
            &&& q.symbol == p.symbol
            &&& q.last_input == p.last_input
            &&& !p.alive ==> q == p
            &&& p.alive && !q.alive ==> t == s && q.score == p.score
            &&& p.alive && q.alive ==> {
                ||| q == p && p.last_input == ' '
                ||| {
                    &&& q.score == p.score
                    &&& t.len() == s.len()
                    &&& forall|i: int| 0 <= i < t.len() - 1 ==> #[trigger] t[i] == s[i + 1]
                }
                ||| {
                    &&& q.score == p.score + 1
                    &&& t.len() == s.len() + 1
                    &&& forall|i: int| 0 <= i < t.len() - 1 ==> #[trigger] t[i] == s[i]
                }
            }
        }),
{
    law_turn_fates(a, b);
    assert(is_fate(a, k, b.players[k]));
    assert(b.players.dom().contains(k));
    if a.players[k].alive {
        assert(is_placed(a, k));
    }
}

/// The square under the head of a player who rests, where nobody else's body
/// lies and something is shown, stays through the first `n` meetings.
proof fn lemma_rest_until(a: Arena, b: Arena, heads: Seq<HeadView>, n: int, k: u64)
    requires
        is_steady(a),
        is_muster(a, heads),
        b == resolve(thinned(a), heads),
        0 <= n <= heads.len(),
        a.players.contains_key(k),
        a.players[k].alive,
        b.players[k].alive,
        a.players[k].last_input == ' ',
        ({
            let head = a.players[k].segments.last();
            &&& lies_alone(a, k, head.0 as int, head.1 as int)
            &&& a.world[head.1 as int][head.0 as int] != EMPTY
            &&& a.world[head.1 as int][head.0 as int] != FRUIT
        }),
    ensures
        ({
            let head = a.players[k].segments.last();
            resolve(thinned(a), heads.take(n)).world[head.1 as int][head.0 as int]
                == a.world[head.1 as int][head.0 as int]
        }),
    decreases n,
{
    let at = a.players[k].segments.last();
    let x = at.0 as int;
    let y = at.1 as int;
    let s = a.players[k].segments;
    assert(is_placed(a, k));
    assert(on_grid(a.world, s[s.len() - 1].0 as int, s[s.len() - 1].1 as int));
    if n == 0 {
        assert(heads.take(0) =~= Seq::<HeadView>::empty());
        lemma_thinned_alone(a, b, k, x, y);
    } else {
        lemma_rest_until(a, b, heads, n - 1, k);
        let head = heads[n - 1];
        let c = resolve(thinned(a), heads.take(n - 1));
        assert(heads.take(n).drop_last() =~= heads.take(n - 1));
        assert(rides(a, k) && destination(a, k) == Some(at));
        let i = choose|i: int| 0 <= i < heads.len() && (#[trigger] heads[i]).riders.contains(k);
        let r = head.riders[0];
        assert(heads[n - 1].riders.contains(r));
        lemma_turn(a, heads, n - 1, r);
        assert(on_grid(c.world, x, y));
        if head.cell == at {
            assert(heads[i].cell == heads[n - 1].cell);
            assert(i == n - 1);
            lemma_turn(a, heads, n - 1, k);
            if head.riders.len() != 1 {
                assert(head.riders.to_set().contains(k));
            } else {
                assert(head.riders[0] == k);
            }
        } else {
            lemma_meeting_elsewhere(a, b, heads, n - 1, k, x, y);
        }
    }
}

/// The deaths at the edges do not touch a square of a survivor's own.
proof fn lemma_thinned_alone(a: Arena, b: Arena, k: u64, x: int, y: int)
    requires
        is_steady(a),
        is_tick(a, b),
        on_grid(a.world, x, y),
        a.players.contains_key(k),
        b.players[k].alive,
        lies_alone(a, k, x, y),
    ensures
        thinned(a).world[y][x] == a.world[y][x],
{
    if lies_on(a.players, crashers(a), x, y) {
        let j = choose|j: u64| #[trigger]
            crashers(a).contains(j) && a.players.contains_key(j) && covers(
                a.players[j].segments,
                x,
                y,
            );
        assert(crashes(a, j));
        law_walls_kill(a, b, j);
    }
}

/// A meeting about another square changes a square of a survivor's own only
/// where that survivor's tail leaves it.
proof fn lemma_meeting_elsewhere(
    a: Arena,
    b: Arena,
    heads: Seq<HeadView>,
    i: int,
    k: u64,
    x: int,
    y: int,
)
    requires
        is_steady(a),
        is_muster(a, heads),
        b == resolve(thinned(a), heads),
        0 <= i < heads.len(),
        on_grid(a.world, x, y),
        a.players.contains_key(k),
        a.players[k].alive,
        b.players[k].alive,
        lies_alone(a, k, x, y),
        ({
            let cell = heads[i].cell;
            let found = resolve(thinned(a), heads.take(i)).world[cell.1 as int][cell.0 as int];
            ||| !(cell.0 == x && cell.1 == y)
            ||| found != EMPTY && found != FRUIT
        }),
    ensures
        ({
            let c = resolve(thinned(a), heads.take(i));
            let cell = heads[i].cell;
            let found = c.world[cell.1 as int][cell.0 as int];
            let tail = a.players[k].segments[0];
            meet(c, heads[i]).world[y][x] == c.world[y][x] || {
                &&& heads[i].riders == seq![k]
                &&& tail.0 == x && tail.1 == y
                &&& found == EMPTY || found == FRUIT
            }
        }),
{
    let c = resolve(thinned(a), heads.take(i));
    let head = heads[i];
    let r = head.riders[0];
    assert(heads[i].riders.contains(r));
    lemma_turn(a, heads, i, r);
    assert(on_grid(c.world, x, y));
    assert(rides(a, r));
    assert(a.players.contains_key(r));
    assert(is_placed(a, r));
    lemma_destination_on_grid(a, r);
    let found = c.world[head.cell.1 as int][head.cell.0 as int];
    if head.riders.len() == 1 && (found == EMPTY || found == FRUIT) {
        let tail = a.players[r].segments[0];
        assert(on_grid(a.world, tail.0 as int, tail.1 as int));
        if tail.0 == x && tail.1 == y {
            assert(covers(a.players[r].segments, x, y));
            assert(r == k);
            assert(head.riders =~= seq![k]);
        }
    } else if head.riders.len() == 1 {
        assert(set![r].contains(r));
        if lies_on(c.players, set![r], x, y) {
            assert(covers(a.players[r].segments, x, y));
            assert(r == k);
        }
    } else if lies_on(c.players, head.riders.to_set(), x, y) {
        let j = choose|j: u64| #[trigger]
            head.riders.to_set().contains(j) && c.players.contains_key(j) && covers(
                c.players[j].segments,
                x,
                y,
            );
        assert(heads[i].riders.contains(j));
        lemma_turn(a, heads, i, j);
        assert(rides(a, j));
        assert(a.players.contains_key(j));
        assert(j == k);
    }
}

/// A square of a survivor's own stays through the first `n` meetings.
proof fn lemma_kept_until(
    a: Arena,
    b: Arena,
    heads: Seq<HeadView>,
    n: int,
    k: u64,
    x: int,
    y: int,
)
    requires
        is_steady(a),
        is_muster(a, heads),
        b == resolve(thinned(a), heads),
        0 <= n <= heads.len(),
        on_grid(a.world, x, y),
        a.players.contains_key(k),
        a.players[k].alive,
        b.players[k].alive,
        lies_alone(a, k, x, y),
        keeps_square(a, k, x, y),
        !is_entered(a, x, y) || (a.world[y][x] != EMPTY && a.world[y][x] != FRUIT),
    ensures
        resolve(thinned(a), heads.take(n)).world[y][x] == a.world[y][x],
    decreases n,
{
    if n == 0 {
        assert(heads.take(0) =~= Seq::<HeadView>::empty());
        lemma_thinned_alone(a, b, k, x, y);
    } else {
        lemma_kept_until(a, b, heads, n - 1, k, x, y);
        let c = resolve(thinned(a), heads.take(n - 1));
        assert(heads.take(n).drop_last() =~= heads.take(n - 1));
        let head = heads[n - 1];
        let r = head.riders[0];
        assert(heads[n - 1].riders.contains(r));
        assert(rides(a, r));
        if head.cell.0 == x && head.cell.1 == y {
            assert(is_entered(a, x, y));
        }
        lemma_meeting_elsewhere(a, b, heads, n - 1, k, x, y);
        if meet(c, head).world[y][x] != c.world[y][x] {
            assert(head.riders[0] == k);
            assert(destination(a, k) == Some(head.cell));
            lemma_rest_until(a, b, heads, n - 1, k);
        }
    }
}

/// Player `k` does not give up column `x` of row `y`: it is not the square of
/// their tail, or they rest on a square of their own where something shows.
pub open spec fn keeps_square(a: Arena, k: u64, x: int, y: int) -> bool {
    let tail = a.players[k].segments[0];
    let head = a.players[k].segments.last();
    let shown = a.world[head.1 as int][head.0 as int];
    ||| !(tail.0 == x && tail.1 == y)
    ||| {
        &&& a.players[k].last_input == ' '
        &&& lies_alone(a, k, head.0 as int, head.1 as int)
        &&& shown != EMPTY && shown != FRUIT
    }
}

/// A living body stays where it is until its tail leaves: a square on which
/// the body of one player alone lies, who lives before and after the tick and
/// does not give it up, shows what it showed, if nobody enters it or it was
/// neither empty nor a fruit.
pub proof fn law_bodies_stay_in_the_world(a: Arena, b: Arena, k: u64, x: int, y: int)
    requires
        is_steady(a),
        is_turn(a, b),
        0 <= y < a.world.len(),
        0 <= x < a.world[y].len(),
        a.players.contains_key(k),
        a.players[k].alive,
        b.players[k].alive,
        lies_alone(a, k, x, y),
        keeps_square(a, k, x, y),
        !is_entered(a, x, y) || (a.world[y][x] != EMPTY && a.world[y][x] != FRUIT),
    ensures
        b.world[y][x] == a.world[y][x],
{
    let m = choose|m: Arena| #[trigger] is_tick(a, m) && is_refilled(m, b);
    let heads = choose|heads: Seq<HeadView>|
        #[trigger] is_muster(a, heads) && m == resolve(thinned(a), heads);
    lemma_kept_until(a, m, heads, heads.len() as int, k, x, y);
    assert(heads.take(heads.len() as int) =~= heads);
    law_fates(a, m);
    assert(a.world[y].len() == m.world[y].len());
    assert(b.world[y][x] == m.world[y][x]) by {
        if is_free(m, x, y) {
            let s = a.players[k].segments;
            let t = m.players[k].segments;
            let tail = s[0];
            let i = choose|i: int| 0 <= i < s.len() && (#[trigger] s[i]).0 == x && s[i].1 == y;
            assert(is_fate(a, k, m.players[k]));
            if tail.0 == x && tail.1 == y {
                lemma_resting_player(a, m, heads, k);
                assert(covers(t, x, y));
            } else if t.len() > s.len() {
                assert(t[i] == s[i]);
                assert(covers(t, x, y));
            } else if t == s {
                assert(covers(t, x, y));
            } else {
                assert(i > 0);
                assert(t[i - 1] == s[i]);
                assert(covers(t, x, y));
            }
            assert(m.players.contains_key(k));
            assert(is_under_life(m, x, y));
        }
    }
}

/// Who rests on a square of their own where something shows does not change.
proof fn lemma_resting_player(a: Arena, m: Arena, heads: Seq<HeadView>, k: u64)
    requires
        is_steady(a),
        is_muster(a, heads),
        m == resolve(thinned(a), heads),
        a.players.contains_key(k),
        a.players[k].alive,
        m.players[k].alive,
        a.players[k].last_input == ' ',
        ({
            let head = a.players[k].segments.last();
            &&& lies_alone(a, k, head.0 as int, head.1 as int)
            &&& a.world[head.1 as int][head.0 as int] != EMPTY
            &&& a.world[head.1 as int][head.0 as int] != FRUIT
        }),
    ensures
        m.players[k] == a.players[k],
{
    assert(rides(a, k));
    let i = choose|i: int| 0 <= i < heads.len() && (#[trigger] heads[i]).riders.contains(k);
    lemma_turn(a, heads, i, k);
    lemma_rest_until(a, m, heads, i, k);
    if heads[i].riders.len() != 1 {
        assert(heads[i].riders.to_set().contains(k));
    } else {
        assert(heads[i].riders[0] == k);
    }
}

/// Who rests on a square of their own where something shows, and which nobody
/// else enters, lives on and does not change at all.
pub proof fn law_resting_is_safe(a: Arena, b: Arena, k: u64)
    requires
        is_steady(a),
        is_turn(a, b),
        rides_alone(a, k),
        a.players[k].last_input == ' ',
        ({
            let head = a.players[k].segments.last();
            &&& lies_alone(a, k, head.0 as int, head.1 as int)
            &&& a.world[head.1 as int][head.0 as int] != EMPTY
            &&& a.world[head.1 as int][head.0 as int] != FRUIT
        }),
    ensures
        b.players[k] == a.players[k],
{
    let m = choose|m: Arena| #[trigger] is_tick(a, m) && is_refilled(m, b);
    let heads = choose|heads: Seq<HeadView>|
        #[trigger] is_muster(a, heads) && m == resolve(thinned(a), heads);
    let i = choose|i: int| 0 <= i < heads.len() && (#[trigger] heads[i]).riders.contains(k);
    lemma_alone(a, heads, i, k);
    lemma_turn(a, heads, i, k);
    assert(is_placed(a, k));
    assert(m.players[k].alive);
    lemma_resting_player(a, m, heads, k);
}

/// The square that a survivor has moved to shows their symbol, unless it was
/// the square of their own tail or another living player's body lay on it.
pub proof fn law_heads_show(a: Arena, b: Arena, k: u64)
    requires
        is_steady(a),
        is_turn(a, b),
        a.players.contains_key(k),
        a.players[k].alive,
        b.players[k].alive,
        a.players[k].last_input != ' ',
        b.players[k].segments.last() != a.players[k].segments[0],
        forall|j: u64|
            j != k && #[trigger] a.players.contains_key(j) && a.players[j].alive ==> !covers(
                a.players[j].segments,
                b.players[k].segments.last().0 as int,
                b.players[k].segments.last().1 as int,
            ),
    ensures
        b.world[b.players[k].segments.last().1 as int][b.players[k].segments.last().0 as int]
            == a.players[k].symbol,
{
    let m = choose|m: Arena| #[trigger] is_tick(a, m) && is_refilled(m, b);
    let heads = choose|heads: Seq<HeadView>|
        #[trigger] is_muster(a, heads) && m == resolve(thinned(a), heads);
    law_fates(a, m);
    law_tick_stays_steady(a, m);
    assert(m.players.contains_key(k));
    law_survivors_arrive(a, m, k);
    let cell = destination(a, k).unwrap();
    let x = cell.0 as int;
    let y = cell.1 as int;
    let n = heads.len() as int;
    let i = choose|i: int| 0 <= i < heads.len() && (#[trigger] heads[i]).riders.contains(k);
    lemma_destination_on_grid(a, k);
    lemma_alone(a, heads, i, k);
    lemma_turn(a, heads, i, k);
    assert(is_placed(a, k));
    let tail = a.players[k].segments[0];
    assert(on_grid(a.world, tail.0 as int, tail.1 as int));
    let c = resolve(thinned(a), heads.take(i));
    if heads[i].riders.len() != 1 {
        assert(heads[i].riders.to_set().contains(k));
    }
    assert(set![k].contains(k));
    assert(heads.take(i + 1).drop_last() =~= heads.take(i));
    assert(heads.take(n) =~= heads);
    assert(meet(c, heads[i]).world[y][x] == a.players[k].symbol);
    assert forall|j: int| i + 1 <= j < n implies !((#[trigger] heads[j]).cell.0 == x
        && heads[j].cell.1 == y) by {
        assert(heads[i].cell != heads[j].cell);
    }
    lemma_square_between(a, heads, i + 1, n, x, y);
    if brings(a, heads, i + 1, n, x, y) {
        let (r, j) = choose|r: int, j: u64|
            i + 1 <= r < n && #[trigger] heads[r].riders.contains(j) && covers(
                a.players[j].segments,
                x,
                y,
            );
        assert(heads[i].cell != heads[r].cell);
        assert(rides(a, j));
        assert(a.players.contains_key(j));
        assert(j != k);
    }
    assert(m.world[y][x] == a.players[k].symbol);
    assert(is_placed(m, k));
    let t = m.players[k].segments;
    assert(covers(t, x, y)) by {
        assert(t[t.len() - 1] == cell);
    }
    assert(is_under_life(m, x, y));
    assert(on_grid(m.world, x, y)) by {
        assert(a.world[y].len() == m.world[y].len());
    }
    assert(b.world[y][x] == m.world[y][x]);
}

/// Every square of the body of player `k`, but for the square of the tail,
/// shows their symbol.
pub open spec fn is_painted(a: Arena, k: u64) -> bool {
    let s = a.players[k].segments;
    forall|i: int|
        0 <= i < s.len() && #[trigger] s[i] != s[0] ==> a.world[s[i].1 as int][s[i].0 as int]
            == a.players[k].symbol
}

/// A body that shows its symbol on all squares but the tail's still does after
/// a tick that its player survives. No other living player's body may lie on
/// it afterwards, and on the square of its tail nothing else of it, not even a
/// head that has just come.
pub proof fn law_bodies_stay_painted(a: Arena, b: Arena, k: u64)
    requires
        is_steady(a),
        is_turn(a, b),
        a.players.contains_key(k),
        a.players[k].alive,
        b.players[k].alive,
        a.players[k].symbol != EMPTY,
        a.players[k].symbol != FRUIT,
        is_painted(a, k),
        forall|i: int|
            0 < i < a.players[k].segments.len() ==> #[trigger] a.players[k].segments[i]
                != a.players[k].segments[0],
        a.players[k].last_input != ' ' ==> b.players[k].segments.last() != a.players[k].segments[0],
        forall|j: u64, i: int|
            #![trigger a.players.contains_key(j), b.players[k].segments[i]]
            j != k && a.players.contains_key(j) && a.players[j].alive && 0 <= i
                < b.players[k].segments.len() ==> !covers(
                a.players[j].segments,
                b.players[k].segments[i].0 as int,
                b.players[k].segments[i].1 as int,
            ),
    ensures
        is_painted(b, k),
{
    let m = choose|m: Arena| #[trigger] is_tick(a, m) && is_refilled(m, b);
    law_turn_fates(a, b);
    assert(is_fate(a, k, b.players[k]));
    assert(is_placed(a, k));
    let s = a.players[k].segments;
    let t = b.players[k].segments;
    assert(b.players.contains_key(k));
    law_survivors_arrive(a, m, k);
    assert(t[t.len() - 1] == t.last());
    let rests = a.players[k].last_input == ' ';
    if rests && s.len() > 1 {
        let heads = choose|heads: Seq<HeadView>|
            #[trigger] is_muster(a, heads) && m == resolve(thinned(a), heads);
        assert(s[s.len() - 1] != s[0]);
        assert(covers(s, s.last().0 as int, s.last().1 as int));
        assert(t.last() == s.last());
        assert(lies_alone(a, k, s.last().0 as int, s.last().1 as int));
        lemma_resting_player(a, m, heads, k);
    }
    assert forall|i: int| 0 <= i < t.len() && #[trigger] t[i] != t[0] implies
        b.world[t[i].1 as int][t[i].0 as int] == b.players[k].symbol by {
        if t[i] == t.last() && !rests {
            law_heads_show(a, b, k);
        } else {
            let at = if t.len() > s.len() || rests {
                i
            } else {
                i + 1
            };
            assert(s[at] == t[i]);
            assert(at != 0);
            assert(on_grid(a.world, s[at].0 as int, s[at].1 as int));
            assert(covers(s, t[i].0 as int, t[i].1 as int));
            assert(lies_alone(a, k, t[i].0 as int, t[i].1 as int));
            law_bodies_stay_in_the_world(a, b, k, t[i].0 as int, t[i].1 as int);
        }
    }
}

/// A square that several players enter, and on which no living player's body
/// lies, shows what it showed: nobody takes it.
pub proof fn law_contested_squares_stay(a: Arena, b: Arena, j: u64, k: u64)
    requires
        is_steady(a),
        is_turn(a, b),
        j != k,
        rides(a, j),
        rides(a, k),
        destination(a, j) == destination(a, k),
        !is_under_life(
            a,
            destination(a, k).unwrap().0 as int,
            destination(a, k).unwrap().1 as int,
        ),
    ensures
        is_corpse_of(a.players[j], b.players[j]),
        is_corpse_of(a.players[k], b.players[k]),
        ({
            let cell = destination(a, k).unwrap();
            let shown = a.world[cell.1 as int][cell.0 as int];
            let shows = b.world[cell.1 as int][cell.0 as int];
            shows == shown || (shown == EMPTY && shows == FRUIT)
        }),
{
    let m = choose|m: Arena| #[trigger] is_tick(a, m) && is_refilled(m, b);
    let heads = choose|heads: Seq<HeadView>|
        #[trigger] is_muster(a, heads) && m == resolve(thinned(a), heads);
    law_fates(a, m);
    law_meeting_heads_die(a, m, j, k);
    let cell = destination(a, k).unwrap();
    let x = cell.0 as int;
    let y = cell.1 as int;
    let n = heads.len() as int;
    let i = choose|i: int| 0 <= i < heads.len() && (#[trigger] heads[i]).riders.contains(k);
    lemma_destination_on_grid(a, k);
    lemma_alone(a, heads, i, k);
    lemma_turn(a, heads, i, k);
    lemma_square_at_turn(a, heads, i, x, y);
    let c = resolve(thinned(a), heads.take(i));
    assert(!lies_on(c.players, heads[i].riders.to_set(), x, y)) by {
        if lies_on(c.players, heads[i].riders.to_set(), x, y) {
            let r = choose|r: u64| #[trigger]
                heads[i].riders.to_set().contains(r) && c.players.contains_key(r) && covers(
                    c.players[r].segments,
                    x,
                    y,
                );
            assert(heads[i].riders.contains(r));
            lemma_turn(a, heads, i, r);
            assert(rides(a, r));
            assert(a.players.contains_key(r));
        }
    }
    assert(on_grid(c.world, x, y));
    assert forall|r: int| i + 1 <= r < n implies !((#[trigger] heads[r]).cell.0 == x
        && heads[r].cell.1 == y) by {
        assert(heads[i].cell != heads[r].cell);
    }
    lemma_square_between(a, heads, i + 1, n, x, y);
    assert(heads.take(i + 1).drop_last() =~= heads.take(i));
    assert(heads.take(n) =~= heads);
    assert(m.world[y][x] == a.world[y][x]);
    assert(a.world[y].len() == m.world[y].len());
    assert(b.world[y][x] == m.world[y][x] || is_free(m, x, y));
}

/// Who alone steers to a square that is empty or holds a fruit, and on which
/// no living player's body lies, arrives there alive, gets a point and one
/// more segment for a fruit, and marks the square.
pub proof fn law_open_squares_are_taken(a: Arena, b: Arena, k: u64)
    requires
        is_steady(a),
        is_turn(a, b),
        rides_alone(a, k),
        ({
            let cell = destination(a, k).unwrap();
            let found = a.world[cell.1 as int][cell.0 as int];
            &&& found == EMPTY || found == FRUIT
            &&& !is_under_life(a, cell.0 as int, cell.1 as int)
        }),
    ensures
        ({
            let cell = destination(a, k).unwrap();
            let grown: int = if a.world[cell.1 as int][cell.0 as int] == FRUIT {
                1
            } else {
                0
            };
            &&& b.players[k].alive
            &&& b.players[k].score == a.players[k].score + grown
            &&& b.players[k].segments.len() == a.players[k].segments.len() + grown
            &&& b.players[k].segments.last() == cell
            &&& b.world[cell.1 as int][cell.0 as int] == a.players[k].symbol
        }),
{
    let m = choose|m: Arena| #[trigger] is_tick(a, m) && is_refilled(m, b);
    let cell = destination(a, k).unwrap();
    let x = cell.0 as int;
    let y = cell.1 as int;
    law_free_square_is_taken(a, m, k);
    law_fates(a, m);
    lemma_destination_on_grid(a, k);
    assert(a.world[y].len() == m.world[y].len());
    let t = m.players[k].segments;
    assert(is_placed(a, k));
    assert(t[t.len() - 1] == cell);
    assert(covers(t, x, y));
    assert(m.players.contains_key(k));
    assert(is_under_life(m, x, y));
    assert(!is_free(m, x, y));
}

/// Who dies leaves poop on every square of the body, except where the tail of
/// another player who moves lies too.
pub proof fn law_corpses_are_poop(a: Arena, b: Arena, k: u64, i: int)
    requires
        is_steady(a),
        is_turn(a, b),
        a.players.contains_key(k),
        a.players[k].alive,
        !b.players[k].alive,
        0 <= i < a.players[k].segments.len(),
        forall|j: u64|
            j != k && #[trigger] rides(a, j) ==> a.players[j].segments[0]
                != a.players[k].segments[i],
    ensures
        b.world[a.players[k].segments[i].1 as int][a.players[k].segments[i].0 as int] == POOP,
{
    let m = choose|m: Arena| #[trigger] is_tick(a, m) && is_refilled(m, b);
    let s = a.players[k].segments;
    let x = s[i].0 as int;
    let y = s[i].1 as int;
    assert(covers(s, x, y));
    law_death_leaves_poop(a, m, k, x, y);
    law_fates(a, m);
    assert(is_placed(a, k));
    assert(on_grid(a.world, s[i].0 as int, s[i].1 as int));
    assert(a.world[y].len() == m.world[y].len());
    assert(!is_free(m, x, y));
}

/// A survivor who moves leaves the square of the tail, which is then empty or
/// holds a new fruit, unless somebody enters it or another living player's
/// body lies on it.
pub proof fn law_tails_leave(a: Arena, b: Arena, k: u64)
    requires
        is_steady(a),
        is_turn(a, b),
        rides(a, k),
        a.players[k].last_input != ' ',
        b.players[k].alive,
        ({
            let tail = a.players[k].segments[0];
            &&& !is_entered(a, tail.0 as int, tail.1 as int)
            &&& forall|j: u64|
                j != k && #[trigger] a.players.contains_key(j) && a.players[j].alive ==> !covers(
                    a.players[j].segments,
                    tail.0 as int,
                    tail.1 as int,
                )
        }),
    ensures
        ({
            let tail = a.players[k].segments[0];
            let shows = b.world[tail.1 as int][tail.0 as int];
            shows == EMPTY || shows == FRUIT
        }),
{
    let m = choose|m: Arena| #[trigger] is_tick(a, m) && is_refilled(m, b);
    law_tail_square_is_left(a, m, k);
    law_fates(a, m);
    assert(is_placed(a, k));
    let tail = a.players[k].segments[0];
    assert(on_grid(a.world, tail.0 as int, tail.1 as int));
    assert(a.world[tail.1 as int].len() == m.world[tail.1 as int].len());
    assert(b.world[tail.1 as int][tail.0 as int] == m.world[tail.1 as int][tail.0 as int]
        || is_free(m, tail.0 as int, tail.1 as int));
}

/// A square that nobody enters and on which no living player's body lies
/// shows what it showed; only an empty one may hold a new fruit.
pub proof fn law_the_rest_of_the_world_stays(a: Arena, b: Arena, x: int, y: int)
    requires
        is_steady(a),
        is_turn(a, b),
        0 <= y < a.world.len(),
        0 <= x < a.world[y].len(),
        !is_under_life(a, x, y),
        !is_entered(a, x, y),
    ensures
        b.world[y][x] == a.world[y][x] || (a.world[y][x] == EMPTY && b.world[y][x] == FRUIT),
{
    let m = choose|m: Arena| #[trigger] is_tick(a, m) && is_refilled(m, b);
    law_other_squares_stay(a, m, x, y);
    law_fates(a, m);
    assert(a.world[y].len() == m.world[y].len());
    assert(b.world[y][x] == m.world[y][x] || is_free(m, x, y));
}

/// As long as a fruit lies where nobody goes, no new ones come: every other
/// square that nobody enters and on which no living player's body lies shows
/// what it showed.
pub proof fn law_fruits_come_when_none_is_left(a: Arena, b: Arena, p: int, q: int, x: int, y: int)
    requires
        is_steady(a),
        is_turn(a, b),
        0 <= q < a.world.len(),
        0 <= p < a.world[q].len(),
        a.world[q][p] == FRUIT,
        !is_under_life(a, p, q),
        !is_entered(a, p, q),
        0 <= y < a.world.len(),
        0 <= x < a.world[y].len(),
        !is_under_life(a, x, y),
        !is_entered(a, x, y),
    ensures
        b.world[q][p] == FRUIT,
        b.world[y][x] == a.world[y][x],
{
    let m = choose|m: Arena| #[trigger] is_tick(a, m) && is_refilled(m, b);
    law_other_squares_stay(a, m, p, q);
    law_other_squares_stay(a, m, x, y);
    law_fates(a, m);
    assert(a.world[q].len() == m.world[q].len());
    assert(on_grid(m.world, p, q));
    assert(!is_low(m.world));
}

/// Column `x` of row `y` shows nothing, and no living player has a segment
/// there.
pub open spec fn has_room(a: Arena, x: int, y: int) -> bool {
    &&& 0 <= y < a.world.len()
    &&& 0 <= x < a.world[y].len()
    &&& a.world[y][x] == EMPTY
    &&& forall|k: u64, i: int|
        #![trigger a.players[k].segments[i]]
        a.players.contains_key(k) && a.players[k].alive && 0 <= i < a.players[k].segments.len()
            ==> !(a.players[k].segments[i].0 == x && a.players[k].segments[i].1 == y)
}

/// New fruits come only when there is none. Then ten come, or one for each
/// square with room if those are fewer. All of them lie on squares with room,
/// and nothing else changes.
pub proof fn law_new_fruits(m: Arena, b: Arena)
    requires
        is_steady(m),
        is_refilled(m, b),
    ensures
        b.players == m.players,
        b.world.len() == m.world.len(),
        forall|y: int| 0 <= y < m.world.len() ==> #[trigger] b.world[y].len() == m.world[y].len(),
        forall|x: int, y: int|
            #![trigger b.world[y][x]]
            0 <= y < m.world.len() && 0 <= x < m.world[y].len() && b.world[y][x] != m.world[y][x]
                ==> b.world[y][x] == FRUIT && has_room(m, x, y),
        (exists|x: int, y: int|
            #![trigger m.world[y][x]]
            0 <= y < m.world.len() && 0 <= x < m.world[y].len() && m.world[y][x] == FRUIT)
            ==> b.world == m.world,
        ({
            let none = forall|x: int, y: int|
                #![trigger m.world[y][x]]
                0 <= y < m.world.len() && 0 <= x < m.world[y].len() ==> m.world[y][x] != FRUIT;
            let rooms = Set::new(|s: (int, int)| has_room(m, s.0, s.1));
            let fruits = Set::new(
                |s: (int, int)|
                    0 <= s.1 < b.world.len() && 0 <= s.0 < b.world[s.1].len()
                        && b.world[s.1][s.0] == FRUIT,
            );
            &&& none ==> fruits.finite() && rooms.finite()
            &&& none && rooms.len() >= 10 ==> fruits.len() == 10
            &&& none && rooms.len() < 10 ==> fruits == rooms
        }),
{
    let rooms = Set::new(|s: (int, int)| has_room(m, s.0, s.1));
    let fruits = Set::new(
        |s: (int, int)|
            0 <= s.1 < b.world.len() && 0 <= s.0 < b.world[s.1].len() && b.world[s.1][s.0] == FRUIT,
    );
    assert forall|x: int, y: int| has_room(m, x, y) <==> is_free(m, x, y) by {
        if is_under_life(m, x, y) {
            let k = choose|k: u64| #[trigger]
                m.players.contains_key(k) && m.players[k].alive && covers(
                    m.players[k].segments,
                    x,
                    y,
                );
            let s = m.players[k].segments;
            let i = choose|i: int| 0 <= i < s.len() && (#[trigger] s[i]).0 == x && s[i].1 == y;
            assert(m.players[k].segments[i].0 == x);
            assert(!has_room(m, x, y));
        }
        if on_grid(m.world, x, y) && m.world[y][x] == EMPTY && !has_room(m, x, y) {
            let (k, i) = choose|k: u64, i: int|
                #![trigger m.players[k].segments[i]]
                m.players.contains_key(k) && m.players[k].alive && 0 <= i
                    < m.players[k].segments.len() && m.players[k].segments[i].0 == x
                    && m.players[k].segments[i].1 == y;
            assert(covers(m.players[k].segments, x, y));
            assert(is_under_life(m, x, y));
        }
    }
    assert(rooms =~= free_squares(m));
    assert(fruits =~= squares_with(b.world, FRUIT));
    lemma_free_finite(m);
    law_refill_stays_steady(m, b);
    lemma_squares_finite(b.world, FRUIT);
    if is_low(m.world) {
        assert(fruits.subset_of(rooms)) by {
            assert forall|s: (int, int)| fruits.contains(s) implies rooms.contains(s) by {
                assert(m.world[s.1].len() == b.world[s.1].len());
                assert(m.world[s.1][s.0] != FRUIT);
                assert(b.world[s.1][s.0] == FRUIT);
            }
        }
        if rooms.len() < 10 {
            lemma_subset_equality(fruits, rooms);
        }
    }
    if exists|x: int, y: int|
        #![trigger m.world[y][x]]
        0 <= y < m.world.len() && 0 <= x < m.world[y].len() && m.world[y][x] == FRUIT {
        let (x, y) = choose|x: int, y: int|
            #![trigger m.world[y][x]]
            0 <= y < m.world.len() && 0 <= x < m.world[y].len() && m.world[y][x] == FRUIT;
        assert(on_grid(m.world, x, y));
        assert(!is_low(m.world));
    }
}

/// The living players who steer out of the world, or have an input that is
/// neither a direction nor a space.
pub open spec fn leavers(a: Arena) -> Set<u64> {
    Set::new(
        |k: u64|
            a.players.contains_key(k) && a.players[k].alive && {
                let input = a.players[k].last_input;
                let (x, y) = (
                    a.players[k].segments.last().0 as int,
                    a.players[k].segments.last().1 as int,
                );
                ||| input == 'w' && y == 0
                ||| input == 'a' && x == 0
                ||| input == 's' && y == a.world.len() - 1
                ||| input == 'd' && x == a.world[y].len() - 1
                ||| input != 'w' && input != 'a' && input != 's' && input != 'd' && input != ' '
            },
    )
}

/// Those who leave the world are those who steer over one of its edges.
proof fn lemma_leavers(a: Arena)
    requires
        is_steady(a),
        a.world.len() <= usize::MAX,
        width(a.world) <= usize::MAX,
    ensures
        crashers(a) == leavers(a),
{
    assert forall|k: u64| crashers(a).contains(k) <==> leavers(a).contains(k) by {
        if a.players.contains_key(k) && a.players[k].alive {
            assert(is_placed(a, k));
            let s = a.players[k].segments;
            assert(on_grid(a.world, s[s.len() - 1].0 as int, s[s.len() - 1].1 as int));
            assert(a.world[s.last().1 as int].len() == width(a.world));
            law_directions(s.last(), a.players[k].last_input, width(a.world), a.world.len() as int);
        }
    }
    assert(crashers(a) =~= leavers(a));
}

/// A tick is two things, one after the other: those who leave the world die,
/// and then everybody else meets, on each square that is entered once.
pub proof fn law_deaths_come_before_meetings(a: Arena, b: Arena)
    requires
        is_steady(a),
        is_turn(a, b),
        a.world.len() <= usize::MAX,
        width(a.world) <= usize::MAX,
    ensures
        exists|c: Arena, heads: Seq<HeadView>|
            #![trigger is_death_of(a, c, leavers(a)), is_muster(a, heads)]
            is_death_of(a, c, leavers(a)) && is_muster(a, heads) && is_refilled(
                resolve(c, heads),
                b,
            ),
{
    let m = choose|m: Arena| #[trigger] is_tick(a, m) && is_refilled(m, b);
    let heads = choose|heads: Seq<HeadView>|
        #[trigger] is_muster(a, heads) && m == resolve(thinned(a), heads);
    lemma_leavers(a);
    lemma_slaying_is_death(a, leavers(a));
    assert(is_death_of(a, thinned(a), leavers(a)) && is_muster(a, heads));
}

/// Where one player alone lives, nothing happens but that this player leaves
/// the world and dies, or comes to the next square. After that new fruits may
/// come.
pub proof fn law_one_player(a: Arena, b: Arena, k: u64)
    requires
        is_steady(a),
        is_turn(a, b),
        a.world.len() <= usize::MAX,
        width(a.world) <= usize::MAX,
        a.players.contains_key(k),
        a.players[k].alive,
        forall|j: u64| #[trigger]
            a.players.contains_key(j) && a.players[j].alive ==> j == k,
    ensures
        if leavers(a).contains(k) {
            exists|m: Arena| #[trigger] is_death_of(a, m, set![k]) && is_refilled(m, b)
        } else {
            exists|cell: (usize, usize)|
                #![trigger meet(a, HeadView { cell, riders: seq![k] })]
                next_cell(
                    a.players[k].segments.last(),
                    a.players[k].last_input,
                    a.world[a.players[k].segments.last().1 as int].len() as int,
                    a.world.len() as int,
                ) == Some(cell) && is_refilled(meet(a, HeadView { cell, riders: seq![k] }), b)
        },
{
    let m = choose|m: Arena| #[trigger] is_tick(a, m) && is_refilled(m, b);
    let heads = choose|heads: Seq<HeadView>|
        #[trigger] is_muster(a, heads) && m == resolve(thinned(a), heads);
    lemma_leavers(a);
    assert(is_placed(a, k));
    let s = a.players[k].segments;
    assert(on_grid(a.world, s[s.len() - 1].0 as int, s[s.len() - 1].1 as int));
    assert(a.world[s.last().1 as int].len() == width(a.world));
    assert forall|i: int| 0 <= i < heads.len() implies (#[trigger] heads[i]).riders =~= seq![
        k,
    ] && rides(a, k) by {
        let riders = heads[i].riders;
        assert forall|r: int| 0 <= r < riders.len() implies #[trigger] riders[r] == k by {
            assert(heads[i].riders.contains(riders[r]));
            assert(rides(a, riders[r]));
            assert(a.players.contains_key(riders[r]));
        }
        assert(heads[i].riders.contains(riders[0]));
        if riders.len() > 1 {
            assert(riders[0] == riders[1]);
        }
    }
    if leavers(a).contains(k) {
        assert(crashes(a, k));
        if heads.len() > 0 {
            assert(heads[0].riders =~= seq![k]);
        }
        assert(m == thinned(a));
        assert(crashers(a) =~= set![k]) by {
            assert forall|j: u64| crashers(a).contains(j) implies j == k by {
                assert(a.players.contains_key(j));
            }
        }
        lemma_slaying_is_death(a, set![k]);
        assert(is_death_of(a, m, set![k]));
    } else {
        assert(!crashers(a).contains(k));
        assert(crashers(a) =~= Set::<u64>::empty()) by {
            assert forall|j: u64| !crashers(a).contains(j) by {
                if crashes(a, j) {
                    assert(a.players.contains_key(j));
                }
            }
        }
        assert(thinned(a) =~~= a);
        assert(rides(a, k));
        let i = choose|i: int| 0 <= i < heads.len() && (#[trigger] heads[i]).riders.contains(k);
        assert(heads.len() == 1) by {
            if heads.len() > 1 {
                let j: int = if i == 0 {
                    1
                } else {
                    0
                };
                assert(heads[j].riders =~= seq![k]);
                assert(heads[j].riders[0] == k);
                assert(heads[j].riders.contains(k));
                assert(heads[i].cell == heads[j].cell);
                if i < j {
                    assert(heads[i].cell != heads[j].cell);
                } else {
                    assert(heads[j].cell != heads[i].cell);
                }
            }
        }
        let cell = heads[0].cell;
        assert(heads[0].riders =~= seq![k]);
        assert(heads[0].riders[0] == k);
        assert(heads[0].riders.contains(k));
        assert(heads[0] =~= (HeadView { cell, riders: seq![k] }));
        assert(heads.drop_last() =~= Seq::<HeadView>::empty());
        assert(resolve(a, heads.drop_last()) == a);
        assert(m == meet(a, HeadView { cell, riders: seq![k] }));
    }
}

/// Where nobody lives, a tick changes nothing, but new fruits may come.
pub proof fn law_the_dead_rest(a: Arena, b: Arena)
    requires
        is_steady(a),
        is_turn(a, b),
        forall|j: u64| #[trigger] a.players.contains_key(j) ==> !a.players[j].alive,
    ensures
        is_refilled(a, b),
{
    let m = choose|m: Arena| #[trigger] is_tick(a, m) && is_refilled(m, b);
    law_waiting_changes_nothing(a, m);
}

} // verus!
