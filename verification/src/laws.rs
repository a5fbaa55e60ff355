//! What holds of every tick, in whichever order the squares have their turn.

use vstd::prelude::*;
#[allow(unused_imports)]
use crate::arena::{
    comes_early, crashers, crashes, destination, is_lined_up, is_muster, is_placed, is_steady,
    is_tick, lemma_meet_keeps_board, lemma_muster_is_lined_up, lemma_next_meeting,
    lemma_slay_keeps_board, meet, resolve, rides, same_shape, slay, Arena, HeadView,
};
#[allow(unused_imports)]
use crate::grid::{is_even, on_grid, width};
#[allow(unused_imports)]
use crate::snaek::SnaekView;

verus! {

/// The arena once those who leave the world in this tick are dead.
pub open spec fn thinned(a: Arena) -> Arena {
    slay(a, crashers(a))
}

/// After its own meeting a player does not change any more.
proof fn lemma_later(a: Arena, heads: Seq<HeadView>, i: int, n: int, k: u64)
    requires
        is_lined_up(a, heads),
        0 <= i < n <= heads.len(),
        heads[i].riders.contains(k),
    ensures
        resolve(a, heads.take(n)).players[k] == resolve(a, heads.take(i + 1)).players[k],
    decreases n,
{
    if n > i + 1 {
        lemma_later(a, heads, i, n - 1, k);
        lemma_next_meeting(a, heads, n - 1);
        let c = resolve(a, heads.take(n - 1));
        assert(heads.take(n).drop_last() =~= heads.take(n - 1));
        lemma_meet_keeps_board(c, heads[n - 1]);
        assert(is_placed(a, k));
        assert(c.players.contains_key(k));
        assert(!heads[n - 1].riders.contains(k));
        assert(meet(c, heads[n - 1]).players[k] == c.players[k]);
    }
}

/// A rider comes to their meeting unchanged, and what happens to them there
/// is what happens to them in the tick.
pub proof fn lemma_turn(a: Arena, heads: Seq<HeadView>, i: int, k: u64)
    requires
        is_steady(a),
        is_muster(a, heads),
        0 <= i < heads.len(),
        heads[i].riders.contains(k),
    ensures
        resolve(thinned(a), heads.take(i)).players.dom() == a.players.dom(),
        resolve(thinned(a), heads.take(i)).players[k] == a.players[k],
        resolve(thinned(a), heads).players[k] == meet(
            resolve(thinned(a), heads.take(i)),
            heads[i],
        ).players[k],
        is_lined_up(resolve(thinned(a), heads.take(i)), seq![heads[i]]),
        same_shape(a.world, resolve(thinned(a), heads.take(i)).world),
{
    let c = thinned(a);
    lemma_muster_is_lined_up(a, heads);
    lemma_slay_keeps_board(a, crashers(a));
    assert(rides(a, k));
    assert(!crashers(a).contains(k));
    assert(c.players[k] == a.players[k]);
    lemma_next_meeting(c, heads, i);
    lemma_later(c, heads, i, heads.len() as int, k);
    assert(heads.take(heads.len() as int) =~= heads);
    assert(heads.take(i + 1).drop_last() =~= heads.take(i));
}

/// What can become of player `k` in one tick.
///
/// The dead stay as they are. Who leaves the world dies. Anybody else dies,
/// rests, or moves to the square that they chose, with or without a fruit.
pub open spec fn is_fate(a: Arena, k: u64, q: SnaekView) -> bool {
    let p = a.players[k];
    let dead = SnaekView { alive: false, ..p };
    if !p.alive {
        q == p
    } else if crashes(a, k) {
        q == dead
    } else {
        let cell = destination(a, k).unwrap();
        ||| q == dead
        ||| q == p && p.last_input == ' '
        ||| q == (SnaekView { segments: p.segments.push(cell).drop_first(), ..p })
        ||| q == (SnaekView { segments: p.segments.push(cell), score: p.score + 1, ..p })
    }
}

/// The same players are there after a tick, in a world of the same shape, and
/// each of them met one of the fates that the rules know.
pub proof fn law_fates(a: Arena, b: Arena)
    requires
        is_steady(a),
        is_tick(a, b),
    ensures
        same_shape(a.world, b.world),
        a.players.dom() == b.players.dom(),
        forall|k: u64| #[trigger] a.players.contains_key(k) ==> is_fate(a, k, b.players[k]),
{
    let heads = choose|heads: Seq<HeadView>|
        #[trigger] is_muster(a, heads) && b == resolve(thinned(a), heads);
    let c = thinned(a);
    lemma_muster_is_lined_up(a, heads);
    lemma_slay_keeps_board(a, crashers(a));
    lemma_next_meeting(c, heads, heads.len() as int);
    assert(heads.take(heads.len() as int) =~= heads);
    assert forall|k: u64| #[trigger] a.players.contains_key(k) implies is_fate(
        a,
        k,
        b.players[k],
    ) by {
        if rides(a, k) {
            let i = choose|i: int|
                0 <= i < heads.len() && (#[trigger] heads[i]).riders.contains(k);
            lemma_turn(a, heads, i, k);
            let before = resolve(c, heads.take(i));
            assert(destination(a, k) == Some(heads[i].cell));
            if heads[i].riders.len() == 1 {
                assert(heads[i].riders[0] == k);
            } else {
                assert(heads[i].riders.to_set().contains(k));
            }
        } else {
            assert(!comes_early(heads, heads.len() as int).contains(k));
            assert(b.players[k] == c.players[k]);
        }
    }
}

/// A tick leads from a steady arena to a steady arena, so another one can follow.
pub proof fn law_tick_stays_steady(a: Arena, b: Arena)
    requires
        is_steady(a),
        is_tick(a, b),
    ensures
        is_steady(b),
{
    law_fates(a, b);
    assert(is_even(b.world)) by {
        assert(width(b.world) == width(a.world));
        assert forall|y: int| 0 <= y < b.world.len() implies #[trigger] b.world[y].len() == width(
            b.world,
        ) by {
            assert(a.world[y].len() == width(a.world));
        }
    }
    let heads = choose|heads: Seq<HeadView>|
        #[trigger] is_muster(a, heads) && b == resolve(thinned(a), heads);
    let c = thinned(a);
    lemma_muster_is_lined_up(a, heads);
    lemma_slay_keeps_board(a, crashers(a));
    lemma_next_meeting(c, heads, heads.len() as int);
    assert(heads.take(heads.len() as int) =~= heads);
    assert forall|k: u64|
        #[trigger] b.players.contains_key(k) && b.players[k].alive implies is_placed(b, k) by {
        assert(a.players.contains_key(k));
        assert(is_fate(a, k, b.players[k]));
        assert(is_placed(a, k));
        assert(is_placed(c, k));
    }
}

/// The dead are not touched by a tick.
pub proof fn law_dead_stay_dead(a: Arena, b: Arena, k: u64)
    requires
        is_steady(a),
        is_tick(a, b),
        a.players.contains_key(k),
        !a.players[k].alive,
    ensures
        b.players[k] == a.players[k],
{
    law_fates(a, b);
}

/// Who would leave the world dies.
pub proof fn law_walls_kill(a: Arena, b: Arena, k: u64)
    requires
        is_steady(a),
        is_tick(a, b),
        crashes(a, k),
    ensures
        b.players[k] == (SnaekView { alive: false, ..a.players[k] }),
{
    law_fates(a, b);
}

/// Two players who enter the same square both die.
pub proof fn law_meeting_heads_die(a: Arena, b: Arena, j: u64, k: u64)
    requires
        is_steady(a),
        is_tick(a, b),
        j != k,
        rides(a, j),
        rides(a, k),
        destination(a, j) == destination(a, k),
    ensures
        b.players[j] == (SnaekView { alive: false, ..a.players[j] }),
        b.players[k] == (SnaekView { alive: false, ..a.players[k] }),
{
    let heads = choose|heads: Seq<HeadView>|
        #[trigger] is_muster(a, heads) && b == resolve(thinned(a), heads);
    let m = choose|i: int| 0 <= i < heads.len() && (#[trigger] heads[i]).riders.contains(j);
    let n = choose|i: int| 0 <= i < heads.len() && (#[trigger] heads[i]).riders.contains(k);
    assert(heads[m].cell == heads[n].cell);
    assert(m == n);
    let x = choose|x: int| 0 <= x < heads[m].riders.len() && heads[m].riders[x] == j;
    let y = choose|y: int| 0 <= y < heads[m].riders.len() && heads[m].riders[y] == k;
    assert(heads[m].riders.len() > 1);
    assert(heads[m].riders.to_set().contains(j));
    assert(heads[m].riders.to_set().contains(k));
    lemma_turn(a, heads, m, j);
    lemma_turn(a, heads, m, k);
}

/// Who is alive after a tick was alive before it, and has their head on the
/// square that they chose.
pub proof fn law_survivors_arrive(a: Arena, b: Arena, k: u64)
    requires
        is_steady(a),
        is_tick(a, b),
        b.players.contains_key(k),
        b.players[k].alive,
    ensures
        rides(a, k),
        Some(b.players[k].segments.last()) == destination(a, k),
{
    law_fates(a, b);
    assert(a.players.contains_key(k));
    assert(is_placed(a, k));
    let p = a.players[k];
    let cell = destination(a, k).unwrap();
    assert(p.segments.push(cell).drop_first().last() == cell);
}

/// After a tick no two living players have their heads on the same square.
pub proof fn law_heads_are_apart(a: Arena, b: Arena, j: u64, k: u64)
    requires
        is_steady(a),
        is_tick(a, b),
        j != k,
        b.players.contains_key(j),
        b.players.contains_key(k),
        b.players[j].alive,
        b.players[k].alive,
    ensures
        b.players[j].segments.last() != b.players[k].segments.last(),
{
    law_survivors_arrive(a, b, j);
    law_survivors_arrive(a, b, k);
    if destination(a, j) == destination(a, k) {
        law_meeting_heads_die(a, b, j, k);
    }
}

/// A snaek grows by one segment for each fruit that it eats, by at most one
/// in a tick, and never gets shorter.
pub proof fn law_growth_is_score(a: Arena, b: Arena, k: u64)
    requires
        is_steady(a),
        is_tick(a, b),
        a.players.contains_key(k),
    ensures
        b.players[k].segments.len() - a.players[k].segments.len() == b.players[k].score
            - a.players[k].score,
        0 <= b.players[k].score - a.players[k].score <= 1,
{
    law_fates(a, b);
}

/// A tick does not change who a player is: name, symbol and direction stay.
pub proof fn law_identity_stays(a: Arena, b: Arena, k: u64)
    requires
        is_steady(a),
        is_tick(a, b),
        a.players.contains_key(k),
    ensures
        b.players[k].name == a.players[k].name,
        b.players[k].symbol == a.players[k].symbol,
        b.players[k].last_input == a.players[k].last_input,
{
    law_fates(a, b);
}

/// Each segment of the body is the same square as the one before it, or one
/// next to that.
pub open spec fn is_chain(segments: Seq<(usize, usize)>) -> bool {
    forall|i: int|
        0 <= i < segments.len() - 1 ==> are_near(#[trigger] segments[i], segments[i + 1])
}

/// The squares are the same or share an edge.
pub open spec fn are_near(s: (usize, usize), t: (usize, usize)) -> bool {
    ||| s == t
    ||| s.0 == t.0 && (s.1 + 1 == t.1 || t.1 + 1 == s.1)
    ||| s.1 == t.1 && (s.0 + 1 == t.0 || t.0 + 1 == s.0)
}

/// A body that hangs together still does after a tick.
pub proof fn law_bodies_hang_together(a: Arena, b: Arena, k: u64)
    requires
        is_steady(a),
        is_tick(a, b),
        a.players.contains_key(k),
        is_chain(a.players[k].segments),
        a.world.len() <= usize::MAX,
        width(a.world) <= usize::MAX,
    ensures
        is_chain(b.players[k].segments),
{
    law_fates(a, b);
    let s = a.players[k].segments;
    let t = b.players[k].segments;
    if rides(a, k) {
        assert(is_placed(a, k));
        assert(on_grid(a.world, s.last().0 as int, s.last().1 as int));
        let cell = destination(a, k).unwrap();
        assert(a.world[s.last().1 as int].len() == width(a.world));
        assert(are_near(s.last(), cell));
        let longer = s.push(cell);
        assert(is_chain(longer)) by {
            assert forall|i: int| 0 <= i < longer.len() - 1 implies are_near(
                #[trigger] longer[i],
                longer[i + 1],
            ) by {
                assert(longer[i] == s[i]);
            }
        }
        assert(is_chain(longer.drop_first())) by {
            assert forall|i: int| 0 <= i < longer.drop_first().len() - 1 implies are_near(
                #[trigger] longer.drop_first()[i],
                longer.drop_first()[i + 1],
            ) by {
                assert(are_near(longer[i + 1], longer[i + 2]));
            }
        }
    }
}

} // verus!
