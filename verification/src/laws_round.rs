//! What a new round takes over from the last one.

use vstd::prelude::*;
#[allow(unused_imports)]
use crate::arena::Arena;
#[allow(unused_imports)]
use crate::grid::{on_grid, squares_with, EMPTY, FRUIT};
#[allow(unused_imports)]
use crate::init::{
    after_tries, bare, blank, drawn_round, gets_square, is_empty_at, is_fresh, is_hit,
    is_start_of, is_start_square, places_everybody, started, tried,
};
#[allow(unused_imports)]
use crate::snaek::SnaekView;

verus! {

/// Two players differ at most in their bodies and in whether they live.
pub open spec fn is_alike(s: SnaekView, t: SnaekView) -> bool {
    s == (SnaekView { segments: s.segments, alive: s.alive, ..t })
}

/// The same players, each with its name, its symbol, its points and its last
/// key in both.
pub open spec fn are_alike(p: Map<u64, SnaekView>, q: Map<u64, SnaekView>) -> bool {
    &&& p.dom() == q.dom()
    &&& forall|k: u64| #[trigger] p.contains_key(k) ==> is_alike(p[k], q[k])
}

/// The same draws keep two such arenas alike, and make those players equal
/// that they give a square to.
proof fn lemma_same_tries(a: Arena, b: Arena, tries: Seq<(u64, usize, usize)>)
    requires
        a.world == b.world,
        are_alike(a.players, b.players),
        forall|i: int| 0 <= i < tries.len() ==> a.players.contains_key((#[trigger] tries[i]).0),
    ensures
        after_tries(a, tries).world == after_tries(b, tries).world,
        after_tries(a, tries).players.dom() == a.players.dom(),
        are_alike(after_tries(a, tries).players, after_tries(b, tries).players),
        forall|k: u64| #[trigger]
            gets_square(a, tries, k) ==> after_tries(a, tries).players[k] == after_tries(
                b,
                tries,
            ).players[k],
    decreases tries.len(),
{
    if tries.len() > 0 {
        let fewer = tries.drop_last();
        let t = tries.last();
        assert forall|i: int| 0 <= i < fewer.len() implies a.players.contains_key(
            (#[trigger] fewer[i]).0,
        ) by {
            assert(fewer[i] == tries[i]);
        }
        lemma_same_tries(a, b, fewer);
        let c = after_tries(a, fewer);
        let d = after_tries(b, fewer);
        assert(tries[tries.len() - 1] == t);
        assert(c.players.contains_key(t.0));
        assert(is_alike(c.players[t.0], d.players[t.0]));
        let e = after_tries(a, tries);
        let f = after_tries(b, tries);
        assert(e == tried(c, t));
        assert(f == tried(d, t));
        assert(e.players.dom() =~= a.players.dom());
        assert(f.players.dom() =~= e.players.dom());
        assert forall|k: u64| #[trigger] e.players.contains_key(k) implies is_alike(
            e.players[k],
            f.players[k],
        ) by {
            assert(c.players.contains_key(k));
        }
        assert forall|k: u64| #[trigger] gets_square(a, tries, k) implies e.players[k]
            == f.players[k] by {
            let i = choose|i: int| is_hit(a, tries, i, k);
            if i < fewer.len() {
                assert(fewer.take(i) =~= tries.take(i));
                assert(fewer[i] == tries[i]);
                assert(is_hit(a, fewer, i, k));
                assert(gets_square(a, fewer, k));
            } else {
                assert(tries.take(i) =~= fewer);
            }
        }
    } else {
        assert forall|k: u64| #[trigger] gets_square(a, tries, k) implies a.players[k]
            == b.players[k] by {
            let i = choose|i: int| is_hit(a, tries, i, k);
            assert(false);
        }
    }
}

/// A new round does not depend on the last one: the same draws, in the same
/// order, make equal arenas of two rosters that differ only in bodies and in
/// who lives.
pub proof fn law_round_forgets_the_last(
    p: Map<u64, SnaekView>,
    q: Map<u64, SnaekView>,
    w: int,
    h: int,
    tries: Seq<(u64, usize, usize)>,
    fruits: Seq<(usize, usize)>,
)
    requires
        are_alike(p, q),
        places_everybody(p, w, h, tries),
    ensures
        drawn_round(p, w, h, tries, fruits) == drawn_round(q, w, h, tries, fruits),
        places_everybody(q, w, h, tries),
{
    let a = bare(p, w, h);
    let b = bare(q, w, h);
    lemma_same_tries(a, b, tries);
    let c = after_tries(a, tries);
    let d = after_tries(b, tries);
    assert(c.players =~= d.players) by {
        assert forall|k: u64| #[trigger] c.players.contains_key(k) implies c.players[k]
            == d.players[k] by {
            assert(p.contains_key(k));
            assert(gets_square(a, tries, k));
        }
    }
    assert forall|k: u64| #[trigger] q.contains_key(k) implies gets_square(b, tries, k) by {
        assert(p.contains_key(k));
        assert(gets_square(a, tries, k));
        let i = choose|i: int| is_hit(a, tries, i, k);
        let fewer = tries.take(i);
        assert forall|j: int| 0 <= j < fewer.len() implies p.contains_key(
            (#[trigger] fewer[j]).0,
        ) by {
            assert(fewer[j] == tries[j]);
        }
        lemma_same_tries(a, b, fewer);
        assert(is_hit(b, tries, i, k));
    }
    assert forall|i: int| 0 <= i < tries.len() implies q.contains_key((#[trigger] tries[i]).0) by {
        assert(p.contains_key(tries[i].0));
    }
}

/// A new round keeps who the players are: nobody comes or goes, and name,
/// symbol, points and last input of everybody are what they were. Everybody
/// lives, with one segment on a square of the world that shows their symbol
/// and is nobody else's.
pub proof fn law_round_keeps_the_players(before: Map<u64, SnaekView>, a: Arena, w: int, h: int)
    requires
        is_fresh(before, a, w, h),
    ensures
        forall|k: u64| #[trigger] before.contains_key(k) <==> a.players.contains_key(k),
        forall|k: u64| #[trigger]
            before.contains_key(k) ==> {
                let (p, q) = (before[k], a.players[k]);
                let (x, y) = (q.segments[0].0 as int, q.segments[0].1 as int);
                &&& q.name == p.name
                &&& q.symbol == p.symbol
                &&& q.score == p.score
                &&& q.last_input == p.last_input
                &&& q.alive
                &&& q.segments.len() == 1
                &&& 0 <= y < a.world.len()
                &&& 0 <= x < a.world[y].len()
                &&& a.world[y][x] == p.symbol
            },
        forall|j: u64, k: u64| #[trigger]
            before.contains_key(j) && #[trigger] before.contains_key(k) && j != k
                ==> a.players[j].segments[0] != a.players[k].segments[0],
{
    assert forall|k: u64| #[trigger] before.contains_key(k) <==> a.players.contains_key(k) by {
        assert(before.dom().contains(k) <==> a.players.dom().contains(k));
    }
    assert forall|k: u64| #[trigger] before.contains_key(k) implies is_start_of(before, a, k) by {
        assert(a.players.contains_key(k));
    }
}

/// The world of a new round has `h` rows of `w` squares. Ten of them hold
/// fruits, and every other square on which nobody starts is empty.
pub proof fn law_round_makes_the_world(before: Map<u64, SnaekView>, a: Arena, w: int, h: int)
    requires
        is_fresh(before, a, w, h),
    ensures
        a.world.len() == h,
        forall|y: int| 0 <= y < h ==> #[trigger] a.world[y].len() == w,
        ({
            let fruits = Set::new(
                |s: (int, int)| 0 <= s.1 < h && 0 <= s.0 < w && a.world[s.1][s.0] == FRUIT,
            );
            fruits.finite() && fruits.len() == 10
        }),
        forall|x: int, y: int|
            #![trigger a.world[y][x]]
            0 <= y < h && 0 <= x < w && a.world[y][x] != FRUIT && (forall|k: u64| #[trigger]
                before.contains_key(k) ==> !(a.players[k].segments[0].0 == x
                    && a.players[k].segments[0].1 == y)) ==> a.world[y][x] == EMPTY,
{
    let fruits = Set::new(
        |s: (int, int)| 0 <= s.1 < h && 0 <= s.0 < w && a.world[s.1][s.0] == FRUIT,
    );
    assert(fruits =~= squares_with(a.world, FRUIT)) by {
        assert forall|s: (int, int)|
            fruits.contains(s) <==> squares_with(a.world, FRUIT).contains(s) by {
            if 0 <= s.1 < h {
                assert(a.world[s.1].len() == w);
            }
        }
    }
    assert forall|x: int, y: int|
        #![trigger a.world[y][x]]
        0 <= y < h && 0 <= x < w && a.world[y][x] != FRUIT && (forall|k: u64| #[trigger]
            before.contains_key(k) ==> !(a.players[k].segments[0].0 == x
                && a.players[k].segments[0].1 == y)) implies a.world[y][x] == EMPTY by {
        assert(a.world[y].len() == w);
        assert(on_grid(a.world, x, y));
        if is_start_square(a.players, a.players.dom(), x, y) {
            let k = choose|k: u64| #[trigger]
                a.players.dom().contains(k) && a.players[k].segments[0].0 == x
                    && a.players[k].segments[0].1 == y;
            assert(before.dom().contains(k));
            assert(before.contains_key(k));
        }
    }
}

/// A player who starts has one segment and lives; nothing else about them
/// changes.
pub proof fn law_starting(p: SnaekView, x: usize, y: usize)
    ensures
        started(p, x, y).segments.len() == 1,
        started(p, x, y).segments[0] == (x, y),
        started(p, x, y).alive,
        started(p, x, y).name == p.name,
        started(p, x, y).symbol == p.symbol,
        started(p, x, y).score == p.score,
        started(p, x, y).last_input == p.last_input,
{
}

/// A cleared world has `h` rows of `w` squares, and all of them are empty.
pub proof fn law_cleared_worlds(w: int, h: int)
    requires
        0 <= w,
        0 <= h,
    ensures
        blank(w, h).len() == h,
        forall|y: int| 0 <= y < h ==> #[trigger] blank(w, h)[y].len() == w,
        forall|x: int, y: int| 0 <= y < h && 0 <= x < w ==> #[trigger] blank(w, h)[y][x] == EMPTY,
{
}

/// A drawn square can be taken exactly where it is one of the world and shows
/// nothing.
pub proof fn law_squares_to_take(g: Seq<Seq<char>>, x: int, y: int)
    ensures
        is_empty_at(g, x, y) <==> 0 <= y < g.len() && 0 <= x < g[y].len() && g[y][x] == EMPTY,
{
}

} // verus!
