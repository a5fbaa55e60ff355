//! What the single steps of the game do, square by square and field by field.

use vstd::prelude::*;
#[allow(unused_imports)]
use crate::arena::{
    arena, can_score, is_lined_up, is_muster, is_placed, is_steady, lies_on, meet, resolve, rides,
    slay, Arena, HeadView,
};
#[allow(unused_imports)]
use crate::grid::{covers, on_grid, put, stained, width, EMPTY, FRUIT, POOP};
#[allow(unused_imports)]
use crate::snaek::{next_cell, opposite, steered, Snaek, SnaekView};
#[allow(unused_imports)]
use crate::update::{lineup, Head};

verus! {

/// Each direction leads to the neighbour on its own side, and out of the world
/// only at the edge on that side. A space leads nowhere else, and any other
/// input leads out.
pub proof fn law_directions(head: (usize, usize), input: char, w: int, h: int)
    requires
        head.0 < w <= usize::MAX,
        head.1 < h <= usize::MAX,
    ensures
        ({
            let (x, y) = (head.0 as int, head.1 as int);
            let next = next_cell(head, input, w, h);
            let (p, q) = (next.unwrap().0 as int, next.unwrap().1 as int);
            &&& input == 'w' ==> (next is Some <==> y != 0) && (y != 0 ==> p == x && q == y - 1)
            &&& input == 'a' ==> (next is Some <==> x != 0) && (x != 0 ==> p == x - 1 && q == y)
            &&& input == 's' ==> (next is Some <==> y != h - 1) && (y != h - 1 ==> p == x && q == y
                + 1)
            &&& input == 'd' ==> (next is Some <==> x != w - 1) && (x != w - 1 ==> p == x + 1 && q
                == y)
            &&& input == ' ' ==> next is Some && p == x && q == y
            &&& input != 'w' && input != 'a' && input != 's' && input != 'd' && input != ' '
                ==> next is None
        }),
{
}

/// A step and the step that leads back end where they began.
pub proof fn law_steps_lead_back(head: (usize, usize), input: char, w: int, h: int)
    requires
        head.0 < w <= usize::MAX,
        head.1 < h <= usize::MAX,
        input != ' ',
        next_cell(head, input, w, h) is Some,
    ensures
        next_cell(next_cell(head, input, w, h).unwrap(), opposite(input), w, h) == Some(head),
        opposite(opposite(input)) == input,
{
}

/// A player who asks for one of the four directions gets it, whatever they did
/// before, unless it is the one that leads back. Nothing else changes the
/// direction.
pub proof fn law_requests_are_met(last_input: char, dir: char)
    ensures
        ({
            let asks = dir == 'w' || dir == 'a' || dir == 's' || dir == 'd';
            let back = {
                ||| last_input == 'w' && dir == 's'
                ||| last_input == 's' && dir == 'w'
                ||| last_input == 'a' && dir == 'd'
                ||| last_input == 'd' && dir == 'a'
            };
            &&& asks && !back ==> steered(last_input, dir) == dir
            &&& !asks || back ==> steered(last_input, dir) == last_input
        }),
{
}

/// To set one square changes that one alone.
pub proof fn law_one_square_is_set(g: Seq<Seq<char>>, x: int, y: int, c: char)
    requires
        0 <= y < g.len(),
        0 <= x < g[y].len(),
    ensures
        put(g, x, y, c).len() == g.len(),
        forall|q: int| 0 <= q < g.len() ==> #[trigger] put(g, x, y, c)[q].len() == g[q].len(),
        put(g, x, y, c)[y][x] == c,
        forall|p: int, q: int|
            0 <= q < g.len() && 0 <= p < g[q].len() && !(p == x && q == y) ==> #[trigger] put(
                g,
                x,
                y,
                c,
            )[q][p] == g[q][p],
{
}

/// To stain squares puts poop on each of them, and leaves the others alone.
pub proof fn law_stains(g: Seq<Seq<char>>, squares: Seq<(usize, usize)>)
    requires
        forall|i: int|
            0 <= i < squares.len() ==> (#[trigger] squares[i]).1 < g.len() && squares[i].0
                < g[squares[i].1 as int].len(),
    ensures
        stained(g, squares).len() == g.len(),
        forall|q: int| 0 <= q < g.len() ==> #[trigger] stained(g, squares)[q].len() == g[q].len(),
        forall|i: int|
            0 <= i < squares.len() ==> stained(
                g,
                squares,
            )[(#[trigger] squares[i]).1 as int][squares[i].0 as int] == POOP,
        forall|p: int, q: int|
            #![trigger stained(g, squares)[q][p]]
            0 <= q < g.len() && 0 <= p < g[q].len() && (forall|i: int|
                0 <= i < squares.len() ==> !((#[trigger] squares[i]).0 == p && squares[i].1 == q))
                ==> stained(g, squares)[q][p] == g[q][p],
{
    assert forall|i: int| 0 <= i < squares.len() implies stained(
        g,
        squares,
    )[(#[trigger] squares[i]).1 as int][squares[i].0 as int] == POOP by {
        assert(covers(squares, squares[i].0 as int, squares[i].1 as int));
    }
    assert forall|p: int, q: int|
        #![trigger stained(g, squares)[q][p]]
        0 <= q < g.len() && 0 <= p < g[q].len() && (forall|i: int|
            0 <= i < squares.len() ==> !((#[trigger] squares[i]).0 == p && squares[i].1
                == q)) implies stained(g, squares)[q][p] == g[q][p] by {
        assert(!covers(squares, p, q));
    }
}

/// Two players differ in nothing but that the second is dead.
pub open spec fn is_corpse_of(p: SnaekView, q: SnaekView) -> bool {
    &&& !q.alive
    &&& q.name == p.name
    &&& q.segments == p.segments
    &&& q.symbol == p.symbol
    &&& q.score == p.score
    &&& q.last_input == p.last_input
}

/// To slay players kills them and nobody else, puts poop on every square of
/// their bodies, and leaves all other squares alone.
pub proof fn law_slaying(a: Arena, ks: Set<u64>)
    ensures
        slay(a, ks).players.dom() == a.players.dom(),
        forall|k: u64| #[trigger]
            a.players.contains_key(k) ==> if ks.contains(k) {
                is_corpse_of(a.players[k], slay(a, ks).players[k])
            } else {
                slay(a, ks).players[k] == a.players[k]
            },
        slay(a, ks).world.len() == a.world.len(),
        forall|y: int|
            0 <= y < a.world.len() ==> #[trigger] slay(a, ks).world[y].len() == a.world[y].len(),
        forall|k: u64, i: int|
            #![trigger ks.contains(k), a.players[k].segments[i]]
            ks.contains(k) && a.players.contains_key(k) && 0 <= i < a.players[k].segments.len()
                && a.players[k].segments[i].1 < a.world.len() && a.players[k].segments[i].0
                < a.world[a.players[k].segments[i].1 as int].len() ==> slay(
                a,
                ks,
            ).world[a.players[k].segments[i].1 as int][a.players[k].segments[i].0 as int] == POOP,
        forall|x: int, y: int|
            #![trigger slay(a, ks).world[y][x]]
            0 <= y < a.world.len() && 0 <= x < a.world[y].len() && (forall|k: u64, i: int|
                #![trigger ks.contains(k), a.players[k].segments[i]]
                ks.contains(k) && a.players.contains_key(k) && 0 <= i
                    < a.players[k].segments.len() ==> !(a.players[k].segments[i].0 == x
                    && a.players[k].segments[i].1 == y)) ==> slay(a, ks).world[y][x]
                == a.world[y][x],
{
    let b = slay(a, ks);
    assert(b.players.dom() =~= a.players.dom());
    assert forall|k: u64, i: int|
        #![trigger ks.contains(k), a.players[k].segments[i]]
        ks.contains(k) && a.players.contains_key(k) && 0 <= i < a.players[k].segments.len()
            && a.players[k].segments[i].1 < a.world.len() && a.players[k].segments[i].0
            < a.world[a.players[k].segments[i].1 as int].len() implies
        b.world[a.players[k].segments[i].1 as int][a.players[k].segments[i].0 as int] == POOP by {
        let s = a.players[k].segments[i];
        assert(covers(a.players[k].segments, s.0 as int, s.1 as int));
        assert(lies_on(a.players, ks, s.0 as int, s.1 as int));
    }
    assert forall|x: int, y: int|
        #![trigger b.world[y][x]]
        0 <= y < a.world.len() && 0 <= x < a.world[y].len() && (forall|k: u64, i: int|
            #![trigger ks.contains(k), a.players[k].segments[i]]
            ks.contains(k) && a.players.contains_key(k) && 0 <= i < a.players[k].segments.len()
                ==> !(a.players[k].segments[i].0 == x && a.players[k].segments[i].1
                == y)) implies b.world[y][x] == a.world[y][x] by {
        if lies_on(a.players, ks, x, y) {
            let k = choose|k: u64| #[trigger]
                ks.contains(k) && a.players.contains_key(k) && covers(
                    a.players[k].segments,
                    x,
                    y,
                );
            let s = a.players[k].segments;
            let i = choose|i: int| 0 <= i < s.len() && (#[trigger] s[i]).0 == x && s[i].1 == y;
            assert(ks.contains(k) && a.players[k].segments[i].0 == x);
        }
    }
}

/// Who comes alone to a square with a fruit, or to an empty one, takes it.
///
/// Nobody else changes. The player lives, and is who they were. The head is on
/// the square, and the body follows: with the fruit it keeps all its segments
/// and there is one point more, without it the last segment goes. The square
/// shows the symbol, the square of the old tail is empty, and all the others
/// show what they showed.
pub proof fn law_taking_a_square(a: Arena, k: u64, cell: (usize, usize))
    requires
        is_lined_up(a, seq![HeadView { cell, riders: seq![k] }]),
        ({
            let found = a.world[cell.1 as int][cell.0 as int];
            found == FRUIT || found == EMPTY
        }),
    ensures
        ({
            let b = meet(a, HeadView { cell, riders: seq![k] });
            let (p, q) = (a.players[k], b.players[k]);
            let grown: int = if a.world[cell.1 as int][cell.0 as int] == FRUIT {
                1
            } else {
                0
            };
            let tail = p.segments[0];
            &&& b.players.dom() == a.players.dom()
            &&& forall|j: u64| #[trigger]
                a.players.contains_key(j) && j != k ==> b.players[j] == a.players[j]
            &&& q.alive == p.alive
            &&& q.name == p.name
            &&& q.symbol == p.symbol
            &&& q.last_input == p.last_input
            &&& q.score == p.score + grown
            &&& q.segments.len() == p.segments.len() + grown
            &&& q.segments.last() == cell
            &&& forall|i: int|
                0 <= i < q.segments.len() - 1 ==> #[trigger] q.segments[i] == p.segments[i + 1
                    - grown]
            &&& b.world.len() == a.world.len()
            &&& forall|y: int|
                0 <= y < a.world.len() ==> #[trigger] b.world[y].len() == a.world[y].len()
            &&& b.world[tail.1 as int][tail.0 as int] == EMPTY
            &&& cell != tail ==> b.world[cell.1 as int][cell.0 as int] == p.symbol
            &&& forall|x: int, y: int|
                #![trigger b.world[y][x]]
                0 <= y < a.world.len() && 0 <= x < a.world[y].len() && !(cell.0 == x && cell.1
                    == y) && !(tail.0 == x && tail.1 == y) ==> b.world[y][x] == a.world[y][x]
        }),
{
    let head = HeadView { cell, riders: seq![k] };
    let one = seq![head];
    assert(one[0] == head);
    assert(head.riders[0] == k);
    assert(one[0].riders.contains(k));
    assert(is_placed(a, k));
    let b = meet(a, head);
    let p = a.players[k];
    let tail = p.segments[0];
    assert(on_grid(a.world, tail.0 as int, tail.1 as int));
    assert(on_grid(a.world, cell.0 as int, cell.1 as int));
    assert(b.players.dom() =~= a.players.dom());
    let g = put(a.world, cell.0 as int, cell.1 as int, p.symbol);
    law_one_square_is_set(a.world, cell.0 as int, cell.1 as int, p.symbol);
    law_one_square_is_set(g, tail.0 as int, tail.1 as int, EMPTY);
    assert(b.world == put(g, tail.0 as int, tail.1 as int, EMPTY));
}

/// Who comes alone to a square with anything else on it dies, and nobody else
/// does; but who rests there is not touched, and nothing is.
pub proof fn law_hitting_something(a: Arena, k: u64, cell: (usize, usize))
    requires
        is_lined_up(a, seq![HeadView { cell, riders: seq![k] }]),
        ({
            let found = a.world[cell.1 as int][cell.0 as int];
            found != FRUIT && found != EMPTY
        }),
    ensures
        ({
            let b = meet(a, HeadView { cell, riders: seq![k] });
            if a.players[k].last_input == ' ' {
                b == a
            } else {
                &&& is_corpse_of(a.players[k], b.players[k])
                &&& is_death_of(a, b, set![k])
            }
        }),
{
    let head = HeadView { cell, riders: seq![k] };
    let one = seq![head];
    assert(one[0] == head);
    assert(head.riders[0] == k);
    assert(one[0].riders.contains(k));
    assert(is_placed(a, k));
    assert(set![k].contains(k));
    if a.players[k].last_input != ' ' {
        lemma_slaying_is_death(a, set![k]);
    }
}

/// Those in `ks` die, and that is all that happens: poop lies on every square
/// of their bodies, the other squares show what they showed, and the other
/// players are as they were.
pub open spec fn is_death_of(a: Arena, b: Arena, ks: Set<u64>) -> bool {
    &&& b.players.dom() == a.players.dom()
    &&& forall|k: u64| #[trigger]
        a.players.contains_key(k) ==> if ks.contains(k) {
            is_corpse_of(a.players[k], b.players[k])
        } else {
            b.players[k] == a.players[k]
        }
    &&& b.world.len() == a.world.len()
    &&& forall|y: int| 0 <= y < a.world.len() ==> #[trigger] b.world[y].len() == a.world[y].len()
    &&& forall|x: int, y: int|
        #![trigger b.world[y][x]]
        0 <= y < a.world.len() && 0 <= x < a.world[y].len() ==> b.world[y][x] == if (exists|
            k: u64,
            i: int,
        |
            #![trigger ks.contains(k), a.players[k].segments[i]]
            ks.contains(k) && a.players.contains_key(k) && 0 <= i < a.players[k].segments.len()
                && a.players[k].segments[i].0 == x && a.players[k].segments[i].1 == y) {
            POOP
        } else {
            a.world[y][x]
        }
}

/// To slay players is the death of them.
pub proof fn lemma_slaying_is_death(a: Arena, ks: Set<u64>)
    ensures
        is_death_of(a, slay(a, ks), ks),
{
    law_slaying(a, ks);
}

/// Those who come to one square together all die, and nobody else does.
pub proof fn law_crowds_die(a: Arena, head: HeadView)
    requires
        is_lined_up(a, seq![head]),
        head.riders.len() > 1,
    ensures
        forall|k: u64| #[trigger]
            head.riders.contains(k) ==> is_corpse_of(a.players[k], meet(a, head).players[k]),
        is_death_of(a, meet(a, head), head.riders.to_set()),
{
    let one = seq![head];
    assert(one[0] == head);
    let ks = head.riders.to_set();
    lemma_slaying_is_death(a, ks);
    assert forall|k: u64| #[trigger] head.riders.contains(k) implies is_corpse_of(
        a.players[k],
        meet(a, head).players[k],
    ) by {
        assert(one[0].riders.contains(k));
        assert(is_placed(a, k));
        assert(ks.contains(k));
    }
}

/// Meetings are held one after the other: without any nothing happens, a
/// single one is just that, and some and then some more are all of them.
pub proof fn law_meetings_add_up(a: Arena, first: Seq<HeadView>, then: Seq<HeadView>)
    ensures
        resolve(a, Seq::<HeadView>::empty()) == a,
        resolve(a, first + then) == resolve(resolve(a, first), then),
        forall|head: HeadView| #[trigger] resolve(a, seq![head]) == meet(a, head),
    decreases then.len(),
{
    assert forall|head: HeadView| #[trigger] resolve(a, seq![head]) == meet(a, head) by {
        assert(seq![head].drop_last() =~= Seq::<HeadView>::empty());
        assert(resolve(a, seq![head].drop_last()) == a);
    }
    if then.len() == 0 {
        assert(first + then =~= first);
    } else {
        law_meetings_add_up(a, first, then.drop_last());
        assert((first + then).drop_last() =~= first + then.drop_last());
        assert((first + then).last() == then.last());
    }
}

/// Every living player whose next square lies in the world is listed under
/// that square once, and nobody else is listed.
pub proof fn law_muster_lists_movers(a: Arena, heads: Seq<HeadView>, k: u64)
    requires
        is_muster(a, heads),
    ensures
        (exists|i: int| 0 <= i < heads.len() && (#[trigger] heads[i]).riders.contains(k))
            <==> a.players.contains_key(k) && a.players[k].alive && next_cell(
            a.players[k].segments.last(),
            a.players[k].last_input,
            width(a.world),
            a.world.len() as int,
        ) is Some,
        forall|i: int|
            0 <= i < heads.len() && (#[trigger] heads[i]).riders.contains(k) ==> Some(
                heads[i].cell,
            ) == next_cell(
                a.players[k].segments.last(),
                a.players[k].last_input,
                width(a.world),
                a.world.len() as int,
            ),
        forall|i: int, j: int|
            0 <= i < heads.len() && 0 <= j < heads.len() && (#[trigger] heads[i]).riders.contains(k)
                && (#[trigger] heads[j]).riders.contains(k) ==> i == j,
        forall|i: int, m: int, n: int|
            0 <= i < heads.len() && 0 <= m < heads[i].riders.len() && 0 <= n
                < heads[i].riders.len() && #[trigger] heads[i].riders[m] == k
                && #[trigger] heads[i].riders[n] == k ==> m == n,
{
    if rides(a, k) {
        assert(a.players.dom().contains(k));
    }
    assert forall|i: int, j: int|
        0 <= i < heads.len() && 0 <= j < heads.len() && (#[trigger] heads[i]).riders.contains(k)
            && (#[trigger] heads[j]).riders.contains(k) implies i == j by {
        assert(Some(heads[i].cell) == Some(heads[j].cell));
        if i < j {
            assert(heads[i].cell != heads[j].cell);
        } else if j < i {
            assert(heads[j].cell != heads[i].cell);
        }
    }
}

/// A player as mathematics sees it has the fields of the player.
pub proof fn law_view_of_a_player(p: Snaek)
    ensures
        p@.name == p.name@,
        p@.segments == p.segments@,
        p@.symbol == p.symbol,
        p@.score == p.score,
        p@.last_input == p.last_input,
        p@.alive == p.alive,
{
}

/// The arena of a world and a table of players has the squares of the world
/// and the players of the table.
pub proof fn law_view_of_the_game(v: Seq<Vec<char>>, players: Map<u64, Snaek>)
    ensures
        arena(v, players).world.len() == v.len(),
        forall|y: int| 0 <= y < v.len() ==> #[trigger] arena(v, players).world[y] == v[y]@,
        arena(v, players).players.dom() == players.dom(),
        forall|k: u64| #[trigger]
            players.contains_key(k) ==> arena(v, players).players[k] == players[k]@,
{
    assert(arena(v, players).players.dom() =~= players.dom());
}

/// The heads as mathematics sees them have the squares and the riders of the
/// heads, in the same order.
pub proof fn law_view_of_the_heads(heads: Seq<Head>)
    ensures
        lineup(heads).len() == heads.len(),
        forall|i: int|
            0 <= i < heads.len() ==> (#[trigger] lineup(heads)[i]).cell == heads[i].cell && lineup(
                heads,
            )[i].riders == heads[i].riders@,
{
}

/// A game can take a tick if its rows are equally long, every living player
/// has a body, and every segment of it lies in the world.
pub proof fn law_steady_games(a: Arena)
    ensures
        is_steady(a) <==> {
            &&& forall|y: int, z: int|
                #![trigger a.world[y], a.world[z]]
                0 <= y < a.world.len() && 0 <= z < a.world.len() ==> a.world[y].len()
                    == a.world[z].len()
            &&& forall|k: u64|
                #[trigger] a.players.contains_key(k) && a.players[k].alive
                    ==> a.players[k].segments.len() > 0
            &&& forall|k: u64, i: int|
                #![trigger a.players[k].segments[i]]
                a.players.contains_key(k) && a.players[k].alive && 0 <= i
                    < a.players[k].segments.len() ==> a.players[k].segments[i].1 < a.world.len()
                    && a.players[k].segments[i].0 < a.world[a.players[k].segments[i].1 as int].len()
        },
        can_score(a) <==> forall|k: u64|
            #[trigger] a.players.contains_key(k) && a.players[k].alive ==> a.players[k].score
                < usize::MAX,
{
    if is_steady(a) {
        assert forall|y: int, z: int|
            #![trigger a.world[y], a.world[z]]
            0 <= y < a.world.len() && 0 <= z < a.world.len() implies a.world[y].len()
            == a.world[z].len() by {
            assert(a.world[y].len() == width(a.world));
            assert(a.world[z].len() == width(a.world));
        }
        assert forall|k: u64, i: int|
            #![trigger a.players[k].segments[i]]
            a.players.contains_key(k) && a.players[k].alive && 0 <= i
                < a.players[k].segments.len() implies a.players[k].segments[i].1 < a.world.len()
            && a.players[k].segments[i].0 < a.world[a.players[k].segments[i].1 as int].len() by {
            assert(is_placed(a, k));
        }
    }
}

} // verus!
