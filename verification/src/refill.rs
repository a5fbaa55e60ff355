//! New fruits for a world that has run out of them.

use std::collections::HashMap;
use vstd::prelude::*;
use crate::chance::draw_below;
use crate::grid::FRUIT;
use crate::init::{empty_squares, place_fruit, FRUITS};
use crate::snaek::Snaek;
use crate::update::player_ids;
#[allow(unused_imports)]
use crate::arena::{
    arena, free_squares, is_free, is_low, is_refilled, is_under_life, same_shape, Arena,
};
#[allow(unused_imports)]
use crate::grid::{
    covers, grid, is_even, lemma_squares_finite, on_grid, put, squares_with, EMPTY,
};
#[allow(unused_imports)]
use crate::init::{is_empty_at, lemma_fill};
#[allow(unused_imports)]
use vstd::set_lib::{lemma_len_subset, lemma_set_empty_equivalency_len};

verus! {

broadcast use vstd::std_specs::hash::group_hash_axioms;

/// Whether not a single fruit is left.
pub fn is_out_of_fruit(v: &Vec<Vec<char>>) -> (low: bool)
    ensures
        low == is_low(grid(v@)),
{
    for y in 0..v.len()
        invariant
            forall|a: int, b: int|
                #![trigger grid(v@)[b][a]]
                b < y && on_grid(grid(v@), a, b) ==> grid(v@)[b][a] != FRUIT,
    {
        let n: usize = v[y].len();
        for x in 0..n
            invariant
                y < v@.len(),
                n == v@[y as int]@.len(),
                forall|a: int, b: int|
                    #![trigger grid(v@)[b][a]]
                    (b < y || (b == y && a < x)) && on_grid(grid(v@), a, b) ==> grid(v@)[b][a]
                        != FRUIT,
        {
            if v[y][x] == FRUIT {
                assert(on_grid(grid(v@), x as int, y as int));
                assert(grid(v@)[y as int][x as int] == FRUIT);
                return false;
            }
        }
    }
    true
}

/// Whether one of the squares is column `x` of row `y`.
fn covers_square(squares: &Vec<(usize, usize)>, x: usize, y: usize) -> (found: bool)
    ensures
        found == covers(squares@, x as int, y as int),
{
    for i in 0..squares.len()
        invariant
            forall|j: int|
                0 <= j < i ==> !((#[trigger] squares@[j]).0 == x && squares@[j].1 == y),
    {
        if squares[i].0 == x && squares[i].1 == y {
            assert(squares@[i as int].0 == x);
            return true;
        }
    }
    false
}

/// Whether the body of a living player lies on column `x` of row `y`.
fn lies_under_life(
    v: &Vec<Vec<char>>,
    players: &HashMap<u64, Snaek>,
    x: usize,
    y: usize,
) -> (found: bool)
    ensures
        found == is_under_life(arena(v@, players@), x as int, y as int),
{
    let ghost a = arena(v@, players@);
    let ids = player_ids(players);
    for i in 0..ids.len()
        invariant
            a == arena(v@, players@),
            ids@.to_set() == players@.dom(),
            forall|j: int|
                0 <= j < i ==> !(a.players[#[trigger] ids@[j]].alive && covers(
                    a.players[ids@[j]].segments,
                    x as int,
                    y as int,
                )),
    {
        let k: u64 = ids[i];
        assert(ids@.contains(k));
        assert(ids@.to_set().contains(k));
        assert(a.players.contains_key(k));
        if let Some(p) = players.get(&k) {
            if p.alive && covers_square(&p.segments, x, y) {
                return true;
            }
        }
    }
    proof {
        if is_under_life(a, x as int, y as int) {
            let k = choose|k: u64| #[trigger]
                a.players.contains_key(k) && a.players[k].alive && covers(
                    a.players[k].segments,
                    x as int,
                    y as int,
                );
            assert(ids@.to_set().contains(k));
            let j = choose|j: int| 0 <= j < ids@.len() && ids@[j] == k;
            assert(ids@[j] == k);
        }
    }
    false
}

/// Puts a fruit on the drawn square, if that is free.
pub fn place_new_fruit(
    v: &mut Vec<Vec<char>>,
    players: &HashMap<u64, Snaek>,
    x: usize,
    y: usize,
) -> (placed: bool)
    requires
        on_grid(grid(old(v)@), x as int, y as int),
    ensures
        placed == is_free(arena(old(v)@, players@), x as int, y as int),
        placed ==> grid(final(v)@) == put(grid(old(v)@), x as int, y as int, FRUIT),
        !placed ==> grid(final(v)@) == grid(old(v)@),
{
    if lies_under_life(v, players, x, y) {
        return false;
    }
    place_fruit(v, x, y)
}

/// The squares that can take a new fruit, each of them once.
fn list_free(v: &Vec<Vec<char>>, players: &HashMap<u64, Snaek>) -> (squares: Vec<(usize, usize)>)
    ensures
        squares@.no_duplicates(),
        forall|x: usize, y: usize| #[trigger]
            squares@.contains((x, y)) <==> is_free(arena(v@, players@), x as int, y as int),
{
    let empty = empty_squares(v);
    let mut squares: Vec<(usize, usize)> = Vec::new();
    for i in 0..empty.len()
        invariant
            empty@.no_duplicates(),
            forall|x: usize, y: usize| #[trigger]
                empty@.contains((x, y)) <==> is_empty_at(grid(v@), x as int, y as int),
            squares@.no_duplicates(),
            forall|j: int|
                0 <= j < squares@.len() ==> {
                    &&& empty@.take(i as int).contains(#[trigger] squares@[j])
                    &&& is_free(
                        arena(v@, players@),
                        squares@[j].0 as int,
                        squares@[j].1 as int,
                    )
                },
            forall|j: int|
                0 <= j < i && is_free(
                    arena(v@, players@),
                    (#[trigger] empty@[j]).0 as int,
                    empty@[j].1 as int,
                ) ==> squares@.contains(empty@[j]),
    {
        let (x, y): (usize, usize) = empty[i];
        let ghost before = squares@;
        proof {
            assert(empty@.contains((x, y)));
            assert(empty@.take(i + 1) =~= empty@.take(i as int).push((x, y)));
            assert forall|s: (usize, usize)| empty@.take(i as int).contains(s) implies empty@.take(
                i + 1,
            ).contains(s) by {
                let j = choose|j: int| 0 <= j < i && empty@.take(i as int)[j] == s;
                assert(empty@.take(i + 1)[j] == s);
            }
            assert(empty@.take(i + 1)[i as int] == (x, y));
            assert(!empty@.take(i as int).contains((x, y)));
        }
        if !lies_under_life(v, players, x, y) {
            squares.push((x, y));
            assert(squares@[before.len() as int] == (x, y));
            assert forall|s: (usize, usize)| before.contains(s) implies squares@.contains(s) by {
                let j = choose|j: int| 0 <= j < before.len() && before[j] == s;
                assert(squares@[j] == s);
            }
        }
    }
    assert forall|x: usize, y: usize|
        is_free(arena(v@, players@), x as int, y as int) implies #[trigger] squares@.contains(
        (x, y),
    ) by {
        assert(empty@.contains((x, y)));
        let j = choose|j: int| 0 <= j < empty@.len() && empty@[j] == (x, y);
        assert(squares@.contains(empty@[j]));
    }
    squares
}

/// A new fruit takes its square from the free ones, and leaves the others free.
proof fn lemma_new_fruit(a: Arena, b: Arena, x: int, y: int)
    requires
        is_even(a.world),
        is_free(a, x, y),
        b.players == a.players,
        b.world == put(a.world, x, y, FRUIT),
    ensures
        is_even(b.world),
        same_shape(a.world, b.world),
        free_squares(b) == free_squares(a).remove((x, y)),
        free_squares(b).finite(),
        free_squares(b).len() == free_squares(a).len() - 1,
        squares_with(b.world, FRUIT).finite(),
        squares_with(b.world, FRUIT).len() == squares_with(a.world, FRUIT).len() + 1,
{
    lemma_fill(a.world, x, y, FRUIT);
    lemma_free_finite(a);
    assert forall|p: int, q: int| on_grid(b.world, p, q) <==> on_grid(a.world, p, q) by {}
    assert forall|p: int, q: int| is_under_life(b, p, q) <==> is_under_life(a, p, q) by {}
    assert(free_squares(b) =~= free_squares(a).remove((x, y)));
    assert(b.world[0].len() == a.world[0].len());
}

/// There are finitely many free squares.
pub proof fn lemma_free_finite(a: Arena)
    requires
        is_even(a.world),
    ensures
        free_squares(a).finite(),
{
    lemma_squares_finite(a.world, EMPTY);
    assert(free_squares(a).subset_of(squares_with(a.world, EMPTY)));
    lemma_len_subset(free_squares(a), squares_with(a.world, EMPTY));
}

/// Brings new fruits if not a single one is left: as many as a round starts
/// with, on free squares that are drawn by chance, or one on every free
/// square if those are fewer.
pub fn refill(v: &mut Vec<Vec<char>>, players: &HashMap<u64, Snaek>)
    requires
        is_even(grid(old(v)@)),
    ensures
        is_refilled(arena(old(v)@, players@), arena(final(v)@, players@)),
{
    let ghost m = arena(v@, players@);
    if !is_out_of_fruit(v) {
        return;
    }
    proof {
        lemma_free_finite(m);
        assert(squares_with(m.world, FRUIT) =~= Set::<(int, int)>::empty()) by {
            assert forall|s: (int, int)| !squares_with(m.world, FRUIT).contains(s) by {
                if on_grid(m.world, s.0, s.1) {
                    assert(m.world[s.1][s.0] != FRUIT);
                }
            }
        }
        assert forall|x: int, y: int| is_free(m, x, y) implies free_squares(m).len() > 0 by {
            assert(free_squares(m).contains((x, y)));
            lemma_set_empty_equivalency_len(free_squares(m));
        }
    }
    for n in 0..FRUITS
        invariant
            m == arena(old(v)@, players@),
            is_low(m.world),
            forall|x: int, y: int| is_free(m, x, y) ==> free_squares(m).len() > 0,
            squares_with(m.world, FRUIT).len() == 0,
            is_even(grid(v@)),
            same_shape(m.world, grid(v@)),
            forall|x: int, y: int|
                #![trigger grid(v@)[y][x]]
                on_grid(m.world, x, y) ==> grid(v@)[y][x] == m.world[y][x] || (is_free(m, x, y)
                    && grid(v@)[y][x] == FRUIT),
            squares_with(grid(v@), FRUIT).len() == n,
            free_squares(arena(v@, players@)).finite(),
            free_squares(arena(v@, players@)).len() == free_squares(m).len() - n,
    {
        let ghost a = arena(v@, players@);
        assert(a.players == m.players);
        assert(a.world == grid(v@));
        let squares = list_free(v, players);
        if squares.len() == 0 {
            proof {
                assert forall|s: (int, int)| !free_squares(a).contains(s) by {
                    if is_free(a, s.0, s.1) {
                        assert(v@.len() == v.len());
                        assert(v@[s.1]@.len() == v@[s.1].len());
                        assert(squares@.contains((s.0 as usize, s.1 as usize)));
                    }
                }
                assert(free_squares(a) =~= Set::<(int, int)>::empty());
            }
            return;
        }
        let (x, y): (usize, usize) = squares[draw_below(squares.len())];
        proof {
            assert(squares@.contains((x, y)));
            assert(free_squares(a).contains((x as int, y as int)));
            lemma_set_empty_equivalency_len(free_squares(a));
        }
        place_new_fruit(v, players, x, y);
        proof {
            lemma_new_fruit(a, arena(v@, players@), x as int, y as int);
            assert(is_free(m, x as int, y as int)) by {
                assert(m.world[y as int].len() == a.world[y as int].len());
                assert(a.world[y as int][x as int] == EMPTY);
                assert(m.world[y as int][x as int] == EMPTY);
                assert(is_under_life(a, x as int, y as int) == is_under_life(
                    m,
                    x as int,
                    y as int,
                ));
            }
            assert forall|p: int, q: int|
                #![trigger grid(v@)[q][p]]
                on_grid(m.world, p, q) implies grid(v@)[q][p] == m.world[q][p] || (is_free(
                m,
                p,
                q,
            ) && grid(v@)[q][p] == FRUIT) by {
                if !(p == x && q == y) {
                    assert(m.world[q].len() == a.world[q].len());
                    assert(grid(v@)[q][p] == a.world[q][p]);
                }
            }
        }
    }
}

} // verus!
