//! A new round: an empty world, a square for every player, and fruits.

use std::collections::HashMap;
use vstd::prelude::*;
use crate::chance::draw_below;
use crate::grid::{set_square, EMPTY, FRUIT};
use crate::snaek::Snaek;
use crate::update::player_ids;
#[allow(unused_imports)]
use crate::arena::{arena, roster, Arena};
#[allow(unused_imports)]
use crate::grid::{
    all_squares, grid, is_even, is_rect, lemma_count_all_squares, lemma_squares_finite, on_grid,
    put, squares_with, width,
};
#[allow(unused_imports)]
use crate::snaek::SnaekView;

verus! {

broadcast use vstd::std_specs::hash::group_hash_axioms;

/// The number of fruits in a new round.
pub const FRUITS: usize = 10;

/// The column `x` of row `y` is empty.
pub open spec fn is_empty_at(g: Seq<Seq<char>>, x: int, y: int) -> bool {
    on_grid(g, x, y) && g[y][x] == EMPTY
}

/// What marks a player can be told from an empty square and from a fruit.
pub open spec fn is_mark(c: char) -> bool {
    c != EMPTY && c != FRUIT
}

/// The player at the start of a round: one segment, and alive.
pub open spec fn started(p: SnaekView, x: usize, y: usize) -> SnaekView {
    SnaekView { segments: seq![(x, y)], alive: true, ..p }
}

/// A new round for the players `before`, in a world of `h` rows of `w` squares.
///
/// Every player is alive and on one square of their own, which shows their
/// symbol; nothing else about them has changed. There are `FRUITS` fruits,
/// and everything else is empty.
pub open spec fn is_fresh(before: Map<u64, SnaekView>, a: Arena, w: int, h: int) -> bool {
    &&& is_rect(a.world, w, h)
    &&& a.players.dom() == before.dom()
    &&& forall|k: u64| #[trigger] a.players.contains_key(k) ==> is_start_of(before, a, k)
    &&& forall|j: u64, k: u64|
        #![trigger a.players.contains_key(j), a.players.contains_key(k)]
        a.players.contains_key(j) && a.players.contains_key(k) && j != k
            ==> a.players[j].segments[0] != a.players[k].segments[0]
    &&& forall|x: int, y: int|
        #![trigger a.world[y][x]]
        on_grid(a.world, x, y) ==> {
            ||| a.world[y][x] == EMPTY
            ||| a.world[y][x] == FRUIT
            ||| is_start_square(a.players, a.players.dom(), x, y)
        }
    &&& squares_with(a.world, FRUIT).finite()
    &&& squares_with(a.world, FRUIT).len() == FRUITS
}

/// Player `k` was put on a square of the world, which shows their symbol.
pub open spec fn is_start_of(before: Map<u64, SnaekView>, a: Arena, k: u64) -> bool {
    let (x, y) = a.players[k].segments[0];
    &&& a.players[k] == started(before[k], x, y)
    &&& on_grid(a.world, x as int, y as int)
    &&& a.world[y as int][x as int] == before[k].symbol
}

/// One of the players in `ks` starts on column `x` of row `y`.
pub open spec fn is_start_square(
    players: Map<u64, SnaekView>,
    ks: Set<u64>,
    x: int,
    y: int,
) -> bool {
    exists|k: u64| #[trigger]
        ks.contains(k) && players[k].segments[0].0 == x && players[k].segments[0].1 == y
}

/// A world of `h` rows of `w` empty squares.
pub open spec fn blank(w: int, h: int) -> Seq<Seq<char>> {
    Seq::new(h as nat, |y: int| Seq::new(w as nat, |x: int| EMPTY))
}

/// The arena after a square was drawn for a player, who takes it if it is
/// empty.
pub open spec fn tried(a: Arena, t: (u64, usize, usize)) -> Arena {
    let (k, x, y) = t;
    if is_empty_at(a.world, x as int, y as int) {
        Arena {
            world: put(a.world, x as int, y as int, a.players[k].symbol),
            players: a.players.insert(k, started(a.players[k], x, y)),
        }
    } else {
        a
    }
}

/// The arena after squares were drawn for players, one after the other.
pub open spec fn after_tries(a: Arena, tries: Seq<(u64, usize, usize)>) -> Arena
    decreases tries.len(),
{
    if tries.len() == 0 {
        a
    } else {
        tried(after_tries(a, tries.drop_last()), tries.last())
    }
}

/// The world after squares were drawn for fruits, each of which lies there if
/// the square was empty.
pub open spec fn after_fruits(g: Seq<Seq<char>>, fruits: Seq<(usize, usize)>) -> Seq<Seq<char>>
    decreases fruits.len(),
{
    if fruits.len() == 0 {
        g
    } else {
        let before = after_fruits(g, fruits.drop_last());
        let (x, y) = fruits.last();
        if is_empty_at(before, x as int, y as int) {
            put(before, x as int, y as int, FRUIT)
        } else {
            before
        }
    }
}

/// The players in a world without anything.
pub open spec fn bare(players: Map<u64, SnaekView>, w: int, h: int) -> Arena {
    Arena { world: blank(w, h), players }
}

/// The round that these draws make of a world without anything: first those
/// for the players, then those for the fruits.
pub open spec fn drawn_round(
    players: Map<u64, SnaekView>,
    w: int,
    h: int,
    tries: Seq<(u64, usize, usize)>,
    fruits: Seq<(usize, usize)>,
) -> Arena {
    let a = after_tries(bare(players, w, h), tries);
    Arena { world: after_fruits(a.world, fruits), players: a.players }
}

/// Draw number `i` gives player `k` a square.
pub open spec fn is_hit(a: Arena, tries: Seq<(u64, usize, usize)>, i: int, k: u64) -> bool {
    &&& 0 <= i < tries.len()
    &&& tries[i].0 == k
    &&& is_empty_at(after_tries(a, tries.take(i)).world, tries[i].1 as int, tries[i].2 as int)
}

/// Some draw gives player `k` a square.
pub open spec fn gets_square(a: Arena, tries: Seq<(u64, usize, usize)>, k: u64) -> bool {
    exists|i: int| is_hit(a, tries, i, k)
}

/// The draws are for these players, and give a square to each of them.
pub open spec fn places_everybody(
    players: Map<u64, SnaekView>,
    w: int,
    h: int,
    tries: Seq<(u64, usize, usize)>,
) -> bool {
    &&& forall|i: int| 0 <= i < tries.len() ==> players.contains_key((#[trigger] tries[i]).0)
    &&& forall|k: u64| #[trigger]
        players.contains_key(k) ==> gets_square(bare(players, w, h), tries, k)
}

/// Some draws that place everybody make the arena out of the players `before`.
pub open spec fn is_drawn_round(before: Map<u64, SnaekView>, a: Arena, w: int, h: int) -> bool {
    exists|tries: Seq<(u64, usize, usize)>, fruits: Seq<(usize, usize)>|
        places_everybody(before, w, h, tries) && a == #[trigger] drawn_round(
            before,
            w,
            h,
            tries,
            fruits,
        )
}

/// A draw of an empty square gives it to its player, and takes nothing back
/// from the others.
proof fn lemma_one_more_try(
    a: Arena,
    tries: Seq<(u64, usize, usize)>,
    k: u64,
    x: usize,
    y: usize,
)
    requires
        is_empty_at(after_tries(a, tries).world, x as int, y as int),
    ensures
        after_tries(a, tries.push((k, x, y))) == tried(after_tries(a, tries), (k, x, y)),
        is_hit(a, tries.push((k, x, y)), tries.len() as int, k),
        forall|i: int, j: u64|
            is_hit(a, tries, i, j) ==> is_hit(a, tries.push((k, x, y)), i, j),
{
    let more = tries.push((k, x, y));
    assert(more.drop_last() =~= tries);
    assert(more.take(tries.len() as int) =~= tries);
    assert forall|i: int, j: u64| is_hit(a, tries, i, j) implies is_hit(a, more, i, j) by {
        assert(more.take(i) =~= tries.take(i));
        assert(more[i] == tries[i]);
    }
}

/// Puts a player on the drawn square, if that is empty: the square shows the
/// player's symbol, and the player is alive and has no other segment.
pub fn place_snaek(v: &mut Vec<Vec<char>>, snaek: &mut Snaek, x: usize, y: usize) -> (placed: bool)
    requires
        on_grid(grid(old(v)@), x as int, y as int),
    ensures
        placed == is_empty_at(grid(old(v)@), x as int, y as int),
        placed ==> {
            &&& grid(final(v)@) == put(grid(old(v)@), x as int, y as int, old(snaek)@.symbol)
            &&& final(snaek)@ == started(old(snaek)@, x, y)
        },
        !placed ==> grid(final(v)@) == grid(old(v)@) && final(snaek)@ == old(snaek)@,
{
    if v[y][x] != EMPTY {
        return false;
    }
    snaek.segments.clear();
    snaek.segments.push((x, y));
    set_square(v, x, y, snaek.symbol);
    snaek.alive = true;
    assert(snaek@ =~= started(old(snaek)@, x, y));
    true
}

/// Puts a fruit on the drawn square, if that is empty.
pub fn place_fruit(v: &mut Vec<Vec<char>>, x: usize, y: usize) -> (placed: bool)
    requires
        on_grid(grid(old(v)@), x as int, y as int),
    ensures
        placed == is_empty_at(grid(old(v)@), x as int, y as int),
        placed ==> grid(final(v)@) == put(grid(old(v)@), x as int, y as int, FRUIT),
        !placed ==> grid(final(v)@) == grid(old(v)@),
{
    if v[y][x] != EMPTY {
        return false;
    }
    set_square(v, x, y, FRUIT);
    true
}

/// Makes a world of `h` rows of `w` empty squares.
pub fn clear_world(v: &mut Vec<Vec<char>>, w: usize, h: usize)
    ensures
        grid(final(v)@) == blank(w as int, h as int),
{
    v.clear();
    v.reserve(h);
    for i in 0..h
        invariant
            v@.len() == i,
            forall|y: int| 0 <= y < i ==> (#[trigger] v@[y])@.len() == w,
            forall|x: int, y: int| 0 <= y < i && 0 <= x < w ==> #[trigger] v@[y]@[x] == EMPTY,
    {
        let mut row: Vec<char> = Vec::with_capacity(w);
        for j in 0..w
            invariant
                row@.len() == j,
                forall|x: int| 0 <= x < j ==> #[trigger] row@[x] == EMPTY,
        {
            row.push(EMPTY);
        }
        v.push(row);
    }
    assert(grid(v@) =~~= blank(w as int, h as int));
}

/// The empty squares, each of them once.
pub fn empty_squares(v: &Vec<Vec<char>>) -> (squares: Vec<(usize, usize)>)
    ensures
        squares@.no_duplicates(),
        forall|x: usize, y: usize| #[trigger]
            squares@.contains((x, y)) <==> is_empty_at(grid(v@), x as int, y as int),
{
    let mut squares: Vec<(usize, usize)> = Vec::new();
    for y in 0..v.len()
        invariant
            squares@.no_duplicates(),
            forall|i: int|
                0 <= i < squares@.len() ==> (#[trigger] squares@[i]).1 < y && is_empty_at(
                    grid(v@),
                    squares@[i].0 as int,
                    squares@[i].1 as int,
                ),
            forall|a: usize, b: usize|
                b < y && #[trigger] is_empty_at(grid(v@), a as int, b as int)
                    ==> squares@.contains((a, b)),
    {
        let n: usize = v[y].len();
        for x in 0..n
            invariant
                y < v@.len(),
                n == v@[y as int]@.len(),
                squares@.no_duplicates(),
                forall|i: int|
                    0 <= i < squares@.len() ==> {
                        &&& (#[trigger] squares@[i]).1 < y || (squares@[i].1 == y && squares@[i].0
                            < x)
                        &&& is_empty_at(grid(v@), squares@[i].0 as int, squares@[i].1 as int)
                    },
                forall|a: usize, b: usize|
                    (b < y || (b == y && a < x)) && #[trigger] is_empty_at(
                        grid(v@),
                        a as int,
                        b as int,
                    ) ==> squares@.contains((a, b)),
        {
            if v[y][x] == EMPTY {
                let ghost before = squares@;
                squares.push((x, y));
                assert(squares@[before.len() as int] == (x, y));
                assert forall|a: usize, b: usize| before.contains((a, b)) implies squares@.contains(
                    (a, b),
                ) by {
                    let i = choose|i: int| 0 <= i < before.len() && before[i] == (a, b);
                    assert(squares@[i] == (a, b));
                }
            }
        }
    }
    squares
}

/// To fill an empty square takes it from the empty ones, and adds it to those
/// that hold the same.
pub proof fn lemma_fill(g: Seq<Seq<char>>, x: int, y: int, c: char)
    requires
        is_even(g),
        is_empty_at(g, x, y),
        c != EMPTY,
    ensures
        is_rect(put(g, x, y, c), width(g), g.len() as int),
        squares_with(put(g, x, y, c), EMPTY) == squares_with(g, EMPTY).remove((x, y)),
        squares_with(put(g, x, y, c), EMPTY).len() == squares_with(g, EMPTY).len() - 1,
        squares_with(put(g, x, y, c), FRUIT) == if c == FRUIT {
            squares_with(g, FRUIT).insert((x, y))
        } else {
            squares_with(g, FRUIT)
        },
        squares_with(put(g, x, y, c), FRUIT).finite(),
        squares_with(put(g, x, y, c), FRUIT).len() == if c == FRUIT {
            squares_with(g, FRUIT).len() + 1
        } else {
            squares_with(g, FRUIT).len()
        },
{
    let f = put(g, x, y, c);
    lemma_squares_finite(g, EMPTY);
    lemma_squares_finite(g, FRUIT);
    assert forall|a: int, b: int| on_grid(f, a, b) <==> on_grid(g, a, b) by {}
    assert forall|a: int, b: int| on_grid(g, a, b) && !(a == x && b == y) implies f[b][a]
        == g[b][a] by {}
    assert(squares_with(f, EMPTY) =~= squares_with(g, EMPTY).remove((x, y)));
    if c == FRUIT {
        assert(squares_with(f, FRUIT) =~= squares_with(g, FRUIT).insert((x, y)));
    } else {
        assert(squares_with(f, FRUIT) =~= squares_with(g, FRUIT));
    }
}

/// Where the number of empty squares is not zero, one of them can be found.
proof fn lemma_some_empty(g: Seq<Seq<char>>) -> (s: (int, int))
    requires
        is_even(g),
        squares_with(g, EMPTY).len() > 0,
    ensures
        is_empty_at(g, s.0, s.1),
{
    lemma_squares_finite(g, EMPTY);
    let s = squares_with(g, EMPTY).choose();
    assert(squares_with(g, EMPTY).contains(s)) by {
        vstd::set_lib::lemma_set_empty_equivalency_len(squares_with(g, EMPTY));
    }
    s
}

/// Draws one of the empty squares. Each of them is on the list once, so that
/// none is more likely than another.
fn draw_empty(v: &Vec<Vec<char>>) -> (square: (usize, usize))
    requires
        exists|x: int, y: int| is_empty_at(grid(v@), x, y),
    ensures
        is_empty_at(grid(v@), square.0 as int, square.1 as int),
{
    let squares = empty_squares(v);
    proof {
        let (x, y): (int, int) = choose|x: int, y: int| is_empty_at(grid(v@), x, y);
        assert(v@.len() == v.len());
        assert(v@[y]@.len() == v@[y].len());
        assert(squares@.contains((x as usize, y as usize)));
    }
    let square: (usize, usize) = squares[draw_below(squares.len())];
    assert(squares@.contains(square));
    square
}

/// The players in `ks` are on squares of their own, the others as they were,
/// and nothing else is in the world.
spec fn is_partly_fresh(
    before: Map<u64, SnaekView>,
    a: Arena,
    w: int,
    h: int,
    ks: Set<u64>,
) -> bool {
    &&& is_rect(a.world, w, h)
    &&& a.players.dom() == before.dom()
    &&& forall|k: u64| #[trigger]
        a.players.contains_key(k) ==> if ks.contains(k) {
            is_start_of(before, a, k)
        } else {
            a.players[k] == before[k]
        }
    &&& forall|j: u64, k: u64|
        #![trigger a.players.contains_key(j), a.players.contains_key(k)]
        a.players.contains_key(j) && a.players.contains_key(k) && ks.contains(j) && ks.contains(k)
            && j != k ==> a.players[j].segments[0] != a.players[k].segments[0]
    &&& forall|x: int, y: int|
        #![trigger a.world[y][x]]
        on_grid(a.world, x, y) ==> a.world[y][x] == EMPTY || is_start_square(a.players, ks, x, y)
}

/// One more player is on a square of their own.
proof fn lemma_one_more_start(
    before: Map<u64, SnaekView>,
    a: Arena,
    b: Arena,
    w: int,
    h: int,
    ks: Set<u64>,
    k: u64,
    x: usize,
    y: usize,
)
    requires
        is_partly_fresh(before, a, w, h, ks),
        a.players.contains_key(k),
        !ks.contains(k),
        ks.subset_of(a.players.dom()),
        forall|j: u64| #[trigger] before.contains_key(j) ==> is_mark(before[j].symbol),
        is_empty_at(a.world, x as int, y as int),
        b.world == put(a.world, x as int, y as int, before[k].symbol),
        b.players == a.players.insert(k, started(before[k], x, y)),
    ensures
        is_partly_fresh(before, b, w, h, ks.insert(k)),
{
    assert(b.players.dom() =~= a.players.dom());
    assert forall|p: int, q: int| on_grid(b.world, p, q) <==> on_grid(a.world, p, q) by {}
    assert forall|p: int, q: int|
        on_grid(a.world, p, q) && !(p == x && q == y) implies b.world[q][p] == a.world[q][p] by {}
    assert forall|j: u64| #[trigger] b.players.contains_key(j) implies if ks.insert(k).contains(j) {
        is_start_of(before, b, j)
    } else {
        b.players[j] == before[j]
    } by {
        assert(a.players.contains_key(j));
        if j == k {
            assert(b.players[j].segments[0] == (x, y));
        } else if ks.contains(j) {
            assert(is_start_of(before, a, j));
            assert(before.contains_key(j));
        }
    }
    assert forall|i: u64, j: u64|
        #![trigger b.players.contains_key(i), b.players.contains_key(j)]
        b.players.contains_key(i) && b.players.contains_key(j) && ks.insert(k).contains(i)
            && ks.insert(k).contains(j) && i != j implies b.players[i].segments[0]
        != b.players[j].segments[0] by {
        assert(a.players.contains_key(i) && a.players.contains_key(j));
        assert(before.contains_key(i) && before.contains_key(j));
        if i == k {
            assert(is_start_of(before, a, j));
        } else if j == k {
            assert(is_start_of(before, a, i));
        }
    }
    assert forall|p: int, q: int|
        #![trigger b.world[q][p]]
        on_grid(b.world, p, q) implies b.world[q][p] == EMPTY || is_start_square(
        b.players,
        ks.insert(k),
        p,
        q,
    ) by {
        if p == x && q == y {
            assert(ks.insert(k).contains(k));
            assert(b.players[k].segments[0] == (x, y));
        } else if a.world[q][p] != EMPTY {
            let j = choose|j: u64| #[trigger]
                ks.contains(j) && a.players[j].segments[0].0 == p && a.players[j].segments[0].1
                    == q;
            assert(ks.insert(k).contains(j));
            assert(b.players[j] == a.players[j]);
        }
    }
    assert forall|r: int| 0 <= r < b.world.len() implies #[trigger] b.world[r].len() == w by {
        assert(a.world[r].len() == w);
    }
}

/// Starts a new round in a world of `h` rows of `w` squares.
///
/// The world is emptied. Every player is put on an empty square that is drawn
/// by chance and lives again, and then the fruits are put on empty squares in
/// the same way. There must be a square for each of them, and every player
/// must have a symbol that can be told from an empty square and from a fruit,
/// as everybody who joins has.
pub fn init_world(
    v: &mut Vec<Vec<char>>,
    w: usize,
    h: usize,
    players: &mut HashMap<u64, Snaek>,
)
    requires
        old(players)@.len() + FRUITS <= w * h,
        forall|k: u64| #[trigger]
            old(players)@.contains_key(k) ==> is_mark(old(players)@[k].symbol),
    ensures
        is_fresh(
            roster(old(players)@),
            arena(final(v)@, final(players)@),
            w as int,
            h as int,
        ),
        is_drawn_round(
            roster(old(players)@),
            arena(final(v)@, final(players)@),
            w as int,
            h as int,
        ),
{
    let ghost before = roster(players@);
    let ghost start = bare(before, w as int, h as int);
    let ghost mut tries: Seq<(u64, usize, usize)> = Seq::empty();
    let ghost mut fruits: Seq<(usize, usize)> = Seq::empty();
    let ids = player_ids(players);
    clear_world(v, w, h);
    proof {
        let g = grid(v@);
        assert(arena(v@, players@) == start);
        assert(forall|k: u64| before.contains_key(k) <==> old(players)@.contains_key(k));
        assert(before.dom() =~= old(players)@.dom());
        assert(ids@.take(0).to_set() =~= Set::<u64>::empty());
        ids@.unique_seq_to_set();
        assert(w * h > 0);
        assert(w > 0 && h > 0) by (nonlinear_arith)
            requires
                w * h > 0,
                w >= 0,
                h >= 0,
        ;
        lemma_count_all_squares(w as int, h as int);
        assert(squares_with(g, EMPTY) =~= all_squares(w as int, h as int)) by {
            assert forall|s: (int, int)|
                squares_with(g, EMPTY).contains(s) <==> all_squares(w as int, h as int).contains(
                    s,
                ) by {
                if 0 <= s.1 < h {
                    assert(g[s.1].len() == w);
                    if 0 <= s.0 < w {
                        assert(on_grid(g, s.0, s.1));
                        assert(g[s.1][s.0] == EMPTY);
                    }
                }
            }
        }
        assert(squares_with(g, FRUIT) =~= Set::<(int, int)>::empty()) by {
            assert forall|s: (int, int)| !squares_with(g, FRUIT).contains(s) by {
                if on_grid(g, s.0, s.1) {
                    assert(g[s.1][s.0] == EMPTY);
                }
            }
        }
    }
    for i in 0..ids.len()
        invariant
            0 < w,
            0 < h,
            ids@.no_duplicates(),
            ids@.to_set() == before.dom(),
            ids@.len() + FRUITS <= w * h,
            forall|k: u64| #[trigger] before.contains_key(k) ==> is_mark(before[k].symbol),
            is_partly_fresh(
                before,
                arena(v@, players@),
                w as int,
                h as int,
                ids@.take(i as int).to_set(),
            ),
            start == bare(before, w as int, h as int),
            arena(v@, players@) == after_tries(start, tries),
            forall|j: int| 0 <= j < tries.len() ==> before.contains_key((#[trigger] tries[j]).0),
            forall|j: int| 0 <= j < i ==> gets_square(start, tries, #[trigger] ids@[j]),
            squares_with(grid(v@), EMPTY).len() == w * h - i,
            squares_with(grid(v@), FRUIT).len() == 0,
            squares_with(grid(v@), FRUIT).finite(),
    {
        let k: u64 = ids[i];
        let ghost a = arena(v@, players@);
        let ghost ks = ids@.take(i as int).to_set();
        proof {
            assert(ids@.contains(k));
            assert(ids@.to_set().contains(k));
            assert(a.players.contains_key(k));
            assert(!ids@.take(i as int).contains(k));
            assert(ids@.take(i + 1) =~= ids@.take(i as int).push(k));
            ids@.take(i as int).lemma_push_to_set_commute(k);
            assert(ks.subset_of(a.players.dom())) by {
                assert forall|j: u64| ks.contains(j) implies a.players.dom().contains(j) by {
                    let m = choose|m: int| 0 <= m < i && ids@.take(i as int)[m] == j;
                    assert(ids@[m] == j);
                    assert(ids@.to_set().contains(j));
                }
            }
            assert(is_even(grid(v@)));
            let s = lemma_some_empty(grid(v@));
        }
        if let Some(mut snaek) = players.remove(&k) {
            let (x, y): (usize, usize) = draw_empty(v);
            place_snaek(v, &mut snaek, x, y);
            let ghost p = snaek@;
            players.insert(k, snaek);
            proof {
                let b = arena(v@, players@);
                assert(b.players =~= a.players.insert(k, p));
                lemma_fill(a.world, x as int, y as int, before[k].symbol);
                lemma_one_more_start(before, a, b, w as int, h as int, ks, k, x, y);
                let more = tries.push((k, x, y));
                lemma_one_more_try(start, tries, k, x, y);
                assert(b =~= tried(a, (k, x, y)));
                assert forall|j: int| 0 <= j < more.len() implies before.contains_key(
                    (#[trigger] more[j]).0,
                ) by {
                    if j < tries.len() {
                        assert(more[j] == tries[j]);
                    }
                }
                assert(gets_square(start, more, k));
                assert forall|j: int| 0 <= j < i implies gets_square(
                    start,
                    more,
                    #[trigger] ids@[j],
                ) by {
                    let m = choose|m: int| is_hit(start, tries, m, ids@[j]);
                    assert(is_hit(start, more, m, ids@[j]));
                }
                tries = more;
            }
        }
    }
    let ghost placed = arena(v@, players@);
    proof {
        assert(ids@.take(ids@.len() as int) =~= ids@);
    }
    for n in 0..FRUITS
        invariant
            0 < w,
            0 < h,
            ids@.to_set() == before.dom(),
            ids@.len() + FRUITS <= w * h,
            forall|k: u64| #[trigger] before.contains_key(k) ==> is_mark(before[k].symbol),
            is_partly_fresh(before, placed, w as int, h as int, ids@.to_set()),
            roster(players@) == placed.players,
            grid(v@) == after_fruits(placed.world, fruits),
            is_rect(grid(v@), w as int, h as int),
            forall|x: int, y: int|
                #![trigger grid(v@)[y][x]]
                on_grid(grid(v@), x, y) ==> grid(v@)[y][x] == placed.world[y][x] || (
                placed.world[y][x] == EMPTY && grid(v@)[y][x] == FRUIT),
            squares_with(grid(v@), EMPTY).len() == w * h - ids@.len() - n,
            squares_with(grid(v@), FRUIT).len() == n,
            squares_with(grid(v@), FRUIT).finite(),
    {
        let ghost g = grid(v@);
        proof {
            assert(is_even(g));
            let s = lemma_some_empty(g);
        }
        let (x, y): (usize, usize) = draw_empty(v);
        place_fruit(v, x, y);
        proof {
            assert(fruits.push((x, y)).drop_last() =~= fruits);
            fruits = fruits.push((x, y));
            lemma_fill(g, x as int, y as int, FRUIT);
            assert(g[y as int][x as int] == EMPTY);
            assert(on_grid(placed.world, x as int, y as int)) by {
                assert(g[y as int].len() == w);
                assert(placed.world[y as int].len() == w);
            }
            assert(placed.world[y as int][x as int] == EMPTY);
            assert forall|p: int, q: int|
                #![trigger grid(v@)[q][p]]
                on_grid(grid(v@), p, q) implies grid(v@)[q][p] == placed.world[q][p] || (
            placed.world[q][p] == EMPTY && grid(v@)[q][p] == FRUIT) by {
                if !(p == x && q == y) {
                    assert(grid(v@)[q][p] == g[q][p]);
                    assert(on_grid(g, p, q));
                }
            }
        }
    }
    proof {
        let a = arena(v@, players@);
        assert(places_everybody(before, w as int, h as int, tries)) by {
            assert forall|k: u64| #[trigger] before.contains_key(k) implies gets_square(
                start,
                tries,
                k,
            ) by {
                assert(ids@.to_set().contains(k));
                let j = choose|j: int| 0 <= j < ids@.len() && ids@[j] == k;
                assert(gets_square(start, tries, ids@[j]));
            }
        }
        assert(a == drawn_round(before, w as int, h as int, tries, fruits));
        assert forall|k: u64| #[trigger] a.players.contains_key(k) implies is_start_of(
            before,
            a,
            k,
        ) by {
            assert(placed.players.contains_key(k));
            assert(ids@.to_set().contains(k));
            assert(is_start_of(before, placed, k));
            let (x, y) = a.players[k].segments[0];
            assert(before.contains_key(k));
            assert(a.world[y as int].len() == w);
            assert(on_grid(a.world, x as int, y as int));
            assert(a.world[y as int][x as int] == placed.world[y as int][x as int]);
        }
        assert forall|x: int, y: int|
            #![trigger a.world[y][x]]
            on_grid(a.world, x, y) implies {
            ||| a.world[y][x] == EMPTY
            ||| a.world[y][x] == FRUIT
            ||| is_start_square(a.players, a.players.dom(), x, y)
        } by {
            assert(placed.world[y].len() == w);
            assert(on_grid(placed.world, x, y));
            assert(placed.world[y][x] == EMPTY || is_start_square(
                placed.players,
                ids@.to_set(),
                x,
                y,
            ));
        }
        assert forall|j: u64, k: u64|
            #![trigger a.players.contains_key(j), a.players.contains_key(k)]
            a.players.contains_key(j) && a.players.contains_key(k) && j
                != k implies a.players[j].segments[0] != a.players[k].segments[0] by {
            assert(placed.players.contains_key(j) && placed.players.contains_key(k));
            assert(ids@.to_set().contains(j) && ids@.to_set().contains(k));
        }
    }
}

} // verus!
