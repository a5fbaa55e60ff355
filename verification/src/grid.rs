//! The world: a grid of characters, row by row.

use vstd::prelude::*;
#[allow(unused_imports)]
use vstd::set_lib::{
    lemma_int_range, lemma_len_subset, lemma_map_size, lemma_set_disjoint_lens, set_int_range,
};

verus! {

/// A square that nothing stands on.
pub const EMPTY: char = '⬜';

/// A fruit, which makes the snaek that enters its square longer.
pub const FRUIT: char = '🍎';

/// What is left on every square of a snaek that died.
pub const POOP: char = '💩';

/// The rows of a world as sequences of characters.
pub open spec fn grid(v: Seq<Vec<char>>) -> Seq<Seq<char>> {
    Seq::new(v.len(), |y: int| v[y]@)
}

/// Column `x` of row `y` is a square of the world.
pub open spec fn on_grid(g: Seq<Seq<char>>, x: int, y: int) -> bool {
    0 <= y < g.len() && 0 <= x < g[y].len()
}

/// The world has `h` rows of `w` squares each.
pub open spec fn is_rect(g: Seq<Seq<char>>, w: int, h: int) -> bool {
    &&& g.len() == h
    &&& forall|y: int| 0 <= y < g.len() ==> #[trigger] g[y].len() == w
}

/// The number of squares in the first row.
pub open spec fn width(g: Seq<Seq<char>>) -> int {
    if g.len() > 0 {
        g[0].len() as int
    } else {
        0
    }
}

/// All rows are as long as the first one.
pub open spec fn is_even(g: Seq<Seq<char>>) -> bool {
    is_rect(g, width(g), g.len() as int)
}

/// The world with `c` in column `x` of row `y`.
pub open spec fn put(g: Seq<Seq<char>>, x: int, y: int, c: char) -> Seq<Seq<char>> {
    g.update(y, g[y].update(x, c))
}

/// One of the squares is column `x` of row `y`.
pub open spec fn covers(squares: Seq<(usize, usize)>, x: int, y: int) -> bool {
    exists|i: int| 0 <= i < squares.len() && (#[trigger] squares[i]).0 == x && squares[i].1 == y
}

/// All the squares lie in the world.
pub open spec fn all_on_grid(g: Seq<Seq<char>>, squares: Seq<(usize, usize)>) -> bool {
    forall|i: int|
        0 <= i < squares.len() ==> on_grid(
            g,
            (#[trigger] squares[i]).0 as int,
            squares[i].1 as int,
        )
}

/// The world with poop on each of the squares.
pub open spec fn stained(g: Seq<Seq<char>>, squares: Seq<(usize, usize)>) -> Seq<Seq<char>> {
    Seq::new(
        g.len(),
        |y: int|
            Seq::new(
                g[y].len(),
                |x: int|
                    if covers(squares, x, y) {
                        POOP
                    } else {
                        g[y][x]
                    },
            ),
    )
}

/// The squares that hold `c`, as column and row.
pub open spec fn squares_with(g: Seq<Seq<char>>, c: char) -> Set<(int, int)> {
    Set::new(|s: (int, int)| on_grid(g, s.0, s.1) && g[s.1][s.0] == c)
}

/// All squares of `h` rows of `w` squares each.
pub open spec fn all_squares(w: int, h: int) -> Set<(int, int)> {
    Set::new(|s: (int, int)| 0 <= s.0 < w && 0 <= s.1 < h)
}

/// There are `w * h` squares in `h` rows of `w` squares each.
pub proof fn lemma_count_all_squares(w: int, h: int)
    requires
        0 <= w,
        0 <= h,
    ensures
        all_squares(w, h).finite(),
        all_squares(w, h).len() == w * h,
    decreases h,
{
    if h == 0 {
        assert(all_squares(w, h) =~= Set::<(int, int)>::empty());
        assert(w * h == 0) by (nonlinear_arith)
            requires
                h == 0,
        ;
    } else {
        lemma_count_all_squares(w, h - 1);
        let row = Set::new(|s: (int, int)| 0 <= s.0 < w && s.1 == h - 1);
        let columns = set_int_range(0, w);
        let place = |x: int| (x, h - 1);
        lemma_int_range(0, w);
        assert(columns.map(place) =~= row) by {
            assert forall|s: (int, int)| row.contains(s) implies columns.map(place).contains(s) by {
                assert(columns.contains(s.0) && place(s.0) == s);
            }
        }
        lemma_map_size(columns, row, place);
        assert(all_squares(w, h) =~= all_squares(w, h - 1).union(row));
        lemma_set_disjoint_lens(all_squares(w, h - 1), row);
        assert(w * h == w * (h - 1) + w) by (nonlinear_arith);
    }
}

/// Only finitely many squares hold `c`.
pub proof fn lemma_squares_finite(g: Seq<Seq<char>>, c: char)
    requires
        is_even(g),
    ensures
        squares_with(g, c).finite(),
{
    let all = all_squares(width(g), g.len() as int);
    lemma_count_all_squares(width(g), g.len() as int);
    assert(squares_with(g, c).subset_of(all)) by {
        assert forall|s: (int, int)| squares_with(g, c).contains(s) implies all.contains(s) by {
            assert(g[s.1].len() == width(g));
        }
    }
    lemma_len_subset(squares_with(g, c), all);
}

/// Puts `c` in column `x` of row `y`.
pub fn set_square(v: &mut Vec<Vec<char>>, x: usize, y: usize, c: char)
    requires
        on_grid(grid(old(v)@), x as int, y as int),
    ensures
        grid(final(v)@) == put(grid(old(v)@), x as int, y as int, c),
{
    v[y][x] = c;
    assert(grid(v@) =~~= put(grid(old(v)@), x as int, y as int, c));
}

} // verus!
