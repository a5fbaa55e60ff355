//! A player and what can happen to one.

use vstd::prelude::*;
use crate::grid::{set_square, POOP};
#[allow(unused_imports)]
use crate::grid::{all_on_grid, covers, grid, stained};

verus! {

/// A player.
#[derive(Debug)]
pub struct Snaek {
    /// The name that the player joined with.
    pub name: String,
    /// The squares of the body as column and row, from the tail to the head.
    pub segments: Vec<(usize, usize)>,
    /// What marks the player's squares in the world.
    pub symbol: char,
    /// The number of fruits eaten.
    pub score: usize,
    /// The direction of travel, or a space before the first one.
    pub last_input: char,
    /// Whether the player still takes part.
    pub alive: bool,
}

/// A player as mathematics sees it.
#[verifier::ext_equal]
pub struct SnaekView {
    pub name: Seq<char>,
    pub segments: Seq<(usize, usize)>,
    pub symbol: char,
    pub score: int,
    pub last_input: char,
    pub alive: bool,
}

impl View for Snaek {
    type V = SnaekView;

    open spec fn view(&self) -> SnaekView {
        SnaekView {
            name: self.name@,
            segments: self.segments@,
            symbol: self.symbol,
            score: self.score as int,
            last_input: self.last_input,
            alive: self.alive,
        }
    }
}

/// The square next to `head` in the direction `input`, in a world of `h` rows
/// of `w` squares. A space stands for rest. There is none outside the world,
/// and none for any other input.
pub open spec fn next_cell(head: (usize, usize), input: char, w: int, h: int) -> Option<
    (usize, usize),
> {
    let (x, y) = head;
    if input == 'w' && y > 0 {
        Some((x, (y - 1) as usize))
    } else if input == 'a' && x > 0 {
        Some(((x - 1) as usize, y))
    } else if input == 's' && y < h - 1 {
        Some((x, (y + 1) as usize))
    } else if input == 'd' && x < w - 1 {
        Some(((x + 1) as usize, y))
    } else if input == ' ' {
        Some((x, y))
    } else {
        None
    }
}

/// The square that a snaek with this head enters next, or `None` if the
/// snaek leaves a world of `h` rows of `w` squares.
pub fn next_square(head: (usize, usize), input: char, w: usize, h: usize) -> (next: Option<
    (usize, usize),
>)
    requires
        head.0 < w,
        head.1 < h,
    ensures
        next == next_cell(head, input, w as int, h as int),
{
    let (x, y) = head;
    match input {
        'w' if y > 0 => Some((x, y - 1)),
        'a' if x > 0 => Some((x - 1, y)),
        's' if y < h - 1 => Some((x, y + 1)),
        'd' if x < w - 1 => Some((x + 1, y)),
        ' ' => Some((x, y)),
        _ => None,
    }
}

/// The direction of travel after the player asked for `dir`. A snaek cannot
/// turn back on itself, and what is not a direction changes nothing.
pub open spec fn steered(last_input: char, dir: char) -> char {
    if is_direction(dir) && dir != opposite(last_input) {
        dir
    } else {
        last_input
    }
}

/// One of the four directions: up, left, down and right.
pub open spec fn is_direction(c: char) -> bool {
    c == 'w' || c == 'a' || c == 's' || c == 'd'
}

/// The direction that leads back. There is none for a snaek at rest.
pub open spec fn opposite(c: char) -> char {
    if c == 'w' {
        's'
    } else if c == 's' {
        'w'
    } else if c == 'a' {
        'd'
    } else if c == 'd' {
        'a'
    } else {
        ' '
    }
}

/// Turns a player into the direction that they asked for, if they can.
pub fn steer(player: &mut Snaek, dir: char)
    ensures
        final(player)@ == (SnaekView {
            last_input: steered(old(player)@.last_input, dir),
            ..old(player)@
        }),
{
    player.last_input =
    match dir {
        'w' if player.last_input != 's' => 'w',
        'a' if player.last_input != 'd' => 'a',
        's' if player.last_input != 'w' => 's',
        'd' if player.last_input != 'a' => 'd',
        _ => player.last_input,
    };
}

/// Kills a player: poop covers every square of the body, and the player is
/// no longer alive.
pub fn kill_snaek(v: &mut Vec<Vec<char>>, player: &mut Snaek)
    requires
        all_on_grid(grid(old(v)@), old(player)@.segments),
    ensures
        grid(final(v)@) == stained(grid(old(v)@), old(player)@.segments),
        final(player)@ == (SnaekView { alive: false, ..old(player)@ }),
{
    let ghost g0 = grid(v@);
    let ghost squares = player.segments@;
    let n: usize = player.segments.len();
    assert(grid(v@) =~~= stained(g0, squares.take(0)));
    for i in 0..n
        invariant
            n == player.segments.len(),
            squares == player.segments@,
            player@ == old(player)@,
            all_on_grid(g0, squares),
            grid(v@) == stained(g0, squares.take(i as int)),
    {
        let (x, y) = player.segments[i];
        assert(squares[i as int] == (x, y));
        let ghost before = squares.take(i as int);
        let ghost after = squares.take(i + 1);
        set_square(v, x, y, POOP);
        proof {
            assert forall|a: int, b: int| covers(after, a, b) <==> covers(before, a, b) || (a == x
                && b == y) by {
                if covers(before, a, b) {
                    let j = choose|j: int|
                        0 <= j < before.len() && (#[trigger] before[j]).0 == a && before[j].1 == b;
                    assert(after[j] == before[j]);
                }
                if covers(after, a, b) {
                    let j = choose|j: int|
                        0 <= j < after.len() && (#[trigger] after[j]).0 == a && after[j].1 == b;
                    if j < i {
                        assert(before[j] == after[j]);
                    }
                }
                assert(after[i as int] == (x, y));
            }
            assert(grid(v@) =~~= stained(g0, after));
        }
    }
    assert(squares.take(n as int) =~= squares);
    player.alive = false;
}

} // verus!
