//! What holds once everybody has moved and new fruits have come.

use vstd::prelude::*;
#[allow(unused_imports)]
use crate::arena::{
    is_free, is_low, is_placed, is_refilled, is_steady, is_tick, is_turn, is_under_life,
    same_shape, Arena,
};
#[allow(unused_imports)]
use crate::grid::{lemma_squares_finite, on_grid, squares_with, width, EMPTY, FRUIT};
#[allow(unused_imports)]
use crate::laws::{is_fate, law_fates, law_tick_stays_steady};
#[allow(unused_imports)]
use crate::laws_world::{is_waiting, law_fixed_squares_stay, law_waiting_changes_nothing};

verus! {

/// New fruits leave a steady arena steady.
pub proof fn law_refill_stays_steady(m: Arena, b: Arena)
    requires
        is_steady(m),
        is_refilled(m, b),
    ensures
        is_steady(b),
{
    assert(width(b.world) == width(m.world));
    assert forall|y: int| 0 <= y < b.world.len() implies #[trigger] b.world[y].len() == width(
        b.world,
    ) by {
        assert(m.world[y].len() == width(m.world));
    }
    assert forall|k: u64|
        #[trigger] b.players.contains_key(k) && b.players[k].alive implies is_placed(b, k) by {
        assert(is_placed(m, k));
    }
}

/// A turn leads from a steady arena to a steady arena of the same shape, with
/// the same players, each of whom met one of the fates that the rules know.
pub proof fn law_turn_fates(a: Arena, b: Arena)
    requires
        is_steady(a),
        is_turn(a, b),
    ensures
        is_steady(b),
        same_shape(a.world, b.world),
        a.players.dom() == b.players.dom(),
        forall|k: u64| #[trigger] a.players.contains_key(k) ==> is_fate(a, k, b.players[k]),
{
    let m = choose|m: Arena| #[trigger] is_tick(a, m) && is_refilled(m, b);
    law_fates(a, m);
    law_tick_stays_steady(a, m);
    law_refill_stays_steady(m, b);
}

/// After a turn there is a fruit, unless no square could take one.
pub proof fn law_fruit_never_runs_out(a: Arena, b: Arena)
    requires
        is_steady(a),
        is_turn(a, b),
    ensures
        !is_low(b.world) || forall|x: int, y: int| !is_free(b, x, y),
{
    let m = choose|m: Arena| #[trigger] is_tick(a, m) && is_refilled(m, b);
    law_tick_stays_steady(a, m);
    law_refill_stays_steady(m, b);
    if is_low(b.world) {
        lemma_squares_finite(b.world, FRUIT);
        assert(squares_with(b.world, FRUIT) =~= Set::<(int, int)>::empty()) by {
            assert forall|s: (int, int)| !squares_with(b.world, FRUIT).contains(s) by {
                if on_grid(b.world, s.0, s.1) {
                    assert(b.world[s.1][s.0] != FRUIT);
                }
            }
        }
        assert(is_low(m.world));
        assert forall|x: int, y: int| !is_free(b, x, y) by {
            if is_free(b, x, y) {
                assert(m.world[y].len() == b.world[y].len());
                assert(b.world[y][x] == EMPTY);
                assert(is_under_life(m, x, y) == is_under_life(b, x, y));
                assert(is_free(m, x, y));
            }
        }
    }
}

/// A square that is neither empty nor a fruit, and on which no living
/// player's body lies, keeps what it shows through the whole turn.
pub proof fn law_turn_keeps_fixed_squares(a: Arena, b: Arena, x: int, y: int)
    requires
        is_steady(a),
        is_turn(a, b),
        on_grid(a.world, x, y),
        a.world[y][x] != EMPTY,
        a.world[y][x] != FRUIT,
        !is_under_life(a, x, y),
    ensures
        b.world[y][x] == a.world[y][x],
{
    let m = choose|m: Arena| #[trigger] is_tick(a, m) && is_refilled(m, b);
    law_fates(a, m);
    law_fixed_squares_stay(a, m, x, y);
    assert(a.world[y].len() == m.world[y].len());
    assert(b.world[y][x] == m.world[y][x]);
}

/// New fruits do not disturb players who wait.
proof fn lemma_refill_keeps_waiting(m: Arena, b: Arena)
    requires
        is_steady(m),
        is_waiting(m),
        is_refilled(m, b),
    ensures
        is_waiting(b),
{
    assert forall|k: u64|
        #[trigger] b.players.contains_key(k) && b.players[k].alive implies ({
        let head = b.players[k].segments.last();
        let shown = b.world[head.1 as int][head.0 as int];
        b.players[k].last_input == ' ' && shown != EMPTY && shown != FRUIT
    }) by {
        assert(m.players.contains_key(k));
        assert(is_placed(m, k));
        let head = m.players[k].segments.last();
        assert(on_grid(m.world, head.0 as int, head.1 as int));
        let shown = b.world[head.1 as int][head.0 as int];
        assert(shown == m.world[head.1 as int][head.0 as int]);
    }
}

/// Players who wait leave everything as it is but for new fruits.
pub proof fn law_waiting_turn(a: Arena, b: Arena)
    requires
        is_steady(a),
        is_waiting(a),
        is_turn(a, b),
    ensures
        is_refilled(a, b),
        is_steady(b),
        is_waiting(b),
        !is_low(a.world) ==> b == a,
{
    let m = choose|m: Arena| #[trigger] is_tick(a, m) && is_refilled(m, b);
    law_waiting_changes_nothing(a, m);
    law_refill_stays_steady(a, b);
    lemma_refill_keeps_waiting(a, b);
    if !is_low(a.world) {
        assert(b =~= a);
    }
}

/// However many turns players wait, nobody moves, dies or scores, and nothing
/// but new fruits on squares that were free shows in the world. Where a fruit
/// was there from the start, nothing changes at all.
pub proof fn law_waiting_lasts(run: Seq<Arena>)
    requires
        run.len() > 0,
        is_steady(run[0]),
        is_waiting(run[0]),
        forall|i: int| 0 <= i < run.len() - 1 ==> is_turn(#[trigger] run[i], run[i + 1]),
    ensures
        is_steady(run.last()),
        is_waiting(run.last()),
        run.last().players == run[0].players,
        same_shape(run[0].world, run.last().world),
        forall|x: int, y: int|
            #![trigger run.last().world[y][x]]
            on_grid(run[0].world, x, y) ==> run.last().world[y][x] == run[0].world[y][x] || (
            is_free(run[0], x, y) && run.last().world[y][x] == FRUIT),
        !is_low(run[0].world) ==> run.last() == run[0],
    decreases run.len(),
{
    if run.len() > 1 {
        let before = run.drop_last();
        assert forall|i: int| 0 <= i < before.len() - 1 implies is_turn(
            #[trigger] before[i],
            before[i + 1],
        ) by {
            assert(before[i] == run[i]);
            assert(before[i + 1] == run[i + 1]);
        }
        law_waiting_lasts(before);
        let a = before.last();
        let b = run.last();
        assert(a == run[run.len() - 2]);
        assert(is_turn(run[run.len() - 2], run[run.len() - 2 + 1]));
        law_waiting_turn(a, b);
        assert forall|x: int, y: int|
            #![trigger b.world[y][x]]
            on_grid(run[0].world, x, y) implies b.world[y][x] == run[0].world[y][x] || (is_free(
            run[0],
            x,
            y,
        ) && b.world[y][x] == FRUIT) by {
            assert(run[0].world[y].len() == a.world[y].len());
            assert(a.world[y][x] == run[0].world[y][x] || a.world[y][x] == FRUIT);
            assert(is_under_life(a, x, y) == is_under_life(run[0], x, y));
        }
    }
}

} // verus!
