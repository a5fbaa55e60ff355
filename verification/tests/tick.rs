use snaek::init::FRUITS;
use snaek::refill::{is_out_of_fruit, place_new_fruit, refill};
use snaek::snaek::Snaek;
use snaek::update::{meet_head, muster, player_ids, resolve_heads, update_state, Head};
use std::collections::HashMap;

fn player(segments: Vec<(usize, usize)>, symbol: char, last_input: char) -> Snaek {
    Snaek {
        name: String::from("bob"),
        segments,
        symbol,
        score: 0,
        last_input,
        alive: true,
    }
}

fn world(rows: &[&str]) -> Vec<Vec<char>> {
    rows.iter()
        .map(|row| {
            row.chars()
                .map(|c| match c {
                    '.' => '⬜',
                    'f' => '🍎',
                    'p' => '💩',
                    other => other,
                })
                .collect()
        })
        .collect()
}

#[test]
fn moves_to_an_empty_square() {
    let mut v = world(&["A.", ".f"]);
    let mut players = HashMap::new();
    players.insert(1, player(vec![(0, 0)], 'A', 'd'));
    update_state(&mut v, &mut players);
    assert_eq!(v, world(&[".A", ".f"]));
    assert_eq!(players[&1].segments, vec![(1, 0)]);
    assert_eq!(players[&1].score, 0);
    assert!(players[&1].alive);
}

#[test]
fn eats_a_fruit_and_grows() {
    let mut v = world(&["AAf.f"]);
    let mut players = HashMap::new();
    players.insert(1, player(vec![(0, 0), (1, 0)], 'A', 'd'));
    update_state(&mut v, &mut players);
    assert_eq!(players[&1].segments, vec![(0, 0), (1, 0), (2, 0)]);
    assert_eq!(players[&1].score, 1);
    assert_eq!(v, world(&[".AA.f"]));
    update_state(&mut v, &mut players);
    assert_eq!(players[&1].segments, vec![(1, 0), (2, 0), (3, 0)]);
    assert_eq!(players[&1].score, 1);
    assert_eq!(v, world(&[".AAAf"]));
}

#[test]
fn dies_at_the_wall() {
    let mut v = world(&["AA", ".f"]);
    let mut players = HashMap::new();
    players.insert(1, player(vec![(0, 0), (1, 0)], 'A', 'd'));
    update_state(&mut v, &mut players);
    assert!(!players[&1].alive);
    assert_eq!(players[&1].segments, vec![(0, 0), (1, 0)]);
    assert_eq!(v, world(&["pp", ".f"]));
}

#[test]
fn dies_on_poop_and_on_another_body() {
    let mut v = world(&["Ap", "BB"]);
    let mut players = HashMap::new();
    players.insert(1, player(vec![(0, 0)], 'A', 'd'));
    update_state(&mut v, &mut players);
    assert!(!players[&1].alive);
    assert_eq!(v, world(&["pp", "BB"]));

    let mut v = world(&["A.f", "BB."]);
    let mut players = HashMap::new();
    players.insert(1, player(vec![(0, 0)], 'A', 's'));
    players.insert(2, player(vec![(0, 1), (1, 1)], 'B', ' '));
    update_state(&mut v, &mut players);
    assert!(!players[&1].alive);
    assert!(players[&2].alive);
    assert_eq!(v, world(&["p.f", "BB."]));
}

#[test]
fn rests_without_harm() {
    let mut v = world(&["A"]);
    let mut players = HashMap::new();
    players.insert(1, player(vec![(0, 0)], 'A', ' '));
    update_state(&mut v, &mut players);
    assert!(players[&1].alive);
    assert_eq!(players[&1].segments, vec![(0, 0)]);
    assert_eq!(v, world(&["A"]));
}

#[test]
fn meeting_heads_die() {
    let mut v = world(&["A.Bf"]);
    let mut players = HashMap::new();
    players.insert(1, player(vec![(0, 0)], 'A', 'd'));
    players.insert(2, player(vec![(2, 0)], 'B', 'a'));
    update_state(&mut v, &mut players);
    assert!(!players[&1].alive);
    assert!(!players[&2].alive);
    assert_eq!(v, world(&["p.pf"]));
}

#[test]
fn meeting_heads_leave_the_fruit() {
    let mut v = world(&["AfB"]);
    let mut players = HashMap::new();
    players.insert(1, player(vec![(0, 0)], 'A', 'd'));
    players.insert(2, player(vec![(2, 0)], 'B', 'a'));
    update_state(&mut v, &mut players);
    assert_eq!(players[&1].score, 0);
    assert_eq!(players[&2].score, 0);
    assert_eq!(v, world(&["pfp"]));
}

#[test]
fn dead_are_not_touched() {
    let mut v = world(&["p.f"]);
    let mut players = HashMap::new();
    let mut p = player(vec![(0, 0)], 'A', 'd');
    p.alive = false;
    players.insert(1, p);
    update_state(&mut v, &mut players);
    assert_eq!(players[&1].segments, vec![(0, 0)]);
    assert_eq!(v, world(&["p.f"]));
}

#[test]
fn empty_world_without_players() {
    let mut v: Vec<Vec<char>> = Vec::new();
    let mut players = HashMap::new();
    update_state(&mut v, &mut players);
    assert!(v.is_empty());
    assert!(players.is_empty());
}

#[test]
fn points_are_fruits() {
    let mut v = world(&["Af.", "..f", ".fB"]);
    let mut players = HashMap::new();
    players.insert(1, player(vec![(0, 0)], 'A', 'd'));
    players.insert(2, player(vec![(2, 2)], 'B', 'a'));
    update_state(&mut v, &mut players);
    let fruits = v.iter().flatten().filter(|c| **c == '🍎').count();
    assert_eq!(fruits, 1);
    assert_eq!(players[&1].score + players[&2].score, 2);
    assert_ne!(players[&1].segments.last(), players[&2].segments.last());
}

#[test]
fn musters_by_square() {
    let mut v = world(&["A.B", "..C"]);
    let mut players = HashMap::new();
    players.insert(1, player(vec![(0, 0)], 'A', 'd'));
    players.insert(2, player(vec![(2, 0)], 'B', 'a'));
    players.insert(3, player(vec![(2, 1)], 'C', 'd'));
    let heads = muster(&mut v, &mut players);
    assert_eq!(heads.len(), 1);
    assert_eq!(heads[0].cell, (1, 0));
    let mut riders = heads[0].riders.clone();
    riders.sort();
    assert_eq!(riders, vec![1, 2]);
    assert!(!players[&3].alive);
    assert_eq!(v, world(&["A.B", "..p"]));
}

#[test]
fn order_of_squares_decides_over_a_tail() {
    let heads = |first: u64| {
        let mut list = vec![
            Head { cell: (1, 0), riders: vec![1] },
            Head { cell: (2, 0), riders: vec![2] },
        ];
        if first == 2 {
            list.reverse();
        }
        list
    };
    let mut players = HashMap::new();
    players.insert(1, player(vec![(0, 0)], 'A', 'd'));
    players.insert(2, player(vec![(1, 0)], 'B', 'd'));
    let mut v = world(&["AB."]);
    resolve_heads(&mut v, &mut players, &heads(1));
    assert!(!players[&1].alive);
    assert_eq!(v, world(&["p.B"]));

    let mut players = HashMap::new();
    players.insert(1, player(vec![(0, 0)], 'A', 'd'));
    players.insert(2, player(vec![(1, 0)], 'B', 'd'));
    let mut v = world(&["AB."]);
    resolve_heads(&mut v, &mut players, &heads(2));
    assert!(players[&1].alive);
    assert_eq!(v, world(&[".AB"]));
}

#[test]
fn three_meet_and_die() {
    let mut players = HashMap::new();
    players.insert(1, player(vec![(0, 0)], 'A', 'd'));
    players.insert(2, player(vec![(2, 0)], 'B', 'a'));
    players.insert(3, player(vec![(1, 1)], 'C', 'w'));
    let mut v = world(&["A.B", ".C."]);
    meet_head(&mut v, &mut players, &Head { cell: (1, 0), riders: vec![1, 2, 3] });
    assert!(players.values().all(|p| !p.alive));
    assert_eq!(v, world(&["p.p", ".p."]));
}

#[test]
fn moving_into_the_own_tail_kills() {
    let mut v = world(&["AA", "AA"]);
    let mut players = HashMap::new();
    players.insert(1, player(vec![(0, 0), (1, 0), (1, 1), (0, 1)], 'A', 'w'));
    update_state(&mut v, &mut players);
    assert!(!players[&1].alive);
    assert_eq!(v, world(&["pp", "pp"]));
}

#[test]
fn everybody_is_listed_once() {
    let mut players = HashMap::new();
    for k in 0..20 {
        players.insert(k * 7, player(vec![(0, 0)], 'A', ' '));
    }
    let mut ids = player_ids(&players);
    ids.sort();
    let expected: Vec<u64> = (0..20).map(|k| k * 7).collect();
    assert_eq!(ids, expected);
}

#[test]
fn long_walk_keeps_the_body_together() {
    let mut v = world(&["A.f.f", "pf..f", "....f"]);
    let mut players = HashMap::new();
    players.insert(1, player(vec![(0, 0)], 'A', 'd'));
    for dir in ['d', 'd', 'd', 'd', 's', 's', 'a'] {
        players.get_mut(&1).unwrap().last_input = dir;
        update_state(&mut v, &mut players);
        let p = &players[&1];
        assert!(p.alive);
        assert_eq!(p.segments.len(), 1 + p.score);
        for pair in p.segments.windows(2) {
            let dx = pair[0].0.abs_diff(pair[1].0);
            let dy = pair[0].1.abs_diff(pair[1].1);
            assert!(dx + dy <= 1);
        }
        assert_eq!(v[1][0], '💩');
        assert_eq!(v[2][0], '⬜');
        assert_eq!(p.name, "bob");
        assert_eq!(p.symbol, 'A');
        assert_eq!(p.last_input, dir);
    }
    assert_eq!(players[&1].score, 4);
    assert_eq!(players[&1].segments, vec![(3, 0), (4, 0), (4, 1), (4, 2), (3, 2)]);
}

#[test]
fn fruit_beside_the_path_stays() {
    let mut v = world(&["A.", "ff"]);
    let mut players = HashMap::new();
    players.insert(1, player(vec![(0, 0)], 'A', 'd'));
    update_state(&mut v, &mut players);
    assert_eq!(v, world(&[".A", "ff"]));
    assert_eq!(players[&1].score, 0);
}

fn count(v: &[Vec<char>], c: char) -> usize {
    v.iter().flatten().filter(|d| **d == c).count()
}

#[test]
fn last_fruit_brings_new_ones() {
    let mut v = vec![vec!['⬜'; 40]; 40];
    v[5][5] = 'A';
    v[5][6] = '🍎';
    let mut players = HashMap::new();
    players.insert(1, player(vec![(5, 5)], 'A', 'd'));
    update_state(&mut v, &mut players);
    assert_eq!(players[&1].score, 1);
    assert_eq!(players[&1].segments, vec![(5, 5), (6, 5)]);
    assert_eq!(count(&v, '🍎'), FRUITS);
    assert_eq!(count(&v, 'A'), 1);
    assert_eq!(count(&v, '⬜'), 1600 - FRUITS - 1);
    assert_eq!(v[5][5], '⬜');
    assert_eq!(v[5][6], 'A');
}

#[test]
fn new_fruits_fill_a_small_world_but_no_body() {
    let mut v = world(&["Af.", "p.x"]);
    let mut players = HashMap::new();
    players.insert(1, player(vec![(0, 0)], 'A', 'd'));
    update_state(&mut v, &mut players);
    assert_eq!(players[&1].segments, vec![(0, 0), (1, 0)]);
    assert_eq!(v, world(&[".Af", "pfx"]));
    assert!(players[&1].alive);
}

#[test]
fn one_fruit_is_enough() {
    let mut v = world(&["AB..f", "....."]);
    let before = v.clone();
    let mut players = HashMap::new();
    players.insert(1, player(vec![(0, 0)], 'A', ' '));
    assert!(!is_out_of_fruit(&v));
    refill(&mut v, &players);
    assert_eq!(v, before);
    update_state(&mut v, &mut players);
    assert_eq!(v, before);
}

#[test]
fn refill_counts_to_the_number_of_fruits() {
    let mut v = world(&["......", "......", "p....."]);
    let players = HashMap::new();
    assert!(is_out_of_fruit(&v));
    refill(&mut v, &players);
    assert!(!is_out_of_fruit(&v));
    assert_eq!(count(&v, '🍎'), 10);
    assert_eq!(count(&v, '⬜'), 7);
    assert_eq!(v[2][0], '💩');
}

#[test]
fn refill_without_room_does_nothing() {
    let mut v = world(&["pp"]);
    refill(&mut v, &HashMap::new());
    assert_eq!(v, world(&["pp"]));
    assert!(is_out_of_fruit(&v));
}

#[test]
fn refills_differ() {
    let mut seen = std::collections::HashSet::new();
    for _ in 0..40 {
        let mut v = vec![vec!['⬜'; 40]; 40];
        refill(&mut v, &HashMap::new());
        seen.insert(v);
    }
    assert!(seen.len() > 1);
}

#[test]
fn new_fruit_lies_on_a_free_square_only() {
    let mut v = world(&[".A", "p."]);
    let mut players = HashMap::new();
    players.insert(1, player(vec![(0, 0), (1, 0)], 'A', 'd'));
    assert!(!place_new_fruit(&mut v, &players, 0, 0));
    assert!(!place_new_fruit(&mut v, &players, 1, 0));
    assert!(!place_new_fruit(&mut v, &players, 0, 1));
    assert_eq!(v, world(&[".A", "p."]));
    assert!(place_new_fruit(&mut v, &players, 1, 1));
    assert_eq!(v, world(&[".A", "pf"]));
    players.get_mut(&1).unwrap().alive = false;
    assert!(place_new_fruit(&mut v, &players, 0, 0));
    assert_eq!(v, world(&["fA", "pf"]));
}

#[test]
fn waiting_players_change_nothing() {
    let mut v = world(&["AB.f", "..p."]);
    let before = v.clone();
    let mut players = HashMap::new();
    players.insert(1, player(vec![(0, 0)], 'A', ' '));
    players.insert(2, player(vec![(1, 0)], 'B', ' '));
    let mut dead = player(vec![(2, 1)], 'C', 'd');
    dead.alive = false;
    players.insert(3, dead);
    for _ in 0..5 {
        update_state(&mut v, &mut players);
        assert_eq!(v, before);
        assert_eq!(players[&1].segments, vec![(0, 0)]);
        assert_eq!(players[&2].segments, vec![(1, 0)]);
        assert_eq!(players[&3].segments, vec![(2, 1)]);
        assert!(players[&1].alive && players[&2].alive && !players[&3].alive);
    }
}

#[test]
fn waiting_on_the_last_fruit_changes_squares_once() {
    let mut v = world(&["A..", "p.."]);
    let mut players = HashMap::new();
    players.insert(1, player(vec![(0, 0)], 'A', ' '));
    for _ in 0..3 {
        update_state(&mut v, &mut players);
        assert_eq!(v, world(&["Aff", "pff"]));
    }
}

#[test]
fn stains_stay() {
    let mut v = world(&["A.p", "x.f"]);
    let mut players = HashMap::new();
    players.insert(1, player(vec![(0, 0)], 'A', 'd'));
    update_state(&mut v, &mut players);
    update_state(&mut v, &mut players);
    assert!(!players[&1].alive);
    assert_eq!(v, world(&[".pp", "x.f"]));
}

#[test]
fn body_that_crashes_kills() {
    let mut v = world(&["A.f", "BB."]);
    let mut players = HashMap::new();
    players.insert(1, player(vec![(0, 0)], 'A', 's'));
    players.insert(2, player(vec![(1, 1), (0, 1)], 'B', 'a'));
    update_state(&mut v, &mut players);
    assert!(!players[&1].alive);
    assert!(!players[&2].alive);
    assert_eq!(v, world(&["p.f", "pp."]));
}
