use snaek::chance::{drawn_emoji, emoji_span, random_emoji};
use snaek::init::{clear_world, empty_squares, init_world, place_fruit, place_snaek, FRUITS};
use snaek::snaek::Snaek;
use std::collections::{HashMap, HashSet};

fn player(symbol: char) -> Snaek {
    Snaek {
        name: String::from("eve"),
        segments: vec![(9, 9), (8, 8)],
        symbol,
        score: 5,
        last_input: 'w',
        alive: false,
    }
}

#[test]
fn round_has_fruits_and_players() {
    for _ in 0..50 {
        let mut v = vec![vec!['x']];
        let mut players = HashMap::new();
        players.insert(1, player('A'));
        players.insert(2, player('B'));
        players.insert(3, player('C'));
        init_world(&mut v, 6, 4, &mut players);
        assert_eq!(v.len(), 4);
        assert!(v.iter().all(|row| row.len() == 6));
        let count = |c: char| v.iter().flatten().filter(|d| **d == c).count();
        assert_eq!(count('🍎'), 10);
        assert_eq!(count('⬜'), 11);
        let mut starts = HashSet::new();
        for p in players.values() {
            assert!(p.alive);
            assert_eq!(p.segments.len(), 1);
            let (x, y) = p.segments[0];
            assert_eq!(v[y][x], p.symbol);
            assert!(starts.insert((x, y)));
            assert_eq!(p.score, 5);
            assert_eq!(p.last_input, 'w');
            assert_eq!(p.name, "eve");
        }
    }
}

#[test]
fn round_fills_a_world_that_is_just_large_enough() {
    let mut v = Vec::new();
    let mut players = HashMap::new();
    players.insert(1, player('A'));
    players.insert(2, player('B'));
    init_world(&mut v, 4, 3, &mut players);
    assert!(v.iter().flatten().all(|c| *c != '⬜'));
    assert_eq!(v.iter().flatten().filter(|c| **c == '🍎').count(), FRUITS);
}

#[test]
fn rounds_differ() {
    let mut seen = HashSet::new();
    for _ in 0..40 {
        let mut v = Vec::new();
        let mut players = HashMap::new();
        players.insert(1, player('A'));
        init_world(&mut v, 40, 40, &mut players);
        seen.insert(players[&1].segments[0]);
    }
    assert!(seen.len() > 1);
}

#[test]
fn round_clears_the_old_world() {
    let mut v = vec![vec!['x'; 9]; 2];
    clear_world(&mut v, 2, 3);
    assert_eq!(v, vec![vec!['⬜', '⬜'], vec!['⬜', '⬜'], vec!['⬜', '⬜']]);
}

#[test]
fn drawn_square_is_taken_only_if_empty() {
    let mut v = vec![vec!['⬜', '🍎']];
    let mut p = player('A');
    assert!(!place_snaek(&mut v, &mut p, 1, 0));
    assert_eq!(p.segments, vec![(9, 9), (8, 8)]);
    assert!(!p.alive);
    assert!(place_snaek(&mut v, &mut p, 0, 0));
    assert_eq!(p.segments, vec![(0, 0)]);
    assert!(p.alive);
    assert_eq!(v, vec![vec!['A', '🍎']]);
    assert!(!place_fruit(&mut v, 0, 0));
    assert_eq!(v, vec![vec!['A', '🍎']]);
    let mut v = vec![vec!['⬜', 'A']];
    assert!(place_fruit(&mut v, 0, 0));
    assert_eq!(v, vec![vec!['🍎', 'A']]);
}

#[test]
fn spans_of_symbols() {
    assert_eq!(emoji_span(0), Some((0x1f600, 0x1f64f)));
    assert_eq!(emoji_span(1), Some((0x1f910, 0x1f93a)));
    assert_eq!(emoji_span(2), Some((0x1f442, 0x1f4f7)));
    assert_eq!(emoji_span(3), None);
}

#[test]
fn drawn_symbols() {
    assert_eq!(drawn_emoji(0, 0x1f600), '😀');
    assert_eq!(drawn_emoji(2, 0x1f4a9), '💩');
    assert_eq!(drawn_emoji(3, 0x1f600), ' ');
}

#[test]
fn random_symbols_lie_in_the_spans() {
    let mut seen = HashSet::new();
    for _ in 0..2000 {
        let code = random_emoji() as u32;
        assert!(
            (0x1f600..=0x1f64f).contains(&code)
                || (0x1f910..=0x1f93a).contains(&code)
                || (0x1f442..=0x1f4f7).contains(&code)
        );
        seen.insert(code);
    }
    assert!(seen.len() > 50);
    assert!(seen.iter().any(|c| (0x1f600..=0x1f64f).contains(c)));
    assert!(seen.iter().any(|c| (0x1f910..=0x1f93a).contains(c)));
    assert!(seen.iter().any(|c| (0x1f442..=0x1f4f7).contains(c)));
}

#[test]
fn same_draws_make_the_same_round() {
    let tries = [(1, 0, 0), (2, 0, 0), (2, 1, 1)];
    let fruits = [(1, 1), (0, 1), (2, 0)];
    let round = |mut v: Vec<Vec<char>>, mut players: HashMap<u64, Snaek>| {
        clear_world(&mut v, 3, 2);
        for (k, x, y) in tries {
            place_snaek(&mut v, players.get_mut(&k).unwrap(), x, y);
        }
        for (x, y) in fruits {
            place_fruit(&mut v, x, y);
        }
        (v, players)
    };
    let mut first = HashMap::new();
    first.insert(1, player('A'));
    first.insert(2, player('B'));
    let mut second = HashMap::new();
    for (k, symbol) in [(1, 'A'), (2, 'B')] {
        let mut p = player(symbol);
        p.segments = vec![(0, 0); 3];
        p.alive = true;
        second.insert(k, p);
    }
    let (v, p) = round(vec![vec!['x'; 7]; 7], first);
    let (w, q) = round(Vec::new(), second);
    assert_eq!(v, vec![vec!['A', '⬜', '🍎'], vec!['🍎', 'B', '⬜']]);
    assert_eq!(v, w);
    for k in [1, 2] {
        assert_eq!(p[&k].segments, q[&k].segments);
        assert!(p[&k].alive && q[&k].alive);
        assert_eq!(p[&k].score, q[&k].score);
        assert_eq!(p[&k].last_input, q[&k].last_input);
    }
    assert_eq!(p[&1].segments, vec![(0, 0)]);
    assert_eq!(p[&2].segments, vec![(1, 1)]);
}

#[test]
fn empty_squares_are_listed_once() {
    let v = vec![vec!['⬜', 'A', '⬜'], vec![], vec!['🍎', '⬜']];
    let mut squares = empty_squares(&v);
    squares.sort();
    assert_eq!(squares, vec![(0, 0), (1, 2), (2, 0)]);
    assert!(empty_squares(&vec![vec!['💩']]).is_empty());
}

#[test]
fn every_square_can_be_a_start() {
    let mut seen = HashSet::new();
    for _ in 0..2000 {
        let mut v = Vec::new();
        let mut players = HashMap::new();
        players.insert(1, player('A'));
        init_world(&mut v, 4, 3, &mut players);
        seen.insert(players[&1].segments[0]);
    }
    assert_eq!(seen.len(), 12);
}
