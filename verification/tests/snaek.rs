use snaek::snaek::{kill_snaek, next_square, steer, Snaek};

fn player(segments: Vec<(usize, usize)>, last_input: char) -> Snaek {
    Snaek {
        name: String::from("ann"),
        segments,
        symbol: '@',
        score: 3,
        last_input,
        alive: true,
    }
}

#[test]
fn kill_stains_every_segment() {
    let mut v = vec![vec!['a', 'b'], vec!['c', 'd']];
    let mut p = player(vec![(0, 1), (1, 1)], 'w');
    kill_snaek(&mut v, &mut p);
    assert_eq!(v, vec![vec!['a', 'b'], vec!['💩', '💩']]);
    assert!(!p.alive);
    assert_eq!(p.score, 3);
    assert_eq!(p.segments, vec![(0, 1), (1, 1)]);
    assert_eq!(p.last_input, 'w');
}

#[test]
fn kill_without_body_stains_nothing() {
    let mut v = vec![vec!['a', 'b']];
    let mut p = player(vec![], 'w');
    kill_snaek(&mut v, &mut p);
    assert_eq!(v, vec![vec!['a', 'b']]);
    assert!(!p.alive);
}

#[test]
fn next_square_in_each_direction() {
    assert_eq!(next_square((1, 1), 'w', 3, 3), Some((1, 0)));
    assert_eq!(next_square((1, 1), 'a', 3, 3), Some((0, 1)));
    assert_eq!(next_square((1, 1), 's', 3, 3), Some((1, 2)));
    assert_eq!(next_square((1, 1), 'd', 3, 3), Some((2, 1)));
    assert_eq!(next_square((1, 1), ' ', 3, 3), Some((1, 1)));
}

#[test]
fn next_square_outside_the_world() {
    assert_eq!(next_square((1, 0), 'w', 3, 3), None);
    assert_eq!(next_square((0, 1), 'a', 3, 3), None);
    assert_eq!(next_square((1, 2), 's', 3, 3), None);
    assert_eq!(next_square((2, 1), 'd', 3, 3), None);
    assert_eq!(next_square((1, 1), 'x', 3, 3), None);
}

#[test]
fn next_square_tells_width_from_height() {
    assert_eq!(next_square((2, 0), 'd', 5, 1), Some((3, 0)));
    assert_eq!(next_square((2, 0), 's', 5, 1), None);
    assert_eq!(next_square((0, 2), 's', 1, 5), Some((0, 3)));
    assert_eq!(next_square((0, 2), 'd', 1, 5), None);
}

#[test]
fn steer_never_turns_back() {
    let expected = [
        ('w', ['w', 'a', 'w', 'd']),
        ('a', ['w', 'a', 's', 'a']),
        ('s', ['s', 'a', 's', 'd']),
        ('d', ['w', 'd', 's', 'd']),
        (' ', ['w', 'a', 's', 'd']),
    ];
    for (before, after) in expected.iter() {
        for (i, dir) in ['w', 'a', 's', 'd'].iter().enumerate() {
            let mut p = player(vec![(0, 0)], *before);
            steer(&mut p, *dir);
            assert_eq!(p.last_input, after[i]);
            assert_eq!(p.segments, vec![(0, 0)]);
            assert!(p.alive);
        }
    }
}

#[test]
fn steer_ignores_other_keys() {
    for before in ['w', 'a', 's', 'd', ' '].iter() {
        for dir in ['q', ' ', 'W', 'x'].iter() {
            let mut p = player(vec![(0, 0)], *before);
            steer(&mut p, *dir);
            assert_eq!(p.last_input, *before);
        }
    }
}

#[test]
fn two_requests_can_turn_back() {
    let mut p = player(vec![(0, 0)], 'w');
    steer(&mut p, 'a');
    steer(&mut p, 's');
    assert_eq!(p.last_input, 's');
}
