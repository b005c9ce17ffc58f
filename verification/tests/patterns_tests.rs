//! Spread patterns, wall orientation and the random source.

use serenity::patterns::{
    at_edge, smart_attack_spread, smart_scan_spread, step_to_middle, triangle_left,
    triangle_rand_tight, triangle_right, triangle_smart, twin, wall_orientation, Orientation,
};
use serenity::position::Pos;
use serenity::rng::GameRng;
use serenity::util::{get_rand_range, get_random_pos};

#[test]
fn triangles_are_unit_spreads() {
    let p = Pos::new(3, -2);
    let left = triangle_left(p);
    let right = triangle_right(p);
    assert_eq!(left.len(), 3);
    assert_eq!(right.len(), 3);
    assert_eq!(left[0], Pos::new(2, -2));
    assert_eq!(left[1], Pos::new(4, -3));
    assert_eq!(left[2], Pos::new(3, -1));
    assert_eq!(right[0], Pos::new(4, -2));
    assert_eq!(right[1], Pos::new(2, -1));
    assert_eq!(right[2], Pos::new(3, -3));
    for q in left.iter().chain(right.iter()) {
        assert_eq!(p.distance(*q), 1);
    }
}

#[test]
fn triangle_rand_tight_is_one_of_the_chiralities() {
    let p = Pos::new(0, 0);
    let left = triangle_left(p);
    let right = triangle_right(p);
    for seed in 0..16u64 {
        let mut rng = GameRng::new(seed);
        let t = triangle_rand_tight(&mut rng, p);
        assert!(t == left || t == right);
    }
}

#[test]
fn triangle_smart_contains_target() {
    let p = Pos::new(2, 2);
    for seed in 0..16u64 {
        let mut rng = GameRng::new(seed);
        let t = triangle_smart(&mut rng, p);
        assert_eq!(t.len(), 3);
        assert!(t.contains(&p));
        for q in &t {
            assert!(p.distance(*q) <= 1);
        }
    }
}

#[test]
fn twin_layouts() {
    let p = Pos::new(1, 1);
    assert_eq!(twin(p, Orientation::Horizontal), vec![Pos::new(2, 1), Pos::new(0, 1)]);
    assert_eq!(twin(p, Orientation::Slash), vec![Pos::new(2, 0), Pos::new(0, 2)]);
    assert_eq!(twin(p, Orientation::Backslash), vec![Pos::new(1, 0), Pos::new(1, 2)]);
}

#[test]
fn wall_orientation_wedges() {
    let h = Orientation::Horizontal;
    let s = Orientation::Slash;
    let b = Orientation::Backslash;
    assert_eq!(wall_orientation(Pos::new(0, 0)), vec![h, s, b]);
    assert_eq!(wall_orientation(Pos::new(5, 0)), vec![s, b]);
    assert_eq!(wall_orientation(Pos::new(0, 4)), vec![h, s]);
    assert_eq!(wall_orientation(Pos::new(-3, 3)), vec![h, b]);
    assert_eq!(wall_orientation(Pos::new(4, 2)), vec![s]);
    assert_eq!(wall_orientation(Pos::new(-6, 2)), vec![b]);
    assert_eq!(wall_orientation(Pos::new(-2, 5)), vec![h]);
    assert_eq!(wall_orientation(Pos::new(-3, -2)), vec![s]);
    assert_eq!(wall_orientation(Pos::new(6, -4)), vec![b]);
    assert_eq!(wall_orientation(Pos::new(2, -5)), vec![h]);
}

#[test]
fn step_to_middle_moves_one_ring_in() {
    let origin = Pos::new(0, 0);
    assert_eq!(step_to_middle(origin), origin);
    let p = Pos::new(5, -2);
    let s = step_to_middle(p);
    assert_eq!(p.distance(s), 1);
    assert_eq!(s.distance(origin), p.distance(origin) - 1);
}

#[test]
fn at_edge_threshold() {
    assert!(at_edge(Pos::new(14, 0), 14));
    assert!(at_edge(Pos::new(15, 0), 14));
    assert!(!at_edge(Pos::new(13, 0), 14));
}

#[test]
fn attack_spread_returns_exactly_n_positions() {
    let target = Pos::new(1, -1);
    for n in 1..=4i16 {
        for seed in 0..8u64 {
            let mut rng = GameRng::new(seed);
            let spread = smart_attack_spread(&mut rng, target, n, 14);
            assert_eq!(spread.len(), n as usize);
            for q in &spread {
                assert!(target.distance(*q) <= 2);
            }
        }
    }
    let mut rng = GameRng::new(0);
    assert!(smart_attack_spread(&mut rng, target, 0, 14).is_empty());
    assert!(smart_attack_spread(&mut rng, target, 5, 14).is_empty());
}

#[test]
fn attack_spread_four_includes_target() {
    let target = Pos::new(2, 0);
    for seed in 0..8u64 {
        let mut rng = GameRng::new(seed);
        let spread = smart_attack_spread(&mut rng, target, 4, 14);
        assert_eq!(spread[3], target);
    }
}

#[test]
fn scan_spread_layouts() {
    let p = Pos::new(0, 0);
    assert_eq!(smart_scan_spread(p, 1), vec![p]);
    assert_eq!(smart_scan_spread(p, 2), vec![Pos::new(-2, 1), Pos::new(2, -1)]);
    assert_eq!(
        smart_scan_spread(p, 3),
        vec![Pos::new(-1, -2), Pos::new(-2, 2), Pos::new(2, 1)]
    );
    assert_eq!(
        smart_scan_spread(p, 4),
        vec![Pos::new(0, -3), Pos::new(3, -3), Pos::new(-3, 3), Pos::new(0, 3)]
    );
    assert!(smart_scan_spread(p, 0).is_empty());
    assert!(smart_scan_spread(p, 7).is_empty());
}

#[test]
fn random_helpers_stay_in_range() {
    let mut rng = GameRng::new(42);
    for _ in 0..64 {
        let v = get_rand_range(&mut rng, -1, 1);
        assert!((-1..=1).contains(&v));
    }
    assert_eq!(get_rand_range(&mut rng, 7, 7), 7);
    let options = vec![Pos::new(1, 0), Pos::new(0, 1), Pos::new(-1, 1)];
    for _ in 0..32 {
        let p = get_random_pos(&mut rng, &options);
        assert!(options.contains(&p));
    }
}

#[test]
fn jitter_spread_stays_within_one_per_axis() {
    let p = Pos::new(3, 3);
    for seed in 0..32u64 {
        let mut rng = GameRng::new(seed);
        let q = p.random_spread(&mut rng);
        assert!((p.x - q.x).abs() <= 1);
        assert!((p.y - q.y).abs() <= 1);
    }
}

#[test]
fn twin_spread_steps_off_the_edge() {
    let origin = Pos::new(0, 0);
    for seed in 0..8u64 {
        let mut rng = GameRng::new(seed);
        let spread = smart_attack_spread(&mut rng, Pos::new(14, 0), 2, 14);
        assert_eq!(spread.len(), 2);
        for q in &spread {
            assert!(q.distance(origin) <= 14, "spread point {:?} left the board", q);
        }
    }
}
