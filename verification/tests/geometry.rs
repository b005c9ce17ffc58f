//! The hex metric, clamping and neighbor enumeration on concrete values.

use serenity::position::Pos;
use serenity::util::dedup_nosort;

fn d(a: Pos, b: Pos) -> i16 {
    a.distance(b)
}

#[test]
fn distance_to_self_is_zero() {
    let points = [Pos::new(0, 0), Pos::new(3, -2), Pos::new(-7, 7), Pos::new(14, 0)];
    for p in points {
        assert_eq!(d(p, p), 0);
    }
}

#[test]
fn distance_is_symmetric() {
    let a = Pos::new(3, -2);
    let b = Pos::new(-1, 5);
    assert_eq!(d(a, b), d(b, a));
    let c = Pos::new(14, -14);
    assert_eq!(d(a, c), d(c, a));
}

#[test]
fn distance_concrete_values() {
    assert_eq!(d(Pos::new(0, 0), Pos::new(1, 0)), 1);
    assert_eq!(d(Pos::new(0, 0), Pos::new(1, -1)), 1);
    assert_eq!(d(Pos::new(0, 0), Pos::new(1, 1)), 2);
    assert_eq!(d(Pos::new(0, 0), Pos::new(3, -2)), 3);
    assert_eq!(d(Pos::new(2, -1), Pos::new(-1, 3)), 4);
}

#[test]
fn triangle_inequality_sampled() {
    let pts = [
        Pos::new(0, 0),
        Pos::new(5, -3),
        Pos::new(-4, 2),
        Pos::new(7, 7),
        Pos::new(-8, -1),
    ];
    for a in pts {
        for b in pts {
            for c in pts {
                assert!(d(a, c) <= d(a, b) + d(b, c));
            }
        }
    }
}

#[test]
fn clamp_is_noop_on_board() {
    let r: i16 = 14;
    let p = Pos::new(7, -3);
    assert_eq!(p.clamp(&r), p);
    let origin = Pos::new(0, 0);
    assert_eq!(origin.clamp(&r), origin);
    let edge = Pos::new(14, 0);
    assert_eq!(edge.clamp(&r), edge);
}

#[test]
fn clamp_projects_onto_board() {
    let r: i16 = 14;
    let origin = Pos::new(0, 0);
    let far = [Pos::new(20, 0), Pos::new(0, -30), Pos::new(18, 18), Pos::new(-25, 10)];
    for p in far {
        let c = p.clamp(&r);
        assert!(c.distance(origin) <= r, "clamp left the board: {:?} -> {:?}", p, c);
    }
    // a point straight out along an axis lands on the boundary
    assert_eq!(Pos::new(28, 0).clamp(&r), Pos::new(14, 0));
}

#[test]
fn clamp_is_idempotent() {
    let r: i16 = 14;
    let pts = [Pos::new(20, 3), Pos::new(-17, -17), Pos::new(0, 40), Pos::new(5, 5)];
    for p in pts {
        let once = p.clamp(&r);
        let twice = once.clamp(&r);
        assert_eq!(once, twice);
    }
}

#[test]
fn neighbors_radius_one() {
    let c = Pos::new(0, 0);
    let n = c.neighbors(1);
    assert_eq!(n.len(), 6);
    for p in &n {
        assert_eq!(c.distance(*p), 1);
        assert_ne!(*p, c);
    }
}

#[test]
fn neighbors_nonpositive_radius_is_empty() {
    let c = Pos::new(3, 3);
    assert!(c.neighbors(0).is_empty());
    assert!(c.neighbors(-2).is_empty());
}

#[test]
fn neighbors_radius_two_count() {
    // a hex disk of radius 2 has 18 hexes around the center
    let c = Pos::new(2, -1);
    let n = c.neighbors(2);
    assert_eq!(n.len(), 18);
    for p in &n {
        assert!(c.distance(*p) <= 2);
    }
}

#[test]
fn clamped_neighbors_respect_board() {
    let c = Pos::new(14, 0);
    let n = c.clamped_neighbors(2, 14);
    assert!(!n.is_empty());
    let origin = Pos::new(0, 0);
    for p in &n {
        assert!(p.distance(origin) <= 14);
        assert!(c.distance(*p) <= 2);
        assert_ne!(*p, c);
    }
}

#[test]
fn dedup_nosort_removes_repeats() {
    let mut v = vec![
        Pos::new(1, 1),
        Pos::new(2, 2),
        Pos::new(1, 1),
        Pos::new(3, 3),
        Pos::new(2, 2),
    ];
    dedup_nosort(&mut v);
    assert_eq!(v.len(), 3);
    assert!(v.contains(&Pos::new(1, 1)));
    assert!(v.contains(&Pos::new(2, 2)));
    assert!(v.contains(&Pos::new(3, 3)));
}
