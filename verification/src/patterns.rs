//! Spread patterns around a target: the fire and scan point layouts chosen
//! by the number of available bots, and the wall-aware orientation choice
//! for the two-bot spread.

use vstd::prelude::*;
use crate::position::{
    Pos, dist, abs_int, spec_origo, pos_in_range, pos_near_board, MAX_COORD,
    lemma_dist_zero_eq, lemma_dist_self_zero, lemma_dist_symmetric, lemma_dist_triangle, lemma_step_toward_origin,
};
use crate::rng::GameRng;
use crate::util::shuffle;

verus! {

/// The axis along which a two-point spread is laid out.
#[derive(Clone, Copy, PartialEq, Eq, Structural, Debug)]
pub enum Orientation {
    Horizontal,
    Slash,
    Backslash,
}

/// The left-handed three-point triangle around a target.
pub open spec fn spec_triangle_left(pos: Pos) -> Seq<Pos> {
    seq![
        Pos { x: (pos.x - 1) as i16, y: pos.y },
        Pos { x: (pos.x + 1) as i16, y: (pos.y - 1) as i16 },
        Pos { x: pos.x, y: (pos.y + 1) as i16 },
    ]
}

/// The right-handed mirror of [`spec_triangle_left`].
pub open spec fn spec_triangle_right(pos: Pos) -> Seq<Pos> {
    seq![
        Pos { x: (pos.x + 1) as i16, y: pos.y },
        Pos { x: (pos.x - 1) as i16, y: (pos.y + 1) as i16 },
        Pos { x: pos.x, y: (pos.y - 1) as i16 },
    ]
}

/// The two-point spread for the given orientation.
pub open spec fn spec_twin(pos: Pos, orientation: Orientation) -> Seq<Pos> {
    match orientation {
        Orientation::Horizontal => seq![
            Pos { x: (pos.x + 1) as i16, y: pos.y },
            Pos { x: (pos.x - 1) as i16, y: pos.y },
        ],
        Orientation::Slash => seq![
            Pos { x: (pos.x + 1) as i16, y: (pos.y - 1) as i16 },
            Pos { x: (pos.x - 1) as i16, y: (pos.y + 1) as i16 },
        ],
        Orientation::Backslash => seq![
            Pos { x: pos.x, y: (pos.y - 1) as i16 },
            Pos { x: pos.x, y: (pos.y + 1) as i16 },
        ],
    }
}

/// The orientations whose twin spread is least likely to leave the board,
/// as a function of the board wedge the target sits in.
pub open spec fn spec_wall_orientation(pos: Pos) -> Seq<Orientation> {
    if pos == spec_origo() {
        seq![Orientation::Horizontal, Orientation::Slash, Orientation::Backslash]
    } else if pos.y == 0 {
        seq![Orientation::Slash, Orientation::Backslash]
    } else if pos.x == 0 {
        seq![Orientation::Horizontal, Orientation::Slash]
    } else if pos.x == -pos.y {
        seq![Orientation::Horizontal, Orientation::Backslash]
    } else if pos.y > 0 {
        if pos.x > 0 {
            seq![Orientation::Slash]
        } else if -pos.x > pos.y {
            seq![Orientation::Backslash]
        } else {
            seq![Orientation::Horizontal]
        }
    } else {
        if pos.x < 0 {
            seq![Orientation::Slash]
        } else if pos.x > -pos.y {
            seq![Orientation::Backslash]
        } else {
            seq![Orientation::Horizontal]
        }
    }
}

/// The left-handed triangle: three hexes at distance one around the target.
pub fn triangle_left(pos: Pos) -> (v: Vec<Pos>)
    requires
        pos_near_board(pos),
    ensures
        v@ == spec_triangle_left(pos),
        v@.len() == 3,
        forall|i: int| 0 <= i < 3 ==> dist(pos, #[trigger] v@[i]) == 1,
{
    let v = vec![
        Pos { x: pos.x - 1, y: pos.y },
        Pos { x: pos.x + 1, y: pos.y - 1 },
        Pos { x: pos.x, y: pos.y + 1 },
    ];
    proof {
        assert(v@ =~= spec_triangle_left(pos));
    }
    v
}

/// The right-handed triangle: the chiral mirror of [`triangle_left`].
pub fn triangle_right(pos: Pos) -> (v: Vec<Pos>)
    requires
        pos_near_board(pos),
    ensures
        v@ == spec_triangle_right(pos),
        v@.len() == 3,
        forall|i: int| 0 <= i < 3 ==> dist(pos, #[trigger] v@[i]) == 1,
{
    let v = vec![
        Pos { x: pos.x + 1, y: pos.y },
        Pos { x: pos.x - 1, y: pos.y + 1 },
        Pos { x: pos.x, y: pos.y - 1 },
    ];
    proof {
        assert(v@ =~= spec_triangle_right(pos));
    }
    v
}

/// One of the two chiral triangles, picked at random.
pub fn triangle_rand_tight(rng: &mut GameRng, pos: Pos) -> (v: Vec<Pos>)
    requires
        pos_near_board(pos),
    ensures
        v@ == spec_triangle_left(pos) || v@ == spec_triangle_right(pos),
        v@.len() == 3,
        forall|i: int| 0 <= i < 3 ==> dist(pos, #[trigger] v@[i]) == 1,
{
    if rng.below(2) == 0 {
        triangle_left(pos)
    } else {
        triangle_right(pos)
    }
}

/// A random chiral triangle, shuffled, with one of its points replaced by
/// the exact target and the point order shuffled again, so neither the
/// targeted slot nor its bot is fixed across calls.
pub fn triangle_smart(rng: &mut GameRng, pos: Pos) -> (v: Vec<Pos>)
    requires
        pos_near_board(pos),
    ensures
        v@.len() == 3,
        forall|i: int| 0 <= i < 3 ==> dist(pos, #[trigger] v@[i]) <= 1,
        forall|i: int| 0 <= i < 3 ==> pos_in_range(#[trigger] v@[i]),
        v@.contains(pos),
{
    let mut triangle = triangle_rand_tight(rng, pos);
    let ghost chiral = triangle@;
    shuffle(rng, &mut triangle);
    proof {
        assert forall|i: int| 0 <= i < 3 implies dist(pos, #[trigger] triangle@[i]) <= 1 by {
            assert(triangle@.contains(triangle@[i]));
            assert(chiral.contains(triangle@[i]));
            let k = choose|k: int| 0 <= k < chiral.len() && chiral[k] == triangle@[i];
            assert(dist(pos, chiral[k]) == 1);
        }
    }
    triangle[0] = Pos { x: pos.x, y: pos.y };
    let ghost mid = triangle@;
    proof {
        assert(mid[0] == pos);
        assert(mid.contains(pos));
        assert forall|i: int| 0 <= i < 3 implies dist(pos, #[trigger] mid[i]) <= 1 by {
            if i == 0 {
                lemma_dist_self_zero(pos);
            }
        }
    }
    shuffle(rng, &mut triangle);
    proof {
        assert(triangle@.contains(pos));
        assert forall|i: int| 0 <= i < 3 implies dist(pos, #[trigger] triangle@[i]) <= 1
            && pos_in_range(#[trigger] triangle@[i]) by {
            assert(triangle@.contains(triangle@[i]));
            assert(mid.contains(triangle@[i]));
            let k = choose|k: int| 0 <= k < mid.len() && mid[k] == triangle@[i];
            assert(dist(pos, mid[k]) <= 1);
            assert(abs_int(triangle@[i].x - pos.x) <= dist(pos, triangle@[i]));
        }
    }
    triangle
}

/// The two-point spread along the given orientation.
pub fn twin(pos: Pos, orientation: Orientation) -> (v: Vec<Pos>)
    requires
        pos_near_board(pos),
    ensures
        v@ == spec_twin(pos, orientation),
        v@.len() == 2,
        forall|i: int| 0 <= i < 2 ==> dist(pos, #[trigger] v@[i]) == 1 && pos_in_range(v@[i]),
{
    let v = match orientation {
        Orientation::Horizontal => vec![
            Pos { x: pos.x + 1, y: pos.y },
            Pos { x: pos.x - 1, y: pos.y },
        ],
        Orientation::Slash => vec![
            Pos { x: pos.x + 1, y: pos.y - 1 },
            Pos { x: pos.x - 1, y: pos.y + 1 },
        ],
        Orientation::Backslash => vec![
            Pos { x: pos.x, y: pos.y - 1 },
            Pos { x: pos.x, y: pos.y + 1 },
        ],
    };
    proof {
        assert(v@ =~= spec_twin(pos, orientation));
    }
    v
}

/// Whether the hex touches or lies beyond the board edge.
pub fn at_edge(pos: Pos, map_radius: i16) -> (r: bool)
    requires
        pos_in_range(pos),
    ensures
        r == (dist(pos, spec_origo()) >= map_radius),
{
    pos.distance(Pos::origo()) >= map_radius
}

/// One hex step toward the board center: the lexicographically first
/// neighbor nearest the origin, which is exactly one ring closer.
pub fn step_to_middle(pos: Pos) -> (r: Pos)
    requires
        crate::position::pos_small(pos),
    ensures
        pos == spec_origo() ==> r == pos,
        pos != spec_origo() ==> dist(pos, r) == 1 && dist(r, spec_origo()) == dist(
            pos,
            spec_origo(),
        ) - 1,
        pos_in_range(r),
        dist(pos, r) <= 1,
{
    if pos.x == 0 && pos.y == 0 {
        proof {
            lemma_dist_zero_eq(pos, pos);
        }
        pos
    } else {
        let neighbors = pos.neighbors(1);
        proof {
            lemma_step_toward_origin(pos);
            let q = choose|q: Pos|
                dist(pos, q) == 1 && dist(q, spec_origo()) == dist(pos, spec_origo()) - 1
                    && abs_int(q.x as int) <= abs_int(pos.x as int) + 1 && abs_int(q.y as int)
                    <= abs_int(pos.y as int) + 1;
            assert(neighbors@.contains(q));
            assert(neighbors@.len() > 0);
        }
        let mut best: Pos = neighbors[0];
        let mut best_d: i16 = best.distance(Pos::origo());
        let mut i: usize = 1;
        while i < neighbors.len()
            invariant
                1 <= i <= neighbors@.len(),
                neighbors@.contains(best),
                best_d == dist(best, spec_origo()),
                forall|k: int|
                    0 <= k < i ==> dist(best, spec_origo()) <= dist(
                        #[trigger] neighbors@[k],
                        spec_origo(),
                    ),
            decreases neighbors@.len() - i,
        {
            let cand = neighbors[i];
            let cd = cand.distance(Pos::origo());
            if cd < best_d {
                best = cand;
                best_d = cd;
            }
            i = i + 1;
        }
        proof {
            // the witness one ring in shows the minimum is exactly one less
            let q = choose|q: Pos|
                dist(pos, q) == 1 && dist(q, spec_origo()) == dist(pos, spec_origo()) - 1
                    && abs_int(q.x as int) <= abs_int(pos.x as int) + 1 && abs_int(q.y as int)
                    <= abs_int(pos.y as int) + 1;
            assert(neighbors@.contains(q));
            let k = choose|k: int| 0 <= k < neighbors@.len() && neighbors@[k] == q;
            assert(dist(best, spec_origo()) <= dist(pos, spec_origo()) - 1);
            assert(dist(pos, best) == 1) by {
                assert(neighbors@.contains(best));
                lemma_dist_zero_eq(pos, best);
            }
            lemma_dist_triangle(pos, best, spec_origo());
            lemma_dist_symmetric(pos, best);
            lemma_dist_symmetric(best, pos);
            assert(dist(pos, spec_origo()) <= dist(pos, best) + dist(best, spec_origo()));
        }
        best
    }
}

/// The orientations for the two-point spread, least-exposed first; always
/// at least one.
pub fn wall_orientation(pos: Pos) -> (v: Vec<Orientation>)
    requires
        pos_near_board(pos),
    ensures
        v@ == spec_wall_orientation(pos),
        v@.len() >= 1,
{
    let v = if pos.x == 0 && pos.y == 0 {
        vec![Orientation::Horizontal, Orientation::Slash, Orientation::Backslash]
    } else if pos.y == 0 {
        vec![Orientation::Slash, Orientation::Backslash]
    } else if pos.x == 0 {
        vec![Orientation::Horizontal, Orientation::Slash]
    } else if pos.x == -pos.y {
        vec![Orientation::Horizontal, Orientation::Backslash]
    } else if pos.y > 0 {
        if pos.x > 0 {
            vec![Orientation::Slash]
        } else if -pos.x > pos.y {
            vec![Orientation::Backslash]
        } else {
            vec![Orientation::Horizontal]
        }
    } else {
        if pos.x < 0 {
            vec![Orientation::Slash]
        } else if pos.x > -pos.y {
            vec![Orientation::Backslash]
        } else {
            vec![Orientation::Horizontal]
        }
    };
    proof {
        assert(v@ =~= spec_wall_orientation(pos));
    }
    v
}

/// The scan layout for `n` idle bots: wider offsets than the attack
/// triangle, since its purpose is re-acquisition breadth.
pub open spec fn spec_scan_spread(pos: Pos, n: int) -> Seq<Pos> {
    if n == 4 {
        seq![
            Pos { x: pos.x, y: (pos.y - 3) as i16 },
            Pos { x: (pos.x + 3) as i16, y: (pos.y - 3) as i16 },
            Pos { x: (pos.x - 3) as i16, y: (pos.y + 3) as i16 },
            Pos { x: pos.x, y: (pos.y + 3) as i16 },
        ]
    } else if n == 3 {
        seq![
            Pos { x: (pos.x - 1) as i16, y: (pos.y - 2) as i16 },
            Pos { x: (pos.x - 2) as i16, y: (pos.y + 2) as i16 },
            Pos { x: (pos.x + 2) as i16, y: (pos.y + 1) as i16 },
        ]
    } else if n == 2 {
        seq![
            Pos { x: (pos.x - 2) as i16, y: (pos.y + 1) as i16 },
            Pos { x: (pos.x + 2) as i16, y: (pos.y - 1) as i16 },
        ]
    } else if n == 1 {
        seq![pos]
    } else {
        Seq::empty()
    }
}

/// The fire positions for `n` available bots around a target: jitter for
/// one bot, an oriented twin stepped off the board edge for two, a chiral
/// triangle for three, the triangle plus the exact target for four.  Any
/// other count yields no positions.
pub fn smart_attack_spread(rng: &mut GameRng, pos: Pos, available_bots: i16, map_radius: i16) -> (v:
    Vec<Pos>)
    requires
        pos_near_board(pos),
        -MAX_COORD < pos.x < MAX_COORD,
        -MAX_COORD < pos.y < MAX_COORD,
    ensures
        1 <= available_bots <= 4 ==> v@.len() == available_bots as int,
        !(1 <= available_bots <= 4) ==> v@.len() == 0,
        forall|i: int|
            0 <= i < v@.len() ==> dist(pos, #[trigger] v@[i]) <= 2 && pos_in_range(v@[i]),
        available_bots == 1 ==> abs_int(v@[0].x - pos.x) <= 1 && abs_int(v@[0].y - pos.y) <= 1,
        available_bots == 2 ==> forall|i: int|
            0 <= i < 2 ==> {
                let t = spec_twin(pos, spec_wall_orientation(pos)[0])[i];
                &&& (dist(t, spec_origo()) < map_radius ==> #[trigger] v@[i] == t)
                &&& (dist(t, spec_origo()) >= map_radius && t == spec_origo() ==> v@[i] == t)
                &&& (dist(t, spec_origo()) >= map_radius && t != spec_origo() ==> dist(t, v@[i])
                    == 1 && dist(v@[i], spec_origo()) == dist(t, spec_origo()) - 1)
            },
        available_bots == 3 || available_bots == 4 ==> (forall|i: int|
            0 <= i < 3 ==> dist(pos, #[trigger] v@[i]) <= 1) && (exists|i: int|
            0 <= i < 3 && v@[i] == pos),
        available_bots == 4 ==> v@[3] == pos,
        available_bots == 3 || available_bots == 4 ==> v@.contains(pos),
{
    if available_bots == 4 {
        let mut shoot_at = triangle_smart(rng, pos);
        proof {
            let k = choose|k: int| 0 <= k < shoot_at@.len() && shoot_at@[k] == pos;
        }
        let ghost triangle = shoot_at@;
        shoot_at.push(pos);
        proof {
            lemma_dist_self_zero(pos);
            assert(shoot_at@[3] == pos);
            assert(shoot_at@.contains(pos));
            let k = choose|k: int| 0 <= k < triangle.len() && triangle[k] == pos;
            assert(shoot_at@[k] == pos);
        }
        shoot_at
    } else if available_bots == 3 {
        triangle_smart(rng, pos)
    } else if available_bots == 2 {
        let orientations = wall_orientation(pos);
        let orientation = orientations[0];
        let points = twin(pos, orientation);
        proof {
            assert(orientation == spec_wall_orientation(pos)[0]);
        }
        let mut shoot_at: Vec<Pos> = Vec::new();
        let mut i: usize = 0;
        while i < points.len()
            invariant
                0 <= i <= points@.len(),
                shoot_at@.len() == i,
                points@ == spec_twin(pos, spec_wall_orientation(pos)[0]),
                forall|k: int|
                    0 <= k < i ==> dist(pos, #[trigger] shoot_at@[k]) <= 2 && pos_in_range(
                        shoot_at@[k],
                    ),
                forall|k: int|
                    0 <= k < i ==> {
                        let t = spec_twin(pos, spec_wall_orientation(pos)[0])[k];
                        &&& (dist(t, spec_origo()) < map_radius ==> #[trigger] shoot_at@[k] == t)
                        &&& (dist(t, spec_origo()) >= map_radius && t == spec_origo()
                            ==> shoot_at@[k] == t)
                        &&& (dist(t, spec_origo()) >= map_radius && t != spec_origo() ==> dist(
                            t,
                            shoot_at@[k],
                        ) == 1 && dist(shoot_at@[k], spec_origo()) == dist(t, spec_origo()) - 1)
                    },
            decreases points@.len() - i,
        {
            let p = points[i];
            proof {
                assert(points@[i as int] == p);
                assert(dist(pos, p) == 1);
            }
            if at_edge(p, map_radius) {
                let stepped = step_to_middle(p);
                proof {
                    lemma_dist_triangle(pos, p, stepped);
                }
                shoot_at.push(stepped);
            } else {
                shoot_at.push(p);
            }
            i = i + 1;
        }
        shoot_at
    } else if available_bots == 1 {
        let jittered = pos.random_spread(rng);
        let v = vec![jittered];
        proof {
            assert(v@[0] == jittered);
        }
        v
    } else {
        Vec::new()
    }
}

/// The scan positions for `n` idle bots around a target.
pub fn smart_scan_spread(pos: Pos, available_bots: i16) -> (v: Vec<Pos>)
    requires
        pos_near_board(pos),
    ensures
        v@ == spec_scan_spread(pos, available_bots as int),
        1 <= available_bots <= 4 ==> v@.len() == available_bots as int,
        !(1 <= available_bots <= 4) ==> v@.len() == 0,
        forall|i: int|
            0 <= i < v@.len() ==> dist(pos, #[trigger] v@[i]) <= 3 && pos_in_range(v@[i]),
{
    let v: Vec<Pos> = if available_bots == 4 {
        vec![
            Pos { x: pos.x, y: pos.y - 3 },
            Pos { x: pos.x + 3, y: pos.y - 3 },
            Pos { x: pos.x - 3, y: pos.y + 3 },
            Pos { x: pos.x, y: pos.y + 3 },
        ]
    } else if available_bots == 3 {
        vec![
            Pos { x: pos.x - 1, y: pos.y - 2 },
            Pos { x: pos.x - 2, y: pos.y + 2 },
            Pos { x: pos.x + 2, y: pos.y + 1 },
        ]
    } else if available_bots == 2 {
        vec![
            Pos { x: pos.x - 2, y: pos.y + 1 },
            Pos { x: pos.x + 2, y: pos.y - 1 },
        ]
    } else if available_bots == 1 {
        vec![pos]
    } else {
        Vec::new()
    };
    proof {
        assert(v@ =~= spec_scan_spread(pos, available_bots as int));
        lemma_dist_self_zero(pos);
    }
    v
}

} // verus!
