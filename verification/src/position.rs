//! Axial hex coordinates, the hex distance metric, neighbor enumeration and
//! board clamping.
//!
//! A position is a pair of integer axes `(x, y)`; the implied third cube
//! coordinate is `x + y` (up to sign), and the distance between two hexes is
//! the largest absolute difference over the three cube coordinates.

use vstd::prelude::*;

verus! {

/// Largest coordinate magnitude the distance arithmetic accepts.
pub const MAX_COORD: i16 = 8000;

/// Largest coordinate magnitude for centers handed to neighbor enumeration,
/// so that every enumerated hex still satisfies [`pos_in_range`].
pub const MAX_CENTER: i16 = 4000;

/// An axial hex coordinate.  Compared and equal by its coordinate pair.
#[derive(Clone, Copy, PartialEq, Eq, Structural, Debug, Hash)]
pub struct Pos {
    pub x: i16,
    pub y: i16,
}

pub open spec fn abs_int(a: int) -> int {
    if a < 0 {
        -a
    } else {
        a
    }
}

pub open spec fn max3(a: int, b: int, c: int) -> int {
    if a >= b && a >= c {
        a
    } else if b >= c {
        b
    } else {
        c
    }
}

/// The hex metric: the largest absolute difference over the cube coordinates
/// `x`, `y` and `x + y`.
pub open spec fn dist(a: Pos, b: Pos) -> int {
    max3(
        abs_int(a.x - b.x),
        abs_int(a.y - b.y),
        abs_int((a.x + a.y) - (b.x + b.y)),
    )
}

/// Coordinates small enough for the distance arithmetic to fit in the
/// machine integers used by the executable code.
pub open spec fn pos_in_range(p: Pos) -> bool {
    &&& -MAX_COORD <= p.x <= MAX_COORD
    &&& -MAX_COORD <= p.y <= MAX_COORD
}

/// Coordinates small enough to be the center of a neighbor enumeration.
pub open spec fn pos_small(p: Pos) -> bool {
    &&& -MAX_CENTER <= p.x <= MAX_CENTER
    &&& -MAX_CENTER <= p.y <= MAX_CENTER
}

/// Coordinates within the reach of any playable board plus the spread
/// margins: boards are far smaller than this bound.
pub open spec fn pos_near_board(p: Pos) -> bool {
    &&& -2000 <= p.x <= 2000
    &&& -2000 <= p.y <= 2000
}

/// Lexicographic order on the coordinate pair; the order in which neighbor
/// enumeration yields its hexes.
pub open spec fn lex_lt(a: Pos, b: Pos) -> bool {
    a.x < b.x || (a.x == b.x && a.y < b.y)
}

pub open spec fn spec_origo() -> Pos {
    Pos { x: 0, y: 0 }
}

/// The distance from a hex to itself is zero.
pub proof fn lemma_dist_self_zero(p: Pos)
    ensures
        dist(p, p) == 0,
{
}

/// The hex metric is symmetric.
pub proof fn lemma_dist_symmetric(a: Pos, b: Pos)
    ensures
        dist(a, b) == dist(b, a),
{
}

/// Two hexes at distance zero are the same hex.
pub proof fn lemma_dist_zero_eq(a: Pos, b: Pos)
    ensures
        dist(a, b) == 0 <==> a == b,
{
}

/// The hex metric satisfies the triangle inequality.
pub proof fn lemma_dist_triangle(a: Pos, b: Pos, c: Pos)
    ensures
        dist(a, c) <= dist(a, b) + dist(b, c),
{
}

/// `n / d` rounded to the nearest integer, ties away from zero.
/// Meaningful for `d >= 1`.
pub open spec fn round_div(n: int, d: int) -> int {
    if n >= 0 {
        (2 * n + d) / (2 * d)
    } else {
        -((2 * -n + d) / (2 * d))
    }
}

proof fn lemma_round_div_nonneg(n: int, d: int)
    requires
        n >= 0,
        d >= 1,
    ensures
        round_div(n, d) >= 0,
        1 - d <= 2 * (round_div(n, d) * d - n) <= d,
{
    let q = (2 * n + d) / (2 * d);
    let rem = (2 * n + d) % (2 * d);
    vstd::arithmetic::div_mod::lemma_fundamental_div_mod(2 * n + d, 2 * d);
    vstd::arithmetic::div_mod::lemma_mod_bound(2 * n + d, 2 * d);
    assert(2 * n + d == 2 * d * q + rem);
    assert(0 <= rem < 2 * d);
    assert(2 * (q * d - n) == d - rem) by (nonlinear_arith)
        requires
            2 * n + d == 2 * d * q + rem,
    ;
    assert(q >= 0) by (nonlinear_arith)
        requires
            2 * d * q + rem == 2 * n + d,
            0 <= rem < 2 * d,
            n >= 0,
            d >= 1,
    ;
}

/// The rounding error of `round_div` is at most one half.
proof fn lemma_round_div_err(n: int, d: int)
    requires
        d >= 1,
    ensures
        2 * abs_int(round_div(n, d) * d - n) <= d,
{
    if n >= 0 {
        lemma_round_div_nonneg(n, d);
    } else {
        lemma_round_div_nonneg(-n, d);
        assert(round_div(n, d) * d - n == -(round_div(-n, d) * d - -n)) by (nonlinear_arith)
            requires
                round_div(n, d) == -round_div(-n, d),
        ;
    }
}

/// Rounding a value of magnitude at most `r * d` gives a quotient of
/// magnitude at most `r`.
proof fn lemma_round_div_bound(n: int, d: int, r: int)
    requires
        d >= 1,
        r >= 0,
        abs_int(n) <= r * d,
    ensures
        abs_int(round_div(n, d)) <= r,
{
    let q = round_div(n, d);
    lemma_round_div_err(n, d);
    assert(2 * abs_int(q * d) <= 2 * abs_int(n) + d);
    assert(2 * abs_int(q * d) <= 2 * (r * d) + d);
    assert(abs_int(q) <= r) by (nonlinear_arith)
        requires
            2 * abs_int(q * d) <= 2 * (r * d) + d,
            d >= 1,
            r >= 0,
    ;
}

/// Rounding an exact multiple of the divisor is exact.
proof fn lemma_round_div_exact(k: int, d: int)
    requires
        d >= 1,
    ensures
        round_div(k * d, d) == k,
{
    let n = k * d;
    if k >= 0 {
        assert(n >= 0 && 2 * n + d == k * (2 * d) + d) by (nonlinear_arith)
            requires
                n == k * d,
                k >= 0,
                d >= 1,
        ;
        vstd::arithmetic::div_mod::lemma_fundamental_div_mod_converse(2 * n + d, 2 * d, k, d);
        assert((2 * n + d) / (2 * d) == k);
        assert(round_div(n, d) == k);
    } else {
        assert(n < 0 && 2 * -n + d == (-k) * (2 * d) + d) by (nonlinear_arith)
            requires
                n == k * d,
                k < 0,
                d >= 1,
        ;
        vstd::arithmetic::div_mod::lemma_fundamental_div_mod_converse(2 * -n + d, 2 * d, -k, d);
        assert((2 * -n + d) / (2 * d) == -k);
        assert(round_div(n, d) == k);
    }
}

/// Projecting an off-board hex onto the boundary: scale the cube coordinates
/// toward the origin by `r / d` and round back to a hex, recomputing the
/// axis with the largest rounding error from the other two so that the cube
/// coordinates still sum to zero.
pub open spec fn spec_clamp(p: Pos, r: int) -> Pos {
    let d = dist(p, spec_origo());
    if d != 0 && d > r {
        let cx = p.x * r;
        let cy = (-p.x - p.y) * r;
        let cz = p.y * r;
        let rx = round_div(cx, d);
        let ry = round_div(cy, d);
        let rz = round_div(cz, d);
        let ex = abs_int(rx * d - cx);
        let ey = abs_int(ry * d - cy);
        let ez = abs_int(rz * d - cz);
        if ex > ey && ex > ez {
            Pos { x: (-ry - rz) as i16, y: rz as i16 }
        } else if ey > ez {
            Pos { x: rx as i16, y: rz as i16 }
        } else {
            Pos { x: rx as i16, y: (-rx - ry) as i16 }
        }
    } else {
        p
    }
}

/// The recomputed cube axis stays within the board, unless both kept axes
/// carry a maximal rounding error while the recomputed one is exact; the
/// callers rule that configuration out from the branch that was taken.
proof fn lemma_fixup_bound(cu: int, cv: int, cw: int, d: int, r: int)
    requires
        d >= 1,
        r >= 0,
        cu + cv + cw == 0,
        abs_int(cu) <= r * d,
        abs_int(cv) <= r * d,
        abs_int(cw) <= r * d,
        !(2 * abs_int(round_div(cu, d) * d - cu) == d && 2 * abs_int(round_div(cv, d) * d - cv)
            == d && abs_int(cw) == r * d),
    ensures
        abs_int(-(round_div(cu, d) + round_div(cv, d))) <= r,
{
    let u = round_div(cu, d);
    let v = round_div(cv, d);
    let w = -(u + v);
    let eu = u * d - cu;
    let ev = v * d - cv;
    lemma_round_div_err(cu, d);
    lemma_round_div_err(cv, d);
    assert(w * d == cw - eu - ev) by (nonlinear_arith)
        requires
            w == -(u + v),
            eu == u * d - cu,
            ev == v * d - cv,
            cu + cv + cw == 0,
    ;
    let au = abs_int(eu);
    let av = abs_int(ev);
    let aw = abs_int(w);
    let acw = abs_int(cw);
    let awd = abs_int(w * d);
    if aw > r {
        assert(aw >= r + 1);
        let big = (r + 1) * d;
        let bound = r * d;
        assert(awd >= big) by (nonlinear_arith)
            requires
                aw >= r + 1,
                d >= 1,
                r >= 0,
                aw == w || aw == -w,
                aw >= w,
                aw >= -w,
                awd == w * d || awd == -(w * d),
                awd >= w * d,
                awd >= -(w * d),
                big == (r + 1) * d,
        ;
        assert(big == bound + d) by (nonlinear_arith)
            requires
                big == (r + 1) * d,
                bound == r * d,
        ;
        assert(awd <= acw + au + av);
        assert(2 * (bound + d) <= 2 * acw + 2 * au + 2 * av);
        assert(2 * au <= d && 2 * av <= d && acw <= bound);
        assert(2 * au == d && 2 * av == d && acw == bound);
        assert(false);
    }
}

/// If a cube numerator sits exactly on the boundary multiple, its rounding
/// error is zero.
proof fn lemma_exact_on_boundary(c: int, d: int, r: int)
    requires
        d >= 1,
        r >= 0,
        abs_int(c) == r * d,
    ensures
        round_div(c, d) * d - c == 0,
{
    if c >= 0 {
        assert(c == r * d);
        lemma_round_div_exact(r, d);
        assert(round_div(c, d) == r);
        assert(round_div(c, d) * d == c) by (nonlinear_arith)
            requires
                round_div(c, d) == r,
                c == r * d,
        ;
    } else {
        assert(c == -(r * d));
        assert(c == (-r) * d) by (nonlinear_arith)
            requires
                c == -(r * d),
        ;
        lemma_round_div_exact(-r, d);
        assert(round_div(c, d) == -r);
        assert(round_div(c, d) * d == c) by (nonlinear_arith)
            requires
                round_div(c, d) == -r,
                c == (-r) * d,
        ;
    }
}

/// Clamping keeps an on-board hex unchanged and brings any other hex onto
/// the board.
pub proof fn lemma_clamp_props(p: Pos, r: int)
    requires
        pos_in_range(p),
        0 <= r <= MAX_COORD,
    ensures
        dist(p, spec_origo()) <= r ==> spec_clamp(p, r) == p,
        dist(spec_clamp(p, r), spec_origo()) <= r,
        pos_in_range(spec_clamp(p, r)),
{
    let d = dist(p, spec_origo());
    if d != 0 && d > r {
        let cx = p.x * r;
        let cy = (-p.x - p.y) * r;
        let cz = p.y * r;
        let rx = round_div(cx, d);
        let ry = round_div(cy, d);
        let rz = round_div(cz, d);
        let ex = abs_int(rx * d - cx);
        let ey = abs_int(ry * d - cy);
        let ez = abs_int(rz * d - cz);
        assert(abs_int(p.x as int) <= d && abs_int(p.y as int) <= d && abs_int(p.x + p.y) <= d);
        assert(abs_int(cx) <= r * d && abs_int(cz) <= r * d && abs_int(cy) <= r * d)
            by (nonlinear_arith)
            requires
                cx == p.x * r,
                cy == (-p.x - p.y) * r,
                cz == p.y * r,
                abs_int(p.x as int) <= d,
                abs_int(p.y as int) <= d,
                abs_int(p.x + p.y) <= d,
                r >= 0,
        ;
        assert(cx + cy + cz == 0) by (nonlinear_arith)
            requires
                cx == p.x * r,
                cy == (-p.x - p.y) * r,
                cz == p.y * r,
        ;
        lemma_round_div_bound(cx, d, r);
        lemma_round_div_bound(cy, d, r);
        lemma_round_div_bound(cz, d, r);
        lemma_round_div_err(cx, d);
        lemma_round_div_err(cy, d);
        lemma_round_div_err(cz, d);
        if ex > ey && ex > ez {
            if 2 * ey == d && 2 * ez == d && abs_int(cx) == r * d {
                lemma_exact_on_boundary(cx, d, r);
            }
            lemma_fixup_bound(cy, cz, cx, d, r);
            let nx = -(ry + rz);
            assert(abs_int(nx) <= r && abs_int(ry) <= r && abs_int(rz) <= r);
            assert(spec_clamp(p, r) == (Pos { x: nx as i16, y: rz as i16 }));
            assert(dist(spec_clamp(p, r), spec_origo()) <= r);
        } else if ey > ez {
            if 2 * ex == d && 2 * ez == d && abs_int(cy) == r * d {
                lemma_exact_on_boundary(cy, d, r);
            }
            lemma_fixup_bound(cx, cz, cy, d, r);
            let ny = -(rx + rz);
            assert(abs_int(ny) <= r && abs_int(rx) <= r && abs_int(rz) <= r);
            assert(spec_clamp(p, r) == (Pos { x: rx as i16, y: rz as i16 }));
            assert(dist(spec_clamp(p, r), spec_origo()) <= r);
        } else {
            if 2 * ex == d && 2 * ey == d && abs_int(cz) == r * d {
                lemma_exact_on_boundary(cz, d, r);
            }
            lemma_fixup_bound(cx, cy, cz, d, r);
            let nz = -(rx + ry);
            assert(abs_int(nz) <= r && abs_int(rx) <= r && abs_int(ry) <= r);
            assert(spec_clamp(p, r) == (Pos { x: rx as i16, y: nz as i16 }));
            assert(dist(spec_clamp(p, r), spec_origo()) <= r);
        }
    }
}

/// Clamping is idempotent: a clamped hex is on the board, so clamping it
/// again changes nothing.
pub proof fn lemma_clamp_idempotent(p: Pos, r: int)
    requires
        pos_in_range(p),
        0 <= r <= MAX_COORD,
    ensures
        spec_clamp(spec_clamp(p, r), r) == spec_clamp(p, r),
{
    lemma_clamp_props(p, r);
}

/// From any hex but the origin there is a neighboring hex one step closer
/// to the origin.
pub proof fn lemma_step_toward_origin(p: Pos)
    requires
        pos_in_range(p),
        p != spec_origo(),
    ensures
        exists|q: Pos|
            dist(p, q) == 1 && dist(q, spec_origo()) == dist(p, spec_origo()) - 1 && abs_int(
                q.x as int,
            ) <= abs_int(p.x as int) + 1 && abs_int(q.y as int) <= abs_int(p.y as int) + 1,
{
    let xx = p.x as int;
    let zz = p.y as int;
    let yy = -xx - zz;
    let d = dist(p, spec_origo());
    assert(d >= 1) by {
        lemma_dist_zero_eq(p, spec_origo());
    }
    let q: Pos = if xx >= yy && xx >= zz {
        // xx is the largest cube coordinate, hence positive
        if yy <= zz {
            Pos { x: (xx - 1) as i16, y: p.y }
        } else {
            Pos { x: (xx - 1) as i16, y: (zz + 1) as i16 }
        }
    } else if yy >= zz {
        // yy is the largest
        if xx <= zz {
            Pos { x: (xx + 1) as i16, y: p.y }
        } else {
            Pos { x: p.x, y: (zz + 1) as i16 }
        }
    } else {
        // zz is the largest
        if xx <= yy {
            Pos { x: (xx + 1) as i16, y: (zz - 1) as i16 }
        } else {
            Pos { x: p.x, y: (zz - 1) as i16 }
        }
    };
    assert(dist(p, q) == 1 && dist(q, spec_origo()) == d - 1);
}

/// `n / d` rounded to nearest, ties away from zero, on machine integers.
fn round_div_exec(n: i32, d: i32) -> (q: i32)
    requires
        1 <= d <= 40000,
        -140_000_000 <= n <= 140_000_000,
    ensures
        q == round_div(n as int, d as int),
{
    if n >= 0 {
        let num: u32 = (2 * n + d) as u32;
        let den: u32 = (2 * d) as u32;
        (num / den) as i32
    } else {
        let num: u32 = (2 * -n + d) as u32;
        let den: u32 = (2 * d) as u32;
        proof {
            lemma_round_div_nonneg(-n as int, d as int);
        }
        -((num / den) as i32)
    }
}

impl Pos {
    pub fn new(x: i16, y: i16) -> (p: Pos)
        ensures
            p == (Pos { x, y }),
    {
        Pos { x, y }
    }

    /// The center of the board.
    pub fn origo() -> (p: Pos)
        ensures
            p == spec_origo(),
    {
        Pos { x: 0, y: 0 }
    }

    /// The hex distance to `other`.
    pub fn distance(self, other: Pos) -> (d: i16)
        requires
            pos_in_range(self),
            pos_in_range(other),
        ensures
            d == dist(self, other),
            0 <= d <= 4 * MAX_COORD,
    {
        let dx: i32 = self.x as i32 - other.x as i32;
        let dy: i32 = self.y as i32 - other.y as i32;
        let dz: i32 = (self.x as i32 + self.y as i32) - (other.x as i32 + other.y as i32);
        let ax: i32 = if dx < 0 { -dx } else { dx };
        let ay: i32 = if dy < 0 { -dy } else { dy };
        let az: i32 = if dz < 0 { -dz } else { dz };
        let m: i32 = if ax >= ay && ax >= az {
            ax
        } else if ay >= az {
            ay
        } else {
            az
        };
        m as i16
    }

    /// `self` jittered by one hex at most on each axis.
    pub fn random_spread(&self, rng: &mut crate::rng::GameRng) -> (p: Pos)
        requires
            -MAX_COORD < self.x < MAX_COORD,
            -MAX_COORD < self.y < MAX_COORD,
        ensures
            abs_int(p.x - self.x) <= 1,
            abs_int(p.y - self.y) <= 1,
            dist(*self, p) <= 2,
            pos_in_range(p),
    {
        let dx = rng.range(-1, 1);
        let dy = rng.range(-1, 1);
        Pos { x: self.x + dx, y: self.y + dy }
    }

    /// All hexes within `radius` of `self`, excluding `self`, in
    /// lexicographic coordinate order.  A non-positive radius yields the
    /// empty set.
    pub fn neighbors(&self, radius: i16) -> (res: Vec<Pos>)
        requires
            pos_small(*self),
            radius <= MAX_CENTER,
        ensures
            forall|p: Pos|
                res@.contains(p) <==> (dist(*self, p) <= radius && p != *self),
            forall|i: int, j: int|
                0 <= i < j < res@.len() ==> lex_lt(res@[i], res@[j]),
            forall|i: int| 0 <= i < res@.len() ==> pos_in_range(#[trigger] res@[i]),
    {
        if radius <= 0 {
            let res: Vec<Pos> = Vec::new();
            proof {
                assert forall|p: Pos| !(dist(*self, p) <= radius && p != *self) by {
                    lemma_dist_zero_eq(*self, p);
                }
            }
            return res;
        }
        let mut res: Vec<Pos> = Vec::new();
        let x_min: i32 = self.x as i32 - radius as i32;
        let x_max: i32 = self.x as i32 + radius as i32;
        let y_min: i32 = self.y as i32 - radius as i32;
        let y_max: i32 = self.y as i32 + radius as i32;
        let mut cx: i32 = x_min;
        while cx <= x_max
            invariant
                1 <= radius,
                x_min <= cx <= x_max + 1,
                forall|i: int|
                    0 <= i < res@.len() ==> pos_in_range(#[trigger] res@[i])
                        && dist(*self, res@[i]) <= radius && res@[i] != *self
                        && (res@[i].x as int) < cx,
                forall|i: int, j: int|
                    0 <= i < j < res@.len() ==> lex_lt(res@[i], res@[j]),
                forall|p: Pos|
                    #[trigger] res@.contains(p) <== (dist(*self, p) <= radius && p != *self
                        && (p.x as int) < cx),
            decreases x_max + 1 - cx,
        {
            let mut cy: i32 = y_min;
            while cy <= y_max
                invariant
                    1 <= radius,
                    y_min <= cy <= y_max + 1,
                    x_min <= cx <= x_max,
                    forall|i: int|
                        0 <= i < res@.len() ==> pos_in_range(#[trigger] res@[i])
                            && dist(*self, res@[i]) <= radius && res@[i] != *self
                            && ((res@[i].x as int) < cx || ((res@[i].x as int) == cx
                                && (res@[i].y as int) < cy)),
                    forall|i: int, j: int|
                        0 <= i < j < res@.len() ==> lex_lt(res@[i], res@[j]),
                    forall|p: Pos|
                        #[trigger] res@.contains(p) <== (dist(*self, p) <= radius && p != *self
                            && ((p.x as int) < cx || ((p.x as int) == cx && (p.y as int) < cy))),
                decreases y_max + 1 - cy,
            {
                proof {
                    assert(-8000 <= cx <= 8000 && -8000 <= cy <= 8000);
                }
                let cand = Pos { x: cx as i16, y: cy as i16 };
                proof {
                    assert(cand.x as int == cx as int && cand.y as int == cy as int);
                }
                let ghost prev = res@;
                let d = self.distance(cand);
                if d <= radius && !(cand.x == self.x && cand.y == self.y) {
                    res.push(cand);
                    proof {
                        assert(res@ == prev.push(cand));
                        assert(res@[res@.len() - 1] == cand);
                        assert(res@.contains(cand));
                        assert(forall|p: Pos| prev.contains(p) ==> #[trigger] res@.contains(p))
                            by {
                            assert forall|p: Pos| prev.contains(p) implies #[trigger] res@
                                .contains(p) by {
                                let k = choose|k: int| 0 <= k < prev.len() && prev[k] == p;
                                assert(res@[k] == p);
                            }
                        }
                    }
                }
                proof {
                    assert forall|p: Pos|
                        (dist(*self, p) <= radius && p != *self && ((p.x as int) < cx || ((
                        p.x as int) == cx && (p.y as int) < cy + 1))) implies #[trigger] res@
                        .contains(p) by {
                        if p.x == cand.x && p.y == cand.y {
                            assert(p == cand);
                            assert(res@.contains(cand));
                        } else {
                            assert((p.x as int) < cx || ((p.x as int) == cx && (p.y as int)
                                < cy));
                            assert(prev.contains(p));
                        }
                    }
                }
                cy = cy + 1;
            }
            proof {
                assert forall|p: Pos|
                    (dist(*self, p) <= radius && p != *self && (p.x as int) < cx
                        + 1) implies #[trigger] res@.contains(p) by {
                    assert(abs_int(p.y - self.y) <= dist(*self, p));
                    assert((p.y as int) < cy);
                }
            }
            cx = cx + 1;
        }
        proof {
            assert forall|p: Pos| (dist(*self, p) <= radius && p != *self) implies (p.x as int)
                < cx by {
                assert(abs_int(p.x - self.x) <= dist(*self, p));
            }
        }
        res
    }

    /// The neighbors of `self` that also lie within `field_radius` of the
    /// board center.
    pub fn clamped_neighbors(&self, radius: i16, field_radius: i16) -> (res: Vec<Pos>)
        requires
            pos_small(*self),
            radius <= MAX_CENTER,
            field_radius <= MAX_COORD,
        ensures
            forall|p: Pos|
                res@.contains(p) <==> (dist(*self, p) <= radius && p != *self && dist(
                    p,
                    spec_origo(),
                ) <= field_radius),
            forall|i: int, j: int|
                0 <= i < j < res@.len() ==> lex_lt(res@[i], res@[j]),
            forall|i: int| 0 <= i < res@.len() ==> pos_in_range(#[trigger] res@[i]),
    {
        let all = self.neighbors(radius);
        let mut res: Vec<Pos> = Vec::new();
        let mut i: usize = 0;
        while i < all.len()
            invariant
                0 <= i <= all.len(),
                forall|p: Pos|
                    #[trigger] res@.contains(p) <==> (all@.take(i as int).contains(p) && dist(
                        p,
                        spec_origo(),
                    ) <= field_radius),
                forall|k: int, j: int|
                    0 <= k < j < res@.len() ==> lex_lt(res@[k], res@[j]),
                forall|k: int| 0 <= k < res@.len() ==> pos_in_range(#[trigger] res@[k]),
                forall|k: int, j: int|
                    0 <= k < res@.len() && i <= j < all@.len() ==> lex_lt(res@[k], all@[j]),
            decreases all.len() - i,
        {
            let p = all[i];
            let d = p.distance(Pos { x: 0, y: 0 });
            let ghost prev = res@;
            proof {
                assert(all@.take(i as int + 1).drop_last() =~= all@.take(i as int));
                assert(all@.take(i as int + 1).last() == all@[i as int]);
            }
            if d <= field_radius {
                res.push(p);
                proof {
                    assert(res@ == prev.push(p));
                    assert(res@[res@.len() - 1] == p);
                    assert(res@.contains(p));
                    assert forall|q: Pos| prev.contains(q) implies #[trigger] res@.contains(q) by {
                        let k = choose|k: int| 0 <= k < prev.len() && prev[k] == q;
                        assert(res@[k] == q);
                    }
                }
            }
            proof {
                assert forall|q: Pos| #[trigger]
                    res@.contains(q) implies (all@.take(i as int + 1).contains(q) && dist(
                    q,
                    spec_origo(),
                ) <= field_radius) by {
                    if prev.contains(q) {
                        assert(all@.take(i as int).contains(q));
                        let k = choose|k: int|
                            0 <= k < all@.take(i as int).len() && #[trigger] all@.take(
                                i as int,
                            )[k] == q;
                        assert(all@.take(i as int + 1)[k] == q);
                        assert(all@.take(i as int + 1).contains(q));
                    } else {
                        let k = choose|k: int| 0 <= k < res@.len() && res@[k] == q;
                        assert(k == res@.len() - 1 && q == p);
                        assert(all@.take(i as int + 1).last() == q);
                        assert(all@.take(i as int + 1).contains(q));
                    }
                }
                assert forall|q: Pos|
                    (all@.take(i as int + 1).contains(q) && dist(q, spec_origo())
                        <= field_radius) implies #[trigger] res@.contains(q) by {
                    let k = choose|k: int|
                        0 <= k < all@.take(i as int + 1).len() && #[trigger] all@.take(
                            i as int + 1,
                        )[k] == q;
                    if k < i as int {
                        assert(all@.take(i as int)[k] == q);
                        assert(all@.take(i as int).contains(q));
                        assert(prev.contains(q));
                        if d <= field_radius {
                            let m = choose|m: int| 0 <= m < prev.len() && prev[m] == q;
                            assert(res@[m] == q);
                        }
                    } else {
                        assert(q == all@[i as int]);
                        assert(res@.contains(q));
                    }
                }
            }
            i = i + 1;
        }
        proof {
            assert(all@.take(all@.len() as int) =~= all@);
        }
        res
    }

    /// Projects `self` onto the board of the given radius: an on-board hex
    /// is unchanged, any other is scaled toward the origin and rounded back
    /// to the nearest hex on the boundary.
    pub fn clamp(&self, field_radius: &i16) -> (res: Pos)
        requires
            pos_in_range(*self),
            0 <= *field_radius <= MAX_COORD,
        ensures
            res == spec_clamp(*self, *field_radius as int),
            dist(res, spec_origo()) <= *field_radius,
            dist(*self, spec_origo()) <= *field_radius ==> res == *self,
            pos_in_range(res),
    {
        proof {
            lemma_clamp_props(*self, *field_radius as int);
        }
        let r = *field_radius;
        let d = self.distance(Pos { x: 0, y: 0 });
        if d != 0 && d > r {
            let di: i32 = d as i32;
            proof {
                assert((self.x as int) * (r as int) <= 64_000_000 && (self.x as int) * (r as int)
                    >= -64_000_000 && (self.y as int) * (r as int) <= 64_000_000 && (
                self.y as int) * (r as int) >= -64_000_000 && ((-(self.x as int)) - (
                self.y as int)) * (r as int) <= 128_000_000 && ((-(self.x as int)) - (
                self.y as int)) * (r as int) >= -128_000_000) by (nonlinear_arith)
                    requires
                        -8000 <= self.x <= 8000,
                        -8000 <= self.y <= 8000,
                        0 <= r <= 8000,
                ;
            }
            let cx: i32 = self.x as i32 * r as i32;
            let cy: i32 = (-(self.x as i32) - self.y as i32) * r as i32;
            let cz: i32 = self.y as i32 * r as i32;
            let rx = round_div_exec(cx, di);
            let ry = round_div_exec(cy, di);
            let rz = round_div_exec(cz, di);
            proof {
                assert(abs_int(cx as int) <= r * di && abs_int(cy as int) <= r * di && abs_int(
                    cz as int,
                ) <= r * di) by (nonlinear_arith)
                    requires
                        cx == self.x * r,
                        cy == (-self.x - self.y) * r,
                        cz == self.y * r,
                        abs_int(self.x as int) <= di,
                        abs_int(self.y as int) <= di,
                        abs_int(self.x + self.y) <= di,
                        r >= 0,
                ;
                lemma_round_div_bound(cx as int, di as int, r as int);
                lemma_round_div_bound(cy as int, di as int, r as int);
                lemma_round_div_bound(cz as int, di as int, r as int);
                assert(-8000 <= rx <= 8000 && -8000 <= ry <= 8000 && -8000 <= rz <= 8000);
                assert((rx as int) * (di as int) <= 320_000_000 && (rx as int) * (di as int)
                    >= -320_000_000 && (ry as int) * (di as int) <= 320_000_000 && (ry as int) * (
                di as int) >= -320_000_000 && (rz as int) * (di as int) <= 320_000_000 && (
                rz as int) * (di as int) >= -320_000_000) by (nonlinear_arith)
                    requires
                        -8000 <= rx <= 8000,
                        -8000 <= ry <= 8000,
                        -8000 <= rz <= 8000,
                        1 <= di <= 40000,
                ;
            }
            let tx: i32 = rx * di - cx;
            let ty: i32 = ry * di - cy;
            let tz: i32 = rz * di - cz;
            let ex: i32 = if tx < 0 { -tx } else { tx };
            let ey: i32 = if ty < 0 { -ty } else { ty };
            let ez: i32 = if tz < 0 { -tz } else { tz };
            if ex > ey && ex > ez {
                Pos { x: (-ry - rz) as i16, y: rz as i16 }
            } else if ey > ez {
                Pos { x: rx as i16, y: rz as i16 }
            } else {
                Pos { x: rx as i16, y: (-rx - ry) as i16 }
            }
        } else {
            *self
        }
    }
}

} // verus!
