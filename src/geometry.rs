use vstd::prelude::*;
use vstd::arithmetic::div_mod::*;

verus! {

/// Number of fixed-point units in one world unit (and in one radian).
pub const SCALE: i64 = 1_000_000;

/// Largest magnitude a stored coordinate may have.
pub const COORD_LIMIT: i64 = 1_000_000_000_000;

/// A point or vector of the plane, in fixed-point units.
#[derive(Clone, Copy, Debug, PartialEq, Eq, Structural)]
pub struct Vec2 {
    pub x: i64,
    pub y: i64,
}

/// A rotation given by its cosine and sine, in fixed-point units.
#[derive(Clone, Copy, Debug, PartialEq, Eq, Structural)]
pub struct Turn {
    pub cos: i64,
    pub sin: i64,
}

pub open spec fn in_range(v: Vec2) -> bool {
    -COORD_LIMIT <= v.x <= COORD_LIMIT && -COORD_LIMIT <= v.y <= COORD_LIMIT
}

/// Decides whether `v` lies in the coordinate range.
pub fn is_in_range(v: &Vec2) -> (r: bool)
    ensures
        r == in_range(*v),
{
    -COORD_LIMIT <= v.x && v.x <= COORD_LIMIT && -COORD_LIMIT <= v.y && v.y <= COORD_LIMIT
}

impl Turn {
    /// A rotation up to the rounding of its components: each at most one
    /// unit, and `cos^2 + sin^2` within `2 * SCALE` of `SCALE^2`.
    pub open spec fn valid(self) -> bool {
        &&& -SCALE <= self.cos <= SCALE && -SCALE <= self.sin <= SCALE
        &&& SCALE * SCALE - 2 * SCALE <= self.cos * self.cos + self.sin * self.sin <= SCALE * SCALE + 2
            * SCALE
    }

    pub fn is_valid(&self) -> (r: bool)
        ensures
            r == self.valid(),
    {
        if !(-SCALE <= self.cos && self.cos <= SCALE && -SCALE <= self.sin && self.sin <= SCALE) {
            return false;
        }
        let c: i128 = self.cos as i128;
        let s: i128 = self.sin as i128;
        assert(0 <= c * c <= 1_000_000_000_000 && 0 <= s * s <= 1_000_000_000_000) by (nonlinear_arith)
            requires -1_000_000 <= c <= 1_000_000, -1_000_000 <= s <= 1_000_000;
        let q: i128 = c * c + s * s;
        let unit: i128 = SCALE as i128;
        assert(unit * unit == 1_000_000_000_000) by (nonlinear_arith)
            requires unit == 1_000_000;
        unit * unit - 2 * unit <= q && q <= unit * unit + 2 * unit
    }
}

/// First component of the offset `(dx, dy)` turned by `(c, s)`, before scaling.
pub open spec fn turn_x(c: int, s: int, dx: int, dy: int) -> int {
    c * dx - s * dy
}

/// Second component of the offset `(dx, dy)` turned by `(c, s)`, before scaling.
pub open spec fn turn_y(c: int, s: int, dx: int, dy: int) -> int {
    s * dx + c * dy
}

/// Where `p` goes when turned by `t` about `pivot`, exactly, at `SCALE` times
/// the fixed-point resolution.
pub open spec fn exact_image(pivot: Vec2, t: Turn, p: Vec2) -> (int, int) {
    (
        pivot.x * SCALE + turn_x(t.cos as int, t.sin as int, p.x - pivot.x, p.y - pivot.y),
        pivot.y * SCALE + turn_y(t.cos as int, t.sin as int, p.x - pivot.x, p.y - pivot.y),
    )
}

/// The exact image rounded down onto the fixed-point grid.
pub open spec fn turned_about(pivot: Vec2, t: Turn, p: Vec2) -> (int, int) {
    (exact_image(pivot, t, p).0 / (SCALE as int), exact_image(pivot, t, p).1 / (SCALE as int))
}

pub open spec fn dist2(ax: int, ay: int, bx: int, by: int) -> int {
    (ax - bx) * (ax - bx) + (ay - by) * (ay - by)
}

/// Rounds `a / b` down, for a positive `b`.
pub fn floor_div(a: i128, b: i128) -> (r: i128)
    requires
        b > 0,
        a > i128::MIN + b,
    ensures
        r == a / b,
{
    if a >= 0 {
        a / b
    } else {
        let m: i128 = -a + b - 1;
        let q: i128 = m / b;
        proof {
            let rem = m % b;
            lemma_fundamental_div_mod(m as int, b as int);
            assert(a == (-q) * b + (b - 1 - rem)) by (nonlinear_arith)
                requires m == b * q + rem, m == -a + b - 1;
            lemma_fundamental_div_mod_converse_div(a as int, b as int, -q, b - 1 - rem);
        }
        -q
    }
}

/// Turns `p` by `t` about `pivot` onto the grid; `None` when the result leaves
/// the coordinate range.
pub fn turn_point(pivot: Vec2, t: Turn, p: Vec2) -> (r: Option<Vec2>)
    requires
        in_range(pivot),
        in_range(p),
        t.valid(),
    ensures
        match r {
            Some(q) => in_range(q) && q.x == turned_about(pivot, t, p).0
                && q.y == turned_about(pivot, t, p).1,
            None => !(-COORD_LIMIT <= turned_about(pivot, t, p).0 <= COORD_LIMIT
                && -COORD_LIMIT <= turned_about(pivot, t, p).1 <= COORD_LIMIT),
        },
{
    let dx: i128 = p.x as i128 - pivot.x as i128;
    let dy: i128 = p.y as i128 - pivot.y as i128;
    let c: i128 = t.cos as i128;
    let s: i128 = t.sin as i128;
    assert(-2_000_000_000_000_000_000 <= c * dx <= 2_000_000_000_000_000_000) by (nonlinear_arith)
        requires -1_000_000 <= c <= 1_000_000, -2_000_000_000_000 <= dx <= 2_000_000_000_000;
    assert(-2_000_000_000_000_000_000 <= s * dy <= 2_000_000_000_000_000_000) by (nonlinear_arith)
        requires -1_000_000 <= s <= 1_000_000, -2_000_000_000_000 <= dy <= 2_000_000_000_000;
    assert(-2_000_000_000_000_000_000 <= s * dx <= 2_000_000_000_000_000_000) by (nonlinear_arith)
        requires -1_000_000 <= s <= 1_000_000, -2_000_000_000_000 <= dx <= 2_000_000_000_000;
    assert(-2_000_000_000_000_000_000 <= c * dy <= 2_000_000_000_000_000_000) by (nonlinear_arith)
        requires -1_000_000 <= c <= 1_000_000, -2_000_000_000_000 <= dy <= 2_000_000_000_000;
    assert(-1_000_000_000_000_000_000 <= pivot.x as i128 * SCALE as i128 <= 1_000_000_000_000_000_000) by (nonlinear_arith)
        requires -1_000_000_000_000 <= pivot.x <= 1_000_000_000_000;
    assert(-1_000_000_000_000_000_000 <= pivot.y as i128 * SCALE as i128 <= 1_000_000_000_000_000_000) by (nonlinear_arith)
        requires -1_000_000_000_000 <= pivot.y <= 1_000_000_000_000;
    let ex: i128 = pivot.x as i128 * SCALE as i128 + (c * dx - s * dy);
    let ey: i128 = pivot.y as i128 * SCALE as i128 + (s * dx + c * dy);
    let qx = floor_div(ex, SCALE as i128);
    let qy = floor_div(ey, SCALE as i128);
    if -(COORD_LIMIT as i128) <= qx && qx <= COORD_LIMIT as i128 && -(COORD_LIMIT as i128) <= qy
        && qy <= COORD_LIMIT as i128 {
        Some(Vec2 { x: qx as i64, y: qy as i64 })
    } else {
        None
    }
}

pub open spec fn is_root(n: int, r: int) -> bool {
    r >= 0 && r * r <= n < (r + 1) * (r + 1)
}

/// The integer square root: the largest `r` with `r * r <= n`.
pub open spec fn root(n: nat) -> nat
    decreases n,
{
    if n == 0 {
        0
    } else if (root((n - 1) as nat) + 1) * (root((n - 1) as nat) + 1) <= n {
        root((n - 1) as nat) + 1
    } else {
        root((n - 1) as nat)
    }
}

pub proof fn lemma_root_is_root(n: nat)
    ensures
        is_root(n as int, root(n) as int),
    decreases n,
{
    if n > 0 {
        lemma_root_is_root((n - 1) as nat);
        let r = root((n - 1) as nat) as int;
        assert(n < (r + 2) * (r + 2)) by (nonlinear_arith)
            requires n - 1 < (r + 1) * (r + 1), r >= 0;
    }
}

pub proof fn lemma_root_unique(n: int, a: int, b: int)
    requires
        is_root(n, a),
        is_root(n, b),
    ensures
        a == b,
{
    if a < b {
        assert((a + 1) * (a + 1) <= b * b) by (nonlinear_arith)
            requires a + 1 <= b, a >= 0;
    } else if b < a {
        assert((b + 1) * (b + 1) <= a * a) by (nonlinear_arith)
            requires b + 1 <= a, b >= 0;
    }
}

/// The integer square root of `n`, found by bisection.
pub fn isqrt(n: u128) -> (r: u128)
    requires
        n < 0x1000_0000_0000_0000_0000_0000_0000_0000,
    ensures
        r == root(n as nat),
        r < 0x4000_0000_0000_0000,
{
    let mut lo: u128 = 0;
    let mut hi: u128 = 0x4000_0000_0000_0000;
    assert(0x4000_0000_0000_0000u128 * 0x4000_0000_0000_0000u128 == 0x1000_0000_0000_0000_0000_0000_0000_0000u128);
    while hi - lo > 1
        invariant
            lo < hi <= 0x4000_0000_0000_0000,
            lo * lo <= n,
            n < hi * hi,
        decreases hi - lo,
    {
        let mid: u128 = lo + (hi - lo) / 2;
        assert(mid * mid <= 0x1000_0000_0000_0000_0000_0000_0000_0000) by (nonlinear_arith)
            requires mid <= 0x4000_0000_0000_0000;
        if mid * mid <= n {
            lo = mid;
        } else {
            hi = mid;
        }
    }
    proof {
        lemma_root_is_root(n as nat);
        lemma_root_unique(n as int, lo as int, root(n as nat) as int);
    }
    lo
}

/// Column of the Jacobian transpose for a joint at `joint` driving an end
/// effector at `tip`: the offset `tip - joint` turned a quarter turn
/// counter-clockwise and divided by its length, in fixed-point units, rounded
/// down. The length is taken at `SCALE` times the grid's resolution: `r` is
/// the integer square root of the squared offset times `SCALE^2`. A joint that
/// coincides with the end effector contributes the zero column.
pub open spec fn jacobian_column(joint: Vec2, tip: Vec2) -> (int, int) {
    let sx = tip.x - joint.x;
    let sy = tip.y - joint.y;
    let r = root(((sx * sx + sy * sy) * (SCALE * SCALE)) as nat) as int;
    if r == 0 {
        (0, 0)
    } else {
        ((-(sy * SCALE) * SCALE) / r, ((sx * SCALE) * SCALE) / r)
    }
}

proof fn lemma_component_bound(a: int, n: int, r: int)
    requires
        a * a <= n,
        is_root(n, r),
        r > 0,
    ensures
        -SCALE <= (a * SCALE) / r <= SCALE,
        -SCALE <= (-a * SCALE) / r <= SCALE,
{
    assert(-r <= a <= r) by (nonlinear_arith)
        requires a * a <= n, n < (r + 1) * (r + 1), r >= 0;
    assert(-SCALE * r <= a * SCALE <= SCALE * r) by (nonlinear_arith)
        requires -r <= a <= r;
    lemma_div_is_ordered(a * SCALE, SCALE * r, r);
    lemma_div_is_ordered(-SCALE * r, a * SCALE, r);
    lemma_div_is_ordered(-a * SCALE, SCALE * r, r);
    lemma_div_is_ordered(-SCALE * r, -a * SCALE, r);
    lemma_div_multiples_vanish(SCALE as int, r);
    lemma_div_multiples_vanish(-SCALE as int, r);
    assert(SCALE * r == r * SCALE as int) by (nonlinear_arith);
    assert(-SCALE * r == r * (-SCALE) as int) by (nonlinear_arith);
}

/// Computes `jacobian_column(joint, tip)`; each component lies within one unit.
pub fn jacobian_column_of(joint: Vec2, tip: Vec2) -> (r: Vec2)
    requires
        in_range(joint),
        in_range(tip),
    ensures
        r.x == jacobian_column(joint, tip).0,
        r.y == jacobian_column(joint, tip).1,
        -SCALE <= r.x <= SCALE,
        -SCALE <= r.y <= SCALE,
{
    let sx: i128 = tip.x as i128 - joint.x as i128;
    let sy: i128 = tip.y as i128 - joint.y as i128;
    assert(0 <= sx * sx <= 4_000_000_000_000_000_000_000_000) by (nonlinear_arith)
        requires -2_000_000_000_000 <= sx <= 2_000_000_000_000;
    assert(0 <= sy * sy <= 4_000_000_000_000_000_000_000_000) by (nonlinear_arith)
        requires -2_000_000_000_000 <= sy <= 2_000_000_000_000;
    let n: i128 = sx * sx + sy * sy;
    assert(0 <= n * (SCALE as i128 * SCALE as i128) <= 8_000_000_000_000_000_000_000_000_000_000_000_000) by (nonlinear_arith)
        requires 0 <= n <= 8_000_000_000_000_000_000_000_000;
    let m: u128 = (n * (SCALE as i128 * SCALE as i128)) as u128;
    let r: u128 = isqrt(m);
    if r == 0 {
        Vec2 { x: 0, y: 0 }
    } else {
        assert(-2_000_000_000_000_000_000 <= sy * SCALE as i128 <= 2_000_000_000_000_000_000) by (nonlinear_arith)
            requires -2_000_000_000_000 <= sy <= 2_000_000_000_000;
        assert(-2_000_000_000_000_000_000 <= sx * SCALE as i128 <= 2_000_000_000_000_000_000) by (nonlinear_arith)
            requires -2_000_000_000_000 <= sx <= 2_000_000_000_000;
        let ay: i128 = sy * SCALE as i128;
        let ax: i128 = sx * SCALE as i128;
        proof {
            lemma_root_is_root(m as nat);
            assert(ax * ax <= m && ay * ay <= m) by (nonlinear_arith)
                requires m == n * (1_000_000 * 1_000_000), n == sx * sx + sy * sy, ax == sx * 1_000_000, ay == sy * 1_000_000;
            lemma_component_bound(ax as int, m as int, r as int);
            lemma_component_bound(ay as int, m as int, r as int);
        }
        assert(-2_000_000_000_000_000_000_000_000 <= ay * SCALE as i128 <= 2_000_000_000_000_000_000_000_000) by (nonlinear_arith)
            requires -2_000_000_000_000_000_000 <= ay <= 2_000_000_000_000_000_000;
        assert(-2_000_000_000_000_000_000_000_000 <= ax * SCALE as i128 <= 2_000_000_000_000_000_000_000_000) by (nonlinear_arith)
            requires -2_000_000_000_000_000_000 <= ax <= 2_000_000_000_000_000_000;
        let cx = floor_div(-ay * SCALE as i128, r as i128);
        let cy = floor_div(ax * SCALE as i128, r as i128);
        Vec2 { x: cx as i64, y: cy as i64 }
    }
}

/// The turn that undoes `t` (its transpose).
pub open spec fn inverse(t: Turn) -> (int, int) {
    (t.cos as int, -t.sin)
}

/// The single turn equal to `t1` followed by `t2`, before scaling.
pub open spec fn compose(t1: Turn, t2: Turn) -> (int, int) {
    (t2.cos * t1.cos - t2.sin * t1.sin, t2.sin * t1.cos + t2.cos * t1.sin)
}

proof fn lemma_square_of_difference(u: int, v: int)
    ensures
        (u - v) * (u - v) == u * u - 2 * (u * v) + v * v,
        (u + v) * (u + v) == u * u + 2 * (u * v) + v * v,
{
    assert((u - v) * (u - v) == u * u - 2 * (u * v) + v * v) by (nonlinear_arith);
    assert((u + v) * (u + v) == u * u + 2 * (u * v) + v * v) by (nonlinear_arith);
}

proof fn lemma_product_regroup(a: int, b: int, x: int, y: int)
    ensures
        (a * x) * (b * y) == (a * b) * (x * y),
{
    assert((a * x) * (b * y) == (a * b) * (x * y)) by (nonlinear_arith);
}

proof fn lemma_turn_norm(c: int, s: int, dx: int, dy: int)
    ensures
        (c * dx - s * dy) * (c * dx - s * dy) + (s * dx + c * dy) * (s * dx + c * dy) == (c * c + s
            * s) * (dx * dx + dy * dy),
{
    lemma_square_of_difference(c * dx, s * dy);
    lemma_square_of_difference(s * dx, c * dy);
    lemma_product_regroup(c, c, dx, dx);
    lemma_product_regroup(s, s, dy, dy);
    lemma_product_regroup(s, s, dx, dx);
    lemma_product_regroup(c, c, dy, dy);
    lemma_product_regroup(c, s, dx, dy);
    lemma_product_regroup(s, c, dx, dy);
    assert(s * c == c * s) by (nonlinear_arith);
    let p = c * c;
    let q = s * s;
    let m = dx * dx;
    let n = dy * dy;
    assert((p + q) * (m + n) == p * m + p * n + q * m + q * n) by (nonlinear_arith);
}

proof fn lemma_turn_linear(c: int, s: int, bx: int, by: int, cx: int, cy: int)
    ensures
        turn_x(c, s, bx, by) - turn_x(c, s, cx, cy) == turn_x(c, s, bx - cx, by - cy),
        turn_y(c, s, bx, by) - turn_y(c, s, cx, cy) == turn_y(c, s, bx - cx, by - cy),
{
    assert(c * bx - c * cx == c * (bx - cx)) by (nonlinear_arith);
    assert(s * by - s * cy == s * (by - cy)) by (nonlinear_arith);
    assert(s * bx - s * cx == s * (bx - cx)) by (nonlinear_arith);
    assert(c * by - c * cy == c * (by - cy)) by (nonlinear_arith);
}

/// Rigidity. When a joint at `pivot` turns by `t`, every pair of points it
/// carries, `b` and `c` (the pivot itself among them), keeps its distance:
/// before rounding onto the grid the squared distance between the images is
/// that between the points times `cos^2 + sin^2`, which for a valid turn is
/// `SCALE^2` up to a relative `2 / SCALE`; and each stored coordinate lies
/// within one grid unit below the exact image.
pub proof fn law_turn_is_rigid(pivot: Vec2, t: Turn, b: Vec2, c: Vec2)
    ensures
        dist2(exact_image(pivot, t, b).0, exact_image(pivot, t, b).1, exact_image(pivot, t, c).0,
            exact_image(pivot, t, c).1) == (t.cos * t.cos + t.sin * t.sin) * dist2(
            b.x as int,
            b.y as int,
            c.x as int,
            c.y as int,
        ),
        t.valid() ==> abs_of(
            dist2(exact_image(pivot, t, b).0, exact_image(pivot, t, b).1, exact_image(pivot, t, c).0,
                exact_image(pivot, t, c).1) - SCALE * SCALE * dist2(
                b.x as int,
                b.y as int,
                c.x as int,
                c.y as int,
            ),
        ) <= 2 * SCALE * dist2(b.x as int, b.y as int, c.x as int, c.y as int),
        exact_image(pivot, t, pivot) == (pivot.x * SCALE, pivot.y * SCALE),
        turned_about(pivot, t, b).0 * SCALE <= exact_image(pivot, t, b).0 < (turned_about(pivot, t, b).0 + 1) * SCALE,
        turned_about(pivot, t, b).1 * SCALE <= exact_image(pivot, t, b).1 < (turned_about(pivot, t, b).1 + 1) * SCALE,
{
    let co = t.cos as int;
    let si = t.sin as int;
    lemma_turn_linear(co, si, b.x - pivot.x, b.y - pivot.y, c.x - pivot.x, c.y - pivot.y);
    lemma_turn_norm(co, si, b.x - c.x, b.y - c.y);
    let d = dist2(b.x as int, b.y as int, c.x as int, c.y as int);
    assert(d >= 0) by (nonlinear_arith)
        requires d == (b.x - c.x) * (b.x - c.x) + (b.y - c.y) * (b.y - c.y);
    if t.valid() {
        let q = co * co + si * si;
        let sc = SCALE as int;
        assert(abs_of(q * d - sc * sc * d) <= 2 * sc * d) by (nonlinear_arith)
            requires sc * sc - 2 * sc <= q <= sc * sc + 2 * sc, d >= 0;
    }
    assert(turn_x(co, si, 0, 0) == 0 && turn_y(co, si, 0, 0) == 0) by (nonlinear_arith);
    let e = exact_image(pivot, t, b);
    lemma_fundamental_div_mod(e.0, SCALE as int);
    lemma_fundamental_div_mod(e.1, SCALE as int);
    assert(turned_about(pivot, t, b).0 * SCALE + e.0 % (SCALE as int) == e.0) by (nonlinear_arith)
        requires e.0 == (SCALE as int) * (e.0 / (SCALE as int)) + e.0 % (SCALE as int), turned_about(pivot, t, b).0 == e.0 / (SCALE as int);
    assert(turned_about(pivot, t, b).1 * SCALE + e.1 % (SCALE as int) == e.1) by (nonlinear_arith)
        requires e.1 == (SCALE as int) * (e.1 / (SCALE as int)) + e.1 % (SCALE as int), turned_about(pivot, t, b).1 == e.1 / (SCALE as int);
}

/// Reset undoes a rotation: turning an offset by `t` and then by its inverse
/// gives the offset back, scaled by `cos^2 + sin^2` (`SCALE^2` for an exact
/// turn).
pub proof fn law_inverse_turn_undoes(t: Turn, dx: int, dy: int)
    ensures
        turn_x(inverse(t).0, inverse(t).1, turn_x(t.cos as int, t.sin as int, dx, dy), turn_y(t.cos as int, t.sin as int, dx, dy))
            == (t.cos * t.cos + t.sin * t.sin) * dx,
        turn_y(inverse(t).0, inverse(t).1, turn_x(t.cos as int, t.sin as int, dx, dy), turn_y(t.cos as int, t.sin as int, dx, dy))
            == (t.cos * t.cos + t.sin * t.sin) * dy,
{
    let co = t.cos as int;
    let si = t.sin as int;
    assert(co * (co * dx - si * dy) - (-si) * (si * dx + co * dy) == (co * co + si * si) * dx) by (nonlinear_arith);
    assert((-si) * (co * dx - si * dy) + co * (si * dx + co * dy) == (co * co + si * si) * dy) by (nonlinear_arith);
}

/// Rotations compose: turning an offset by `t1` and then by `t2` is the same
/// as turning it once by their composition.
pub proof fn law_turns_compose(t1: Turn, t2: Turn, dx: int, dy: int)
    ensures
        turn_x(t2.cos as int, t2.sin as int, turn_x(t1.cos as int, t1.sin as int, dx, dy), turn_y(t1.cos as int, t1.sin as int, dx, dy))
            == turn_x(compose(t1, t2).0, compose(t1, t2).1, dx, dy),
        turn_y(t2.cos as int, t2.sin as int, turn_x(t1.cos as int, t1.sin as int, dx, dy), turn_y(t1.cos as int, t1.sin as int, dx, dy))
            == turn_y(compose(t1, t2).0, compose(t1, t2).1, dx, dy),
{
    let c1 = t1.cos as int;
    let s1 = t1.sin as int;
    let c2 = t2.cos as int;
    let s2 = t2.sin as int;
    assert(c2 * (c1 * dx - s1 * dy) == (c2 * c1) * dx - (c2 * s1) * dy) by (nonlinear_arith);
    assert(s2 * (s1 * dx + c1 * dy) == (s2 * s1) * dx + (s2 * c1) * dy) by (nonlinear_arith);
    assert(s2 * (c1 * dx - s1 * dy) == (s2 * c1) * dx - (s2 * s1) * dy) by (nonlinear_arith);
    assert(c2 * (s1 * dx + c1 * dy) == (c2 * s1) * dx + (c2 * c1) * dy) by (nonlinear_arith);
    let a = c2 * c1 - s2 * s1;
    let b = s2 * c1 + c2 * s1;
    assert(a * dx == (c2 * c1) * dx - (s2 * s1) * dx) by (nonlinear_arith)
        requires a == c2 * c1 - s2 * s1;
    assert(b * dy == (s2 * c1) * dy + (c2 * s1) * dy) by (nonlinear_arith)
        requires b == s2 * c1 + c2 * s1;
    assert(b * dx == (s2 * c1) * dx + (c2 * s1) * dx) by (nonlinear_arith)
        requires b == s2 * c1 + c2 * s1;
    assert(a * dy == (c2 * c1) * dy - (s2 * s1) * dy) by (nonlinear_arith)
        requires a == c2 * c1 - s2 * s1;
}

proof fn lemma_floor_square_bounds(u: int, r: int, a: int)
    requires
        r > 0,
        u - r < a <= u,
    ensures
        a * a <= u * u + 2 * r * abs_of(u) + r * r,
        a * a >= u * u - 2 * r * abs_of(u),
{
    if u >= 0 {
        if a >= 0 {
            assert(a * a <= u * u) by (nonlinear_arith)
                requires 0 <= a <= u;
            assert(a * a >= u * u - 2 * r * u) by (nonlinear_arith)
                requires u - r < a, a <= u, a >= 0, r > 0;
        } else {
            assert(a * a <= r * r) by (nonlinear_arith)
                requires -r < a < 0;
            assert(u * u - 2 * r * u <= 0) by (nonlinear_arith)
                requires 0 <= u < r;
            assert(u * u + 2 * r * u >= 0) by (nonlinear_arith)
                requires 0 <= u, r > 0;
            assert(a * a >= 0) by (nonlinear_arith);
        }
    } else {
        assert(a * a <= u * u + 2 * r * (-u) + r * r) by (nonlinear_arith)
            requires u - r < a <= u, u < 0;
        assert(a * a >= u * u) by (nonlinear_arith)
            requires a <= u, u < 0;
    }
}

pub open spec fn abs_of(x: int) -> int {
    if x >= 0 {
        x
    } else {
        -x
    }
}

proof fn lemma_abs_below(u: int, v: int, k: int)
    requires
        k >= 0,
        u * u + v * v < k * k,
    ensures
        abs_of(u) < k,
{
    assert(abs_of(u) * abs_of(u) == u * u) by (nonlinear_arith);
    assert(v * v >= 0) by (nonlinear_arith);
    assert(abs_of(u) < k) by (nonlinear_arith)
        requires abs_of(u) * abs_of(u) < k * k, k >= 0, abs_of(u) >= 0;
}

/// Jacobian columns have unit length. For a joint apart from the end
/// effector the column's squared length lies within a few grid units of
/// `SCALE^2`: its length is one unit up to about three millionths.
pub proof fn law_jacobian_column_is_unit(joint: Vec2, tip: Vec2)
    requires
        joint != tip,
    ensures
        SCALE * SCALE - 4 * SCALE - 4 <= jacobian_column(joint, tip).0 * jacobian_column(joint, tip).0
            + jacobian_column(joint, tip).1 * jacobian_column(joint, tip).1 <= SCALE * SCALE + 6 * SCALE + 7,
{
    let sx = tip.x - joint.x;
    let sy = tip.y - joint.y;
    let n = sx * sx + sy * sy;
    let sc = SCALE as int;
    let m = n * (sc * sc);
    assert(n >= 1) by (nonlinear_arith)
        requires n == sx * sx + sy * sy, sx != 0 || sy != 0;
    lemma_root_is_root(m as nat);
    let r = root(m as nat) as int;
    assert(m >= sc * sc) by (nonlinear_arith)
        requires m == n * (sc * sc), n >= 1;
    assert(r >= sc) by (nonlinear_arith)
        requires m >= sc * sc, m < (r + 1) * (r + 1), r >= 0, sc > 0;
    let u = -(sy * sc) * sc;
    let v = (sx * sc) * sc;
    assert(u * u + v * v == m * (sc * sc)) by (nonlinear_arith)
        requires u == -(sy * sc) * sc, v == (sx * sc) * sc, m == (sx * sx + sy * sy) * (sc * sc);
    let cx = u / r;
    let cy = v / r;
    assert(jacobian_column(joint, tip) == (cx, cy));
    lemma_fundamental_div_mod(u, r);
    lemma_fundamental_div_mod(v, r);
    let a = cx * r;
    let b = cy * r;
    assert(u - r < a <= u) by (nonlinear_arith)
        requires u == r * (u / r) + u % r, 0 <= u % r < r, a == (u / r) * r, cx == u / r;
    assert(v - r < b <= v) by (nonlinear_arith)
        requires v == r * (v / r) + v % r, 0 <= v % r < r, b == (v / r) * r, cy == v / r;
    lemma_floor_square_bounds(u, r, a);
    lemma_floor_square_bounds(v, r, b);
    let k = (r + 1) * sc;
    assert(u * u + v * v < k * k && r * r * (sc * sc) <= u * u + v * v) by (nonlinear_arith)
        requires u * u + v * v == m * (sc * sc), r * r <= m, m < (r + 1) * (r + 1), k == (r + 1) * sc, sc > 0;
    lemma_abs_below(u, v, k);
    lemma_abs_below(v, u, k);
    let w = abs_of(u) + abs_of(v);
    assert(a * a + b * b < k * k + 2 * r * w + 2 * (r * r)) by (nonlinear_arith)
        requires
            a * a <= u * u + 2 * r * abs_of(u) + r * r,
            b * b <= v * v + 2 * r * abs_of(v) + r * r,
            u * u + v * v < k * k,
            w == abs_of(u) + abs_of(v);
    assert(a * a + b * b > r * r * (sc * sc) - 2 * r * w - 1) by (nonlinear_arith)
        requires
            a * a >= u * u - 2 * r * abs_of(u),
            b * b >= v * v - 2 * r * abs_of(v),
            r * r * (sc * sc) <= u * u + v * v,
            w == abs_of(u) + abs_of(v);
    assert(2 * r * w <= 4 * r * k) by (nonlinear_arith)
        requires w < 2 * k, r > 0;
    assert(k * k + 4 * r * k + 2 * (r * r) <= (r * r) * (sc * sc + 6 * sc + 7)) by (nonlinear_arith)
        requires k == (r + 1) * sc, r >= sc, sc >= 1;
    assert(4 * r * k <= (r * r) * (4 * sc + 4)) by (nonlinear_arith)
        requires k == (r + 1) * sc, r >= sc, sc >= 1;
    assert(a * a + b * b == (r * r) * (cx * cx + cy * cy)) by (nonlinear_arith)
        requires a == cx * r, b == cy * r;
    assert(cx * cx + cy * cy <= sc * sc + 6 * sc + 7) by (nonlinear_arith)
        requires (r * r) * (cx * cx + cy * cy) < (r * r) * (sc * sc + 6 * sc + 7), r > 0;
    assert((r * r) * (cx * cx + cy * cy) > (r * r) * (sc * sc - 4 * sc - 4) - 1) by (nonlinear_arith)
        requires
            a * a + b * b > r * r * (sc * sc) - 2 * r * w - 1,
            2 * r * w <= 4 * r * k,
            4 * r * k <= (r * r) * (4 * sc + 4),
            a * a + b * b == (r * r) * (cx * cx + cy * cy);
    assert((r * r) * (cx * cx + cy * cy) < (r * r) * (sc * sc + 6 * sc + 7)) by (nonlinear_arith)
        requires
            a * a + b * b < k * k + 2 * r * w + 2 * (r * r),
            2 * r * w <= 4 * r * k,
            k * k + 4 * r * k + 2 * (r * r) <= (r * r) * (sc * sc + 6 * sc + 7),
            a * a + b * b == (r * r) * (cx * cx + cy * cy);
    assert(cx * cx + cy * cy >= sc * sc - 4 * sc - 4) by (nonlinear_arith)
        requires (r * r) * (cx * cx + cy * cy) > (r * r) * (sc * sc - 4 * sc - 4) - 1, r > 0;
}
} // verus!
