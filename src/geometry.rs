use vstd::arithmetic::div_mod::{lemma_div_pos_is_pos, lemma_fundamental_div_mod, lemma_mod_pos_bound};
use vstd::prelude::*;

verus! {

/// Sub-units per unit of distance: coordinates are fixed-point numbers.
pub const UNIT: i64 = 1000;

/// The largest magnitude of a coordinate, in sub-units.
pub const MAX_COORD: i64 = 1_000_000_000;

/// A point on the plane, each coordinate in sub-units (`UNIT` to a unit).
#[derive(Clone, Copy, Debug, PartialEq, Eq, Structural)]
pub struct Pos {
    pub x: i64,
    pub y: i64,
}

/// The squared Euclidean distance between two points, in sub-units squared.
pub open spec fn dist_sq(a: Pos, b: Pos) -> int {
    (a.x - b.x) * (a.x - b.x) + (a.y - b.y) * (a.y - b.y)
}

/// `c` is the square root of `n` rounded up.
pub open spec fn is_ceil_root(c: nat, n: nat) -> bool {
    &&& c * c >= n
    &&& c == 0 || (c - 1) * (c - 1) < n
}

pub open spec fn abs_int(d: int) -> int {
    if d >= 0 {
        d
    } else {
        -d
    }
}

pub open spec fn ceil_root(n: nat) -> nat {
    choose|c: nat| is_ceil_root(c, n)
}

/// The share of one unit that a step takes along an axis on which the
/// target lies `d` sub-units away, when the whole distance is `c`; it points
/// the way `d` points and is rounded toward zero.
pub open spec fn axis_step(d: int, c: int) -> int {
    if d >= 0 {
        d * UNIT / c
    } else {
        -((-d) * UNIT / c)
    }
}

/// Where one step from `p` toward `t` lands: one unit along the line to `t`,
/// passing beyond `t` when it is less than one unit away; from `t` itself,
/// nowhere.
pub open spec fn step_toward(p: Pos, t: Pos) -> (int, int) {
    let d2 = dist_sq(p, t);
    if d2 == 0 {
        (p.x as int, p.y as int)
    } else {
        let c = ceil_root(d2 as nat) as int;
        (p.x + axis_step(t.x - p.x, c), p.y + axis_step(t.y - p.y, c))
    }
}

impl Pos {
    /// Both coordinates lie within `MAX_COORD` of the origin.
    pub open spec fn bounded(self) -> bool {
        -MAX_COORD <= self.x <= MAX_COORD && -MAX_COORD <= self.y <= MAX_COORD
    }

    pub fn new(x: i64, y: i64) -> (r: Pos)
        ensures
            r.x == x && r.y == y,
    {
        Pos { x, y }
    }

    /// The squared distance to `other`.
    pub fn dist_sq_to(&self, other: &Pos) -> (r: u64)
        requires
            self.bounded(),
            other.bounded(),
        ensures
            r == dist_sq(*self, *other),
    {
        let ax = abs_diff(self.x, other.x);
        let ay = abs_diff(self.y, other.y);
        assert(ax * ax <= 4_000_000_000_000_000_000u64 && ay * ay <= 4_000_000_000_000_000_000u64)
            by (nonlinear_arith)
            requires
                ax <= 2_000_000_000,
                ay <= 2_000_000_000,
        ;
        assert((self.x - other.x) * (self.x - other.x) == ax * ax) by (nonlinear_arith)
            requires
                ax == self.x - other.x || ax == other.x - self.x,
        ;
        assert((self.y - other.y) * (self.y - other.y) == ay * ay) by (nonlinear_arith)
            requires
                ay == self.y - other.y || ay == other.y - self.y,
        ;
        ax * ax + ay * ay
    }

    /// One step toward `target`, as `step_toward` describes it.
    pub fn step_to(&self, target: &Pos) -> (r: Pos)
        requires
            self.bounded(),
            target.bounded(),
        ensures
            r.x == step_toward(*self, *target).0,
            r.y == step_toward(*self, *target).1,
            dist_sq(*self, *target) > UNIT * UNIT ==> r.bounded(),
            -MAX_COORD - UNIT <= r.x <= MAX_COORD + UNIT,
            -MAX_COORD - UNIT <= r.y <= MAX_COORD + UNIT,
    {
        proof {
            lemma_step_closes_in(*self, *target);
        }
        let d2 = self.dist_sq_to(target);
        if d2 == 0 {
            return *self;
        }
        assert(d2 <= 8_000_000_000_000_000_000u64) by (nonlinear_arith)
            requires
                d2 == (self.x - target.x) * (self.x - target.x) + (self.y - target.y) * (self.y
                    - target.y),
                -MAX_COORD <= self.x <= MAX_COORD,
                -MAX_COORD <= self.y <= MAX_COORD,
                -MAX_COORD <= target.x <= MAX_COORD,
                -MAX_COORD <= target.y <= MAX_COORD,
                MAX_COORD == 1_000_000_000,
        ;
        let c = ceil_root_of(d2);
        proof {
            lemma_ceil_root_exists(d2 as nat);
            lemma_axis_share_bounded(*self, *target);
        }
        let ax = abs_diff(target.x, self.x);
        let ay = abs_diff(target.y, self.y);
        let qx = (ax * (UNIT as u64) / c) as i64;
        let qy = (ay * (UNIT as u64) / c) as i64;
        let x = if target.x >= self.x {
            self.x + qx
        } else {
            self.x - qx
        };
        let y = if target.y >= self.y {
            self.y + qy
        } else {
            self.y - qy
        };
        Pos { x, y }
    }
}

fn abs_diff(a: i64, b: i64) -> (r: u64)
    requires
        -MAX_COORD <= a <= MAX_COORD,
        -MAX_COORD <= b <= MAX_COORD,
    ensures
        r <= 2_000_000_000,
        r == a - b || r == b - a,
        r == if a >= b { a - b } else { b - a },
{
    if a >= b {
        (a - b) as u64
    } else {
        (b - a) as u64
    }
}

/// The square root of `n` rounded down, by bisection.
fn floor_root(n: u64) -> (r: u64)
    requires
        n <= 8_000_000_000_000_000_000u64,
    ensures
        r * r <= n < (r + 1) * (r + 1),
{
    let mut lo: u64 = 0;
    let mut hi: u64 = 3_000_000_000;
    while hi - lo > 1
        invariant
            lo < hi <= 3_000_000_000,
            lo * lo <= n < hi * hi,
        decreases hi - lo,
    {
        let mid = lo + (hi - lo) / 2;
        assert(mid * mid <= 9_000_000_000_000_000_000) by (nonlinear_arith)
            requires
                mid <= 3_000_000_000,
        ;
        if mid * mid <= n {
            lo = mid;
        } else {
            hi = mid;
        }
    }
    assert(hi == lo + 1);
    lo
}

pub proof fn lemma_ceil_root_unique(c: nat, n: nat)
    requires
        is_ceil_root(c, n),
    ensures
        ceil_root(n) == c,
{
    let d = ceil_root(n);
    assert(is_ceil_root(d, n));
    if d < c {
        assert(d * d <= (c - 1) * (c - 1)) by (nonlinear_arith)
            requires
                d <= c - 1,
                d >= 0,
        ;
    } else if c < d {
        assert(c * c <= (d - 1) * (d - 1)) by (nonlinear_arith)
            requires
                c <= d - 1,
                c >= 0,
        ;
    }
}

/// The square root of `n` rounded up.
fn ceil_root_of(n: u64) -> (r: u64)
    requires
        n <= 8_000_000_000_000_000_000u64,
    ensures
        r == ceil_root(n as nat),
        r <= 3_000_000_000,
{
    let s = floor_root(n);
    assert(s <= 2_900_000_000) by (nonlinear_arith)
        requires
            s * s <= 8_000_000_000_000_000_000u64,
    ;
    let c = if s * s == n {
        s
    } else {
        s + 1
    };
    proof {
        if s * s == n {
            assert(c == 0 || (c - 1) * (c - 1) < n) by (nonlinear_arith)
                requires
                    c == s,
                    s * s == n,
            ;
        } else {
            assert(c * c >= n) by (nonlinear_arith)
                requires
                    c == s + 1,
                    n < (s + 1) * (s + 1),
            ;
        }
        lemma_ceil_root_unique(c as nat, n as nat);
    }
    c
}

pub proof fn lemma_ceil_root_exists(n: nat)
    ensures
        is_ceil_root(ceil_root(n), n),
    decreases n,
{
    if n == 0 {
        assert(is_ceil_root(0, n));
    } else {
        lemma_ceil_root_exists((n - 1) as nat);
        let c = ceil_root((n - 1) as nat);
        if c * c >= n {
            assert(is_ceil_root(c, n));
        } else {
            assert(is_ceil_root(c + 1, n)) by (nonlinear_arith)
                requires
                    c * c == n - 1,
                    c >= 0,
            ;
        }
    }
}

/// On each axis a step moves at most one unit, rounded toward zero, in the
/// direction of the target.
proof fn lemma_axis_share_bounded(p: Pos, t: Pos)
    requires
        p.bounded(),
        t.bounded(),
        dist_sq(p, t) > 0,
    ensures
        ({
            let c = ceil_root(dist_sq(p, t) as nat) as int;
            let qx = abs_int(t.x - p.x) * UNIT / c;
            let qy = abs_int(t.y - p.y) * UNIT / c;
            &&& c >= 1
            &&& 0 <= qx <= UNIT
            &&& 0 <= qy <= UNIT
            &&& axis_step(t.x - p.x, c) == if t.x - p.x >= 0 {
                qx
            } else {
                -qx
            }
            &&& axis_step(t.y - p.y, c) == if t.y - p.y >= 0 {
                qy
            } else {
                -qy
            }
        }),
{
    let d2 = dist_sq(p, t);
    lemma_ceil_root_exists(d2 as nat);
    let c = ceil_root(d2 as nat) as int;
    let a = abs_int(t.x - p.x);
    let b = abs_int(t.y - p.y);
    assert(d2 == a * a + b * b) by (nonlinear_arith)
        requires
            d2 == (p.x - t.x) * (p.x - t.x) + (p.y - t.y) * (p.y - t.y),
            a == t.x - p.x || a == p.x - t.x,
            b == t.y - p.y || b == p.y - t.y,
    ;
    assert(c >= 1 && a <= c && b <= c) by (nonlinear_arith)
        requires
            c * c >= d2,
            d2 == a * a + b * b,
            d2 > 0,
            a >= 0,
            b >= 0,
            c >= 0,
    ;
    lemma_share_at_most_unit(a, c);
    lemma_share_at_most_unit(b, c);
}

proof fn lemma_share_at_most_unit(a: int, c: int)
    requires
        0 <= a <= c,
        c >= 1,
    ensures
        0 <= a * UNIT / c <= UNIT,
{
    let x = a * UNIT;
    assert(0 <= x <= c * UNIT) by (nonlinear_arith)
        requires
            0 <= a <= c,
            x == a * UNIT,
            UNIT == 1000,
    ;
    lemma_fundamental_div_mod(x, c);
    lemma_mod_pos_bound(x, c);
    lemma_div_pos_is_pos(x, c);
    let q = x / c;
    assert(q <= UNIT) by (nonlinear_arith)
        requires
            x == c * q + x % c,
            0 <= x % c,
            x <= c * UNIT,
            c >= 1,
    ;
}

/// One axis of a step: the share taken is at most what separates the two
/// points on that axis, and the separation left is what remains of it.
proof fn lemma_axis_step(d: int, c: int)
    requires
        c > UNIT,
    ensures
        ({
            let q = abs_int(d) * UNIT / c;
            &&& 0 <= q <= abs_int(d)
            &&& q * c <= abs_int(d) * UNIT < (q + 1) * c
            &&& q == 0 ==> abs_int(d) * UNIT < c
            &&& axis_step(d, c) == if d >= 0 {
                q
            } else {
                -q
            }
            &&& (axis_step(d, c) - d) * (axis_step(d, c) - d) == (abs_int(d) - q) * (abs_int(d)
                - q)
        }),
{
    let a = abs_int(d);
    let x = a * UNIT;
    assert(x >= 0) by (nonlinear_arith)
        requires
            a >= 0,
            x == a * UNIT,
            UNIT == 1000,
    ;
    lemma_fundamental_div_mod(x, c);
    lemma_mod_pos_bound(x, c);
    lemma_div_pos_is_pos(x, c);
    let q = x / c;
    assert(q * c <= x < (q + 1) * c) by (nonlinear_arith)
        requires
            x == c * q + x % c,
            0 <= x % c < c,
    ;
    assert(q <= a) by (nonlinear_arith)
        requires
            q * c <= a * UNIT,
            c > UNIT,
            a >= 0,
    ;
    assert(q == 0 ==> a * UNIT < c) by (nonlinear_arith)
        requires
            a * UNIT < (q + 1) * c,
    ;
    if d < 0 {
        assert((-q - d) * (-q - d) == (a - q) * (a - q)) by (nonlinear_arith)
            requires
                a == -d,
        ;
    } else {
        assert((q - d) * (q - d) == (a - q) * (a - q)) by (nonlinear_arith)
            requires
                a == d,
        ;
    }
}

/// The separation left after a step, per axis `a - qa` and `b - qb`, is the
/// old one scaled by `(c - UNIT) / c`, up to one sub-unit of rounding.
proof fn lemma_step_distance_bounds(a: int, b: int, qa: int, qb: int, c: int, d2: int)
    requires
        a >= 0,
        b >= 0,
        0 <= qa <= a,
        0 <= qb <= b,
        qa * c <= a * UNIT < (qa + 1) * c,
        qb * c <= b * UNIT < (qb + 1) * c,
        d2 == a * a + b * b,
        (c - 1) * (c - 1) < d2 <= c * c,
        c > UNIT,
    ensures
        (c - 1 - UNIT) * (c - 1 - UNIT) <= (a - qa) * (a - qa) + (b - qb) * (b - qb) <= (c - UNIT
            + 2) * (c - UNIT + 2),
{
    let u = c - UNIT;
    let x = a - qa;
    let y = b - qb;
    assert(x * c <= a * u + c && y * c <= b * u + c) by (nonlinear_arith)
        requires
            a * UNIT < (qa + 1) * c,
            b * UNIT < (qb + 1) * c,
            u == c - UNIT,
            x == a - qa,
            y == b - qb,
    ;
    assert(x * c >= a * u && y * c >= b * u) by (nonlinear_arith)
        requires
            qa * c <= a * UNIT,
            qb * c <= b * UNIT,
            u == c - UNIT,
            x == a - qa,
            y == b - qb,
    ;
    assert(a <= c && b <= c) by (nonlinear_arith)
        requires
            a * a + b * b <= c * c,
            a >= 0,
            b >= 0,
            c > 0,
    ;
    assert(x * x * (c * c) <= (a * u + c) * (a * u + c)) by (nonlinear_arith)
        requires
            0 <= x * c <= a * u + c,
            x >= 0,
            c > 0,
    ;
    assert(y * y * (c * c) <= (b * u + c) * (b * u + c)) by (nonlinear_arith)
        requires
            0 <= y * c <= b * u + c,
            y >= 0,
            c > 0,
    ;
    assert((a * a + b * b) * (u * u) <= (c * c) * (u * u)) by (nonlinear_arith)
        requires
            a * a + b * b <= c * c,
    ;
    assert(2 * u * c * (a + b) <= 4 * u * (c * c)) by (nonlinear_arith)
        requires
            0 <= a <= c,
            0 <= b <= c,
            u > 0,
            c > 0,
    ;
    assert((a * u + c) * (a * u + c) == a * a * (u * u) + 2 * u * c * a + c * c)
        by (nonlinear_arith);
    assert((b * u + c) * (b * u + c) == b * b * (u * u) + 2 * u * c * b + c * c)
        by (nonlinear_arith);
    assert((a * a + b * b) * (u * u) == a * a * (u * u) + b * b * (u * u)) by (nonlinear_arith);
    assert(2 * u * c * (a + b) == 2 * u * c * a + 2 * u * c * b) by (nonlinear_arith);
    assert((u + 2) * (u + 2) * (c * c) == (c * c) * (u * u) + 4 * u * (c * c) + 4 * (c * c))
        by (nonlinear_arith);
    assert((x * x + y * y) * (c * c) == x * x * (c * c) + y * y * (c * c)) by (nonlinear_arith);
    assert(x * x + y * y <= (u + 2) * (u + 2)) by (nonlinear_arith)
        requires
            (x * x + y * y) * (c * c) <= (u + 2) * (u + 2) * (c * c),
            c > 0,
    ;
    assert((x * x + y * y) * (c * c) >= (a * a + b * b) * (u * u)) by (nonlinear_arith)
        requires
            x * c >= a * u >= 0,
            y * c >= b * u >= 0,
            u > 0,
    ;
    assert((c - 1) * (c - 1) * (u * u) >= (c - 1 - UNIT) * (c - 1 - UNIT) * (c * c))
        by (nonlinear_arith)
        requires
            u == c - UNIT,
            c > UNIT,
            UNIT == 1000,
    ;
    assert(x * x + y * y >= (c - 1 - UNIT) * (c - 1 - UNIT)) by (nonlinear_arith)
        requires
            (x * x + y * y) * (c * c) >= (a * a + b * b) * (u * u),
            a * a + b * b > (c - 1) * (c - 1),
            (c - 1) * (c - 1) * (u * u) >= (c - 1 - UNIT) * (c - 1 - UNIT) * (c * c),
            u > 0,
            c > 0,
    ;
}

/// A step from `p` toward a target more than one unit away moves at most
/// one unit and leaves the target strictly closer: if the distance lies in
/// `(c - 1, c]` sub-units, the new one lies in `[c - 1 - UNIT, c - UNIT + 2]`,
/// so the step closes one unit, give or take the rounding of a few
/// sub-units, and it never leaves the box that the two points span. From
/// the target itself it stays put, and no step moves a coordinate by more
/// than one unit.
pub proof fn lemma_step_closes_in(p: Pos, t: Pos)
    requires
        p.bounded(),
        t.bounded(),
    ensures
        ({
            let (nx, ny) = step_toward(p, t);
            &&& dist_sq(p, t) == 0 ==> nx == p.x && ny == p.y
            &&& dist_sq(p, t) > UNIT * UNIT ==> (nx - t.x) * (nx - t.x) + (ny - t.y) * (ny - t.y)
                < dist_sq(p, t)
            &&& dist_sq(p, t) > UNIT * UNIT ==> (nx - p.x) * (nx - p.x) + (ny - p.y) * (ny - p.y)
                <= UNIT * UNIT
            &&& dist_sq(p, t) > UNIT * UNIT ==> {
                let c = ceil_root(dist_sq(p, t) as nat) as int;
                let left = (nx - t.x) * (nx - t.x) + (ny - t.y) * (ny - t.y);
                &&& (c - 1) * (c - 1) < dist_sq(p, t) <= c * c
                &&& (c - 1 - UNIT) * (c - 1 - UNIT) <= left <= (c - UNIT + 2) * (c - UNIT + 2)
            }
            &&& dist_sq(p, t) > UNIT * UNIT ==> (p.x <= nx <= t.x || t.x <= nx <= p.x)
            &&& dist_sq(p, t) > UNIT * UNIT ==> (p.y <= ny <= t.y || t.y <= ny <= p.y)
            &&& p.x - UNIT <= nx <= p.x + UNIT
            &&& p.y - UNIT <= ny <= p.y + UNIT
        }),
{
    let d2 = dist_sq(p, t);
    let dx = t.x - p.x;
    let dy = t.y - p.y;
    assert(d2 >= 0) by (nonlinear_arith)
        requires
            d2 == (p.x - t.x) * (p.x - t.x) + (p.y - t.y) * (p.y - t.y),
    ;
    if d2 == 0 {
        assert(p.x == t.x && p.y == t.y) by (nonlinear_arith)
            requires
                0 == (p.x - t.x) * (p.x - t.x) + (p.y - t.y) * (p.y - t.y),
        ;
    } else {
        lemma_axis_share_bounded(p, t);
    }
    if d2 > UNIT * UNIT {
        lemma_ceil_root_exists(d2 as nat);
        let c = ceil_root(d2 as nat) as int;
        assert(c > UNIT) by (nonlinear_arith)
            requires
                c * c >= d2,
                d2 > UNIT * UNIT,
                c >= 0,
        ;
        assert(c * c < 3 * d2) by (nonlinear_arith)
            requires
                (c - 1) * (c - 1) < d2,
                c > UNIT,
        ;
        lemma_axis_step(dx, c);
        lemma_axis_step(dy, c);
        let a = abs_int(dx);
        let b = abs_int(dy);
        let qa = a * UNIT / c;
        let qb = b * UNIT / c;
        assert(d2 == a * a + b * b) by (nonlinear_arith)
            requires
                d2 == (p.x - t.x) * (p.x - t.x) + (p.y - t.y) * (p.y - t.y),
                a == dx || a == -dx,
                b == dy || b == -dy,
                dx == t.x - p.x,
                dy == t.y - p.y,
        ;
        assert(qa > 0 || qb > 0) by (nonlinear_arith)
            requires
                qa == 0 ==> a * UNIT < c,
                qb == 0 ==> b * UNIT < c,
                qa >= 0,
                qb >= 0,
                a >= 0,
                b >= 0,
                d2 == a * a + b * b,
                c * c < 3 * d2,
                d2 > 0,
        ;
        assert((a - qa) * (a - qa) + (b - qb) * (b - qb) < a * a + b * b) by (nonlinear_arith)
            requires
                0 <= qa <= a,
                0 <= qb <= b,
                qa > 0 || qb > 0,
        ;
        assert(qa * qa + qb * qb <= UNIT * UNIT) by (nonlinear_arith)
            requires
                qa * c <= a * UNIT,
                qb * c <= b * UNIT,
                0 <= qa,
                0 <= qb,
                a * a + b * b <= c * c,
                c > 0,
        ;
        lemma_step_distance_bounds(a, b, qa, qb, c, d2);
        assert((axis_step(dx, c)) * (axis_step(dx, c)) == qa * qa) by (nonlinear_arith)
            requires
                axis_step(dx, c) == qa || axis_step(dx, c) == -qa,
        ;
        assert((axis_step(dy, c)) * (axis_step(dy, c)) == qb * qb) by (nonlinear_arith)
            requires
                axis_step(dy, c) == qb || axis_step(dy, c) == -qb,
        ;
    }
}

} // verus!
