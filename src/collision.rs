use vstd::prelude::*;
use crate::particle::{Particle, LIMIT, abs, energy, within};
use vstd::arithmetic::div_mod::{lemma_fundamental_div_mod, lemma_mod_pos_bound};

verus! {

/// A particle together with its slot in the particle store.
pub type Entry = (usize, Particle);

/// A candidate pair: two entries that share a grid cell.
pub type Pair = (Entry, Entry);

/// Integer division rounded toward zero, for a positive divisor.
pub open spec fn div_toward_zero(n: int, d: int) -> int {
    if n >= 0 { n / d } else { -((-n) / d) }
}

/// Squared distance between the centres.
pub open spec fn dist_sq(a: Particle, b: Particle) -> int {
    (b.x - a.x) * (b.x - a.x) + (b.y - a.y) * (b.y - a.y)
}

/// Relative velocity projected on the relative position, scaled by the
/// distance.
pub open spec fn approach(a: Particle, b: Particle) -> int {
    (b.vx - a.vx) * (b.x - a.x) + (b.vy - a.vy) * (b.y - a.y)
}

/// The bounding circles overlap.
pub open spec fn overlapping(a: Particle, b: Particle) -> bool {
    dist_sq(a, b) < (a.radius + b.radius) * (a.radius + b.radius)
}

/// The pair is resolved: the circles overlap, the centres differ, and the
/// approach test holds.
pub open spec fn collides(a: Particle, b: Particle) -> bool {
    &&& overlapping(a, b)
    &&& dist_sq(a, b) > 0
    &&& approach(a, b) >= 0
}

/// The velocity change of `a` along x: the projection of the relative
/// velocity on the line of impact, rounded toward zero.
pub open spec fn delta_x(a: Particle, b: Particle) -> int {
    div_toward_zero(approach(a, b) * (b.x - a.x), dist_sq(a, b))
}

pub open spec fn delta_y(a: Particle, b: Particle) -> int {
    div_toward_zero(approach(a, b) * (b.y - a.y), dist_sq(a, b))
}

/// The two particles after an equal-mass elastic collision: the velocity
/// components along the line of impact are exchanged, those across it kept.
pub open spec fn exchanged(a: Particle, b: Particle) -> (Particle, Particle) {
    if collides(a, b) {
        (
            Particle { vx: (a.vx + delta_x(a, b)) as i64, vy: (a.vy + delta_y(a, b)) as i64, ..a },
            Particle { vx: (b.vx - delta_x(a, b)) as i64, vy: (b.vy - delta_y(a, b)) as i64, ..b },
        )
    } else {
        (a, b)
    }
}

/// A candidate pair after resolution; the slots are kept.
pub open spec fn resolved(p: Pair) -> Pair {
    ((p.0.0, exchanged(p.0.1, p.1.1).0), (p.1.0, exchanged(p.0.1, p.1.1).1))
}

pub open spec fn pair_wf(p: Pair) -> bool {
    p.0.1.wf() && p.1.1.wf()
}

proof fn lemma_product_bound(dx: int, dy: int, dvx: int, dvy: int, v: int)
    requires
        abs(dvx) <= v,
        abs(dvy) <= v,
    ensures
        abs((dvx * dx + dvy * dy) * dx) <= 2 * v * (dx * dx + dy * dy),
{
    assert(abs(dvx * dx * dx) <= v * (dx * dx)) by (nonlinear_arith)
        requires abs(dvx) <= v;
    assert(abs(dvy * dy * dx) <= v * (dx * dx + dy * dy)) by (nonlinear_arith)
        requires abs(dvy) <= v;
    assert((dvx * dx + dvy * dy) * dx == dvx * dx * dx + dvy * dy * dx) by (nonlinear_arith);
    let q = dx * dx + dy * dy;
    assert(v * (dx * dx) <= v * q) by (nonlinear_arith)
        requires v >= 0, q == dx * dx + dy * dy;
    assert(2 * v * q == v * q + v * q) by (nonlinear_arith);
}

proof fn lemma_div_bound(n: int, d: int, c: int)
    requires
        d > 0,
        c >= 0,
        abs(n) <= c * d,
    ensures
        abs(div_toward_zero(n, d)) <= c,
{
    let m = abs(n);
    assert(m / d <= c) by (nonlinear_arith)
        requires 0 <= m <= c * d, d > 0, c >= 0;
    assert(m / d >= 0) by (nonlinear_arith)
        requires 0 <= m, d > 0;
}

/// The velocity change of an exchange is at most four times the limit on
/// each axis.
pub proof fn lemma_delta_bounds(a: Particle, b: Particle)
    requires
        a.wf(),
        b.wf(),
        dist_sq(a, b) > 0,
    ensures
        abs(delta_x(a, b)) <= 4 * LIMIT,
        abs(delta_y(a, b)) <= 4 * LIMIT,
{
    let dx = b.x - a.x;
    let dy = b.y - a.y;
    lemma_product_bound(dx, dy, b.vx - a.vx, b.vy - a.vy, 2 * LIMIT);
    lemma_product_bound(dy, dx, b.vy - a.vy, b.vx - a.vx, 2 * LIMIT);
    assert(dx * dx + dy * dy == dy * dy + dx * dx);
    assert(approach(a, b) == (b.vy - a.vy) * dy + (b.vx - a.vx) * dx);
    lemma_div_bound(approach(a, b) * dx, dist_sq(a, b), 4 * LIMIT);
    lemma_div_bound(approach(a, b) * dy, dist_sq(a, b), 4 * LIMIT);
}

/// `n / d` rounded toward zero, for a positive `d`.
fn div_toward_zero_exec(n: i128, d: i128) -> (r: i128)
    requires
        d > 0,
        n > i128::MIN,
    ensures
        r == div_toward_zero(n as int, d as int),
{
    if n >= 0 {
        ((n as u128) / (d as u128)) as i128
    } else {
        -((((-n) as u128) / (d as u128)) as i128)
    }
}

/// Resolves one pair of particles: where their circles overlap and the
/// approach test holds, the velocity components along the line joining the
/// centres are exchanged; otherwise both are returned unchanged.
pub fn resolve_pair(a: Particle, b: Particle) -> (r: (Particle, Particle))
    requires
        a.wf(),
        b.wf(),
    ensures
        r == exchanged(a, b),
{
    let dx: i128 = b.x as i128 - a.x as i128;
    let dy: i128 = b.y as i128 - a.y as i128;
    let dvx: i128 = b.vx as i128 - a.vx as i128;
    let dvy: i128 = b.vy as i128 - a.vy as i128;
    proof {
        assert(dx * dx <= 4 * LIMIT * LIMIT) by (nonlinear_arith) requires abs(dx as int) <= 2 * LIMIT;
        assert(dy * dy <= 4 * LIMIT * LIMIT) by (nonlinear_arith) requires abs(dy as int) <= 2 * LIMIT;
        assert(dx * dx >= 0) by (nonlinear_arith);
        assert(dy * dy >= 0) by (nonlinear_arith);
        assert(abs(dvx * dx) <= 4 * LIMIT * LIMIT) by (nonlinear_arith)
            requires abs(dx as int) <= 2 * LIMIT, abs(dvx as int) <= 2 * LIMIT;
        assert(abs(dvy * dy) <= 4 * LIMIT * LIMIT) by (nonlinear_arith)
            requires abs(dy as int) <= 2 * LIMIT, abs(dvy as int) <= 2 * LIMIT;
    }
    let q: i128 = dx * dx + dy * dy;
    let rr: i128 = a.radius as i128 + b.radius as i128;
    proof {
        assert(rr * rr <= 4 * LIMIT * LIMIT) by (nonlinear_arith) requires 0 < rr <= 2 * LIMIT;
    }
    let s: i128 = dvx * dx + dvy * dy;
    if q > 0 && q < rr * rr && s >= 0 {
        proof {
            lemma_delta_bounds(a, b);
            assert(abs(s * dx) <= 16 * LIMIT * LIMIT * LIMIT) by (nonlinear_arith)
                requires abs(dx as int) <= 2 * LIMIT, 0 <= s <= 8 * LIMIT * LIMIT;
            assert(abs(s * dy) <= 16 * LIMIT * LIMIT * LIMIT) by (nonlinear_arith)
                requires abs(dy as int) <= 2 * LIMIT, 0 <= s <= 8 * LIMIT * LIMIT;
        }
        let ex = div_toward_zero_exec(s * dx, q);
        let ey = div_toward_zero_exec(s * dy, q);
        let a2 = Particle { vx: (a.vx as i128 + ex) as i64, vy: (a.vy as i128 + ey) as i64, ..a };
        let b2 = Particle { vx: (b.vx as i128 - ex) as i64, vy: (b.vy as i128 - ey) as i64, ..b };
        (a2, b2)
    } else {
        (a, b)
    }
}

impl Particle {
    /// Resolves every candidate pair on its own, from the velocities that the
    /// pair carries; the slots of the pairs are kept.
    pub fn handle_particle_collisions(particle_pairs: Vec<Pair>) -> (r: Vec<Pair>)
        requires
            forall|i: int| 0 <= i < particle_pairs@.len() ==> pair_wf(#[trigger] particle_pairs@[i]),
        ensures
            r@.len() == particle_pairs@.len(),
            forall|i: int| 0 <= i < r@.len() ==> r@[i] == resolved(#[trigger] particle_pairs@[i]),
    {
        let mut out: Vec<Pair> = Vec::new();
        let mut k: usize = 0;
        while k < particle_pairs.len()
            invariant
                k <= particle_pairs@.len(),
                out@.len() == k,
                forall|i: int| 0 <= i < particle_pairs@.len() ==> pair_wf(#[trigger] particle_pairs@[i]),
                forall|i: int| 0 <= i < k ==> out@[i] == resolved(#[trigger] particle_pairs@[i]),
            decreases particle_pairs@.len() - k,
        {
            let ((ia, a), (ib, b)) = particle_pairs[k];
            assert(pair_wf(particle_pairs@[k as int]));
            let (a2, b2) = resolve_pair(a, b);
            out.push(((ia, a2), (ib, b2)));
            k = k + 1;
        }
        out
    }
}

/// With equal masses, an exchange keeps the total momentum of the pair on
/// each axis.
pub proof fn lemma_exchange_conserves_momentum(a: Particle, b: Particle)
    requires
        a.wf(),
        b.wf(),
        a.mass == b.mass,
    ensures
        a.mass * exchanged(a, b).0.vx + b.mass * exchanged(a, b).1.vx == a.mass * a.vx + b.mass * b.vx,
        a.mass * exchanged(a, b).0.vy + b.mass * exchanged(a, b).1.vy == a.mass * a.vy + b.mass * b.vy,
{
    if collides(a, b) {
        lemma_delta_bounds(a, b);
        let (a2, b2) = exchanged(a, b);
        assert(a2.vx + b2.vx == a.vx + b.vx);
        assert(a2.vy + b2.vy == a.vy + b.vy);
        assert(a.mass * a2.vx + a.mass * b2.vx == a.mass * a.vx + a.mass * b.vx) by (nonlinear_arith)
            requires a2.vx + b2.vx == a.vx + b.vx;
        assert(a.mass * a2.vy + a.mass * b2.vy == a.mass * a.vy + a.mass * b.vy) by (nonlinear_arith)
            requires a2.vy + b2.vy == a.vy + b.vy;
    }
}

proof fn lemma_exact_projection(q: int, s: int, dx: int, dy: int, dvx: int, dvy: int, ex: int, ey: int)
    requires
        q == dx * dx + dy * dy,
        q > 0,
        s == dvx * dx + dvy * dy,
        ex * q == s * dx,
        ey * q == s * dy,
    ensures
        ex * ex + ey * ey == dvx * ex + dvy * ey,
{
    assert(q * (ex * dx + ey * dy) == q * s) by (nonlinear_arith)
        requires q == dx * dx + dy * dy, ex * q == s * dx, ey * q == s * dy;
    assert(ex * dx + ey * dy == s) by (nonlinear_arith)
        requires q * (ex * dx + ey * dy) == q * s, q > 0;
    assert(q * (ex * ex + ey * ey) == s * s) by (nonlinear_arith)
        requires ex * q == s * dx, ey * q == s * dy, ex * dx + ey * dy == s;
    assert(q * (dvx * ex) == dvx * (s * dx)) by (nonlinear_arith)
        requires ex * q == s * dx;
    assert(q * (dvy * ey) == dvy * (s * dy)) by (nonlinear_arith)
        requires ey * q == s * dy;
    assert(dvx * (s * dx) + dvy * (s * dy) == s * s) by (nonlinear_arith)
        requires s == dvx * dx + dvy * dy;
    assert(q * (dvx * ex + dvy * ey) == q * (dvx * ex) + q * (dvy * ey)) by (nonlinear_arith);
    assert(ex * ex + ey * ey == dvx * ex + dvy * ey) by (nonlinear_arith)
        requires q * (ex * ex + ey * ey) == s * s, q * (dvx * ex + dvy * ey) == s * s, q > 0;
}

/// The exchange of the pair involves no rounding: the projection of the
/// relative velocity on the line of impact falls on the integer grid.
pub open spec fn exact_exchange(a: Particle, b: Particle) -> bool {
    collides(a, b) ==> {
        &&& delta_x(a, b) * dist_sq(a, b) == approach(a, b) * (b.x - a.x)
        &&& delta_y(a, b) * dist_sq(a, b) == approach(a, b) * (b.y - a.y)
    }
}

/// With equal masses, an exchange keeps the kinetic energy of the pair,
/// wherever the projection on the line of impact falls exactly on the
/// integer grid (no rounding takes place).
pub proof fn lemma_exchange_conserves_energy(a: Particle, b: Particle)
    requires
        a.wf(),
        b.wf(),
        a.mass == b.mass,
        exact_exchange(a, b),
    ensures
        energy(exchanged(a, b).0) + energy(exchanged(a, b).1) == energy(a) + energy(b),
{
    if collides(a, b) {
        lemma_delta_bounds(a, b);
        let (a2, b2) = exchanged(a, b);
        let ex = delta_x(a, b);
        let ey = delta_y(a, b);
        let dvx = b.vx - a.vx;
        let dvy = b.vy - a.vy;
        lemma_exact_projection(dist_sq(a, b), approach(a, b), b.x - a.x, b.y - a.y, dvx, dvy, ex, ey);
        assert(a2.vx == a.vx + ex && a2.vy == a.vy + ey && b2.vx == b.vx - ex && b2.vy == b.vy - ey);
        let m = a.mass as int;
        let (ax, ay, bx, by) = (a.vx as int, a.vy as int, b.vx as int, b.vy as int);
        assert((ax + ex) * (ax + ex) == ax * ax + 2 * (ax * ex) + ex * ex) by (nonlinear_arith);
        assert((ay + ey) * (ay + ey) == ay * ay + 2 * (ay * ey) + ey * ey) by (nonlinear_arith);
        assert((bx - ex) * (bx - ex) == bx * bx - 2 * (bx * ex) + ex * ex) by (nonlinear_arith);
        assert((by - ey) * (by - ey) == by * by - 2 * (by * ey) + ey * ey) by (nonlinear_arith);
        assert(dvx * ex == bx * ex - ax * ex) by (nonlinear_arith) requires dvx == bx - ax;
        assert(dvy * ey == by * ey - ay * ey) by (nonlinear_arith) requires dvy == by - ay;
        let before_a = ax * ax + ay * ay;
        let before_b = bx * bx + by * by;
        let after_a = (ax + ex) * (ax + ex) + (ay + ey) * (ay + ey);
        let after_b = (bx - ex) * (bx - ex) + (by - ey) * (by - ey);
        assert(after_a + after_b == before_a + before_b);
        assert(m * after_a + m * after_b == m * before_a + m * before_b) by (nonlinear_arith)
            requires after_a + after_b == before_a + before_b;
    }
}

/// Rounding toward zero leaves a remainder smaller than the divisor.
proof fn lemma_div_remainder(n: int, d: int)
    requires
        d > 0,
    ensures
        within(n - div_toward_zero(n, d) * d, d - 1),
{
    if n >= 0 {
        lemma_fundamental_div_mod(n, d);
        lemma_mod_pos_bound(n, d);
        assert(n - (n / d) * d == n % d) by (nonlinear_arith)
            requires n == d * (n / d) + n % d;
    } else {
        let m = -n;
        lemma_fundamental_div_mod(m, d);
        lemma_mod_pos_bound(m, d);
        assert(n - (-(m / d)) * d == -(m % d)) by (nonlinear_arith)
            requires m == d * (m / d) + m % d, n == -m;
    }
}

/// The polynomial identity behind the energy change of a rounded exchange,
/// with `rx` and `ry` the remainders of the two rounded divisions.
proof fn lemma_drift_identity(q: int, s: int, dx: int, dy: int, dvx: int, dvy: int, ex: int, ey: int, rx: int, ry: int)
    requires
        q == dx * dx + dy * dy,
        s == dvx * dx + dvy * dy,
        rx == s * dx - ex * q,
        ry == s * dy - ey * q,
    ensures
        q * q * (ex * ex + ey * ey - (dvx * ex + dvy * ey))
            == q * (rx * (dvx - 2 * ex) + ry * (dvy - 2 * ey)) - (rx * rx + ry * ry),
{
    let u = s * dx;
    let v = s * dy;
    assert((u - rx) * (u - rx) == u * u - 2 * (u * rx) + rx * rx) by (nonlinear_arith);
    assert((v - ry) * (v - ry) == v * v - 2 * (v * ry) + ry * ry) by (nonlinear_arith);
    assert(u * u + v * v == s * s * q) by (nonlinear_arith)
        requires u == s * dx, v == s * dy, q == dx * dx + dy * dy;
    assert(u * rx + v * ry == s * (rx * dx + ry * dy)) by (nonlinear_arith)
        requires u == s * dx, v == s * dy;
    assert(q * ex == u - rx) by (nonlinear_arith) requires rx == s * dx - ex * q, u == s * dx;
    assert(q * ey == v - ry) by (nonlinear_arith) requires ry == s * dy - ey * q, v == s * dy;
    assert(q * q * (dvx * ex + dvy * ey) == q * (q * (dvx * ex)) + q * (q * (dvy * ey))) by (nonlinear_arith);
    assert(q * (dvx * ex) == dvx * (q * ex)) by (nonlinear_arith);
    assert(q * (dvy * ey) == dvy * (q * ey)) by (nonlinear_arith);
    assert(q * (dvx * (u - rx)) + q * (dvy * (v - ry)) == q * (dvx * (u - rx) + dvy * (v - ry))) by (nonlinear_arith);
    assert(dvx * (u - rx) + dvy * (v - ry) == s * s - (dvx * rx + dvy * ry)) by (nonlinear_arith)
        requires s == dvx * dx + dvy * dy, u == s * dx, v == s * dy;
    assert(rx * u == rx * (q * ex) + rx * rx) by (nonlinear_arith) requires q * ex == u - rx;
    assert(ry * v == ry * (q * ey) + ry * ry) by (nonlinear_arith) requires q * ey == v - ry;
    assert(rx * (q * ex) + ry * (q * ey) == q * (rx * ex + ry * ey)) by (nonlinear_arith);
    assert(rx * u + ry * v == u * rx + v * ry) by (nonlinear_arith);
    assert(q * q * (ex * ex + ey * ey - (dvx * ex + dvy * ey))
        == q * q * (ex * ex) + q * q * (ey * ey) - q * q * (dvx * ex + dvy * ey)) by (nonlinear_arith);
    assert(q * (s * s - (dvx * rx + dvy * ry)) == q * s * s - q * (dvx * rx + dvy * ry)) by (nonlinear_arith);
    assert(s * s * q == q * s * s) by (nonlinear_arith);
    assert(q * (rx * (dvx - 2 * ex) + ry * (dvy - 2 * ey))
        == q * (dvx * rx + dvy * ry) - 2 * q * (rx * ex + ry * ey)) by (nonlinear_arith);
    assert(q * q * (ex * ex) == (u - rx) * (u - rx)) by (nonlinear_arith) requires q * ex == u - rx;
    assert(q * q * (ey * ey) == (v - ry) * (v - ry)) by (nonlinear_arith) requires q * ey == v - ry;
    let l1 = q * q * (ex * ex);
    let l2 = q * q * (ey * ey);
    let l3 = q * q * (dvx * ex + dvy * ey);
    let w = dvx * rx + dvy * ry;
    let z = rx * ex + ry * ey;
    assert(l1 == u * u - 2 * (u * rx) + rx * rx);
    assert(l2 == v * v - 2 * (v * ry) + ry * ry);
    assert(l3 == q * (s * s - w));
    assert(l3 == q * s * s - q * w);
    assert(u * rx + v * ry == q * z + rx * rx + ry * ry);
    assert(q * (rx * (dvx - 2 * ex) + ry * (dvy - 2 * ey)) == q * w - 2 * q * z);
    assert(q * q * (ex * ex + ey * ey - (dvx * ex + dvy * ey)) == l1 + l2 - l3);
    assert(2 * q * z == 2 * (q * z)) by (nonlinear_arith);
    assert(s * s * q == q * s * s) by (nonlinear_arith);
}

/// The energy change of an exchange with equal masses, where the projection
/// is rounded: at most `2 * mass * (|dvx - 2 * delta_x| + |dvy - 2 * delta_y| + 2)`,
/// with `(dvx, dvy)` the relative velocity. Against an energy of the order of
/// `mass * speed * speed`, the drift is of the order of one part in the speed
/// (in velocity units).
pub proof fn lemma_exchange_energy_drift(a: Particle, b: Particle)
    requires
        a.wf(),
        b.wf(),
        a.mass == b.mass,
    ensures
        abs(energy(exchanged(a, b).0) + energy(exchanged(a, b).1) - energy(a) - energy(b))
            <= 2 * a.mass * (abs(b.vx - a.vx - 2 * delta_x(a, b)) + abs(b.vy - a.vy - 2 * delta_y(a, b)) + 2),
{
    let m = a.mass as int;
    assert(m >= 0) by (nonlinear_arith) requires m == a.radius * a.radius;
    let bound = 2 * m * (abs(b.vx - a.vx - 2 * delta_x(a, b)) + abs(b.vy - a.vy - 2 * delta_y(a, b)) + 2);
    assert(bound >= 0) by (nonlinear_arith) requires m >= 0, bound == 2 * m * (abs(b.vx - a.vx - 2 * delta_x(a, b)) + abs(b.vy - a.vy - 2 * delta_y(a, b)) + 2);
    if collides(a, b) {
        lemma_delta_bounds(a, b);
        let (a2, b2) = exchanged(a, b);
        let ex = delta_x(a, b);
        let ey = delta_y(a, b);
        let dx = b.x - a.x;
        let dy = b.y - a.y;
        let dvx = b.vx - a.vx;
        let dvy = b.vy - a.vy;
        let q = dist_sq(a, b);
        let s = approach(a, b);
        let rx = s * dx - ex * q;
        let ry = s * dy - ey * q;
        lemma_div_remainder(s * dx, q);
        lemma_div_remainder(s * dy, q);
        lemma_drift_identity(q, s, dx, dy, dvx, dvy, ex, ey, rx, ry);
        let x = ex * ex + ey * ey - (dvx * ex + dvy * ey);
        let ca = dvx - 2 * ex;
        let cb = dvy - 2 * ey;
        assert(abs(rx * ca) <= q * abs(ca)) by (nonlinear_arith) requires within(rx, q - 1), q > 0;
        assert(abs(ry * cb) <= q * abs(cb)) by (nonlinear_arith) requires within(ry, q - 1), q > 0;
        assert(rx * rx <= q * q) by (nonlinear_arith) requires within(rx, q - 1), q > 0;
        assert(ry * ry <= q * q) by (nonlinear_arith) requires within(ry, q - 1), q > 0;
        assert(rx * rx >= 0 && ry * ry >= 0) by (nonlinear_arith);
        let t = rx * ca + ry * cb;
        assert(abs(q * t) <= q * (q * abs(ca) + q * abs(cb))) by (nonlinear_arith)
            requires abs(rx * ca) <= q * abs(ca), abs(ry * cb) <= q * abs(cb), q > 0, t == rx * ca + ry * cb;
        assert(q * (q * abs(ca) + q * abs(cb)) == q * q * (abs(ca) + abs(cb))) by (nonlinear_arith);
        assert(abs(q * q * x) <= q * q * (abs(ca) + abs(cb) + 2)) by (nonlinear_arith)
            requires q * q * x == q * t - (rx * rx + ry * ry), abs(q * t) <= q * q * (abs(ca) + abs(cb)),
                0 <= rx * rx <= q * q, 0 <= ry * ry <= q * q;
        assert(abs(x) <= abs(ca) + abs(cb) + 2) by (nonlinear_arith)
            requires abs(q * q * x) <= q * q * (abs(ca) + abs(cb) + 2), q > 0;
        let (ax, ay, bx, by) = (a.vx as int, a.vy as int, b.vx as int, b.vy as int);
        assert(a2.vx == ax + ex && a2.vy == ay + ey && b2.vx == bx - ex && b2.vy == by - ey);
        assert((ax + ex) * (ax + ex) == ax * ax + 2 * (ax * ex) + ex * ex) by (nonlinear_arith);
        assert((ay + ey) * (ay + ey) == ay * ay + 2 * (ay * ey) + ey * ey) by (nonlinear_arith);
        assert((bx - ex) * (bx - ex) == bx * bx - 2 * (bx * ex) + ex * ex) by (nonlinear_arith);
        assert((by - ey) * (by - ey) == by * by - 2 * (by * ey) + ey * ey) by (nonlinear_arith);
        assert(dvx * ex == bx * ex - ax * ex) by (nonlinear_arith) requires dvx == bx - ax;
        assert(dvy * ey == by * ey - ay * ey) by (nonlinear_arith) requires dvy == by - ay;
        let before = ax * ax + ay * ay + bx * bx + by * by;
        let after = (ax + ex) * (ax + ex) + (ay + ey) * (ay + ey) + (bx - ex) * (bx - ex) + (by - ey) * (by - ey);
        assert(after - before == 2 * x);
        assert(energy(a2) + energy(b2) - energy(a) - energy(b) == m * (after - before)) by (nonlinear_arith)
            requires energy(a2) == m * (a2.vx * a2.vx + a2.vy * a2.vy), energy(b2) == m * (b2.vx * b2.vx + b2.vy * b2.vy),
                energy(a) == m * (ax * ax + ay * ay), energy(b) == m * (bx * bx + by * by),
                a2.vx == ax + ex, a2.vy == ay + ey, b2.vx == bx - ex, b2.vy == by - ey,
                before == ax * ax + ay * ay + bx * bx + by * by,
                after == (ax + ex) * (ax + ex) + (ay + ey) * (ay + ey) + (bx - ex) * (bx - ex) + (by - ey) * (by - ey);
        assert(abs(m * (2 * x)) <= 2 * m * (abs(ca) + abs(cb) + 2)) by (nonlinear_arith)
            requires abs(x) <= abs(ca) + abs(cb) + 2, m >= 0;
    }
}

/// Energy through the resolution of a list of candidate pairs: each resolved
/// pair of equal masses has the kinetic energy it had before, wherever its
/// exchange involves no rounding, and otherwise differs from it by at most
/// the bound of `lemma_exchange_energy_drift`.
pub proof fn lemma_resolved_pairs_energy(pairs: Seq<Pair>)
    requires
        forall|k: int| 0 <= k < pairs.len() ==> pair_wf(#[trigger] pairs[k]),
        forall|k: int| 0 <= k < pairs.len() ==> (#[trigger] pairs[k]).0.1.mass == pairs[k].1.1.mass,
    ensures
        forall|k: int| 0 <= k < pairs.len() ==> {
            let (a, b) = ((#[trigger] pairs[k]).0.1, pairs[k].1.1);
            let r = resolved(pairs[k]);
            &&& (exact_exchange(a, b) ==> energy(r.0.1) + energy(r.1.1) == energy(a) + energy(b))
            &&& abs(energy(r.0.1) + energy(r.1.1) - energy(a) - energy(b))
                <= 2 * a.mass * (abs(b.vx - a.vx - 2 * delta_x(a, b)) + abs(b.vy - a.vy - 2 * delta_y(a, b)) + 2)
        },
{
    assert forall|k: int| 0 <= k < pairs.len() implies {
        let (a, b) = ((#[trigger] pairs[k]).0.1, pairs[k].1.1);
        let r = resolved(pairs[k]);
        &&& (exact_exchange(a, b) ==> energy(r.0.1) + energy(r.1.1) == energy(a) + energy(b))
        &&& abs(energy(r.0.1) + energy(r.1.1) - energy(a) - energy(b))
            <= 2 * a.mass * (abs(b.vx - a.vx - 2 * delta_x(a, b)) + abs(b.vy - a.vy - 2 * delta_y(a, b)) + 2)
    } by {
        let (a, b) = (pairs[k].0.1, pairs[k].1.1);
        assert(pair_wf(pairs[k]));
        lemma_exchange_energy_drift(a, b);
        if exact_exchange(a, b) {
            lemma_exchange_conserves_energy(a, b);
        }
    }
}

} // verus!
