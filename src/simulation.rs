use vstd::prelude::*;
use crate::particle::{Particle, LIMIT, energy, hits_wall};
use crate::sampling::draw_range;
use crate::collision::{
    Pair, resolved, pair_wf, exchanged, exact_exchange,
    lemma_exchange_conserves_momentum, lemma_exchange_conserves_energy,
};
use crate::grid::{all_wf, candidate_pairs, pairs_of_store, entry_of, lemma_candidates_of_store};
use crate::diagnostics::{total_energy, lemma_sum_update, lemma_sum_pointwise};

verus! {

/// Why a call was refused.
#[derive(Clone, Copy, Debug, PartialEq, Eq, Structural)]
pub enum SimError {
    /// A count, a radius, a box side or a time step that is not positive.
    InvalidParameter,
    /// A value that leaves the range a well-formed particle can hold.
    OutOfRange,
}

/// The store after every particle has moved for `dt` and bounced off the walls.
pub open spec fn advanced_all(ps: Seq<Particle>, dt: int) -> Seq<Particle> {
    Seq::new(ps.len(), |k: int| ps[k].advanced(dt))
}

/// Writes both particles of a resolved pair back into their slots.
pub open spec fn write_pair(ps: Seq<Particle>, p: Pair) -> Seq<Particle> {
    ps.update(p.0.0 as int, p.0.1).update(p.1.0 as int, p.1.1)
}

/// Writes resolved pairs back in order; a slot written by several pairs keeps
/// the last write.
pub open spec fn committed(ps: Seq<Particle>, pairs: Seq<Pair>) -> Seq<Particle>
    decreases pairs.len(),
{
    if pairs.len() == 0 {
        ps
    } else {
        write_pair(committed(ps, pairs.drop_last()), pairs.last())
    }
}

pub open spec fn resolved_all(pairs: Seq<Pair>) -> Seq<Pair> {
    Seq::new(pairs.len(), |t: int| resolved(pairs[t]))
}

/// One tick of a store: motion and walls, then the candidate pairs of the
/// moved store are resolved and written back in order.
pub open spec fn tick(ps: Seq<Particle>, dt: int, side: int) -> Seq<Particle> {
    let moved = advanced_all(ps, dt);
    committed(moved, resolved_all(candidate_pairs(moved, side)))
}

/// The tick can be carried out within the range of well-formed particles.
pub open spec fn tick_fits(ps: Seq<Particle>, dt: int, side: int) -> bool {
    &&& side <= LIMIT
    &&& all_wf(ps)
    &&& forall|k: int| 0 <= k < ps.len() ==> (#[trigger] ps[k]).can_advance(dt)
    &&& all_wf(tick(ps, dt, side))
}

impl Particle {
    /// Advances the store by one tick of `dt`: every particle moves by its
    /// velocity and reflects off the walls, then the candidate pairs of the grid
    /// over a box of side `box_size` are resolved and their velocities written
    /// back, the last write to a slot winning. The new store is returned and
    /// also left in `particles`. On an error nothing is changed.
    pub fn update_particles(particles: &mut Vec<Particle>, dt: i64, box_size: i64) -> (r: Result<Vec<Particle>, SimError>)
        ensures
            (dt <= 0 || box_size <= 0) ==> r == Err::<Vec<Particle>, SimError>(SimError::InvalidParameter),
            (dt > 0 && box_size > 0 && !tick_fits(old(particles)@, dt as int, box_size as int))
                ==> r == Err::<Vec<Particle>, SimError>(SimError::OutOfRange),
            r is Err ==> final(particles)@ == old(particles)@,
            (dt > 0 && box_size > 0 && tick_fits(old(particles)@, dt as int, box_size as int)) ==> {
                &&& r is Ok
                &&& r->Ok_0@ == tick(old(particles)@, dt as int, box_size as int)
                &&& final(particles)@ == r->Ok_0@
            },
    {
        if dt <= 0 || box_size <= 0 {
            return Err(SimError::InvalidParameter);
        }
        if box_size > LIMIT {
            return Err(SimError::OutOfRange);
        }
        let ghost ps = particles@;
        let n = particles.len();
        let mut moved: Vec<Particle> = Vec::new();
        let mut k: usize = 0;
        while k < n
            invariant
                n == ps.len(),
                ps == particles@,
                dt > 0,
                0 < box_size <= LIMIT,
                k <= n,
                moved@ == advanced_all(ps, dt as int).take(k as int),
                all_wf(ps.take(k as int)),
                forall|t: int| 0 <= t < k ==> (#[trigger] ps[t]).can_advance(dt as int),
                all_wf(moved@),
            decreases n - k,
        {
            let mut p = particles[k];
            if !p.is_wf() || !p.can_advance_by(dt) {
                proof {
                    assert(!tick_fits(ps, dt as int, box_size as int)) by {
                        if !p.wf() {
                            assert(!all_wf(ps));
                        }
                    }
                }
                return Err(SimError::OutOfRange);
            }
            p.update(dt);
            moved.push(p);
            proof {
                assert(moved@ =~= advanced_all(ps, dt as int).take(k + 1));
                assert forall|t: int| 0 <= t < k + 1 implies (#[trigger] ps.take(k + 1)[t]).wf() by {
                    if t < k {
                        assert(ps.take(k as int)[t] == ps[t]);
                    }
                }
                assert forall|t: int| 0 <= t < moved@.len() implies (#[trigger] moved@[t]).wf() by {}
            }
            k = k + 1;
        }
        assert(ps.take(n as int) =~= ps);
        let ghost adv = advanced_all(ps, dt as int);
        assert(moved@ =~= adv);
        let pairs = Particle::generate_pairs(moved.as_slice(), box_size);
        proof {
            lemma_candidates_of_store(adv, box_size as int);
            assert forall|t: int| 0 <= t < pairs@.len() implies pair_wf(#[trigger] pairs@[t]) by {
                assert(entry_of(adv, pairs@[t].0) && entry_of(adv, pairs@[t].1));
            }
        }
        let ghost cands = pairs@;
        let res = Particle::handle_particle_collisions(pairs);
        assert(res@ =~= resolved_all(cands));
        let mut t: usize = 0;
        while t < res.len()
            invariant
                t <= res@.len(),
                res@ == resolved_all(cands),
                pairs_of_store(adv, cands),
                moved@.len() == adv.len(),
                moved@ == committed(adv, res@.take(t as int)),
            decreases res@.len() - t,
        {
            let ((ia, a), (ib, b)) = res[t];
            assert(entry_of(adv, cands[t as int].0) && entry_of(adv, cands[t as int].1));
            moved.set(ia, a);
            moved.set(ib, b);
            assert(res@.take(t + 1).drop_last() =~= res@.take(t as int));
            t = t + 1;
        }
        assert(res@.take(res@.len() as int) =~= res@);
        let mut all_ok = true;
        let mut j: usize = 0;
        while j < moved.len()
            invariant
                j <= moved@.len(),
                all_ok == all_wf(moved@.take(j as int)),
            decreases moved@.len() - j,
        {
            let ok = moved[j].is_wf();
            proof {
                if all_ok && ok {
                    assert forall|u: int| 0 <= u < j + 1 implies (#[trigger] moved@.take(j + 1)[u]).wf() by {
                        if u < j {
                            assert(moved@.take(j as int)[u] == moved@[u]);
                        }
                    }
                }
                if !ok {
                    assert(moved@.take(j + 1)[j as int] == moved@[j as int]);
                }
                if !all_ok {
                    let u = choose|u: int| 0 <= u < j && !(#[trigger] moved@.take(j as int)[u]).wf();
                    assert(moved@.take(j + 1)[u] == moved@.take(j as int)[u]);
                }
            }
            all_ok = all_ok && ok;
            j = j + 1;
        }
        assert(moved@.take(moved@.len() as int) =~= moved@);
        if !all_ok {
            return Err(SimError::OutOfRange);
        }
        let mut out: Vec<Particle> = Vec::new();
        let mut j: usize = 0;
        while j < moved.len()
            invariant
                j <= moved@.len(),
                out@ == moved@.take(j as int),
            decreases moved@.len() - j,
        {
            out.push(moved[j]);
            assert(out@ =~= moved@.take(j + 1));
            j = j + 1;
        }
        assert(out@ =~= moved@);
        *particles = moved;
        Ok(out)
    }
}

/// Velocity components of a new population are drawn in
/// `[-INITIAL_SPEED, INITIAL_SPEED)`.
pub const INITIAL_SPEED: i64 = 100_000;

/// The distance from the walls that a new particle keeps: one and a half
/// radii, rounded up.
pub open spec fn margin(radius: int) -> int {
    (3 * radius + 1) / 2
}

/// A coordinate drawn in `[margin, side - margin]`, kept as it is; a draw
/// outside that interval is moved onto its nearer end, and where the box is
/// too small for the margin the coordinate is `margin`.
pub open spec fn place(sample: int, radius: int, side: int) -> int {
    let hi = side - margin(radius);
    let lo = margin(radius);
    let capped = if sample > hi { hi } else { sample };
    if capped < lo { lo } else { capped }
}

pub open spec fn placed(sample_x: int, sample_y: int, vx: int, vy: int, radius: int, side: int) -> Particle {
    Particle {
        x: place(sample_x, radius, side) as i64,
        y: place(sample_y, radius, side) as i64,
        vx: vx as i64,
        vy: vy as i64,
        radius: radius as i64,
        mass: (radius * radius) as i64,
        momentum_transferred: 0,
        box_size: side as i64,
    }
}

/// The values that a coordinate of a new particle is drawn from, uniformly:
/// `[margin, side - margin]`, or the margin alone where the box is too small.
pub open spec fn in_placement(v: int, radius: int, side: int) -> bool {
    let lo = margin(radius);
    let hi = side - margin(radius);
    if lo <= hi { lo <= v <= hi } else { v == lo }
}

/// `p` is what `random` builds from values that the draws can give: its
/// coordinates are the drawn ones, each in the placement interval.
pub open spec fn drawn(p: Particle, radius: int, side: int) -> bool {
    exists|sx: int, sy: int, vx: int, vy: int|
        in_placement(sx, radius, side) && in_placement(sy, radius, side)
        && -INITIAL_SPEED <= vx < INITIAL_SPEED && -INITIAL_SPEED <= vy < INITIAL_SPEED
        && p.x == sx && p.y == sy
        && p == #[trigger] placed(sx, sy, vx, vy, radius, side)
}

impl Particle {
    /// A particle of a new population in a box of side `box_size`, built from
    /// drawn values: the coordinates `sample_x` and `sample_y`, drawn in
    /// `[margin, box_size - margin]`, are kept as they are (a value outside
    /// that interval is moved onto it), and the velocity is taken as drawn.
    pub fn random(sample_x: i64, sample_y: i64, vx: i64, vy: i64, radius: i64, box_size: i64) -> (r: Particle)
        requires
            0 < radius <= LIMIT,
            0 < box_size <= LIMIT,
        ensures
            r == placed(sample_x as int, sample_y as int, vx as int, vy as int, radius as int, box_size as int),
    {
        let lo = (3 * radius + 1) / 2;
        let hi = box_size - lo;
        let x = if sample_x > hi { hi } else { sample_x };
        let x = if x < lo { lo } else { x };
        let y = if sample_y > hi { hi } else { sample_y };
        let y = if y < lo { lo } else { y };
        Particle::new(x, y, vx, vy, radius, box_size)
    }

    /// A new population of `num_particles` particles of the given radius in a box
    /// of side `box_size`: each gets coordinates drawn uniformly in
    /// `[margin, box_size - margin]` (the margin alone where the box is too
    /// small for it) and a velocity drawn uniformly in
    /// `[-INITIAL_SPEED, INITIAL_SPEED)` on each axis. Overlaps are allowed.
    pub fn generate_particles(num_particles: usize, radius: i64, box_size: i64) -> (r: Result<Vec<Particle>, SimError>)
        ensures
            (num_particles == 0 || radius <= 0 || box_size <= 0)
                <==> r == Err::<Vec<Particle>, SimError>(SimError::InvalidParameter),
            (num_particles > 0 && radius > 0 && box_size > 0 && (radius > LIMIT || box_size > LIMIT))
                <==> r == Err::<Vec<Particle>, SimError>(SimError::OutOfRange),
            r is Ok ==> r->Ok_0@.len() == num_particles,
            r is Ok ==> forall|k: int| 0 <= k < r->Ok_0@.len() ==> drawn(#[trigger] r->Ok_0@[k], radius as int, box_size as int),
    {
        if num_particles == 0 || radius <= 0 || box_size <= 0 {
            return Err(SimError::InvalidParameter);
        }
        if radius > LIMIT || box_size > LIMIT {
            return Err(SimError::OutOfRange);
        }
        let lo = (3 * radius + 1) / 2;
        let hi = box_size - lo;
        let mut out: Vec<Particle> = Vec::new();
        let mut k: usize = 0;
        while k < num_particles
            invariant
                k <= num_particles,
                out@.len() == k,
                0 < radius <= LIMIT,
                0 < box_size <= LIMIT,
                lo == margin(radius as int),
                hi == box_size - lo,
                forall|t: int| 0 <= t < k ==> drawn(#[trigger] out@[t], radius as int, box_size as int),
            decreases num_particles - k,
        {
            let sx = if lo <= hi { draw_range(lo, hi + 1) } else { lo };
            let sy = if lo <= hi { draw_range(lo, hi + 1) } else { lo };
            let vx = draw_range(-INITIAL_SPEED, INITIAL_SPEED);
            let vy = draw_range(-INITIAL_SPEED, INITIAL_SPEED);
            let p = Particle::random(sx, sy, vx, vy, radius, box_size);
            out.push(p);
            proof {
                assert(p == placed(sx as int, sy as int, vx as int, vy as int, radius as int, box_size as int));
            assert(in_placement(sx as int, radius as int, box_size as int));
            assert(in_placement(sy as int, radius as int, box_size as int));
            assert(p.x == sx && p.y == sy);
                assert forall|t: int| 0 <= t < k + 1 implies drawn(#[trigger] out@[t], radius as int, box_size as int) by {
                    if t == k {
                        assert(out@[t] == placed(sx as int, sy as int, vx as int, vy as int, radius as int, box_size as int));
                    }
                }
            }
            k = k + 1;
        }
        Ok(out)
    }
}

/// The particle reaches no wall while it moves for `dt`.
pub open spec fn clear_of_walls(p: Particle, dt: int) -> bool {
    &&& !hits_wall(p.moved_x(dt), p.radius as int, p.box_size as int)
    &&& !hits_wall(p.moved_y(dt), p.radius as int, p.box_size as int)
}

proof fn lemma_clear_advance(p: Particle, dt: int)
    requires
        p.can_advance(dt),
        clear_of_walls(p, dt),
    ensures
        p.advanced(dt) == p.moved(dt),
{
    let m = p.moved(dt);
    assert(m.x == p.moved_x(dt) && m.y == p.moved_y(dt));
    assert(m.after_walls() == m);
}

proof fn lemma_committed_same_pair(ps: Seq<Particle>, pairs: Seq<Pair>, p: Pair)
    requires
        ps.len() == 2,
        p.0.0 == 0 && p.1.0 == 1,
        forall|t: int| 0 <= t < pairs.len() ==> #[trigger] pairs[t] == p,
    ensures
        pairs.len() == 0 ==> committed(ps, pairs) == ps,
        pairs.len() > 0 ==> committed(ps, pairs) == seq![p.0.1, p.1.1],
    decreases pairs.len(),
{
    if pairs.len() > 0 {
        let init = pairs.drop_last();
        assert forall|t: int| 0 <= t < init.len() implies #[trigger] init[t] == p by {
            assert(init[t] == pairs[t]);
        }
        lemma_committed_same_pair(ps, init, p);
        assert(write_pair(committed(ps, init), p) =~= seq![p.0.1, p.1.1]);
    }
}

/// The tick of a store of two particles that reach no wall: the result is
/// the moved pair, exchanged where it collides.
proof fn lemma_two_particle_tick(ps: Seq<Particle>, dt: int, side: int)
    requires
        ps.len() == 2,
        forall|k: int| 0 <= k < 2 ==> (#[trigger] ps[k]).can_advance(dt),
        forall|k: int| 0 <= k < 2 ==> clear_of_walls(#[trigger] ps[k], dt),
    ensures
        tick(ps, dt, side) == seq![ps[0].moved(dt), ps[1].moved(dt)]
            || tick(ps, dt, side) == seq![exchanged(ps[0].moved(dt), ps[1].moved(dt)).0,
                exchanged(ps[0].moved(dt), ps[1].moved(dt)).1],
{
    let adv = advanced_all(ps, dt);
    assert(clear_of_walls(ps[0], dt) && clear_of_walls(ps[1], dt));
    assert(ps[0].can_advance(dt) && ps[1].can_advance(dt));
    lemma_clear_advance(ps[0], dt);
    lemma_clear_advance(ps[1], dt);
    assert(adv[0] == ps[0].moved(dt));
    assert(adv[1] == ps[1].moved(dt));
    assert(adv =~= seq![ps[0].moved(dt), ps[1].moved(dt)]);
    let cands = candidate_pairs(adv, side);
    lemma_candidates_of_store(adv, side);
    let p: Pair = ((0usize, adv[0]), (1usize, adv[1]));
    let res = resolved_all(cands);
    assert forall|t: int| 0 <= t < res.len() implies #[trigger] res[t] == resolved(p) by {
        assert(entry_of(adv, cands[t].0) && entry_of(adv, cands[t].1) && cands[t].0.0 < cands[t].1.0);
        assert(cands[t] == p);
    }
    lemma_committed_same_pair(adv, res, resolved(p));
}

/// Momentum through a whole tick: a store of two particles of equal mass
/// that reach no wall during the tick keeps its total momentum on each axis.
pub proof fn lemma_isolated_pair_keeps_momentum(ps: Seq<Particle>, dt: int, side: int)
    requires
        ps.len() == 2,
        ps[0].mass == ps[1].mass,
        forall|k: int| 0 <= k < 2 ==> (#[trigger] ps[k]).can_advance(dt),
        forall|k: int| 0 <= k < 2 ==> clear_of_walls(#[trigger] ps[k], dt),
    ensures
        tick(ps, dt, side).len() == 2,
        tick(ps, dt, side)[0].mass * tick(ps, dt, side)[0].vx + tick(ps, dt, side)[1].mass * tick(ps, dt, side)[1].vx
            == ps[0].mass * ps[0].vx + ps[1].mass * ps[1].vx,
        tick(ps, dt, side)[0].mass * tick(ps, dt, side)[0].vy + tick(ps, dt, side)[1].mass * tick(ps, dt, side)[1].vy
            == ps[0].mass * ps[0].vy + ps[1].mass * ps[1].vy,
{
    assert(ps[0].can_advance(dt) && ps[1].can_advance(dt));
    assert(clear_of_walls(ps[0], dt) && clear_of_walls(ps[1], dt));
    let a = ps[0].moved(dt);
    let b = ps[1].moved(dt);
    lemma_clear_advance(ps[0], dt);
    lemma_clear_advance(ps[1], dt);
    lemma_two_particle_tick(ps, dt, side);
    lemma_exchange_conserves_momentum(a, b);
}

/// Kinetic energy through a whole tick: a store of two particles of equal
/// mass that reach no wall during the tick keeps its kinetic energy, wherever
/// the exchange of the moved pair involves no rounding.
pub proof fn lemma_isolated_pair_keeps_energy(ps: Seq<Particle>, dt: int, side: int)
    requires
        ps.len() == 2,
        ps[0].mass == ps[1].mass,
        forall|k: int| 0 <= k < 2 ==> (#[trigger] ps[k]).can_advance(dt),
        forall|k: int| 0 <= k < 2 ==> clear_of_walls(#[trigger] ps[k], dt),
        exact_exchange(ps[0].moved(dt), ps[1].moved(dt)),
    ensures
        tick(ps, dt, side).len() == 2,
        energy(tick(ps, dt, side)[0]) + energy(tick(ps, dt, side)[1]) == energy(ps[0]) + energy(ps[1]),
{
    assert(ps[0].can_advance(dt) && ps[1].can_advance(dt));
    assert(clear_of_walls(ps[0], dt) && clear_of_walls(ps[1], dt));
    let a = ps[0].moved(dt);
    let b = ps[1].moved(dt);
    lemma_clear_advance(ps[0], dt);
    lemma_clear_advance(ps[1], dt);
    lemma_two_particle_tick(ps, dt, side);
    lemma_exchange_conserves_energy(a, b);
}

/// Two pairs name a common slot.
pub open spec fn shares_slot(p: Pair, q: Pair) -> bool {
    p.0.0 == q.0.0 || p.0.0 == q.1.0 || p.1.0 == q.0.0 || p.1.0 == q.1.0
}

/// Each slot meets at most one partner: pairs that share a slot are the same
/// pair (listed once per shared cell).
pub open spec fn single_partner(pairs: Seq<Pair>) -> bool {
    forall|t1: int, t2: int| 0 <= t1 < pairs.len() && 0 <= t2 < pairs.len() && shares_slot(#[trigger] pairs[t1], #[trigger] pairs[t2])
        ==> pairs[t1] == pairs[t2]
}

/// The two slots of `p` hold either the pair as listed or the pair as resolved.
pub open spec fn pair_state(ps: Seq<Particle>, p: Pair) -> bool {
    (ps[p.0.0 as int] == p.0.1 && ps[p.1.0 as int] == p.1.1)
        || (ps[p.0.0 as int] == resolved(p).0.1 && ps[p.1.0 as int] == resolved(p).1.1)
}

proof fn lemma_commit_energy(adv: Seq<Particle>, cands: Seq<Pair>, n: int)
    requires
        0 <= n <= cands.len(),
        pairs_of_store(adv, cands),
        single_partner(cands),
        forall|t: int| 0 <= t < cands.len() ==> pair_wf(#[trigger] cands[t]),
        forall|t: int| 0 <= t < cands.len() ==> (#[trigger] cands[t]).0.1.mass == cands[t].1.1.mass,
        forall|t: int| 0 <= t < cands.len() ==> exact_exchange((#[trigger] cands[t]).0.1, cands[t].1.1),
    ensures
        committed(adv, resolved_all(cands).take(n)).len() == adv.len(),
        total_energy(committed(adv, resolved_all(cands).take(n))) == total_energy(adv),
        forall|t: int| 0 <= t < cands.len() ==> pair_state(committed(adv, resolved_all(cands).take(n)), #[trigger] cands[t]),
    decreases n,
{
    let res = resolved_all(cands);
    if n == 0 {
        assert(res.take(0) =~= Seq::<Pair>::empty());
        assert forall|t: int| 0 <= t < cands.len() implies pair_state(adv, #[trigger] cands[t]) by {
            assert(entry_of(adv, cands[t].0) && entry_of(adv, cands[t].1));
        }
    } else {
        lemma_commit_energy(adv, cands, n - 1);
        let prev = committed(adv, res.take(n - 1));
        assert(res.take(n).drop_last() =~= res.take(n - 1));
        let p = cands[n - 1];
        let r = res[n - 1];
        assert(r == resolved(p));
        assert(res.take(n).last() == r);
        let cur = committed(adv, res.take(n));
        assert(cur == write_pair(prev, r));
        let i = p.0.0 as int;
        let j = p.1.0 as int;
        assert(entry_of(adv, p.0) && entry_of(adv, p.1) && i < j);
        let mid = prev.update(i, r.0.1);
        assert(cur == mid.update(j, r.1.1));
        let f = |q: Particle| energy(q);
        lemma_sum_update(prev, i, r.0.1, f);
        lemma_sum_update(mid, j, r.1.1, f);
        assert(mid[j] == prev[j]);
        assert(pair_state(prev, p));
        assert(pair_wf(p));
        lemma_exchange_conserves_energy(p.0.1, p.1.1);
        assert(energy(r.0.1) + energy(r.1.1) == energy(prev[i]) + energy(prev[j]));
        assert forall|t: int| 0 <= t < cands.len() implies pair_state(cur, #[trigger] cands[t]) by {
            let q = cands[t];
            assert(pair_state(prev, q));
            assert(entry_of(adv, q.0) && entry_of(adv, q.1));
            if shares_slot(q, p) {
                assert(q == p);
            } else {
                assert(cur[q.0.0 as int] == prev[q.0.0 as int]);
                assert(cur[q.1.0 as int] == prev[q.1.0 as int]);
            }
        }
    }
}

/// Kinetic energy through a whole tick of a population: where no particle
/// reaches a wall, all masses are equal, each particle meets at most one
/// partner among the candidate pairs, and no exchange involves rounding, the
/// tick keeps the total kinetic energy of the store.
pub proof fn lemma_population_keeps_energy(ps: Seq<Particle>, dt: int, side: int)
    requires
        ps.len() <= usize::MAX,
        forall|k: int| 0 <= k < ps.len() ==> (#[trigger] ps[k]).can_advance(dt),
        forall|k: int| 0 <= k < ps.len() ==> clear_of_walls(#[trigger] ps[k], dt),
        forall|j: int, k: int| 0 <= j < ps.len() && 0 <= k < ps.len() ==> (#[trigger] ps[j]).mass == (#[trigger] ps[k]).mass,
        single_partner(candidate_pairs(advanced_all(ps, dt), side)),
        forall|t: int| 0 <= t < candidate_pairs(advanced_all(ps, dt), side).len() ==> exact_exchange(
            (#[trigger] candidate_pairs(advanced_all(ps, dt), side)[t]).0.1,
            candidate_pairs(advanced_all(ps, dt), side)[t].1.1,
        ),
    ensures
        total_energy(tick(ps, dt, side)) == total_energy(ps),
{
    let adv = advanced_all(ps, dt);
    assert forall|k: int| 0 <= k < ps.len() implies (|q: Particle| energy(q))(#[trigger] adv[k]) == (|q: Particle| energy(q))(ps[k]) && adv[k].wf() by {
        assert(ps[k].can_advance(dt) && clear_of_walls(ps[k], dt));
        lemma_clear_advance(ps[k], dt);
    }
    lemma_sum_pointwise(adv, ps, |q: Particle| energy(q));
    let cands = candidate_pairs(adv, side);
    lemma_candidates_of_store(adv, side);
    assert forall|t: int| 0 <= t < cands.len() implies pair_wf(#[trigger] cands[t]) && cands[t].0.1.mass == cands[t].1.1.mass by {
        assert(entry_of(adv, cands[t].0) && entry_of(adv, cands[t].1));
        let (i, j) = (cands[t].0.0 as int, cands[t].1.0 as int);
        assert(adv[i].wf() && adv[j].wf());
        assert(ps[i].mass == ps[j].mass);
    }
    lemma_commit_energy(adv, cands, cands.len() as int);
    assert(resolved_all(cands).take(cands.len() as int) =~= resolved_all(cands));
}

} // verus!
