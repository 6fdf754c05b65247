use vstd::prelude::*;
use crate::particle::{Particle, LIMIT, energy};
use crate::grid::all_wf;

verus! {

/// The sum of `f` over a sequence of particles.
pub open spec fn sum_of(ps: Seq<Particle>, f: spec_fn(Particle) -> int) -> int
    decreases ps.len(),
{
    if ps.len() == 0 {
        0
    } else {
        sum_of(ps.drop_last(), f) + f(ps.last())
    }
}

/// The area of a particle, in units of pi.
pub open spec fn area_of(p: Particle) -> int {
    p.radius * p.radius
}

/// The area that a store covers, in units of pi.
pub open spec fn total_area(ps: Seq<Particle>) -> int {
    sum_of(ps, |p: Particle| area_of(p))
}

/// The mass of a store, in units of pi.
pub open spec fn total_mass(ps: Seq<Particle>) -> int {
    sum_of(ps, |p: Particle| p.mass as int)
}

/// Twice the kinetic energy of a store, in units of pi.
pub open spec fn total_energy(ps: Seq<Particle>) -> int {
    sum_of(ps, |p: Particle| energy(p))
}

/// The wall impulse that a store has accumulated.
pub open spec fn total_momentum(ps: Seq<Particle>) -> int {
    sum_of(ps, |p: Particle| p.momentum_transferred as int)
}

proof fn lemma_sum_take_step(ps: Seq<Particle>, k: int, f: spec_fn(Particle) -> int)
    requires
        0 <= k < ps.len(),
    ensures
        sum_of(ps.take(k + 1), f) == sum_of(ps.take(k), f) + f(ps[k]),
{
    assert(ps.take(k + 1).drop_last() =~= ps.take(k));
}

proof fn lemma_sum_prefix_le(ps: Seq<Particle>, j: int, f: spec_fn(Particle) -> int)
    requires
        0 <= j <= ps.len(),
        forall|i: int| 0 <= i < ps.len() ==> f(#[trigger] ps[i]) >= 0,
    ensures
        sum_of(ps.take(j), f) <= sum_of(ps, f),
    decreases ps.len() - j,
{
    if j == ps.len() {
        assert(ps.take(j) =~= ps);
    } else {
        lemma_sum_take_step(ps, j, f);
        lemma_sum_prefix_le(ps, j + 1, f);
    }
}

proof fn lemma_sum_remove(ps: Seq<Particle>, i: int, f: spec_fn(Particle) -> int)
    requires
        0 <= i < ps.len(),
    ensures
        sum_of(ps, f) == sum_of(ps.remove(i), f) + f(ps[i]),
    decreases ps.len(),
{
    if i == ps.len() - 1 {
        assert(ps.remove(i) =~= ps.drop_last());
    } else {
        let r = ps.remove(i);
        assert(r.drop_last() =~= ps.drop_last().remove(i));
        assert(r.last() == ps.last());
        lemma_sum_remove(ps.drop_last(), i, f);
    }
}

/// Replacing one element changes the sum by the difference of the two terms.
pub proof fn lemma_sum_update(ps: Seq<Particle>, i: int, x: Particle, f: spec_fn(Particle) -> int)
    requires
        0 <= i < ps.len(),
    ensures
        sum_of(ps.update(i, x), f) == sum_of(ps, f) - f(ps[i]) + f(x),
    decreases ps.len(),
{
    let u = ps.update(i, x);
    if i == ps.len() - 1 {
        assert(u.drop_last() =~= ps.drop_last());
    } else {
        assert(u.drop_last() =~= ps.drop_last().update(i, x));
        lemma_sum_update(ps.drop_last(), i, x, f);
    }
}

/// Sequences whose elements have equal terms have equal sums.
pub proof fn lemma_sum_pointwise(a: Seq<Particle>, b: Seq<Particle>, f: spec_fn(Particle) -> int)
    requires
        a.len() == b.len(),
        forall|k: int| 0 <= k < a.len() ==> f(#[trigger] a[k]) == f(b[k]),
    ensures
        sum_of(a, f) == sum_of(b, f),
    decreases a.len(),
{
    if a.len() > 0 {
        assert forall|k: int| 0 <= k < a.drop_last().len() implies f(#[trigger] a.drop_last()[k]) == f(b.drop_last()[k]) by {
            assert(a.drop_last()[k] == a[k] && b.drop_last()[k] == b[k]);
        }
        lemma_sum_pointwise(a.drop_last(), b.drop_last(), f);
    }
}

proof fn lemma_sum_permutation(a: Seq<Particle>, b: Seq<Particle>, f: spec_fn(Particle) -> int)
    requires
        a.to_multiset() =~= b.to_multiset(),
    ensures
        sum_of(a, f) == sum_of(b, f),
    decreases a.len(),
{
    broadcast use vstd::seq_lib::group_to_multiset_ensures;
    a.to_multiset_ensures();
    b.to_multiset_ensures();
    if a.len() == 0 {
        assert(b.len() == 0);
        assert(b =~= Seq::<Particle>::empty());
    } else {
        let x = a.last();
        let init = a.drop_last();
        assert(init.push(x) =~= a);
        assert(a.to_multiset().count(x) > 0);
        assert(b.contains(x));
        let k = choose|k: int| 0 <= k < b.len() && b[k] == x;
        assert(b.remove(k).to_multiset() =~= init.to_multiset());
        lemma_sum_permutation(init, b.remove(k), f);
        lemma_sum_remove(b, k, f);
    }
}

/// The totals of a store (covered area, mass, kinetic energy and wall
/// impulse) depend only on which particles it holds, not on their order.
pub proof fn lemma_totals_order_independent(a: Seq<Particle>, b: Seq<Particle>)
    requires
        a.to_multiset() =~= b.to_multiset(),
    ensures
        total_area(a) == total_area(b),
        total_mass(a) == total_mass(b),
        total_energy(a) == total_energy(b),
        total_momentum(a) == total_momentum(b),
{
    lemma_sum_permutation(a, b, |p: Particle| area_of(p));
    lemma_sum_permutation(a, b, |p: Particle| p.mass as int);
    lemma_sum_permutation(a, b, |p: Particle| energy(p));
    lemma_sum_permutation(a, b, |p: Particle| p.momentum_transferred as int);
}

impl Particle {
    /// Twice the kinetic energy of the particle, in units of pi:
    /// `mass * (vx * vx + vy * vy)`.
    pub fn get_kinetic_energy(&self) -> (r: u128)
        requires
            self.wf(),
        ensures
            r == energy(*self),
            r <= 2 * LIMIT * LIMIT * LIMIT * LIMIT,
    {
        let vx = self.vx as i128;
        let vy = self.vy as i128;
        proof {
            assert(0 <= vx * vx <= LIMIT * LIMIT) by (nonlinear_arith) requires -LIMIT <= vx <= LIMIT;
            assert(0 <= vy * vy <= LIMIT * LIMIT) by (nonlinear_arith) requires -LIMIT <= vy <= LIMIT;
            assert(0 <= self.mass * (vx * vx + vy * vy) <= 2 * LIMIT * LIMIT * LIMIT * LIMIT) by (nonlinear_arith)
                requires self.mass == self.radius * self.radius, 0 < self.radius <= LIMIT,
                    0 <= vx * vx + vy * vy <= 2 * LIMIT * LIMIT;
        }
        let speed_sq = (vx * vx + vy * vy) as u128;
        (self.mass as u128) * speed_sq
    }

    /// Twice the kinetic energy of a store, in units of pi; `None` where the
    /// total exceeds `u128::MAX`.
    pub fn get_total_kinetic_energy(particles: &[Particle]) -> (r: Option<u128>)
        requires
            all_wf(particles@),
        ensures
            r is None <==> total_energy(particles@) > u128::MAX,
            r is Some ==> r->Some_0 == total_energy(particles@),
    {
        let ghost ps = particles@;
        proof {
            assert forall|i: int| 0 <= i < ps.len() implies energy(#[trigger] ps[i]) >= 0 by {
                let p = ps[i];
                assert(p.wf());
                assert(p.mass * (p.vx * p.vx + p.vy * p.vy) >= 0) by (nonlinear_arith)
                    requires p.mass == p.radius * p.radius;
            }
        }
        let mut acc: u128 = 0;
        let mut k: usize = 0;
        while k < particles.len()
            invariant
                ps == particles@,
                all_wf(ps),
                forall|i: int| 0 <= i < ps.len() ==> energy(#[trigger] ps[i]) >= 0,
                k <= ps.len(),
                acc == total_energy(ps.take(k as int)),
            decreases ps.len() - k,
        {
            let e = particles[k].get_kinetic_energy();
            proof {
                lemma_sum_take_step(ps, k as int, |p: Particle| energy(p));
            }
            if acc > u128::MAX - e {
                proof {
                    lemma_sum_prefix_le(ps, k + 1, |p: Particle| energy(p));
                }
                return None;
            }
            acc = acc + e;
            k = k + 1;
        }
        assert(ps.take(ps.len() as int) =~= ps);
        Some(acc)
    }

    /// The area that a store covers, in units of pi: the sum of the squared
    /// radii.
    pub fn get_area(particles: &[Particle]) -> (r: u128)
        requires
            all_wf(particles@),
        ensures
            r == total_area(particles@),
    {
        let ghost ps = particles@;
        let mut acc: u128 = 0;
        let mut k: usize = 0;
        while k < particles.len()
            invariant
                ps == particles@,
                all_wf(ps),
                k <= ps.len(),
                acc == total_area(ps.take(k as int)),
                acc <= k * (LIMIT * LIMIT),
            decreases ps.len() - k,
        {
            let p = particles[k];
            assert(p.wf());
            proof {
                lemma_sum_take_step(ps, k as int, |p: Particle| area_of(p));
                assert(0 < p.radius * p.radius <= LIMIT * LIMIT) by (nonlinear_arith)
                    requires 0 < p.radius <= LIMIT;
                assert((k + 1) * (LIMIT * LIMIT) == k * (LIMIT * LIMIT) + LIMIT * LIMIT) by (nonlinear_arith);
                assert((k + 1) * (LIMIT * LIMIT) <= usize::MAX * (LIMIT * LIMIT)) by (nonlinear_arith)
                    requires k + 1 <= usize::MAX;
                
            }
            acc = acc + (p.radius as u128) * (p.radius as u128);
            k = k + 1;
        }
        assert(ps.take(ps.len() as int) =~= ps);
        acc
    }

    /// The wall impulse that a store has accumulated; `None` where the total
    /// exceeds `u128::MAX`.
    pub fn get_total_momentum_transferred(particles: &[Particle]) -> (r: Option<u128>)
        ensures
            r is None <==> total_momentum(particles@) > u128::MAX,
            r is Some ==> r->Some_0 == total_momentum(particles@),
    {
        let ghost ps = particles@;
        let mut acc: u128 = 0;
        let mut k: usize = 0;
        while k < particles.len()
            invariant
                ps == particles@,
                forall|i: int| 0 <= i < ps.len() ==> (#[trigger] ps[i]).momentum_transferred >= 0,
                k <= ps.len(),
                acc == total_momentum(ps.take(k as int)),
            decreases ps.len() - k,
        {
            let m = particles[k].momentum_transferred;
            proof {
                lemma_sum_take_step(ps, k as int, |p: Particle| p.momentum_transferred as int);
            }
            if acc > u128::MAX - m {
                proof {
                    lemma_sum_prefix_le(ps, k + 1, |p: Particle| p.momentum_transferred as int);
                }
                return None;
            }
            acc = acc + m;
            k = k + 1;
        }
        assert(ps.take(ps.len() as int) =~= ps);
        Some(acc)
    }
}

} // verus!
