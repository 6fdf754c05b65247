use vstd::prelude::*;
use crate::particle::{Particle, LIMIT, within};
use crate::collision::{Entry, Pair, overlapping};
use vstd::arithmetic::div_mod::{lemma_fundamental_div_mod, lemma_mod_pos_bound};

verus! {

/// Number of cells per side that the search for a side count never exceeds.
pub const MAX_GRID_SIDE: usize = 200;

/// The population, in thousandths, up to which two cells per side suffice.
pub const BASE_THRESHOLD: u128 = 19_627;

/// Growth of the population threshold from one side count to the next, as a
/// ratio of two integers: the base of the logarithm that fits the side count.
pub const GROWTH_NUM: u128 = 16_572_725;
pub const GROWTH_DEN: u128 = 10_000_000;

/// The side count that the search reaches from side `g` with the threshold
/// `t`: it grows by one while the population exceeds the threshold.
pub open spec fn side_from(n: nat, g: nat, t: nat) -> nat
    decreases MAX_GRID_SIDE - g,
{
    if n * 1000 <= t || g >= MAX_GRID_SIDE {
        g
    } else {
        side_from(n, g + 1, t * GROWTH_NUM as nat / GROWTH_DEN as nat)
    }
}

/// The number of cells per side of the grid for a population of `n`: the
/// least side count `g >= 2` whose threshold `BASE_THRESHOLD * GROWTH^(g - 2)`
/// (in thousandths) is at least `n`, so that `g` grows with the logarithm of
/// `n`.
pub open spec fn spec_grid_size(n: nat) -> nat {
    side_from(n, 2, BASE_THRESHOLD as nat)
}

proof fn lemma_side_from_range(n: nat, g: nat, t: nat)
    requires
        2 <= g <= MAX_GRID_SIDE,
    ensures
        g <= side_from(n, g, t) <= MAX_GRID_SIDE,
    decreases MAX_GRID_SIDE - g,
{
    if !(n * 1000 <= t || g >= MAX_GRID_SIDE) {
        lemma_side_from_range(n, g + 1, t * GROWTH_NUM as nat / GROWTH_DEN as nat);
    }
}

/// The side count of the grid for a population of `n`.
pub fn grid_size(n: usize) -> (g: usize)
    ensures
        g == spec_grid_size(n as nat),
        2 <= g <= MAX_GRID_SIDE,
{
    let scaled: u128 = (n as u128) * 1000;
    let mut g: usize = 2;
    let mut t: u128 = BASE_THRESHOLD;
    proof {
        lemma_side_from_range(n as nat, 2, BASE_THRESHOLD as nat);
    }
    while scaled > t && g < MAX_GRID_SIDE
        invariant
            2 <= g <= MAX_GRID_SIDE,
            scaled == n * 1000,
            side_from(n as nat, g as nat, t as nat) == spec_grid_size(n as nat),
        decreases MAX_GRID_SIDE - g,
    {
        g = g + 1;
        t = t * GROWTH_NUM / GROWTH_DEN;
    }
    proof {
        lemma_side_from_range(n as nat, g as nat, t as nat);
    }
    g
}

/// The low edge of column (or row) `i` of a grid of `g` cells per side over
/// a box of side `side`; the edges of consecutive cells meet, the first is
/// `0` and the last is `side`.
pub open spec fn cell_edge(i: int, g: int, side: int) -> int {
    i * side / g
}

/// The bounding circle of `p` meets the closed rectangle of cell `(i, j)`.
pub open spec fn in_cell(p: Particle, i: int, j: int, g: int, side: int) -> bool {
    &&& p.x + p.radius >= cell_edge(i, g, side)
    &&& p.x - p.radius <= cell_edge(i + 1, g, side)
    &&& p.y + p.radius >= cell_edge(j, g, side)
    &&& p.y - p.radius <= cell_edge(j + 1, g, side)
}

/// The entries of the first `k` particles that cell `(i, j)` holds, in the
/// order of the store.
pub open spec fn cell_members(ps: Seq<Particle>, k: int, i: int, j: int, g: int, side: int) -> Seq<Entry>
    decreases k,
{
    if k <= 0 {
        seq![]
    } else if in_cell(ps[k - 1], i, j, g, side) {
        cell_members(ps, k - 1, i, j, g, side).push(((k - 1) as usize, ps[k - 1]))
    } else {
        cell_members(ps, k - 1, i, j, g, side)
    }
}

/// The pairs whose first member is the `k`-th member of a cell.
pub open spec fn row_pairs(m: Seq<Entry>, k: int) -> Seq<Pair> {
    Seq::new((m.len() - k - 1) as nat, |t: int| (m[k], m[k + 1 + t]))
}

/// The pairs whose first member is among the first `k` members of a cell.
pub open spec fn rows_upto(m: Seq<Entry>, k: int) -> Seq<Pair>
    decreases k,
{
    if k <= 0 {
        seq![]
    } else {
        rows_upto(m, k - 1) + row_pairs(m, k - 1)
    }
}

/// Every unordered pair of distinct members of a cell, in member order.
pub open spec fn cell_pairs(m: Seq<Entry>) -> Seq<Pair> {
    rows_upto(m, m.len() as int)
}

/// The members of cell number `c`, cells being numbered column by column.
pub open spec fn members_of_cell(ps: Seq<Particle>, c: int, g: int, side: int) -> Seq<Entry> {
    cell_members(ps, ps.len() as int, c / g, c % g, g, side)
}

/// The candidate pairs of the first `c` cells.
pub open spec fn pairs_upto(ps: Seq<Particle>, c: int, g: int, side: int) -> Seq<Pair>
    decreases c,
{
    if c <= 0 {
        seq![]
    } else {
        pairs_upto(ps, c - 1, g, side) + cell_pairs(members_of_cell(ps, c - 1, g, side))
    }
}

/// All candidate pairs of a store in a box of side `side`.
pub open spec fn candidate_pairs(ps: Seq<Particle>, side: int) -> Seq<Pair> {
    let g = spec_grid_size(ps.len()) as int;
    pairs_upto(ps, g * g, g, side)
}

pub open spec fn all_wf(ps: Seq<Particle>) -> bool {
    forall|k: int| 0 <= k < ps.len() ==> (#[trigger] ps[k]).wf()
}

/// The entries of the particles whose bounding circle meets cell `(i, j)`.
fn collect_cell(particles: &[Particle], i: usize, j: usize, g: usize, box_size: i64) -> (r: Vec<Entry>)
    requires
        all_wf(particles@),
        0 < box_size <= LIMIT,
        i < g,
        j < g,
        2 <= g <= MAX_GRID_SIDE,
    ensures
        r@ == cell_members(particles@, particles@.len() as int, i as int, j as int, g as int, box_size as int),
{
    proof {
        assert((i + 1) * box_size <= MAX_GRID_SIDE * LIMIT) by (nonlinear_arith)
            requires i < g <= MAX_GRID_SIDE, 0 < box_size <= LIMIT;
        assert((j + 1) * box_size <= MAX_GRID_SIDE * LIMIT) by (nonlinear_arith)
            requires j < g <= MAX_GRID_SIDE, 0 < box_size <= LIMIT;
        assert(i * box_size <= (i + 1) * box_size) by (nonlinear_arith) requires 0 < box_size;
        assert(j * box_size <= (j + 1) * box_size) by (nonlinear_arith) requires 0 < box_size;
        assert(i * box_size >= 0) by (nonlinear_arith) requires 0 < box_size;
        assert(j * box_size >= 0) by (nonlinear_arith) requires 0 < box_size;
    }
    let x0: i64 = (i as i64 * box_size) / g as i64;
    let x1: i64 = ((i as i64 + 1) * box_size) / g as i64;
    let y0: i64 = (j as i64 * box_size) / g as i64;
    let y1: i64 = ((j as i64 + 1) * box_size) / g as i64;
    let mut members: Vec<Entry> = Vec::new();
    let mut k: usize = 0;
    while k < particles.len()
        invariant
            k <= particles@.len(),
            all_wf(particles@),
            x0 == cell_edge(i as int, g as int, box_size as int),
            x1 == cell_edge(i + 1, g as int, box_size as int),
            y0 == cell_edge(j as int, g as int, box_size as int),
            y1 == cell_edge(j + 1, g as int, box_size as int),
            members@ == cell_members(particles@, k as int, i as int, j as int, g as int, box_size as int),
        decreases particles@.len() - k,
    {
        let p = particles[k];
        assert(p.wf());
        if p.x + p.radius >= x0 && p.x - p.radius <= x1 && p.y + p.radius >= y0 && p.y - p.radius <= y1 {
            members.push((k, p));
        }
        k = k + 1;
    }
    members
}

/// The grid of a store: for each cell, column by column, the entries of the
/// particles whose bounding circle meets it. A particle that straddles a
/// cell border stands in every cell it meets.
pub fn build_grid(particles: &[Particle], box_size: i64) -> (grid: Vec<Vec<Entry>>)
    requires
        all_wf(particles@),
        0 < box_size <= LIMIT,
    ensures
        grid@.len() == spec_grid_size(particles@.len() as nat) * spec_grid_size(particles@.len() as nat),
        forall|c: int| 0 <= c < grid@.len() ==> (#[trigger] grid@[c])@ == members_of_cell(
            particles@, c, spec_grid_size(particles@.len() as nat) as int, box_size as int),
{
    let g = grid_size(particles.len());
    let ghost gi = g as int;
    let mut grid: Vec<Vec<Entry>> = Vec::new();
    let mut i: usize = 0;
    while i < g
        invariant
            i <= g,
            gi == g,
            2 <= g <= MAX_GRID_SIDE,
            g == spec_grid_size(particles@.len() as nat),
            all_wf(particles@),
            0 < box_size <= LIMIT,
            grid@.len() == i * g,
            forall|c: int| 0 <= c < grid@.len() ==> (#[trigger] grid@[c])@ == members_of_cell(
                particles@, c, gi, box_size as int),
        decreases g - i,
    {
        let mut j: usize = 0;
        while j < g
            invariant
                i < g,
                j <= g,
                gi == g,
                2 <= g <= MAX_GRID_SIDE,
                all_wf(particles@),
                0 < box_size <= LIMIT,
                grid@.len() == i * g + j,
                forall|c: int| 0 <= c < grid@.len() ==> (#[trigger] grid@[c])@ == members_of_cell(
                    particles@, c, gi, box_size as int),
            decreases g - j,
        {
            let cell = collect_cell(particles, i, j, g, box_size);
            proof {
                let c = i * gi + j;
                assert(c / gi == i && c % gi == j) by (nonlinear_arith)
                    requires c == i * gi + j, 0 <= j < gi, 0 <= i;
            }
            grid.push(cell);
            j = j + 1;
        }
        assert((i + 1) * g == i * g + g) by (nonlinear_arith);
        i = i + 1;
    }
    grid
}

proof fn lemma_few_members_no_pairs(m: Seq<Entry>)
    requires
        m.len() < 2,
    ensures
        cell_pairs(m) == Seq::<Pair>::empty(),
{
    if m.len() == 1 {
        assert(rows_upto(m, 0) == Seq::<Pair>::empty());
        assert(row_pairs(m, 0) =~= Seq::<Pair>::empty());
        assert(rows_upto(m, 1) =~= Seq::<Pair>::empty());
    }
}

/// Appends every unordered pair of distinct members of a cell.
fn push_cell_pairs(pairs: &mut Vec<Pair>, members: &Vec<Entry>)
    ensures
        final(pairs)@ == old(pairs)@ + cell_pairs(members@),
{
    let n = members.len();
    let mut k: usize = 0;
    while k < n
        invariant
            n == members@.len(),
            k <= n,
            pairs@ == old(pairs)@ + rows_upto(members@, k as int),
        decreases n - k,
    {
        let ghost before = pairs@;
        let mut l: usize = k + 1;
        while l < n
            invariant
                n == members@.len(),
                k < n,
                k + 1 <= l <= n,
                pairs@ == before + row_pairs(members@, k as int).subrange(0, l - k - 1),
            decreases n - l,
        {
            pairs.push((members[k], members[l]));
            assert(row_pairs(members@, k as int).subrange(0, l - k) =~=
                row_pairs(members@, k as int).subrange(0, l - k - 1).push((members@[k as int], members@[l as int])));
            l = l + 1;
        }
        assert(row_pairs(members@, k as int).subrange(0, n - k - 1) =~= row_pairs(members@, k as int));
        assert(rows_upto(members@, k + 1) == rows_upto(members@, k as int) + row_pairs(members@, k as int));
        assert(pairs@ =~= old(pairs)@ + rows_upto(members@, k + 1));
        k = k + 1;
    }
}

impl Particle {
    /// The candidate pairs of a store: the store is bucketed into a uniform grid
    /// whose side count grows with the logarithm of the population, and every
    /// unordered pair of distinct members of each cell, column by column, is a
    /// candidate. A pair that shares several cells is a candidate once per cell.
    pub fn generate_pairs(particles: &[Particle], box_size: i64) -> (r: Vec<Pair>)
        requires
            all_wf(particles@),
            0 < box_size <= LIMIT,
        ensures
            r@ == candidate_pairs(particles@, box_size as int),
    {
        let grid = build_grid(particles, box_size);
        let ghost g = spec_grid_size(particles@.len() as nat) as int;
        let mut pairs: Vec<Pair> = Vec::new();
        let mut c: usize = 0;
        while c < grid.len()
            invariant
                c <= grid@.len(),
                grid@.len() == g * g,
                forall|d: int| 0 <= d < grid@.len() ==> (#[trigger] grid@[d])@ == members_of_cell(
                    particles@, d, g, box_size as int),
                pairs@ == pairs_upto(particles@, c as int, g, box_size as int),
            decreases grid@.len() - c,
        {
            let ghost cell = grid@[c as int];
            if grid[c].len() >= 2 {
                push_cell_pairs(&mut pairs, &grid[c]);
            } else {
                proof {
                    lemma_few_members_no_pairs(cell@);
                    assert(pairs@ =~= pairs@ + cell_pairs(cell@));
                }
            }
            c = c + 1;
        }
        pairs
    }
}

proof fn lemma_members_shape(ps: Seq<Particle>, n: int, i: int, j: int, g: int, side: int)
    requires
        0 <= n <= ps.len(),
        ps.len() <= usize::MAX,
    ensures
        forall|a: int| 0 <= a < cell_members(ps, n, i, j, g, side).len() ==> {
            let e = #[trigger] cell_members(ps, n, i, j, g, side)[a];
            0 <= e.0 < n && e.1 == ps[e.0 as int]
        },
        forall|a: int, b: int| 0 <= a < b < cell_members(ps, n, i, j, g, side).len() ==>
            (#[trigger] cell_members(ps, n, i, j, g, side)[a]).0 < (#[trigger] cell_members(ps, n, i, j, g, side)[b]).0,
        forall|k: int| 0 <= k < n && in_cell(ps[k], i, j, g, side) ==>
            cell_members(ps, n, i, j, g, side).contains((k as usize, #[trigger] ps[k])),
    decreases n,
{
    if n > 0 {
        lemma_members_shape(ps, n - 1, i, j, g, side);
        let prev = cell_members(ps, n - 1, i, j, g, side);
        let cur = cell_members(ps, n, i, j, g, side);
        if in_cell(ps[n - 1], i, j, g, side) {
            let e: Entry = ((n - 1) as usize, ps[n - 1]);
            assert(cur == prev.push(e));
            assert(e.0 == n - 1);
            assert forall|a: int| 0 <= a < cur.len() implies {
                let f = #[trigger] cur[a];
                0 <= f.0 < n && f.1 == ps[f.0 as int]
            } by {
                if a < prev.len() {
                    assert(cur[a] == prev[a]);
                }
            }
            assert forall|a: int, b: int| 0 <= a < b < cur.len() implies
                (#[trigger] cur[a]).0 < (#[trigger] cur[b]).0 by {
                assert(cur[a] == prev[a]);
                if b < prev.len() {
                    assert(cur[b] == prev[b]);
                }
            }
        } else {
            assert(cur == prev);
        }
        assert forall|k: int| 0 <= k < n && in_cell(ps[k], i, j, g, side) implies
            cur.contains((k as usize, #[trigger] ps[k])) by {
            if k < n - 1 {
                let a = choose|a: int| 0 <= a < prev.len() && prev[a] == (k as usize, ps[k]);
                assert(cur[a] == prev[a]);
            } else {
                assert(cur[prev.len() as int] == (k as usize, ps[k]));
            }
        }
    }
}

/// Every particle whose bounding circle meets a cell stands among that
/// cell's members.
pub proof fn lemma_grid_coverage(ps: Seq<Particle>, k: int, i: int, j: int, g: int, side: int)
    requires
        0 <= k < ps.len(),
        ps.len() <= usize::MAX,
        in_cell(ps[k], i, j, g, side),
    ensures
        cell_members(ps, ps.len() as int, i, j, g, side).contains((k as usize, ps[k])),
{
    lemma_members_shape(ps, ps.len() as int, i, j, g, side);
}

proof fn lemma_rows_contain(m: Seq<Entry>, n: int, a: int, b: int)
    requires
        0 <= a < n <= m.len(),
        a < b < m.len(),
    ensures
        rows_upto(m, n).contains((m[a], m[b])),
    decreases n,
{
    if a == n - 1 {
        let row = row_pairs(m, a);
        assert(row[b - a - 1] == (m[a], m[b]));
        assert((rows_upto(m, n - 1) + row)[rows_upto(m, n - 1).len() + b - a - 1] == (m[a], m[b]));
    } else {
        lemma_rows_contain(m, n - 1, a, b);
        let prev = rows_upto(m, n - 1);
        let t = choose|t: int| 0 <= t < prev.len() && prev[t] == (m[a], m[b]);
        assert((prev + row_pairs(m, n - 1))[t] == (m[a], m[b]));
    }
}

proof fn lemma_pairs_upto_contain(ps: Seq<Particle>, cs: int, c: int, g: int, side: int, p: Pair)
    requires
        0 <= c < cs,
        cell_pairs(members_of_cell(ps, c, g, side)).contains(p),
    ensures
        pairs_upto(ps, cs, g, side).contains(p),
    decreases cs,
{
    let prev = pairs_upto(ps, cs - 1, g, side);
    let last = cell_pairs(members_of_cell(ps, cs - 1, g, side));
    if c == cs - 1 {
        let t = choose|t: int| 0 <= t < last.len() && last[t] == p;
        assert((prev + last)[prev.len() + t] == p);
    } else {
        lemma_pairs_upto_contain(ps, cs - 1, c, g, side, p);
        let t = choose|t: int| 0 <= t < prev.len() && prev[t] == p;
        assert((prev + last)[t] == p);
    }
}

/// A coordinate in `[0, side]` lies in the closed span of some column.
proof fn lemma_column_of(px: int, g: int, side: int) -> (i: int)
    requires
        0 <= px <= side,
        g >= 1,
        side > 0,
    ensures
        0 <= i < g,
        cell_edge(i, g, side) <= px <= cell_edge(i + 1, g, side),
{
    if px == side {
        let i = g - 1;
        assert(i * side <= px * g) by (nonlinear_arith) requires i == g - 1, px == side, side > 0;
        lemma_fundamental_div_mod(i * side, g);
        lemma_mod_pos_bound(i * side, g);
        assert(cell_edge(i, g, side) <= px) by (nonlinear_arith)
            requires i * side == g * (i * side / g) + (i * side) % g, (i * side) % g >= 0,
                i * side <= px * g, g >= 1;
        assert((i + 1) * side / g == side) by (nonlinear_arith) requires i + 1 == g, g >= 1;
        i
    } else {
        let i = px * g / side;
        lemma_fundamental_div_mod(px * g, side);
        lemma_mod_pos_bound(px * g, side);
        assert(0 <= i < g) by (nonlinear_arith)
            requires px * g == side * i + (px * g) % side, 0 <= (px * g) % side < side, 0 <= px < side,
                g >= 1;
        assert(i * side <= px * g) by (nonlinear_arith)
            requires px * g == side * i + (px * g) % side, 0 <= (px * g) % side;
        assert(px * g <= (i + 1) * side) by (nonlinear_arith)
            requires px * g == side * i + (px * g) % side, (px * g) % side < side;
        lemma_fundamental_div_mod(i * side, g);
        lemma_mod_pos_bound(i * side, g);
        assert(cell_edge(i, g, side) <= px) by (nonlinear_arith)
            requires i * side == g * (i * side / g) + (i * side) % g, (i * side) % g >= 0,
                i * side <= px * g, g >= 1;
        lemma_fundamental_div_mod((i + 1) * side, g);
        lemma_mod_pos_bound((i + 1) * side, g);
        assert(px <= cell_edge(i + 1, g, side)) by (nonlinear_arith)
            requires (i + 1) * side == g * ((i + 1) * side / g) + ((i + 1) * side) % g,
                ((i + 1) * side) % g < g, px * g <= (i + 1) * side, g >= 1;
        i
    }
}

/// A point shared by the spans `[ca - ra, ca + ra]` and `[cb - rb, cb + rb]`
/// that lies between the two centres.
proof fn lemma_shared_point(ca: int, ra: int, cb: int, rb: int) -> (p: int)
    requires
        ra >= 0,
        rb >= 0,
        within(cb - ca, ra + rb),
    ensures
        ca - ra <= p <= ca + ra,
        cb - rb <= p <= cb + rb,
        (ca <= p <= cb) || (cb <= p <= ca),
{
    if ca <= cb {
        if ca + ra < cb { ca + ra } else { cb }
    } else {
        if cb + rb < ca { cb + rb } else { ca }
    }
}

proof fn lemma_overlap_spans(a: Particle, b: Particle)
    requires
        a.radius >= 0,
        b.radius >= 0,
        overlapping(a, b),
    ensures
        within(b.x - a.x, a.radius + b.radius),
        within(b.y - a.y, a.radius + b.radius),
{
    let dx = b.x - a.x;
    let dy = b.y - a.y;
    let rr = a.radius + b.radius;
    assert(within(dx, rr)) by (nonlinear_arith)
        requires dx * dx + dy * dy < rr * rr, rr >= 0;
    assert(within(dy, rr)) by (nonlinear_arith)
        requires dx * dx + dy * dy < rr * rr, rr >= 0;
}

/// Two particles of a store whose centres lie in the box and whose bounding
/// circles overlap share a cell, so the pair stands among the candidates.
pub proof fn lemma_pair_completeness(ps: Seq<Particle>, side: int, ia: int, ib: int)
    requires
        side > 0,
        0 <= ia < ib < ps.len(),
        ps.len() <= usize::MAX,
        ps[ia].radius >= 0,
        ps[ib].radius >= 0,
        0 <= ps[ia].x <= side && 0 <= ps[ia].y <= side,
        0 <= ps[ib].x <= side && 0 <= ps[ib].y <= side,
        overlapping(ps[ia], ps[ib]),
    ensures
        candidate_pairs(ps, side).contains(((ia as usize, ps[ia]), (ib as usize, ps[ib]))),
{
    let a = ps[ia];
    let b = ps[ib];
    let g = spec_grid_size(ps.len()) as int;
    lemma_side_from_range(ps.len(), 2, BASE_THRESHOLD as nat);
    lemma_overlap_spans(a, b);
    let px = lemma_shared_point(a.x as int, a.radius as int, b.x as int, b.radius as int);
    let py = lemma_shared_point(a.y as int, a.radius as int, b.y as int, b.radius as int);
    let i = lemma_column_of(px, g, side);
    let j = lemma_column_of(py, g, side);
    assert(in_cell(a, i, j, g, side) && in_cell(b, i, j, g, side));
    let c = i * g + j;
    assert(c / g == i && c % g == j) by (nonlinear_arith)
        requires c == i * g + j, 0 <= j < g, 0 <= i;
    assert(0 <= c < g * g) by (nonlinear_arith)
        requires c == i * g + j, 0 <= j < g, 0 <= i < g;
    let n = ps.len() as int;
    let m = members_of_cell(ps, c, g, side);
    lemma_members_shape(ps, n, i, j, g, side);
    let pa = choose|t: int| 0 <= t < m.len() && m[t] == (ia as usize, a);
    let pb = choose|t: int| 0 <= t < m.len() && m[t] == (ib as usize, b);
    if pb <= pa {
        if pb < pa {
            assert(m[pb].0 < m[pa].0);
        }
        assert(false);
    }
    lemma_rows_contain(m, m.len() as int, pa, pb);
    lemma_pairs_upto_contain(ps, g * g, c, g, side, (m[pa], m[pb]));
}

/// The entry names a slot of the store and holds the particle found there.
pub open spec fn entry_of(ps: Seq<Particle>, e: Entry) -> bool {
    0 <= e.0 < ps.len() && e.1 == ps[e.0 as int]
}

/// Every pair names two slots of the store, the lower one first, and holds
/// the particles found there.
pub open spec fn pairs_of_store(ps: Seq<Particle>, pairs: Seq<Pair>) -> bool {
    forall|t: int| 0 <= t < pairs.len() ==> {
        &&& entry_of(ps, (#[trigger] pairs[t]).0)
        &&& entry_of(ps, pairs[t].1)
        &&& pairs[t].0.0 < pairs[t].1.0
    }
}

proof fn lemma_rows_of_store(ps: Seq<Particle>, m: Seq<Entry>, n: int)
    requires
        0 <= n <= m.len(),
        forall|a: int| 0 <= a < m.len() ==> entry_of(ps, #[trigger] m[a]),
        forall|a: int, b: int| 0 <= a < b < m.len() ==> (#[trigger] m[a]).0 < (#[trigger] m[b]).0,
    ensures
        pairs_of_store(ps, rows_upto(m, n)),
    decreases n,
{
    if n > 0 {
        lemma_rows_of_store(ps, m, n - 1);
        let prev = rows_upto(m, n - 1);
        let row = row_pairs(m, n - 1);
        assert forall|t: int| 0 <= t < row.len() implies entry_of(ps, (#[trigger] row[t]).0) && entry_of(ps, row[t].1)
            && row[t].0.0 < row[t].1.0 by {
            assert(entry_of(ps, m[n - 1]));
            assert(entry_of(ps, m[n + t]));
            assert(m[n - 1].0 < m[n + t].0);
        }
        let all = prev + row;
        assert forall|t: int| 0 <= t < all.len() implies entry_of(ps, (#[trigger] all[t]).0) && entry_of(ps, all[t].1)
            && all[t].0.0 < all[t].1.0 by {
            if t < prev.len() {
                assert(all[t] == prev[t]);
            } else {
                assert(all[t] == row[t - prev.len()]);
            }
        }
    }
}

proof fn lemma_pairs_upto_of_store(ps: Seq<Particle>, c: int, g: int, side: int)
    requires
        ps.len() <= usize::MAX,
    ensures
        pairs_of_store(ps, pairs_upto(ps, c, g, side)),
    decreases c,
{
    if c > 0 {
        lemma_pairs_upto_of_store(ps, c - 1, g, side);
        let m = members_of_cell(ps, c - 1, g, side);
        lemma_members_shape(ps, ps.len() as int, (c - 1) / g, (c - 1) % g, g, side);
        assert forall|a: int| 0 <= a < m.len() implies entry_of(ps, #[trigger] m[a]) by {}
        lemma_rows_of_store(ps, m, m.len() as int);
        let prev = pairs_upto(ps, c - 1, g, side);
        let last = cell_pairs(m);
        let all = prev + last;
        assert forall|t: int| 0 <= t < all.len() implies entry_of(ps, (#[trigger] all[t]).0) && entry_of(ps, all[t].1)
            && all[t].0.0 < all[t].1.0 by {
            if t < prev.len() {
                assert(all[t] == prev[t]);
            } else {
                assert(all[t] == last[t - prev.len()]);
            }
        }
    }
}

/// Every candidate pair names two slots of the store, the lower one first,
/// and holds the particles found there.
pub proof fn lemma_candidates_of_store(ps: Seq<Particle>, side: int)
    requires
        ps.len() <= usize::MAX,
    ensures
        pairs_of_store(ps, candidate_pairs(ps, side)),
{
    let g = spec_grid_size(ps.len()) as int;
    lemma_pairs_upto_of_store(ps, g * g, g, side);
}

} // verus!
