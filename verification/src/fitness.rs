//! The fitness assignor: Pareto strengths, raw fitness, pairwise squared
//! distances and the k-th-nearest-neighbour density key, for the union of
//! population and archive.
use vstd::prelude::*;
use crate::math::{isqrt, sqrt_floor};
use crate::model::{Direction, Fitness, Model, ModelItem, Objective};
use crate::sort::{sort_u128s, u128_le};

verus! {

/// Value `a` is strictly better than value `b` on an objective with the given
/// direction.
pub open spec fn better(direction: Direction, a: i32, b: i32) -> bool {
    match direction {
        Direction::Maximised => a > b,
        Direction::Minimised => a < b,
    }
}

/// Candidate values `a` dominate candidate values `b`: `a` is strictly better
/// on every objective. (An exact tie on any single objective voids dominance
/// entirely, so dominance here is strict improvement everywhere — stricter
/// than textbook Pareto dominance, and preserved as such.)
pub open spec fn dominates(objectives: Seq<Objective>, a: Seq<i32>, b: Seq<i32>) -> bool {
    objectives.len() >= 1 && forall|k: int|
        0 <= k < objectives.len() ==> better(#[trigger] objectives[k].direction, a[k], b[k])
}

/// Sum over the first `k` coordinates of the squared differences of `a` and
/// `b`.
pub open spec fn sq_dist_prefix(a: Seq<i32>, b: Seq<i32>, k: int) -> int
    decreases k,
{
    if k <= 0 {
        0
    } else {
        sq_dist_prefix(a, b, k - 1) + (a[k - 1] - b[k - 1]) * (a[k - 1] - b[k - 1])
    }
}

/// The squared Euclidean distance between two value vectors.
pub open spec fn sq_dist(a: Seq<i32>, b: Seq<i32>) -> int {
    sq_dist_prefix(a, b, a.len() as int)
}

/// The largest possible squared difference of two `i32` values.
pub const MAX_SQ_TERM: u128 = 0xffff_fffe_0000_0001;

/// Each prefix sum of squared differences is non-negative and at most
/// `k * MAX_SQ_TERM`.
pub proof fn lemma_sq_dist_prefix_bounds(a: Seq<i32>, b: Seq<i32>, k: int)
    requires
        0 <= k,
        k <= a.len(),
        k <= b.len(),
    ensures
        0 <= sq_dist_prefix(a, b, k) <= k * (MAX_SQ_TERM as int),
    decreases k,
{
    if k > 0 {
        lemma_sq_dist_prefix_bounds(a, b, k - 1);
        let d = a[k - 1] - b[k - 1];
        assert(0 <= d * d <= MAX_SQ_TERM as int) by (nonlinear_arith)
            requires
                -0xffff_ffff <= d <= 0xffff_ffff,
                MAX_SQ_TERM == 0xffff_fffe_0000_0001u128,
        ;
        assert((k - 1) * (MAX_SQ_TERM as int) + MAX_SQ_TERM as int == k * (MAX_SQ_TERM as int))
            by (nonlinear_arith);
    }
}

/// The squared distance is symmetric.
pub proof fn lemma_sq_dist_symmetric(a: Seq<i32>, b: Seq<i32>, k: int)
    ensures
        sq_dist_prefix(a, b, k) == sq_dist_prefix(b, a, k),
    decreases k,
{
    if k > 0 {
        lemma_sq_dist_symmetric(a, b, k - 1);
        let d = a[k - 1] - b[k - 1];
        let e = b[k - 1] - a[k - 1];
        assert(d * d == e * e) by (nonlinear_arith)
            requires
                d == -e,
        ;
    }
}

/// The squared distance of a vector to itself is zero.
pub proof fn lemma_sq_dist_self_zero(a: Seq<i32>, k: int)
    ensures
        sq_dist_prefix(a, a, k) == 0,
    decreases k,
{
    if k > 0 {
        lemma_sq_dist_self_zero(a, k - 1);
    }
}

/// How many of the first `m` candidates the candidate at position `i`
/// dominates.
pub open spec fn strength_prefix(
    vals: Seq<Seq<i32>>,
    objectives: Seq<Objective>,
    i: int,
    m: int,
) -> int
    decreases m,
{
    if m <= 0 {
        0
    } else {
        strength_prefix(vals, objectives, i, m - 1) + if dominates(
            objectives,
            vals[i],
            vals[m - 1],
        ) {
            1int
        } else {
            0int
        }
    }
}

/// The strength of the candidate at position `i`: how many of the candidates
/// it dominates.
pub open spec fn strength_of(vals: Seq<Seq<i32>>, objectives: Seq<Objective>, i: int) -> int {
    strength_prefix(vals, objectives, i, vals.len() as int)
}

/// Strength prefixes are counts: between 0 and `m`.
pub proof fn lemma_strength_prefix_bounds(
    vals: Seq<Seq<i32>>,
    objectives: Seq<Objective>,
    i: int,
    m: int,
)
    requires
        0 <= m,
    ensures
        0 <= strength_prefix(vals, objectives, i, m) <= m,
    decreases m,
{
    if m > 0 {
        lemma_strength_prefix_bounds(vals, objectives, i, m - 1);
    }
}

/// The positions of the first `m` candidates that dominate the candidate at
/// position `i`, in ascending order.
pub open spec fn dominators_prefix(
    vals: Seq<Seq<i32>>,
    objectives: Seq<Objective>,
    i: int,
    m: int,
) -> Seq<usize>
    decreases m,
{
    if m <= 0 {
        Seq::empty()
    } else {
        let rest = dominators_prefix(vals, objectives, i, m - 1);
        if dominates(objectives, vals[m - 1], vals[i]) {
            rest.push((m - 1) as usize)
        } else {
            rest
        }
    }
}

/// The positions of all candidates that dominate the candidate at position
/// `i`, in ascending order.
pub open spec fn dominators_of(vals: Seq<Seq<i32>>, objectives: Seq<Objective>, i: int) -> Seq<
    usize,
> {
    dominators_prefix(vals, objectives, i, vals.len() as int)
}

/// The raw fitness of the candidate at position `i`, restricted to its
/// dominators among the first `m` candidates: the sum of their strengths.
pub open spec fn raw_prefix(vals: Seq<Seq<i32>>, objectives: Seq<Objective>, i: int, m: int) -> int
    decreases m,
{
    if m <= 0 {
        0
    } else {
        raw_prefix(vals, objectives, i, m - 1) + if dominates(objectives, vals[m - 1], vals[i]) {
            strength_of(vals, objectives, m - 1)
        } else {
            0int
        }
    }
}

/// The raw fitness of the candidate at position `i`: the sum of the strengths
/// of all candidates that dominate it. Zero exactly for candidates that no
/// candidate dominates.
pub open spec fn raw_fitness_of(vals: Seq<Seq<i32>>, objectives: Seq<Objective>, i: int) -> int {
    raw_prefix(vals, objectives, i, vals.len() as int)
}

/// Raw-fitness prefixes lie between 0 and `m * vals.len()`.
pub proof fn lemma_raw_prefix_bounds(vals: Seq<Seq<i32>>, objectives: Seq<Objective>, i: int, m: int)
    requires
        0 <= m,
    ensures
        0 <= raw_prefix(vals, objectives, i, m) <= m * vals.len(),
    decreases m,
{
    let n = vals.len() as int;
    if m > 0 {
        lemma_raw_prefix_bounds(vals, objectives, i, m - 1);
        lemma_strength_prefix_bounds(vals, objectives, m - 1, n);
        assert((m - 1) * n + n == m * n) by (nonlinear_arith);
        assert(0 <= (m - 1) * n) by (nonlinear_arith)
            requires
                0 <= m - 1,
                0 <= n,
        ;
    }
}

/// The row of squared distances from the candidate at position `i` to every
/// candidate of the union (itself included, at distance zero).
pub open spec fn dist_row(vals: Seq<Seq<i32>>, i: int) -> Seq<u128> {
    Seq::new(vals.len(), |j: int| sq_dist(vals[i], vals[j]) as u128)
}

/// The index of the k-th-nearest-neighbour distance inside a sorted distance
/// row: the floor square root of the union size, clamped to the last valid
/// index of the row.
pub open spec fn kth_index(n: nat) -> int {
    if sqrt_floor(n) < n {
        sqrt_floor(n) as int
    } else {
        n - 1
    }
}

/// The squared distance from the candidate at position `i` to its
/// k-th-nearest neighbour: entry `kth_index` of its sorted distance row.
pub open spec fn kth_sq_of(vals: Seq<Seq<i32>>, i: int) -> u128 {
    dist_row(vals, i).sort_by(u128_le())[kth_index(vals.len())]
}

/// The fitness assigned to the candidate at position `i` of the union:
/// raw fitness plus the density estimate `1 / sqrt(kth_sq)`, represented
/// exactly as the pair of the two components.
pub open spec fn fitness_of(vals: Seq<Seq<i32>>, objectives: Seq<Objective>, i: int) -> Fitness {
    Fitness {
        raw: raw_fitness_of(vals, objectives, i) as u128,
        kth_sq: kth_sq_of(vals, i),
    }
}

/// The partition guarantee the environmental selector relies on: a dominated
/// candidate (positive raw fitness) never has a fitness below one, and a
/// candidate that nobody dominates has a fitness below one exactly when its
/// density estimate is below one (its k-th-nearest-neighbour squared distance
/// exceeds one).
pub proof fn lemma_fitness_partition(f: Fitness)
    ensures
        f.raw >= 1 ==> !f.spec_is_non_dominated(),
        f.raw == 0 && f.kth_sq > 1 ==> f.spec_is_non_dominated(),
{
}

/// The value vectors of the union of a container's population and archive,
/// in that order.
pub open spec fn union_values(m: Model) -> Seq<Seq<i32>> {
    Seq::new(
        m.population@.len() + m.archive@.len(),
        |i: int|
            if i < m.population@.len() {
                m.population@[i].values@
            } else {
                m.archive@[i - m.population@.len()].values@
            },
    )
}

/// Whether `a` is strictly better than `b` on the given objective.
fn better_exec(direction: Direction, a: i32, b: i32) -> (r: bool)
    ensures
        r == better(direction, a, b),
{
    match direction {
        Direction::Maximised => a > b,
        Direction::Minimised => a < b,
    }
}

/// Whether candidate values `a` dominate candidate values `b`.
pub fn dominates_exec(objectives: &Vec<Objective>, a: &Vec<i32>, b: &Vec<i32>) -> (r: bool)
    requires
        a@.len() == objectives@.len(),
        b@.len() == objectives@.len(),
    ensures
        r == dominates(objectives@, a@, b@),
{
    if objectives.len() == 0 {
        return false;
    }
    let mut k: usize = 0;
    while k < objectives.len()
        invariant
            k <= objectives@.len(),
            forall|j: int|
                0 <= j < k ==> better(#[trigger] objectives@[j].direction, a@[j], b@[j]),
        decreases objectives@.len() - k,
    {
        if !better_exec(objectives[k].direction, a[k], b[k]) {
            return false;
        }
        k = k + 1;
    }
    true
}

/// The squared Euclidean distance between two value vectors.
pub fn squared_distance(a: &Vec<i32>, b: &Vec<i32>) -> (r: u128)
    requires
        a@.len() == b@.len(),
    ensures
        r as int == sq_dist(a@, b@),
{
    let mut acc: u128 = 0;
    let mut k: usize = 0;
    while k < a.len()
        invariant
            k <= a@.len(),
            acc as int == sq_dist_prefix(a@, b@, k as int),
            acc as int <= (k as int) * (MAX_SQ_TERM as int),
        decreases a@.len() - k,
    {
        let d: i64 = (a[k] as i64) - (b[k] as i64);
        proof {
            assert(0 <= (d as int) * (d as int) <= MAX_SQ_TERM as int) by (nonlinear_arith)
                requires
                    -0xffff_ffff <= d as int <= 0xffff_ffff,
                    MAX_SQ_TERM == 0xffff_fffe_0000_0001u128,
            ;
            assert((k as int + 1) * (MAX_SQ_TERM as int) <= 0xffff_ffff_ffff_ffffu128 * (
            MAX_SQ_TERM as int)) by (nonlinear_arith)
                requires
                    0 <= k as int,
                    k as int + 1 <= 0xffff_ffff_ffff_ffffu128,
            ;
            assert((k as int) * (MAX_SQ_TERM as int) + MAX_SQ_TERM as int == (k as int + 1) * (
            MAX_SQ_TERM as int)) by (nonlinear_arith);
        }
        let sq: u128 = ((d as i128) * (d as i128)) as u128;
        acc = acc + sq;
        k = k + 1;
    }
    acc
}

/// The sequence of views of a vector of value vectors.
pub open spec fn views(vals: Seq<Vec<i32>>) -> Seq<Seq<i32>> {
    Seq::new(vals.len(), |j: int| vals[j]@)
}

/// All value vectors have one entry per objective.
pub open spec fn rows_wf(vals: Seq<Vec<i32>>, n_objectives: nat) -> bool {
    forall|j: int| 0 <= j < vals.len() ==> (#[trigger] vals[j])@.len() == n_objectives
}

/// The strength of every candidate of the union.
fn compute_strengths(vals: &Vec<Vec<i32>>, objectives: &Vec<Objective>) -> (r: Vec<u128>)
    requires
        rows_wf(vals@, objectives@.len()),
    ensures
        r@.len() == vals@.len(),
        forall|i: int|
            0 <= i < r@.len() ==> (#[trigger] r@[i]) as int == strength_of(
                views(vals@),
                objectives@,
                i,
            ),
{
    let ghost uv = views(vals@);
    let n = vals.len();
    let mut r: Vec<u128> = Vec::new();
    let mut i: usize = 0;
    while i < n
        invariant
            i <= n,
            n == vals@.len(),
            r@.len() == i,
            forall|x: int|
                0 <= x < i ==> (#[trigger] r@[x]) as int == strength_of(uv, objectives@, x),
        decreases n - i,
    {
        let mut s: u128 = 0;
        let mut j: usize = 0;
        while j < n
            invariant
                j <= n,
                n == vals@.len(),
                i < n,
                s as int == strength_prefix(uv, objectives@, i as int, j as int),
                s as int <= j as int,
            decreases n - j,
        {
            if dominates_exec(objectives, &vals[i], &vals[j]) {
                s = s + 1;
            }
            j = j + 1;
        }
        r.push(s);
        i = i + 1;
    }
    r
}

/// The full symmetric matrix of squared distances over the union.
fn compute_distances(vals: &Vec<Vec<i32>>, n_objectives: usize) -> (r: Vec<Vec<u128>>)
    requires
        rows_wf(vals@, n_objectives as nat),
    ensures
        r@.len() == vals@.len(),
        forall|i: int| 0 <= i < r@.len() ==> (#[trigger] r@[i])@.len() == vals@.len(),
        forall|i: int, j: int|
            0 <= i < vals@.len() && 0 <= j < vals@.len() ==> (#[trigger] r@[i]@[j]) as int
                == sq_dist(views(vals@)[i], views(vals@)[j]),
{
    let ghost uv = views(vals@);
    let n = vals.len();
    let mut r: Vec<Vec<u128>> = Vec::new();
    let mut i: usize = 0;
    while i < n
        invariant
            i <= n,
            n == vals@.len(),
            r@.len() == i,
            forall|x: int| 0 <= x < i ==> (#[trigger] r@[x])@.len() == n,
            forall|x: int, y: int|
                0 <= x < i && 0 <= y < n ==> (#[trigger] r@[x]@[y]) as int == sq_dist(
                    uv[x],
                    uv[y],
                ),
        decreases n - i,
    {
        let mut row: Vec<u128> = Vec::new();
        let mut j: usize = 0;
        while j < n
            invariant
                j <= n,
                n == vals@.len(),
                i < n,
                row@.len() == j,
                forall|y: int|
                    0 <= y < j ==> (#[trigger] row@[y]) as int == sq_dist(uv[i as int], uv[y]),
            decreases n - j,
        {
            let d = squared_distance(&vals[i], &vals[j]);
            row.push(d);
            j = j + 1;
        }
        r.push(row);
        i = i + 1;
    }
    r
}

/// For every candidate, the ascending positions of the candidates that
/// dominate it.
fn compute_dominators(vals: &Vec<Vec<i32>>, objectives: &Vec<Objective>) -> (r: Vec<Vec<usize>>)
    requires
        rows_wf(vals@, objectives@.len()),
    ensures
        r@.len() == vals@.len(),
        forall|i: int|
            0 <= i < r@.len() ==> (#[trigger] r@[i])@ == dominators_of(
                views(vals@),
                objectives@,
                i,
            ),
{
    let ghost uv = views(vals@);
    let n = vals.len();
    let mut r: Vec<Vec<usize>> = Vec::new();
    let mut i: usize = 0;
    while i < n
        invariant
            i <= n,
            n == vals@.len(),
            r@.len() == i,
            forall|x: int|
                0 <= x < i ==> (#[trigger] r@[x])@ == dominators_of(uv, objectives@, x),
        decreases n - i,
    {
        let mut dom: Vec<usize> = Vec::new();
        let mut j: usize = 0;
        while j < n
            invariant
                j <= n,
                n == vals@.len(),
                i < n,
                dom@ == dominators_prefix(uv, objectives@, i as int, j as int),
            decreases n - j,
        {
            if dominates_exec(objectives, &vals[j], &vals[i]) {
                dom.push(j);
            }
            j = j + 1;
        }
        r.push(dom);
        i = i + 1;
    }
    r
}

/// The fitness of every candidate of the union: raw fitness plus the
/// k-th-nearest-neighbour density key taken from its sorted distance row.
fn compute_fitnesses(
    vals: &Vec<Vec<i32>>,
    objectives: &Vec<Objective>,
    strengths: &Vec<u128>,
    distances: &Vec<Vec<u128>>,
) -> (r: Vec<Fitness>)
    requires
        rows_wf(vals@, objectives@.len()),
        vals@.len() >= 1,
        strengths@.len() == vals@.len(),
        forall|i: int|
            0 <= i < strengths@.len() ==> (#[trigger] strengths@[i]) as int == strength_of(
                views(vals@),
                objectives@,
                i,
            ),
        distances@.len() == vals@.len(),
        forall|i: int| 0 <= i < distances@.len() ==> (#[trigger] distances@[i])@.len()
            == vals@.len(),
        forall|i: int, j: int|
            0 <= i < vals@.len() && 0 <= j < vals@.len() ==> (#[trigger] distances@[i]@[j]) as int
                == sq_dist(views(vals@)[i], views(vals@)[j]),
    ensures
        r@.len() == vals@.len(),
        forall|i: int|
            0 <= i < r@.len() ==> #[trigger] r@[i] == fitness_of(views(vals@), objectives@, i),
{
    let ghost uv = views(vals@);
    let n = vals.len();
    let k0 = isqrt(n);
    let kth: usize = if k0 < n {
        k0
    } else {
        n - 1
    };
    assert(kth as int == kth_index(n as nat));
    assert(kth < n);
    let mut r: Vec<Fitness> = Vec::new();
    let mut i: usize = 0;
    while i < n
        invariant
            i <= n,
            n == vals@.len(),
            kth < n,
            kth as int == kth_index(n as nat),
            r@.len() == i,
            forall|x: int| 0 <= x < i ==> #[trigger] r@[x] == fitness_of(uv, objectives@, x),
        decreases n - i,
    {
        let mut raw: u128 = 0;
        let mut j: usize = 0;
        while j < n
            invariant
                j <= n,
                n == vals@.len(),
                i < n,
                raw as int == raw_prefix(uv, objectives@, i as int, j as int),
                raw as int <= (j as int) * (n as int),
            decreases n - j,
        {
            proof {
                lemma_strength_prefix_bounds(uv, objectives@, j as int, n as int);
                assert((j as int) * (n as int) + n as int == (j as int + 1) * (n as int))
                    by (nonlinear_arith);
                assert((j as int + 1) * (n as int) < u128::MAX) by (nonlinear_arith)
                    requires
                        0 <= j as int,
                        j as int + 1 <= 0xffff_ffff_ffff_ffffu128,
                        n as int <= 0xffff_ffff_ffff_ffffu128,
                ;
            }
            if dominates_exec(objectives, &vals[j], &vals[i]) {
                raw = raw + strengths[j];
            }
            j = j + 1;
        }
        let sorted_row = sort_u128s(&distances[i]);
        proof {
            assert forall|y: int| 0 <= y < n implies distances@[i as int]@[y] == dist_row(
                uv,
                i as int,
            )[y] by {
                lemma_sq_dist_prefix_bounds(uv[i as int], uv[y], uv[i as int].len() as int);
            }
            assert(distances@[i as int]@ =~= dist_row(uv, i as int));
            lemma_raw_prefix_bounds(uv, objectives@, i as int, n as int);
        }
        let f = Fitness { raw, kth_sq: sorted_row[kth] };
        r.push(f);
        i = i + 1;
    }
    r
}

/// The fitness assignor: computes, over the union of population and archive
/// (in that order), every candidate's strength, raw fitness and
/// k-th-nearest-neighbour density key, and stores the resulting fitness on
/// every candidate in place. Returns, as diagnostics, the symmetric matrix of
/// squared distances, every candidate's dominators (ascending), and every
/// candidate's strength.
pub fn set_fitness(model: &mut Model) -> (r: (Vec<Vec<u128>>, Vec<Vec<usize>>, Vec<u128>))
    requires
        old(model).wf(),
    ensures
        final(model).wf(),
        final(model).objectives@ == old(model).objectives@,
        final(model).mating_pool@ == old(model).mating_pool@,
        final(model).population_size == old(model).population_size,
        final(model).neighbourhood_size == old(model).neighbourhood_size,
        final(model).mutation_numerator == old(model).mutation_numerator,
        final(model).mutation_denominator == old(model).mutation_denominator,
        final(model).sort_axis() == old(model).sort_axis(),
        final(model).population@.len() == old(model).population@.len(),
        final(model).archive@.len() == old(model).archive@.len(),
        forall|i: int|
            0 <= i < old(model).population@.len() ==> {
                &&& (#[trigger] final(model).population@[i]).values@ == old(
                    model,
                ).population@[i].values@
                &&& final(model).population@[i].custom_data_index == old(
                    model,
                ).population@[i].custom_data_index
                &&& final(model).population@[i].fitness == fitness_of(
                    union_values(*old(model)),
                    old(model).objectives@,
                    i,
                )
            },
        forall|i: int|
            0 <= i < old(model).archive@.len() ==> {
                &&& (#[trigger] final(model).archive@[i]).values@ == old(
                    model,
                ).archive@[i].values@
                &&& final(model).archive@[i].custom_data_index == old(
                    model,
                ).archive@[i].custom_data_index
                &&& final(model).archive@[i].fitness == fitness_of(
                    union_values(*old(model)),
                    old(model).objectives@,
                    old(model).population@.len() + i,
                )
            },
        r.0@.len() == union_values(*old(model)).len(),
        forall|i: int|
            0 <= i < r.0@.len() ==> (#[trigger] r.0@[i])@.len() == union_values(
                *old(model),
            ).len(),
        forall|i: int, j: int|
            0 <= i < r.0@.len() && 0 <= j < r.0@.len() ==> (#[trigger] r.0@[i]@[j]) as int
                == sq_dist(union_values(*old(model))[i], union_values(*old(model))[j]),
        forall|i: int, j: int|
            0 <= i < r.0@.len() && 0 <= j < r.0@.len() ==> #[trigger] r.0@[i]@[j] == r.0@[j]@[i],
        forall|i: int| 0 <= i < r.0@.len() ==> #[trigger] r.0@[i]@[i] == 0,
        r.1@.len() == union_values(*old(model)).len(),
        forall|i: int|
            0 <= i < r.1@.len() ==> (#[trigger] r.1@[i])@ == dominators_of(
                union_values(*old(model)),
                old(model).objectives@,
                i,
            ),
        r.2@.len() == union_values(*old(model)).len(),
        forall|i: int|
            0 <= i < r.2@.len() ==> (#[trigger] r.2@[i]) as int == strength_of(
                union_values(*old(model)),
                old(model).objectives@,
                i,
            ),
{
    let ghost uv = union_values(*old(model));
    let ghost objs = old(model).objectives@;
    let n_pop = model.population.len();
    let n_arch = model.archive.len();
    let mut vals: Vec<Vec<i32>> = Vec::new();
    let mut i: usize = 0;
    while i < n_pop
        invariant
            i <= n_pop,
            n_pop == model.population@.len(),
            vals@.len() == i,
            forall|j: int| 0 <= j < i ==> (#[trigger] vals@[j])@ == uv[j],
        decreases n_pop - i,
    {
        vals.push(model.population[i].values.clone());
        i = i + 1;
    }
    let mut a: usize = 0;
    while a < n_arch
        invariant
            a <= n_arch,
            n_arch == model.archive@.len(),
            n_pop == model.population@.len(),
            vals@.len() == n_pop + a,
            forall|j: int| 0 <= j < n_pop + a ==> (#[trigger] vals@[j])@ == uv[j],
        decreases n_arch - a,
    {
        vals.push(model.archive[a].values.clone());
        a = a + 1;
    }
    proof {
        assert(views(vals@) =~= uv);
        assert forall|j: int| 0 <= j < vals@.len() implies (#[trigger] vals@[j])@.len()
            == model.objectives@.len() by {
            if j < n_pop {
                assert(uv[j] == model.population@[j].values@);
            } else {
                assert(uv[j] == model.archive@[j - n_pop].values@);
            }
        }
    }
    if vals.len() == 0 {
        return (Vec::new(), Vec::new(), Vec::new());
    }
    let strengths = compute_strengths(&vals, &model.objectives);
    let distances = compute_distances(&vals, model.objectives.len());
    let dominators = compute_dominators(&vals, &model.objectives);
    let fits = compute_fitnesses(&vals, &model.objectives, &strengths, &distances);
    let mut p: usize = 0;
    while p < n_pop
        invariant
            p <= n_pop,
            n_pop == old(model).population@.len(),
            model.population@.len() == n_pop,
            fits@.len() == uv.len(),
            uv.len() == n_pop + n_arch,
            forall|x: int| 0 <= x < fits@.len() ==> #[trigger] fits@[x] == fitness_of(uv, objs, x),
            forall|x: int|
                0 <= x < p ==> {
                    &&& (#[trigger] model.population@[x]).values@ == old(
                        model,
                    ).population@[x].values@
                    &&& model.population@[x].custom_data_index == old(
                        model,
                    ).population@[x].custom_data_index
                    &&& model.population@[x].fitness == fits@[x]
                },
            forall|x: int|
                p <= x < n_pop ==> #[trigger] model.population@[x] == old(model).population@[x],
            model.archive@ == old(model).archive@,
            model.objectives@ == old(model).objectives@,
            model.mating_pool@ == old(model).mating_pool@,
            model.population_size == old(model).population_size,
            model.neighbourhood_size == old(model).neighbourhood_size,
            model.mutation_numerator == old(model).mutation_numerator,
            model.mutation_denominator == old(model).mutation_denominator,
            model.sort_axis() == old(model).sort_axis(),
        decreases n_pop - p,
    {
        let f = fits[p];
        model.population[p].fitness = f;
        p = p + 1;
    }
    let mut q: usize = 0;
    while q < n_arch
        invariant
            q <= n_arch,
            n_pop == old(model).population@.len(),
            n_arch == old(model).archive@.len(),
            model.population@.len() == n_pop,
            model.archive@.len() == n_arch,
            fits@.len() == uv.len(),
            uv.len() == n_pop + n_arch,
            forall|x: int| 0 <= x < fits@.len() ==> #[trigger] fits@[x] == fitness_of(uv, objs, x),
            forall|x: int|
                0 <= x < n_pop ==> {
                    &&& (#[trigger] model.population@[x]).values@ == old(
                        model,
                    ).population@[x].values@
                    &&& model.population@[x].custom_data_index == old(
                        model,
                    ).population@[x].custom_data_index
                    &&& model.population@[x].fitness == fits@[x]
                },
            forall|x: int|
                0 <= x < q ==> {
                    &&& (#[trigger] model.archive@[x]).values@ == old(model).archive@[x].values@
                    &&& model.archive@[x].custom_data_index == old(
                        model,
                    ).archive@[x].custom_data_index
                    &&& model.archive@[x].fitness == fits@[n_pop + x]
                },
            forall|x: int|
                q <= x < n_arch ==> #[trigger] model.archive@[x] == old(model).archive@[x],
            model.objectives@ == old(model).objectives@,
            model.mating_pool@ == old(model).mating_pool@,
            model.population_size == old(model).population_size,
            model.neighbourhood_size == old(model).neighbourhood_size,
            model.mutation_numerator == old(model).mutation_numerator,
            model.mutation_denominator == old(model).mutation_denominator,
            model.sort_axis() == old(model).sort_axis(),
        decreases n_arch - q,
    {
        let f = fits[n_pop + q];
        model.archive[q].fitness = f;
        q = q + 1;
    }
    proof {
        assert forall|i: int, j: int|
            0 <= i < uv.len() && 0 <= j < uv.len() implies #[trigger] distances@[i]@[j]
            == distances@[j]@[i] by {
            lemma_sq_dist_symmetric(uv[i], uv[j], uv[i].len() as int);
            assert(uv[i].len() == uv[j].len());
        }
        assert forall|i: int| 0 <= i < uv.len() implies #[trigger] distances@[i]@[i] == 0 by {
            lemma_sq_dist_self_zero(uv[i], uv[i].len() as int);
        }
    }
    (distances, dominators, strengths)
}

} // verus!
