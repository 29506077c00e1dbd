//! The crossover operator: neighbourhood-localised single-point
//! recombination over the mating pool. The pool is sorted by one rotating
//! objective axis, shuffled inside contiguous neighbourhood blocks, and
//! recombined pairwise by swapping value-vector tails at a random split.
use vstd::prelude::*;
use vstd::relations::sorted_by;
use vstd::seq_lib::lemma_multiset_commutative;
use crate::model::{Model, ModelItem, items_wf};
use crate::rng::{rand_below, shuffle_range};
use crate::sort::{item_axis_le, sort_items_by_axis};

verus! {

/// Single-point crossover of two parents: the tails of their value vectors
/// from `split_index` on are swapped in place; fitness and adapter handles
/// are untouched. No value is fabricated or lost: each position holds the
/// same two values as before, swapped or not.
pub fn perform_crossover(p1: &mut ModelItem, p2: &mut ModelItem, split_index: usize)
    requires
        split_index <= old(p1).values@.len(),
        old(p1).values@.len() == old(p2).values@.len(),
    ensures
        final(p1).values@ == old(p1).values@.take(split_index as int) + old(p2).values@.skip(
            split_index as int,
        ),
        final(p2).values@ == old(p2).values@.take(split_index as int) + old(p1).values@.skip(
            split_index as int,
        ),
        final(p1).fitness == old(p1).fitness,
        final(p2).fitness == old(p2).fitness,
        final(p1).custom_data_index == old(p1).custom_data_index,
        final(p2).custom_data_index == old(p2).custom_data_index,
{
    let len = p1.values.len();
    let mut k = split_index;
    while k < len
        invariant
            split_index <= k <= len,
            len == old(p1).values@.len(),
            p1.values@.len() == len,
            p2.values@.len() == len,
            forall|x: int| 0 <= x < split_index ==> p1.values@[x] == old(p1).values@[x],
            forall|x: int| 0 <= x < split_index ==> p2.values@[x] == old(p2).values@[x],
            forall|x: int| split_index <= x < k ==> p1.values@[x] == old(p2).values@[x],
            forall|x: int| split_index <= x < k ==> p2.values@[x] == old(p1).values@[x],
            forall|x: int| k <= x < len ==> p1.values@[x] == old(p1).values@[x],
            forall|x: int| k <= x < len ==> p2.values@[x] == old(p2).values@[x],
            p1.fitness == old(p1).fitness,
            p2.fitness == old(p2).fitness,
            p1.custom_data_index == old(p1).custom_data_index,
            p2.custom_data_index == old(p2).custom_data_index,
        decreases len - k,
    {
        let a = p1.values[k];
        let b = p2.values[k];
        p1.values[k] = b;
        p2.values[k] = a;
        k = k + 1;
    }
    proof {
        assert(p1.values@ =~= old(p1).values@.take(split_index as int) + old(p2).values@.skip(
            split_index as int,
        ));
        assert(p2.values@ =~= old(p2).values@.take(split_index as int) + old(p1).values@.skip(
            split_index as int,
        ));
    }
}

/// Crossover conserves the parents' values: the multiset of the two
/// children's values together equals the multiset of the two parents' values
/// together.
pub proof fn lemma_crossover_conserves_values(a: Seq<i32>, b: Seq<i32>, s: int)
    requires
        0 <= s <= a.len(),
        a.len() == b.len(),
    ensures
        (a.take(s) + b.skip(s)).to_multiset().add((b.take(s) + a.skip(s)).to_multiset())
            == a.to_multiset().add(b.to_multiset()),
{
    broadcast use vstd::multiset::group_multiset_axioms;

    lemma_multiset_commutative(a.take(s), b.skip(s));
    lemma_multiset_commutative(b.take(s), a.skip(s));
    lemma_multiset_commutative(a.take(s), a.skip(s));
    lemma_multiset_commutative(b.take(s), b.skip(s));
    assert(a.take(s) + a.skip(s) =~= a);
    assert(b.take(s) + b.skip(s) =~= b);
    assert((a.take(s) + b.skip(s)).to_multiset().add((b.take(s) + a.skip(s)).to_multiset())
        =~= a.to_multiset().add(b.to_multiset()));
}

/// Sorts the mating pool ascending by the value at the current crossover
/// axis, and advances the axis counter.
pub fn sort_pool_by_objective(model: &mut Model)
    requires
        old(model).wf(),
    ensures
        final(model).wf(),
        final(model).mating_pool@.to_multiset() == old(model).mating_pool@.to_multiset(),
        final(model).mating_pool@.len() == old(model).mating_pool@.len(),
        sorted_by(final(model).mating_pool@, item_axis_le(old(model).sort_axis() as int)),
        final(model).sort_axis() == if old(model).sort_axis() + 1 >= old(
            model,
        ).objectives@.len() {
            0usize
        } else {
            (old(model).sort_axis() + 1) as usize
        },
        final(model).objectives@ == old(model).objectives@,
        final(model).population@ == old(model).population@,
        final(model).archive@ == old(model).archive@,
        final(model).population_size == old(model).population_size,
        final(model).neighbourhood_size == old(model).neighbourhood_size,
        final(model).mutation_numerator == old(model).mutation_numerator,
        final(model).mutation_denominator == old(model).mutation_denominator,
{
    let axis = model.next_objective_sort_index();
    let mut pool: Vec<ModelItem> = Vec::new();
    std::mem::swap(&mut pool, &mut model.mating_pool);
    proof {
        broadcast use vstd::seq_lib::group_to_multiset_ensures;
    }
    let sorted = sort_items_by_axis(pool, axis);
    model.mating_pool = sorted;
    proof {
        assert(items_wf(model.mating_pool@, model.objectives@.len())) by {
            assert forall|i: int|
                0 <= i < model.mating_pool@.len() implies (
            #[trigger] model.mating_pool@[i]).values@.len() == model.objectives@.len() by {
                let x = model.mating_pool@[i];
                assert(model.mating_pool@.to_multiset().contains(x));
                assert(old(model).mating_pool@.to_multiset().contains(x));
                assert(old(model).mating_pool@.contains(x));
                let w = choose|w: int|
                    0 <= w < old(model).mating_pool@.len() && old(model).mating_pool@[w] == x;
                assert(old(model).mating_pool@[w].values@.len() == old(
                    model,
                ).objectives@.len());
            }
        }
    }
}


/// Replacing a contiguous range of a sequence by a permutation of itself
/// keeps the whole sequence's multiset.
pub proof fn lemma_range_permutation_multiset(
    s1: Seq<ModelItem>,
    s2: Seq<ModelItem>,
    start: int,
    end: int,
)
    requires
        0 <= start <= end <= s1.len(),
        s2.len() == s1.len(),
        s2.subrange(0, start) == s1.subrange(0, start),
        s2.subrange(end, s2.len() as int) == s1.subrange(end, s1.len() as int),
        s2.subrange(start, end).to_multiset() == s1.subrange(start, end).to_multiset(),
    ensures
        s2.to_multiset() == s1.to_multiset(),
{
    broadcast use vstd::multiset::group_multiset_axioms;

    let n = s1.len() as int;
    assert(s1 =~= (s1.subrange(0, start) + s1.subrange(start, end)) + s1.subrange(end, n));
    assert(s2 =~= (s2.subrange(0, start) + s2.subrange(start, end)) + s2.subrange(end, n));
    lemma_multiset_commutative(s1.subrange(0, start) + s1.subrange(start, end), s1.subrange(end, n));
    lemma_multiset_commutative(s2.subrange(0, start) + s2.subrange(start, end), s2.subrange(end, n));
    lemma_multiset_commutative(s1.subrange(0, start), s1.subrange(start, end));
    lemma_multiset_commutative(s2.subrange(0, start), s2.subrange(start, end));
    assert(s2.to_multiset() =~= s1.to_multiset());
}

/// Shuffles each full neighbourhood-sized block of the mating pool
/// independently; a final partial block is left as it stands. Each block
/// keeps its candidates (as a multiset), so the whole pool does too.
pub fn neighbourhood_shuffle(model: &mut Model, rng: &mut rand::rngs::StdRng)
    requires
        old(model).wf(),
    ensures
        final(model).wf(),
        final(model).mating_pool@.len() == old(model).mating_pool@.len(),
        final(model).mating_pool@.to_multiset() == old(model).mating_pool@.to_multiset(),
        forall|b: int|
            0 <= b < old(model).mating_pool@.len() as int / (old(model).neighbourhood_size as int)
                ==> #[trigger] final(model).mating_pool@.subrange(
                b * (old(model).neighbourhood_size as int),
                b * (old(model).neighbourhood_size as int) + (
                old(model).neighbourhood_size as int),
            ).to_multiset() == old(model).mating_pool@.subrange(
                b * (old(model).neighbourhood_size as int),
                b * (old(model).neighbourhood_size as int) + (
                old(model).neighbourhood_size as int),
            ).to_multiset(),
        forall|x: int|
            (old(model).mating_pool@.len() as int / (old(model).neighbourhood_size as int)) * (
            old(model).neighbourhood_size as int) <= x < old(model).mating_pool@.len()
                ==> #[trigger] final(model).mating_pool@[x] == old(model).mating_pool@[x],
        final(model).objectives@ == old(model).objectives@,
        final(model).population@ == old(model).population@,
        final(model).archive@ == old(model).archive@,
        final(model).population_size == old(model).population_size,
        final(model).neighbourhood_size == old(model).neighbourhood_size,
        final(model).mutation_numerator == old(model).mutation_numerator,
        final(model).mutation_denominator == old(model).mutation_denominator,
        final(model).sort_axis() == old(model).sort_axis(),
{
    let ghost old_pool = old(model).mating_pool@;
    let ns = model.neighbourhood_size;
    let len = model.mating_pool.len();
    let blocks = len / ns;
    proof {
        vstd::arithmetic::div_mod::lemma_fundamental_div_mod(len as int, ns as int);
        vstd::arithmetic::div_mod::lemma_mod_bound(len as int, ns as int);
    }
    let mut i: usize = 0;
    while i < blocks
        invariant
            old(model).wf(),
            ns == old(model).neighbourhood_size,
            ns >= 1,
            len == old_pool.len(),
            blocks == len as int / ns as int,
            len as int == (ns as int) * (blocks as int) + (len as int) % (ns as int),
            0 <= (len as int) % (ns as int),
            i <= blocks,
            model.mating_pool@.len() == len,
            forall|x: int|
                (i as int) * (ns as int) <= x < len ==> #[trigger] model.mating_pool@[x]
                    == old_pool[x],
            forall|b: int|
                0 <= b < i ==> #[trigger] model.mating_pool@.subrange(
                    b * (ns as int),
                    b * (ns as int) + (ns as int),
                ).to_multiset() == old_pool.subrange(
                    b * (ns as int),
                    b * (ns as int) + (ns as int),
                ).to_multiset(),
            model.mating_pool@.to_multiset() == old_pool.to_multiset(),
            model.objectives@ == old(model).objectives@,
            model.population@ == old(model).population@,
            model.archive@ == old(model).archive@,
            model.population_size == old(model).population_size,
            model.neighbourhood_size == old(model).neighbourhood_size,
            model.mutation_numerator == old(model).mutation_numerator,
            model.mutation_denominator == old(model).mutation_denominator,
            model.sort_axis() == old(model).sort_axis(),
        decreases blocks - i,
    {
        proof {
            assert((i as int + 1) * (ns as int) <= (blocks as int) * (ns as int))
                by (nonlinear_arith)
                requires
                    i as int + 1 <= blocks as int,
                    ns as int >= 1,
            ;
            assert((blocks as int) * (ns as int) <= len as int) by (nonlinear_arith)
                requires
                    len as int == (ns as int) * (blocks as int) + (len as int) % (ns as int),
                    0 <= (len as int) % (ns as int),
            ;
            assert((i as int) * (ns as int) + (ns as int) == (i as int + 1) * (ns as int))
                by (nonlinear_arith);
            assert((i as int) * (ns as int) >= 0) by (nonlinear_arith)
                requires
                    i as int >= 0,
                    ns as int >= 0,
            ;
        }
        let start = i * ns;
        let end = start + ns;
        let ghost pre = model.mating_pool@;
        shuffle_range(&mut model.mating_pool, start, end, rng);
        proof {
            let post = model.mating_pool@;
            assert forall|x: int| 0 <= x < start implies post[x] == pre[x] by {
                assert(post.subrange(0, start as int)[x] == pre.subrange(0, start as int)[x]);
            }
            assert forall|x: int| end <= x < len implies post[x] == pre[x] by {
                assert(post.subrange(end as int, len as int)[x - end] == pre.subrange(
                    end as int,
                    len as int,
                )[x - end]);
            }
            assert forall|b: int|
                0 <= b < i + 1 implies #[trigger] post.subrange(
                b * (ns as int),
                b * (ns as int) + (ns as int),
            ).to_multiset() == old_pool.subrange(
                b * (ns as int),
                b * (ns as int) + (ns as int),
            ).to_multiset() by {
                assert((b + 1) * (ns as int) <= (i as int) * (ns as int) || b == i as int)
                    by (nonlinear_arith)
                    requires
                        0 <= b <= i as int,
                        ns as int >= 1,
                ;
                assert(b * (ns as int) + (ns as int) == (b + 1) * (ns as int))
                    by (nonlinear_arith);
                assert(b * (ns as int) >= 0) by (nonlinear_arith)
                    requires
                        b >= 0,
                        ns as int >= 0,
                ;
                if b == i as int {
                    assert(pre.subrange(start as int, end as int) =~= old_pool.subrange(
                        start as int,
                        end as int,
                    ));
                } else {
                    assert(post.subrange(b * (ns as int), b * (ns as int) + (ns as int))
                        =~= pre.subrange(b * (ns as int), b * (ns as int) + (ns as int)));
                }
            }
            lemma_range_permutation_multiset(pre, post, start as int, end as int);
        }
        i = i + 1;
    }
    proof {
        broadcast use vstd::seq_lib::group_to_multiset_ensures;

        assert(items_wf(model.mating_pool@, model.objectives@.len())) by {
            assert forall|p: int|
                0 <= p < model.mating_pool@.len() implies (
            #[trigger] model.mating_pool@[p]).values@.len() == model.objectives@.len() by {
                let x = model.mating_pool@[p];
                assert(model.mating_pool@.to_multiset().contains(x));
                assert(old_pool.to_multiset().contains(x));
                assert(old_pool.contains(x));
                let w = choose|w: int| 0 <= w < old_pool.len() && old_pool[w] == x;
                assert(old_pool[w].values@.len() == old(model).objectives@.len());
            }
        }
    }
}

/// `out` is `mid` recombined into sequential couples by swapping the tails
/// of their value vectors from position `s` on; an odd trailing candidate is
/// carried over unmodified; fitness values and adapter handles are kept.
pub open spec fn crossed_pools(mid: Seq<ModelItem>, out: Seq<ModelItem>, s: int) -> bool {
    &&& out.len() == mid.len()
    &&& forall|c: int|
        0 <= c && 2 * c + 1 < mid.len() ==> {
            &&& (#[trigger] out[2 * c]).values@ == mid[2 * c].values@.take(s)
                + mid[2 * c + 1].values@.skip(s)
            &&& out[2 * c + 1].values@ == mid[2 * c + 1].values@.take(s)
                + mid[2 * c].values@.skip(s)
            &&& out[2 * c].fitness == mid[2 * c].fitness
            &&& out[2 * c + 1].fitness == mid[2 * c + 1].fitness
            &&& out[2 * c].custom_data_index == mid[2 * c].custom_data_index
            &&& out[2 * c + 1].custom_data_index == mid[2 * c + 1].custom_data_index
        }
    &&& mid.len() % 2 == 1 ==> out[mid.len() - 1] == mid[mid.len() - 1]
}

/// The crossover operator: draws one random split index, sorts the pool by
/// the rotating objective axis, shuffles it inside neighbourhood blocks, and
/// recombines sequential couples by swapping value-vector tails at the split;
/// an odd trailing candidate is left unmodified. The final pool is the
/// pairwise recombination, at one split below the objective count, of an
/// intermediate pool holding exactly the original candidates.
pub fn neighbourhood_crossover(model: &mut Model, rng: &mut rand::rngs::StdRng)
    requires
        old(model).wf(),
    ensures
        final(model).wf(),
        final(model).mating_pool@.len() == old(model).mating_pool@.len(),
        exists|mid: Seq<ModelItem>, s: int|
            {
                &&& 0 <= s < old(model).objectives@.len()
                &&& mid.to_multiset() == old(model).mating_pool@.to_multiset()
                &&& #[trigger] crossed_pools(mid, final(model).mating_pool@, s)
            },
        final(model).objectives@ == old(model).objectives@,
        final(model).population@ == old(model).population@,
        final(model).archive@ == old(model).archive@,
        final(model).population_size == old(model).population_size,
        final(model).neighbourhood_size == old(model).neighbourhood_size,
        final(model).mutation_numerator == old(model).mutation_numerator,
        final(model).mutation_denominator == old(model).mutation_denominator,
        final(model).sort_axis() == if old(model).sort_axis() + 1 >= old(
            model,
        ).objectives@.len() {
            0usize
        } else {
            (old(model).sort_axis() + 1) as usize
        },
{
    let ghost n_obj = old(model).objectives@.len();
    let split_index = rand_below(rng, model.objectives.len());
    sort_pool_by_objective(model);
    neighbourhood_shuffle(model, rng);
    let len = model.mating_pool.len();
    let mut rest: Vec<ModelItem> = Vec::new();
    std::mem::swap(&mut rest, &mut model.mating_pool);
    let ghost mid = rest@;
    let mut out: Vec<ModelItem> = Vec::new();
    while rest.len() >= 2
        invariant
            split_index < n_obj,
            n_obj == model.objectives@.len(),
            mid.len() == len,
            out@.len() + rest@.len() == len,
            out@.len() % 2 == 0,
            rest@ == mid.skip(out@.len() as int),
            forall|c: int|
                0 <= c && 2 * c + 1 < out@.len() ==> {
                    &&& (#[trigger] out@[2 * c]).values@ == mid[2 * c].values@.take(
                        split_index as int,
                    ) + mid[2 * c + 1].values@.skip(split_index as int)
                    &&& out@[2 * c + 1].values@ == mid[2 * c + 1].values@.take(
                        split_index as int,
                    ) + mid[2 * c].values@.skip(split_index as int)
                    &&& out@[2 * c].fitness == mid[2 * c].fitness
                    &&& out@[2 * c + 1].fitness == mid[2 * c + 1].fitness
                    &&& out@[2 * c].custom_data_index == mid[2 * c].custom_data_index
                    &&& out@[2 * c + 1].custom_data_index == mid[2 * c + 1].custom_data_index
                },
            forall|p: int|
                0 <= p < rest@.len() ==> (#[trigger] rest@[p]).values@.len() == n_obj,
            forall|p: int| 0 <= p < out@.len() ==> (#[trigger] out@[p]).values@.len() == n_obj,
            model.mating_pool@.len() == 0,
            model.objectives@ == old(model).objectives@,
            model.population@ == old(model).population@,
            model.archive@ == old(model).archive@,
            model.population_size == old(model).population_size,
            model.neighbourhood_size == old(model).neighbourhood_size,
            model.mutation_numerator == old(model).mutation_numerator,
            model.mutation_denominator == old(model).mutation_denominator,
            model.sort_axis() == if old(model).sort_axis() + 1 >= old(
                model,
            ).objectives@.len() {
                0usize
            } else {
                (old(model).sort_axis() + 1) as usize
            },
        decreases rest.len(),
    {
        let ghost done = out@.len() as int;
        let mut a = rest.remove(0);
        let mut b = rest.remove(0);
        proof {
            assert(a == mid[done]);
            assert(b == mid[done + 1]);
        }
        perform_crossover(&mut a, &mut b, split_index);
        out.push(a);
        out.push(b);
        proof {
            assert(rest@ =~= mid.skip(done + 2));
            assert forall|c: int|
                0 <= c && 2 * c + 1 < out@.len() implies {
                &&& (#[trigger] out@[2 * c]).values@ == mid[2 * c].values@.take(
                    split_index as int,
                ) + mid[2 * c + 1].values@.skip(split_index as int)
                &&& out@[2 * c + 1].values@ == mid[2 * c + 1].values@.take(split_index as int)
                    + mid[2 * c].values@.skip(split_index as int)
                &&& out@[2 * c].fitness == mid[2 * c].fitness
                &&& out@[2 * c + 1].fitness == mid[2 * c + 1].fitness
                &&& out@[2 * c].custom_data_index == mid[2 * c].custom_data_index
                &&& out@[2 * c + 1].custom_data_index == mid[2 * c + 1].custom_data_index
            } by {
                if 2 * c + 1 < done {
                }
            }
        }
    }
    if rest.len() == 1 {
        let x = rest.remove(0);
        proof {
            assert(x == mid[out@.len() as int]);
        }
        out.push(x);
    }
    model.mating_pool = out;
    proof {
        let fin = model.mating_pool@;
        let s = split_index as int;
        assert(crossed_pools(mid, fin, s)) by {
            if mid.len() % 2 == 1 {
                assert(fin[mid.len() - 1] == mid[mid.len() - 1]);
            }
        }
        assert(0 <= s < old(model).objectives@.len() && mid.to_multiset() == old(
            model,
        ).mating_pool@.to_multiset() && crossed_pools(mid, fin, s));
    }
}

} // verus!
