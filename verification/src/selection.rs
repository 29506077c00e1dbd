//! The environmental selector: partitions the scored union by the fitness
//! threshold, then extends or truncates the non-dominated set to the archive
//! capacity; truncation repeatedly removes the candidate chosen by the
//! closest-pair rule with its positional tie-break.
use vstd::prelude::*;
use vstd::relations::sorted_by;
use crate::fitness::{sq_dist, squared_distance};
use crate::model::{Distance, Model, ModelItem};
use crate::sort::{distance_le, item_fitness_le, sort_distances, sort_items_by_fitness};

verus! {

/// The candidate is kept in the non-dominated partition: its fitness is
/// strictly below one.
pub open spec fn is_non_dominated_item(item: ModelItem) -> bool {
    item.fitness.spec_is_non_dominated()
}

/// The partition predicate for the non-dominated part, as a value.
pub open spec fn nondom_pred() -> spec_fn(ModelItem) -> bool {
    |it: ModelItem| is_non_dominated_item(it)
}

/// The partition predicate for the dominated part, as a value.
pub open spec fn dom_pred() -> spec_fn(ModelItem) -> bool {
    |it: ModelItem| !is_non_dominated_item(it)
}

/// The value vectors of a candidate list.
pub open spec fn item_values(items: Seq<ModelItem>) -> Seq<Seq<i32>> {
    Seq::new(items.len(), |i: int| items[i].values@)
}

/// Drains population and archive (in that order) into two lists: the
/// candidates with fitness below one (`non_dominated`) and the rest
/// (`dominated`), both in enumeration order; both source lists become empty.
pub fn drain_model_by_dominance(model: &mut Model) -> (r: (Vec<ModelItem>, Vec<ModelItem>))
    ensures
        r.0@ == (old(model).population@ + old(model).archive@).filter(dom_pred()),
        r.1@ == (old(model).population@ + old(model).archive@).filter(nondom_pred()),
        final(model).population@.len() == 0,
        final(model).archive@.len() == 0,
        final(model).objectives@ == old(model).objectives@,
        final(model).mating_pool@ == old(model).mating_pool@,
        final(model).population_size == old(model).population_size,
        final(model).neighbourhood_size == old(model).neighbourhood_size,
        final(model).mutation_numerator == old(model).mutation_numerator,
        final(model).mutation_denominator == old(model).mutation_denominator,
        final(model).sort_axis() == old(model).sort_axis(),
{
    let ghost union = old(model).population@ + old(model).archive@;
    let ghost dpred = dom_pred();
    let ghost npred = nondom_pred();
    let mut dominated: Vec<ModelItem> = Vec::new();
    let mut non_dominated: Vec<ModelItem> = Vec::new();
    proof {
        reveal(Seq::filter);
        assert(union.take(0) =~= Seq::<ModelItem>::empty());
    }
    let n_pop = model.population.len();
    let mut i: usize = 0;
    while i < n_pop
        invariant
            i <= n_pop,
            n_pop == old(model).population@.len(),
            model.population@.len() == n_pop - i,
            model.population@ =~= old(model).population@.skip(i as int),
            model.archive@ == old(model).archive@,
            model.objectives@ == old(model).objectives@,
            model.mating_pool@ == old(model).mating_pool@,
            model.population_size == old(model).population_size,
            model.neighbourhood_size == old(model).neighbourhood_size,
            model.mutation_numerator == old(model).mutation_numerator,
            model.mutation_denominator == old(model).mutation_denominator,
            model.sort_axis() == old(model).sort_axis(),
            dominated@ == union.take(i as int).filter(dpred),
            non_dominated@ == union.take(i as int).filter(npred),
        decreases n_pop - i,
    {
        let item = model.population.remove(0);
        proof {
            reveal(Seq::filter);
            assert(union[i as int] == old(model).population@[i as int]);
            assert(union.take(i as int + 1) =~= union.take(i as int).push(item));
            assert(union.take(i as int + 1).drop_last() =~= union.take(i as int));
            assert(model.population@ =~= old(model).population@.skip(i as int + 1));
        }
        if item.fitness.is_non_dominated() {
            non_dominated.push(item);
        } else {
            dominated.push(item);
        }
        i = i + 1;
    }
    let n_arch = model.archive.len();
    let mut j: usize = 0;
    while j < n_arch
        invariant
            j <= n_arch,
            n_pop == old(model).population@.len(),
            n_arch == old(model).archive@.len(),
            model.population@.len() == 0,
            model.archive@.len() == n_arch - j,
            model.archive@ =~= old(model).archive@.skip(j as int),
            model.objectives@ == old(model).objectives@,
            model.mating_pool@ == old(model).mating_pool@,
            model.population_size == old(model).population_size,
            model.neighbourhood_size == old(model).neighbourhood_size,
            model.mutation_numerator == old(model).mutation_numerator,
            model.mutation_denominator == old(model).mutation_denominator,
            model.sort_axis() == old(model).sort_axis(),
            dominated@ == union.take(n_pop + j as int).filter(dpred),
            non_dominated@ == union.take(n_pop + j as int).filter(npred),
        decreases n_arch - j,
    {
        let item = model.archive.remove(0);
        proof {
            reveal(Seq::filter);
            assert(union[n_pop + j as int] == old(model).archive@[j as int]);
            assert(union.take(n_pop + j as int + 1) =~= union.take(n_pop + j as int).push(item));
            assert(union.take(n_pop + j as int + 1).drop_last() =~= union.take(n_pop + j as int));
            assert(model.archive@ =~= old(model).archive@.skip(j as int + 1));
        }
        if item.fitness.is_non_dominated() {
            non_dominated.push(item);
        } else {
            dominated.push(item);
        }
        j = j + 1;
    }
    proof {
        assert(union.take(n_pop + n_arch as int) =~= union);
    }
    (dominated, non_dominated)
}

/// The distance records of all unordered pairs of candidates from position
/// `(i, j)` onwards, in enumeration order: `(0,1), (0,2), ..., (1,2), ...`.
pub open spec fn pair_distances_from(vals: Seq<Seq<i32>>, i: int, j: int) -> Seq<Distance>
    decreases vals.len() - i, vals.len() + 1 - j,
{
    if !(0 <= i && i < j && j <= vals.len() && i < vals.len()) {
        Seq::empty()
    } else if j == vals.len() {
        pair_distances_from(vals, i + 1, i + 2)
    } else {
        seq![
            Distance {
                from: i as usize,
                to: j as usize,
                value: sq_dist(vals[i], vals[j]) as u128,
            },
        ] + pair_distances_from(vals, i, j + 1)
    }
}

/// All pairwise distance records of a candidate list, in enumeration order.
pub open spec fn pair_distances(vals: Seq<Seq<i32>>) -> Seq<Distance> {
    pair_distances_from(vals, 0, 1)
}

/// Every record of the pair enumeration has `i <= from < to < n`.
pub proof fn lemma_pair_distances_from_bounds(vals: Seq<Seq<i32>>, i: int, j: int)
    requires
        vals.len() <= usize::MAX,
    ensures
        forall|p: int|
            0 <= p < pair_distances_from(vals, i, j).len() ==> {
                let d = #[trigger] pair_distances_from(vals, i, j)[p];
                &&& i <= d.from
                &&& (d.from as int) < (d.to as int)
                &&& (d.to as int) < vals.len()
            },
    decreases vals.len() - i, vals.len() + 1 - j,
{
    let s = pair_distances_from(vals, i, j);
    if !(0 <= i && i < j && j <= vals.len() && i < vals.len()) {
    } else if j == vals.len() {
        lemma_pair_distances_from_bounds(vals, i + 1, i + 2);
        let rest = pair_distances_from(vals, i + 1, i + 2);
        assert forall|p: int| 0 <= p < s.len() implies {
            let d = #[trigger] s[p];
            &&& i <= d.from
            &&& (d.from as int) < (d.to as int)
            &&& (d.to as int) < vals.len()
        } by {
            assert(s[p] == rest[p]);
        }
    } else {
        lemma_pair_distances_from_bounds(vals, i, j + 1);
        let rest = pair_distances_from(vals, i, j + 1);
        assert forall|p: int| 0 <= p < s.len() implies {
            let d = #[trigger] s[p];
            &&& i <= d.from
            &&& (d.from as int) < (d.to as int)
            &&& (d.to as int) < vals.len()
        } by {
            if p == 0 {
                assert(s[p].from == i as usize);
                assert(s[p].to == j as usize);
            } else {
                assert(s[p] == rest[p - 1]);
            }
        }
    }
}

/// Computes the distance record of every unordered pair of candidates, in
/// enumeration order.
pub fn get_orderable_distances(items: &Vec<ModelItem>) -> (r: Vec<Distance>)
    requires
        forall|a: int, b: int|
            0 <= a < items@.len() && 0 <= b < items@.len() ==> (#[trigger] items@[a]).values@.len()
                == (#[trigger] items@[b]).values@.len(),
    ensures
        r@ == pair_distances(item_values(items@)),
{
    let ghost vals = item_values(items@);
    let d_len = items.len();
    let mut out: Vec<Distance> = Vec::new();
    let mut i: usize = 0;
    proof {
        if d_len == 0 {
            assert(pair_distances_from(vals, 0, 1) =~= Seq::<Distance>::empty());
        }
    }
    while i < d_len
        invariant
            i <= d_len,
            d_len == items@.len(),
            out@ + pair_distances_from(vals, i as int, i as int + 1) == pair_distances(vals),
        decreases d_len - i,
    {
        let mut j: usize = i + 1;
        while j < d_len
            invariant
                i < d_len,
                i < j,
                j <= d_len,
                d_len == items@.len(),
                out@ + pair_distances_from(vals, i as int, j as int) == pair_distances(vals),
            decreases d_len - j,
        {
            let v = squared_distance(&items[i].values, &items[j].values);
            let d = Distance { from: i, to: j, value: v };
            let ghost out0 = out@;
            out.push(d);
            proof {
                assert(d.value as int == sq_dist(vals[i as int], vals[j as int]));
                assert(d == pair_distances_from(vals, i as int, j as int)[0]);
                assert(out0 + pair_distances_from(vals, i as int, j as int) =~= out@
                    + pair_distances_from(vals, i as int, j as int + 1));
            }
            j = j + 1;
        }
        proof {
            if i as int + 1 == d_len as int {
                assert(pair_distances_from(vals, i as int, d_len as int) =~= pair_distances_from(
                    vals,
                    i as int + 1,
                    i as int + 2,
                ));
            }
        }
        i = i + 1;
    }
    proof {
        assert(pair_distances_from(vals, d_len as int, d_len as int + 1) =~= Seq::<
            Distance,
        >::empty());
        assert(out@ + pair_distances_from(vals, d_len as int, d_len as int + 1) =~= out@);
    }
    out
}

/// The records that mention the candidate at position `a`, in order.
pub open spec fn anchored(ds: Seq<Distance>, a: usize) -> Seq<Distance> {
    ds.filter(|d: Distance| d.from == a || d.to == a)
}

/// Positional comparison of two anchored record lists from position `i` on:
/// the first position where the values differ decides, the smaller value's
/// record is returned; equal prefixes decide nothing.
pub open spec fn tiebreak_from(d1: Seq<Distance>, d2: Seq<Distance>, i: int) -> Option<Distance>
    decreases d1.len() - i,
{
    if i < 0 || i >= d1.len() || i >= d2.len() {
        None
    } else if d1[i].value < d2[i].value {
        Some(d1[i])
    } else if d2[i].value < d1[i].value {
        Some(d2[i])
    } else {
        tiebreak_from(d1, d2, i + 1)
    }
}

/// The record that the truncation step resolves to on a sorted record list:
/// the first record, unless the two smallest values tie across different
/// anchor indices, in which case the lists anchored at candidates 0 and 1 are
/// compared positionally from their second entries on; if no entry differs,
/// the first record stands.
pub open spec fn closest_of(ds: Seq<Distance>) -> Distance {
    if ds.len() >= 2 && ds[0].value == ds[1].value && ds[0].from != ds[1].from {
        match tiebreak_from(anchored(ds, 0), anchored(ds, 1), 1) {
            Some(d) => d,
            None => ds[0],
        }
    } else {
        ds[0]
    }
}

/// Every element of a filtered sequence is an element of the original.
pub proof fn lemma_filter_elements_contained<A>(s: Seq<A>, pred: spec_fn(A) -> bool)
    ensures
        forall|p: int|
            0 <= p < s.filter(pred).len() ==> s.contains(#[trigger] s.filter(pred)[p]),
    decreases s.len(),
{
    reveal(Seq::filter);
    if s.len() != 0 {
        let sub = s.drop_last();
        lemma_filter_elements_contained(sub, pred);
        let f = s.filter(pred);
        assert forall|p: int| 0 <= p < f.len() implies s.contains(f[p]) by {
            if pred(s.last()) && p == f.len() - 1 {
                assert(f[p] == s.last());
                assert(s[s.len() - 1] == s.last());
            } else {
                assert(f[p] == sub.filter(pred)[p]);
                assert(sub.contains(f[p]));
                let w = choose|w: int| 0 <= w < sub.len() && sub[w] == f[p];
                assert(s[w] == f[p]);
            }
        }
    }
}

/// A record resolved by the positional comparison comes from one of the two
/// lists.
pub proof fn lemma_tiebreak_contained(d1: Seq<Distance>, d2: Seq<Distance>, i: int)
    ensures
        tiebreak_from(d1, d2, i) matches Some(d) ==> d1.contains(d) || d2.contains(d),
    decreases d1.len() - i,
{
    if i < 0 || i >= d1.len() || i >= d2.len() {
    } else if d1[i].value < d2[i].value {
        assert(d1.contains(d1[i]));
    } else if d2[i].value < d1[i].value {
        assert(d2.contains(d2[i]));
    } else {
        lemma_tiebreak_contained(d1, d2, i + 1);
    }
}

/// Collects the records that mention the candidate at position `a`.
fn anchored_exec(ds: &Vec<Distance>, a: usize) -> (r: Vec<Distance>)
    ensures
        r@ == anchored(ds@, a),
{
    let ghost pred = |d: Distance| d.from == a || d.to == a;
    let mut r: Vec<Distance> = Vec::new();
    let mut i: usize = 0;
    proof {
        reveal(Seq::filter);
        assert(ds@.take(0) =~= Seq::<Distance>::empty());
    }
    while i < ds.len()
        invariant
            i <= ds@.len(),
            r@ == ds@.take(i as int).filter(pred),
        decreases ds@.len() - i,
    {
        let d = ds[i];
        proof {
            reveal(Seq::filter);
            assert(ds@.take(i as int + 1) =~= ds@.take(i as int).push(d));
            assert(ds@.take(i as int + 1).drop_last() =~= ds@.take(i as int));
        }
        if d.from == a || d.to == a {
            r.push(d);
        }
        i = i + 1;
    }
    proof {
        assert(ds@.take(ds@.len() as int) =~= ds@);
    }
    r
}

/// Compares the record lists anchored at candidates `a` and `b` positionally
/// from their second entries on, over their shared length; returns the record
/// of the first differing (smaller) entry, or nothing when no entry differs.
fn distance_tiebreak(distances: &Vec<Distance>, a: usize, b: usize) -> (r: Option<Distance>)
    ensures
        r == tiebreak_from(anchored(distances@, a), anchored(distances@, b), 1),
        r matches Some(d) ==> distances@.contains(d),
{
    let d1 = anchored_exec(distances, a);
    let d2 = anchored_exec(distances, b);
    let mut i: usize = 1;
    let mut result: Option<Distance> = None;
    while i < d1.len() && i < d2.len()
        invariant
            1 <= i,
            result == None::<Distance>,
            tiebreak_from(d1@, d2@, 1) == tiebreak_from(d1@, d2@, i as int),
        decreases d1@.len() - i,
    {
        if d1[i].value < d2[i].value {
            result = Some(d1[i]);
            proof {
                assert(tiebreak_from(d1@, d2@, i as int) == Some(d1@[i as int]));
            }
            break ;
        } else if d2[i].value < d1[i].value {
            result = Some(d2[i]);
            proof {
                assert(tiebreak_from(d1@, d2@, i as int) == Some(d2@[i as int]));
            }
            break ;
        }
        i = i + 1;
    }
    proof {
        if result is None {
            assert(tiebreak_from(d1@, d2@, i as int) == None::<Distance>);
        }
        lemma_tiebreak_contained(d1@, d2@, 1);
        lemma_filter_elements_contained(
            distances@,
            |d: Distance| d.from == a || d.to == a,
        );
        lemma_filter_elements_contained(
            distances@,
            |d: Distance| d.from == b || d.to == b,
        );
        match tiebreak_from(d1@, d2@, 1) {
            Some(d) => {
                if d1@.contains(d) {
                    let w = choose|w: int| 0 <= w < d1@.len() && d1@[w] == d;
                    assert(distances@.contains(d1@[w]));
                } else {
                    let w = choose|w: int| 0 <= w < d2@.len() && d2@[w] == d;
                    assert(distances@.contains(d2@[w]));
                }
            },
            None => {},
        }
    }
    result
}

/// Resolves the record that the truncation step removes by: the first record
/// of the sorted list, with the positional tie-break between the two leading
/// anchors when their values tie.
pub fn get_closest(distances: &Vec<Distance>) -> (r: Distance)
    requires
        distances@.len() >= 1,
    ensures
        r == closest_of(distances@),
        distances@.contains(r),
{
    if distances.len() >= 2 && distances[0].value == distances[1].value && distances[0].from
        != distances[1].from {
        match distance_tiebreak(distances, 0, 1) {
            Some(d) => d,
            None => {
                proof {
                    assert(distances@.contains(distances@[0]));
                }
                distances[0]
            },
        }
    } else {
        proof {
            assert(distances@.contains(distances@[0]));
        }
        distances[0]
    }
}

/// One truncation step: recompute all pairwise distances, sort them, resolve
/// the closest pair (with tie-break), and remove the record's `from`
/// candidate.
pub open spec fn truncate_once(items: Seq<ModelItem>) -> Seq<ModelItem> {
    let sorted_ds = pair_distances(item_values(items)).sort_by(distance_le());
    let c = closest_of(sorted_ds);
    items.remove(c.from as int)
}

/// `k` truncation steps in a row.
pub open spec fn truncate_steps(items: Seq<ModelItem>, k: nat) -> Seq<ModelItem>
    decreases k,
{
    if k == 0 {
        items
    } else {
        truncate_steps(truncate_once(items), (k - 1) as nat)
    }
}

/// A predicate and its negation split a sequence into two parts whose lengths
/// sum to the whole.
pub proof fn lemma_filter_partition_len<A>(s: Seq<A>, pred: spec_fn(A) -> bool, npred: spec_fn(A) -> bool)
    requires
        forall|x: A| #[trigger] npred(x) == !pred(x),
    ensures
        s.filter(pred).len() + s.filter(npred).len() == s.len(),
    decreases s.len(),
{
    reveal(Seq::filter);
    if s.len() != 0 {
        lemma_filter_partition_len(s.drop_last(), pred, npred);
    }
}

/// All candidates of the list carry equally long value vectors.
pub open spec fn uniform_values(items: Seq<ModelItem>) -> bool {
    forall|a: int, b: int|
        0 <= a < items.len() && 0 <= b < items.len() ==> (#[trigger] items[a]).values@.len() == (
        #[trigger] items[b]).values@.len()
}

/// Brings the non-dominated set to the archive capacity: extends it with the
/// best-fitness dominated candidates when it falls short, truncates it by the
/// closest-pair rule when it overshoots, leaves it alone when it matches.
/// Returns the sorted distance records of the final truncation round (empty
/// when no truncation happened), as a diagnostic for callers.
pub fn ensure_archive_size(
    dominated: Vec<ModelItem>,
    non_dominated: &mut Vec<ModelItem>,
    archive_size: usize,
) -> (r: Vec<Distance>)
    requires
        archive_size >= 1,
        uniform_values(old(non_dominated)@),
    ensures
        final(non_dominated)@.len() == if old(non_dominated)@.len() >= archive_size {
            archive_size as int
        } else if old(non_dominated)@.len() + dominated@.len() >= archive_size {
            archive_size as int
        } else {
            old(non_dominated)@.len() + dominated@.len() as int
        },
        old(non_dominated)@.len() == archive_size ==> final(non_dominated)@ == old(
            non_dominated,
        )@,
        old(non_dominated)@.len() > archive_size ==> final(non_dominated)@ == truncate_steps(
            old(non_dominated)@,
            (old(non_dominated)@.len() - archive_size) as nat,
        ),
        old(non_dominated)@.len() < archive_size ==> exists|sd: Seq<ModelItem>|
            {
                &&& #[trigger] sd.to_multiset() == dominated@.to_multiset()
                &&& sorted_by(sd, item_fitness_le())
                &&& final(non_dominated)@ == old(non_dominated)@ + sd.take(
                    if archive_size - old(non_dominated)@.len() <= sd.len() {
                        archive_size - old(non_dominated)@.len()
                    } else {
                        sd.len() as int
                    },
                )
            },
        forall|x: ModelItem|
            #[trigger] final(non_dominated)@.contains(x) ==> old(non_dominated)@.contains(x)
                || dominated@.contains(x),
        old(non_dominated)@.len() <= archive_size ==> r@ == Seq::<Distance>::empty(),
        old(non_dominated)@.len() > archive_size ==> r@ == pair_distances(
            item_values(
                truncate_steps(
                    old(non_dominated)@,
                    (old(non_dominated)@.len() - archive_size - 1) as nat,
                ),
            ),
        ).sort_by(distance_le()),
{
    broadcast use vstd::seq_lib::group_to_multiset_ensures;

    let ghost orig = old(non_dominated)@;
    let nd_len = non_dominated.len();
    if nd_len < archive_size {
        let want = archive_size - nd_len;
        let mut sorted_dom = sort_items_by_fitness(dominated);
        let ghost sd = sorted_dom@;
        sorted_dom.truncate(want);
        proof {
            assert(sorted_dom@ == sd.take(
                if want <= sd.len() {
                    want as int
                } else {
                    sd.len() as int
                },
            ));
        }
        let ghost taken = sorted_dom@;
        non_dominated.append(&mut sorted_dom);
        proof {
            assert forall|x: ModelItem| non_dominated@.contains(x) implies orig.contains(x)
                || dominated@.contains(x) by {
                if !orig.contains(x) {
                    let w = choose|w: int|
                        0 <= w < non_dominated@.len() && non_dominated@[w] == x;
                    assert(taken[w - orig.len()] == x);
                    assert(sd.contains(x));
                    assert(sd.to_multiset().contains(x));
                    assert(dominated@.to_multiset().contains(x));
                }
            }
        }
        Vec::new()
    } else if nd_len > archive_size {
        let mut r_dist: Vec<Distance> = Vec::new();
        let ghost mut steps: nat = 0nat;
        while non_dominated.len() > archive_size
            invariant
                archive_size >= 1,
                non_dominated@ == truncate_steps(orig, steps),
                non_dominated@.len() == orig.len() - steps,
                non_dominated@.len() >= archive_size,
                orig.len() >= archive_size,
                uniform_values(non_dominated@),
                forall|x: ModelItem| non_dominated@.contains(x) ==> orig.contains(x),
                steps >= 1 ==> r_dist@ == pair_distances(
                    item_values(truncate_steps(orig, (steps - 1) as nat)),
                ).sort_by(distance_le()),
            decreases non_dominated@.len(),
        {
            let ghost before = non_dominated@;
            let ds = get_orderable_distances(&non_dominated);
            let sorted = sort_distances(ds);
            let closest = get_closest(&sorted);
            proof {
                assert(sorted@.to_multiset().contains(closest));
                assert(pair_distances(item_values(before)).to_multiset().contains(closest));
                assert(pair_distances(item_values(before)).contains(closest));
                lemma_pair_distances_from_bounds(item_values(before), 0, 1);
                let w = choose|w: int|
                    0 <= w < pair_distances(item_values(before)).len() && pair_distances(
                        item_values(before),
                    )[w] == closest;
                assert((closest.from as int) < item_values(before).len());
            }
            let removed_at = closest.from;
            non_dominated.remove(removed_at);
            r_dist = sorted;
            proof {
                before.remove_ensures(removed_at as int);
                assert(non_dominated@ == truncate_once(before));
                assert(truncate_steps(orig, (steps + 1) as nat) == truncate_once(
                    truncate_steps(orig, steps),
                )) by {
                    lemma_truncate_steps_back(orig, steps);
                }
                assert forall|x: ModelItem| non_dominated@.contains(x) implies orig.contains(
                    x,
                ) by {
                    let w = choose|w: int|
                        0 <= w < non_dominated@.len() && non_dominated@[w] == x;
                    if w < removed_at as int {
                        assert(before[w] == x);
                    } else {
                        assert(before[w + 1] == x);
                    }
                    assert(before.contains(x));
                }
                assert forall|a: int, b: int|
                    0 <= a < non_dominated@.len() && 0 <= b < non_dominated@.len() implies (
                #[trigger] non_dominated@[a]).values@.len() == (
                #[trigger] non_dominated@[b]).values@.len() by {
                    if a < removed_at as int {
                        assert(before[a] == non_dominated@[a]);
                    } else {
                        assert(before[a + 1] == non_dominated@[a]);
                    }
                    if b < removed_at as int {
                        assert(before[b] == non_dominated@[b]);
                    } else {
                        assert(before[b + 1] == non_dominated@[b]);
                    }
                }
                steps = steps + 1;
            }
        }
        r_dist
    } else {
        Vec::new()
    }
}

/// The union of a container's population and archive, in that order.
pub open spec fn union_of(m: Model) -> Seq<ModelItem> {
    m.population@ + m.archive@
}

/// The candidates of the union with fitness below one, in enumeration order.
pub open spec fn non_dominated_of(m: Model) -> Seq<ModelItem> {
    union_of(m).filter(nondom_pred())
}

/// The candidates of the union with fitness of one or more, in enumeration
/// order.
pub open spec fn dominated_of(m: Model) -> Seq<ModelItem> {
    union_of(m).filter(dom_pred())
}

/// The environmental selector: drains population and archive, partitions them
/// by the fitness threshold, brings the non-dominated part to the archive
/// capacity (the population size), and installs it as the new archive. The
/// population and the mating pool are left for the reproduction pipeline.
pub fn apply_selection(model: &mut Model)
    requires
        old(model).wf(),
        old(model).population_size >= 1,
    ensures
        final(model).wf(),
        final(model).population@.len() == 0,
        final(model).mating_pool@ == old(model).mating_pool@,
        final(model).objectives@ == old(model).objectives@,
        final(model).population_size == old(model).population_size,
        final(model).neighbourhood_size == old(model).neighbourhood_size,
        final(model).mutation_numerator == old(model).mutation_numerator,
        final(model).mutation_denominator == old(model).mutation_denominator,
        final(model).sort_axis() == old(model).sort_axis(),
        final(model).archive@.len() == if union_of(*old(model)).len()
            >= old(model).population_size {
            old(model).population_size as int
        } else {
            union_of(*old(model)).len() as int
        },
        non_dominated_of(*old(model)).len() == old(model).population_size
            ==> final(model).archive@ == non_dominated_of(*old(model)),
        non_dominated_of(*old(model)).len() > old(model).population_size
            ==> final(model).archive@ == truncate_steps(
            non_dominated_of(*old(model)),
            (non_dominated_of(*old(model)).len() - old(model).population_size) as nat,
        ),
        non_dominated_of(*old(model)).len() < old(model).population_size ==> exists|
            sd: Seq<ModelItem>,
        |
            {
                &&& #[trigger] sd.to_multiset() == dominated_of(*old(model)).to_multiset()
                &&& sorted_by(sd, item_fitness_le())
                &&& final(model).archive@ == non_dominated_of(*old(model)) + sd.take(
                    if old(model).population_size - non_dominated_of(*old(model)).len()
                        <= sd.len() {
                        old(model).population_size - non_dominated_of(*old(model)).len()
                    } else {
                        sd.len() as int
                    },
                )
            },
{
    let ghost union = union_of(*old(model));
    let ghost n_obj = old(model).objectives@.len();
    proof {
        lemma_filter_elements_contained(union, nondom_pred());
        lemma_filter_elements_contained(union, dom_pred());
        assert forall|x: ModelItem| #[trigger] dom_pred()(x) == !nondom_pred()(x) by {}
        lemma_filter_partition_len(union, nondom_pred(), dom_pred());
        broadcast use vstd::seq_lib::group_filter_ensures;
    }
    let archive_size = model.population_size;
    let r = drain_model_by_dominance(model);
    let dominated = r.0;
    let mut non_dominated = r.1;
    proof {
        assert forall|x: ModelItem| union.contains(x) implies x.values@.len() == n_obj by {
            let w = choose|w: int| 0 <= w < union.len() && union[w] == x;
            if w < old(model).population@.len() {
                assert(old(model).population@[w] == x);
            } else {
                assert(old(model).archive@[w - old(model).population@.len()] == x);
            }
        }
        assert forall|a: int, b: int|
            0 <= a < non_dominated@.len() && 0 <= b < non_dominated@.len() implies (
        #[trigger] non_dominated@[a]).values@.len() == (
        #[trigger] non_dominated@[b]).values@.len() by {
            assert(union.contains(non_dominated@[a]));
            assert(union.contains(non_dominated@[b]));
        }
    }
    ensure_archive_size(dominated, &mut non_dominated, archive_size);
    proof {
        assert forall|i: int| 0 <= i < non_dominated@.len() implies (
        #[trigger] non_dominated@[i]).values@.len() == n_obj by {
            let x = non_dominated@[i];
            assert(non_dominated@.contains(x));
            assert(union_of(*old(model)).contains(x)) by {
                if non_dominated_of(*old(model)).contains(x) {
                    let w = choose|w: int|
                        0 <= w < non_dominated_of(*old(model)).len() && non_dominated_of(
                            *old(model),
                        )[w] == x;
                    assert(union.contains(non_dominated_of(*old(model))[w]));
                } else {
                    let w = choose|w: int|
                        0 <= w < dominated_of(*old(model)).len() && dominated_of(
                            *old(model),
                        )[w] == x;
                    assert(union.contains(dominated_of(*old(model))[w]));
                }
            }
        }
    }
    model.archive = non_dominated;
}

/// Stepping `k + 1` times equals `k` steps followed by one more.
pub proof fn lemma_truncate_steps_back(items: Seq<ModelItem>, k: nat)
    ensures
        truncate_steps(items, (k + 1) as nat) == truncate_once(truncate_steps(items, k)),
    decreases k,
{
    let once = truncate_once(items);
    if k == 0 {
        assert(truncate_steps(items, 1nat) == truncate_steps(once, 0nat));
        assert(truncate_steps(once, 0nat) == once);
    } else {
        lemma_truncate_steps_back(once, (k - 1) as nat);
        assert(truncate_steps(items, (k + 1) as nat) == truncate_steps(once, k));
        assert(truncate_steps(items, k) == truncate_steps(once, (k - 1) as nat));
    }
}

} // verus!
