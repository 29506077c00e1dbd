//! Verified insertion sorts for the three orderings the optimizer needs:
//! plain squared distances, distance records (by value, then endpoints, which
//! reproduces a stable sort of the enumeration order), and candidates by
//! fitness.
use vstd::prelude::*;
use vstd::relations::{sorted_by, strongly_connected, total_ordering, transitive};
use vstd::seq_lib::{lemma_multiset_commutative, lemma_sorted_unique};
use crate::model::{Distance, ModelItem};

verus! {

/// The order by which a candidate's distance row is sorted.
pub open spec fn u128_le() -> spec_fn(u128, u128) -> bool {
    |x: u128, y: u128| x <= y
}

/// `u128_le` is a total ordering.
pub proof fn lemma_u128_le_total()
    ensures
        total_ordering(u128_le()),
{
    let leq = u128_le();
    assert forall|x: u128, y: u128| #[trigger] leq(x, y) || #[trigger] leq(y, x) by {}
}

/// The total order on distance records: ascending by value, ties broken by
/// the `from` endpoint and then the `to` endpoint. Because the enumeration of
/// pairs produces lexicographically increasing endpoints, sorting by this
/// order equals a stable ascending sort by value of the enumeration.
pub open spec fn distance_le() -> spec_fn(Distance, Distance) -> bool {
    |a: Distance, b: Distance|
        a.value < b.value || (a.value == b.value && (a.from < b.from || (a.from == b.from
            && a.to <= b.to)))
}

/// `distance_le` is a total ordering.
pub proof fn lemma_distance_le_total()
    ensures
        total_ordering(distance_le()),
{
    let leq = distance_le();
    assert forall|x: Distance, y: Distance| #[trigger] leq(x, y) || #[trigger] leq(y, x) by {}
}

/// Candidates ordered by their fitness (a preorder: distinct candidates may
/// share a fitness value).
pub open spec fn item_fitness_le() -> spec_fn(ModelItem, ModelItem) -> bool {
    |a: ModelItem, b: ModelItem| a.fitness.spec_le(b.fitness)
}

/// The fitness order on candidates is transitive and total.
pub proof fn lemma_item_fitness_le_props()
    ensures
        transitive(item_fitness_le()),
        strongly_connected(item_fitness_le()),
{
    let leq = item_fitness_le();
    assert forall|x: ModelItem, y: ModelItem| #[trigger] leq(x, y) || #[trigger] leq(y, x) by {}
}

/// Inserting an element into a sequence inserts it into the multiset view.
pub proof fn lemma_seq_insert_multiset<A>(s: Seq<A>, p: int, x: A)
    requires
        0 <= p <= s.len(),
    ensures
        s.insert(p, x).to_multiset() == s.to_multiset().insert(x),
{
    broadcast use vstd::seq_lib::group_to_multiset_ensures;
    broadcast use vstd::multiset::group_multiset_axioms;

    let pre = s.subrange(0, p);
    let post = s.subrange(p, s.len() as int);
    assert(s.insert(p, x) =~= pre.push(x) + post);
    lemma_multiset_commutative(pre.push(x), post);
    assert(s =~= pre + post);
    lemma_multiset_commutative(pre, post);
    assert(pre.push(x).to_multiset() =~= pre.to_multiset().insert(x));
    assert(pre.to_multiset().insert(x).add(post.to_multiset()) =~= pre.to_multiset().add(
        post.to_multiset(),
    ).insert(x));
    assert(s.insert(p, x).to_multiset() =~= s.to_multiset().insert(x));
}

/// Inserting `x` at the position found by a sorted-insert scan keeps the
/// sequence sorted: everything before position `p` is below `x` and, by
/// totality, `x` is below the element at `p`.
pub proof fn lemma_sorted_insert<A>(s: Seq<A>, p: int, x: A, leq: spec_fn(A, A) -> bool)
    requires
        transitive(leq),
        strongly_connected(leq),
        sorted_by(s, leq),
        0 <= p <= s.len(),
        forall|q: int| 0 <= q < p ==> #[trigger] leq(s[q], x),
        p < s.len() ==> !leq(s[p], x),
    ensures
        sorted_by(s.insert(p, x), leq),
{
    let t = s.insert(p, x);
    assert forall|i: int, j: int| 0 <= i < j < t.len() implies #[trigger] leq(t[i], t[j]) by {
        if i < p && j < p {
            assert(t[i] == s[i] && t[j] == s[j]);
        } else if i < p && j == p {
            assert(t[i] == s[i] && t[j] == x);
        } else if i < p && j > p {
            assert(t[i] == s[i] && t[j] == s[j - 1]);
            assert(leq(s[i], s[j - 1]));
        } else if i == p {
            assert(t[i] == x && t[j] == s[j - 1]);
            assert(!leq(s[p], x));
            assert(leq(x, s[p]));
            if j - 1 > p {
                assert(leq(s[p], s[j - 1]));
            }
        } else {
            assert(t[i] == s[i - 1] && t[j] == s[j - 1]);
        }
    }
}

/// Sorts a row of squared distances ascending; the result is exactly the
/// mathematical sort of the input.
pub fn sort_u128s(v: &Vec<u128>) -> (r: Vec<u128>)
    ensures
        r@ == v@.sort_by(u128_le()),
        r@.len() == v@.len(),
        r@.to_multiset() == v@.to_multiset(),
        sorted_by(r@, u128_le()),
{
    proof {
        lemma_u128_le_total();
    }
    let ghost leq = u128_le();
    let mut out: Vec<u128> = Vec::new();
    let mut i: usize = 0;
    proof {
        assert(out@ =~= v@.subrange(0, 0));
    }
    while i < v.len()
        invariant
            i <= v.len(),
            sorted_by(out@, leq),
            out@.to_multiset() == v@.subrange(0, i as int).to_multiset(),
        decreases v.len() - i,
    {
        let x = v[i];
        let mut p: usize = 0;
        while p < out.len() && out[p] <= x
            invariant
                p <= out.len(),
                forall|q: int| 0 <= q < p ==> #[trigger] leq(out@[q], x),
            decreases out.len() - p,
        {
            p = p + 1;
        }
        let ghost out0 = out@;
        out.insert(p, x);
        proof {
            broadcast use vstd::seq_lib::group_to_multiset_ensures;

            lemma_seq_insert_multiset(out0, p as int, x);
            lemma_sorted_insert(out0, p as int, x, leq);
            assert(v@.subrange(0, i as int + 1) =~= v@.subrange(0, i as int).push(x));
        }
        i = i + 1;
    }
    proof {
        broadcast use vstd::seq_lib::group_to_multiset_ensures;

        assert(v@.subrange(0, v@.len() as int) =~= v@);
        v@.lemma_sort_by_ensures(leq);
        lemma_sorted_unique(out@, v@.sort_by(leq), leq);
        assert(out@ =~= v@.sort_by(leq));
        assert(out@.len() == out@.to_multiset().len());
        assert(v@.len() == v@.to_multiset().len());
    }
    out
}

/// Executable comparison for [`distance_le`].
fn distance_le_exec(a: &Distance, b: &Distance) -> (r: bool)
    ensures
        r == distance_le()(*a, *b),
{
    a.value < b.value || (a.value == b.value && (a.from < b.from || (a.from == b.from && a.to
        <= b.to)))
}

/// Sorts distance records by [`distance_le`]; since that order is total and
/// the records of a pair enumeration are pairwise distinct, the result is
/// exactly the mathematical sort of the input, and equals a stable ascending
/// sort by distance value.
pub fn sort_distances(v: Vec<Distance>) -> (r: Vec<Distance>)
    ensures
        r@ == v@.sort_by(distance_le()),
        r@.len() == v@.len(),
        r@.to_multiset() == v@.to_multiset(),
        sorted_by(r@, distance_le()),
{
    proof {
        lemma_distance_le_total();
    }
    let ghost leq = distance_le();
    let mut out: Vec<Distance> = Vec::new();
    let mut i: usize = 0;
    proof {
        assert(out@ =~= v@.subrange(0, 0));
    }
    while i < v.len()
        invariant
            i <= v.len(),
            sorted_by(out@, leq),
            out@.to_multiset() == v@.subrange(0, i as int).to_multiset(),
        decreases v.len() - i,
    {
        let x = v[i];
        let mut p: usize = 0;
        while p < out.len() && distance_le_exec(&out[p], &x)
            invariant
                p <= out.len(),
                forall|q: int| 0 <= q < p ==> #[trigger] leq(out@[q], x),
            decreases out.len() - p,
        {
            p = p + 1;
        }
        let ghost out0 = out@;
        out.insert(p, x);
        proof {
            broadcast use vstd::seq_lib::group_to_multiset_ensures;

            lemma_seq_insert_multiset(out0, p as int, x);
            lemma_sorted_insert(out0, p as int, x, leq);
            assert(v@.subrange(0, i as int + 1) =~= v@.subrange(0, i as int).push(x));
        }
        i = i + 1;
    }
    proof {
        broadcast use vstd::seq_lib::group_to_multiset_ensures;

        assert(v@.subrange(0, v@.len() as int) =~= v@);
        v@.lemma_sort_by_ensures(leq);
        lemma_sorted_unique(out@, v@.sort_by(leq), leq);
        assert(out@ =~= v@.sort_by(leq));
        assert(out@.len() == out@.to_multiset().len());
        assert(v@.len() == v@.to_multiset().len());
    }
    out
}

/// Sorts candidates ascending by fitness. The result holds exactly the input
/// candidates (as a multiset) in fitness order.
pub fn sort_items_by_fitness(v: Vec<ModelItem>) -> (r: Vec<ModelItem>)
    ensures
        r@.to_multiset() == v@.to_multiset(),
        r@.len() == v@.len(),
        sorted_by(r@, item_fitness_le()),
{
    proof {
        lemma_item_fitness_le_props();
    }
    let ghost leq = item_fitness_le();
    let ghost orig = v@;
    let mut rest = v;
    let mut out: Vec<ModelItem> = Vec::new();
    proof {
        assert(out@ + rest@ =~= orig);
        lemma_multiset_commutative(out@, rest@);
    }
    while rest.len() > 0
        invariant
            sorted_by(out@, leq),
            out@.to_multiset().add(rest@.to_multiset()) == orig.to_multiset(),
        decreases rest.len(),
    {
        let ghost rest0 = rest@;
        let x = rest.remove(0);
        let fx = x.fitness;
        let mut p: usize = 0;
        while p < out.len() && out[p].fitness.le(&fx)
            invariant
                p <= out.len(),
                forall|q: int| 0 <= q < p ==> #[trigger] leq(out@[q], x),
            decreases out.len() - p,
        {
            p = p + 1;
        }
        let ghost out0 = out@;
        out.insert(p, x);
        proof {
            broadcast use vstd::seq_lib::group_to_multiset_ensures;
            broadcast use vstd::multiset::group_multiset_axioms;

            lemma_seq_insert_multiset(out0, p as int, x);
            lemma_sorted_insert(out0, p as int, x, leq);
            assert(rest0.to_multiset().contains(x));
            assert(out@.to_multiset().add(rest@.to_multiset()) =~= orig.to_multiset());
        }
    }
    proof {
        broadcast use vstd::seq_lib::group_to_multiset_ensures;
        broadcast use vstd::multiset::group_multiset_axioms;

        assert(out@ + rest@ =~= out@);
        lemma_multiset_commutative(out@, rest@);
        assert(out@.to_multiset() =~= orig.to_multiset());
        assert(out@.len() == out@.to_multiset().len());
        assert(orig.len() == orig.to_multiset().len());
    }
    out
}


/// Candidates ordered by their value on one axis of the value vector (a
/// preorder: distinct candidates may share a value).
pub open spec fn item_axis_le(axis: int) -> spec_fn(ModelItem, ModelItem) -> bool {
    |a: ModelItem, b: ModelItem| a.values@[axis] <= b.values@[axis]
}

/// The axis order on candidates is transitive and total.
pub proof fn lemma_item_axis_le_props(axis: int)
    ensures
        transitive(item_axis_le(axis)),
        strongly_connected(item_axis_le(axis)),
{
    let leq = item_axis_le(axis);
    assert forall|x: ModelItem, y: ModelItem| #[trigger] leq(x, y) || #[trigger] leq(y, x) by {}
}

/// Sorts candidates ascending by their value on the given axis. The result
/// holds exactly the input candidates (as a multiset) in axis order.
pub fn sort_items_by_axis(v: Vec<ModelItem>, axis: usize) -> (r: Vec<ModelItem>)
    requires
        forall|i: int| 0 <= i < v@.len() ==> (axis as int) < (#[trigger] v@[i]).values@.len(),
    ensures
        r@.to_multiset() == v@.to_multiset(),
        r@.len() == v@.len(),
        sorted_by(r@, item_axis_le(axis as int)),
{
    proof {
        lemma_item_axis_le_props(axis as int);
    }
    let ghost leq = item_axis_le(axis as int);
    let ghost orig = v@;
    let mut rest = v;
    let mut out: Vec<ModelItem> = Vec::new();
    proof {
        assert(out@ + rest@ =~= orig);
        lemma_multiset_commutative(out@, rest@);
    }
    while rest.len() > 0
        invariant
            sorted_by(out@, leq),
            out@.to_multiset().add(rest@.to_multiset()) == orig.to_multiset(),
            forall|i: int|
                0 <= i < rest@.len() ==> (axis as int) < (#[trigger] rest@[i]).values@.len(),
            forall|i: int|
                0 <= i < out@.len() ==> (axis as int) < (#[trigger] out@[i]).values@.len(),
        decreases rest.len(),
    {
        let ghost rest0 = rest@;
        let x = rest.remove(0);
        let xv = x.values[axis];
        let mut p: usize = 0;
        while p < out.len() && out[p].values[axis] <= xv
            invariant
                p <= out.len(),
                forall|q: int| 0 <= q < p ==> #[trigger] leq(out@[q], x),
            decreases out.len() - p,
        {
            p = p + 1;
        }
        let ghost out0 = out@;
        out.insert(p, x);
        proof {
            broadcast use vstd::seq_lib::group_to_multiset_ensures;
            broadcast use vstd::multiset::group_multiset_axioms;

            lemma_seq_insert_multiset(out0, p as int, x);
            lemma_sorted_insert(out0, p as int, x, leq);
            assert(rest0.to_multiset().contains(x));
            assert(out@.to_multiset().add(rest@.to_multiset()) =~= orig.to_multiset());
            assert forall|i: int|
                0 <= i < out@.len() implies (axis as int) < (#[trigger] out@[i]).values@.len() by {
                if i < p {
                    assert(out@[i] == out0[i]);
                } else if i > p {
                    assert(out@[i] == out0[i - 1]);
                }
            }
        }
    }
    proof {
        broadcast use vstd::seq_lib::group_to_multiset_ensures;
        broadcast use vstd::multiset::group_multiset_axioms;

        assert(out@ + rest@ =~= out@);
        lemma_multiset_commutative(out@, rest@);
        assert(out@.to_multiset() =~= orig.to_multiset());
        assert(out@.len() == out@.to_multiset().len());
        assert(orig.len() == orig.to_multiset().len());
    }
    out
}

} // verus!
