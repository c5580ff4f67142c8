//! Facts about runs of items that the other modules lean on.

use vstd::prelude::*;
use vstd::seq_lib::{lemma_flatten_concat, lemma_multiset_commutative};

verus! {

/// Nothing comes of putting empty runs one after the other.
pub proof fn lemma_flatten_of_empties<A>(runs: Seq<Seq<A>>)
    requires
        forall|at: int| 0 <= at < runs.len() ==> (#[trigger] runs[at]).len() == 0,
    ensures
        runs.flatten().len() == 0,
    decreases runs.len(),
{
    if runs.len() > 0 {
        assert(runs.first() == runs[0]);
        assert forall|at: int| 0 <= at < runs.drop_first().len() implies (
        #[trigger] runs.drop_first()[at]).len() == 0 by {
            assert(runs.drop_first()[at] == runs[at + 1]);
        }
        lemma_flatten_of_empties(runs.drop_first());
    }
}

/// Mapping each item of each run and then putting the runs one after the other
/// gives what mapping each item of the runs put one after the other gives.
pub proof fn lemma_flatten_map<A, B>(runs: Seq<Seq<A>>, each: spec_fn(A) -> B)
    ensures
        runs.map_values(|run: Seq<A>| run.map_values(each)).flatten() == runs.flatten().map_values(
            each,
        ),
    decreases runs.len(),
{
    let mapped = runs.map_values(|run: Seq<A>| run.map_values(each));
    if runs.len() == 0 {
        assert(mapped.flatten() =~= runs.flatten().map_values(each));
    } else {
        lemma_flatten_map(runs.drop_first(), each);
        assert(mapped.drop_first() =~= runs.drop_first().map_values(
            |run: Seq<A>| run.map_values(each),
        ));
        assert(mapped.flatten() =~= runs.flatten().map_values(each));
    }
}

/// Runs put one after the other are the runs before one of them, that run,
/// and the runs behind it.
pub proof fn lemma_flatten_split<A>(runs: Seq<Seq<A>>, at: int)
    requires
        0 <= at < runs.len(),
    ensures
        runs.flatten() == runs.take(at).flatten() + runs[at] + runs.skip(at + 1).flatten(),
{
    assert(runs =~= runs.take(at).push(runs[at]) + runs.skip(at + 1));
    lemma_flatten_concat(runs.take(at).push(runs[at]), runs.skip(at + 1));
    runs.take(at).lemma_flatten_push(runs[at]);
}

/// Two runs with the same items, each as often as in the other, still have
/// the same items after each item has been mapped.
pub proof fn lemma_map_multiset<A, B>(first: Seq<A>, second: Seq<A>, each: spec_fn(A) -> B)
    requires
        first.to_multiset() == second.to_multiset(),
    ensures
        first.map_values(each).to_multiset() == second.map_values(each).to_multiset(),
    decreases first.len(),
{
    broadcast use vstd::seq_lib::group_to_multiset_ensures;

    if first.len() == 0 {
        assert(first.to_multiset().len() == 0);
        assert(second.to_multiset().len() == 0);
        assert(first.map_values(each) =~= second.map_values(each));
    } else {
        let last = first.last();
        let front = first.drop_last();
        assert(first =~= front.push(last));
        assert(first.to_multiset().count(last) > 0);
        assert(second.to_multiset().count(last) > 0);
        assert(second.contains(last));
        let at = choose|at: int| 0 <= at < second.len() && second[at] == last;
        let rest = second.remove(at);
        assert(front.to_multiset() =~= first.to_multiset().remove(last));
        assert(rest.to_multiset() =~= front.to_multiset());
        lemma_map_multiset(front, rest, each);
        assert(first.map_values(each) =~= front.map_values(each).push(each(last)));
        assert(second.map_values(each) =~= rest.map_values(each).insert(at, each(last)));
    }
}

/// Two runs with the same items, each as often as in the other, still have
/// the same items after each item has been put for a run of its own and the
/// runs have been put one after the other.
pub proof fn lemma_flat_map_multiset<A, B>(
    first: Seq<A>,
    second: Seq<A>,
    each: spec_fn(A) -> Seq<B>,
)
    requires
        first.to_multiset() == second.to_multiset(),
    ensures
        first.map_values(each).flatten().to_multiset() == second.map_values(
            each,
        ).flatten().to_multiset(),
    decreases first.len(),
{
    broadcast use vstd::seq_lib::group_to_multiset_ensures;
    broadcast use vstd::multiset::group_multiset_axioms;

    if first.len() == 0 {
        assert(first.to_multiset().len() == 0);
        assert(second.to_multiset().len() == 0);
        assert(first.map_values(each) =~= second.map_values(each));
    } else {
        let last = first.last();
        let front = first.drop_last();
        assert(first =~= front.push(last));
        assert(first.to_multiset().count(last) > 0);
        assert(second.to_multiset().count(last) > 0);
        assert(second.contains(last));
        let at = choose|at: int| 0 <= at < second.len() && second[at] == last;
        let rest = second.remove(at);
        assert(front.to_multiset() =~= first.to_multiset().remove(last));
        assert(rest.to_multiset() =~= front.to_multiset());
        lemma_flat_map_multiset(front, rest, each);
        let runs = second.map_values(each);
        let before = runs.take(at).flatten();
        let behind = runs.skip(at + 1).flatten();
        assert(first.map_values(each) =~= front.map_values(each).push(each(last)));
        front.map_values(each).lemma_flatten_push(each(last));
        lemma_flatten_split(runs, at);
        assert(rest.map_values(each) =~= runs.take(at) + runs.skip(at + 1));
        lemma_flatten_concat(runs.take(at), runs.skip(at + 1));
        lemma_multiset_commutative(front.map_values(each).flatten(), each(last));
        lemma_multiset_commutative(before, behind);
        lemma_multiset_commutative(before, each(last));
        lemma_multiset_commutative(before + each(last), behind);
        assert(first.map_values(each).flatten().to_multiset() =~= runs.flatten().to_multiset());
    }
}

/// Where a test on the mapped items agrees with a test on the items
/// themselves, as many mapped items pass the one as items pass the other.
pub proof fn lemma_filter_len_of_map<A, B>(
    items: Seq<A>,
    each: spec_fn(A) -> B,
    before: spec_fn(A) -> bool,
    after: spec_fn(B) -> bool,
)
    requires
        forall|at: int| 0 <= at < items.len() ==> after(each(#[trigger] items[at])) == before(
            items[at],
        ),
    ensures
        items.map_values(each).filter(after).len() == items.filter(before).len(),
    decreases items.len(),
{
    if items.len() == 0 {
        assert(items.map_values(each) =~= Seq::empty());
        assert(Seq::<B>::empty().filter(after).len() == 0) by {
            Seq::<B>::empty().lemma_filter_len(after);
        }
        assert(items.filter(before).len() == 0) by {
            items.lemma_filter_len(before);
        }
    } else {
        let front = items.drop_last();
        let last = items.last();
        assert(items =~= front.push(last));
        assert forall|at: int| 0 <= at < front.len() implies after(each(#[trigger] front[at]))
            == before(front[at]) by {
            assert(front[at] == items[at]);
        }
        lemma_filter_len_of_map(front, each, before, after);
        assert(items.map_values(each) =~= front.map_values(each).push(each(last)));
        front.map_values(each).lemma_filter_push(each(last), after);
        front.lemma_filter_push(last, before);
        assert(after(each(items[items.len() - 1])) == before(items[items.len() - 1]));
    }
}

} // verus!
