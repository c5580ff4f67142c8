//! Arranging sources in ascending order of path.

use crate::input::{Input, InputView};
use crate::order::{comes_before, lemma_path_le_total, lemma_path_le_transitive, path_le};
use vstd::prelude::*;

verus! {

/// The mathematical values of a run of sources.
pub open spec fn input_views(inputs: Seq<Input>) -> Seq<InputView> {
    inputs.map_values(|input: Input| input@)
}

/// The paths of the sources, in their order.
pub open spec fn paths_of(inputs: Seq<InputView>) -> Seq<Seq<char>> {
    inputs.map_values(|input: InputView| input.path)
}

/// Whether the paths of the sources never descend from one to the next.
pub open spec fn ascending(sources: Seq<InputView>) -> bool {
    forall|i: int, j: int|
        0 <= i <= j < sources.len() ==> path_le(
            (#[trigger] sources[i]).path,
            (#[trigger] sources[j]).path,
        )
}

/// The sources found at one path, in the order in which they stand.
pub open spec fn with_path(sources: Seq<InputView>, path: Seq<char>) -> Seq<InputView> {
    sources.filter(|source: InputView| source.path == path)
}

/// An ascending run with one more source put in behind every source that it
/// does not come before.
pub open spec fn inserted(sorted: Seq<InputView>, source: InputView) -> Seq<InputView>
    decreases sorted.len(),
{
    if sorted.len() == 0 || path_le(sorted.last().path, source.path) {
        sorted.push(source)
    } else {
        inserted(sorted.drop_last(), source).push(sorted.last())
    }
}

/// The sources in ascending order of path; sources of one path keep the order
/// in which they were found.
pub open spec fn sorted_by_path(sources: Seq<InputView>) -> Seq<InputView>
    decreases sources.len(),
{
    if sources.len() == 0 {
        Seq::empty()
    } else {
        inserted(sorted_by_path(sources.drop_last()), sources.last())
    }
}

/// Where [`inserted`] puts the new source: at the one place that has only
/// sources that it comes strictly before behind it.
pub proof fn lemma_inserted_at(sorted: Seq<InputView>, source: InputView, at: int)
    requires
        0 <= at <= sorted.len(),
        at > 0 ==> path_le(sorted[at - 1].path, source.path),
        forall|j: int| at <= j < sorted.len() ==> !path_le(sorted[j].path, source.path),
    ensures
        inserted(sorted, source) == sorted.insert(at, source),
    decreases sorted.len() - at,
{
    if at == sorted.len() {
        assert(sorted.push(source) =~= sorted.insert(at, source));
    } else {
        let front = sorted.drop_last();
        lemma_inserted_at(front, source, at);
        assert(front.insert(at, source).push(sorted.last()) =~= sorted.insert(at, source));
    }
}

/// Putting a source into an ascending run leaves it ascending.
pub proof fn lemma_inserted_ascending(sorted: Seq<InputView>, source: InputView)
    requires
        ascending(sorted),
    ensures
        ascending(inserted(sorted, source)),
    decreases sorted.len(),
{
    let after = inserted(sorted, source);
    if sorted.len() == 0 || path_le(sorted.last().path, source.path) {
        assert forall|i: int, j: int| 0 <= i <= j < after.len() implies path_le(
            (#[trigger] after[i]).path,
            (#[trigger] after[j]).path,
        ) by {
            if j == sorted.len() {
                if i < j {
                    assert(path_le(sorted[i].path, sorted[sorted.len() - 1].path));
                    lemma_path_le_transitive(sorted[i].path, sorted.last().path, source.path);
                } else {
                    crate::order::lemma_path_le_reflexive(source.path);
                }
            } else {
                assert(path_le(sorted[i].path, sorted[j].path));
            }
        }
    } else {
        let front = sorted.drop_last();
        assert(ascending(front)) by {
            assert forall|i: int, j: int| 0 <= i <= j < front.len() implies path_le(
                (#[trigger] front[i]).path,
                (#[trigger] front[j]).path,
            ) by {
                assert(path_le(sorted[i].path, sorted[j].path));
            }
        }
        lemma_inserted_ascending(front, source);
        lemma_inserted_members(front, source);
        let middle = inserted(front, source);
        lemma_path_le_total(sorted.last().path, source.path);
        assert forall|i: int, j: int| 0 <= i <= j < after.len() implies path_le(
            (#[trigger] after[i]).path,
            (#[trigger] after[j]).path,
        ) by {
            if j == middle.len() {
                if i < j {
                    assert(middle.contains(middle[i]));
                    if middle[i] == source {
                    } else {
                        assert(front.contains(middle[i]));
                        let k = choose|k: int| 0 <= k < front.len() && front[k] == middle[i];
                        assert(path_le(sorted[k].path, sorted[sorted.len() - 1].path));
                    }
                } else {
                    crate::order::lemma_path_le_reflexive(sorted.last().path);
                }
            } else {
                assert(path_le(middle[i].path, middle[j].path));
            }
        }
    }
}

/// [`inserted`] holds the new source and the sources of the run, and no other.
pub proof fn lemma_inserted_members(sorted: Seq<InputView>, source: InputView)
    ensures
        inserted(sorted, source).len() == sorted.len() + 1,
        inserted(sorted, source).to_multiset() == sorted.to_multiset().insert(source),
        forall|other: InputView|
            inserted(sorted, source).contains(other) <==> (other == source || sorted.contains(
                other,
            )),
    decreases sorted.len(),
{
    broadcast use vstd::seq_lib::group_to_multiset_ensures;

    let after = inserted(sorted, source);
    if sorted.len() == 0 || path_le(sorted.last().path, source.path) {
    } else {
        let front = sorted.drop_last();
        lemma_inserted_members(front, source);
        assert(sorted =~= front.push(sorted.last()));
        assert(after.to_multiset() =~= sorted.to_multiset().insert(source));
    }
    assert forall|other: InputView|
        after.contains(other) <==> (other == source || sorted.contains(other)) by {
        assert(after.contains(other) <==> after.to_multiset().count(other) > 0);
        assert(sorted.contains(other) <==> sorted.to_multiset().count(other) > 0);
    }
}

/// Putting a source in changes only the run of its own path, at whose end it
/// comes to stand.
pub proof fn lemma_inserted_with_path(sorted: Seq<InputView>, source: InputView, path: Seq<char>)
    ensures
        with_path(inserted(sorted, source), path) == if source.path == path {
            with_path(sorted, path).push(source)
        } else {
            with_path(sorted, path)
        },
    decreases sorted.len(),
{
    broadcast use Seq::lemma_filter_push;

    let same = |other: InputView| other.path == path;
    if sorted.len() == 0 || path_le(sorted.last().path, source.path) {
    } else {
        let front = sorted.drop_last();
        lemma_inserted_with_path(front, source, path);
        assert(sorted =~= front.push(sorted.last()));
        crate::order::lemma_path_le_reflexive(source.path);
        assert(sorted.last().path != source.path);
    }
}

/// [`sorted_by_path`] returns the same sources, none lost and none added, in
/// ascending order of path.
pub proof fn lemma_sorted_by_path(sources: Seq<InputView>)
    ensures
        ascending(sorted_by_path(sources)),
        sorted_by_path(sources).len() == sources.len(),
        sorted_by_path(sources).to_multiset() == sources.to_multiset(),
    decreases sources.len(),
{
    broadcast use vstd::seq_lib::group_to_multiset_ensures;

    if sources.len() > 0 {
        let front = sources.drop_last();
        lemma_sorted_by_path(front);
        lemma_inserted_ascending(sorted_by_path(front), sources.last());
        lemma_inserted_members(sorted_by_path(front), sources.last());
        assert(sources =~= front.push(sources.last()));
    }
}

/// [`sorted_by_path`] keeps the sources of any one path in the order in which
/// they were found.
pub proof fn lemma_sorted_by_path_stable(sources: Seq<InputView>, path: Seq<char>)
    ensures
        with_path(sorted_by_path(sources), path) == with_path(sources, path),
    decreases sources.len(),
{
    broadcast use Seq::lemma_filter_push;

    if sources.len() > 0 {
        let front = sources.drop_last();
        lemma_sorted_by_path_stable(front, path);
        lemma_inserted_with_path(sorted_by_path(front), sources.last(), path);
        assert(sources =~= front.push(sources.last()));
    }
}

/// Puts one more source into an ascending run, behind every source of the run
/// that it does not come before.
pub fn insert_by_path(sorted: &mut Vec<Input>, source: Input)
    ensures
        input_views(final(sorted)@) == inserted(input_views(old(sorted)@), source@),
{
    let ghost before = input_views(sorted@);
    let mut at = sorted.len();
    while at > 0 && !comes_before(sorted[at - 1].path.as_str(), source.path.as_str())
        invariant
            at <= sorted.len(),
            before == input_views(sorted@),
            forall|j: int| at <= j < sorted.len() ==> !path_le(before[j].path, source.path@),
        decreases at,
    {
        at -= 1;
    }
    proof {
        lemma_inserted_at(before, source@, at as int);
    }
    sorted.insert(at, source);
    assert(input_views(sorted@) =~= before.insert(at as int, source@));
}

} // verus!
