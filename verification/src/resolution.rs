//! What holds of every resolution of patterns into a job.

use crate::arrange::{
    ascending, lemma_sorted_by_path, lemma_sorted_by_path_stable, paths_of, sorted_by_path,
    with_path,
};
use crate::error::StitchErrorView;
use crate::input::InputView;
use crate::order::{
    lemma_path_le_antisymmetric, lemma_path_le_reflexive, lemma_path_le_total,
    lemma_path_le_transitive, path_le,
};
use crate::pattern::glob_accepts;
use crate::runs::{
    lemma_filter_len_of_map, lemma_flat_map_multiset, lemma_flatten_map,
    lemma_flatten_of_empties, lemma_flatten_split, lemma_map_multiset,
};
use crate::stitch::{
    all_outcomes, candidates_at, expansion_at, file_outcomes, first_failure, first_malformed,
    lemma_all_ok_no_failure, lemma_first_failure_concat, lemma_first_refused, lemma_no_failure,
    matched_files, outcome_of, outcomes_by_pattern, pattern_outcomes, refused_at,
    regular_files, rejections, resolved, sources_of, verdicts, CandidateView, ExpansionView,
};
use vstd::prelude::*;
use vstd::seq_lib::lemma_sorted_unique;

verus! {

/// Whether the pattern at a position is malformed: the glob syntax refuses it
/// or its expansion was refused.
pub open spec fn malformed_at(
    patterns: Seq<Seq<char>>,
    expansions: Seq<ExpansionView>,
    at: int,
) -> bool {
    !glob_accepts(patterns[at]) || expansion_at(expansions, at) is Rejected
}

/// The first malformed pattern is malformed, and no pattern before it is;
/// where there is none, no pattern is malformed.
pub proof fn lemma_first_malformed(patterns: Seq<Seq<char>>, expansions: Seq<ExpansionView>)
    ensures
        match first_malformed(patterns, expansions) {
            Some(at) => 0 <= at < patterns.len() && malformed_at(patterns, expansions, at)
                && forall|before: int|
                0 <= before < at ==> !malformed_at(patterns, expansions, before),
            None => forall|at: int|
                0 <= at < patterns.len() ==> !malformed_at(patterns, expansions, at),
        },
{
    let accepted = verdicts(patterns);
    let refused = rejections(expansions);
    lemma_first_refused(accepted, refused);
    assert forall|at: int| 0 <= at < patterns.len() implies refused_at(accepted, refused, at)
        == malformed_at(patterns, expansions, at) by {}
}

/// A malformed pattern ends the resolution with `InvalidPattern`, whatever the
/// patterns are that stand with it and whatever any of them matched. The
/// failure carries the first malformed pattern of the list, which is this one
/// where none before it is malformed.
pub proof fn lemma_malformed_pattern_fails(
    patterns: Seq<Seq<char>>,
    expansions: Seq<ExpansionView>,
    at: int,
)
    requires
        0 <= at < patterns.len(),
        malformed_at(patterns, expansions, at),
    ensures
        first_malformed(patterns, expansions) matches Some(first) && 0 <= first <= at
            && malformed_at(patterns, expansions, first) && resolved(patterns, expansions) == Err::<
            Seq<InputView>,
            StitchErrorView,
        >(StitchErrorView::InvalidPattern { pattern: patterns[first] }),
        (forall|before: int| 0 <= before < at ==> !malformed_at(patterns, expansions, before))
            ==> resolved(patterns, expansions) == Err::<Seq<InputView>, StitchErrorView>(
            StitchErrorView::InvalidPattern { pattern: patterns[at] },
        ),
{
    lemma_first_malformed(patterns, expansions);
}

/// Patterns that are all well formed and that matched no regular file end the
/// resolution with `NoMatchingInputs`, which carries the patterns as they were
/// given.
pub proof fn lemma_nothing_matched(patterns: Seq<Seq<char>>, expansions: Seq<ExpansionView>)
    requires
        forall|at: int|
            0 <= at < patterns.len() ==> glob_accepts(#[trigger] patterns[at]) && (expansion_at(
                expansions,
                at,
            ) matches ExpansionView::Paths(candidates) && regular_files(candidates).len() == 0),
    ensures
        resolved(patterns, expansions) == Err::<Seq<InputView>, StitchErrorView>(
            StitchErrorView::NoMatchingInputs { patterns },
        ),
{
    let each = outcomes_by_pattern(patterns, expansions);
    lemma_first_malformed(patterns, expansions);
    assert forall|at: int| 0 <= at < patterns.len() implies !malformed_at(
        patterns,
        expansions,
        at,
    ) by {
        assert(glob_accepts(patterns[at]));
    }
    assert forall|at: int| 0 <= at < each.len() implies (#[trigger] each[at]).len() == 0 by {
        assert(glob_accepts(patterns[at]));
    }
    lemma_flatten_of_empties(each);
}

/// Whether every pattern is well formed: the glob syntax accepts it and its
/// expansion was not refused.
pub open spec fn all_well_formed(
    patterns: Seq<Seq<char>>,
    expansions: Seq<ExpansionView>,
) -> bool {
    forall|at: int|
        0 <= at < patterns.len() ==> glob_accepts(#[trigger] patterns[at]) && expansion_at(
            expansions,
            at,
        ) is Paths
}

/// Whether every one of the files classifies as a supported format.
pub open spec fn all_supported(files: Seq<CandidateView>) -> bool {
    forall|at: int| 0 <= at < files.len() ==> outcome_of(#[trigger] files[at]) is Ok
}

/// Where every pattern is well formed, the results are those of the matched
/// regular files, one for one and in their order.
pub proof fn lemma_outcomes_of_matched_files(
    patterns: Seq<Seq<char>>,
    expansions: Seq<ExpansionView>,
)
    requires
        all_well_formed(patterns, expansions),
    ensures
        all_outcomes(patterns, expansions) == matched_files(
            patterns.len(),
            expansions,
        ).map_values(|candidate: CandidateView| outcome_of(candidate)),
{
    let files = Seq::new(patterns.len(), |at: int| regular_files(candidates_at(expansions, at)));
    let classify = |candidate: CandidateView| outcome_of(candidate);
    lemma_flatten_map(files, classify);
    assert(outcomes_by_pattern(patterns, expansions) =~= files.map_values(
        |run: Seq<CandidateView>| run.map_values(classify),
    )) by {
        assert forall|at: int| 0 <= at < patterns.len() implies outcomes_by_pattern(
            patterns,
            expansions,
        )[at] == files[at].map_values(classify) by {
            assert(glob_accepts(patterns[at]));
            assert(file_outcomes(candidates_at(expansions, at)) =~= files[at].map_values(
                classify,
            ));
        }
    }
}

/// Patterns that are all well formed and that together matched at least one
/// regular file, every one of them of a supported format, resolve to a job
/// that holds exactly one source for each matched file, the record of that
/// file, and holds them in ascending order of path.
pub proof fn lemma_all_matches_resolved(patterns: Seq<Seq<char>>, expansions: Seq<ExpansionView>)
    requires
        all_well_formed(patterns, expansions),
        all_supported(matched_files(patterns.len(), expansions)),
        matched_files(patterns.len(), expansions).len() >= 1,
    ensures
        resolved(patterns, expansions) matches Ok(sources) && sources.len() == matched_files(
            patterns.len(),
            expansions,
        ).len() && ascending(sources) && sources.to_multiset() == matched_files(
            patterns.len(),
            expansions,
        ).map_values(|candidate: CandidateView| outcome_of(candidate)->Ok_0).to_multiset(),
{
    let files = matched_files(patterns.len(), expansions);
    let outcomes = all_outcomes(patterns, expansions);
    lemma_outcomes_of_matched_files(patterns, expansions);
    lemma_first_malformed(patterns, expansions);
    assert forall|at: int| 0 <= at < patterns.len() implies !malformed_at(
        patterns,
        expansions,
        at,
    ) by {
        assert(glob_accepts(patterns[at]));
    }
    assert forall|at: int| 0 <= at < outcomes.len() implies (#[trigger] outcomes[at]) is Ok by {
        assert(outcome_of(files[at]) is Ok);
    }
    lemma_all_ok_no_failure(outcomes);
    lemma_sorted_by_path(sources_of(outcomes));
    assert(sources_of(outcomes) =~= files.map_values(
        |candidate: CandidateView| outcome_of(candidate)->Ok_0,
    ));
}

/// Two ascending runs of the same sources list the same paths in the same
/// order.
pub proof fn lemma_ascending_paths_unique(first: Seq<InputView>, second: Seq<InputView>)
    requires
        ascending(first),
        ascending(second),
        first.to_multiset() == second.to_multiset(),
    ensures
        paths_of(first) == paths_of(second),
{
    let le = |a: Seq<char>, b: Seq<char>| path_le(a, b);
    assert(vstd::relations::total_ordering(le)) by {
        assert forall|a: Seq<char>| #[trigger] le(a, a) by {
            lemma_path_le_reflexive(a);
        }
        assert forall|a: Seq<char>, b: Seq<char>| #[trigger]
            le(a, b) && #[trigger] le(b, a) implies a == b by {
            lemma_path_le_antisymmetric(a, b);
        }
        assert forall|a: Seq<char>, b: Seq<char>, c: Seq<char>| #[trigger]
            le(a, b) && #[trigger] le(b, c) implies le(a, c) by {
            lemma_path_le_transitive(a, b, c);
        }
        assert forall|a: Seq<char>, b: Seq<char>| #[trigger] le(a, b) || #[trigger] le(b, a) by {
            lemma_path_le_total(a, b);
        }
    }
    assert(vstd::relations::sorted_by(paths_of(first), le)) by {
        assert forall|i: int, j: int| 0 <= i < j < paths_of(first).len() implies #[trigger] le(
            paths_of(first)[i],
            paths_of(first)[j],
        ) by {
            assert(path_le(first[i].path, first[j].path));
        }
    }
    assert(vstd::relations::sorted_by(paths_of(second), le)) by {
        assert forall|i: int, j: int| 0 <= i < j < paths_of(second).len() implies #[trigger] le(
            paths_of(second)[i],
            paths_of(second)[j],
        ) by {
            assert(path_le(second[i].path, second[j].path));
        }
    }
    lemma_map_multiset(first, second, |input: InputView| input.path);
    lemma_sorted_unique(paths_of(first), paths_of(second), le);
}

/// Whether the expansion lists a regular file at the path.
pub open spec fn lists_file(expansion: ExpansionView, path: Seq<char>) -> bool {
    expansion matches ExpansionView::Paths(candidates) && exists|at: int|
        0 <= at < candidates.len() && (#[trigger] candidates[at]).path == path
            && candidates[at].probe is File
}

/// How many of the sources among the results stand at the path.
pub open spec fn sources_at(
    outcomes: Seq<Result<InputView, StitchErrorView>>,
    path: Seq<char>,
) -> nat {
    with_path(sources_of(outcomes), path).len()
}

/// The sources at a path among two runs of results are those of the one run
/// and those of the other.
pub proof fn lemma_sources_at_concat(
    first: Seq<Result<InputView, StitchErrorView>>,
    second: Seq<Result<InputView, StitchErrorView>>,
    path: Seq<char>,
)
    ensures
        sources_at(first + second, path) == sources_at(first, path) + sources_at(second, path),
{
    assert(sources_of(first + second) =~= sources_of(first) + sources_of(second));
    Seq::filter_distributes_over_add(
        sources_of(first),
        sources_of(second),
        |source: InputView| source.path == path,
    );
}

/// In a resolution that did not fail, a pattern whose expansion lists a
/// regular file at a path contributes a source at that path.
pub proof fn lemma_pattern_keeps_file(
    patterns: Seq<Seq<char>>,
    expansions: Seq<ExpansionView>,
    at: int,
    path: Seq<char>,
)
    requires
        first_failure(all_outcomes(patterns, expansions)).is_none(),
        0 <= at < patterns.len(),
        lists_file(expansion_at(expansions, at), path),
    ensures
        sources_at(outcomes_by_pattern(patterns, expansions)[at], path) >= 1,
{
    let each = outcomes_by_pattern(patterns, expansions);
    let own = each[at];
    lemma_flatten_split(each, at);
    lemma_first_failure_concat(each.take(at).flatten() + own, each.skip(at + 1).flatten());
    lemma_first_failure_concat(each.take(at).flatten(), own);
    lemma_no_failure(own);
    let candidates = expansion_at(expansions, at)->Paths_0;
    let listed = choose|listed: int|
        0 <= listed < candidates.len() && (#[trigger] candidates[listed]).path == path
            && candidates[listed].probe is File;
    let is_file = |candidate: CandidateView| candidate.probe is File;
    candidates.lemma_filter_contains(is_file, listed);
    let files = regular_files(candidates);
    let found = choose|found: int| 0 <= found < files.len() && files[found] == candidates[listed];
    assert(own[found] == outcome_of(candidates[listed]));
    assert(own[found] is Ok);
    let source = sources_of(own)[found];
    assert(source.path == path);
    let same = |source: InputView| source.path == path;
    sources_of(own).lemma_filter_contains(same, found);
    assert(with_path(sources_of(own), path).contains(source));
}

/// Nothing is taken out for standing there twice. Where two patterns each
/// matched a regular file at one path, the job holds a source at that path at
/// least twice.
pub proof fn lemma_overlap_kept(
    patterns: Seq<Seq<char>>,
    expansions: Seq<ExpansionView>,
    first: int,
    second: int,
    path: Seq<char>,
)
    requires
        resolved(patterns, expansions) is Ok,
        0 <= first < second < patterns.len(),
        lists_file(expansion_at(expansions, first), path),
        lists_file(expansion_at(expansions, second), path),
    ensures
        with_path(resolved(patterns, expansions)->Ok_0, path).len() >= 2,
{
    let each = outcomes_by_pattern(patterns, expansions);
    let all = all_outcomes(patterns, expansions);
    lemma_pattern_keeps_file(patterns, expansions, first, path);
    lemma_pattern_keeps_file(patterns, expansions, second, path);
    let behind = each.skip(first + 1);
    lemma_flatten_split(each, first);
    lemma_flatten_split(behind, second - first - 1);
    assert(behind[second - first - 1] == each[second]);
    let head = each.take(first).flatten();
    let middle = behind.take(second - first - 1).flatten();
    let tail = behind.skip(second - first).flatten();
    lemma_sources_at_concat(head + each[first], behind.flatten(), path);
    lemma_sources_at_concat(head, each[first], path);
    lemma_sources_at_concat(middle + each[second], tail, path);
    lemma_sources_at_concat(middle, each[second], path);
    lemma_sorted_by_path_stable(sources_of(all), path);
}

/// The matched files that stand at a path.
pub open spec fn files_at(files: Seq<CandidateView>, path: Seq<char>) -> Seq<CandidateView> {
    files.filter(|file: CandidateView| file.path == path)
}

/// In a resolution that did not fail, every pattern is well formed and every
/// walk came to its end.
pub proof fn lemma_resolved_well_formed(patterns: Seq<Seq<char>>, expansions: Seq<ExpansionView>)
    requires
        resolved(patterns, expansions) is Ok,
    ensures
        all_well_formed(patterns, expansions),
        first_failure(all_outcomes(patterns, expansions)).is_none(),
{
    let each = outcomes_by_pattern(patterns, expansions);
    lemma_first_malformed(patterns, expansions);
    assert forall|at: int| 0 <= at < patterns.len() implies glob_accepts(#[trigger] patterns[at])
        && expansion_at(expansions, at) is Paths by {
        assert(!malformed_at(patterns, expansions, at));
        let own = each[at];
        lemma_flatten_split(each, at);
        lemma_first_failure_concat(each.take(at).flatten() + own, each.skip(at + 1).flatten());
        lemma_first_failure_concat(each.take(at).flatten(), own);
        lemma_no_failure(own);
        if expansion_at(expansions, at) is Interrupted {
            assert(own[own.len() - 1] is Err);
        }
    }
}

/// Nothing is dropped, nothing is added and nothing is taken out for standing
/// there twice: the job holds as many sources at a path as the patterns
/// matched regular files there, a file once for each pattern that matched
/// it.
pub proof fn lemma_matches_counted(
    patterns: Seq<Seq<char>>,
    expansions: Seq<ExpansionView>,
    path: Seq<char>,
)
    requires
        resolved(patterns, expansions) is Ok,
    ensures
        with_path(resolved(patterns, expansions)->Ok_0, path).len() == files_at(
            matched_files(patterns.len(), expansions),
            path,
        ).len(),
{
    let files = matched_files(patterns.len(), expansions);
    let outcomes = all_outcomes(patterns, expansions);
    lemma_resolved_well_formed(patterns, expansions);
    lemma_outcomes_of_matched_files(patterns, expansions);
    lemma_no_failure(outcomes);
    let record = |file: CandidateView| outcome_of(file)->Ok_0;
    assert(sources_of(outcomes) =~= files.map_values(record));
    assert forall|at: int| 0 <= at < files.len() implies (record(#[trigger] files[at]).path == path)
        == (files[at].path == path) by {
        assert(outcomes[at] == outcome_of(files[at]));
        assert(outcomes[at] is Ok);
    }
    lemma_filter_len_of_map(
        files,
        record,
        |file: CandidateView| file.path == path,
        |source: InputView| source.path == path,
    );
    lemma_sorted_by_path_stable(sources_of(outcomes), path);
}

/// Each pattern with what expanding it gave.
pub open spec fn paired(patterns: Seq<Seq<char>>, expansions: Seq<ExpansionView>) -> Seq<
    (Seq<char>, ExpansionView),
> {
    Seq::new(patterns.len(), |at: int| (patterns[at], expansion_at(expansions, at)))
}

/// Whether the files are those of one file system: any two of them at one
/// path are the same file.
pub open spec fn one_file_per_path(files: Seq<CandidateView>) -> bool {
    forall|i: int, j: int|
        0 <= i < files.len() && 0 <= j < files.len() && (#[trigger] files[i]).path == (
        #[trigger] files[j]).path ==> files[i].probe == files[j].probe
}

/// Two ascending runs of the same sources, no two of which differ at one
/// path, are the same run.
pub proof fn lemma_ascending_unique(first: Seq<InputView>, second: Seq<InputView>)
    requires
        ascending(first),
        ascending(second),
        first.to_multiset() == second.to_multiset(),
        forall|i: int, j: int|
            0 <= i < first.len() && 0 <= j < first.len() && (#[trigger] first[i]).path == (
            #[trigger] first[j]).path ==> first[i] == first[j],
    ensures
        first == second,
{
    broadcast use vstd::seq_lib::group_to_multiset_ensures;

    lemma_ascending_paths_unique(first, second);
    assert(first.len() == first.to_multiset().len());
    assert(second.len() == second.to_multiset().len());
    assert forall|at: int| 0 <= at < first.len() implies first[at] == second[at] by {
        assert(paths_of(first)[at] == paths_of(second)[at]);
        assert(second.contains(second[at]));
        assert(second.to_multiset().count(second[at]) > 0);
        assert(first.to_multiset().count(second[at]) > 0);
        assert(first.contains(second[at]));
        let same = choose|same: int| 0 <= same < first.len() && first[same] == second[at];
        assert(first[same].path == first[at].path);
    }
    assert(first =~= second);
}

/// The order of the patterns decides nothing about what the job holds. Where
/// one list of patterns resolves to a job, every list that holds the same
/// patterns with the same expansions, in whatever order, resolves to a job
/// too, with the same sources and at every place the same path.
pub proof fn lemma_resolution_order_free_paths(
    patterns: Seq<Seq<char>>,
    expansions: Seq<ExpansionView>,
    reordered: Seq<Seq<char>>,
    reordered_expansions: Seq<ExpansionView>,
)
    requires
        paired(patterns, expansions).to_multiset() == paired(
            reordered,
            reordered_expansions,
        ).to_multiset(),
        resolved(patterns, expansions) is Ok,
    ensures
        resolved(reordered, reordered_expansions) is Ok,
        resolved(reordered, reordered_expansions)->Ok_0.to_multiset() == resolved(
            patterns,
            expansions,
        )->Ok_0.to_multiset(),
        resolved(reordered, reordered_expansions)->Ok_0.len() == resolved(
            patterns,
            expansions,
        )->Ok_0.len(),
        paths_of(resolved(reordered, reordered_expansions)->Ok_0) == paths_of(
            resolved(patterns, expansions)->Ok_0,
        ),
{
    broadcast use vstd::seq_lib::group_to_multiset_ensures;

    let pairs = paired(patterns, expansions);
    let others = paired(reordered, reordered_expansions);
    let contribution = |pair: (Seq<char>, ExpansionView)| pattern_outcomes(pair.0, pair.1);
    let all = all_outcomes(patterns, expansions);
    let other_all = all_outcomes(reordered, reordered_expansions);
    lemma_resolved_well_formed(patterns, expansions);
    lemma_first_malformed(patterns, expansions);
    lemma_first_malformed(reordered, reordered_expansions);
    assert forall|at: int| 0 <= at < reordered.len() implies !malformed_at(
        reordered,
        reordered_expansions,
        at,
    ) by {
        assert(others.contains(others[at]));
        assert(others.to_multiset().count(others[at]) > 0);
        assert(pairs.to_multiset().count(others[at]) > 0);
        assert(pairs.contains(others[at]));
        let same = choose|same: int| 0 <= same < pairs.len() && pairs[same] == others[at];
        assert(!malformed_at(patterns, expansions, same));
    }
    assert(outcomes_by_pattern(patterns, expansions) =~= pairs.map_values(contribution));
    assert(outcomes_by_pattern(reordered, reordered_expansions) =~= others.map_values(
        contribution,
    ));
    lemma_flat_map_multiset(pairs, others, contribution);
    lemma_no_failure(all);
    assert forall|at: int| 0 <= at < other_all.len() implies (#[trigger] other_all[at]) is Ok by {
        assert(other_all.contains(other_all[at]));
        assert(other_all.to_multiset().count(other_all[at]) > 0);
        assert(all.to_multiset().count(other_all[at]) > 0);
        assert(all.contains(other_all[at]));
        let same = choose|same: int| 0 <= same < all.len() && all[same] == other_all[at];
        assert(all[same] is Ok);
    }
    lemma_all_ok_no_failure(other_all);
    assert(all.len() == all.to_multiset().len());
    assert(other_all.len() == other_all.to_multiset().len());
    let source = |outcome: Result<InputView, StitchErrorView>| outcome->Ok_0;
    lemma_map_multiset(all, other_all, source);
    assert(sources_of(all) =~= all.map_values(source));
    assert(sources_of(other_all) =~= other_all.map_values(source));
    lemma_sorted_by_path(sources_of(all));
    lemma_sorted_by_path(sources_of(other_all));
    lemma_ascending_paths_unique(
        sorted_by_path(sources_of(other_all)),
        sorted_by_path(sources_of(all)),
    );
}

/// The order of the patterns decides nothing about the job. Where one list
/// of patterns resolves to a job over one file system, every list that holds
/// the same patterns with the same expansions, in whatever order, resolves to
/// the same job: as many sources, and at every place the same source with its
/// path, its extension and its format.
pub proof fn lemma_resolution_order_free(
    patterns: Seq<Seq<char>>,
    expansions: Seq<ExpansionView>,
    reordered: Seq<Seq<char>>,
    reordered_expansions: Seq<ExpansionView>,
)
    requires
        paired(patterns, expansions).to_multiset() == paired(
            reordered,
            reordered_expansions,
        ).to_multiset(),
        resolved(patterns, expansions) is Ok,
        one_file_per_path(matched_files(patterns.len(), expansions)),
    ensures
        resolved(reordered, reordered_expansions) == resolved(patterns, expansions),
{
    broadcast use vstd::seq_lib::group_to_multiset_ensures;

    lemma_resolution_order_free_paths(patterns, expansions, reordered, reordered_expansions);
    lemma_resolved_well_formed(patterns, expansions);
    lemma_resolved_well_formed(reordered, reordered_expansions);
    let all = all_outcomes(patterns, expansions);
    let found = sources_of(all);
    let job = sorted_by_path(found);
    let files = matched_files(patterns.len(), expansions);
    lemma_no_failure(all);
    lemma_sorted_by_path(found);
    lemma_sorted_by_path(sources_of(all_outcomes(reordered, reordered_expansions)));
    lemma_outcomes_of_matched_files(patterns, expansions);
    assert forall|i: int, j: int|
        0 <= i < job.len() && 0 <= j < job.len() && (#[trigger] job[i]).path == (
        #[trigger] job[j]).path implies job[i] == job[j] by {
        assert(job.contains(job[i]) && job.contains(job[j]));
        assert(job.to_multiset().count(job[i]) > 0 && job.to_multiset().count(job[j]) > 0);
        assert(found.to_multiset().count(job[i]) > 0 && found.to_multiset().count(job[j]) > 0);
        assert(found.contains(job[i]) && found.contains(job[j]));
        let a = choose|a: int| 0 <= a < found.len() && found[a] == job[i];
        let b = choose|b: int| 0 <= b < found.len() && found[b] == job[j];
        assert(all[a] == outcome_of(files[a]) && all[b] == outcome_of(files[b]));
        assert(all[a] is Ok && all[b] is Ok);
        assert(files[a].path == files[b].path);
        assert(files[a].probe == files[b].probe);
    }
    lemma_ascending_unique(
        job,
        sorted_by_path(sources_of(all_outcomes(reordered, reordered_expansions))),
    );
}

} // verus!
