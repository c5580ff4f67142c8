//! Resolving patterns into a job: the ordered, classified sources of one output.

use crate::arrange::{
    ascending, input_views, insert_by_path, lemma_sorted_by_path, sorted_by_path,
};
use crate::error::{StitchError, StitchErrorView};
use crate::input::{probed, Input, InputView, Probe, ProbeView};
use crate::output::{output_view, produced, wrote_bytes, EncodeOutcome, Output};
use crate::pattern::{glob_accepts, pattern_parses};
use crate::runs::lemma_flatten_split;
use vstd::prelude::*;

verus! {

/// One path that a pattern expanded to, with what the file system holds there.
#[derive(Debug, Clone, PartialEq, Eq)]
pub struct Candidate {
    pub path: String,
    pub probe: Probe,
}

/// The mathematical value of a [`Candidate`].
pub struct CandidateView {
    pub path: Seq<char>,
    pub probe: ProbeView,
}

impl View for Candidate {
    type V = CandidateView;

    open spec fn view(&self) -> CandidateView {
        CandidateView { path: self.path@, probe: self.probe@ }
    }
}

/// The mathematical values of a run of candidates.
pub open spec fn candidate_views(candidates: Seq<Candidate>) -> Seq<CandidateView> {
    candidates.map_values(|candidate: Candidate| candidate@)
}

/// What expanding one pattern against the file system gave.
#[derive(Debug, Clone, PartialEq, Eq)]
pub enum Expansion {
    /// The pattern was refused as malformed before anything was looked up.
    Rejected,
    /// The paths that matched, in the order in which they were found.
    Paths(Vec<Candidate>),
    /// The paths that were found before a directory or a file could not be
    /// read and the walk broke off.
    Interrupted(Vec<Candidate>),
}

/// The mathematical value of an [`Expansion`].
pub enum ExpansionView {
    Rejected,
    Paths(Seq<CandidateView>),
    Interrupted(Seq<CandidateView>),
}

impl View for Expansion {
    type V = ExpansionView;

    open spec fn view(&self) -> ExpansionView {
        match *self {
            Expansion::Rejected => ExpansionView::Rejected,
            Expansion::Paths(candidates) => ExpansionView::Paths(candidate_views(candidates@)),
            Expansion::Interrupted(candidates) => ExpansionView::Interrupted(
                candidate_views(candidates@),
            ),
        }
    }
}

/// The mathematical values of a run of expansions.
pub open spec fn expansion_views(expansions: Seq<Expansion>) -> Seq<ExpansionView> {
    expansions.map_values(|expansion: Expansion| expansion@)
}

/// The failure that stands first among the results, if any of them is one.
pub open spec fn first_failure(outcomes: Seq<Result<InputView, StitchErrorView>>) -> Option<
    StitchErrorView,
>
    decreases outcomes.len(),
{
    if outcomes.len() == 0 {
        None
    } else {
        match first_failure(outcomes.drop_last()) {
            Some(error) => Some(error),
            None => match outcomes.last() {
                Err(error) => Some(error),
                Ok(_) => None,
            },
        }
    }
}

/// The sources that the results hold, in the order of the results. It is
/// meant for results none of which is a failure.
pub open spec fn sources_of(outcomes: Seq<Result<InputView, StitchErrorView>>) -> Seq<InputView> {
    outcomes.map_values(|outcome: Result<InputView, StitchErrorView>| outcome->Ok_0)
}

/// What a run of classification results comes to: its first failure, or else
/// every source in the order of the results.
pub open spec fn gathered(outcomes: Seq<Result<InputView, StitchErrorView>>) -> Result<
    Seq<InputView>,
    StitchErrorView,
> {
    match first_failure(outcomes) {
        Some(error) => Err(error),
        None => Ok(sources_of(outcomes)),
    }
}

/// The job that sources make: no source at all is a failure that names the
/// patterns, and otherwise the job holds every source, in ascending order of
/// path.
pub open spec fn arranged(patterns: Seq<Seq<char>>, sources: Seq<InputView>) -> Result<
    Seq<InputView>,
    StitchErrorView,
> {
    if sources.len() == 0 {
        Err(StitchErrorView::NoMatchingInputs { patterns })
    } else {
        Ok(sorted_by_path(sources))
    }
}

/// The job that a run of classification results makes: the first failure ends
/// it, and otherwise the sources make the job.
pub open spec fn assembled(
    patterns: Seq<Seq<char>>,
    outcomes: Seq<Result<InputView, StitchErrorView>>,
) -> Result<Seq<InputView>, StitchErrorView> {
    match gathered(outcomes) {
        Err(error) => Err(error),
        Ok(sources) => arranged(patterns, sources),
    }
}

/// The candidates that are regular files, in the order of the candidates.
pub open spec fn regular_files(candidates: Seq<CandidateView>) -> Seq<CandidateView> {
    candidates.filter(|candidate: CandidateView| candidate.probe is File)
}

/// The classification result of one candidate's file.
pub open spec fn outcome_of(candidate: CandidateView) -> Result<InputView, StitchErrorView> {
    probed(candidate.path, candidate.probe)
}

/// The classification results of the regular files among the candidates, in
/// the order of the candidates. A candidate that is no regular file is passed
/// over.
pub open spec fn file_outcomes(candidates: Seq<CandidateView>) -> Seq<
    Result<InputView, StitchErrorView>,
> {
    regular_files(candidates).map_values(|candidate: CandidateView| outcome_of(candidate))
}

/// The failure of a pattern that is malformed or whose walk broke off.
pub open spec fn pattern_failure(pattern: Seq<char>) -> Result<InputView, StitchErrorView> {
    Err(StitchErrorView::InvalidPattern { pattern })
}

/// What one pattern contributes: the results of the files that it matched,
/// and behind them a failure of the pattern where the walk broke off. A
/// refused expansion is that failure alone.
pub open spec fn pattern_outcomes(pattern: Seq<char>, expansion: ExpansionView) -> Seq<
    Result<InputView, StitchErrorView>,
> {
    match expansion {
        ExpansionView::Rejected => seq![pattern_failure(pattern)],
        ExpansionView::Paths(candidates) => file_outcomes(candidates),
        ExpansionView::Interrupted(candidates) => file_outcomes(candidates).push(
            pattern_failure(pattern),
        ),
    }
}

/// The expansion of the pattern at a position. A pattern for which none was
/// handed in matched nothing.
pub open spec fn expansion_at(expansions: Seq<ExpansionView>, at: int) -> ExpansionView {
    if 0 <= at < expansions.len() {
        expansions[at]
    } else {
        ExpansionView::Paths(Seq::empty())
    }
}

/// The candidates that the pattern at a position expanded to.
pub open spec fn candidates_at(expansions: Seq<ExpansionView>, at: int) -> Seq<CandidateView> {
    match expansion_at(expansions, at) {
        ExpansionView::Paths(candidates) => candidates,
        ExpansionView::Interrupted(candidates) => candidates,
        ExpansionView::Rejected => Seq::empty(),
    }
}

/// The regular files that the first `count` patterns matched, pattern after
/// pattern. A file that two patterns matched stands there twice.
pub open spec fn matched_files(count: nat, expansions: Seq<ExpansionView>) -> Seq<CandidateView> {
    Seq::new(count, |at: int| regular_files(candidates_at(expansions, at))).flatten()
}

/// What each pattern contributes, pattern by pattern.
pub open spec fn outcomes_by_pattern(
    patterns: Seq<Seq<char>>,
    expansions: Seq<ExpansionView>,
) -> Seq<Seq<Result<InputView, StitchErrorView>>> {
    Seq::new(
        patterns.len(),
        |at: int| pattern_outcomes(patterns[at], expansion_at(expansions, at)),
    )
}

/// What all patterns contribute, one pattern after the other in the given
/// order.
pub open spec fn all_outcomes(patterns: Seq<Seq<char>>, expansions: Seq<ExpansionView>) -> Seq<
    Result<InputView, StitchErrorView>,
> {
    outcomes_by_pattern(patterns, expansions).flatten()
}

/// Whether the pattern at a position is malformed, given which patterns the
/// glob syntax accepts and whose expansion was refused.
pub open spec fn refused_at(accepted: Seq<bool>, refused: Seq<bool>, at: int) -> bool {
    !accepted[at] || (at < refused.len() && refused[at])
}

/// The least position of a malformed pattern, given which patterns the glob
/// syntax accepts and whose expansion was refused.
pub open spec fn first_refused(accepted: Seq<bool>, refused: Seq<bool>) -> Option<int>
    decreases accepted.len(),
{
    if accepted.len() == 0 {
        None
    } else {
        match first_refused(accepted.drop_last(), refused) {
            Some(at) => Some(at),
            None => if refused_at(accepted, refused, accepted.len() - 1) {
                Some(accepted.len() - 1)
            } else {
                None
            },
        }
    }
}

/// Which of the patterns the glob syntax accepts.
pub open spec fn verdicts(patterns: Seq<Seq<char>>) -> Seq<bool> {
    patterns.map_values(|pattern: Seq<char>| glob_accepts(pattern))
}

/// Which of the expansions were refused.
pub open spec fn rejections(expansions: Seq<ExpansionView>) -> Seq<bool> {
    expansions.map_values(|expansion: ExpansionView| expansion is Rejected)
}

/// The least position whose pattern the glob syntax refuses or whose expansion
/// was refused.
pub open spec fn first_malformed(
    patterns: Seq<Seq<char>>,
    expansions: Seq<ExpansionView>,
) -> Option<int> {
    first_refused(verdicts(patterns), rejections(expansions))
}

/// What putting one candidate to the sources found so far gives: a regular
/// file is classified and its source joins them or its failure ends the
/// resolution; anything else is passed over.
pub open spec fn taken(sources: Seq<InputView>, candidate: CandidateView) -> Result<
    Seq<InputView>,
    StitchErrorView,
> {
    if candidate.probe is File {
        match outcome_of(candidate) {
            Ok(source) => Ok(sources.push(source)),
            Err(error) => Err(error),
        }
    } else {
        Ok(sources)
    }
}

/// The job that the patterns resolve to, given what expanding each of them
/// gave. Every pattern is held against the glob syntax before anything else
/// counts: the first malformed pattern is the failure, whatever the patterns
/// matched.
pub open spec fn resolved(patterns: Seq<Seq<char>>, expansions: Seq<ExpansionView>) -> Result<
    Seq<InputView>,
    StitchErrorView,
> {
    match first_malformed(patterns, expansions) {
        Some(at) => Err(StitchErrorView::InvalidPattern { pattern: patterns[at] }),
        None => assembled(patterns, all_outcomes(patterns, expansions)),
    }
}

/// The resolved, classified and ordered sources of one output.
#[derive(Debug, Clone, PartialEq, Eq)]
pub struct Stitch {
    pub inputs: Vec<Input>,
}

impl View for Stitch {
    type V = Seq<InputView>;

    open spec fn view(&self) -> Seq<InputView> {
        input_views(self.inputs@)
    }
}

/// The mathematical value of a resolution.
pub open spec fn resolution_view(resolution: Result<Stitch, StitchError>) -> Result<
    Seq<InputView>,
    StitchErrorView,
> {
    match resolution {
        Ok(stitch) => Ok(stitch@),
        Err(error) => Err(error@),
    }
}

/// An owned copy of the patterns.
fn copy_patterns(patterns: &[String]) -> (copy: Vec<String>)
    ensures
        copy.deep_view() == patterns.deep_view(),
{
    let mut copy: Vec<String> = Vec::new();
    let mut i: usize = 0;
    while i < patterns.len()
        invariant
            i <= patterns.len(),
            copy.len() == i,
            forall|k: int| 0 <= k < i ==> copy[k]@ == patterns[k]@,
        decreases patterns.len() - i,
    {
        copy.push(patterns[i].clone());
        i += 1;
    }
    assert(copy.deep_view() =~= patterns.deep_view());
    copy
}

impl Stitch {
    /// A job is well formed when it has a source and its sources stand in
    /// ascending order of path.
    pub open spec fn well_formed(&self) -> bool {
        self@.len() > 0 && ascending(self@)
    }

    /// Resolves the patterns, in the given order, into a job. `expansions`
    /// holds for each pattern in turn what walking the file system for it
    /// gave; a pattern without one matched nothing. Every pattern is held
    /// against the glob syntax first, and the first malformed one ends the
    /// resolution whatever was matched. Then each regular file that a pattern
    /// expanded to is classified by its bytes; the first failed classification
    /// or broken walk ends the resolution, and so does a run of patterns that
    /// matched no regular file. The job holds one source for every match, so
    /// a file that two patterns matched is in it twice.
    pub fn new(patterns: &[String], expansions: &[Expansion]) -> (result: Result<
        Stitch,
        StitchError,
    >)
        ensures
            resolution_view(result) == resolved(
                patterns.deep_view(),
                expansion_views(expansions@),
            ),
            first_malformed(patterns.deep_view(), expansion_views(expansions@)) matches Some(at)
                ==> resolution_view(result) == Err::<Seq<InputView>, StitchErrorView>(
                StitchErrorView::InvalidPattern { pattern: patterns.deep_view()[at] },
            ),
            first_malformed(patterns.deep_view(), expansion_views(expansions@)) is None
                ==> resolution_view(result) == assembled(
                patterns.deep_view(),
                all_outcomes(patterns.deep_view(), expansion_views(expansions@)),
            ),
            result matches Ok(stitch) ==> stitch.well_formed(),
    {
        let ghost names = patterns.deep_view();
        let ghost given = expansion_views(expansions@);
        let ghost each = outcomes_by_pattern(names, given);
        let refused = Stitch::refused_expansions(expansions);
        match Stitch::check_patterns(patterns, refused.as_slice()) {
            Err(error) => {
                return Err(error);
            },
            Ok(()) => {},
        }
        let mut sources: Vec<Input> = Vec::new();
        let mut i: usize = 0;
        while i < patterns.len()
            invariant
                i <= patterns.len(),
                names == patterns.deep_view(),
                given == expansion_views(expansions@),
                each == outcomes_by_pattern(names, given),
                first_malformed(names, given).is_none(),
                first_failure(each.take(i as int).flatten()).is_none(),
                input_views(sources@) == sources_of(each.take(i as int).flatten()),
            decreases patterns.len() - i,
        {
            proof {
                let before = each.take(i as int).flatten();
                assert(names[i as int] == patterns[i as int]@);
                assert(each.take(i + 1) =~= each.take(i as int).push(each[i as int]));
                each.take(i as int).lemma_flatten_push(each[i as int]);
                lemma_first_failure_concat(before, each[i as int]);
                lemma_flatten_split(each, i as int);
                lemma_first_failure_concat(before + each[i as int], each.skip(i + 1).flatten());
                assert(sources_of(before + each[i as int]) =~= sources_of(before) + sources_of(
                    each[i as int],
                ));
                assert(first_failure(Seq::<Result<InputView, StitchErrorView>>::empty()).is_none());
                assert(file_outcomes(Seq::empty()) =~= Seq::empty());
            }
            if i < expansions.len() {
                match Stitch::find_matching_inputs(
                    &mut sources,
                    patterns[i].as_str(),
                    &expansions[i],
                ) {
                    Err(error) => {
                        return Err(error);
                    },
                    Ok(()) => {},
                }
            }
            i += 1;
        }
        assert(each.take(i as int) =~= each);
        Stitch::from_sources(patterns, sources)
    }

    /// Requests the job's output at `path`, given which sources were seen to
    /// exist before the encoder ran and what came of running it; see
    /// [`Output::new`]. A job without a source is refused.
    pub fn create(&self, path: &String, present: &[bool], outcome: &EncodeOutcome) -> (result:
        Result<Output, StitchError>)
        ensures
            output_view(result) == produced(self@, path@, present@, outcome@),
            result matches Ok(output) ==> output.path@ == path@ && wrote_bytes(outcome@),
    {
        Output::new(self.inputs.as_slice(), path.clone(), present, outcome)
    }

    /// Which of the expansions were refused.
    fn refused_expansions(expansions: &[Expansion]) -> (refused: Vec<bool>)
        ensures
            refused@ == rejections(expansion_views(expansions@)),
    {
        let mut refused: Vec<bool> = Vec::new();
        let mut i: usize = 0;
        while i < expansions.len()
            invariant
                i <= expansions.len(),
                refused.len() == i,
                forall|k: int| 0 <= k < i ==> refused[k] == (expansions[k]@ is Rejected),
            decreases expansions.len() - i,
        {
            let rejected = match &expansions[i] {
                Expansion::Rejected => true,
                _ => false,
            };
            refused.push(rejected);
            i += 1;
        }
        assert(refused@ =~= rejections(expansion_views(expansions@)));
        refused
    }

    /// The least position of a malformed pattern, given which patterns the
    /// glob syntax accepts and whose expansion was refused.
    pub fn refused_pattern(accepted: &[bool], refused: &[bool]) -> (found: Option<usize>)
        ensures
            match first_refused(accepted@, refused@) {
                Some(at) => found == Some(at as usize) && 0 <= at < accepted.len(),
                None => found.is_none(),
            },
    {
        let mut i: usize = 0;
        while i < accepted.len()
            invariant
                i <= accepted.len(),
                first_refused(accepted@.take(i as int), refused@).is_none(),
            decreases accepted.len() - i,
        {
            if !accepted[i] || (i < refused.len() && refused[i]) {
                proof {
                    lemma_first_refused_found(accepted@, refused@, i as int);
                }
                return Some(i);
            }
            proof {
                assert(accepted@.take(i + 1).drop_last() =~= accepted@.take(i as int));
            }
            i += 1;
        }
        assert(accepted@.take(i as int) =~= accepted@);
        None
    }

    /// Holds every pattern against the glob syntax, before anything is made
    /// of what the patterns matched. `refused` tells of each pattern in turn
    /// whether its expansion was refused. The first malformed pattern is the
    /// failure.
    pub fn check_patterns(patterns: &[String], refused: &[bool]) -> (result: Result<
        (),
        StitchError,
    >)
        ensures
            match first_refused(verdicts(patterns.deep_view()), refused@) {
                Some(at) => result matches Err(error) && error@ == (
                StitchErrorView::InvalidPattern { pattern: patterns.deep_view()[at] }),
                None => result is Ok,
            },
    {
        let ghost names = patterns.deep_view();
        let mut accepted: Vec<bool> = Vec::new();
        let mut i: usize = 0;
        while i < patterns.len()
            invariant
                i <= patterns.len(),
                names == patterns.deep_view(),
                accepted.len() == i,
                forall|k: int| 0 <= k < i ==> accepted[k] == glob_accepts(names[k]),
            decreases patterns.len() - i,
        {
            assert(names[i as int] == patterns[i as int]@);
            accepted.push(pattern_parses(patterns[i].as_str()));
            i += 1;
        }
        assert(accepted@ =~= verdicts(names));
        match Stitch::refused_pattern(accepted.as_slice(), refused) {
            Some(at) => {
                assert(names[at as int] == patterns[at as int]@);
                Err(StitchError::InvalidPattern { pattern: patterns[at].clone() })
            },
            None => Ok(()),
        }
    }

    /// The failure that a broken walk for the pattern ends in.
    pub fn interrupted(glob_pattern: &str) -> (error: StitchError)
        ensures
            Err::<InputView, StitchErrorView>(error@) == pattern_failure(glob_pattern@),
    {
        StitchError::InvalidPattern { pattern: glob_pattern.to_owned() }
    }

    /// Puts one candidate to the sources found so far: a regular file is
    /// classified by its bytes, and its source joins them or its failure is
    /// returned; anything else is passed over.
    pub fn take(sources: &mut Vec<Input>, candidate: &Candidate) -> (result: Result<
        (),
        StitchError,
    >)
        ensures
            match taken(input_views(old(sources)@), candidate@) {
                Ok(after) => result is Ok && input_views(final(sources)@) == after,
                Err(error) => result matches Err(found) && found@ == error && input_views(
                    final(sources)@,
                ) == input_views(old(sources)@),
            },
    {
        match &candidate.probe {
            Probe::File(_) => {
                match Input::new(candidate.path.clone(), &candidate.probe) {
                    Ok(source) => {
                        let ghost before = input_views(sources@);
                        sources.push(source);
                        assert(input_views(sources@) =~= before.push(source@));
                        Ok(())
                    },
                    Err(error) => Err(error),
                }
            },
            _ => Ok(()),
        }
    }

    /// Puts the candidates to the sources found so far, one after the other,
    /// up to the first failure.
    fn take_all(sources: &mut Vec<Input>, candidates: &Vec<Candidate>) -> (result: Result<
        (),
        StitchError,
    >)
        ensures
            match gathered(file_outcomes(candidate_views(candidates@))) {
                Ok(found) => result is Ok && input_views(final(sources)@) == input_views(
                    old(sources)@,
                ) + found,
                Err(error) => result matches Err(found) && found@ == error,
            },
    {
        let ghost before = input_views(sources@);
        let ghost matched = candidate_views(candidates@);
        let mut i: usize = 0;
        assert(file_outcomes(matched.take(0)) =~= Seq::empty());
        assert(input_views(sources@) =~= before + sources_of(file_outcomes(matched.take(0))));
        while i < candidates.len()
            invariant
                i <= candidates.len(),
                matched == candidate_views(candidates@),
                first_failure(file_outcomes(matched.take(i as int))).is_none(),
                input_views(sources@) == before + sources_of(
                    file_outcomes(matched.take(i as int)),
                ),
            decreases candidates.len() - i,
        {
            let candidate = &candidates[i];
            proof {
                let so_far = file_outcomes(matched.take(i as int));
                let next = file_outcomes(matched.take(i + 1));
                assert(matched.take(i + 1) =~= matched.take(i as int).push(candidate@));
                matched.take(i as int).lemma_filter_push(
                    candidate@,
                    |candidate: CandidateView| candidate.probe is File,
                );
                if candidate@.probe is File {
                    assert(next =~= so_far.push(outcome_of(candidate@)));
                    assert(next.drop_last() =~= so_far);
                    assert(sources_of(next) =~= sources_of(so_far).push(
                        outcome_of(candidate@)->Ok_0,
                    ));
                } else {
                    assert(next =~= so_far);
                }
                assert(matched =~= matched.take(i + 1) + matched.skip(i + 1));
                lemma_file_outcomes_concat(matched.take(i + 1), matched.skip(i + 1));
                lemma_first_failure_concat(next, file_outcomes(matched.skip(i + 1)));
            }
            let ghost held = input_views(sources@);
            match Stitch::take(sources, candidate) {
                Err(error) => {
                    return Err(error);
                },
                Ok(()) => {
                    assert(input_views(sources@) =~= before + sources_of(
                        file_outcomes(matched.take(i + 1)),
                    ));
                },
            }
            i += 1;
        }
        assert(matched.take(i as int) =~= matched);
        Ok(())
    }

    /// Puts what one pattern expanded to to the sources found so far: the
    /// sources of the regular files that it matched, in the order in which
    /// they were found, up to the first failure. A refused expansion and a
    /// broken walk are failures of the pattern.
    pub fn find_matching_inputs(
        sources: &mut Vec<Input>,
        glob_pattern: &str,
        expansion: &Expansion,
    ) -> (result: Result<(), StitchError>)
        ensures
            match gathered(pattern_outcomes(glob_pattern@, expansion@)) {
                Ok(found) => result is Ok && input_views(final(sources)@) == input_views(
                    old(sources)@,
                ) + found,
                Err(error) => result matches Err(found) && found@ == error,
            },
    {
        let ghost refusal = pattern_failure(glob_pattern@);
        proof {
            assert(seq![refusal][0] is Err);
            lemma_first_failure_is_first(seq![refusal], 0);
        }
        match expansion {
            Expansion::Rejected => Err(Stitch::interrupted(glob_pattern)),
            Expansion::Paths(candidates) => Stitch::take_all(sources, candidates),
            Expansion::Interrupted(candidates) => {
                proof {
                    let files = file_outcomes(candidate_views(candidates@));
                    assert(files.push(refusal) =~= files + seq![refusal]);
                    lemma_first_failure_concat(files, seq![refusal]);
                }
                match Stitch::take_all(sources, candidates) {
                    Err(error) => Err(error),
                    Ok(()) => Err(Stitch::interrupted(glob_pattern)),
                }
            },
        }
    }

    /// Makes a job of the sources that the patterns matched: puts them in
    /// ascending order of path, sources of one path in the order in which they
    /// were found. No source at all is a failure that names the patterns.
    pub fn from_sources(patterns: &[String], sources: Vec<Input>) -> (result: Result<
        Stitch,
        StitchError,
    >)
        ensures
            resolution_view(result) == arranged(patterns.deep_view(), input_views(sources@)),
            result matches Ok(stitch) ==> stitch.well_formed(),
    {
        let ghost all = input_views(sources@);
        if sources.len() == 0 {
            return Err(StitchError::NoMatchingInputs { patterns: copy_patterns(patterns) });
        }
        let mut inputs: Vec<Input> = Vec::new();
        for source in it: sources
            invariant
                input_views(it.seq()) == all,
                input_views(inputs@) == sorted_by_path(all.take(it.index())),
        {
            proof {
                assert(all.take(it.index() + 1).drop_last() =~= all.take(it.index()));
                assert(all.take(it.index() + 1).last() == source@);
            }
            insert_by_path(&mut inputs, source);
        }
        proof {
            assert(all.take(all.len() as int) =~= all);
            lemma_sorted_by_path(all);
        }
        Ok(Stitch { inputs })
    }
}

/// A malformed pattern with none before it is the first one.
pub proof fn lemma_first_refused_found(accepted: Seq<bool>, refused: Seq<bool>, at: int)
    requires
        0 <= at < accepted.len(),
        refused_at(accepted, refused, at),
        first_refused(accepted.take(at), refused).is_none(),
    ensures
        first_refused(accepted, refused) == Some(at),
    decreases accepted.len(),
{
    if at == accepted.len() - 1 {
        assert(accepted.drop_last() =~= accepted.take(at));
    } else {
        assert(accepted.drop_last().take(at) =~= accepted.take(at));
        lemma_first_refused_found(accepted.drop_last(), refused, at);
    }
}

/// The first malformed pattern is malformed, and no pattern before it is;
/// where there is none, no pattern is malformed.
pub proof fn lemma_first_refused(accepted: Seq<bool>, refused: Seq<bool>)
    ensures
        match first_refused(accepted, refused) {
            Some(at) => 0 <= at < accepted.len() && refused_at(accepted, refused, at) && forall|
                before: int,
            | 0 <= before < at ==> !refused_at(accepted, refused, before),
            None => forall|at: int| 0 <= at < accepted.len() ==> !refused_at(accepted, refused, at),
        },
    decreases accepted.len(),
{
    if accepted.len() > 0 {
        let front = accepted.drop_last();
        lemma_first_refused(front, refused);
        assert forall|at: int| 0 <= at < front.len() implies refused_at(front, refused, at)
            == refused_at(accepted, refused, at) by {
            assert(front[at] == accepted[at]);
        }
    }
}

/// The results of the regular files among two runs of candidates, one after
/// the other, are those of the first run and then those of the second.
pub proof fn lemma_file_outcomes_concat(first: Seq<CandidateView>, second: Seq<CandidateView>)
    ensures
        file_outcomes(first + second) == file_outcomes(first) + file_outcomes(second),
{
    Seq::filter_distributes_over_add(
        first,
        second,
        |candidate: CandidateView| candidate.probe is File,
    );
    assert(file_outcomes(first + second) =~= file_outcomes(first) + file_outcomes(second));
}

/// The first failure of two runs of results, one after the other, is that of
/// the first run, and that of the second only where the first has none.
pub proof fn lemma_first_failure_concat(
    first: Seq<Result<InputView, StitchErrorView>>,
    second: Seq<Result<InputView, StitchErrorView>>,
)
    ensures
        first_failure(first + second) == match first_failure(first) {
            Some(error) => Some(error),
            None => first_failure(second),
        },
    decreases second.len(),
{
    if second.len() == 0 {
        assert(first + second =~= first);
    } else {
        assert((first + second).drop_last() =~= first + second.drop_last());
        lemma_first_failure_concat(first, second.drop_last());
    }
}

/// The first failure is the failure that stands where no failure stands
/// before it.
pub proof fn lemma_first_failure_is_first(
    outcomes: Seq<Result<InputView, StitchErrorView>>,
    at: int,
)
    requires
        0 <= at < outcomes.len(),
        outcomes[at] is Err,
        forall|before: int| 0 <= before < at ==> (#[trigger] outcomes[before]) is Ok,
    ensures
        first_failure(outcomes) == Some(outcomes[at]->Err_0),
    decreases outcomes.len(),
{
    if at == outcomes.len() - 1 {
        lemma_all_ok_no_failure(outcomes.drop_last());
    } else {
        lemma_first_failure_is_first(outcomes.drop_last(), at);
    }
}

/// Results that are all sources hold no failure.
pub proof fn lemma_all_ok_no_failure(outcomes: Seq<Result<InputView, StitchErrorView>>)
    requires
        forall|at: int| 0 <= at < outcomes.len() ==> (#[trigger] outcomes[at]) is Ok,
    ensures
        first_failure(outcomes).is_none(),
    decreases outcomes.len(),
{
    if outcomes.len() > 0 {
        assert(outcomes.last() == outcomes[outcomes.len() - 1]);
        lemma_all_ok_no_failure(outcomes.drop_last());
    }
}

/// Where nothing failed, every result is a source.
pub proof fn lemma_no_failure(outcomes: Seq<Result<InputView, StitchErrorView>>)
    requires
        first_failure(outcomes).is_none(),
    ensures
        forall|at: int| 0 <= at < outcomes.len() ==> (#[trigger] outcomes[at]) is Ok,
    decreases outcomes.len(),
{
    if outcomes.len() > 0 {
        let front = outcomes.drop_last();
        lemma_no_failure(front);
        assert forall|at: int| 0 <= at < outcomes.len() implies (#[trigger] outcomes[at]) is Ok by {
            if at < front.len() {
                assert(front[at] is Ok);
            }
        }
    }
}

} // verus!
