//! Requesting one output file from a job's sources.
//!
//! The encoder is an outside program. What it is asked for is decided here as
//! an [`EncodePlan`]; what came of running it is handed back as an
//! [`EncodeOutcome`], from which the produced file is classified.

use crate::arrange::input_views;
use crate::error::{StitchError, StitchErrorView};
use crate::format::Format;
use crate::input::{probed, Input, InputView, Probe, ProbeView};
use vstd::prelude::*;
use vstd::string::{StrSliceExecFns, StringExecFns};

verus! {

/// What the encoder is asked for.
#[derive(Debug, Clone, PartialEq, Eq)]
pub struct EncodePlan {
    /// The rate at which still images follow one another, in frames per second.
    pub pacing: String,
    /// The paths of the sources, in the order in which they are to appear.
    pub inputs: Vec<String>,
    /// The video codec of the output stream.
    pub codec: String,
    /// The frame rate of the output stream.
    pub frame_rate: String,
    /// Where the one output file is written.
    pub destination: String,
}

/// The mathematical value of an [`EncodePlan`].
pub struct EncodePlanView {
    pub pacing: Seq<char>,
    pub inputs: Seq<Seq<char>>,
    pub codec: Seq<char>,
    pub frame_rate: Seq<char>,
    pub destination: Seq<char>,
}

impl View for EncodePlan {
    type V = EncodePlanView;

    open spec fn view(&self) -> EncodePlanView {
        EncodePlanView {
            pacing: self.pacing@,
            inputs: self.inputs.deep_view(),
            codec: self.codec@,
            frame_rate: self.frame_rate@,
            destination: self.destination@,
        }
    }
}

/// What came of running the encoder.
#[derive(Debug, Clone, PartialEq, Eq)]
pub enum EncodeOutcome {
    /// The encoder could not be started or reported failure.
    Failed { cause: String },
    /// The encoder reported success; `file` is what the destination then held.
    Produced { file: Probe },
}

/// The mathematical value of an [`EncodeOutcome`].
pub enum EncodeOutcomeView {
    Failed { cause: Seq<char> },
    Produced { file: ProbeView },
}

impl View for EncodeOutcome {
    type V = EncodeOutcomeView;

    open spec fn view(&self) -> EncodeOutcomeView {
        match *self {
            EncodeOutcome::Failed { cause } => EncodeOutcomeView::Failed { cause: cause@ },
            EncodeOutcome::Produced { file } => EncodeOutcomeView::Produced { file: file@ },
        }
    }
}

/// The classified record of a produced file.
#[derive(Debug, Clone, PartialEq, Eq)]
pub struct Output {
    pub path: String,
    pub extension: String,
    pub format: Format,
}

/// The mathematical value of an [`Output`].
pub struct OutputView {
    pub path: Seq<char>,
    pub extension: Seq<char>,
    pub format: Format,
}

impl View for Output {
    type V = OutputView;

    open spec fn view(&self) -> OutputView {
        OutputView { path: self.path@, extension: self.extension@, format: self.format }
    }
}

/// Whether the source at a position was seen to exist. A source of which
/// nothing was reported was not.
pub open spec fn present_at(present: Seq<bool>, at: int) -> bool {
    0 <= at < present.len() && present[at]
}

/// The position of the first of `count` sources that was not seen to exist.
pub open spec fn first_missing(count: nat, present: Seq<bool>) -> Option<int>
    decreases count,
{
    if count == 0 {
        None
    } else {
        match first_missing((count - 1) as nat, present) {
            Some(at) => Some(at),
            None => if present_at(present, count - 1) {
                None
            } else {
                Some(count - 1)
            },
        }
    }
}

/// Why the encoder is not asked, if it is not: there is no source, or a
/// source has vanished, the first such being named.
pub open spec fn refusal(inputs: Seq<InputView>, present: Seq<bool>) -> Option<StitchErrorView> {
    if inputs.len() == 0 {
        Some(StitchErrorView::EmptySourceSet)
    } else {
        match first_missing(inputs.len(), present) {
            Some(at) => Some(StitchErrorView::MissingInput { path: inputs[at].path }),
            None => None,
        }
    }
}

/// The absolute form of a path: the path itself where it begins with the
/// separator, and else the base directory, a separator and the path.
pub open spec fn absolute_of(base: Seq<char>, path: Seq<char>) -> Seq<char> {
    if path.len() > 0 && path[0] == '/' {
        path
    } else {
        base + seq!['/'] + path
    }
}

/// The absolute forms of the sources' paths, in the order of the sources.
pub open spec fn absolute_paths(base: Seq<char>, inputs: Seq<InputView>) -> Seq<Seq<char>> {
    inputs.map_values(|input: InputView| absolute_of(base, input.path))
}

/// What the encoder is asked for, or why it is not asked. The sources are
/// handed on in the job's order, each by its absolute path.
pub open spec fn planned(
    inputs: Seq<InputView>,
    destination: Seq<char>,
    present: Seq<bool>,
    base: Seq<char>,
) -> Result<EncodePlanView, StitchErrorView> {
    match refusal(inputs, present) {
        Some(error) => Err(error),
        None => Ok(
            EncodePlanView {
                pacing: "1/4"@,
                inputs: absolute_paths(base, inputs),
                codec: "libx264"@,
                frame_rate: "30"@,
                destination,
            },
        ),
    }
}

/// The record of the produced file, or why there is none: the encoder was not
/// asked, it failed, or what it wrote does not classify as a supported format.
pub open spec fn produced(
    inputs: Seq<InputView>,
    destination: Seq<char>,
    present: Seq<bool>,
    outcome: EncodeOutcomeView,
) -> Result<OutputView, StitchErrorView> {
    match refusal(inputs, present) {
        Some(error) => Err(error),
        None => match outcome {
            EncodeOutcomeView::Failed { cause } => Err(StitchErrorView::EncodeFailed { cause }),
            EncodeOutcomeView::Produced { file } => match probed(destination, file) {
                Ok(source) => Ok(
                    OutputView {
                        path: source.path,
                        extension: source.extension,
                        format: source.format,
                    },
                ),
                Err(error) => Err(error),
            },
        },
    }
}

/// Whether the outcome is a regular file with at least one byte.
pub open spec fn wrote_bytes(outcome: EncodeOutcomeView) -> bool {
    outcome matches EncodeOutcomeView::Produced { file: ProbeView::File(bytes) } && bytes.len() > 0
}

/// The mathematical value of a planning result.
pub open spec fn plan_view(plan: Result<EncodePlan, StitchError>) -> Result<
    EncodePlanView,
    StitchErrorView,
> {
    match plan {
        Ok(plan) => Ok(plan@),
        Err(error) => Err(error@),
    }
}

/// The mathematical value of an encode request's result.
pub open spec fn output_view(output: Result<Output, StitchError>) -> Result<
    OutputView,
    StitchErrorView,
> {
    match output {
        Ok(output) => Ok(output@),
        Err(error) => Err(error@),
    }
}

/// The absolute form of a path under a base directory.
fn absolute(base: &str, path: &str) -> (text: String)
    ensures
        text@ == absolute_of(base@, path@),
{
    if !path.is_empty() && path.get_char(0) == '/' {
        path.to_owned()
    } else {
        let mut text = String::from_str(base);
        text.append("/");
        text.append(path);
        proof {
            reveal_strlit("/");
            assert("/"@ =~= seq!['/']);
        }
        text
    }
}

impl Output {
    /// Decides whether the encoder can be asked at all. `present` tells of
    /// each source, in order, whether its file was seen to exist just now.
    pub fn check_inputs(inputs: &[Input], present: &[bool]) -> (result: Result<(), StitchError>)
        ensures
            match refusal(input_views(inputs@), present@) {
                Some(error) => result matches Err(found) && found@ == error,
                None => result is Ok,
            },
    {
        if inputs.len() == 0 {
            return Err(StitchError::EmptySourceSet);
        }
        let ghost sources = input_views(inputs@);
        let mut i: usize = 0;
        while i < inputs.len()
            invariant
                i <= inputs.len(),
                sources == input_views(inputs@),
                first_missing(i as nat, present@).is_none(),
            decreases inputs.len() - i,
        {
            if i >= present.len() || !present[i] {
                proof {
                    lemma_first_missing_found(inputs.len() as nat, present@, i as int);
                }
                return Err(StitchError::MissingInput { path: inputs[i].path.clone() });
            }
            i += 1;
        }
        Ok(())
    }

    /// Decides what the encoder is asked for. `present` tells of each source,
    /// in order, whether its file was seen to exist just now; `base` is the
    /// absolute directory that relative paths are read from.
    pub fn plan(inputs: &[Input], path: &str, present: &[bool], base: &str) -> (result: Result<
        EncodePlan,
        StitchError,
    >)
        requires
            base@.len() > 0 && base@[0] == '/',
        ensures
            plan_view(result) == planned(input_views(inputs@), path@, present@, base@),
            result matches Ok(plan) ==> plan@.inputs.len() == inputs@.len() && forall|i: int|
                0 <= i < plan@.inputs.len() ==> (#[trigger] plan@.inputs[i]) == absolute_of(
                    base@,
                    inputs@[i].path@,
                ) && plan@.inputs[i].len() > 0 && plan@.inputs[i][0] == '/',
    {
        match Output::check_inputs(inputs, present) {
            Err(error) => {
                return Err(error);
            },
            Ok(()) => {},
        }
        let ghost sources = input_views(inputs@);
        let mut paths: Vec<String> = Vec::new();
        let mut i: usize = 0;
        while i < inputs.len()
            invariant
                i <= inputs.len(),
                sources == input_views(inputs@),
                paths.len() == i,
                forall|k: int| 0 <= k < i ==> paths[k]@ == absolute_of(base@, sources[k].path),
            decreases inputs.len() - i,
        {
            paths.push(absolute(base, inputs[i].path.as_str()));
            i += 1;
        }
        assert(paths.deep_view() =~= absolute_paths(base@, sources));
        Ok(
            EncodePlan {
                pacing: "1/4".to_owned(),
                inputs: paths,
                codec: "libx264".to_owned(),
                frame_rate: "30".to_owned(),
                destination: path.to_owned(),
            },
        )
    }

    /// Decides what an encode request ends in, given which sources were seen to
    /// exist before the encoder ran and what came of running it. The format
    /// and the extension of the output come from the bytes that were written,
    /// never from the name that was asked for, so an output is a file with at
    /// least one byte.
    pub fn new(
        inputs: &[Input],
        path: String,
        present: &[bool],
        outcome: &EncodeOutcome,
    ) -> (result: Result<Output, StitchError>)
        ensures
            output_view(result) == produced(input_views(inputs@), path@, present@, outcome@),
            result matches Ok(output) ==> output.path@ == path@ && wrote_bytes(outcome@),
    {
        match Output::check_inputs(inputs, present) {
            Err(error) => Err(error),
            Ok(()) => match outcome {
                EncodeOutcome::Failed { cause } => Err(
                    StitchError::EncodeFailed { cause: cause.clone() },
                ),
                EncodeOutcome::Produced { file } => match Input::new(path, file) {
                    Ok(source) => Ok(
                        Output {
                            path: source.path,
                            extension: source.extension,
                            format: source.format,
                        },
                    ),
                    Err(error) => Err(error),
                },
            },
        }
    }
}

/// A source that was not seen to exist, with none such before it, is the
/// first missing one.
pub proof fn lemma_first_missing_found(count: nat, present: Seq<bool>, at: int)
    requires
        0 <= at < count,
        !present_at(present, at),
        first_missing(at as nat, present).is_none(),
    ensures
        first_missing(count, present) == Some(at),
    decreases count,
{
    if at < count - 1 {
        lemma_first_missing_found((count - 1) as nat, present, at);
    }
}

} // verus!
