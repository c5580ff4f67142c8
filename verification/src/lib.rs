//! Resolves glob expansions into an ordered, classified set of source files and
//! decides what an external video encoder is asked to produce from them.
//!
//! The library never touches the file system or a process. Its callers hand it
//! what they found there as plain values, and every decision taken on those
//! values carries a contract that Verus proves.

pub mod arrange;
pub mod error;
pub mod format;
pub mod input;
pub mod order;
pub mod output;
pub mod pattern;
pub mod resolution;
pub mod runs;
pub mod sniff;
pub mod stitch;
pub mod text;

pub use error::{StitchError, StitchErrorView};
pub use format::Format;
pub use input::{Input, InputView, Probe, ProbeView};
pub use output::{
    EncodeOutcome, EncodeOutcomeView, EncodePlan, EncodePlanView, Output, OutputView,
};
pub use sniff::{Kind, KindView};
pub use stitch::{Candidate, CandidateView, Expansion, ExpansionView, Stitch};
