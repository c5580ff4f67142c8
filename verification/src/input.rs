//! Classifying one file into a source record.

use crate::error::{StitchError, StitchErrorView};
use crate::format::{format_of, Format};
use crate::sniff::{kind_view, sniff, sniffed_kind, Kind, KindView};
use vstd::prelude::*;

verus! {

/// What the file system holds at a path, as its caller found it.
#[derive(Debug, Clone, PartialEq, Eq)]
pub enum Probe {
    /// Nothing exists at the path.
    Missing,
    /// Something exists there that is not a regular file.
    NotAFile,
    /// A regular file with these bytes.
    File(Vec<u8>),
}

/// The mathematical value of a [`Probe`].
pub enum ProbeView {
    Missing,
    NotAFile,
    File(Seq<u8>),
}

impl View for Probe {
    type V = ProbeView;

    open spec fn view(&self) -> ProbeView {
        match *self {
            Probe::Missing => ProbeView::Missing,
            Probe::NotAFile => ProbeView::NotAFile,
            Probe::File(bytes) => ProbeView::File(bytes@),
        }
    }
}

/// A classified source file: where it is, the extension that its content
/// conventionally carries, and its format.
#[derive(Debug, Clone, PartialEq, Eq)]
pub struct Input {
    pub path: String,
    pub extension: String,
    pub format: Format,
}

/// The mathematical value of an [`Input`].
pub struct InputView {
    pub path: Seq<char>,
    pub extension: Seq<char>,
    pub format: Format,
}

impl View for Input {
    type V = InputView;

    open spec fn view(&self) -> InputView {
        InputView { path: self.path@, extension: self.extension@, format: self.format }
    }
}

/// The mathematical value of a classification result.
pub open spec fn outcome_view(outcome: Result<Input, StitchError>) -> Result<
    InputView,
    StitchErrorView,
> {
    match outcome {
        Ok(input) => Ok(input@),
        Err(error) => Err(error@),
    }
}

/// The record that a file at `path` gets once its content has been sniffed:
/// unknown content and a signature outside the supported formats are failures,
/// and the extension is the sniffed one.
pub open spec fn classified(path: Seq<char>, kind: Option<KindView>) -> Result<
    InputView,
    StitchErrorView,
> {
    match kind {
        None => Err(StitchErrorView::UnknownContent { path }),
        Some(found) => match format_of(found.mime_type) {
            None => Err(StitchErrorView::UnsupportedFormat { signature: found.mime_type }),
            Some(format) => Ok(InputView { path, extension: found.extension, format }),
        },
    }
}

/// The record that a path gets from what the file system holds there. A file
/// without a byte has no content to know it by, so a file that classifies is
/// never empty.
pub open spec fn probed(path: Seq<char>, probe: ProbeView) -> Result<InputView, StitchErrorView> {
    match probe {
        ProbeView::Missing => Err(StitchErrorView::NotFound { path }),
        ProbeView::NotAFile => Err(StitchErrorView::NotAFile { path }),
        ProbeView::File(bytes) => if bytes.len() == 0 {
            Err(StitchErrorView::UnknownContent { path })
        } else {
            classified(path, sniffed_kind(bytes))
        },
    }
}

impl Input {
    /// Builds the record of the file at `path` from what sniffing found in it.
    pub fn from_kind(path: String, kind: Option<Kind>) -> (result: Result<Input, StitchError>)
        ensures
            outcome_view(result) == classified(path@, kind_view(kind)),
    {
        match kind {
            None => Err(StitchError::UnknownContent { path }),
            Some(found) => {
                match Format::from_mime_type(found.mime_type.as_str()) {
                    Ok(format) => Ok(Input { path, extension: found.extension, format }),
                    Err(error) => Err(error),
                }
            },
        }
    }

    /// Classifies the file at `path`. The path must hold a regular file, and its
    /// bytes alone, never its name, decide the format and the extension. An
    /// empty file is refused before anything is sniffed.
    pub fn new(path: String, probe: &Probe) -> (result: Result<Input, StitchError>)
        ensures
            outcome_view(result) == probed(path@, probe@),
            result matches Ok(input) ==> input.path@ == path@ && (probe@ matches ProbeView::File(
                bytes,
            ) && bytes.len() > 0),
    {
        match probe {
            Probe::Missing => Err(StitchError::NotFound { path }),
            Probe::NotAFile => Err(StitchError::NotAFile { path }),
            Probe::File(bytes) => {
                if bytes.len() == 0 {
                    Err(StitchError::UnknownContent { path })
                } else {
                    Input::from_kind(path, sniff(bytes.as_slice()))
                }
            },
        }
    }
}

} // verus!
