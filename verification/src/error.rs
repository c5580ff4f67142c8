//! The failures that resolving and encoding can end in.

use vstd::prelude::*;
use vstd::string::StringExecFns;

verus! {

/// Every way in which resolving sources or requesting an output can fail.
/// Each value carries what a caller needs to render a diagnostic.
#[derive(Debug, Clone, PartialEq, Eq)]
pub enum StitchError {
    /// A glob pattern that does not parse.
    InvalidPattern { pattern: String },
    /// A path to classify at which nothing exists.
    NotFound { path: String },
    /// A path to classify that is not a regular file.
    NotAFile { path: String },
    /// A file whose bytes match no known signature.
    UnknownContent { path: String },
    /// A recognised signature outside the supported formats.
    UnsupportedFormat { signature: String },
    /// All patterns together matched no regular file.
    NoMatchingInputs { patterns: Vec<String> },
    /// A source that vanished between resolution and encoding.
    MissingInput { path: String },
    /// The encoder could not be run or reported failure.
    EncodeFailed { cause: String },
    /// An output was requested from no sources at all.
    EmptySourceSet,
}

/// The mathematical value of a [`StitchError`].
pub enum StitchErrorView {
    InvalidPattern { pattern: Seq<char> },
    NotFound { path: Seq<char> },
    NotAFile { path: Seq<char> },
    UnknownContent { path: Seq<char> },
    UnsupportedFormat { signature: Seq<char> },
    NoMatchingInputs { patterns: Seq<Seq<char>> },
    MissingInput { path: Seq<char> },
    EncodeFailed { cause: Seq<char> },
    EmptySourceSet,
}

impl View for StitchError {
    type V = StitchErrorView;

    open spec fn view(&self) -> StitchErrorView {
        match *self {
            StitchError::InvalidPattern { pattern } => StitchErrorView::InvalidPattern {
                pattern: pattern@,
            },
            StitchError::NotFound { path } => StitchErrorView::NotFound { path: path@ },
            StitchError::NotAFile { path } => StitchErrorView::NotAFile { path: path@ },
            StitchError::UnknownContent { path } => StitchErrorView::UnknownContent {
                path: path@,
            },
            StitchError::UnsupportedFormat { signature } => StitchErrorView::UnsupportedFormat {
                signature: signature@,
            },
            StitchError::NoMatchingInputs { patterns } => StitchErrorView::NoMatchingInputs {
                patterns: patterns.deep_view(),
            },
            StitchError::MissingInput { path } => StitchErrorView::MissingInput { path: path@ },
            StitchError::EncodeFailed { cause } => StitchErrorView::EncodeFailed { cause: cause@ },
            StitchError::EmptySourceSet => StitchErrorView::EmptySourceSet,
        }
    }
}

/// The items one after another, with the separator between each two.
pub open spec fn joined(items: Seq<Seq<char>>, separator: Seq<char>) -> Seq<char>
    decreases items.len(),
{
    if items.len() == 0 {
        Seq::empty()
    } else if items.len() == 1 {
        items[0]
    } else {
        joined(items.drop_last(), separator) + separator + items.last()
    }
}

/// The diagnostic text of a failure.
pub open spec fn message_of(error: StitchErrorView) -> Seq<char> {
    match error {
        StitchErrorView::InvalidPattern { pattern } => "Invalid input glob pattern: "@ + pattern,
        StitchErrorView::NotFound { path } => "Path does not exist: "@ + path,
        StitchErrorView::NotAFile { path } => "Path is not a file: "@ + path,
        StitchErrorView::UnknownContent { path } => "Could not determine MIME type for: "@
            + path,
        StitchErrorView::UnsupportedFormat { signature } => "Unsupported MIME type: "@
            + signature,
        StitchErrorView::NoMatchingInputs { patterns } =>
            "No inputs found matching glob pattern(s): "@ + joined(patterns, ", "@),
        StitchErrorView::MissingInput { path } => "Input file does not exist: "@ + path,
        StitchErrorView::EncodeFailed { cause } => cause,
        StitchErrorView::EmptySourceSet => "No input sources provided"@,
    }
}

/// A heading followed by a detail.
fn headed(heading: &str, detail: &str) -> (text: String)
    ensures
        text@ == heading@ + detail@,
{
    let mut text = String::from_str(heading);
    text.append(detail);
    text
}

/// The items one after another, with the separator between each two.
fn join(items: &Vec<String>, separator: &str) -> (text: String)
    ensures
        text@ == joined(items.deep_view(), separator@),
{
    let ghost all = items.deep_view();
    let mut text = String::new();
    let mut i: usize = 0;
    while i < items.len()
        invariant
            i <= items.len(),
            all == items.deep_view(),
            text@ == joined(all.take(i as int), separator@),
        decreases items.len() - i,
    {
        proof {
            assert(all.take(i + 1).drop_last() =~= all.take(i as int));
            assert(all.take(i + 1).last() == items[i as int]@);
            if i == 1 {
                assert(all.take(1)[0] == all[0]);
            }
        }
        if i > 0 {
            text.append(separator);
        }
        text.append(items[i].as_str());
        proof {
            if i == 0 {
                assert(text@ =~= items[0]@);
            }
        }
        i += 1;
    }
    assert(all.take(i as int) =~= all);
    text
}

impl StitchError {
    /// The diagnostic text of this failure, with the pattern, path, signature
    /// or cause that it carries.
    pub fn message(&self) -> (text: String)
        ensures
            text@ == message_of(self@),
    {
        match self {
            StitchError::InvalidPattern { pattern } => headed(
                "Invalid input glob pattern: ",
                pattern.as_str(),
            ),
            StitchError::NotFound { path } => headed("Path does not exist: ", path.as_str()),
            StitchError::NotAFile { path } => headed("Path is not a file: ", path.as_str()),
            StitchError::UnknownContent { path } => headed(
                "Could not determine MIME type for: ",
                path.as_str(),
            ),
            StitchError::UnsupportedFormat { signature } => headed(
                "Unsupported MIME type: ",
                signature.as_str(),
            ),
            StitchError::NoMatchingInputs { patterns } => {
                let list = join(patterns, ", ");
                headed("No inputs found matching glob pattern(s): ", list.as_str())
            },
            StitchError::MissingInput { path } => headed(
                "Input file does not exist: ",
                path.as_str(),
            ),
            StitchError::EncodeFailed { cause } => cause.clone(),
            StitchError::EmptySourceSet => String::from_str("No input sources provided"),
        }
    }
}

} // verus!
