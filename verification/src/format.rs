//! The closed set of supported formats and their content signatures.

use crate::error::{StitchError, StitchErrorView};
use crate::text::same_text;
use vstd::prelude::*;

verus! {

/// A supported content format.
#[derive(Debug, Clone, Copy, PartialEq, Eq, Structural)]
pub enum Format {
    Jpeg,
    Png,
    Tiff,
    Mp4,
}

/// The canonical content signature of a format.
pub open spec fn signature_of(format: Format) -> Seq<char> {
    match format {
        Format::Jpeg => "image/jpeg"@,
        Format::Png => "image/png"@,
        Format::Tiff => "image/tiff"@,
        Format::Mp4 => "video/mp4"@,
    }
}

/// The format that a content signature stands for, if it is a supported one.
pub open spec fn format_of(signature: Seq<char>) -> Option<Format> {
    if signature == "image/jpeg"@ {
        Some(Format::Jpeg)
    } else if signature == "image/png"@ {
        Some(Format::Png)
    } else if signature == "image/tiff"@ {
        Some(Format::Tiff)
    } else if signature == "video/mp4"@ {
        Some(Format::Mp4)
    } else {
        None
    }
}

impl Format {
    /// The canonical content signature of this format.
    pub fn as_str(&self) -> (signature: &'static str)
        ensures
            signature@ == signature_of(*self),
    {
        match self {
            Format::Jpeg => "image/jpeg",
            Format::Png => "image/png",
            Format::Tiff => "image/tiff",
            Format::Mp4 => "video/mp4",
        }
    }

    /// Looks a content signature up among the supported formats. Any other
    /// signature is refused, with the signature in the error.
    pub fn from_mime_type(mime_type: &str) -> (result: Result<Format, StitchError>)
        ensures
            match result {
                Ok(format) => format_of(mime_type@) == Some(format),
                Err(error) => format_of(mime_type@).is_none() && error@
                    == (StitchErrorView::UnsupportedFormat { signature: mime_type@ }),
            },
    {
        if same_text(mime_type, "image/jpeg") {
            Ok(Format::Jpeg)
        } else if same_text(mime_type, "image/png") {
            Ok(Format::Png)
        } else if same_text(mime_type, "image/tiff") {
            Ok(Format::Tiff)
        } else if same_text(mime_type, "video/mp4") {
            Ok(Format::Mp4)
        } else {
            Err(StitchError::UnsupportedFormat { signature: mime_type.to_owned() })
        }
    }
}

/// The four signatures differ from one another.
proof fn lemma_signatures_differ()
    ensures
        "image/jpeg"@ != "image/png"@,
        "image/jpeg"@ != "image/tiff"@,
        "image/jpeg"@ != "video/mp4"@,
        "image/png"@ != "image/tiff"@,
        "image/png"@ != "video/mp4"@,
        "image/tiff"@ != "video/mp4"@,
{
    reveal_strlit("image/jpeg");
    reveal_strlit("image/png");
    reveal_strlit("image/tiff");
    reveal_strlit("video/mp4");
    assert("image/jpeg"@[6] == 'j');
    assert("image/png"@[6] == 'p');
    assert("image/tiff"@[6] == 't');
    assert("video/mp4"@[0] == 'v');
    assert("image/jpeg"@[0] == 'i');
    assert("image/png"@[0] == 'i');
    assert("image/tiff"@[0] == 'i');
}

/// Every format is found again from its own signature.
pub proof fn lemma_signature_round_trip(format: Format)
    ensures
        format_of(signature_of(format)) == Some(format),
{
    lemma_signatures_differ();
}

/// A signature stands for a format exactly when it is that format's own, so no
/// two formats share a signature and nothing outside the four is accepted.
pub proof fn lemma_format_of_exact(signature: Seq<char>, format: Format)
    ensures
        format_of(signature) == Some(format) <==> signature == signature_of(format),
{
    lemma_signatures_differ();
}

} // verus!
