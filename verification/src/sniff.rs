//! Content sniffing: what a file's bytes say it is.

use vstd::prelude::*;

verus! {

/// What sniffing found in a file's bytes: a content signature and the extension
/// that files of that content conventionally carry. Neither comes from the
/// file's name.
#[derive(Debug, Clone, PartialEq, Eq)]
pub struct Kind {
    pub mime_type: String,
    pub extension: String,
}

/// The mathematical value of a [`Kind`].
pub struct KindView {
    pub mime_type: Seq<char>,
    pub extension: Seq<char>,
}

impl View for Kind {
    type V = KindView;

    open spec fn view(&self) -> KindView {
        KindView { mime_type: self.mime_type@, extension: self.extension@ }
    }
}

/// The mathematical value of a sniffing result.
pub open spec fn kind_view(kind: Option<Kind>) -> Option<KindView> {
    match kind {
        Some(found) => Some(found@),
        None => None,
    }
}

/// The signature and extension that `infer::get` reports for a buffer, or
/// `None` where none of its matchers recognises the bytes. It is the first entry
/// of that crate's built-in matcher table whose test the buffer passes, so it
/// depends on the bytes alone; the table itself is not restated here.
pub uninterp spec fn sniffed(bytes: Seq<u8>) -> Option<(Seq<char>, Seq<char>)>;

/// [`sniffed`] as a [`KindView`].
pub open spec fn sniffed_kind(bytes: Seq<u8>) -> Option<KindView> {
    match sniffed(bytes) {
        Some(found) => Some(KindView { mime_type: found.0, extension: found.1 }),
        None => None,
    }
}

/// Calls `infer::get` on the buffer and copies the MIME type and the extension
/// out of the `infer::Type` it returns. Trusted: the result is [`sniffed`] of
/// the bytes, which says no more than that equal bytes sniff alike.
#[verifier::external_body]
pub(crate) fn sniff(bytes: &[u8]) -> (kind: Option<Kind>)
    ensures
        kind.is_some() == sniffed(bytes@).is_some(),
        kind matches Some(found) ==> sniffed(bytes@) == Some((found.mime_type@, found.extension@)),
{
    match infer::get(bytes) {
        Some(found) => Some(
            Kind {
                mime_type: found.mime_type().to_string(),
                extension: found.extension().to_string(),
            },
        ),
        None => None,
    }
}

} // verus!
