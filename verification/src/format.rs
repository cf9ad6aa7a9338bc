//! Deciding from a file's bytes whether it is shown as text or summarised.

use vstd::prelude::*;
use vstd::string::*;
use crate::text::is_prefix;
use crate::text::chars_of;

verus! {

/// The full name and the media type of the format that content sniffing
/// finds in `bytes`.
pub uninterp spec fn sniffed(bytes: Seq<u8>) -> (Seq<char>, Seq<char>);

/// Detects the format with `file_format::FileFormat::from_bytes` and hands
/// back that format's `name()` and `media_type()`. The crate is built with
/// its text reader alone: detection compares the leading bytes with the
/// known signatures, each behind a length test, and otherwise looks for
/// control characters in the first lines. It reads nothing but the bytes
/// given and computes no offset or size from them.
#[verifier::external_body]
pub(crate) fn sniff(bytes: &[u8]) -> (r: (String, String))
    ensures
        (r.0@, r.1@) == sniffed(bytes@),
{
    let found = file_format::FileFormat::from_bytes(bytes);
    (found.name().to_string(), found.media_type().to_string())
}

/// How a file's body is shown.
#[derive(Debug)]
pub enum RenderedFormat {
    /// Line by line.
    PlainText,
    /// As a summary naming the format.
    Binary { name: String, media_type: String },
}

/// The mathematical value of a [`RenderedFormat`].
pub enum FormatView {
    PlainText,
    Binary { name: Seq<char>, media_type: Seq<char> },
}

impl View for RenderedFormat {
    type V = FormatView;

    open spec fn view(&self) -> FormatView {
        match self {
            RenderedFormat::PlainText => FormatView::PlainText,
            RenderedFormat::Binary { name, media_type } => FormatView::Binary {
                name: name@,
                media_type: media_type@,
            },
        }
    }
}

/// The first segment of every textual media type.
pub open spec fn text_prefix() -> Seq<char> {
    seq!['t', 'e', 'x', 't']
}

/// A format is shown as text exactly when its media type starts with
/// `text`; every other format, unrecognised data and the empty file
/// included, is summarised.
pub open spec fn classified(name: Seq<char>, media_type: Seq<char>) -> FormatView {
    if is_prefix(text_prefix(), media_type) {
        FormatView::PlainText
    } else {
        FormatView::Binary { name, media_type }
    }
}

/// Decides how a format with this name and media type is shown.
pub fn classify(name: String, media_type: String) -> (r: RenderedFormat)
    ensures
        r@ == classified(name@, media_type@),
{
    let m = chars_of(media_type.as_str());
    let textual = m.len() >= 4 && m[0] == 't' && m[1] == 'e' && m[2] == 'x' && m[3] == 't';
    proof {
        if m@.len() >= 4 {
            assert(m@.take(4) =~= seq![m@[0], m@[1], m@[2], m@[3]]);
            if textual {
                assert(m@.take(4) =~= text_prefix());
            } else {
                assert(m@.take(4) != text_prefix()) by {
                    if m@.take(4) == text_prefix() {
                        assert(m@.take(4)[0] == 't');
                        assert(m@.take(4)[1] == 'e');
                        assert(m@.take(4)[2] == 'x');
                        assert(m@.take(4)[3] == 't');
                    }
                }
            }
        }
    }
    if textual {
        RenderedFormat::PlainText
    } else {
        RenderedFormat::Binary { name, media_type }
    }
}

/// Sniffs `bytes` and decides how the file is shown.
pub fn detect_format(bytes: &[u8]) -> (r: RenderedFormat)
    ensures
        r@ == classified(sniffed(bytes@).0, sniffed(bytes@).1),
{
    let (name, media_type) = sniff(bytes);
    classify(name, media_type)
}

} // verus!
