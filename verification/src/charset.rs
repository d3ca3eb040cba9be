//! Bytes turned into text: UTF-8 for header blocks, the charsets of the
//! `encoding_rs` crate for bodies and encoded words.

use vstd::prelude::*;
use vstd::utf8::{decode_utf8, encode_utf8, valid_utf8};

use crate::text::starts_with;

verus! {

/// What `String::from_utf8_lossy` makes of bytes that are not UTF-8.
pub uninterp spec fn utf8_repaired(bytes: Seq<u8>) -> Seq<char>;

/// Whether `encoding_rs::Encoding::for_label` knows an encoding by this label.
pub uninterp spec fn label_known(label: Seq<u8>) -> bool;

/// What `encoding_rs::Encoding::decode` makes of `bytes`, for the encoding that
/// has this label.
pub uninterp spec fn label_decoded(label: Seq<u8>, bytes: Seq<u8>) -> Seq<char>;

/// The text of a header block: its UTF-8, repaired where it is damaged.
pub open spec fn utf8_text(bytes: Seq<u8>) -> Seq<char> {
    if valid_utf8(bytes) {
        decode_utf8(bytes)
    } else {
        utf8_repaired(bytes)
    }
}

/// `label` is `utf-8`, in any mix of capitals and small letters.
pub open spec fn is_utf8_label(label: Seq<u8>) -> bool {
    &&& label.len() == 5
    &&& label[0] == 'u' as u8 || label[0] == 'U' as u8
    &&& label[1] == 't' as u8 || label[1] == 'T' as u8
    &&& label[2] == 'f' as u8 || label[2] == 'F' as u8
    &&& label[3] == '-' as u8
    &&& label[4] == '8' as u8
}

/// The byte order mark in UTF-8.
pub open spec fn utf8_bom() -> Seq<u8> {
    seq![0xefu8, 0xbbu8, 0xbfu8]
}

/// `bytes` are valid UTF-8 behind a byte order mark.
pub open spec fn marked_utf8(bytes: Seq<u8>) -> bool {
    starts_with(bytes, utf8_bom()) && valid_utf8(bytes.skip(3))
}

/// Whether `label` names a charset.
pub open spec fn is_charset(label: Seq<u8>) -> bool {
    is_utf8_label(label) || label_known(label)
}

/// The text of `bytes` in the charset that `label` names. A byte order mark
/// overrides the label and is no part of the text.
pub open spec fn charset_text(label: Seq<u8>, bytes: Seq<u8>) -> Seq<char> {
    if marked_utf8(bytes) {
        decode_utf8(bytes.skip(3))
    } else if is_utf8_label(label) && valid_utf8(bytes) {
        decode_utf8(bytes)
    } else {
        label_decoded(label, bytes)
    }
}

/// Calls `String::from_utf8_lossy`. Valid UTF-8 comes out as the characters it
/// encodes. What comes out of other bytes has the name [`utf8_repaired`]; it
/// depends on the bytes alone. Every character of the result stands for at
/// least one byte, be it an encoded character or part of a damaged one.
#[verifier::external_body]
pub(crate) fn utf8_lossy(bytes: &[u8]) -> (r: String)
    ensures
        valid_utf8(bytes@) ==> r@ == decode_utf8(bytes@),
        !valid_utf8(bytes@) ==> r@ == utf8_repaired(bytes@),
        r@.len() <= bytes@.len(),
{
    String::from_utf8_lossy(bytes).into_owned()
}

/// Calls `encoding_rs::Encoding::for_label` and says whether it found an
/// encoding. It finds one for `utf-8` in any case; for which other labels it
/// does has the name [`label_known`].
#[verifier::external_body]
pub(crate) fn knows_label(label: &[u8]) -> (r: bool)
    ensures
        r == (is_utf8_label(label@) || label_known(label@)),
{
    encoding_rs::Encoding::for_label(label).is_some()
}

/// Calls `encoding_rs::Encoding::decode` on the encoding that has this label.
///
/// Bytes that begin with the UTF-8 byte order mark are decoded as UTF-8 without
/// it, whatever the label, and valid UTF-8 under the label `utf-8` gives the
/// characters it encodes. Every other result has the name [`label_decoded`]; it
/// depends on the label and the bytes alone.
///
/// The function reserves up to three bytes for each byte of input, may double
/// that once, and panics where the size cannot be computed or allocated; the
/// bound keeps well clear of that.
#[verifier::external_body]
pub(crate) fn decode_labelled(label: &[u8], bytes: &[u8]) -> (r: String)
    requires
        is_utf8_label(label@) || label_known(label@),
        bytes@.len() <= usize::MAX / 16,
    ensures
        marked_utf8(bytes@) ==> r@ == decode_utf8(bytes@.skip(3)),
        !marked_utf8(bytes@) && is_utf8_label(label@) && valid_utf8(bytes@) ==> r@ == decode_utf8(
            bytes@,
        ),
        !marked_utf8(bytes@) && !(is_utf8_label(label@) && valid_utf8(bytes@)) ==> r@
            == label_decoded(label@, bytes@),
{
    encoding_rs::Encoding::for_label(label).unwrap().decode(bytes).0.into_owned()
}

/// The label of UTF-8.
pub open spec fn utf8_label() -> Seq<u8> {
    seq![0x75u8, 0x74u8, 0x66u8, 0x2du8, 0x38u8]
}

/// The text of `bytes` in the charset called `charset`, or in UTF-8 where no
/// charset has that name.
pub open spec fn text_in(charset: Seq<char>, bytes: Seq<u8>) -> Seq<char> {
    if is_charset(encode_utf8(charset)) {
        charset_text(encode_utf8(charset), bytes)
    } else {
        charset_text(utf8_label(), bytes)
    }
}

/// Decodes `bytes` by the charset called `charset`. A name that no charset has
/// counts as UTF-8. The bound keeps the room that the text may need within what
/// can be allocated.
pub fn decode_in(charset: &str, bytes: &[u8]) -> (r: String)
    requires
        bytes@.len() <= usize::MAX / 16,
    ensures
        r@ == text_in(charset@, bytes@),
{
    let label = charset.as_bytes();
    if knows_label(label) {
        decode_labelled(label, bytes)
    } else {
        let fallback: [u8; 5] = [0x75, 0x74, 0x66, 0x2d, 0x38];
        assert(fallback@ =~= utf8_label());
        decode_labelled(&fallback, bytes)
    }
}

} // verus!
