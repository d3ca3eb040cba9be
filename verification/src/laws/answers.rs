//! What the functions answer, told by their arguments: each statement speaks of
//! every result that a call may give.

use vstd::prelude::*;
use vstd::utf8::encode_utf8;

use crate::charset::{decode_in, text_in, utf8_text};
use crate::error::{ConvertError, Problem};
use crate::headers::{content_param, field, fields_of, media_type, Headers};
use crate::laws::bodies::{
    charset_of, holds_content, is_single, law_body_is_decoded, law_written_message_shows_its_text,
};
use crate::laws::document::{
    has_value, law_document_has_three_pieces, law_metadata_shows_every_field, lays_out, rows,
    unmarked,
};
use crate::laws::fields::{
    is_bare, law_quoted_parameter_comes_back, law_written_message_is_read, written,
};
use crate::laws::word;
use crate::laws::words::{law_every_underscore_is_a_space, names_utf8};
use crate::message::{
    body_blocks, message_blocks, metadata_block, paragraph_blocks, parse, parse_with,
};
use crate::mime::{
    body_of, decode_body, delimiter, extract_text, header_block, levels_at, parts_of, slices,
    split_headers, split_parts, text_of,
};
use crate::model::{
    blocks, cleans_blocks, inlines, Block, BlockView, Document, Inline, InlineView,
};
use crate::text::{is_blank, is_white, lines, lower, trim};
use crate::transfer::{
    base64_decoded, base64_encoded, decode_base64, decode_qp, hex, hex_value, qp_decoded,
    qp_escaped,
};
use crate::words::{decode_one_word, decode_words, word_at, words_decoded};

verus! {

/// A message is parsed into its document, or refused for its problem; with a
/// cleaning, into the cleaned document.
pub proof fn law_parse_answers<F: Fn(&str) -> String>(
    bytes: &[u8],
    r: Result<Document, ConvertError>,
    clean: F,
    c: Result<Document, ConvertError>,
)
    ensures
        call_ensures(parse, (bytes,), r) ==> match r {
            Ok(doc) => message_blocks(bytes@) == Ok::<Seq<BlockView>, Problem>(doc@),
            Err(e) => message_blocks(bytes@) == Err::<Seq<BlockView>, Problem>(e@),
        },
        call_ensures(parse_with::<F>, (bytes, clean), c) ==> match c {
            Ok(doc) => message_blocks(bytes@) matches Ok(raw) && cleans_blocks(clean, raw, doc@),
            Err(e) => message_blocks(bytes@) == Err::<Seq<BlockView>, Problem>(e@),
        },
{
}

/// A message that is written out, with its text as it is, in base64 or in
/// quoted-printable, is parsed into a document that holds its subject, its
/// metadata and the paragraphs of that text.
pub proof fn law_parse_shows_what_was_sent(
    bytes: &[u8],
    r: Result<Document, ConvertError>,
    ls: Seq<Seq<char>>,
    cr: bool,
    text: Seq<char>,
    body: Seq<u8>,
)
    requires
        call_ensures(parse, (bytes,), r),
        bytes@ == written(ls, cr, body),
        forall|i: int| 0 <= i < ls.len() ==> is_bare(#[trigger] ls[i]),
        is_single(media_type(fields_of(ls))),
        names_utf8(charset_of(fields_of(ls))),
        ({
            let declared = field(fields_of(ls), "content-transfer-encoding"@);
            let name = lower(trim(declared->0));
            ||| declared is Some && name == "base64"@ && body == base64_encoded(encode_utf8(text))
            ||| declared is Some && name == "quoted-printable"@ && body == qp_escaped(
                encode_utf8(text),
            )
            ||| declared is None && body == encode_utf8(text)
        }),
        !is_blank(text),
        text[0] != '\u{feff}',
    ensures
        r matches Ok(doc) && {
            let fields = fields_of(ls);
            let h: int = if has_value(fields, "subject"@) {
                1
            } else {
                0
            };
            let m: int = if rows(fields).len() > 0 {
                1
            } else {
                0
            };
            &&& doc@.len() == h + m + body_blocks(text).len()
            &&& h == 1 ==> doc@[0] == (BlockView::Heading {
                level: 1,
                anchor: None,
                content: seq![unmarked(words_decoded(field(fields, "subject"@)->0))],
            })
            &&& m == 1 ==> (doc@[h] matches BlockView::Paragraph(content) && lays_out(
                content,
                rows(fields),
            ))
            &&& doc@.skip(h + m) == body_blocks(text)
        },
{
    law_written_message_is_read(ls, cr, body);
    law_written_message_shows_its_text(ls, cr, text, body);
    law_document_has_three_pieces(bytes@, text);
}

/// The fields of a header block are those of its lines, read as UTF-8; the
/// value of a field, the content type and its parameters are those of the
/// fields.
pub proof fn law_headers_answer(
    bytes: &[u8],
    parsed: Headers,
    headers: &Headers,
    name: &str,
    value: Option<String>,
    media: String,
)
    ensures
        call_ensures(Headers::parse, (bytes,), parsed) ==> parsed@ == fields_of(
            lines(utf8_text(bytes@)),
        ),
        call_ensures(Headers::parse_text, (name,), parsed) ==> parsed@ == fields_of(lines(name@)),
        call_ensures(Headers::get, (headers, name), value) ==> match value {
            Some(v) => field(headers@, name@) == Some(v@),
            None => field(headers@, name@) is None,
        },
        call_ensures(Headers::ct_param, (headers, name), value) ==> match value {
            Some(v) => content_param(headers@, name@) == Some(v@),
            None => content_param(headers@, name@) is None,
        },
        call_ensures(Headers::content_type, (headers,), media) ==> media@ == media_type(headers@),
{
}

/// Asked for a parameter that is written in quotes, or without them where it
/// has no white space at its ends, the headers answer exactly what was written.
pub proof fn law_written_parameter_is_answered(
    headers: &Headers,
    name: &str,
    r: Option<String>,
    media: Seq<char>,
    text: Seq<char>,
    quoted: bool,
)
    requires
        call_ensures(Headers::ct_param, (headers, name), r),
        !media.contains(';'),
        !name@.contains(';') && !name@.contains('='),
        forall|i: int| 0 <= i < name@.len() ==> !is_white(#[trigger] name@[i]),
        !text.contains(';') && !text.contains('"'),
        !quoted && text.len() > 0 ==> !is_white(text[0]) && !is_white(text.last()),
        field(headers@, "content-type"@) == Some(
            if quoted {
                media + seq![';', ' '] + name@ + seq!['=', '"'] + text + seq!['"']
            } else {
                media + seq![';', ' '] + name@ + seq!['='] + text
            },
        ),
    ensures
        r matches Some(value) && value@ == text,
{
    law_quoted_parameter_comes_back(headers@, media, name@, text, quoted);
}

/// The metadata of a header block is a line for each field that has something
/// to show.
pub proof fn law_metadata_is_answered(headers: &Headers, r: Vec<Inline>)
    requires
        call_ensures(metadata_block, (headers,), r),
    ensures
        lays_out(inlines(r@), rows(headers@)),
{
    law_metadata_shows_every_field(headers@);
}

/// A message is split into its header block and its body, a multipart body into
/// its parts; the text to show is that of the body at its depth.
pub proof fn law_mime_answers<'a>(
    bytes: &'a [u8],
    halves: (Vec<u8>, &'a [u8]),
    boundary: &str,
    parts: Vec<&'a [u8]>,
    headers: &Headers,
    depth: usize,
    shown: Result<String, ConvertError>,
)
    ensures
        call_ensures(split_headers, (bytes,), halves) ==> halves.0@ == header_block(bytes@)
            && halves.1@ == body_of(bytes@),
        call_ensures(split_parts, (bytes, boundary), parts) ==> slices(parts@) == parts_of(
            bytes@,
            delimiter(boundary@),
        ),
        call_ensures(extract_text, (headers, bytes, depth), shown) ==> match shown {
            Ok(text) => text_of(headers@, bytes@, levels_at(depth as int)) == Ok::<
                Seq<char>,
                Problem,
            >(text@),
            Err(e) => text_of(headers@, bytes@, levels_at(depth as int)) == Err::<
                Seq<char>,
                Problem,
            >(e@),
        },
{
}

/// The text of a body is its content, with the transfer encoding undone, in the
/// declared charset.
pub proof fn law_decoded_body_is_answered(
    headers: &Headers,
    body: &[u8],
    r: String,
    content: Seq<u8>,
)
    requires
        call_ensures(decode_body, (headers, body), r),
        holds_content(headers@, body@, content),
    ensures
        r@ == text_in(charset_of(headers@), content),
{
    law_body_is_decoded(headers@, body@, content);
}

/// Encoded words and transfer encodings are decoded, charsets applied, and the
/// paragraphs of a text laid out.
pub proof fn law_decoders_answer(
    text: &str,
    decoded: String,
    word: Option<(String, usize)>,
    input: &[u8],
    bytes: Vec<u8>,
    maybe: Option<Vec<u8>>,
    paragraphs: Vec<Block>,
    digit: u8,
    value: Option<u8>,
)
    ensures
        call_ensures(decode_words, (text,), decoded) ==> decoded@ == words_decoded(text@),
        call_ensures(decode_one_word, (text,), word) ==> match word {
            Some((t, n)) => word_at(text@) matches Some((said, taken)) && t@ == said && n
                == encode_utf8(text@.take(taken)).len(),
            None => word_at(text@) is None,
        },
        call_ensures(decode_qp, (input,), bytes) ==> bytes@ == qp_decoded(input@),
        call_ensures(decode_base64, (input,), maybe) ==> match maybe {
            Some(out) => base64_decoded(input@) == Some(out@),
            None => base64_decoded(input@) is None,
        },
        call_ensures(decode_in, (text, input), decoded) ==> decoded@ == text_in(text@, input@),
        call_ensures(paragraph_blocks, (text,), paragraphs) ==> blocks(paragraphs@) == body_blocks(
            text@,
        ),
        call_ensures(hex, (digit,), value) ==> value == hex_value(digit),
{
}

/// Every underscore in a word of the `Q` encoding is answered as a space.
pub proof fn law_underscores_are_answered_as_spaces(
    text: &str,
    r: String,
    payload: Seq<char>,
    i: int,
)
    requires
        call_ensures(decode_words, (text,), r),
        text@ == word('Q', payload) || text@ == word('q', payload),
        forall|k: int| 0 <= k < payload.len() ==> '\0' <= #[trigger] payload[k] <= '\u{7f}',
        !payload.contains('?'),
        !payload.contains('='),
        0 <= i < payload.len(),
    ensures
        r@.len() == payload.len(),
        r@[i] == if payload[i] == '_' {
            ' '
        } else {
            payload[i]
        },
{
    law_every_underscore_is_a_space(payload, i);
}

/// The views leave nothing out: every field, every part, every block and every
/// piece of a line stands in them as it is, in its place, and every error under
/// its own kind.
pub proof fn law_views_show_everything(
    headers: Headers,
    parts: Seq<&[u8]>,
    doc: Document,
    content: Seq<Inline>,
    error: ConvertError,
    i: int,
)
    ensures
        match error {
            ConvertError::Unsupported(m) => error@ == Problem::Unsupported(m@),
            ConvertError::Malformed(m) => error@ == Problem::Malformed(m@),
        },
        headers@.len() == headers.0@.len(),
        0 <= i < headers@.len() ==> headers@[i] == (headers.0@[i].0@, headers.0@[i].1@),
        slices(parts).len() == parts.len(),
        0 <= i < parts.len() ==> slices(parts)[i] == parts[i]@,
        doc@.len() == doc.blocks@.len(),
        0 <= i < doc@.len() ==> match doc.blocks@[i] {
            Block::Heading { level, anchor, content } => doc@[i] == (BlockView::Heading {
                level,
                anchor: match anchor {
                    Some(a) => Some(a@),
                    None => None,
                },
                content: inlines(content@),
            }),
            Block::Paragraph(content) => doc@[i] == BlockView::Paragraph(inlines(content@)),
        },
        inlines(content).len() == content.len(),
        0 <= i < content.len() ==> match content[i] {
            Inline::Text { text, style } => inlines(content)[i] == (InlineView::Text {
                text: text@,
                style,
            }),
            Inline::LineBreak => inlines(content)[i] == InlineView::LineBreak,
        },
{
}

} // verus!
