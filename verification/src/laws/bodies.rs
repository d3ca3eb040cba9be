//! What text a message shows, told by how its body and its parts are written.

use vstd::prelude::*;
use vstd::utf8::encode_utf8;

use crate::charset::{text_in, utf8_text};
use crate::error::Problem;
use crate::headers::{content_param, field, fields_of, media_type};
use crate::laws::fields::{is_bare, law_written_message_is_read, written};
use crate::laws::text::law_first_stretch_is_found;
use crate::laws::words::{law_utf8_is_read, names_utf8};
use crate::laws::{
    is_stretch, lemma_delimiter_behind, lemma_first_nested_at, lemma_first_plain_at,
    lemma_line_kept, lemma_no_plain, lemma_occurs_found, lemma_one_occurs,
};
use crate::message::{message_fields, message_text};
use crate::mime::{
    body_of, body_text, delimiter, first_line, first_nested, header_block, is_closing, is_multipart,
    is_readable, lemma_line_len, levels_at, line_len, nested_text, next_delimiter, part_fields,
    part_text, part_type, parts_behind, parts_of, text_of,
};
use crate::text::{
    find, is_blank, lemma_find_some, lines, lower, occurs_at, starts_with, trim,
};
use crate::transfer::{
    base64_decoded, base64_encoded, law_base64_round_trip, law_qp_escapes_come_back, qp_decoded,
    qp_escaped, CR, LF,
};
use crate::words::lemma_utf8_concat;

verus! {

/// `content` is what `body` holds under its transfer encoding: quoted-printable
/// and base64 are undone, under any other name, or none, the body is its own
/// content.
pub open spec fn holds_content(
    fields: Seq<(Seq<char>, Seq<char>)>,
    body: Seq<u8>,
    content: Seq<u8>,
) -> bool {
    let declared = field(fields, "content-transfer-encoding"@);
    let name = lower(trim(declared->0));
    &&& declared is Some && name == "base64"@ ==> base64_decoded(body) == Some(content)
    &&& declared is Some && name == "quoted-printable"@ ==> qp_decoded(body) == content
    &&& declared is None || (name != "base64"@ && name != "quoted-printable"@) ==> body == content
}

/// The body is declared to be base64 and is none.
pub open spec fn is_damaged(fields: Seq<(Seq<char>, Seq<char>)>, body: Seq<u8>) -> bool {
    let declared = field(fields, "content-transfer-encoding"@);
    declared is Some && lower(trim(declared->0)) == "base64"@ && base64_decoded(body) is None
}

/// The charset that is declared, or `utf-8`.
pub open spec fn charset_of(fields: Seq<(Seq<char>, Seq<char>)>) -> Seq<char> {
    match content_param(fields, "charset"@) {
        Some(charset) => charset,
        None => "utf-8"@,
    }
}

proof fn lemma_encodings_differ()
    ensures
        "base64"@ != "quoted-printable"@,
{
    reveal_strlit("base64");
    reveal_strlit("quoted-printable");
    assert("base64"@.len() != "quoted-printable"@.len());
}

/// The text of a body is its content, with the transfer encoding undone, in the
/// declared charset. Base64 that cannot be decoded is its own content.
pub proof fn law_body_is_decoded(
    fields: Seq<(Seq<char>, Seq<char>)>,
    body: Seq<u8>,
    content: Seq<u8>,
)
    requires
        holds_content(fields, body, content) || (is_damaged(fields, body) && content == body),
    ensures
        body_text(fields, body) == text_in(charset_of(fields), content),
{
    lemma_encodings_differ();
}

/// A media type for a body that is shown itself: no multipart and no HTML.
pub open spec fn is_single(media: Seq<char>) -> bool {
    &&& media != "text/html"@
    &&& media.len() < 10 || media.take(10) != "multipart/"@
}

/// A media type for a body with parts.
pub open spec fn is_composed(media: Seq<char>) -> bool {
    media.len() >= 10 && media.take(10) == "multipart/"@
}

/// What a media type begins with.
proof fn lemma_media(media: Seq<char>)
    ensures
        is_multipart(media) <==> is_composed(media),
        !is_composed("text/html"@),
        !is_composed("text/plain"@),
        "text/html"@ != "text/plain"@,
{
    reveal_strlit("multipart/");
    reveal_strlit("text/html");
    reveal_strlit("text/plain");
    let pat = "multipart/"@;
    assert(pat.len() == 10);
    if media.len() >= 10 {
        law_first_stretch_is_found(media, pat, 0);
    }
    assert("text/html"@.len() == 9);
    let plain = "text/plain"@;
    assert(plain.len() == 10);
    assert(plain.take(10) =~= plain);
    assert(plain[0] == 't' && pat[0] == 'm');
}

/// Of a message that is no multipart and no HTML, the content is shown, with
/// its transfer encoding undone and in its charset; a content that is blank is
/// refused.
pub proof fn law_single_body_is_shown(
    fields: Seq<(Seq<char>, Seq<char>)>,
    body: Seq<u8>,
    content: Seq<u8>,
    levels: nat,
)
    requires
        levels > 0,
        is_single(media_type(fields)),
        holds_content(fields, body, content) || (is_damaged(fields, body) && content == body),
    ensures
        !is_blank(text_in(charset_of(fields), content)) ==> text_of(fields, body, levels) == Ok::<
            Seq<char>,
            Problem,
        >(text_in(charset_of(fields), content)),
        is_blank(text_in(charset_of(fields), content)) ==> text_of(fields, body, levels) == Err::<
            Seq<char>,
            Problem,
        >(Problem::Unsupported("email has no text body"@)),
{
    lemma_media(media_type(fields));
    law_body_is_decoded(fields, body, content);
}

/// A multipart that declares no boundary is shown as flat text.
pub proof fn law_multipart_without_boundary_is_flat(
    fields: Seq<(Seq<char>, Seq<char>)>,
    body: Seq<u8>,
    content: Seq<u8>,
    levels: nat,
)
    requires
        levels > 0,
        is_composed(media_type(fields)),
        content_param(fields, "boundary"@) is None,
        holds_content(fields, body, content) || (is_damaged(fields, body) && content == body),
    ensures
        text_of(fields, body, levels) == Ok::<Seq<char>, Problem>(
            text_in(charset_of(fields), content),
        ),
{
    lemma_media(media_type(fields));
    law_body_is_decoded(fields, body, content);
}

/// A body that is HTML is refused, whatever it holds.
pub proof fn law_html_body_is_refused(
    fields: Seq<(Seq<char>, Seq<char>)>,
    body: Seq<u8>,
    levels: nat,
)
    requires
        levels > 0,
        media_type(fields) == "text/html"@,
    ensures
        text_of(fields, body, levels) == Err::<Seq<char>, Problem>(
            Problem::Unsupported("email body is text/html only; no text/plain alternative"@),
        ),
{
    lemma_media(media_type(fields));
}

/// A text that is sent as a message of its own, in UTF-8, comes back, whether
/// it is written in base64, in quoted-printable or as it is.
pub proof fn law_sent_text_is_shown(bytes: Seq<u8>, text: Seq<char>)
    requires
        is_single(media_type(message_fields(bytes))),
        names_utf8(charset_of(message_fields(bytes))),
        ({
            let sent = encode_utf8(text);
            let declared = field(message_fields(bytes), "content-transfer-encoding"@);
            let name = lower(trim(declared->0));
            ||| declared is Some && name == "base64"@ && body_of(bytes) == base64_encoded(sent)
            ||| declared is Some && name == "quoted-printable"@ && body_of(bytes) == qp_escaped(
                sent,
            )
            ||| declared is Some && name == "quoted-printable"@ && qp_decoded(body_of(bytes))
                == sent
            ||| declared is Some && name != "base64"@ && name != "quoted-printable"@ && body_of(
                bytes,
            ) == sent
            ||| declared is None && body_of(bytes) == sent
        }),
        !is_blank(text),
        text[0] != '\u{feff}',
    ensures
        message_text(bytes) == Ok::<Seq<char>, Problem>(text),
{
    let fields = message_fields(bytes);
    let sent = encode_utf8(text);
    lemma_encodings_differ();
    law_base64_round_trip(sent);
    law_qp_escapes_come_back(sent);
    law_utf8_is_read(charset_of(fields), text);
    law_single_body_is_shown(fields, body_of(bytes), sent, levels_at(0));
}

/// The name that is used where no charset is declared means UTF-8, in small
/// letters.
pub proof fn law_utf8_where_no_charset_is_declared(fields: Seq<(Seq<char>, Seq<char>)>)
    ensures
        content_param(fields, "charset"@) is None ==> names_utf8(charset_of(fields)),
{
    reveal_strlit("utf-8");
    assert(lower("utf-8"@) =~= seq!['u', 't', 'f', '-', '8']);
}

/// A message that is written out, its body in base64 or in quoted-printable,
/// shows the text that was sent.
pub proof fn law_written_message_shows_its_text(
    ls: Seq<Seq<char>>,
    cr: bool,
    text: Seq<char>,
    body: Seq<u8>,
)
    requires
        forall|i: int| 0 <= i < ls.len() ==> is_bare(#[trigger] ls[i]),
        is_single(media_type(fields_of(ls))),
        names_utf8(charset_of(fields_of(ls))),
        ({
            let declared = field(fields_of(ls), "content-transfer-encoding"@);
            let name = lower(trim(declared->0));
            ||| declared is Some && name == "base64"@ && body == base64_encoded(encode_utf8(text))
            ||| declared is Some && name == "quoted-printable"@ && body == qp_escaped(
                encode_utf8(text),
            )
            ||| declared is None && body == encode_utf8(text)
        }),
        !is_blank(text),
        text[0] != '\u{feff}',
    ensures
        message_text(written(ls, cr, body)) == Ok::<Seq<char>, Problem>(text),
{
    law_written_message_is_read(ls, cr, body);
    law_sent_text_is_shown(written(ls, cr, body), text);
}

/// A delimiter is two hyphens and the boundary.
pub proof fn law_delimiter_is_hyphens_and_boundary(boundary: Seq<char>)
    ensures
        delimiter(boundary) == seq![0x2du8, 0x2du8] + encode_utf8(boundary),
{
    let hyphens = seq!['-', '-'];
    lemma_utf8_concat(hyphens, boundary);
    vstd::utf8::is_ascii_chars_encode_utf8(hyphens);
    assert(hyphens[0] as u8 == encode_utf8(hyphens)[0]);
    assert(hyphens[1] as u8 == encode_utf8(hyphens)[1]);
    assert(encode_utf8(hyphens) =~= seq![0x2du8, 0x2du8]);
}

/// A line of `s` that starts at `i` begins with `delim`.
pub open spec fn delimiter_at(s: Seq<u8>, delim: Seq<u8>, i: int) -> bool {
    &&& 0 <= i < s.len()
    &&& i == 0 || s[i - 1] == LF
    &&& i + delim.len() <= s.len()
    &&& s.subrange(i, i + delim.len() as int) == delim
}

/// Where the line feed of the first line stands.
proof fn lemma_first_feed(s: Seq<u8>)
    requires
        s.len() > 0,
    ensures
        0 < line_len(s) <= s.len(),
        forall|i: int| 0 <= i < line_len(s) - 1 ==> #[trigger] s[i] != LF,
        line_len(s) < s.len() ==> s[line_len(s) - 1] == LF,
{
    let lf = seq![LF];
    lemma_line_len(s);
    lemma_find_some(s, lf);
    assert(lf.len() == 1 && lf[0] == LF);
    match find(s, lf) {
        Some(n) => {
            assert(lf[0] == s[n + 0]);
            assert forall|i: int| 0 <= i < n implies #[trigger] s[i] != LF by {
                if s[i] == LF {
                    lemma_one_occurs(s, LF, i);
                    assert(!occurs_at(s, lf, i));
                }
            }
        },
        None => {
            assert forall|i: int| 0 <= i < s.len() implies #[trigger] s[i] != LF by {
                if s[i] == LF {
                    lemma_one_occurs(s, LF, i);
                    lemma_occurs_found(s, lf, i);
                }
            }
        },
    }
}

/// A line begins with the delimiter where the text does.
proof fn lemma_line_begins(s: Seq<u8>, delim: Seq<u8>)
    requires
        s.len() > 0,
        !delim.contains(LF),
        !delim.contains(CR),
    ensures
        starts_with(first_line(s), delim) <==> delimiter_at(s, delim, 0),
{
    let line = first_line(s);
    let n = delim.len() as int;
    lemma_first_feed(s);
    assert(line.len() <= line_len(s));
    assert forall|k: int| 0 <= k < line.len() implies #[trigger] line[k] == s[k] by {}
    if starts_with(line, delim) {
        assert forall|k: int| 0 <= k < n implies delim[k] == s.subrange(0, n)[k] by {
            assert(delim[k] == line[0 + k]);
        }
        assert(s.subrange(0, n) =~= delim);
    }
    if delimiter_at(s, delim, 0) {
        assert forall|k: int| 0 <= k < n implies #[trigger] delim[k] == s[0 + k] && s[k] != LF
            && s[k] != CR by {
            assert(s.subrange(0, n)[k] == s[k]);
            assert(delim.contains(delim[k]));
        }
        assert(n <= line.len()) by {
            if n > line.len() {
                let m = line.len() as int;
                assert(delim[m] == s[0 + m]);
            }
        }
        assert(occurs_at(line, delim, 0));
    }
}

/// The next delimiter line is the first line that begins with the delimiter,
/// at the start of the text or behind a line feed, and nowhere else.
pub proof fn law_delimiters_stand_at_line_starts(s: Seq<u8>, delim: Seq<u8>, j: int)
    requires
        !delim.contains(LF),
        !delim.contains(CR),
    ensures
        next_delimiter(s, delim) matches Some(i) ==> delimiter_at(s, delim, i) && (j < i
            ==> !delimiter_at(s, delim, j)),
        next_delimiter(s, delim) is None ==> !delimiter_at(s, delim, j),
    decreases s.len(),
{
    if s.len() > 0 {
        lemma_first_feed(s);
        lemma_line_begins(s, delim);
        let n = line_len(s);
        let rest = s.skip(n);
        let m = delim.len() as int;
        law_delimiters_stand_at_line_starts(rest, delim, j - n);
        if !starts_with(first_line(s), delim) {
            if let Some(i) = next_delimiter(rest, delim) {
                assert(rest.subrange(i, i + m) =~= s.subrange(n + i, n + i + m));
            }
            if delimiter_at(s, delim, j) {
                assert(j >= n);
                assert(rest.subrange(j - n, j - n + m) =~= s.subrange(j, j + m));
                assert(delimiter_at(rest, delim, j - n));
            }
        }
    }
}

/// A delimiter line as it may stand between parts: it begins with the
/// delimiter, ends in its line feed, and without its end is not the closing one.
pub open spec fn is_delimiter_line(line: Seq<u8>, delim: Seq<u8>) -> bool {
    let closing = delim + seq!['-' as u8, '-' as u8];
    &&& line.len() > 0
    &&& line.last() == LF
    &&& !line.drop_last().contains(LF)
    &&& line.len() > delim.len()
    &&& line.take(delim.len() as int) == delim
    &&& line != closing + seq![LF]
    &&& line != closing + seq![CR, LF]
}

/// The end of a multipart body: nothing, or the closing delimiter line, alone
/// or with anything behind it.
pub open spec fn is_ending(end: Seq<u8>, delim: Seq<u8>) -> bool {
    let closing = delim + seq!['-' as u8, '-' as u8];
    ||| end.len() == 0
    ||| end == closing
    ||| end == closing + seq![CR]
    ||| end.len() > closing.len() && end.take(closing.len() as int + 1) == closing + seq![LF]
    ||| end.len() > closing.len() + 1 && end.take(closing.len() as int + 2) == closing + seq![
        CR,
        LF,
    ]
}

/// Sections of a multipart body, each a delimiter line and a part, and its end.
pub open spec fn sections(lines: Seq<Seq<u8>>, parts: Seq<Seq<u8>>, end: Seq<u8>) -> Seq<u8>
    decreases parts.len(),
{
    if parts.len() == 0 {
        end
    } else {
        lines[0] + parts[0] + sections(lines.drop_first(), parts.drop_first(), end)
    }
}

proof fn lemma_delimiter_line(line: Seq<u8>, rest: Seq<u8>, delim: Seq<u8>)
    requires
        !delim.contains(LF),
        !delim.contains(CR),
        is_delimiter_line(line, delim),
    ensures
        next_delimiter(line + rest, delim) == Some(0int),
        !is_closing(line + rest, delim),
        line_len(line + rest) == line.len(),
        (line + rest).skip(line.len() as int) == rest,
{
    let s = line + rest;
    lemma_line_kept(line, rest);
    lemma_first_feed(line);
    assert(line_len(line) == line.len()) by {
        let n = line_len(line);
        if n < line.len() {
            assert(line[n - 1] == LF);
            assert(line.drop_last()[n - 1] == LF);
        }
    }
    assert(s.skip(line.len() as int) =~= rest);
    lemma_line_begins(s, delim);
    assert(s.subrange(0, delim.len() as int) =~= line.take(delim.len() as int));
    let closing = delim + seq!['-' as u8, '-' as u8];
    if first_line(line) == closing {
        assert(line.take(line.len() as int) =~= line);
        let bare = line.drop_last();
        if bare.len() > 0 && bare.last() == CR {
            assert(line =~= bare.drop_last() + seq![CR, LF]);
        } else {
            assert(line =~= bare + seq![LF]);
        }
    }
}

proof fn lemma_ending(end: Seq<u8>, delim: Seq<u8>)
    requires
        !delim.contains(LF),
        !delim.contains(CR),
        is_ending(end, delim),
        end.len() > 0,
    ensures
        next_delimiter(end, delim) == Some(0int),
        is_closing(end, delim),
{
    let closing = delim + seq!['-' as u8, '-' as u8];
    let n = closing.len() as int;
    let m = line_len(end);
    assert(end.take(n) =~= closing) by {
        if end.len() > n && end.take(n + 1) == closing + seq![LF] {
            assert(end.take(n) =~= end.take(n + 1).take(n));
            assert((closing + seq![LF]).take(n) =~= closing);
        } else if end.len() > n + 1 && end.take(n + 2) == closing + seq![CR, LF] {
            assert(end.take(n) =~= end.take(n + 2).take(n));
            assert((closing + seq![CR, LF]).take(n) =~= closing);
        }
    }
    assert forall|k: int| 0 <= k < n implies #[trigger] end[k] == closing[k] && end[k] != LF
        && end[k] != CR by {
        assert(end.take(n)[k] == end[k]);
        if k < delim.len() {
            assert(delim.contains(delim[k]));
        }
    }
    assert(end.len() > n ==> end[n] == LF || end[n] == CR) by {
        if end.len() > n && end.take(n + 1) == closing + seq![LF] {
            assert(end.take(n + 1)[n] == (closing + seq![LF])[n]);
        } else if end.len() > n + 1 && end.take(n + 2) == closing + seq![CR, LF] {
            assert(end.take(n + 2)[n] == (closing + seq![CR, LF])[n]);
        }
    }
    assert(end.len() > n && end[n] == CR ==> end.len() == n + 1 || end[n + 1] == LF) by {
        if end.len() > n + 1 && end.take(n + 2) == closing + seq![CR, LF] {
            assert(end.take(n + 2)[n + 1] == (closing + seq![CR, LF])[n + 1]);
        } else if end.len() > n && end.take(n + 1) == closing + seq![LF] {
            assert(end.take(n + 1)[n] == (closing + seq![LF])[n]);
        }
    }
    lemma_first_feed(end);
    assert(m >= n);
    assert(first_line(end) =~= closing);
    lemma_line_begins(end, delim);
    assert(end.subrange(0, delim.len() as int) =~= delim);
}

/// A delimiter line ends the part before it, and the next part begins behind
/// it.
proof fn lemma_next_section(part: Seq<u8>, line: Seq<u8>, rest: Seq<u8>, delim: Seq<u8>)
    requires
        !delim.contains(LF),
        !delim.contains(CR),
        is_stretch(part, delim),
        is_delimiter_line(line, delim),
    ensures
        parts_behind(part + (line + rest), delim) == seq![part] + parts_behind(rest, delim),
{
    let next = line + rest;
    let s = part + next;
    let n = part.len() as int;
    lemma_delimiter_line(line, rest, delim);
    lemma_delimiter_behind(part, next, delim);
    assert(s.take(n) =~= part);
    assert(s.skip(n) =~= next);
}

/// The sections of a body, from the part of the first one on, give its parts.
#[verifier::rlimit(40)]
proof fn lemma_sections_behind(
    lines: Seq<Seq<u8>>,
    parts: Seq<Seq<u8>>,
    end: Seq<u8>,
    delim: Seq<u8>,
)
    requires
        !delim.contains(LF),
        !delim.contains(CR),
        parts.len() > 0,
        lines.len() == parts.len(),
        forall|i: int| 0 <= i < lines.len() ==> is_delimiter_line(#[trigger] lines[i], delim),
        forall|i: int|
            0 <= i < parts.len() ==> next_delimiter(#[trigger] parts[i], delim) is None && (i + 1
                < parts.len() || end.len() > 0 ==> is_stretch(parts[i], delim)),
        is_ending(end, delim),
        end.len() == 0 ==> parts.last().len() > 0,
    ensures
        parts_behind(
            parts[0] + sections(lines.drop_first(), parts.drop_first(), end),
            delim,
        ) == parts,
    decreases parts.len(),
{
    let others = parts.drop_first();
    let more = lines.drop_first();
    let next = sections(more, others, end);
    let s = parts[0] + next;
    let n = parts[0].len() as int;
    assert(next_delimiter(parts[0], delim) is None);
    if others.len() == 0 {
        assert(next == end);
        assert(parts =~= seq![parts[0]]);
        if end.len() == 0 {
            assert(s =~= parts[0]);
        } else {
            lemma_ending(end, delim);
            lemma_delimiter_behind(parts[0], end, delim);
            assert(s.take(n) =~= parts[0]);
            assert(s.skip(n) =~= end);
        }
    } else {
        let line = more[0];
        let rest = others[0] + sections(more.drop_first(), others.drop_first(), end);
        assert(is_delimiter_line(lines[1], delim));
        assert(is_stretch(parts[0], delim));
        assert(next =~= line + rest);
        lemma_next_section(parts[0], line, rest, delim);
        assert forall|i: int| 0 <= i < more.len() implies is_delimiter_line(
            #[trigger] more[i],
            delim,
        ) by {
            assert(more[i] == lines[i + 1]);
        }
        assert forall|i: int| 0 <= i < others.len() implies next_delimiter(
            #[trigger] others[i],
            delim,
        ) is None && (i + 1 < others.len() || end.len() > 0 ==> is_stretch(others[i], delim)) by {
            assert(others[i] == parts[i + 1]);
        }
        assert(others.last() == parts.last());
        lemma_sections_behind(more, others, end, delim);
        assert(parts =~= seq![parts[0]] + others);
    }
}

/// The parts of a multipart body come back, all of them and in order, whatever
/// stands on the delimiter lines behind the delimiter, whichever way they end,
/// whatever stands before the first and behind the closing one, and also where
/// the closing one is missing.
pub proof fn law_sections_come_back(
    preamble: Seq<u8>,
    lines: Seq<Seq<u8>>,
    parts: Seq<Seq<u8>>,
    end: Seq<u8>,
    delim: Seq<u8>,
)
    requires
        !delim.contains(LF),
        !delim.contains(CR),
        is_stretch(preamble, delim),
        lines.len() == parts.len(),
        forall|i: int| 0 <= i < lines.len() ==> is_delimiter_line(#[trigger] lines[i], delim),
        forall|i: int|
            0 <= i < parts.len() ==> next_delimiter(#[trigger] parts[i], delim) is None && (i + 1
                < parts.len() || end.len() > 0 ==> is_stretch(parts[i], delim)),
        is_ending(end, delim),
        end.len() == 0 && parts.len() > 0 ==> parts.last().len() > 0,
    ensures
        parts_of(preamble + sections(lines, parts, end), delim) == parts,
{
    let start = sections(lines, parts, end);
    let s = preamble + start;
    let n = preamble.len() as int;
    lemma_delimiter_behind(preamble, start, delim);
    assert(s.skip(n) =~= start);
    if parts.len() == 0 {
        assert(parts =~= seq![]);
        if end.len() > 0 {
            lemma_ending(end, delim);
        }
    } else {
        let rest = parts[0] + sections(lines.drop_first(), parts.drop_first(), end);
        assert(is_delimiter_line(lines[0], delim));
        assert(start =~= lines[0] + rest);
        lemma_delimiter_line(lines[0], rest, delim);
        lemma_sections_behind(lines, parts, end, delim);
    }
}

/// The part is plain text that can be decoded, and `text`, which is not blank,
/// is what it says.
pub open spec fn says(part: Seq<u8>, content: Seq<u8>, text: Seq<char>) -> bool {
    let fields = part_fields(part);
    &&& media_type(fields) == "text/plain"@
    &&& holds_content(fields, body_of(part), content)
    &&& text == text_in(charset_of(fields), content)
    &&& !is_blank(text)
}

/// The part is no plain text, or is damaged, or is blank.
pub open spec fn says_nothing(part: Seq<u8>, content: Seq<u8>) -> bool {
    let fields = part_fields(part);
    ||| media_type(fields) != "text/plain"@
    ||| is_damaged(fields, body_of(part))
    ||| holds_content(fields, body_of(part), content) && is_blank(
        text_in(charset_of(fields), content),
    )
}

proof fn lemma_says(part: Seq<u8>, content: Seq<u8>, text: Seq<char>)
    ensures
        says(part, content, text) ==> is_readable(part) && part_text(part) == text,
        says_nothing(part, content) ==> !is_readable(part),
{
    let fields = part_fields(part);
    let body = body_of(part);
    lemma_encodings_differ();
    if holds_content(fields, body, content) {
        law_body_is_decoded(fields, body, content);
    }
}

/// A multipart shows the first of its parts that is plain text, can be decoded
/// and is not blank, its transfer encoding undone and in its charset, and shows
/// it whatever the other parts are: HTML, attachments, multiparts before it or
/// behind it, damaged or blank text before it.
pub proof fn law_multipart_shows_its_plain_text(
    fields: Seq<(Seq<char>, Seq<char>)>,
    body: Seq<u8>,
    boundary: Seq<char>,
    contents: Seq<Seq<u8>>,
    i: int,
    text: Seq<char>,
    levels: nat,
)
    requires
        levels > 0,
        is_composed(media_type(fields)),
        content_param(fields, "boundary"@) == Some(boundary),
        0 <= i < parts_of(body, delimiter(boundary)).len(),
        says(parts_of(body, delimiter(boundary))[i], contents[i], text),
        forall|j: int|
            0 <= j < i ==> says_nothing(
                #[trigger] parts_of(body, delimiter(boundary))[j],
                contents[j],
            ),
    ensures
        text_of(fields, body, levels) == Ok::<Seq<char>, Problem>(text),
{
    let parts = parts_of(body, delimiter(boundary));
    lemma_media(media_type(fields));
    lemma_says(parts[i], contents[i], text);
    assert forall|j: int| 0 <= j < i implies !is_readable(#[trigger] parts[j]) by {
        lemma_says(parts[j], contents[j], text);
    }
    lemma_first_plain_at(parts, i);
}

/// A multipart without a plain text part to show, and without a nested
/// multipart that shows a text, is refused: as HTML alone where one of its
/// parts is HTML, else as a message without a text part.
pub proof fn law_multipart_without_text_is_refused(
    fields: Seq<(Seq<char>, Seq<char>)>,
    body: Seq<u8>,
    boundary: Seq<char>,
    contents: Seq<Seq<u8>>,
    levels: nat,
)
    requires
        levels > 0,
        is_composed(media_type(fields)),
        content_param(fields, "boundary"@) == Some(boundary),
        forall|j: int|
            0 <= j < parts_of(body, delimiter(boundary)).len() ==> {
                let part = #[trigger] parts_of(body, delimiter(boundary))[j];
                &&& says_nothing(part, contents[j])
                &&& is_composed(media_type(part_fields(part))) ==> (text_of(
                    part_fields(part),
                    body_of(part),
                    (levels - 1) as nat,
                ) matches Ok(nested) ==> is_blank(nested))
            },
    ensures
        ({
            let parts = parts_of(body, delimiter(boundary));
            let html = exists|j: int|
                0 <= j < parts.len() && media_type(part_fields(#[trigger] parts[j]))
                    == "text/html"@;
            text_of(fields, body, levels) == Err::<Seq<char>, Problem>(
                Problem::Unsupported(
                    if html {
                        "email body is text/html only; no text/plain alternative"@
                    } else {
                        "email has no text body part"@
                    },
                ),
            )
        }),
{
    let parts = parts_of(body, delimiter(boundary));
    let below = (levels - 1) as nat;
    lemma_media(media_type(fields));
    assert forall|j: int| 0 <= j < parts.len() implies !is_readable(#[trigger] parts[j])
        && nested_text(parts[j], below) is None by {
        lemma_says(parts[j], contents[j], seq![]);
        lemma_media(media_type(part_fields(parts[j])));
    }
    lemma_no_plain(parts);
    lemma_no_nested(parts, below);
    if exists|j: int|
        0 <= j < parts.len() && media_type(part_fields(#[trigger] parts[j])) == "text/html"@ {
        let j = choose|j: int|
            0 <= j < parts.len() && media_type(part_fields(#[trigger] parts[j])) == "text/html"@;
        assert(part_type(parts[j]) == "text/html"@);
    } else {
        assert forall|j: int| 0 <= j < parts.len() implies part_type(#[trigger] parts[j])
            != "text/html"@ by {
            assert(media_type(part_fields(parts[j])) != "text/html"@);
        }
    }
}

proof fn lemma_no_nested(parts: Seq<Seq<u8>>, levels: nat)
    requires
        forall|i: int| 0 <= i < parts.len() ==> nested_text(#[trigger] parts[i], levels) is None,
    ensures
        first_nested(parts, levels) is None,
    decreases parts.len(),
{
    if parts.len() > 0 {
        let rest = parts.drop_first();
        assert(nested_text(parts[0], levels) is None);
        assert forall|i: int| 0 <= i < rest.len() implies nested_text(
            #[trigger] rest[i],
            levels,
        ) is None by {
            assert(rest[i] == parts[i + 1]);
        }
        lemma_no_nested(rest, levels);
    }
}

/// Of a multipart without a plain text part to show, the first nested multipart
/// with a text that is not blank is shown, one level deeper.
pub proof fn law_nested_text_is_shown(
    fields: Seq<(Seq<char>, Seq<char>)>,
    body: Seq<u8>,
    boundary: Seq<char>,
    contents: Seq<Seq<u8>>,
    i: int,
    text: Seq<char>,
    levels: nat,
)
    requires
        levels > 0,
        is_composed(media_type(fields)),
        content_param(fields, "boundary"@) == Some(boundary),
        forall|j: int|
            0 <= j < parts_of(body, delimiter(boundary)).len() ==> says_nothing(
                #[trigger] parts_of(body, delimiter(boundary))[j],
                contents[j],
            ),
        0 <= i < parts_of(body, delimiter(boundary)).len(),
        ({
            let part = parts_of(body, delimiter(boundary))[i];
            &&& is_composed(media_type(part_fields(part)))
            &&& text_of(part_fields(part), body_of(part), (levels - 1) as nat) == Ok::<
                Seq<char>,
                Problem,
            >(text)
        }),
        !is_blank(text),
        forall|j: int|
            0 <= j < i ==> {
                let part = #[trigger] parts_of(body, delimiter(boundary))[j];
                is_composed(media_type(part_fields(part))) ==> (text_of(
                    part_fields(part),
                    body_of(part),
                    (levels - 1) as nat,
                ) matches Ok(other) ==> is_blank(other))
            },
    ensures
        text_of(fields, body, levels) == Ok::<Seq<char>, Problem>(text),
{
    let parts = parts_of(body, delimiter(boundary));
    let below = (levels - 1) as nat;
    lemma_media(media_type(fields));
    lemma_media(media_type(part_fields(parts[i])));
    assert forall|j: int| 0 <= j < parts.len() implies !is_readable(#[trigger] parts[j]) by {
        lemma_says(parts[j], contents[j], seq![]);
    }
    assert forall|j: int| 0 <= j < i implies nested_text(#[trigger] parts[j], below) is None by {
        lemma_media(media_type(part_fields(parts[j])));
    }
    lemma_no_plain(parts);
    assert(nested_text(parts[i], below) == Some(text));
    lemma_first_nested_at(parts, i, below);
}

/// How deep multiparts are entered: the message itself and thirty-two levels
/// below it.
pub proof fn law_levels_are_counted(depth: int, fields: Seq<(Seq<char>, Seq<char>)>, body: Seq<u8>)
    requires
        depth >= 0,
    ensures
        depth <= 32 ==> levels_at(depth) == 33 - depth,
        depth > 32 ==> levels_at(depth) == 0,
        text_of(fields, body, 0) == Err::<Seq<char>, Problem>(
            Problem::Malformed("MIME nesting exceeds the depth limit"@),
        ),
{
}

/// A multipart message that is written out shows the text of its first plain
/// text part.
pub proof fn law_written_multipart_shows_its_text(
    ls: Seq<Seq<char>>,
    cr: bool,
    boundary: Seq<char>,
    preamble: Seq<u8>,
    lines: Seq<Seq<u8>>,
    parts: Seq<Seq<u8>>,
    end: Seq<u8>,
    contents: Seq<Seq<u8>>,
    i: int,
    text: Seq<char>,
)
    requires
        forall|k: int| 0 <= k < ls.len() ==> is_bare(#[trigger] ls[k]),
        is_composed(media_type(fields_of(ls))),
        content_param(fields_of(ls), "boundary"@) == Some(boundary),
        ({
            let delim = seq![0x2du8, 0x2du8] + encode_utf8(boundary);
            &&& !delim.contains(LF)
            &&& !delim.contains(CR)
            &&& is_stretch(preamble, delim)
            &&& lines.len() == parts.len()
            &&& forall|k: int|
                0 <= k < lines.len() ==> is_delimiter_line(#[trigger] lines[k], delim)
            &&& forall|k: int| 0 <= k < parts.len() ==> is_stretch(#[trigger] parts[k], delim)
            &&& is_ending(end, delim)
            &&& end.len() == 0 && parts.len() > 0 ==> parts.last().len() > 0
        }),
        0 <= i < parts.len(),
        says(parts[i], contents[i], text),
        forall|j: int| 0 <= j < i ==> says_nothing(#[trigger] parts[j], contents[j]),
    ensures
        message_text(written(ls, cr, preamble + sections(lines, parts, end))) == Ok::<
            Seq<char>,
            Problem,
        >(text),
{
    let body = preamble + sections(lines, parts, end);
    law_written_message_is_read(ls, cr, body);
    law_delimiter_is_hyphens_and_boundary(boundary);
    law_sections_come_back(preamble, lines, parts, end, delimiter(boundary));
    law_multipart_shows_its_plain_text(
        fields_of(ls),
        body,
        boundary,
        contents,
        i,
        text,
        levels_at(0),
    );
}

/// A delimiter line at the very end begins no part.
pub proof fn law_delimiter_at_the_end_begins_no_part(
    preamble: Seq<u8>,
    lines: Seq<Seq<u8>>,
    parts: Seq<Seq<u8>>,
    delim: Seq<u8>,
)
    requires
        !delim.contains(LF),
        !delim.contains(CR),
        is_stretch(preamble, delim),
        lines.len() == parts.len(),
        parts.len() > 0,
        parts.last().len() == 0,
        forall|i: int| 0 <= i < lines.len() ==> is_delimiter_line(#[trigger] lines[i], delim),
        forall|i: int| 0 <= i < parts.len() ==> is_stretch(#[trigger] parts[i], delim),
    ensures
        parts_of(preamble + sections(lines, parts, seq![]), delim) == parts.drop_last(),
{
    let none = Seq::<u8>::empty();
    let start = sections(lines, parts, none);
    let s = preamble + start;
    lemma_delimiter_behind(preamble, start, delim);
    assert(s.skip(preamble.len() as int) =~= start);
    let rest = parts[0] + sections(lines.drop_first(), parts.drop_first(), none);
    assert(is_delimiter_line(lines[0], delim));
    assert(start =~= lines[0] + rest);
    lemma_delimiter_line(lines[0], rest, delim);
    lemma_open_end(lines, parts, delim);
}

/// The sections of a body that ends in a delimiter line.
#[verifier::rlimit(40)]
proof fn lemma_open_end(lines: Seq<Seq<u8>>, parts: Seq<Seq<u8>>, delim: Seq<u8>)
    requires
        !delim.contains(LF),
        !delim.contains(CR),
        lines.len() == parts.len(),
        parts.len() > 0,
        parts.last().len() == 0,
        forall|i: int| 0 <= i < lines.len() ==> is_delimiter_line(#[trigger] lines[i], delim),
        forall|i: int| 0 <= i < parts.len() ==> is_stretch(#[trigger] parts[i], delim),
    ensures
        parts_behind(
            parts[0] + sections(lines.drop_first(), parts.drop_first(), seq![]),
            delim,
        ) == parts.drop_last(),
    decreases parts.len(),
{
    let none = Seq::<u8>::empty();
    let others = parts.drop_first();
    let more = lines.drop_first();
    let next = sections(more, others, none);
    if others.len() == 0 {
        assert(parts[0] + next =~= none);
        assert(parts.drop_last() =~= seq![]);
    } else {
        let line = more[0];
        let rest = others[0] + sections(more.drop_first(), others.drop_first(), none);
        assert(is_delimiter_line(lines[1], delim));
        assert(is_stretch(parts[0], delim));
        assert(next =~= line + rest);
        lemma_next_section(parts[0], line, rest, delim);
        assert forall|i: int| 0 <= i < more.len() implies is_delimiter_line(
            #[trigger] more[i],
            delim,
        ) by {
            assert(more[i] == lines[i + 1]);
        }
        assert forall|i: int| 0 <= i < others.len() implies is_stretch(
            #[trigger] others[i],
            delim,
        ) by {
            assert(others[i] == parts[i + 1]);
        }
        assert(others.last() == parts.last());
        lemma_open_end(more, others, delim);
        assert(parts.drop_last() =~= seq![parts[0]] + others.drop_last());
    }
}

/// The text of a message is that of its body under its fields, with all levels
/// of nesting to enter, and its errors are those of its body.
pub proof fn law_message_text_is_that_of_its_body(bytes: Seq<u8>)
    ensures
        message_text(bytes) == text_of(
            fields_of(lines(utf8_text(header_block(bytes)))),
            body_of(bytes),
            33,
        ),
{
}

} // verus!
