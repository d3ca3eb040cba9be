//! The parts of a message, and the text to show of them.

use vstd::prelude::*;
use vstd::slice::{slice_subrange, slice_to_vec};
use vstd::utf8::encode_utf8;

use crate::charset::{decode_in, text_in, utf8_text};
use crate::error::{ConvertError, Problem};
use crate::headers::{content_param, field, fields_of, media_type, Headers};
use crate::text::{
    blank, chars_of, find, is_blank, lemma_find_first, lemma_find_none, lemma_find_some, lines,
    lower, lowered, occurs, occurs_at, same, starts_with, stripped, trim, Class,
};
use crate::transfer::{base64_decoded, decode_base64, decode_qp, qp_decoded, CR, LF};

verus! {

/// An empty line starts at `i`: a line, the first one included, that holds
/// nothing but its line feed or its carriage return and line feed.
pub open spec fn empty_line_at(s: Seq<u8>, i: int) -> bool {
    &&& 0 <= i < s.len()
    &&& i == 0 || s[i - 1] == LF
    &&& s[i] == LF || (i + 1 < s.len() && s[i] == CR && s[i + 1] == LF)
}

/// `i` is the start of the first empty line.
pub open spec fn headers_end_at(s: Seq<u8>, i: int) -> bool {
    &&& empty_line_at(s, i)
    &&& forall|j: int| 0 <= j < i ==> !#[trigger] empty_line_at(s, j)
}

/// Where the first empty line of a message starts, if it has one.
pub open spec fn headers_end(s: Seq<u8>) -> Option<int> {
    if exists|i: int| headers_end_at(s, i) {
        Some(choose|i: int| headers_end_at(s, i))
    } else {
        None
    }
}

/// The header block of a message: what stands before the first empty line,
/// without the line feed in front of it, or all of the message.
pub open spec fn header_block(s: Seq<u8>) -> Seq<u8> {
    match headers_end(s) {
        Some(i) => if i == 0 {
            seq![]
        } else {
            s.take(i - 1)
        },
        None => s,
    }
}

/// The body of a message: what stands after the first empty line.
pub open spec fn body_of(s: Seq<u8>) -> Seq<u8> {
    match headers_end(s) {
        Some(i) => if s[i] == LF {
            s.skip(i + 1)
        } else {
            s.skip(i + 2)
        },
        None => seq![],
    }
}

/// What [`headers_end`] gives, from a known first empty line.
pub proof fn lemma_headers_end(s: Seq<u8>, i: int)
    requires
        headers_end_at(s, i),
    ensures
        headers_end(s) == Some(i),
{
    let j = choose|j: int| headers_end_at(s, j);
    assert(headers_end_at(s, j));
    if i < j {
        assert(!empty_line_at(s, i));
    }
    if j < i {
        assert(!empty_line_at(s, j));
    }
}

/// Splits a message at its first empty line into header block and body. A
/// message that begins with an empty line has no header fields.
pub fn split_headers(bytes: &[u8]) -> (r: (Vec<u8>, &[u8]))
    ensures
        r.0@ == header_block(bytes@),
        r.1@ == body_of(bytes@),
        r.0@.len() <= bytes@.len(),
        r.1@.len() <= bytes@.len(),
{
    let mut i: usize = 0;
    while i < bytes.len()
        invariant
            i <= bytes@.len(),
            forall|j: int| 0 <= j < i ==> !#[trigger] empty_line_at(bytes@, j),
        decreases bytes@.len() - i,
    {
        if i == 0 || bytes[i - 1] == LF {
            let mut after: usize = i;
            if bytes[i] == LF {
                after = i + 1;
            } else if bytes.len() - i >= 2 && bytes[i] == CR && bytes[i + 1] == LF {
                after = i + 2;
            }
            if after > i {
                proof {
                    lemma_headers_end(bytes@, i as int);
                }
                let end: usize = if i == 0 {
                    0
                } else {
                    i - 1
                };
                let head = slice_subrange(bytes, 0, end);
                let body = slice_subrange(bytes, after, bytes.len());
                assert(head@ =~= header_block(bytes@));
                assert(body@ =~= bytes@.skip(after as int));
                return (slice_to_vec(head), body);
            }
        }
        i = i + 1;
    }
    proof {
        if exists|k: int| headers_end_at(bytes@, k) {
            let k = choose|k: int| headers_end_at(bytes@, k);
            assert(!empty_line_at(bytes@, k));
        }
    }
    let none = slice_subrange(bytes, bytes.len(), bytes.len());
    assert(none@ =~= seq![]);
    (slice_to_vec(bytes), none)
}

/// How many bytes the first line of `s` takes, with its line feed.
pub open spec fn line_len(s: Seq<u8>) -> int {
    match find(s, seq![LF]) {
        Some(i) => i + 1,
        None => s.len() as int,
    }
}

/// `s` without the byte `b` at its end.
pub open spec fn without_last(s: Seq<u8>, b: u8) -> Seq<u8> {
    if s.len() > 0 && s.last() == b {
        s.drop_last()
    } else {
        s
    }
}

/// The first line of `s`, without the line feed and the carriage return at its
/// end.
pub open spec fn first_line(s: Seq<u8>) -> Seq<u8> {
    without_last(without_last(s.take(line_len(s)), LF), CR)
}

/// A line takes at least one byte, and no more than there are.
pub proof fn lemma_line_len(s: Seq<u8>)
    requires
        s.len() > 0,
    ensures
        0 < line_len(s) <= s.len(),
{
    lemma_find_some(s, seq![LF]);
}

/// Where the first line of `s` that begins with `delim` starts.
pub open spec fn next_delimiter(s: Seq<u8>, delim: Seq<u8>) -> Option<int>
    decreases s.len(),
{
    proof {
        if s.len() > 0 {
            lemma_line_len(s);
        }
    }
    if s.len() == 0 {
        None
    } else if starts_with(first_line(s), delim) {
        Some(0)
    } else {
        match next_delimiter(s.skip(line_len(s)), delim) {
            Some(i) => Some(line_len(s) + i),
            None => None,
        }
    }
}

/// The first line of `s` ends the last part: it is the delimiter and two
/// hyphens.
pub open spec fn is_closing(s: Seq<u8>, delim: Seq<u8>) -> bool {
    first_line(s) == delim + seq!['-' as u8, '-' as u8]
}

/// A delimiter line starts inside the text.
pub proof fn lemma_next_delimiter(s: Seq<u8>, delim: Seq<u8>)
    ensures
        next_delimiter(s, delim) matches Some(i) ==> 0 <= i < s.len(),
    decreases s.len(),
{
    if s.len() > 0 {
        lemma_line_len(s);
        lemma_next_delimiter(s.skip(line_len(s)), delim);
    }
}

/// The parts in `s`, which begins behind a delimiter line: each reaches to the
/// next delimiter line, and the closing one, or the end of the text, ends the
/// last of them.
pub open spec fn parts_behind(s: Seq<u8>, delim: Seq<u8>) -> Seq<Seq<u8>>
    decreases s.len(),
{
    proof {
        lemma_next_delimiter(s, delim);
        if let Some(i) = next_delimiter(s, delim) {
            lemma_line_len(s.skip(i));
        }
    }
    match next_delimiter(s, delim) {
        Some(i) => if is_closing(s.skip(i), delim) {
            seq![s.take(i)]
        } else {
            seq![s.take(i)] + parts_behind(s.skip(i).skip(line_len(s.skip(i))), delim)
        },
        None => if s.len() > 0 {
            seq![s]
        } else {
            seq![]
        },
    }
}

/// The delimiter of a multipart body, in bytes: two hyphens and the boundary.
pub open spec fn delimiter(boundary: Seq<char>) -> Seq<u8> {
    encode_utf8(seq!['-', '-'] + boundary)
}

/// The parts of a multipart body. What stands before the first delimiter line
/// belongs to none of them.
pub open spec fn parts_of(body: Seq<u8>, delim: Seq<u8>) -> Seq<Seq<u8>> {
    match next_delimiter(body, delim) {
        Some(i) => if is_closing(body.skip(i), delim) {
            seq![]
        } else {
            parts_behind(body.skip(i).skip(line_len(body.skip(i))), delim)
        },
        None => seq![],
    }
}

/// The bytes behind a sequence of slices.
pub open spec fn slices(v: Seq<&[u8]>) -> Seq<Seq<u8>> {
    v.map_values(|s: &[u8]| s@)
}

/// Whether `s` begins with `pat`.
fn begins(s: &[u8], pat: &[u8]) -> (r: bool)
    ensures
        r == starts_with(s@, pat@),
{
    if pat.len() > s.len() {
        return false;
    }
    let mut k: usize = 0;
    while k < pat.len()
        invariant
            k <= pat@.len() <= s@.len(),
            forall|j: int| 0 <= j < k ==> #[trigger] pat@[j] == s@[0 + j],
        decreases pat@.len() - k,
    {
        if pat[k] != s[k] {
            assert(pat@[k as int] != s@[0 + k]);
            return false;
        }
        k = k + 1;
    }
    true
}

/// How many bytes the first line of `s` takes.
fn measure_line(s: &[u8]) -> (r: usize)
    ensures
        r == line_len(s@),
        r <= s@.len(),
        s@.len() > 0 ==> r > 0,
{
    let ghost lf = seq![LF];
    let mut i: usize = 0;
    while i < s.len()
        invariant
            i <= s@.len(),
            lf == seq![LF],
            forall|j: int| 0 <= j < i ==> !#[trigger] occurs_at(s@, lf, j),
        decreases s@.len() - i,
    {
        if s[i] == LF {
            assert(occurs_at(s@, lf, i as int));
            proof {
                lemma_find_first(s@, lf, i as int);
            }
            return i + 1;
        }
        assert(!occurs_at(s@, lf, i as int)) by {
            assert(lf[0] == LF);
            if occurs_at(s@, lf, i as int) {
                assert(lf[0] == s@[i + 0]);
            }
        }
        i = i + 1;
    }
    proof {
        lemma_find_none(s@, lf);
    }
    s.len()
}

/// The first line of `s`, without its end.
fn take_line(s: &[u8]) -> (r: &[u8])
    ensures
        r@ == first_line(s@),
{
    let mut end: usize = measure_line(s);
    let ghost line = s@.take(end as int);
    if end > 0 && s[end - 1] == LF {
        end = end - 1;
    }
    assert(s@.take(end as int) =~= without_last(line, LF));
    if end > 0 && s[end - 1] == CR {
        end = end - 1;
    }
    let r = slice_subrange(s, 0, end);
    assert(r@ =~= first_line(s@));
    r
}

/// Where the first line of `s` that begins with `delim` starts.
fn find_delimiter(s: &[u8], delim: &[u8]) -> (r: Option<usize>)
    ensures
        match r {
            Some(i) => next_delimiter(s@, delim@) == Some(i as int) && i < s@.len(),
            None => next_delimiter(s@, delim@) is None,
        },
{
    let mut pos: usize = 0;
    assert(s@.skip(0) =~= s@);
    while pos < s.len()
        invariant
            pos <= s@.len(),
            next_delimiter(s@, delim@) == match next_delimiter(s@.skip(pos as int), delim@) {
                Some(i) => Some(pos + i),
                None => None,
            },
        decreases s@.len() - pos,
    {
        let rest = slice_subrange(s, pos, s.len());
        assert(rest@ =~= s@.skip(pos as int));
        if begins(take_line(rest), delim) {
            return Some(pos);
        }
        let len = measure_line(rest);
        assert(rest@.skip(len as int) =~= s@.skip(pos + len));
        pos = pos + len;
    }
    None
}

/// Whether the delimiter line that `s` begins with ends the last part.
fn closes(s: &[u8], delim: &[u8]) -> (r: bool)
    ensures
        r == is_closing(s@, delim@),
{
    let line = take_line(s);
    let n: usize = delim.len();
    let ghost closing = delim@ + seq!['-' as u8, '-' as u8];
    if line.len() < 2 || line.len() - 2 != n || !begins(line, delim) {
        assert(line@ == closing ==> starts_with(line@, delim@)) by {
            if line@ == closing {
                assert(occurs_at(closing, delim@, 0));
            }
        }
        return false;
    }
    let r = line[n] == '-' as u8 && line[n + 1] == '-' as u8;
    proof {
        if r {
            assert forall|k: int| 0 <= k < line@.len() implies line@[k] == closing[k] by {
                if k < n {
                    assert(delim@[k] == line@[0 + k]);
                }
            }
            assert(line@ =~= closing);
        } else if line@ == closing {
            assert(closing[n as int] == '-' as u8 && closing[n + 1] == '-' as u8);
        }
    }
    r
}

/// Splits a multipart body at its delimiter lines, those that begin with two
/// hyphens and the boundary.
pub fn split_parts<'a>(body: &'a [u8], boundary: &str) -> (r: Vec<&'a [u8]>)
    ensures
        slices(r@) == parts_of(body@, delimiter(boundary@)),
        forall|i: int| 0 <= i < r@.len() ==> (#[trigger] r@[i])@.len() <= body@.len(),
{
    let mut text = String::new();
    text.push('-');
    text.push('-');
    text.append(boundary);
    assert(text@ =~= seq!['-', '-'] + boundary@);
    let delim = text.as_str().as_bytes();
    let mut parts: Vec<&'a [u8]> = Vec::new();
    assert(slices(parts@) =~= seq![]);
    let at: usize = match find_delimiter(body, delim) {
        Some(at) => at,
        None => {
            return parts;
        },
    };
    let found = slice_subrange(body, at, body.len());
    assert(found@ =~= body@.skip(at as int));
    if closes(found, delim) {
        return parts;
    }
    let len = measure_line(found);
    let mut rest: &'a [u8] = slice_subrange(found, len, found.len());
    assert(rest@ =~= found@.skip(len as int));
    assert(slices(parts@) + parts_behind(rest@, delim@) =~= parts_of(body@, delim@));
    loop
        invariant
            slices(parts@) + parts_behind(rest@, delim@) == parts_of(body@, delim@),
            forall|i: int| 0 <= i < parts@.len() ==> (#[trigger] parts@[i])@.len() <= body@.len(),
            rest@.len() <= body@.len(),
            delim@ == delimiter(boundary@),
        decreases rest@.len(),
    {
        let ghost before = parts@;
        match find_delimiter(rest, delim) {
            Some(at) => {
                let part = slice_subrange(rest, 0, at);
                assert(part@ =~= rest@.take(at as int));
                let found = slice_subrange(rest, at, rest.len());
                assert(found@ =~= rest@.skip(at as int));
                parts.push(part);
                assert(slices(parts@) =~= slices(before) + seq![part@]);
                if closes(found, delim) {
                    return parts;
                }
                let len = measure_line(found);
                let next = slice_subrange(found, len, found.len());
                assert(next@ =~= found@.skip(len as int));
                assert(slices(parts@) + parts_behind(next@, delim@) =~= slices(before) + (
                seq![part@] + parts_behind(next@, delim@)));
                rest = next;
            },
            None => {
                if rest.len() > 0 {
                    parts.push(rest);
                    assert(slices(parts@) =~= slices(before) + seq![rest@]);
                } else {
                    assert(slices(parts@) + parts_behind(rest@, delim@) =~= slices(parts@));
                }
                return parts;
            },
        }
    }
}

/// The bytes of a body, with its transfer encoding undone; nothing where it is
/// declared to be base64 and cannot be decoded.
pub open spec fn transfer_undone(
    fields: Seq<(Seq<char>, Seq<char>)>,
    body: Seq<u8>,
) -> Option<Seq<u8>> {
    match field(fields, "content-transfer-encoding"@) {
        Some(value) => if lower(trim(value)) == "quoted-printable"@ {
            Some(qp_decoded(body))
        } else if lower(trim(value)) == "base64"@ {
            base64_decoded(body)
        } else {
            Some(body)
        },
        None => Some(body),
    }
}

/// The bytes of a body, with its transfer encoding undone. Base64 that cannot
/// be decoded stays as it is.
pub open spec fn body_bytes(fields: Seq<(Seq<char>, Seq<char>)>, body: Seq<u8>) -> Seq<u8> {
    match transfer_undone(fields, body) {
        Some(bytes) => bytes,
        None => body,
    }
}

/// The text of `bytes` in the declared charset, which is UTF-8 where none is
/// declared.
pub open spec fn declared_text(fields: Seq<(Seq<char>, Seq<char>)>, bytes: Seq<u8>) -> Seq<char> {
    match content_param(fields, "charset"@) {
        Some(charset) => text_in(charset, bytes),
        None => text_in("utf-8"@, bytes),
    }
}

/// The text of a body: its transfer encoding undone, then read in the declared
/// charset.
pub open spec fn body_text(fields: Seq<(Seq<char>, Seq<char>)>, body: Seq<u8>) -> Seq<char> {
    declared_text(fields, body_bytes(fields, body))
}

/// Undoes the transfer encoding of a body. `None` where it is declared to be
/// base64 and cannot be decoded.
pub fn decode_transfer(headers: &Headers, body: &[u8]) -> (r: Option<Vec<u8>>)
    ensures
        match r {
            Some(bytes) => transfer_undone(headers@, body@) == Some(bytes@) && bytes@.len()
                <= body@.len(),
            None => transfer_undone(headers@, body@) is None,
        },
{
    if let Some(value) = headers.get("content-transfer-encoding") {
        let value = chars_of(value.as_str());
        let name = lowered(stripped(value.as_slice(), Class::White));
        let qp = chars_of("quoted-printable");
        let base64 = chars_of("base64");
        if same(name.as_slice(), qp.as_slice()) {
            return Some(decode_qp(body));
        }
        if same(name.as_slice(), base64.as_slice()) {
            return decode_base64(body);
        }
    }
    Some(slice_to_vec(body))
}

/// Reads `bytes` in the declared charset. The bound on them is that of
/// [`decode_in`].
pub fn decode_declared(headers: &Headers, bytes: &[u8]) -> (r: String)
    requires
        bytes@.len() <= usize::MAX / 16,
    ensures
        r@ == declared_text(headers@, bytes@),
{
    match headers.ct_param("charset") {
        Some(charset) => decode_in(charset.as_str(), bytes),
        None => decode_in("utf-8", bytes),
    }
}

/// The text of a body: undoes its transfer encoding, then applies the declared
/// charset. Base64 that cannot be decoded is read as it is. The bound on the
/// body is that of [`decode_in`].
pub fn decode_body(headers: &Headers, body: &[u8]) -> (r: String)
    requires
        body@.len() <= usize::MAX / 16,
    ensures
        r@ == body_text(headers@, body@),
{
    match decode_transfer(headers, body) {
        Some(bytes) => decode_declared(headers, bytes.as_slice()),
        None => decode_declared(headers, body),
    }
}

/// How deep multiparts may nest below the message itself.
pub const MAX_MIME_DEPTH: usize = 32;

/// The fields of a part.
pub open spec fn part_fields(part: Seq<u8>) -> Seq<(Seq<char>, Seq<char>)> {
    fields_of(lines(utf8_text(header_block(part))))
}

/// The media type of a part.
pub open spec fn part_type(part: Seq<u8>) -> Seq<char> {
    media_type(part_fields(part))
}

/// The text of a part that is no multipart.
pub open spec fn part_text(part: Seq<u8>) -> Seq<char> {
    body_text(part_fields(part), body_of(part))
}

/// A media type that stands for a body with parts of its own.
pub open spec fn is_multipart(media: Seq<char>) -> bool {
    starts_with(media, "multipart/"@)
}

/// A plain text part that can be decoded and is not blank.
pub open spec fn is_readable(part: Seq<u8>) -> bool {
    &&& part_type(part) == "text/plain"@
    &&& transfer_undone(part_fields(part), body_of(part)) is Some
    &&& !is_blank(part_text(part))
}

/// The text of the first plain text part that can be decoded and is not blank.
pub open spec fn first_plain(parts: Seq<Seq<u8>>) -> Option<Seq<char>>
    decreases parts.len(),
{
    if parts.len() == 0 {
        None
    } else if is_readable(parts[0]) {
        Some(part_text(parts[0]))
    } else {
        first_plain(parts.drop_first())
    }
}

/// The message is HTML without a plain alternative.
pub open spec fn html_only() -> Problem {
    Problem::Unsupported("email body is text/html only; no text/plain alternative"@)
}

/// A multipart holds no part to show.
pub open spec fn no_text_part() -> Problem {
    Problem::Unsupported("email has no text body part"@)
}

/// The body to show is blank.
pub open spec fn no_text() -> Problem {
    Problem::Unsupported("email has no text body"@)
}

/// The multiparts nest too deep.
pub open spec fn too_deep() -> Problem {
    Problem::Malformed("MIME nesting exceeds the depth limit"@)
}

/// The text to show of a body, with `levels` levels of nesting left to enter.
///
/// Of a multipart, that is its first plain text part that can be decoded and is
/// not blank, else the text of its first nested multipart that has one. A
/// multipart without a boundary is shown as flat text. HTML is never shown.
pub open spec fn text_of(
    fields: Seq<(Seq<char>, Seq<char>)>,
    body: Seq<u8>,
    levels: nat,
) -> Result<Seq<char>, Problem>
    decreases levels, 0nat,
{
    if levels == 0 {
        Err(too_deep())
    } else if is_multipart(media_type(fields)) {
        match content_param(fields, "boundary"@) {
            None => Ok(body_text(fields, body)),
            Some(boundary) => {
                let parts = parts_of(body, delimiter(boundary));
                match first_plain(parts) {
                    Some(text) => Ok(text),
                    None => match first_nested(parts, (levels - 1) as nat) {
                        Some(text) => Ok(text),
                        None => if exists|i: int|
                            0 <= i < parts.len() && part_type(#[trigger] parts[i])
                                == "text/html"@ {
                            Err(html_only())
                        } else {
                            Err(no_text_part())
                        },
                    },
                }
            },
        }
    } else if media_type(fields) == "text/html"@ {
        Err(html_only())
    } else if is_blank(body_text(fields, body)) {
        Err(no_text())
    } else {
        Ok(body_text(fields, body))
    }
}

/// The text of the first nested multipart that has one to show. A part that
/// fails is passed over.
pub open spec fn first_nested(parts: Seq<Seq<u8>>, levels: nat) -> Option<Seq<char>>
    decreases levels, parts.len() + 1,
{
    if parts.len() == 0 {
        None
    } else if nested_text(parts[0], levels) is Some {
        nested_text(parts[0], levels)
    } else {
        first_nested(parts.drop_first(), levels)
    }
}

/// The text of a part that is a multipart with something to show.
pub open spec fn nested_text(part: Seq<u8>, levels: nat) -> Option<Seq<char>>
    decreases levels, 1nat,
{
    if is_multipart(part_type(part)) {
        match text_of(part_fields(part), body_of(part), levels) {
            Ok(text) => if is_blank(text) {
                None
            } else {
                Some(text)
            },
            Err(_) => None,
        }
    } else {
        None
    }
}

/// How many levels of nesting are left to enter at a given depth.
pub open spec fn levels_at(depth: int) -> nat {
    if depth > MAX_MIME_DEPTH {
        0
    } else {
        (MAX_MIME_DEPTH + 1 - depth) as nat
    }
}

/// Reads the header block of a part, and finds its body.
pub fn read_part<'a>(part: &'a [u8]) -> (r: (Headers, &'a [u8]))
    ensures
        r.0@ == part_fields(part@),
        r.1@ == body_of(part@),
        r.1@.len() <= part@.len(),
{
    let (head, body) = split_headers(part);
    (Headers::parse(head.as_slice()), body)
}

/// Whether a media type stands for a body with parts of its own.
fn names_multipart(media: &str) -> (r: bool)
    ensures
        r == is_multipart(media@),
{
    let media = chars_of(media);
    let prefix = chars_of("multipart/");
    occurs(media.as_slice(), prefix.as_slice(), 0)
}

/// Whether two texts are the same.
fn same_text(a: &str, b: &str) -> (r: bool)
    ensures
        r == (a@ == b@),
{
    same(chars_of(a).as_slice(), chars_of(b).as_slice())
}

/// Whether a text is blank.
fn blank_text(text: &str) -> (r: bool)
    ensures
        r == is_blank(text@),
{
    blank(chars_of(text).as_slice())
}

/// The text of the first plain text part that can be decoded and is not blank.
pub fn plain_text<'a>(parts: &Vec<&'a [u8]>) -> (r: Option<String>)
    requires
        forall|i: int| 0 <= i < parts@.len() ==> (#[trigger] parts@[i])@.len() <= usize::MAX / 16,
    ensures
        match r {
            Some(text) => first_plain(slices(parts@)) == Some(text@),
            None => first_plain(slices(parts@)) is None,
        },
{
    let ghost all = slices(parts@);
    let mut i: usize = 0;
    assert(all.skip(0) =~= all);
    while i < parts.len()
        invariant
            i <= parts@.len(),
            all == slices(parts@),
            forall|k: int|
                0 <= k < parts@.len() ==> (#[trigger] parts@[k])@.len() <= usize::MAX / 16,
            first_plain(all.skip(i as int)) == first_plain(all),
        decreases parts@.len() - i,
    {
        assert(all.skip(i as int)[0] == parts@[i as int]@);
        let (headers, body) = read_part(parts[i]);
        let media = headers.content_type();
        if same_text(media.as_str(), "text/plain") {
            if let Some(bytes) = decode_transfer(&headers, body) {
                let text = decode_declared(&headers, bytes.as_slice());
                if !blank_text(text.as_str()) {
                    return Some(text);
                }
            }
        }
        assert(all.skip(i as int).drop_first() =~= all.skip(i + 1));
        i = i + 1;
    }
    None
}

/// Whether one of the parts is HTML.
pub fn has_html<'a>(parts: &Vec<&'a [u8]>) -> (r: bool)
    ensures
        r == exists|i: int|
            0 <= i < parts@.len() && part_type(#[trigger] slices(parts@)[i]) == "text/html"@,
{
    let ghost all = slices(parts@);
    let mut i: usize = 0;
    while i < parts.len()
        invariant
            i <= parts@.len(),
            all == slices(parts@),
            forall|k: int| 0 <= k < i ==> part_type(#[trigger] all[k]) != "text/html"@,
        decreases parts@.len() - i,
    {
        assert(all[i as int] == parts@[i as int]@);
        let (headers, body) = read_part(parts[i]);
        let media = headers.content_type();
        if same_text(media.as_str(), "text/html") {
            return true;
        }
        i = i + 1;
    }
    false
}

/// Whether a result is the one that `expected` gives.
pub open spec fn agrees(
    r: Result<String, ConvertError>,
    expected: Result<Seq<char>, Problem>,
) -> bool {
    match r {
        Ok(text) => expected == Ok::<Seq<char>, Problem>(text@),
        Err(error) => expected == Err::<Seq<char>, Problem>(error@),
    }
}

/// Finds the text to show in a body, at a given depth of nesting. The bound on
/// the body is that of [`decode_in`].
pub fn extract_text(headers: &Headers, body: &[u8], depth: usize) -> (r: Result<
    String,
    ConvertError,
>)
    requires
        body@.len() <= usize::MAX / 16,
    ensures
        agrees(r, text_of(headers@, body@, levels_at(depth as int))),
    decreases levels_at(depth as int),
{
    if depth > MAX_MIME_DEPTH {
        return Err(ConvertError::malformed("MIME nesting exceeds the depth limit"));
    }
    let media = headers.content_type();
    if names_multipart(media.as_str()) {
        let boundary = match headers.ct_param("boundary") {
            Some(boundary) => boundary,
            None => {
                return Ok(decode_body(headers, body));
            },
        };
        let parts = split_parts(body, boundary.as_str());
        let ghost all = slices(parts@);
        let ghost below = levels_at(depth + 1);
        if let Some(text) = plain_text(&parts) {
            return Ok(text);
        }
        let mut i: usize = 0;
        assert(all.skip(0) =~= all);
        while i < parts.len()
            invariant
                i <= parts@.len(),
                all == slices(parts@),
                all == parts_of(body@, delimiter(boundary@)),
                depth <= MAX_MIME_DEPTH,
                below == levels_at(depth + 1),
                levels_at(depth as int) == below + 1,
                is_multipart(media_type(headers@)),
                content_param(headers@, "boundary"@) == Some(boundary@),
                first_plain(all) is None,
                forall|k: int|
                    0 <= k < parts@.len() ==> (#[trigger] parts@[k])@.len() <= usize::MAX / 16,
                first_nested(all.skip(i as int), below) == first_nested(all, below),
            decreases parts@.len() - i,
        {
            assert(all.skip(i as int)[0] == parts@[i as int]@);
            let ghost part = parts@[i as int]@;
            let (inner, inner_body) = read_part(parts[i]);
            let inner_media = inner.content_type();
            if names_multipart(inner_media.as_str()) {
                if let Ok(text) = extract_text(&inner, inner_body, depth + 1) {
                    if !blank_text(text.as_str()) {
                        assert(nested_text(part, below) == Some(text@));
                        return Ok(text);
                    }
                }
            }
            assert(nested_text(part, below) is None);
            assert(all.skip(i as int).drop_first() =~= all.skip(i + 1));
            i = i + 1;
        }
        if has_html(&parts) {
            return Err(
                ConvertError::unsupported(
                    "email body is text/html only; no text/plain alternative",
                ),
            );
        }
        return Err(ConvertError::unsupported("email has no text body part"));
    }
    if same_text(media.as_str(), "text/html") {
        return Err(
            ConvertError::unsupported("email body is text/html only; no text/plain alternative"),
        );
    }
    let text = decode_body(headers, body);
    if blank_text(text.as_str()) {
        return Err(ConvertError::unsupported("email has no text body"));
    }
    Ok(text)
}

} // verus!
