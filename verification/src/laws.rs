//! What holds of the library as a whole, for every message.

pub mod answers;
pub mod bodies;
pub mod document;
pub mod fields;
pub mod text;
pub mod words;

use vstd::prelude::*;
use vstd::utf8::{
    char_u32_cast, codepoint_width_3, decode_first_scalar, decode_utf8, decode_utf8_encode_utf8,
    encode_scalar, encode_utf8, encode_utf8_decode_utf8, encode_utf8_first_scalar,
    encode_utf8_valid_utf8, is_ascii_chars_encode_utf8, last_continuation_byte,
    leading_byte_width_3, second_last_continuation_byte, valid_utf8,
};

use crate::charset::{is_utf8_label, text_in, utf8_bom, utf8_text};
use crate::error::Problem;
use crate::headers::{content_param, field, fields_of, is_folded, media_type};
use crate::message::{
    body_blocks, joined, message_blocks, message_fields, message_text, paragraphs,
};
use crate::mime::{
    body_of, body_text, delimiter, empty_line_at, first_line, first_nested, first_plain,
    header_block, headers_end, headers_end_at, html_only, is_closing, is_multipart, is_readable,
    lemma_headers_end, lemma_line_len, lemma_next_delimiter, levels_at, line_len, nested_text,
    next_delimiter, part_fields, part_text, part_type, parts_behind, parts_of, text_of, too_deep,
    MAX_MIME_DEPTH,
};
use crate::model::{plain, BlockView, InlineView};
use crate::text::{
    find, first_at, is_blank, is_white, lemma_find_first, lemma_find_none, lemma_find_some, lines,
    lower, lower_char, occurs_at, split, split_once, starts_with, strip, strip_end, strip_start,
    trim, without_cr, Class,
};
use crate::transfer::{
    base64_decoded, base64_encoded, base64_letter, bytes_sextet, law_base64_round_trip,
    law_qp_escapes_come_back, qp_escaped, CR, EQUALS, LF,
};
use crate::words::{
    lemma_word_at_taken, underscores_spaced, word_at, word_bytes, word_parts, words_decoded,
};

verus! {

/// A text is blank exactly where trimming leaves nothing of it.
pub proof fn law_blank_is_trimmed_to_nothing(s: Seq<char>)
    ensures
        is_blank(s) <==> trim(s).len() == 0,
{
    lemma_strip_start_blank(s);
    let t = strip_start(s, Class::White);
    lemma_strip_end_blank(t);
}

proof fn lemma_strip_start_blank(s: Seq<char>)
    ensures
        is_blank(s) <==> strip_start(s, Class::White).len() == 0,
        strip_start(s, Class::White).len() > 0 ==> !is_white(strip_start(s, Class::White)[0]),
    decreases s.len(),
{
    if s.len() > 0 && is_white(s[0]) {
        let t = s.drop_first();
        lemma_strip_start_blank(t);
        if is_blank(t) {
            assert forall|i: int| 0 <= i < s.len() implies is_white(#[trigger] s[i]) by {
                if i > 0 {
                    assert(s[i] == t[i - 1]);
                }
            }
        } else {
            let k = choose|k: int| 0 <= k < t.len() && !is_white(#[trigger] t[k]);
            assert(!is_white(s[k + 1]));
        }
    }
}

proof fn lemma_strip_end_blank(s: Seq<char>)
    ensures
        s.len() > 0 && !is_white(s[0]) ==> strip_end(s, Class::White).len() > 0,
        s.len() == 0 ==> strip_end(s, Class::White).len() == 0,
    decreases s.len(),
{
    if s.len() > 0 && is_white(s.last()) {
        lemma_strip_end_blank(s.drop_last());
    }
}

/// Where a message has an empty line, header block, line end, empty line and
/// body make up the message again; a message that begins with the empty line
/// has an empty block. Where it has none, it is all header block.
pub proof fn law_split_loses_nothing(s: Seq<u8>)
    ensures
        headers_end(s) is None ==> header_block(s) == s && body_of(s) == Seq::<u8>::empty(),
        headers_end(s) matches Some(i) ==> {
            let start = if i == 0 {
                header_block(s)
            } else {
                header_block(s) + seq![LF]
            };
            &&& i == 0 ==> header_block(s) == Seq::<u8>::empty()
            &&& s == start + seq![LF] + body_of(s) || s == start + seq![CR, LF] + body_of(s)
        },
{
    if let Some(i) = headers_end(s) {
        assert(headers_end_at(s, i));
        let start = if i == 0 {
            header_block(s)
        } else {
            header_block(s) + seq![LF]
        };
        assert(start =~= s.take(i));
        if s[i] == LF {
            assert(s =~= start + seq![LF] + body_of(s));
        } else {
            assert(s =~= start + seq![CR, LF] + body_of(s));
        }
    }
}

/// The first empty line ends the header block: whatever stands behind it is
/// body, byte for byte, empty lines included.
pub proof fn law_first_empty_line_ends_headers(head: Seq<u8>, body: Seq<u8>)
    requires
        forall|j: int| 0 <= j <= head.len() ==> !#[trigger] empty_line_at(head + seq![LF], j),
    ensures
        header_block(head + seq![LF, LF] + body) == head,
        body_of(head + seq![LF, LF] + body) == body,
        header_block(head + seq![LF, CR, LF] + body) == head,
        body_of(head + seq![LF, CR, LF] + body) == body,
{
    let n = head.len() as int;
    let start = head + seq![LF];
    let a = head + seq![LF, LF] + body;
    let b = head + seq![LF, CR, LF] + body;
    assert(a.take(n + 1) =~= start);
    assert(b.take(n + 1) =~= start);
    lemma_no_earlier_end(start, a);
    lemma_no_earlier_end(start, b);
    assert(a[n] == LF && a[n + 1] == LF);
    assert(b[n] == LF && b[n + 1] == CR && b[n + 2] == LF);
    assert(headers_end_at(a, n + 1));
    assert(headers_end_at(b, n + 1));
    lemma_headers_end(a, n + 1);
    lemma_headers_end(b, n + 1);
    assert(a.take(n) =~= head);
    assert(b.take(n) =~= head);
    assert(a.skip(n + 2) =~= body);
    assert(b.skip(n + 3) =~= body);
}

/// A line that is not empty does not become so with what follows its line feed.
proof fn lemma_no_earlier_end(start: Seq<u8>, s: Seq<u8>)
    requires
        start.len() > 0,
        start.last() == LF,
        forall|j: int| 0 <= j < start.len() ==> !#[trigger] empty_line_at(start, j),
        start.len() <= s.len(),
        s.take(start.len() as int) == start,
    ensures
        forall|j: int| 0 <= j < start.len() ==> !#[trigger] empty_line_at(s, j),
{
    let n = start.len() as int;
    assert forall|j: int| 0 <= j < n implies !#[trigger] empty_line_at(s, j) by {
        assert(!empty_line_at(start, j));
        assert forall|k: int| 0 <= k < n implies s[k] == start[k] by {
            assert(s.take(n)[k] == s[k]);
        }
    }
}

/// A message or a part that begins with an empty line has no header fields, and
/// the rest of it is body.
pub proof fn law_leading_empty_line_ends_headers(body: Seq<u8>)
    ensures
        header_block(seq![LF] + body) == Seq::<u8>::empty(),
        body_of(seq![LF] + body) == body,
        header_block(seq![CR, LF] + body) == Seq::<u8>::empty(),
        body_of(seq![CR, LF] + body) == body,
{
    let a = seq![LF] + body;
    let b = seq![CR, LF] + body;
    assert(headers_end_at(a, 0));
    assert(headers_end_at(b, 0));
    lemma_headers_end(a, 0);
    lemma_headers_end(b, 0);
    assert(a.skip(1) =~= body);
    assert(b.skip(2) =~= body);
}

/// A field whose value is folded over two lines has both halves as its value,
/// with one space between them.
pub proof fn law_folded_value_unfolds(
    ls: Seq<Seq<char>>,
    name: Seq<char>,
    first: Seq<char>,
    more: Seq<char>,
)
    requires
        !name.contains(':'),
        !is_folded(name + seq![':'] + first),
        is_folded(more),
    ensures
        fields_of(ls.push(name + seq![':'] + first).push(more)) == fields_of(ls).push(
            (lower(trim(name)), trim(first) + seq![' '] + trim(more)),
        ),
{
    let line = name + seq![':'] + first;
    let one = ls.push(line);
    assert(one.drop_last() =~= ls);
    assert(one.push(more).drop_last() =~= one);
    lemma_split_once_at(name, ':', first);
    let fields = fields_of(one);
    assert(fields == fields_of(ls).push((lower(trim(name)), trim(first))));
    assert(fields.drop_last() =~= fields_of(ls));
}

/// Splitting at the first `c` of `a`, `c` and `b` gives `a` and `b`, if `a` is
/// free of `c`.
proof fn lemma_split_once_at(a: Seq<char>, c: char, b: Seq<char>)
    requires
        !a.contains(c),
    ensures
        find(a + seq![c] + b, seq![c]) == Some(a.len() as int),
        split_once(a + seq![c] + b, seq![c]) == Some((a, b)),
{
    let pat = seq![c];
    let s = a + pat + b;
    let n = a.len() as int;
    assert(pat.len() == 1 && pat[0] == c);
    assert(s[n] == c);
    assert(occurs_at(s, pat, n)) by {
        assert forall|k: int| 0 <= k < pat.len() implies #[trigger] pat[k] == s[n + k] by {}
    }
    assert forall|j: int| 0 <= j < n implies !#[trigger] occurs_at(s, pat, j) by {
        if occurs_at(s, pat, j) {
            assert(pat[0] == s[j + 0]);
            assert(s[j] == a[j]);
            assert(a.contains(a[j]));
        }
    }
    assert(first_at(s, pat, n));
    lemma_find_first(s, pat, n);
    assert(s.take(n) =~= a);
    assert(s.skip(n + 1) =~= b);
}

/// Every name that a header block yields is in small letters, however it was
/// written.
pub proof fn law_names_are_lowered(ls: Seq<Seq<char>>)
    ensures
        forall|i: int|
            0 <= i < fields_of(ls).len() ==> lower((#[trigger] fields_of(ls)[i]).0) == fields_of(
                ls,
            )[i].0,
    decreases ls.len(),
{
    if ls.len() > 0 {
        law_names_are_lowered(ls.drop_last());
        let before = fields_of(ls.drop_last());
        let after = fields_of(ls);
        assert forall|i: int| 0 <= i < after.len() implies lower((#[trigger] after[i]).0)
            == after[i].0 by {
            if i < before.len() {
                assert(after[i].0 == before[i].0);
            } else {
                match split_once(ls.last(), seq![':']) {
                    Some((name, value)) => {
                        lemma_lower_twice(trim(name));
                    },
                    None => {},
                }
            }
        }
    }
}

proof fn lemma_lower_twice(s: Seq<char>)
    ensures
        lower(lower(s)) == lower(s),
{
    assert forall|i: int| 0 <= i < s.len() implies lower(lower(s))[i] == lower(s)[i] by {
        let c = s[i];
        assert(lower(s)[i] == lower_char(c));
        if 'A' <= c <= 'Z' {
            assert('a' <= lower_char(c) <= 'z');
        }
    }
    assert(lower(lower(s)) =~= lower(s));
}

/// Of several fields with one name, the first one counts.
pub proof fn law_first_field_counts(
    a: Seq<(Seq<char>, Seq<char>)>,
    b: Seq<(Seq<char>, Seq<char>)>,
    name: Seq<char>,
)
    ensures
        field(a, name) is Some ==> field(a + b, name) == field(a, name),
        field(a, name) is None ==> field(a + b, name) == field(b, name),
    decreases a.len(),
{
    if a.len() == 0 {
        assert(a + b =~= b);
    } else {
        assert((a + b)[0] == a[0]);
        assert((a + b).drop_first() =~= a.drop_first() + b);
        law_first_field_counts(a.drop_first(), b, name);
    }
}

/// A first line that ends in a line feed does not change with what follows.
proof fn lemma_line_kept(a: Seq<u8>, b: Seq<u8>)
    requires
        a.len() > 0,
        a.last() == LF,
    ensures
        line_len(a + b) == line_len(a),
        first_line(a + b) == first_line(a),
        a.skip(line_len(a)).len() > 0 ==> a.skip(line_len(a)).last() == LF,
{
    let lf = seq![LF];
    let s = a + b;
    lemma_find_some(a, lf);
    assert(lf.len() == 1 && lf[0] == LF);
    if find(a, lf) is None {
        lemma_one_occurs(a, LF, a.len() - 1);
        lemma_occurs_found(a, lf, a.len() - 1);
    }
    let i = find(a, lf)->0;
    assert(first_at(a, lf, i));
    assert(occurs_at(s, lf, i)) by {
        assert(lf[0] == a[i + 0]);
        assert forall|k: int| 0 <= k < lf.len() implies #[trigger] lf[k] == s[i + k] by {}
    }
    assert forall|j: int| 0 <= j < i implies !#[trigger] occurs_at(s, lf, j) by {
        if occurs_at(s, lf, j) {
            assert(lf[0] == s[j + 0]);
            assert(occurs_at(a, lf, j)) by {
                assert forall|k: int| 0 <= k < lf.len() implies #[trigger] lf[k] == a[j + k] by {}
            }
        }
    }
    lemma_find_first(s, lf, i);
    assert(s.take(i + 1) =~= a.take(i + 1));
}

/// Text that ends a line, or is empty, and in which no line begins with `delim`.
pub open spec fn is_stretch(s: Seq<u8>, delim: Seq<u8>) -> bool {
    &&& s.len() > 0 ==> s.last() == LF
    &&& next_delimiter(s, delim) is None
}

/// Behind a stretch without a delimiter line, the delimiter lines are those of
/// what follows.
proof fn lemma_delimiter_behind(a: Seq<u8>, b: Seq<u8>, delim: Seq<u8>)
    requires
        is_stretch(a, delim),
    ensures
        next_delimiter(a + b, delim) == match next_delimiter(b, delim) {
            Some(i) => Some(a.len() + i),
            None => None,
        },
    decreases a.len(),
{
    if a.len() == 0 {
        assert(a + b =~= b);
    } else {
        lemma_line_kept(a, b);
        lemma_line_len(a);
        let rest = a.skip(line_len(a));
        assert((a + b).skip(line_len(a)) =~= rest + b);
        lemma_delimiter_behind(rest, b, delim);
    }
}

/// What stands before the first delimiter line is free of delimiter lines.
proof fn lemma_before_delimiter(s: Seq<u8>, delim: Seq<u8>)
    ensures
        next_delimiter(s, delim) matches Some(i) ==> is_stretch(s.take(i), delim),
    decreases s.len(),
{
    lemma_next_delimiter(s, delim);
    if s.len() > 0 && !starts_with(first_line(s), delim) {
        lemma_line_len(s);
        let n = line_len(s);
        let rest = s.skip(n);
        lemma_before_delimiter(rest, delim);
        lemma_next_delimiter(rest, delim);
        if let Some(k) = next_delimiter(rest, delim) {
            let line = s.take(n);
            lemma_find_some(s, seq![LF]);
            assert(seq![LF][0] == LF);
            let at = find(s, seq![LF])->0;
            assert(seq![LF][0] == s[at + 0]);
            assert(line.last() == LF);
            assert(s =~= line + rest);
            lemma_line_kept(line, rest);
            assert(line.skip(n) =~= seq![]);
            assert(next_delimiter(line.skip(n), delim) is None);
            assert(is_stretch(line, delim));
            lemma_delimiter_behind(line, rest.take(k), delim);
            assert(s.take(n + k) =~= line + rest.take(k));
        }
    }
}

/// No part holds a line that begins with the delimiter.
pub proof fn law_parts_hold_no_delimiter(body: Seq<u8>, delim: Seq<u8>)
    ensures
        forall|i: int|
            0 <= i < parts_of(body, delim).len() ==> next_delimiter(
                #[trigger] parts_of(body, delim)[i],
                delim,
            ) is None,
{
    if let Some(i) = next_delimiter(body, delim) {
        lemma_parts_behind_clean(body.skip(i).skip(line_len(body.skip(i))), delim);
    }
}

proof fn lemma_parts_behind_clean(s: Seq<u8>, delim: Seq<u8>)
    ensures
        forall|i: int|
            0 <= i < parts_behind(s, delim).len() ==> next_delimiter(
                #[trigger] parts_behind(s, delim)[i],
                delim,
            ) is None,
    decreases s.len(),
{
    lemma_before_delimiter(s, delim);
    lemma_next_delimiter(s, delim);
    if let Some(i) = next_delimiter(s, delim) {
        lemma_line_len(s.skip(i));
        let rest = s.skip(i).skip(line_len(s.skip(i)));
        lemma_parts_behind_clean(rest, delim);
        let all = parts_behind(s, delim);
        assert forall|k: int| 0 <= k < all.len() implies next_delimiter(
            #[trigger] all[k],
            delim,
        ) is None by {
            if k > 0 {
                assert(all[k] == parts_behind(rest, delim)[k - 1]);
            }
        }
    }
}

/// A multipart body: every part behind a delimiter line, then the closing
/// delimiter line.
pub open spec fn multipart_body(parts: Seq<Seq<u8>>, delim: Seq<u8>) -> Seq<u8>
    decreases parts.len(),
{
    if parts.len() == 0 {
        delim + seq!['-' as u8, '-' as u8, CR, LF]
    } else {
        delim + seq![CR, LF] + parts[0] + multipart_body(parts.drop_first(), delim)
    }
}

/// The first line of text that begins with a line written out.
proof fn lemma_written_line(line: Seq<u8>, rest: Seq<u8>)
    requires
        !line.contains(LF),
    ensures
        line_len(line + seq![CR, LF] + rest) == line.len() + 2,
        first_line(line + seq![CR, LF] + rest) == line,
{
    let lf = seq![LF];
    let s = line + seq![CR, LF] + rest;
    let n = line.len() as int;
    assert(lf.len() == 1 && lf[0] == LF);
    assert(s[n] == CR && s[n + 1] == LF);
    assert(occurs_at(s, lf, n + 1)) by {
        assert forall|k: int| 0 <= k < lf.len() implies #[trigger] lf[k] == s[n + 1 + k] by {}
    }
    assert forall|j: int| 0 <= j < n + 1 implies !#[trigger] occurs_at(s, lf, j) by {
        if occurs_at(s, lf, j) {
            assert(lf[0] == s[j + 0]);
            if j < n {
                assert(s[j] == line[j]);
                assert(line.contains(line[j]));
            }
        }
    }
    assert(first_at(s, lf, n + 1));
    lemma_find_first(s, lf, n + 1);
    assert(s.take(n + 2).drop_last() =~= line.push(CR));
    assert(line.push(CR).drop_last() =~= line);
}

/// What a multipart body begins with.
proof fn lemma_multipart_start(parts: Seq<Seq<u8>>, delim: Seq<u8>, tail: Seq<u8>)
    requires
        !delim.contains(LF),
    ensures
        next_delimiter(multipart_body(parts, delim) + tail, delim) == Some(0int),
        is_closing(multipart_body(parts, delim) + tail, delim) == (parts.len() == 0),
        parts.len() > 0 ==> (multipart_body(parts, delim) + tail).skip(
            line_len(multipart_body(parts, delim) + tail),
        ) == parts[0] + (multipart_body(parts.drop_first(), delim) + tail),
{
    let s = multipart_body(parts, delim) + tail;
    if parts.len() == 0 {
        let line = delim + seq!['-' as u8, '-' as u8];
        assert(!line.contains(LF)) by {
            if line.contains(LF) {
                let k = choose|k: int| 0 <= k < line.len() && line[k] == LF;
                if k < delim.len() {
                    assert(delim[k] == LF);
                }
            }
        }
        assert(s =~= line + seq![CR, LF] + tail);
        lemma_written_line(line, tail);
        assert(occurs_at(line, delim, 0));
    } else {
        let rest = parts[0] + (multipart_body(parts.drop_first(), delim) + tail);
        assert(s =~= delim + seq![CR, LF] + rest);
        lemma_written_line(delim, rest);
        assert(occurs_at(delim, delim, 0));
        assert((delim + seq![CR, LF] + rest).skip(delim.len() as int + 2) =~= rest);
    }
    assert(s.len() > 0);
}

proof fn lemma_parts_behind_come_back(parts: Seq<Seq<u8>>, delim: Seq<u8>, tail: Seq<u8>)
    requires
        !delim.contains(LF),
        parts.len() > 0,
        forall|i: int| 0 <= i < parts.len() ==> is_stretch(#[trigger] parts[i], delim),
    ensures
        parts_behind(parts[0] + (multipart_body(parts.drop_first(), delim) + tail), delim) == parts,
    decreases parts.len(),
{
    let others = parts.drop_first();
    let next = multipart_body(others, delim) + tail;
    let s = parts[0] + next;
    lemma_multipart_start(others, delim, tail);
    lemma_delimiter_behind(parts[0], next, delim);
    assert(s.take(parts[0].len() as int) =~= parts[0]);
    assert(s.skip(parts[0].len() as int) =~= next);
    if others.len() == 0 {
        assert(parts =~= seq![parts[0]]);
    } else {
        assert forall|i: int| 0 <= i < others.len() implies is_stretch(
            #[trigger] others[i],
            delim,
        ) by {
            assert(others[i] == parts[i + 1]);
        }
        lemma_parts_behind_come_back(others, delim, tail);
        assert(parts =~= seq![parts[0]] + others);
    }
}

/// The parts of a multipart body come back, whatever stands before its first
/// delimiter line and after its closing one.
pub proof fn law_parts_come_back(
    preamble: Seq<u8>,
    parts: Seq<Seq<u8>>,
    delim: Seq<u8>,
    epilogue: Seq<u8>,
)
    requires
        !delim.contains(LF),
        is_stretch(preamble, delim),
        forall|i: int| 0 <= i < parts.len() ==> is_stretch(#[trigger] parts[i], delim),
    ensures
        parts_of(preamble + (multipart_body(parts, delim) + epilogue), delim) == parts,
{
    let start = multipart_body(parts, delim) + epilogue;
    let s = preamble + start;
    lemma_multipart_start(parts, delim, epilogue);
    lemma_delimiter_behind(preamble, start, delim);
    assert(s.skip(preamble.len() as int) =~= start);
    if parts.len() == 0 {
        assert(parts =~= seq![]);
    } else {
        lemma_parts_behind_come_back(parts, delim, epilogue);
    }
}

/// Of a multipart, the first plain text part that can be decoded and is not
/// blank is what is shown, whatever else the multipart holds: HTML, attachments,
/// further multiparts.
pub proof fn law_plain_text_is_preferred(
    fields: Seq<(Seq<char>, Seq<char>)>,
    body: Seq<u8>,
    boundary: Seq<char>,
    i: int,
    levels: nat,
)
    requires
        is_multipart(media_type(fields)),
        content_param(fields, "boundary"@) == Some(boundary),
        0 <= i < parts_of(body, delimiter(boundary)).len(),
        is_readable(parts_of(body, delimiter(boundary))[i]),
        forall|j: int| 0 <= j < i ==> !is_readable(#[trigger] parts_of(body, delimiter(boundary))[j]),
        levels > 0,
    ensures
        text_of(fields, body, levels) == Ok::<Seq<char>, Problem>(
            part_text(parts_of(body, delimiter(boundary))[i]),
        ),
{
    lemma_first_plain_at(parts_of(body, delimiter(boundary)), i);
}

proof fn lemma_first_plain_at(parts: Seq<Seq<u8>>, i: int)
    requires
        0 <= i < parts.len(),
        is_readable(parts[i]),
        forall|j: int| 0 <= j < i ==> !is_readable(#[trigger] parts[j]),
    ensures
        first_plain(parts) == Some(part_text(parts[i])),
    decreases parts.len(),
{
    if i > 0 {
        let rest = parts.drop_first();
        assert(!is_readable(parts[0]));
        assert forall|j: int| 0 <= j < i - 1 implies !is_readable(#[trigger] rest[j]) by {
            assert(rest[j] == parts[j + 1]);
        }
        lemma_first_plain_at(rest, i - 1);
    }
}

/// A body that is HTML is refused, and so is a multipart whose parts are HTML
/// alone: markup is not shown as text.
pub proof fn law_html_alone_is_refused(
    fields: Seq<(Seq<char>, Seq<char>)>,
    body: Seq<u8>,
    boundary: Seq<char>,
    levels: nat,
)
    requires
        levels > 0,
        media_type(fields) == "text/html"@ || {
            let parts = parts_of(body, delimiter(boundary));
            &&& is_multipart(media_type(fields))
            &&& content_param(fields, "boundary"@) == Some(boundary)
            &&& parts.len() > 0
            &&& forall|i: int| 0 <= i < parts.len() ==> part_type(#[trigger] parts[i]) == "text/html"@
        },
    ensures
        text_of(fields, body, levels) == Err::<Seq<char>, Problem>(html_only()),
{
    reveal_strlit("text/html");
    reveal_strlit("text/plain");
    reveal_strlit("multipart/");
    assert("text/html"@.len() != "text/plain"@.len());
    assert(!is_multipart("text/html"@)) by {
        if is_multipart("text/html"@) {
            assert("multipart/"@[0] == "text/html"@[0int + 0]);
        }
    }
    if media_type(fields) != "text/html"@ {
        let parts = parts_of(body, delimiter(boundary));
        lemma_html_yields_nothing(parts, (levels - 1) as nat);
        assert(part_type(parts[0]) == "text/html"@);
    }
}

proof fn lemma_html_yields_nothing(parts: Seq<Seq<u8>>, levels: nat)
    requires
        forall|i: int| 0 <= i < parts.len() ==> part_type(#[trigger] parts[i]) == "text/html"@,
        !is_multipart("text/html"@),
        "text/html"@ != "text/plain"@,
    ensures
        first_plain(parts) is None,
        first_nested(parts, levels) is None,
    decreases parts.len(),
{
    if parts.len() > 0 {
        let rest = parts.drop_first();
        assert(part_type(parts[0]) == "text/html"@);
        assert(nested_text(parts[0], levels) is None);
        assert forall|i: int| 0 <= i < rest.len() implies part_type(#[trigger] rest[i])
            == "text/html"@ by {
            assert(rest[i] == parts[i + 1]);
        }
        lemma_html_yields_nothing(rest, levels);
    }
}

/// What is shown of a multipart comes from a plain text part or from a nested
/// multipart, never from any other part.
pub proof fn law_shown_text_has_a_source(
    fields: Seq<(Seq<char>, Seq<char>)>,
    body: Seq<u8>,
    boundary: Seq<char>,
    levels: nat,
)
    requires
        is_multipart(media_type(fields)),
        content_param(fields, "boundary"@) == Some(boundary),
    ensures
        text_of(fields, body, levels) matches Ok(text) ==> exists|i: int|
            0 <= i < parts_of(body, delimiter(boundary)).len() && {
                let part = #[trigger] parts_of(body, delimiter(boundary))[i];
                ||| is_readable(part) && part_text(part) == text
                ||| levels > 0 && nested_text(part, (levels - 1) as nat) == Some(text)
            },
{
    if levels > 0 {
        let parts = parts_of(body, delimiter(boundary));
        let below = (levels - 1) as nat;
        if first_plain(parts) is Some {
            let i = lemma_first_plain_from(parts);
            assert(is_readable(parts[i]));
        } else if first_nested(parts, below) is Some {
            let i = lemma_first_nested_from(parts, below);
            assert(nested_text(parts[i], below) == first_nested(parts, below));
        }
    }
}

proof fn lemma_first_plain_from(parts: Seq<Seq<u8>>) -> (i: int)
    requires
        first_plain(parts) is Some,
    ensures
        0 <= i < parts.len(),
        is_readable(parts[i]),
        first_plain(parts) == Some(part_text(parts[i])),
    decreases parts.len(),
{
    if is_readable(parts[0]) {
        0
    } else {
        1 + lemma_first_plain_from(parts.drop_first())
    }
}

proof fn lemma_first_nested_from(parts: Seq<Seq<u8>>, levels: nat) -> (i: int)
    requires
        first_nested(parts, levels) is Some,
    ensures
        0 <= i < parts.len(),
        nested_text(parts[i], levels) == first_nested(parts, levels),
    decreases parts.len(),
{
    if nested_text(parts[0], levels) is Some {
        0
    } else {
        1 + lemma_first_nested_from(parts.drop_first(), levels)
    }
}

/// Of a multipart without a plain text part to show, the first nested multipart
/// with a text that is not blank is what is shown. Nested multiparts before it
/// that fail, or whose text is blank, are passed over, and their errors with
/// them.
pub proof fn law_first_nested_text_is_taken(
    fields: Seq<(Seq<char>, Seq<char>)>,
    body: Seq<u8>,
    boundary: Seq<char>,
    j: int,
    text: Seq<char>,
    levels: nat,
)
    requires
        levels > 0,
        is_multipart(media_type(fields)),
        content_param(fields, "boundary"@) == Some(boundary),
        forall|i: int|
            0 <= i < parts_of(body, delimiter(boundary)).len() ==> !is_readable(
                #[trigger] parts_of(body, delimiter(boundary))[i],
            ),
        0 <= j < parts_of(body, delimiter(boundary)).len(),
        ({
            let part = parts_of(body, delimiter(boundary))[j];
            &&& is_multipart(part_type(part))
            &&& text_of(part_fields(part), body_of(part), (levels - 1) as nat) == Ok::<
                Seq<char>,
                Problem,
            >(text)
        }),
        !is_blank(text),
        forall|i: int|
            0 <= i < j ==> {
                let part = #[trigger] parts_of(body, delimiter(boundary))[i];
                is_multipart(part_type(part)) ==> (text_of(
                    part_fields(part),
                    body_of(part),
                    (levels - 1) as nat,
                ) matches Ok(other) ==> is_blank(other))
            },
    ensures
        text_of(fields, body, levels) == Ok::<Seq<char>, Problem>(text),
{
    let parts = parts_of(body, delimiter(boundary));
    let below = (levels - 1) as nat;
    lemma_no_plain(parts);
    assert(nested_text(parts[j], below) == Some(text));
    assert forall|i: int| 0 <= i < j implies nested_text(#[trigger] parts[i], below) is None by {}
    lemma_first_nested_at(parts, j, below);
}

proof fn lemma_no_plain(parts: Seq<Seq<u8>>)
    requires
        forall|i: int| 0 <= i < parts.len() ==> !is_readable(#[trigger] parts[i]),
    ensures
        first_plain(parts) is None,
    decreases parts.len(),
{
    if parts.len() > 0 {
        let rest = parts.drop_first();
        assert(!is_readable(parts[0]));
        assert forall|i: int| 0 <= i < rest.len() implies !is_readable(#[trigger] rest[i]) by {
            assert(rest[i] == parts[i + 1]);
        }
        lemma_no_plain(rest);
    }
}

proof fn lemma_first_nested_at(parts: Seq<Seq<u8>>, j: int, levels: nat)
    requires
        0 <= j < parts.len(),
        nested_text(parts[j], levels) is Some,
        forall|i: int| 0 <= i < j ==> nested_text(#[trigger] parts[i], levels) is None,
    ensures
        first_nested(parts, levels) == nested_text(parts[j], levels),
    decreases parts.len(),
{
    if j > 0 {
        let rest = parts.drop_first();
        assert(nested_text(parts[0], levels) is None);
        assert forall|i: int| 0 <= i < j - 1 implies nested_text(
            #[trigger] rest[i],
            levels,
        ) is None by {
            assert(rest[i] == parts[i + 1]);
        }
        lemma_first_nested_at(rest, j - 1, levels);
    }
}

/// A plain text part whose declared base64 cannot be decoded is malformed: it
/// is passed over like any other part that has nothing to show.
pub proof fn law_undecodable_part_is_passed_over(part: Seq<u8>, encoding: Seq<char>)
    requires
        field(part_fields(part), "content-transfer-encoding"@) == Some(encoding),
        lower(trim(encoding)) == "base64"@,
        base64_decoded(body_of(part)) is None,
    ensures
        !is_readable(part),
{
    reveal_strlit("base64");
    reveal_strlit("quoted-printable");
    assert("base64"@.len() != "quoted-printable"@.len());
}

/// A part that has nothing to show is passed over: taking it out of a multipart
/// changes nothing of what the others give.
pub proof fn law_part_without_text_is_passed_over(
    a: Seq<Seq<u8>>,
    part: Seq<u8>,
    b: Seq<Seq<u8>>,
    levels: nat,
)
    ensures
        !is_readable(part) ==> first_plain(a + seq![part] + b) == first_plain(a + b),
        nested_text(part, levels) is None ==> first_nested(a + seq![part] + b, levels)
            == first_nested(a + b, levels),
    decreases a.len(),
{
    let with = a + seq![part] + b;
    let without = a + b;
    if a.len() == 0 {
        assert(with.drop_first() =~= b);
        assert(without =~= b);
        assert(with[0] == part);
    } else {
        assert(with[0] == a[0] && without[0] == a[0]);
        assert(with.drop_first() =~= a.drop_first() + seq![part] + b);
        assert(without.drop_first() =~= a.drop_first() + b);
        law_part_without_text_is_passed_over(a.drop_first(), part, b, levels);
    }
}

/// A text that is shown is not blank, except that of a multipart without a
/// boundary, which is shown flat as it is.
pub proof fn law_shown_text_is_not_blank(
    fields: Seq<(Seq<char>, Seq<char>)>,
    body: Seq<u8>,
    levels: nat,
)
    requires
        !(is_multipart(media_type(fields)) && content_param(fields, "boundary"@) is None),
    ensures
        text_of(fields, body, levels) matches Ok(text) ==> !is_blank(text),
{
    if levels > 0 && is_multipart(media_type(fields)) {
        let boundary = content_param(fields, "boundary"@)->0;
        let parts = parts_of(body, delimiter(boundary));
        let below = (levels - 1) as nat;
        if first_plain(parts) is Some {
            let i = lemma_first_plain_from(parts);
        } else if first_nested(parts, below) is Some {
            let i = lemma_first_nested_from(parts, below);
            assert(nested_text(parts[i], below) is Some);
        }
    }
}

/// Nesting beyond the limit is an error of its own where it is met, but a whole
/// message is never broken on that account: its outer levels pass over what is
/// too deep, so that the message at worst has nothing to show.
pub proof fn law_message_is_never_malformed(bytes: Seq<u8>)
    ensures
        message_text(bytes) matches Err(problem) ==> problem is Unsupported,
        message_blocks(bytes) matches Err(problem) ==> problem is Unsupported,
{
    assert(levels_at(0) > 0);
}

/// A message is refused exactly where its body gives no text to show, and with
/// the error that the body gives: the fields of heading and metadata, present,
/// absent or damaged, never make it fail.
pub proof fn law_message_fails_with_its_body(bytes: Seq<u8>, problem: Problem)
    ensures
        message_blocks(bytes) == Err::<Seq<BlockView>, Problem>(problem) <==> text_of(
            fields_of(lines(utf8_text(header_block(bytes)))),
            body_of(bytes),
            levels_at(0),
        ) == Err::<Seq<char>, Problem>(problem),
{
}

/// Nesting deeper than the limit is not entered.
pub proof fn law_depth_is_limited(
    fields: Seq<(Seq<char>, Seq<char>)>,
    body: Seq<u8>,
    depth: int,
)
    ensures
        depth > MAX_MIME_DEPTH ==> text_of(fields, body, levels_at(depth)) == Err::<Seq<char>, Problem>(
            too_deep(),
        ),
        depth <= MAX_MIME_DEPTH ==> text_of(fields, body, levels_at(depth)) != Err::<Seq<char>, Problem>(
            too_deep(),
        ),
{
}

/// Two different characters in a row are first found behind `a`, if they are
/// nowhere inside it.
proof fn lemma_find_pair(a: Seq<char>, x: char, y: char, b: Seq<char>)
    requires
        x != y,
        find(a, seq![x, y]) is None,
    ensures
        find(a + seq![x, y] + b, seq![x, y]) == Some(a.len() as int),
{
    let pat = seq![x, y];
    let s = a + pat + b;
    let n = a.len() as int;
    assert(pat.len() == 2 && pat[0] == x && pat[1] == y);
    assert(s[n] == x && s[n + 1] == y);
    assert(occurs_at(s, pat, n)) by {
        assert forall|k: int| 0 <= k < pat.len() implies #[trigger] pat[k] == s[n + k] by {}
    }
    assert forall|j: int| 0 <= j < n implies !#[trigger] occurs_at(s, pat, j) by {
        if occurs_at(s, pat, j) {
            assert(pat[0] == s[j + 0]);
            assert(pat[1] == s[j + 1]);
            assert(j + 1 < n);
            assert(occurs_at(a, pat, j)) by {
                assert forall|k: int| 0 <= k < pat.len() implies #[trigger] pat[k] == a[j + k] by {
                    assert(s[j + k] == a[j + k]);
                }
            }
            lemma_occurs_found(a, pat, j);
        }
    }
    assert(first_at(s, pat, n));
    lemma_find_first(s, pat, n);
}

/// What occurs is found.
proof fn lemma_occurs_found<T>(s: Seq<T>, pat: Seq<T>, i: int)
    requires
        occurs_at(s, pat, i),
    ensures
        find(s, pat) is Some,
    decreases i,
{
    if exists|j: int| 0 <= j < i && #[trigger] occurs_at(s, pat, j) {
        let j = choose|j: int| 0 <= j < i && #[trigger] occurs_at(s, pat, j);
        lemma_occurs_found(s, pat, j);
    } else {
        assert(first_at(s, pat, i));
        lemma_find_first(s, pat, i);
    }
}

/// A field without `=?` holds no encoded word, and stays as it is.
pub proof fn law_text_without_words_stays(s: Seq<char>)
    requires
        find(s, seq!['=', '?']) is None,
    ensures
        words_decoded(s) == s,
{
}

/// How a field is read, from left to right: text without an opening `=?` is
/// kept; behind an opening, either a word gives way to its text, which is not
/// read again, and the reading goes on behind the word, or the opening is kept
/// and the reading goes on behind it.
pub proof fn law_words_are_read_from_the_left(before: Seq<char>, after: Seq<char>)
    requires
        find(before, seq!['=', '?']) is None,
    ensures
        words_decoded(before) == before,
        word_at(after) matches Some((text, taken)) ==> words_decoded(
            before + seq!['=', '?'] + after,
        ) == before + text + words_decoded(after.skip(taken)),
        word_at(after) is None ==> words_decoded(before + seq!['=', '?'] + after) == before + seq![
            '=',
            '?',
        ] + words_decoded(after),
{
    let s = before + seq!['=', '?'] + after;
    let n = before.len() as int;
    lemma_find_pair(before, '=', '?', after);
    assert(s.take(n) =~= before);
    assert(s.skip(n + 2) =~= after);
}

/// A word is its charset, its encoding and its payload with their marks: charset
/// and encoding hold no question mark, the encoding is one of `B`, `b`, `Q` and
/// `q`, and the payload holds no closing mark. What follows the word has no
/// influence on it.
pub proof fn law_word_ends_at_its_closing_mark(s: Seq<char>)
    ensures
        word_at(s) matches Some((text, taken)) ==> {
            &&& 0 <= taken <= s.len()
            &&& word_at(s.take(taken)) == Some((text, taken))
            &&& word_parts(s) matches Some((charset, encoding, payload, n)) && {
                &&& n == taken
                &&& s.take(taken) == charset + seq!['?'] + (encoding + seq!['?'] + (payload + seq![
                    '?',
                    '=',
                ]))
                &&& !charset.contains('?')
                &&& !encoding.contains('?')
                &&& encoding == seq!['B'] || encoding == seq!['b'] || encoding == seq!['Q']
                    || encoding == seq!['q']
                &&& find(payload, seq!['?', '=']) is None
            }
        },
{
    if let Some((text, taken)) = word_at(s) {
        lemma_word_at_taken(s);
        let (charset, encoding, payload, n) = word_parts(s)->0;
        let i = charset.len() as int;
        let j = encoding.len() as int;
        let k = payload.len() as int;
        let mark = seq!['?'];
        let closing = seq!['?', '='];
        lemma_find_some(s, mark);
        let mid = s.skip(i + 1);
        lemma_find_some(mid, mark);
        let tail = s.skip(i + j + 2);
        lemma_find_some(tail, closing);
        assert(find(s, mark) == Some(i));
        assert(find(mid, mark) == Some(j));
        assert(find(tail, closing) == Some(k));
        lemma_free_before(s, '?', i);
        lemma_free_before(mid, '?', j);
        lemma_absent_before(tail, closing, k);
        assert(closing[0] == '?' && closing[1] == '=' && mark[0] == '?');
        assert(mark[0] == s[i + 0]);
        assert(mark[0] == mid[j + 0]);
        assert(closing[0] == tail[k + 0]);
        assert(closing[1] == tail[k + 1]);
        let none = Seq::<char>::empty();
        assert(payload + closing + none =~= payload + closing);
        assert(s.take(taken) =~= charset + mark + (encoding + mark + (payload + closing)));
        lemma_written_word(charset, encoding, payload, none);
    }
}

/// What stands before the first `c` is free of it.
proof fn lemma_free_before(s: Seq<char>, c: char, i: int)
    requires
        first_at(s, seq![c], i),
    ensures
        !s.take(i).contains(c),
{
    if s.take(i).contains(c) {
        let k = choose|k: int| 0 <= k < i && s.take(i)[k] == c;
        lemma_one_occurs(s, c, k);
        assert(!occurs_at(s, seq![c], k));
    }
}

/// What stands before the first `pat` does not hold it.
proof fn lemma_absent_before(s: Seq<char>, pat: Seq<char>, i: int)
    requires
        first_at(s, pat, i),
        pat.len() > 0,
    ensures
        find(s.take(i), pat) is None,
{
    let t = s.take(i);
    assert forall|j: int| 0 <= j <= t.len() implies !#[trigger] occurs_at(t, pat, j) by {
        if occurs_at(t, pat, j) {
            assert(j < i);
            assert(occurs_at(s, pat, j)) by {
                assert forall|k: int| 0 <= k < pat.len() implies #[trigger] pat[k] == s[j + k] by {
                    assert(t[j + k] == s[j + k]);
                }
            }
        }
    }
    lemma_find_none(t, pat);
}

/// An encoded word gives way to its text, and what stands before and behind it
/// is kept. The closing `?=` is the first one behind the second question mark:
/// that the payload begins with an equals sign does not end the word.
pub proof fn law_word_gives_way_to_its_text(
    before: Seq<char>,
    charset: Seq<char>,
    encoding: Seq<char>,
    payload: Seq<char>,
    bytes: Seq<u8>,
    behind: Seq<char>,
)
    requires
        find(before, seq!['=', '?']) is None,
        !charset.contains('?'),
        !encoding.contains('?'),
        find(payload, seq!['?', '=']) is None,
        word_bytes(encoding, payload) == Some(bytes),
    ensures
        words_decoded(
            before + seq!['=', '?'] + (charset + seq!['?'] + (encoding + seq!['?'] + (payload
                + seq!['?', '='] + behind))),
        ) == before + text_in(charset, bytes) + words_decoded(behind),
{
    let after = charset + seq!['?'] + (encoding + seq!['?'] + (payload + seq!['?', '='] + behind));
    let s = before + seq!['=', '?'] + after;
    let n = before.len() as int;
    lemma_find_pair(before, '=', '?', after);
    lemma_written_word(charset, encoding, payload, behind);
    assert(s.take(n) =~= before);
    assert(s.skip(n + 2) =~= after);
}

/// The parts of a word that is written out.
proof fn lemma_written_word(
    charset: Seq<char>,
    encoding: Seq<char>,
    payload: Seq<char>,
    behind: Seq<char>,
)
    requires
        !charset.contains('?'),
        !encoding.contains('?'),
        find(payload, seq!['?', '=']) is None,
    ensures
        ({
            let after = charset + seq!['?'] + (encoding + seq!['?'] + (payload + seq!['?', '=']
                + behind));
            let taken = charset.len() + encoding.len() + payload.len() + 4;
            &&& word_parts(after) == Some((charset, encoding, payload, taken as int))
            &&& after.skip(taken as int) == behind
        }),
{
    let tail = payload + seq!['?', '='] + behind;
    let mid = encoding + seq!['?'] + tail;
    let after = charset + seq!['?'] + mid;
    let i = charset.len() as int;
    let j = encoding.len() as int;
    let k = payload.len() as int;
    assert(find(after, seq!['?']) == Some(i) && after.take(i) == charset && after.skip(i + 1)
        == mid) by {
        lemma_split_once_at(charset, '?', mid);
    }
    assert(find(mid, seq!['?']) == Some(j) && mid.take(j) == encoding && mid.skip(j + 1) == tail)
        by {
        lemma_split_once_at(encoding, '?', tail);
    }
    assert(find(tail, seq!['?', '=']) == Some(k)) by {
        lemma_find_pair(payload, '?', '=', behind);
    }
    assert(after.skip(i + j + 2) =~= mid.skip(j + 1));
    assert(tail.take(k) =~= payload);
    assert(tail.skip(k + 2) =~= behind);
    assert(after.skip(i + j + k + 4) =~= tail.skip(k + 2));
}

/// Bytes below 128, read as characters.
pub open spec fn ascii_text(bytes: Seq<u8>) -> Seq<char> {
    bytes.map_values(|b: u8| b as char)
}

proof fn lemma_ascii_text(bytes: Seq<u8>)
    requires
        forall|i: int| 0 <= i < bytes.len() ==> #[trigger] bytes[i] < 128,
    ensures
        encode_utf8(ascii_text(bytes)) == bytes,
{
    let text = ascii_text(bytes);
    assert forall|i: int| 0 <= i < text.len() implies '\0' <= #[trigger] text[i] <= '\u{7f}' by {
        assert(bytes[i] < 128);
    }
    is_ascii_chars_encode_utf8(text);
    assert forall|i: int| 0 <= i < bytes.len() implies encode_utf8(text)[i] == bytes[i] by {
        assert(bytes[i] < 128);
        assert(text[i] as u8 == encode_utf8(text)[i]);
    }
    assert(encode_utf8(text) =~= bytes);
}

/// A text in UTF-8, read in the charset `utf-8`, comes back, unless it begins
/// with a byte order mark.
pub proof fn law_utf8_comes_back(text: Seq<char>)
    requires
        text.len() > 0 ==> text[0] != '\u{feff}',
    ensures
        text_in("utf-8"@, encode_utf8(text)) == text,
{
    reveal_strlit("utf-8");
    let label = "utf-8"@;
    assert(label =~= seq!['u', 't', 'f', '-', '8']);
    is_ascii_chars_encode_utf8(label);
    assert(label[0] as u8 == encode_utf8(label)[0]);
    assert(label[1] as u8 == encode_utf8(label)[1]);
    assert(label[2] as u8 == encode_utf8(label)[2]);
    assert(label[3] as u8 == encode_utf8(label)[3]);
    assert(label[4] as u8 == encode_utf8(label)[4]);
    assert(is_utf8_label(encode_utf8(label)));
    encode_utf8_valid_utf8(text);
    encode_utf8_decode_utf8(text);
    lemma_no_mark(text);
}

/// Only a text that begins with the byte order mark begins with its bytes.
proof fn lemma_no_mark(text: Seq<char>)
    requires
        text.len() > 0 ==> text[0] != '\u{feff}',
    ensures
        !starts_with(encode_utf8(text), utf8_bom()),
{
    let bytes = encode_utf8(text);
    if starts_with(bytes, utf8_bom()) {
        assert(utf8_bom()[0] == bytes[0int + 0]);
        assert(utf8_bom()[1] == bytes[0int + 1]);
        assert(utf8_bom()[2] == bytes[0int + 2]);
        assert(text.len() > 0);
        encode_utf8_first_scalar(text);
        assert(decode_first_scalar(bytes) == codepoint_width_3(0xef, 0xbb, 0xbf));
        assert(codepoint_width_3(0xef, 0xbb, 0xbf) == 0xfeffu32) by (bit_vector);
        char_u32_cast(text[0], 0xfeffu32);
        char_u32_cast('\u{feff}', 0xfeffu32);
    }
}

/// Base64 text is ASCII, free of question marks.
proof fn lemma_base64_is_ascii(bytes: Seq<u8>)
    ensures
        forall|i: int|
            0 <= i < base64_encoded(bytes).len() ==> {
                let b = #[trigger] base64_encoded(bytes)[i];
                b < 128 && b != '?' as u8
            },
{
    assert forall|i: int| 0 <= i < base64_encoded(bytes).len() implies {
        let b = #[trigger] base64_encoded(bytes)[i];
        b < 128 && b != '?' as u8
    } by {
        let n = bytes.len() as int;
        if i < (8 * n + 5) / 6 {
            assert(base64_encoded(bytes)[i] == base64_letter(bytes_sextet(bytes, i)));
        } else {
            assert(base64_encoded(bytes)[i] == EQUALS);
        }
    }
}

/// Escaped bytes are ASCII, free of question marks and underscores.
proof fn lemma_escapes_are_ascii(bytes: Seq<u8>)
    ensures
        forall|i: int|
            0 <= i < qp_escaped(bytes).len() ==> {
                let b = #[trigger] qp_escaped(bytes)[i];
                b < 128 && b != '?' as u8 && b != '_' as u8
            },
    decreases bytes.len(),
{
    if bytes.len() > 0 {
        let rest = qp_escaped(bytes.skip(1));
        lemma_escapes_are_ascii(bytes.skip(1));
        assert forall|i: int| 0 <= i < qp_escaped(bytes).len() implies {
            let b = #[trigger] qp_escaped(bytes)[i];
            b < 128 && b != '?' as u8 && b != '_' as u8
        } by {
            if i >= 3 {
                assert(qp_escaped(bytes)[i] == rest[i - 3]);
            }
        }
    }
}

/// Text without a question mark holds no closing sign of a word.
proof fn lemma_no_closing(payload: Seq<char>)
    requires
        !payload.contains('?'),
    ensures
        find(payload, seq!['?', '=']) is None,
{
    let pat = seq!['?', '='];
    assert(pat[0] == '?');
    assert forall|j: int| 0 <= j <= payload.len() implies !#[trigger] occurs_at(payload, pat, j) by {
        if occurs_at(payload, pat, j) {
            assert(pat[0] == payload[j + 0]);
            assert(payload.contains(payload[j]));
        }
    }
    lemma_find_none(payload, pat);
}

/// An encoded word with nothing around it.
pub open spec fn word(encoding: char, payload: Seq<char>) -> Seq<char> {
    seq!['=', '?'] + ("utf-8"@ + seq!['?'] + (seq![encoding] + seq!['?'] + (payload + seq![
        '?',
        '=',
    ])))
}

proof fn lemma_word_decodes(encoding: char, payload: Seq<char>, text: Seq<char>)
    requires
        encoding != '?',
        !payload.contains('?'),
        word_bytes(seq![encoding], payload) == Some(encode_utf8(text)),
        text.len() > 0 ==> text[0] != '\u{feff}',
    ensures
        words_decoded(word(encoding, payload)) == text,
{
    let none = Seq::<char>::empty();
    reveal_strlit("utf-8");
    assert(!"utf-8"@.contains('?'));
    assert(!seq![encoding].contains('?')) by {
        if seq![encoding].contains('?') {
            let k = choose|k: int| 0 <= k < seq![encoding].len() && seq![encoding][k] == '?';
            assert(seq![encoding][k] == encoding);
        }
    }
    lemma_find_none(none, seq!['=', '?']);
    lemma_no_closing(payload);
    law_word_gives_way_to_its_text(
        none,
        "utf-8"@,
        seq![encoding],
        payload,
        encode_utf8(text),
        none,
    );
    assert(payload + seq!['?', '='] + none =~= payload + seq!['?', '=']);
    assert(none + seq!['=', '?'] =~= seq!['=', '?']);
    law_utf8_comes_back(text);
    law_text_without_words_stays(none);
    assert(none + text + none =~= text);
}

/// Any text, written as an encoded word in base64, comes back.
pub proof fn law_base64_word_comes_back(text: Seq<char>)
    requires
        text.len() > 0 ==> text[0] != '\u{feff}',
    ensures
        words_decoded(word('B', ascii_text(base64_encoded(encode_utf8(text))))) == text,
        words_decoded(word('b', ascii_text(base64_encoded(encode_utf8(text))))) == text,
{
    let bytes = encode_utf8(text);
    let payload = ascii_text(base64_encoded(bytes));
    lemma_base64_is_ascii(bytes);
    lemma_ascii_text(base64_encoded(bytes));
    law_base64_round_trip(bytes);
    assert(!payload.contains('?')) by {
        if payload.contains('?') {
            let k = choose|k: int| 0 <= k < payload.len() && payload[k] == '?';
            assert(base64_encoded(bytes)[k] as char == '?');
        }
    }
    lemma_word_decodes('B', payload, text);
    lemma_word_decodes('b', payload, text);
}

/// Any text, written as an encoded word of escapes, comes back.
pub proof fn law_escaped_word_comes_back(text: Seq<char>)
    requires
        text.len() > 0 ==> text[0] != '\u{feff}',
    ensures
        words_decoded(word('Q', ascii_text(qp_escaped(encode_utf8(text))))) == text,
{
    let bytes = encode_utf8(text);
    let escaped = qp_escaped(bytes);
    let payload = ascii_text(escaped);
    lemma_escapes_are_ascii(bytes);
    lemma_ascii_text(escaped);
    law_qp_escapes_come_back(bytes);
    assert forall|k: int| 0 <= k < payload.len() implies #[trigger] payload[k] != '?' && payload[k]
        != '_' by {
        assert(escaped[k] < 128);
    }
    assert(underscores_spaced(payload) =~= payload);
    assert(seq!['Q'] != seq!['B'] && seq!['Q'] != seq!['b']) by {
        assert(seq!['Q'][0] == 'Q' && seq!['B'][0] == 'B' && seq!['b'][0] == 'b');
    }
    lemma_word_decodes('Q', payload, text);
}

/// A message that declares neither content type nor transfer encoding is shown
/// as the UTF-8 text that it is, unchanged.
pub proof fn law_undeclared_body_is_shown_unchanged(bytes: Seq<u8>)
    requires
        field(message_fields(bytes), "content-type"@) is None,
        field(message_fields(bytes), "content-transfer-encoding"@) is None,
        valid_utf8(body_of(bytes)),
        !starts_with(body_of(bytes), utf8_bom()),
        !is_blank(decode_utf8(body_of(bytes))),
    ensures
        message_text(bytes) == Ok::<Seq<char>, Problem>(decode_utf8(body_of(bytes))),
{
    let body = body_of(bytes);
    let fields = message_fields(bytes);
    decode_utf8_encode_utf8(body);
    let text = decode_utf8(body);
    if text.len() > 0 && text[0] == '\u{feff}' {
        lemma_mark(text);
    }
    law_utf8_comes_back(text);
    assert(body_text(fields, body) == text);
    reveal_strlit("text/plain");
    reveal_strlit("text/html");
    reveal_strlit("multipart/");
    assert("text/html"@.len() != "text/plain"@.len());
    assert(!is_multipart("text/plain"@)) by {
        if is_multipart("text/plain"@) {
            assert("multipart/"@[0] == "text/plain"@[0int + 0]);
        }
    }
}

/// A text that begins with the byte order mark begins with its bytes.
proof fn lemma_mark(text: Seq<char>)
    requires
        text.len() > 0,
        text[0] == '\u{feff}',
    ensures
        starts_with(encode_utf8(text), utf8_bom()),
{
    let first = encode_scalar(text[0] as u32);
    assert(text[0] as u32 == 0xfeffu32);
    assert(leading_byte_width_3(0xfeffu32) == 0xefu8) by (bit_vector);
    assert(second_last_continuation_byte(0xfeffu32) == 0xbbu8) by (bit_vector);
    assert(last_continuation_byte(0xfeffu32) == 0xbfu8) by (bit_vector);
    assert(first =~= utf8_bom());
    assert forall|k: int| 0 <= k < utf8_bom().len() implies #[trigger] utf8_bom()[k]
        == encode_utf8(text)[0 + k] by {
        assert(first[k] == utf8_bom()[k]);
    }
}

/// A text that was sent in base64, as UTF-8, is read back.
pub proof fn law_base64_body_comes_back(
    fields: Seq<(Seq<char>, Seq<char>)>,
    encoding: Seq<char>,
    text: Seq<char>,
)
    requires
        field(fields, "content-transfer-encoding"@) == Some(encoding),
        lower(trim(encoding)) == "base64"@,
        content_param(fields, "charset"@) matches Some(charset) ==> charset == "utf-8"@,
        text.len() > 0 ==> text[0] != '\u{feff}',
    ensures
        body_text(fields, base64_encoded(encode_utf8(text))) == text,
{
    reveal_strlit("base64");
    reveal_strlit("quoted-printable");
    assert("base64"@.len() != "quoted-printable"@.len());
    law_base64_round_trip(encode_utf8(text));
    law_utf8_comes_back(text);
}

/// A text that was sent in quoted-printable, as UTF-8, is read back.
pub proof fn law_escaped_body_comes_back(
    fields: Seq<(Seq<char>, Seq<char>)>,
    encoding: Seq<char>,
    text: Seq<char>,
)
    requires
        field(fields, "content-transfer-encoding"@) == Some(encoding),
        lower(trim(encoding)) == "quoted-printable"@,
        content_param(fields, "charset"@) matches Some(charset) ==> charset == "utf-8"@,
        text.len() > 0 ==> text[0] != '\u{feff}',
    ensures
        body_text(fields, qp_escaped(encode_utf8(text))) == text,
{
    law_qp_escapes_come_back(encode_utf8(text));
    law_utf8_comes_back(text);
}

/// Lines may end in a line feed or in a carriage return and a line feed; what
/// they hold is the same. Text behind the last line feed is a line of its own,
/// with all its characters, unless it is empty.
pub proof fn law_line_ends_are_alike(line: Seq<char>, rest: Seq<char>)
    requires
        !line.contains('\n'),
    ensures
        line.len() == 0 || line.last() != '\r' ==> lines(line + seq!['\n'] + rest) == seq![line]
            + lines(rest),
        lines(line + seq!['\r', '\n'] + rest) == seq![line] + lines(rest),
        line.len() > 0 ==> lines(line) == seq![line],
        line.len() == 0 ==> lines(line).len() == 0,
{
    text::lemma_char_absent(line, '\n');
    let with_cr = line.push('\r');
    assert(!with_cr.contains('\n')) by {
        if with_cr.contains('\n') {
            let k = choose|k: int| 0 <= k < with_cr.len() && with_cr[k] == '\n';
            assert(line[k] == '\n');
        }
    }
    lemma_split_once_at(line, '\n', rest);
    lemma_split_once_at(with_cr, '\n', rest);
    assert(line + seq!['\r', '\n'] + rest =~= with_cr + seq!['\n'] + rest);
    assert(with_cr.drop_last() =~= line);
    assert((line + seq!['\n'] + rest).take(line.len() as int) =~= line);
    assert((line + seq!['\n'] + rest).skip(line.len() as int + 1) =~= rest);
    assert((with_cr + seq!['\n'] + rest).take(with_cr.len() as int) =~= with_cr);
    assert((with_cr + seq!['\n'] + rest).skip(with_cr.len() as int + 1) =~= rest);
}

/// The subject, its encoded words decoded, is the first block, a heading of the
/// first level, unless it is blank.
pub proof fn law_subject_comes_first(bytes: Seq<u8>, subject: Seq<char>)
    requires
        field(message_fields(bytes), "subject"@) == Some(subject),
        !is_blank(words_decoded(subject)),
        message_blocks(bytes) is Ok,
    ensures
        message_blocks(bytes)->Ok_0.len() > 0,
        message_blocks(bytes)->Ok_0[0] == (BlockView::Heading {
            level: 1,
            anchor: None,
            content: seq![plain(words_decoded(subject))],
        }),
{
}

/// The lines of a text hold no line feed, and there is one if the text is not
/// empty.
proof fn lemma_lines_are_bare(s: Seq<char>)
    ensures
        forall|i: int| 0 <= i < lines(s).len() ==> !(#[trigger] lines(s)[i]).contains('\n'),
        s.len() > 0 ==> lines(s).len() > 0,
    decreases s.len(),
{
    let nl = seq!['\n'];
    if s.len() > 0 {
        lemma_find_some(s, nl);
        assert(nl.len() == 1 && nl[0] == '\n');
        match find(s, nl) {
            Some(i) => {
                let head = s.take(i);
                let rest = s.skip(i + 1);
                lemma_lines_are_bare(rest);
                assert(!head.contains('\n')) by {
                    if head.contains('\n') {
                        let k = choose|k: int| 0 <= k < head.len() && head[k] == '\n';
                        lemma_one_occurs(s, '\n', k);
                        assert(!occurs_at(s, nl, k));
                    }
                }
                assert(!without_cr(head).contains('\n')) by {
                    if without_cr(head).contains('\n') {
                        let k = choose|k: int|
                            0 <= k < without_cr(head).len() && without_cr(head)[k] == '\n';
                        assert(head[k] == '\n');
                    }
                }
                let all = lines(s);
                assert forall|k: int| 0 <= k < all.len() implies !(#[trigger] all[k]).contains(
                    '\n',
                ) by {
                    if k > 0 {
                        assert(all[k] == lines(rest)[k - 1]);
                    }
                }
            },
            None => {
                assert(!s.contains('\n')) by {
                    if s.contains('\n') {
                        let k = choose|k: int| 0 <= k < s.len() && s[k] == '\n';
                        lemma_one_occurs(s, '\n', k);
                        lemma_occurs_found(s, nl, k);
                    }
                }
            },
        }
    }
}

proof fn lemma_one_occurs<T>(s: Seq<T>, c: T, i: int)
    requires
        0 <= i < s.len(),
        s[i] == c,
    ensures
        occurs_at(s, seq![c], i),
{
    assert(seq![c].len() == 1 && seq![c][0] == c);
    assert forall|k: int| 0 <= k < seq![c].len() implies #[trigger] seq![c][k] == s[i + k] by {}
}

/// Every block of a body is a paragraph that holds something, and no line in it
/// holds a line feed.
pub proof fn law_body_lines_are_bare(text: Seq<char>, i: int)
    requires
        0 <= i < body_blocks(text).len(),
    ensures
        body_blocks(text)[i] matches BlockView::Paragraph(content) && content.len() > 0 && (forall|
            k: int,
        |
            0 <= k < content.len() ==> (#[trigger] content[k] matches InlineView::Text {
                text: line,
                style,
            } ==> !line.contains('\n') && !style.bold)),
{
    let keep = |p: Seq<char>| !is_blank(p);
    let stretches = split(text, seq!['\n', '\n']).map_values(
        |p: Seq<char>| strip(p, Class::Only('\n')),
    );
    let p = paragraphs(text)[i];
    assert(keep(p)) by {
        broadcast use vstd::seq_lib::group_filter_ensures;

        assert(stretches.filter(keep)[i] == p);
    }
    assert(p.len() > 0);
    lemma_lines_are_bare(p);
    let ls = lines(p);
    let content = joined(ls);
    assert(body_blocks(text)[i] == BlockView::Paragraph(content));
    assert forall|k: int| 0 <= k < content.len() implies (#[trigger] content[k] matches InlineView::Text {
        text: line,
        style,
    } ==> !line.contains('\n') && !style.bold) by {
        if k % 2 == 0 {
            assert(0 <= k / 2 < ls.len());
            assert(!ls[k / 2].contains('\n'));
        }
    }
}

/// A text without line feeds is one line, one stretch, and has nothing to strip.
proof fn lemma_single_line(s: Seq<char>)
    requires
        !s.contains('\n'),
    ensures
        find(s, seq!['\n']) is None,
        find(s, seq!['\n', '\n']) is None,
        split(s, seq!['\n', '\n']) == seq![s],
        strip(s, Class::Only('\n')) == s,
        s.len() > 0 ==> lines(s) == seq![s],
{
    let nl = seq!['\n'];
    let two = seq!['\n', '\n'];
    assert(nl.len() == 1 && nl[0] == '\n');
    assert(two.len() == 2 && two[0] == '\n');
    assert forall|j: int| 0 <= j <= s.len() implies !#[trigger] occurs_at(s, nl, j) by {
        if occurs_at(s, nl, j) {
            assert(nl[0] == s[j + 0]);
            assert(s.contains(s[j]));
        }
    }
    assert forall|j: int| 0 <= j <= s.len() implies !#[trigger] occurs_at(s, two, j) by {
        if occurs_at(s, two, j) {
            assert(two[0] == s[j + 0]);
            assert(s.contains(s[j]));
        }
    }
    lemma_find_none(s, nl);
    lemma_find_none(s, two);
    if s.len() > 0 {
        assert(s.contains(s[0]));
        assert(s.contains(s.last()));
    }
}

/// A body of one line is one paragraph with that line.
pub proof fn law_single_line_is_one_paragraph(line: Seq<char>)
    requires
        !line.contains('\n'),
        !is_blank(line),
    ensures
        body_blocks(line) == seq![BlockView::Paragraph(seq![plain(line)])],
{
    lemma_single_line(line);
    assert(line.len() > 0);
    lemma_first_stretch(line, seq![]);
    assert(joined(seq![line]) =~= seq![plain(line)]);
    let strip_one = |p: Seq<char>| strip(p, Class::Only('\n'));
    let keep = |p: Seq<char>| !is_blank(p);
    assert(split(line, seq!['\n', '\n']).map_values(strip_one) =~= seq![line] + seq![]);
    assert(Seq::<Seq<char>>::empty().filter(keep) =~= seq![]) by {
        reveal(Seq::filter);
    }
    assert(paragraphs(line) =~= seq![line]);
    assert(body_blocks(line) =~= seq![BlockView::Paragraph(seq![plain(line)])]);
}

/// A stretch that is not blank comes first among those that are kept.
proof fn lemma_first_stretch(p: Seq<char>, others: Seq<Seq<char>>)
    requires
        !is_blank(p),
    ensures
        (seq![p] + others).filter(|p: Seq<char>| !is_blank(p)) == seq![p] + others.filter(
            |p: Seq<char>| !is_blank(p),
        ),
{
    let keep = |p: Seq<char>| !is_blank(p);
    Seq::filter_distributes_over_add(seq![p], others, keep);
    reveal(Seq::filter);
    assert(seq![p].drop_last() =~= seq![]);
    assert(seq![p].drop_last().filter(keep) =~= seq![]);
    assert(seq![p].filter(keep) =~= seq![p]);
}

/// An empty line sets paragraphs apart: a line, an empty line and more text give
/// a paragraph with the line, and then the paragraphs of the rest.
pub proof fn law_empty_line_ends_paragraph(line: Seq<char>, rest: Seq<char>)
    requires
        !line.contains('\n'),
        !is_blank(line),
    ensures
        body_blocks(line + seq!['\n', '\n'] + rest) == seq![
            BlockView::Paragraph(seq![plain(line)]),
        ] + body_blocks(rest),
{
    let two = seq!['\n', '\n'];
    let s = line + two + rest;
    let n = line.len() as int;
    let strip_one = |p: Seq<char>| strip(p, Class::Only('\n'));
    let keep = |p: Seq<char>| !is_blank(p);
    let build = |p: Seq<char>| BlockView::Paragraph(joined(lines(p)));
    lemma_single_line(line);
    assert(two.len() == 2 && two[0] == '\n' && two[1] == '\n');
    assert(occurs_at(s, two, n)) by {
        assert forall|k: int| 0 <= k < two.len() implies #[trigger] two[k] == s[n + k] by {}
    }
    assert forall|j: int| 0 <= j < n implies !#[trigger] occurs_at(s, two, j) by {
        if occurs_at(s, two, j) {
            assert(two[0] == s[j + 0]);
            assert(s[j] == line[j]);
            assert(line.contains(line[j]));
        }
    }
    assert(first_at(s, two, n));
    lemma_find_first(s, two, n);
    assert(s.take(n) =~= line);
    assert(s.skip(n + 2) =~= rest);
    let others = split(rest, two).map_values(strip_one);
    assert(split(s, two) == seq![line] + split(rest, two));
    assert(split(s, two).map_values(strip_one) =~= seq![line] + others);
    lemma_first_stretch(line, others);
    assert(paragraphs(s) == seq![line] + paragraphs(rest));
    assert(joined(seq![line]) =~= seq![plain(line)]);
    assert(build(line) == BlockView::Paragraph(seq![plain(line)]));
    assert(body_blocks(s) =~= seq![BlockView::Paragraph(seq![plain(line)])] + body_blocks(rest));
}

/// A line feed between two lines of a paragraph becomes a line break.
pub proof fn law_line_feed_becomes_line_break(first: Seq<char>, second: Seq<char>)
    requires
        !first.contains('\n'),
        !second.contains('\n'),
        !is_blank(first),
        second.len() > 0,
    ensures
        body_blocks(first + seq!['\n'] + second) == seq![
            BlockView::Paragraph(
                seq![plain(without_cr(first)), InlineView::LineBreak, plain(second)],
            ),
        ],
{
    let s = first + seq!['\n'] + second;
    let n = first.len() as int;
    let two = seq!['\n', '\n'];
    let keep = |p: Seq<char>| !is_blank(p);
    let strip_one = |p: Seq<char>| strip(p, Class::Only('\n'));
    assert(two.len() == 2 && two[0] == '\n' && two[1] == '\n');
    assert(first.contains(first[0]));
    assert(second.contains(second.last()));
    assert forall|j: int| 0 <= j <= s.len() implies !#[trigger] occurs_at(s, two, j) by {
        if occurs_at(s, two, j) {
            assert(two[0] == s[j + 0]);
            assert(two[1] == s[j + 1]);
            if j < n {
                assert(first.contains(first[j]));
            } else {
                assert(second.contains(second[j - n]));
            }
        }
    }
    lemma_find_none(s, two);
    assert(s[0] == first[0] && s.last() == second.last());
    assert(strip(s, Class::Only('\n')) == s);
    let w = choose|w: int| 0 <= w < first.len() && !is_white(#[trigger] first[w]);
    assert(s[w] == first[w]);
    assert(!is_blank(s));
    assert(split(s, two).map_values(strip_one) =~= seq![s] + seq![]);
    lemma_first_stretch(s, seq![]);
    assert(Seq::<Seq<char>>::empty().filter(keep) =~= seq![]) by {
        reveal(Seq::filter);
    }
    assert(paragraphs(s) =~= seq![s]);
    lemma_split_once_at(first, '\n', second);
    lemma_single_line(second);
    let ls = seq![without_cr(first), second];
    assert(lines(s) =~= ls);
    assert(joined(ls) =~= seq![plain(without_cr(first)), InlineView::LineBreak, plain(second)]);
    assert(body_blocks(s) =~= seq![BlockView::Paragraph(joined(ls))]);
}

} // verus!
