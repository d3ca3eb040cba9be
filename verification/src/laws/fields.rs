//! What header fields and the parameters of the content type hold, told by how
//! they are written.

use vstd::prelude::*;
use vstd::utf8::{
    encode_scalar, encode_utf8, encode_utf8_decode_utf8, encode_utf8_valid_utf8,
    last_continuation_byte, leading_byte_width_1, leading_byte_width_2, leading_byte_width_3,
    leading_byte_width_4, second_last_continuation_byte, third_last_continuation_byte, valid_utf8,
};

use crate::charset::utf8_text;
use crate::headers::{content_param, field, fields_of, media_type, param};
use crate::laws::text::{
    joined_by, law_first_char_is_found, law_split_undoes_join, law_strip_takes_one_character,
    law_trim_takes_white_space, lemma_char_absent, lemma_trim_ignores_end,
};
use crate::laws::{
    law_first_empty_line_ends_headers, law_leading_empty_line_ends_headers, law_line_ends_are_alike,
    lemma_split_once_at,
};
use crate::message::message_fields;
use crate::mime::{
    body_of, empty_line_at, header_block, headers_end_at, lemma_headers_end, part_fields,
};
use crate::text::{find, is_blank, is_white, lines, lower, split, strip, trim, Class};
use crate::transfer::{CR, LF};
use crate::words::lemma_utf8_concat;

verus! {

/// A line that begins with a space or a tab goes on with the last field, behind
/// one space, whatever line stands before it: as many such lines as there are
/// all belong to the field.
pub proof fn law_every_folded_line_counts(ls: Seq<Seq<char>>, more: Seq<char>)
    requires
        fields_of(ls).len() > 0,
        more.len() > 0,
        more[0] == ' ' || more[0] == '\t',
    ensures
        fields_of(ls.push(more)).len() == fields_of(ls).len(),
        fields_of(ls.push(more)).drop_last() == fields_of(ls).drop_last(),
        fields_of(ls.push(more)).last().0 == fields_of(ls).last().0,
        fields_of(ls.push(more)).last().1 == fields_of(ls).last().1 + seq![' '] + trim(more),
{
    assert(ls.push(more).drop_last() =~= ls);
    assert(fields_of(ls.push(more)).drop_last() =~= fields_of(ls).drop_last());
}

/// A line that does not begin with a space or a tab and holds a colon adds a
/// field: what stands before the first colon is its name, in small letters, and
/// all that stands behind is its value, both without white space around them.
/// The fields before it stay.
pub proof fn law_colon_makes_a_field(ls: Seq<Seq<char>>, name: Seq<char>, value: Seq<char>)
    requires
        !name.contains(':'),
        name.len() > 0 ==> name[0] != ' ' && name[0] != '\t',
    ensures
        fields_of(ls.push(name + seq![':'] + value)) == fields_of(ls).push(
            (lower(trim(name)), trim(value)),
        ),
{
    let line = name + seq![':'] + value;
    assert(ls.push(line).drop_last() =~= ls);
    assert(line[0] == if name.len() > 0 {
        name[0]
    } else {
        ':'
    });
    lemma_split_once_at(name, ':', value);
}

/// A line without a colon that continues nothing is passed over, and so is a
/// line that would continue a field where there is none yet. A block without
/// lines has no fields.
pub proof fn law_other_lines_count_for_nothing(ls: Seq<Seq<char>>, line: Seq<char>)
    requires
        line.len() > 0 && (line[0] == ' ' || line[0] == '\t') ==> fields_of(ls).len() == 0,
        line.len() == 0 || (line[0] != ' ' && line[0] != '\t') ==> !line.contains(':'),
    ensures
        fields_of(ls.push(line)) == fields_of(ls),
        fields_of(seq![]).len() == 0,
{
    assert(ls.push(line).drop_last() =~= ls);
    if line.len() == 0 || (line[0] != ' ' && line[0] != '\t') {
        lemma_char_absent(line, ':');
    }
}

/// The value of a field is that of the first one with its name.
pub proof fn law_field_is_the_first_of_its_name(
    fields: Seq<(Seq<char>, Seq<char>)>,
    name: Seq<char>,
    i: int,
)
    requires
        0 <= i <= fields.len(),
        forall|j: int| 0 <= j < i ==> (#[trigger] fields[j]).0 != name,
    ensures
        i < fields.len() && fields[i].0 == name ==> field(fields, name) == Some(fields[i].1),
        i == fields.len() ==> field(fields, name) is None,
    decreases fields.len(),
{
    if i > 0 {
        let rest = fields.drop_first();
        assert(fields[0].0 != name);
        assert forall|j: int| 0 <= j < i - 1 implies (#[trigger] rest[j]).0 != name by {
            assert(rest[j] == fields[j + 1]);
        }
        law_field_is_the_first_of_its_name(rest, name, i - 1);
    }
}

/// The end of a line: a line feed, behind a carriage return or not.
pub open spec fn line_end(cr: bool) -> Seq<char> {
    if cr {
        seq!['\r', '\n']
    } else {
        seq!['\n']
    }
}

/// Lines, each with its end.
pub open spec fn written_lines(ls: Seq<Seq<char>>, cr: bool) -> Seq<char>
    decreases ls.len(),
{
    if ls.len() == 0 {
        seq![]
    } else {
        ls[0] + line_end(cr) + written_lines(ls.drop_first(), cr)
    }
}

/// A line of a header block as it can be written: it holds something, and no
/// line end.
pub open spec fn is_bare(line: Seq<char>) -> bool {
    line.len() > 0 && !line.contains('\n') && line.last() != '\r'
}

/// A message or a part: its header lines, an empty line, its body.
pub open spec fn written(ls: Seq<Seq<char>>, cr: bool, body: Seq<u8>) -> Seq<u8> {
    encode_utf8(written_lines(ls, cr) + line_end(cr)) + body
}

/// Only characters of their own have bytes below 128 in UTF-8.
proof fn lemma_scalar_bytes(c: char)
    ensures
        encode_scalar(c as u32).len() > 0,
        (c as u32) < 128 ==> encode_scalar(c as u32) == seq![c as u8],
        (c as u32) >= 128 ==> forall|i: int|
            0 <= i < encode_scalar(c as u32).len() ==> #[trigger] encode_scalar(c as u32)[i] >= 128,
        encode_scalar(c as u32).contains(LF) ==> c == '\n',
        encode_scalar(c as u32)[0] == CR ==> c == '\r',
{
    let u = c as u32;
    if u < 128 {
        assert(leading_byte_width_1(u) == u as u8) by (bit_vector)
            requires
                u < 128,
        ;
        assert(encode_scalar(u) =~= seq![c as u8]);
    } else {
        assert(leading_byte_width_2(u) >= 128) by (bit_vector);
        assert(leading_byte_width_3(u) >= 128) by (bit_vector);
        assert(leading_byte_width_4(u) >= 128) by (bit_vector);
        assert(last_continuation_byte(u) >= 128) by (bit_vector);
        assert(second_last_continuation_byte(u) >= 128) by (bit_vector);
        assert(third_last_continuation_byte(u) >= 128) by (bit_vector);
    }
}

/// Text without a line feed has none in UTF-8.
pub(crate) proof fn lemma_no_line_feed(s: Seq<char>)
    requires
        !s.contains('\n'),
    ensures
        !encode_utf8(s).contains(LF),
        s.len() > 0 ==> encode_utf8(s).len() > 0,
        s.len() > 1 ==> encode_utf8(s).len() > 1,
        s.len() > 0 && encode_utf8(s)[0] == CR ==> s[0] == '\r',
    decreases s.len(),
{
    if s.len() > 0 {
        let rest = s.drop_first();
        let first = encode_scalar(s[0] as u32);
        lemma_scalar_bytes(s[0]);
        assert(s.contains(s[0]));
        assert(!rest.contains('\n')) by {
            if rest.contains('\n') {
                let k = choose|k: int| 0 <= k < rest.len() && rest[k] == '\n';
                assert(s[k + 1] == '\n');
            }
        }
        lemma_no_line_feed(rest);
        let bytes = encode_utf8(s);
        assert(bytes == first + encode_utf8(rest));
        assert(!bytes.contains(LF)) by {
            if bytes.contains(LF) {
                let k = choose|k: int| 0 <= k < bytes.len() && bytes[k] == LF;
                if k < first.len() {
                    assert(first[k] == LF);
                } else {
                    assert(encode_utf8(rest)[k - first.len()] == LF);
                }
            }
        }
        assert(bytes[0] == first[0]);
    }
}

proof fn lemma_line_end_bytes(cr: bool)
    ensures
        encode_utf8(line_end(cr)) == if cr {
            seq![CR, LF]
        } else {
            seq![LF]
        },
        encode_utf8(seq!['\n']) == seq![LF],
{
    lemma_scalar_bytes('\r');
    lemma_scalar_bytes('\n');
    let none = Seq::<char>::empty();
    let lf = seq!['\n'];
    assert(lf.drop_first() =~= none);
    assert(encode_utf8(none) =~= seq![]);
    assert(encode_utf8(lf) =~= seq![LF]);
    let both = seq!['\r', '\n'];
    assert(both.drop_first() =~= lf);
    assert(encode_utf8(both) =~= seq![CR, LF]);
}

/// Lines that hold something make no empty line.
proof fn lemma_no_empty_line(ls: Seq<Seq<char>>, cr: bool, j: int)
    requires
        forall|i: int| 0 <= i < ls.len() ==> is_bare(#[trigger] ls[i]),
    ensures
        !empty_line_at(encode_utf8(written_lines(ls, cr)), j),
    decreases ls.len(),
{
    let s = encode_utf8(written_lines(ls, cr));
    if ls.len() > 0 {
        let others = ls.drop_first();
        let first = encode_utf8(ls[0]);
        let end = encode_utf8(line_end(cr));
        let rest = encode_utf8(written_lines(others, cr));
        let n = first.len() + end.len();
        assert(is_bare(ls[0]));
        lemma_utf8_concat(ls[0], line_end(cr));
        lemma_utf8_concat(ls[0] + line_end(cr), written_lines(others, cr));
        lemma_line_end_bytes(cr);
        lemma_no_line_feed(ls[0]);
        assert(s == first + end + rest);
        assert forall|i: int| 0 <= i < others.len() implies is_bare(#[trigger] others[i]) by {
            assert(others[i] == ls[i + 1]);
        }
        if empty_line_at(s, j) {
            if j == 0 {
                assert(s[0] == first[0]);
                assert(first.contains(first[0]));
                assert(ls[0].len() > 1) by {
                    assert(ls[0][0] == '\r');
                }
                assert(s[1] == first[1]);
                assert(first.contains(first[1]));
            } else {
                if j - 1 < first.len() {
                    assert(s[j - 1] == first[j - 1]);
                    assert(first.contains(first[j - 1]));
                }
                assert(j >= n);
                lemma_no_empty_line(others, cr, j - n);
                assert(s[j] == rest[j - n]);
                if j > n {
                    assert(s[j - 1] == rest[j - n - 1]);
                }
                if j + 1 < s.len() {
                    assert(s[j + 1] == rest[j - n + 1]);
                }
            }
        }
    } else {
        assert(s =~= seq![]);
    }
}

/// Lines as they are read again, when the last line feed is missing.
spec fn reread(ls: Seq<Seq<char>>, cr: bool) -> Seq<Seq<char>> {
    if cr {
        ls.drop_last().push(ls.last().push('\r'))
    } else {
        ls
    }
}

proof fn lemma_lines_reread(ls: Seq<Seq<char>>, cr: bool)
    requires
        ls.len() > 0,
        forall|i: int| 0 <= i < ls.len() ==> is_bare(#[trigger] ls[i]),
    ensures
        written_lines(ls, cr).len() > 0,
        written_lines(ls, cr).last() == '\n',
        lines(written_lines(ls, cr).drop_last()) == reread(ls, cr),
    decreases ls.len(),
{
    let all = written_lines(ls, cr);
    let others = ls.drop_first();
    let rest = written_lines(others, cr);
    assert(is_bare(ls[0]));
    if others.len() == 0 {
        let last = if cr {
            ls[0].push('\r')
        } else {
            ls[0]
        };
        assert(rest =~= seq![]);
        assert(all.drop_last() =~= last);
        assert(!last.contains('\n')) by {
            if last.contains('\n') {
                let k = choose|k: int| 0 <= k < last.len() && last[k] == '\n';
                assert(ls[0][k] == '\n');
            }
        }
        lemma_char_absent(last, '\n');
        assert(reread(ls, cr) =~= seq![last]);
    } else {
        assert forall|i: int| 0 <= i < others.len() implies is_bare(#[trigger] others[i]) by {
            assert(others[i] == ls[i + 1]);
        }
        lemma_lines_reread(others, cr);
        assert(all.last() == rest.last());
        assert(all.drop_last() =~= ls[0] + line_end(cr) + rest.drop_last());
        law_line_ends_are_alike(ls[0], rest.drop_last());
        assert(reread(ls, cr) =~= seq![ls[0]] + reread(others, cr));
    }
}

/// A carriage return at the end of the last line changes no field.
proof fn lemma_fields_reread(ls: Seq<Seq<char>>)
    requires
        ls.len() > 0,
        is_bare(ls.last()),
    ensures
        fields_of(ls.drop_last().push(ls.last().push('\r'))) == fields_of(ls),
{
    let line = ls.last();
    let with_cr = line.push('\r');
    let all = ls.drop_last().push(with_cr);
    assert(all.drop_last() =~= ls.drop_last());
    assert(with_cr[0] == line[0]);
    lemma_trim_ignores_end(line, '\r');
    if line.contains(':') {
        law_first_char_is_found(line, ':');
        let i = find(line, seq![':'])->0;
        let name = line.take(i);
        let value = line.skip(i + 1);
        lemma_split_once_at(name, ':', value);
        assert(line =~= name + seq![':'] + value);
        lemma_split_once_at(name, ':', value.push('\r'));
        assert(with_cr =~= name + seq![':'] + value.push('\r'));
        lemma_trim_ignores_end(value, '\r');
    } else {
        lemma_char_absent(line, ':');
        assert(!with_cr.contains(':')) by {
            if with_cr.contains(':') {
                let k = choose|k: int| 0 <= k < with_cr.len() && with_cr[k] == ':';
                assert(line[k] == ':');
            }
        }
        lemma_char_absent(with_cr, ':');
    }
}

/// A message, or a part of one, that is written as header lines, an empty line
/// and a body has the fields of these lines, all of them, and this body, byte
/// for byte, whichever way its lines end.
pub proof fn law_written_message_is_read(ls: Seq<Seq<char>>, cr: bool, body: Seq<u8>)
    requires
        forall|i: int| 0 <= i < ls.len() ==> is_bare(#[trigger] ls[i]),
    ensures
        message_fields(written(ls, cr, body)) == fields_of(ls),
        part_fields(written(ls, cr, body)) == fields_of(ls),
        body_of(written(ls, cr, body)) == body,
{
    let s = written(ls, cr, body);
    let text = written_lines(ls, cr);
    lemma_line_end_bytes(cr);
    lemma_utf8_concat(text, line_end(cr));
    if ls.len() == 0 {
        assert(text =~= seq![]);
        assert(text + line_end(cr) =~= line_end(cr));
        law_leading_empty_line_ends_headers(body);
        assert(encode_utf8(text) =~= seq![]);
        assert(valid_utf8(encode_utf8(text))) by {
            encode_utf8_valid_utf8(text);
        }
        encode_utf8_decode_utf8(text);
        assert(header_block(s) == encode_utf8(text));
        assert(lines(text) =~= ls);
    } else {
        lemma_lines_reread(ls, cr);
        let block = text.drop_last();
        let head = encode_utf8(block);
        assert(text =~= block + seq!['\n']);
        lemma_utf8_concat(block, seq!['\n']);
        assert(encode_utf8(text) == head + seq![LF]);
        assert forall|j: int| 0 <= j <= head.len() implies !#[trigger] empty_line_at(
            head + seq![LF],
            j,
        ) by {
            lemma_no_empty_line(ls, cr, j);
        }
        law_first_empty_line_ends_headers(head, body);
        if cr {
            assert(s =~= head + seq![LF, CR, LF] + body);
        } else {
            assert(s =~= head + seq![LF, LF] + body);
        }
        encode_utf8_valid_utf8(block);
        encode_utf8_decode_utf8(block);
        assert(utf8_text(header_block(s)) == block);
        assert(is_bare(ls[ls.len() - 1]));
        if cr {
            lemma_fields_reread(ls);
        }
    }
}

/// The content type is what stands before its first semicolon, or all of it,
/// in small letters and without white space around it; `text/plain` where no
/// field declares one.
pub proof fn law_media_type_ends_at_semicolon(
    fields: Seq<(Seq<char>, Seq<char>)>,
    media: Seq<char>,
    rest: Seq<char>,
)
    requires
        !media.contains(';'),
    ensures
        field(fields, "content-type"@) == Some(media) ==> media_type(fields) == lower(trim(media)),
        field(fields, "content-type"@) == Some(media + seq![';'] + rest) ==> media_type(fields)
            == lower(trim(media)),
        field(fields, "content-type"@) is None ==> media_type(fields) == seq![
            't',
            'e',
            'x',
            't',
            '/',
            'p',
            'l',
            'a',
            'i',
            'n',
        ],
{
    reveal_strlit("text/plain");
    lemma_char_absent(media, ';');
    lemma_split_once_at(media, ';', rest);
    let s = media + seq![';'] + rest;
    assert(s.take(media.len() as int) =~= media);
    assert(split(s, seq![';'])[0] == media);
}

/// A parameter as it is written.
pub open spec fn parameter(key: Seq<char>, value: Seq<char>) -> Seq<char> {
    key + seq!['='] + value
}

/// A run of `n` quotes.
pub open spec fn quotes(n: nat) -> Seq<char> {
    Seq::new(n, |i: int| '"')
}

proof fn lemma_param_behind(
    pairs: Seq<(Seq<char>, Seq<char>)>,
    more: Seq<Seq<char>>,
    name: Seq<char>,
)
    requires
        forall|i: int|
            0 <= i < pairs.len() ==> !(#[trigger] pairs[i]).0.contains('=') && lower(
                trim(pairs[i].0),
            ) != lower(name),
    ensures
        param(pairs.map_values(|p: (Seq<char>, Seq<char>)| parameter(p.0, p.1)) + more, name)
            == param(more, name),
    decreases pairs.len(),
{
    let write = |p: (Seq<char>, Seq<char>)| parameter(p.0, p.1);
    let all = pairs.map_values(write) + more;
    if pairs.len() == 0 {
        assert(all =~= more);
    } else {
        let others = pairs.drop_first();
        assert(!pairs[0].0.contains('='));
        assert forall|i: int| 0 <= i < others.len() implies !(#[trigger] others[i]).0.contains('=')
            && lower(trim(others[i].0)) != lower(name) by {
            assert(others[i] == pairs[i + 1]);
        }
        lemma_param_behind(others, more, name);
        lemma_split_once_at(pairs[0].0, '=', pairs[0].1);
        assert(all[0] == parameter(pairs[0].0, pairs[0].1));
        assert(all.drop_first() =~= others.map_values(write) + more);
    }
}

proof fn lemma_pieces_of(value: Seq<char>, media: Seq<char>, pieces: Seq<Seq<char>>)
    requires
        !media.contains(';'),
        forall|i: int| 0 <= i < pieces.len() ==> !(#[trigger] pieces[i]).contains(';'),
        value == joined_by(seq![media] + pieces, ';'),
    ensures
        split(value, seq![';']).drop_first() == pieces,
{
    let all = seq![media] + pieces;
    assert forall|i: int| 0 <= i < all.len() implies !(#[trigger] all[i]).contains(';') by {
        if i > 0 {
            assert(all[i] == pieces[i - 1]);
        }
    }
    law_split_undoes_join(all, ';');
    assert(all.drop_first() =~= pieces);
}

/// White space around a value and the quotes inside it are no part of it.
proof fn lemma_unquoted(before: Seq<char>, a: nat, text: Seq<char>, b: nat, after: Seq<char>)
    requires
        is_blank(before),
        is_blank(after),
        text.len() > 0 ==> text[0] != '"' && text.last() != '"',
        text.len() > 0 && a == 0 ==> !is_white(text[0]),
        text.len() > 0 && b == 0 ==> !is_white(text.last()),
    ensures
        strip(
            trim(before + (quotes(a) + text + quotes(b)) + after),
            Class::Only('"'),
        ) == text,
{
    let quoted = quotes(a) + text + quotes(b);
    if quoted.len() > 0 {
        assert(quoted[0] == if a > 0 {
            '"'
        } else if text.len() > 0 {
            text[0]
        } else {
            '"'
        });
        assert(quoted.last() == if b > 0 {
            '"'
        } else if text.len() > 0 {
            text.last()
        } else {
            '"'
        });
    }
    law_trim_takes_white_space(before, quoted, after);
    law_strip_takes_one_character(a, text, b, '"');
}

/// A parameter of the content type is the text behind the equals sign of the
/// first parameter that has its name, in any case and with white space around
/// it or not, without white space and quotes around it and with nothing else
/// taken off. The parameters before it have other names; what stands behind it
/// does not matter.
pub proof fn law_parameter_is_read(
    fields: Seq<(Seq<char>, Seq<char>)>,
    media: Seq<char>,
    pairs: Seq<(Seq<char>, Seq<char>)>,
    key: Seq<char>,
    before: Seq<char>,
    a: nat,
    text: Seq<char>,
    b: nat,
    after: Seq<char>,
    others: Seq<Seq<char>>,
    name: Seq<char>,
)
    requires
        !media.contains(';'),
        forall|i: int|
            0 <= i < pairs.len() ==> !(#[trigger] pairs[i]).0.contains('=')
                && !pairs[i].0.contains(';') && !pairs[i].1.contains(';') && lower(
                trim(pairs[i].0),
            ) != lower(name),
        !key.contains('=') && !key.contains(';'),
        lower(trim(key)) == lower(name),
        is_blank(before) && !before.contains(';'),
        is_blank(after) && !after.contains(';'),
        !text.contains(';'),
        text.len() > 0 ==> text[0] != '"' && text.last() != '"',
        text.len() > 0 && a == 0 ==> !is_white(text[0]),
        text.len() > 0 && b == 0 ==> !is_white(text.last()),
        forall|i: int| 0 <= i < others.len() ==> !(#[trigger] others[i]).contains(';'),
        field(fields, "content-type"@) == Some(
            joined_by(
                seq![media] + (pairs.map_values(
                    |p: (Seq<char>, Seq<char>)| parameter(p.0, p.1),
                ) + (seq![parameter(key, before + (quotes(a) + text + quotes(b)) + after)]
                    + others)),
                ';',
            ),
        ),
    ensures
        content_param(fields, name) == Some(text),
{
    let write = |p: (Seq<char>, Seq<char>)| parameter(p.0, p.1);
    let value = before + (quotes(a) + text + quotes(b)) + after;
    let more = seq![parameter(key, value)] + others;
    let pieces = pairs.map_values(write) + more;
    assert forall|i: int| 0 <= i < pieces.len() implies !(#[trigger] pieces[i]).contains(';') by {
        if i < pairs.len() {
            assert(pieces[i] == parameter(pairs[i].0, pairs[i].1));
            lemma_contains_none(pairs[i].0, '=', pairs[i].1, ';');
        } else if i == pairs.len() {
            assert(pieces[i] == parameter(key, value));
            assert(!value.contains(';')) by {
                if value.contains(';') {
                    let k = choose|k: int| 0 <= k < value.len() && value[k] == ';';
                    let m = before.len() as int;
                    let t = m + a;
                    let u = t + text.len();
                    if k < m {
                        assert(before[k] == ';');
                    } else if k < t {
                        assert(value[k] == '"');
                    } else if k < u {
                        assert(text[k - t] == ';');
                    } else if k < u + b {
                        assert(value[k] == '"');
                    } else {
                        assert(after[k - u - b] == ';');
                    }
                }
            }
            lemma_contains_none(key, '=', value, ';');
        } else {
            assert(pieces[i] == others[i - pairs.len() - 1]);
        }
    }
    lemma_pieces_of(field(fields, "content-type"@)->0, media, pieces);
    lemma_param_behind(pairs, more, name);
    lemma_split_once_at(key, '=', value);
    assert(more[0] == parameter(key, value));
    lemma_unquoted(before, a, text, b, after);
}

proof fn lemma_contains_none(a: Seq<char>, c: char, b: Seq<char>, d: char)
    requires
        !a.contains(d),
        !b.contains(d),
        c != d,
    ensures
        !(a + seq![c] + b).contains(d),
{
    let s = a + seq![c] + b;
    if s.contains(d) {
        let k = choose|k: int| 0 <= k < s.len() && s[k] == d;
        if k < a.len() {
            assert(a[k] == d);
        } else if k > a.len() {
            assert(b[k - a.len() - 1] == d);
        }
    }
}

/// A content type without a parameter of that name gives none, and neither does
/// one in which a piece without an equals sign stands before it. Without a
/// content type there is no parameter.
pub proof fn law_missing_parameter_is_none(
    fields: Seq<(Seq<char>, Seq<char>)>,
    media: Seq<char>,
    pairs: Seq<(Seq<char>, Seq<char>)>,
    others: Seq<Seq<char>>,
    name: Seq<char>,
)
    requires
        field(fields, "content-type"@) is Some ==> {
            &&& !media.contains(';')
            &&& forall|i: int|
                0 <= i < pairs.len() ==> !(#[trigger] pairs[i]).0.contains('=')
                    && !pairs[i].0.contains(';') && !pairs[i].1.contains(';') && lower(
                    trim(pairs[i].0),
                ) != lower(name)
            &&& forall|i: int| 0 <= i < others.len() ==> !(#[trigger] others[i]).contains(';')
            &&& others.len() > 0 ==> !others[0].contains('=')
            &&& field(fields, "content-type"@) == Some(
                joined_by(
                    seq![media] + (pairs.map_values(
                        |p: (Seq<char>, Seq<char>)| parameter(p.0, p.1),
                    ) + others),
                    ';',
                ),
            )
        },
    ensures
        content_param(fields, name) is None,
{
    if field(fields, "content-type"@) is Some {
        let write = |p: (Seq<char>, Seq<char>)| parameter(p.0, p.1);
        let pieces = pairs.map_values(write) + others;
        assert forall|i: int| 0 <= i < pieces.len() implies !(#[trigger] pieces[i]).contains(
            ';',
        ) by {
            if i < pairs.len() {
                assert(pieces[i] == parameter(pairs[i].0, pairs[i].1));
                lemma_contains_none(pairs[i].0, '=', pairs[i].1, ';');
            } else {
                assert(pieces[i] == others[i - pairs.len()]);
            }
        }
        lemma_pieces_of(field(fields, "content-type"@)->0, media, pieces);
        lemma_param_behind(pairs, others, name);
        if others.len() > 0 {
            lemma_char_absent(others[0], '=');
        }
    }
}

/// A content type written `media; name="text"` has exactly `text` as its
/// parameter `name`, character for character; so has one without the quotes,
/// where `text` has no white space at its ends.
pub proof fn law_quoted_parameter_comes_back(
    fields: Seq<(Seq<char>, Seq<char>)>,
    media: Seq<char>,
    name: Seq<char>,
    text: Seq<char>,
    quoted: bool,
)
    requires
        !media.contains(';'),
        !name.contains(';') && !name.contains('='),
        forall|i: int| 0 <= i < name.len() ==> !is_white(#[trigger] name[i]),
        !text.contains(';') && !text.contains('"'),
        !quoted && text.len() > 0 ==> !is_white(text[0]) && !is_white(text.last()),
        field(fields, "content-type"@) == Some(
            if quoted {
                media + seq![';', ' '] + name + seq!['=', '"'] + text + seq!['"']
            } else {
                media + seq![';', ' '] + name + seq!['='] + text
            },
        ),
    ensures
        content_param(fields, name) == Some(text),
{
    let none = Seq::<char>::empty();
    let pairs = Seq::<(Seq<char>, Seq<char>)>::empty();
    let others = Seq::<Seq<char>>::empty();
    let key = seq![' '] + name;
    let n: nat = if quoted {
        1
    } else {
        0
    };
    let value = none + (quotes(n) + text + quotes(n)) + none;
    let write = |p: (Seq<char>, Seq<char>)| parameter(p.0, p.1);
    let all = seq![media] + (pairs.map_values(write) + (seq![parameter(key, value)] + others));
    assert(all =~= seq![media, parameter(key, value)]);
    assert(all.drop_first() =~= seq![parameter(key, value)]);
    assert(joined_by(all.drop_first(), ';') == parameter(key, value));
    assert(joined_by(all, ';') =~= field(fields, "content-type"@)->0);
    assert forall|c: char| c != ' ' && key.contains(c) implies #[trigger] name.contains(c) by {
        let k = choose|k: int| 0 <= k < key.len() && key[k] == c;
        assert(name[k - 1] == c);
    }
    assert(name.contains(';') || !key.contains(';'));
    assert(name.contains('=') || !key.contains('='));
    let space = seq![' '];
    assert(is_blank(space));
    law_trim_takes_white_space(space, name, none);
    assert(space + name + none =~= key);
    if text.len() > 0 {
        assert(text.contains(text[0]));
        assert(text.contains(text.last()));
    }
    law_parameter_is_read(fields, media, pairs, key, none, n, text, n, none, others, name);
}

/// The header block ends before the first line, at the start or behind a line
/// feed, that holds nothing but its line feed or its carriage return and line
/// feed; the body is all that stands behind that line. A message without such a
/// line is all header block.
pub proof fn law_header_block_ends_at_empty_line(s: Seq<u8>, i: int)
    requires
        0 <= i <= s.len(),
        forall|j: int|
            #![trigger s[j]]
            0 <= j < i ==> !((j == 0 || s[j - 1] == LF) && (s[j] == LF || (s[j] == CR && j + 1
                < s.len() && s[j + 1] == LF))),
        i < s.len() ==> i == 0 || s[i - 1] == LF,
        i < s.len() ==> s[i] == LF || (s[i] == CR && i + 1 < s.len() && s[i + 1] == LF),
    ensures
        i == s.len() ==> header_block(s) == s && body_of(s).len() == 0,
        i < s.len() ==> header_block(s) == s.take(
            if i == 0 {
                0
            } else {
                i - 1
            },
        ),
        i < s.len() ==> body_of(s) == s.skip(
            if s[i] == LF {
                i + 1
            } else {
                i + 2
            },
        ),
{
    assert forall|j: int| 0 <= j < i implies !#[trigger] empty_line_at(s, j) by {
        assert(s[j] == s[j]);
    }
    if i < s.len() {
        assert(headers_end_at(s, i));
        lemma_headers_end(s, i);
        assert(header_block(s) =~= s.take(
            if i == 0 {
                0
            } else {
                i - 1
            },
        ));
    } else if exists|k: int| headers_end_at(s, k) {
        let k = choose|k: int| headers_end_at(s, k);
        assert(!empty_line_at(s, k));
    }
}

/// The fields of a message, and of a part, are those of the lines of its header
/// block, read as UTF-8; what is valid UTF-8 is read as what it encodes.
pub proof fn law_fields_come_from_the_header_block(bytes: Seq<u8>, text: Seq<char>)
    ensures
        message_fields(bytes) == fields_of(lines(utf8_text(header_block(bytes)))),
        part_fields(bytes) == fields_of(lines(utf8_text(header_block(bytes)))),
        header_block(bytes) == encode_utf8(text) ==> message_fields(bytes) == fields_of(
            lines(text),
        ),
        header_block(bytes) == encode_utf8(text) ==> part_fields(bytes) == fields_of(lines(text)),
        utf8_text(encode_utf8(text)) == text,
{
    encode_utf8_valid_utf8(text);
    encode_utf8_decode_utf8(text);
}

} // verus!
