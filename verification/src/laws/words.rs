//! What encoded words and charsets give, told by what was written.

use vstd::prelude::*;
use vstd::utf8::{
    encode_utf8, encode_utf8_decode_utf8, encode_utf8_valid_utf8, is_ascii_chars_encode_utf8,
    valid_utf8,
};

use crate::charset::{is_utf8_label, label_decoded, label_known, text_in, utf8_bom, utf8_text};
use crate::laws::text::{law_lower_changes_capitals, lemma_char_absent};
use crate::laws::{
    ascii_text, law_utf8_comes_back, law_words_are_read_from_the_left, lemma_ascii_text,
    lemma_split_once_at, lemma_word_decodes, lemma_written_word, word,
};
use crate::text::{find, lower, starts_with};
use crate::transfer::{
    base64_decoded, law_qp_literal, law_qp_pieces_come_back, qp_decoded, qp_meant, qp_piece_valid,
    qp_written, QpPiece, EQUALS,
};
use crate::words::{underscores_spaced, word_at, words_decoded};

verus! {

/// In a word of the `Q` encoding every underscore stands for a space, however
/// many there are, and every other character that begins no escape for itself,
/// each in its place.
pub proof fn law_every_underscore_is_a_space(payload: Seq<char>, i: int)
    requires
        forall|k: int| 0 <= k < payload.len() ==> '\0' <= #[trigger] payload[k] <= '\u{7f}',
        !payload.contains('?'),
        !payload.contains('='),
        0 <= i < payload.len(),
    ensures
        words_decoded(word('Q', payload)).len() == payload.len(),
        words_decoded(word('q', payload)).len() == payload.len(),
        payload[i] == '_' ==> words_decoded(word('Q', payload))[i] == ' ',
        payload[i] == '_' ==> words_decoded(word('q', payload))[i] == ' ',
        payload[i] != '_' ==> words_decoded(word('Q', payload))[i] == payload[i],
        payload[i] != '_' ==> words_decoded(word('q', payload))[i] == payload[i],
{
    let text = Seq::new(
        payload.len(),
        |k: int|
            if payload[k] == '_' {
                ' '
            } else {
                payload[k]
            },
    );
    assert(underscores_spaced(payload) =~= text);
    assert forall|k: int| 0 <= k < text.len() implies '\0' <= #[trigger] text[k] <= '\u{7f}'
        && text[k] != '=' by {
        assert('\0' <= payload[k] <= '\u{7f}');
        assert(payload.contains(payload[k]));
    }
    is_ascii_chars_encode_utf8(text);
    let bytes = encode_utf8(text);
    assert(!bytes.contains(EQUALS)) by {
        if bytes.contains(EQUALS) {
            let k = choose|k: int| 0 <= k < bytes.len() && bytes[k] == EQUALS;
            assert(text[k] as u8 == bytes[k]);
        }
    }
    law_qp_literal(bytes);
    lemma_letters();
    assert('\0' <= text[0] <= '\u{7f}');
    lemma_word_decodes('Q', payload, text);
    lemma_word_decodes('q', payload, text);
}

/// The letters of the encodings are different.
proof fn lemma_letters()
    ensures
        seq!['Q'] != seq!['B'] && seq!['Q'] != seq!['b'],
        seq!['q'] != seq!['B'] && seq!['q'] != seq!['b'],
{
    assert(seq!['Q'][0] == 'Q' && seq!['B'][0] == 'B' && seq!['b'][0] == 'b');
    assert(seq!['q'][0] == 'q');
}

/// A text that is written in the `Q` encoding as any mix of literal characters,
/// escapes in either case and underscores for its spaces comes back. An
/// underscore of the text itself is written as an escape.
pub proof fn law_q_word_comes_back(pieces: Seq<QpPiece>, text: Seq<char>)
    requires
        forall|i: int| 0 <= i < pieces.len() ==> qp_piece_valid(#[trigger] pieces[i]),
        forall|i: int|
            0 <= i < qp_written(pieces).len() ==> {
                let b = #[trigger] qp_written(pieces)[i];
                b < 128 && b != '?' as u8 && b != '_' as u8
            },
        qp_meant(pieces) == encode_utf8(text),
        text.len() > 0 ==> text[0] != '\u{feff}',
    ensures
        ({
            let payload = ascii_text(qp_written(pieces)).map_values(
                |c: char|
                    if c == ' ' {
                        '_'
                    } else {
                        c
                    },
            );
            &&& words_decoded(word('Q', payload)) == text
            &&& words_decoded(word('q', payload)) == text
        }),
{
    let bytes = qp_written(pieces);
    let plain = ascii_text(bytes);
    let payload = plain.map_values(
        |c: char|
            if c == ' ' {
                '_'
            } else {
                c
            },
    );
    assert forall|k: int| 0 <= k < plain.len() implies #[trigger] plain[k] != '?' && plain[k]
        != '_' by {
        assert(bytes[k] < 128);
    }
    assert(underscores_spaced(payload) =~= plain);
    assert(!payload.contains('?')) by {
        if payload.contains('?') {
            let k = choose|k: int| 0 <= k < payload.len() && payload[k] == '?';
            assert(plain[k] == '?');
        }
    }
    lemma_ascii_text(bytes);
    law_qp_pieces_come_back(pieces);
    lemma_letters();
    lemma_word_decodes('Q', payload, text);
    lemma_word_decodes('q', payload, text);
}

/// A word whose encoding is neither `B` nor `Q`, or whose base64 is malformed,
/// is none: it stays as it is written, and the reading goes on behind its
/// opening.
pub proof fn law_undecodable_word_stays(
    before: Seq<char>,
    charset: Seq<char>,
    encoding: Seq<char>,
    payload: Seq<char>,
    behind: Seq<char>,
)
    requires
        find(before, seq!['=', '?']) is None,
        !charset.contains('?'),
        !encoding.contains('?'),
        find(payload, seq!['?', '=']) is None,
        encoding != seq!['Q'] && encoding != seq!['q'],
        encoding == seq!['B'] || encoding == seq!['b'] ==> base64_decoded(
            encode_utf8(payload),
        ) is None,
    ensures
        ({
            let after = charset + seq!['?'] + (encoding + seq!['?'] + (payload + seq!['?', '=']
                + behind));
            words_decoded(before + seq!['=', '?'] + after) == before + seq!['=', '?']
                + words_decoded(after)
        }),
{
    let after = charset + seq!['?'] + (encoding + seq!['?'] + (payload + seq!['?', '='] + behind));
    lemma_written_word(charset, encoding, payload, behind);
    law_words_are_read_from_the_left(before, after);
}

/// An opening without its two question marks and its closing behind it begins
/// no word: it stays, and the reading goes on behind it.
pub proof fn law_unfinished_word_stays(
    before: Seq<char>,
    charset: Seq<char>,
    encoding: Seq<char>,
    payload: Seq<char>,
    marks: int,
)
    requires
        find(before, seq!['=', '?']) is None,
        0 <= marks <= 2,
        !charset.contains('?'),
        !encoding.contains('?'),
        find(payload, seq!['?', '=']) is None,
    ensures
        ({
            let after = if marks == 0 {
                charset
            } else if marks == 1 {
                charset + seq!['?'] + encoding
            } else {
                charset + seq!['?'] + (encoding + seq!['?'] + payload)
            };
            words_decoded(before + seq!['=', '?'] + after) == before + seq!['=', '?']
                + words_decoded(after)
        }),
{
    let rest = encoding + seq!['?'] + payload;
    let one = charset + seq!['?'] + encoding;
    let two = charset + seq!['?'] + rest;
    let n = charset.len() as int;
    let m = encoding.len() as int;
    lemma_char_absent(charset, '?');
    lemma_char_absent(encoding, '?');
    lemma_split_once_at(charset, '?', encoding);
    lemma_split_once_at(charset, '?', rest);
    lemma_split_once_at(encoding, '?', payload);
    assert(one.skip(n + 1) =~= encoding);
    assert(two.skip(n + 1) =~= rest);
    assert(two.skip(n + m + 2) =~= payload);
    assert(word_at(charset) is None);
    assert(word_at(one) is None);
    assert(word_at(two) is None);
    if marks == 0 {
        law_words_are_read_from_the_left(before, charset);
    } else if marks == 1 {
        law_words_are_read_from_the_left(before, one);
    } else {
        law_words_are_read_from_the_left(before, two);
    }
}

/// Whether a charset is called `utf-8`, in any case.
pub open spec fn names_utf8(charset: Seq<char>) -> bool {
    lower(charset) == seq!['u', 't', 'f', '-', '8']
}

/// A name in any case that means `utf-8` is a label of UTF-8.
pub(crate) proof fn lemma_names_utf8(charset: Seq<char>)
    requires
        names_utf8(charset),
    ensures
        is_utf8_label(encode_utf8(charset)),
{
    let utf8 = seq!['u', 't', 'f', '-', '8'];
    assert(charset.len() == 5) by {
        assert(lower(charset).len() == utf8.len());
    }
    assert forall|k: int| 0 <= k < 5 implies lower(charset)[k] == utf8[k] && '\0'
        <= #[trigger] charset[k] <= '\u{7f}' by {
        law_lower_changes_capitals(charset, k);
    }
    law_lower_changes_capitals(charset, 0);
    law_lower_changes_capitals(charset, 1);
    law_lower_changes_capitals(charset, 2);
    law_lower_changes_capitals(charset, 3);
    law_lower_changes_capitals(charset, 4);
    is_ascii_chars_encode_utf8(charset);
    let label = encode_utf8(charset);
    assert(charset[0] as u8 == label[0]);
    assert(charset[1] as u8 == label[1]);
    assert(charset[2] as u8 == label[2]);
    assert(charset[3] as u8 == label[3]);
    assert(charset[4] as u8 == label[4]);
}

/// Text in UTF-8 comes back under the name `utf-8` in any case, under a name
/// that no charset has, and behind a byte order mark, which is no part of it,
/// under any name at all.
pub proof fn law_utf8_is_read(charset: Seq<char>, text: Seq<char>)
    requires
        text.len() > 0 ==> text[0] != '\u{feff}',
    ensures
        names_utf8(charset) ==> text_in(charset, encode_utf8(text)) == text,
        !label_known(encode_utf8(charset)) ==> text_in(charset, encode_utf8(text)) == text,
        text_in(charset, utf8_bom() + encode_utf8(text)) == text,
        utf8_text(encode_utf8(text)) == text,
{
    let bytes = encode_utf8(text);
    encode_utf8_valid_utf8(text);
    encode_utf8_decode_utf8(text);
    law_utf8_comes_back(text);
    crate::laws::lemma_no_mark(text);
    if names_utf8(charset) {
        lemma_names_utf8(charset);
    }
    let marked = utf8_bom() + bytes;
    assert(marked.skip(3) =~= bytes);
    assert forall|k: int| 0 <= k < utf8_bom().len() implies #[trigger] utf8_bom()[k] == marked[0
        + k] by {}
    assert(starts_with(marked, utf8_bom()));
}

/// Under the name of another charset, bytes without a byte order mark in UTF-8
/// are decoded as that charset says. A name that no charset has counts as
/// `utf-8`. Damaged UTF-8 is decoded under its name, with the damage and all.
pub proof fn law_charset_decides(charset: Seq<char>, bytes: Seq<u8>)
    ensures
        label_known(encode_utf8(charset)) && !names_utf8(charset) && !starts_with(
            bytes,
            seq![0xefu8, 0xbbu8, 0xbfu8],
        ) ==> text_in(charset, bytes) == label_decoded(encode_utf8(charset), bytes),
        !label_known(encode_utf8(charset)) && !names_utf8(charset) ==> text_in(charset, bytes)
            == text_in("utf-8"@, bytes),
        (label_known(encode_utf8(charset)) || names_utf8(charset)) && !(valid_utf8(bytes)
            && names_utf8(charset)) && !(starts_with(bytes, seq![0xefu8, 0xbbu8, 0xbfu8])
            && valid_utf8(bytes.skip(3))) ==> text_in(charset, bytes) == label_decoded(
            encode_utf8(charset),
            bytes,
        ),
{
    reveal_strlit("utf-8");
    let utf8 = "utf-8"@;
    assert(lower(utf8) =~= seq!['u', 't', 'f', '-', '8']);
    lemma_names_utf8(utf8);
    if is_utf8_label(encode_utf8(charset)) {
        lemma_utf8_label_names(charset);
    }
    if names_utf8(charset) {
        lemma_names_utf8(charset);
    }
    assert(utf8 =~= seq!['u', 't', 'f', '-', '8']);
    lemma_utf8_label_is(utf8);
}

/// The label of UTF-8 is the name `utf-8` in bytes.
proof fn lemma_utf8_label_is(utf8: Seq<char>)
    requires
        utf8 == seq!['u', 't', 'f', '-', '8'],
    ensures
        encode_utf8(utf8) == crate::charset::utf8_label(),
{
    is_ascii_chars_encode_utf8(utf8);
    let label = encode_utf8(utf8);
    assert(utf8[0] as u8 == label[0]);
    assert(utf8[1] as u8 == label[1]);
    assert(utf8[2] as u8 == label[2]);
    assert(utf8[3] as u8 == label[3]);
    assert(utf8[4] as u8 == label[4]);
    assert(label =~= crate::charset::utf8_label());
}

/// Only names that mean `utf-8` are labels of UTF-8.
proof fn lemma_utf8_label_names(charset: Seq<char>)
    requires
        is_utf8_label(encode_utf8(charset)),
    ensures
        names_utf8(charset),
{
    let label = encode_utf8(charset);
    let ascii = ascii_text(label);
    lemma_ascii_text(label);
    encode_utf8_decode_utf8(ascii);
    encode_utf8_decode_utf8(charset);
    assert(charset == ascii);
    assert(lower(charset) =~= seq!['u', 't', 'f', '-', '8']);
}

/// A word stands for its bytes in its charset: those of its payload in base64
/// under `B`, those of its payload in quoted-printable, with a space for every
/// underscore, under `Q`, either letter in either case. What stands before it is
/// kept, and the reading goes on behind it.
pub proof fn law_word_is_decoded(
    before: Seq<char>,
    charset: Seq<char>,
    encoding: Seq<char>,
    payload: Seq<char>,
    spaced: Seq<char>,
    bytes: Seq<u8>,
    behind: Seq<char>,
)
    requires
        find(before, seq!['=', '?']) is None,
        !charset.contains('?'),
        find(payload, seq!['?', '=']) is None,
        spaced.len() == payload.len(),
        forall|k: int|
            0 <= k < payload.len() ==> #[trigger] spaced[k] == if payload[k] == '_' {
                ' '
            } else {
                payload[k]
            },
        ({
            ||| (encoding == seq!['B'] || encoding == seq!['b']) && base64_decoded(
                encode_utf8(payload),
            ) == Some(bytes)
            ||| (encoding == seq!['Q'] || encoding == seq!['q']) && qp_decoded(encode_utf8(spaced))
                == bytes
        }),
    ensures
        words_decoded(
            before + seq!['=', '?'] + (charset + seq!['?'] + (encoding + seq!['?'] + (payload
                + seq!['?', '='] + behind))),
        ) == before + text_in(charset, bytes) + words_decoded(behind),
{
    lemma_letters();
    assert(underscores_spaced(payload) =~= spaced);
    assert(!encoding.contains('?')) by {
        if encoding.contains('?') {
            let k = choose|k: int| 0 <= k < encoding.len() && encoding[k] == '?';
            assert(k == 0);
            assert(seq!['B'][0] == 'B' && seq!['b'][0] == 'b');
            assert(seq!['Q'][0] == 'Q' && seq!['q'][0] == 'q');
        }
    }
    crate::laws::law_word_gives_way_to_its_text(before, charset, encoding, payload, bytes, behind);
}

} // verus!
