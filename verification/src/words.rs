//! Encoded words in header fields: `=?charset?B?text?=` and `=?charset?Q?text?=`.

use vstd::prelude::*;
use vstd::slice::slice_subrange;
use vstd::utf8::{encode_scalar, encode_utf8};

use crate::charset::{decode_in, text_in};
use crate::text::{chars_of, find, lemma_find_some, position, string_of};
use crate::transfer::{base64_decoded, decode_base64, decode_qp, qp_decoded};

verus! {

/// The payload of a word in the `Q` encoding, in which an underscore stands for
/// a space.
pub open spec fn underscores_spaced(payload: Seq<char>) -> Seq<char> {
    payload.map_values(|c: char| if c == '_' { ' ' } else { c })
}

/// The bytes of a word: `B` is base64, `Q` is quoted-printable, any other
/// encoding is unknown.
pub open spec fn word_bytes(encoding: Seq<char>, payload: Seq<char>) -> Option<Seq<u8>> {
    if encoding == seq!['B'] || encoding == seq!['b'] {
        base64_decoded(encode_utf8(payload))
    } else if encoding == seq!['Q'] || encoding == seq!['q'] {
        Some(qp_decoded(encode_utf8(underscores_spaced(payload))))
    } else {
        None
    }
}

/// Where the parts of a word stand in the text behind its opening `=?`: the
/// charset, the encoding and the payload, and how many characters the word
/// takes. The closing `?=` is looked for behind the second question mark only,
/// since a payload may begin with an equals sign.
pub open spec fn word_parts(s: Seq<char>) -> Option<(Seq<char>, Seq<char>, Seq<char>, int)> {
    match find(s, seq!['?']) {
        Some(i) => match find(s.skip(i + 1), seq!['?']) {
            Some(j) => match find(s.skip(i + j + 2), seq!['?', '=']) {
                Some(k) => Some(
                    (
                        s.take(i),
                        s.skip(i + 1).take(j),
                        s.skip(i + j + 2).take(k),
                        i + j + k + 4,
                    ),
                ),
                None => None,
            },
            None => None,
        },
        None => None,
    }
}

/// The word that stands behind an opening `=?`: its text, and how many
/// characters it takes.
pub open spec fn word_at(s: Seq<char>) -> Option<(Seq<char>, int)> {
    match word_parts(s) {
        Some((charset, encoding, payload, taken)) => match word_bytes(encoding, payload) {
            Some(bytes) => Some((text_in(charset, bytes), taken)),
            None => None,
        },
        None => None,
    }
}

/// A word takes no more than there is.
pub proof fn lemma_word_at_taken(s: Seq<char>)
    ensures
        word_at(s) matches Some((text, taken)) ==> 4 <= taken <= s.len(),
{
    lemma_find_some(s, seq!['?']);
    if let Some(i) = find(s, seq!['?']) {
        lemma_find_some(s.skip(i + 1), seq!['?']);
        if let Some(j) = find(s.skip(i + 1), seq!['?']) {
            lemma_find_some(s.skip(i + j + 2), seq!['?', '=']);
        }
    }
}

/// `s` with its encoded words replaced by their text. An opening `=?` that
/// begins no word stands for itself.
pub open spec fn words_decoded(s: Seq<char>) -> Seq<char>
    decreases s.len(),
{
    proof {
        lemma_find_some(s, seq!['=', '?']);
        if let Some(i) = find(s, seq!['=', '?']) {
            lemma_word_at_taken(s.skip(i + 2));
        }
    }
    match find(s, seq!['=', '?']) {
        Some(i) => match word_at(s.skip(i + 2)) {
            Some((text, taken)) => s.take(i) + text + words_decoded(s.skip(i + 2).skip(taken)),
            None => s.take(i) + seq!['=', '?'] + words_decoded(s.skip(i + 2)),
        },
        None => s,
    }
}

/// UTF-8 takes one to four bytes for a character.
pub proof fn lemma_utf8_len(s: Seq<char>)
    ensures
        s.len() <= encode_utf8(s).len(),
        encode_utf8(s).len() <= 4 * s.len(),
    decreases s.len(),
{
    if s.len() > 0 {
        assert(1 <= encode_scalar(s[0] as u32).len() <= 4);
        lemma_utf8_len(s.drop_first());
    }
}

/// The UTF-8 of a text is that of its pieces, one behind the other.
pub proof fn lemma_utf8_concat(a: Seq<char>, b: Seq<char>)
    ensures
        encode_utf8(a + b) == encode_utf8(a) + encode_utf8(b),
    decreases a.len(),
{
    if a.len() == 0 {
        assert(a + b =~= b);
        assert(encode_utf8(a) + encode_utf8(b) =~= encode_utf8(b));
    } else {
        lemma_utf8_concat(a.drop_first(), b);
        assert((a + b)[0] == a[0]);
        assert((a + b).drop_first() =~= a.drop_first() + b);
        assert(encode_utf8(a + b) =~= encode_utf8(a) + encode_utf8(b));
    }
}

/// The UTF-8 of a text is that of what stands before `n` and of what stands
/// from there.
proof fn lemma_utf8_cut(s: Seq<char>, n: int)
    requires
        0 <= n <= s.len(),
    ensures
        encode_utf8(s) == encode_utf8(s.take(n)) + encode_utf8(s.skip(n)),
{
    lemma_utf8_concat(s.take(n), s.skip(n));
    assert(s.take(n) + s.skip(n) =~= s);
}

/// An underscore and a space take one byte each.
proof fn lemma_spaced_len(payload: Seq<char>)
    ensures
        encode_utf8(underscores_spaced(payload)).len() == encode_utf8(payload).len(),
    decreases payload.len(),
{
    if payload.len() > 0 {
        let rest = payload.drop_first();
        lemma_spaced_len(rest);
        assert(underscores_spaced(payload).drop_first() =~= underscores_spaced(rest));
        assert(encode_scalar('_' as u32).len() == 1);
        assert(encode_scalar(' ' as u32).len() == 1);
    }
}

/// `payload` with its underscores turned into spaces.
fn spaced(payload: &[char]) -> (r: Vec<char>)
    ensures
        r@ == underscores_spaced(payload@),
{
    let mut r: Vec<char> = Vec::new();
    let mut i: usize = 0;
    while i < payload.len()
        invariant
            i <= payload@.len(),
            r@ == underscores_spaced(payload@.take(i as int)),
        decreases payload@.len() - i,
    {
        let c = payload[i];
        let d: char = if c == '_' {
            ' '
        } else {
            c
        };
        r.push(d);
        i = i + 1;
        assert(r@ =~= underscores_spaced(payload@.take(i as int)));
    }
    assert(payload@.take(i as int) =~= payload@);
    r
}

/// Decodes the payload of a word.
pub fn decode_payload(encoding: &[char], payload: &[char]) -> (r: Option<Vec<u8>>)
    ensures
        match r {
            Some(bytes) => word_bytes(encoding@, payload@) == Some(bytes@) && bytes@.len()
                <= encode_utf8(payload@).len(),
            None => word_bytes(encoding@, payload@) is None,
        },
{
    if encoding.len() != 1 {
        return None;
    }
    let e = encoding[0];
    assert(encoding@ =~= seq![e]);
    assert(seq![e][0] == e && seq!['B'][0] == 'B' && seq!['b'][0] == 'b');
    assert(seq!['Q'][0] == 'Q' && seq!['q'][0] == 'q');
    if e == 'B' || e == 'b' {
        let text = string_of(payload);
        decode_base64(text.as_str().as_bytes())
    } else if e == 'Q' || e == 'q' {
        let text = string_of(spaced(payload).as_slice());
        proof {
            lemma_spaced_len(payload@);
        }
        Some(decode_qp(text.as_str().as_bytes()))
    } else {
        None
    }
}

/// Decodes the word that stands behind an opening `=?`. The result is its text
/// and the number of characters that it takes, the closing `?=` included. The
/// bound on the bytes of the text is that of [`decode_in`].
pub fn take_word(after: &[char]) -> (r: Option<(String, usize)>)
    requires
        encode_utf8(after@).len() <= usize::MAX / 16,
    ensures
        match r {
            Some((text, taken)) => word_at(after@) == Some((text@, taken as int)) && taken
                <= after@.len(),
            None => word_at(after@) is None,
        },
{
    assert(['?']@ =~= seq!['?']);
    assert(['?', '=']@ =~= seq!['?', '=']);
    proof {
        lemma_utf8_len(after@);
    }
    let i: usize = match position(after, &['?']) {
        Some(i) => i,
        None => {
            return None;
        },
    };
    let behind = slice_subrange(after, i + 1, after.len());
    assert(behind@ =~= after@.skip(i + 1));
    let j: usize = match position(behind, &['?']) {
        Some(j) => j,
        None => {
            return None;
        },
    };
    let tail = slice_subrange(behind, j + 1, behind.len());
    assert(tail@ =~= after@.skip(i + j + 2));
    let k: usize = match position(tail, &['?', '=']) {
        Some(k) => k,
        None => {
            return None;
        },
    };
    let charset = slice_subrange(after, 0, i);
    let encoding = slice_subrange(behind, 0, j);
    let payload = slice_subrange(tail, 0, k);
    assert(charset@ =~= after@.take(i as int));
    assert(encoding@ =~= after@.skip(i + 1).take(j as int));
    assert(payload@ =~= after@.skip(i + j + 2).take(k as int));
    proof {
        lemma_utf8_cut(after@, i + j + 2);
        lemma_utf8_cut(tail@, k as int);
    }
    match decode_payload(encoding, payload) {
        Some(bytes) => {
            let text = decode_in(string_of(charset).as_str(), bytes.as_slice());
            Some((text, i + j + k + 4))
        },
        None => None,
    }
}

/// Decodes a single `charset?encoding?payload?=`, which stands behind an opening
/// `=?`. The result is its text and the number of bytes that it takes of
/// `after`, the closing `?=` included. These bytes are whole characters: those
/// of the word, while the other bytes are those of what follows it. The bound
/// on the bytes of the text is that of [`decode_in`].
pub fn decode_one_word(after: &str) -> (r: Option<(String, usize)>)
    requires
        encode_utf8(after@).len() <= usize::MAX / 16,
    ensures
        match r {
            Some((text, consumed)) => word_at(after@) matches Some((t, taken)) && {
                &&& text@ == t
                &&& consumed == encode_utf8(after@.take(taken)).len()
                &&& consumed <= encode_utf8(after@).len()
                &&& encode_utf8(after@).take(consumed as int) == encode_utf8(after@.take(taken))
                &&& encode_utf8(after@).skip(consumed as int) == encode_utf8(after@.skip(taken))
            },
            None => word_at(after@) is None,
        },
{
    let chars = chars_of(after);
    match take_word(chars.as_slice()) {
        Some((text, taken)) => {
            let word = slice_subrange(chars.as_slice(), 0, taken);
            assert(word@ =~= after@.take(taken as int));
            proof {
                lemma_utf8_cut(after@, taken as int);
                let bytes = encode_utf8(after@);
                let n = encode_utf8(word@).len() as int;
                assert(bytes.take(n) =~= encode_utf8(after@.take(taken as int)));
                assert(bytes.skip(n) =~= encode_utf8(after@.skip(taken as int)));
            }
            Some((text, string_of(word).as_str().as_bytes().len()))
        },
        None => None,
    }
}

/// Replaces the encoded words of a header field by their text. The bound on the
/// bytes of the field is that of [`decode_in`].
pub fn decode_words(input: &str) -> (r: String)
    requires
        encode_utf8(input@).len() <= usize::MAX / 16,
    ensures
        r@ == words_decoded(input@),
{
    let chars = chars_of(input);
    let mut rest: &[char] = chars.as_slice();
    let mut out = String::new();
    assert(['=', '?']@ =~= seq!['=', '?']);
    assert(out@ + words_decoded(rest@) =~= words_decoded(input@));
    loop
        invariant
            ['=', '?']@ == seq!['=', '?'],
            encode_utf8(rest@).len() <= usize::MAX / 16,
            out@ + words_decoded(rest@) == words_decoded(input@),
        decreases rest@.len(),
    {
        let ghost before = out@;
        let ghost whole = rest@;
        proof {
            lemma_utf8_len(whole);
        }
        match position(rest, &['=', '?']) {
            Some(i) => {
                let head = slice_subrange(rest, 0, i);
                assert(head@ =~= whole.take(i as int));
                out.append(string_of(head).as_str());
                let after = slice_subrange(rest, i + 2, rest.len());
                assert(after@ =~= whole.skip(i + 2));
                proof {
                    lemma_utf8_cut(whole, i + 2);
                }
                match take_word(after) {
                    Some((text, taken)) => {
                        out.append(text.as_str());
                        let next = slice_subrange(after, taken, after.len());
                        assert(next@ =~= after@.skip(taken as int));
                        proof {
                            lemma_word_at_taken(after@);
                            lemma_utf8_cut(after@, taken as int);
                        }
                        rest = next;
                        assert(out@ + words_decoded(rest@) =~= before + (whole.take(i as int)
                            + text@ + words_decoded(rest@)));
                    },
                    None => {
                        out.push('=');
                        out.push('?');
                        rest = after;
                        assert(out@ + words_decoded(rest@) =~= before + (whole.take(i as int)
                            + seq!['=', '?'] + words_decoded(rest@)));
                    },
                }
            },
            None => {
                out.append(string_of(rest).as_str());
                return out;
            },
        }
    }
}

} // verus!
