//! Content transfer encodings: quoted-printable and base64.

use vstd::prelude::*;

verus! {

/// The line feed.
pub const LF: u8 = 0x0a;

/// The carriage return.
pub const CR: u8 = 0x0d;

/// The equals sign.
pub const EQUALS: u8 = 0x3d;

/// The value of a hexadecimal digit.
pub open spec fn hex_value(b: u8) -> Option<u8> {
    if ('0' as u8) <= b <= ('9' as u8) {
        Some((b - '0' as u8) as u8)
    } else if ('A' as u8) <= b <= ('F' as u8) {
        Some((b - 'A' as u8 + 10) as u8)
    } else if ('a' as u8) <= b <= ('f' as u8) {
        Some((b - 'a' as u8 + 10) as u8)
    } else {
        None
    }
}

/// The value of a hexadecimal digit, in either case.
pub fn hex(b: u8) -> (r: Option<u8>)
    ensures
        r == hex_value(b),
{
    if ('0' as u8) <= b && b <= ('9' as u8) {
        Some(b - '0' as u8)
    } else if ('A' as u8) <= b && b <= ('F' as u8) {
        Some(b - 'A' as u8 + 10)
    } else if ('a' as u8) <= b && b <= ('f' as u8) {
        Some(b - 'a' as u8 + 10)
    } else {
        None
    }
}

/// `s` begins with `=` and two hexadecimal digits.
pub open spec fn qp_escape(s: Seq<u8>) -> bool {
    &&& s.len() >= 3
    &&& s[0] == EQUALS
    &&& hex_value(s[1]) is Some
    &&& hex_value(s[2]) is Some
}

/// How many bytes the soft line break at the start of `s` takes, or zero where
/// `s` does not begin with one.
pub open spec fn qp_soft_break(s: Seq<u8>) -> int {
    if s.len() >= 2 && s[0] == EQUALS && s[1] == LF {
        2
    } else if s.len() >= 3 && s[0] == EQUALS && s[1] == CR && s[2] == LF {
        3
    } else {
        0
    }
}

/// What `s` stands for in quoted-printable: escapes give their byte, soft line
/// breaks give nothing, every other byte gives itself.
pub open spec fn qp_decoded(s: Seq<u8>) -> Seq<u8>
    decreases s.len(),
{
    if s.len() == 0 {
        seq![]
    } else if qp_soft_break(s) > 0 {
        qp_decoded(s.skip(qp_soft_break(s)))
    } else if qp_escape(s) {
        seq![(hex_value(s[1])->0 * 16 + hex_value(s[2])->0) as u8] + qp_decoded(s.skip(3))
    } else {
        seq![s[0]] + qp_decoded(s.skip(1))
    }
}

/// Decodes quoted-printable text. An equals sign that begins neither an escape
/// nor a soft line break stands for itself.
pub fn decode_qp(input: &[u8]) -> (r: Vec<u8>)
    ensures
        r@ == qp_decoded(input@),
        r@.len() <= input@.len(),
{
    let mut out: Vec<u8> = Vec::with_capacity(input.len());
    let mut i: usize = 0;
    assert(input@.skip(0) =~= input@);
    assert(out@ + qp_decoded(input@.skip(0)) =~= qp_decoded(input@));
    while i < input.len()
        invariant
            i <= input@.len(),
            out@.len() <= i,
            out@ + qp_decoded(input@.skip(i as int)) == qp_decoded(input@),
        decreases input@.len() - i,
    {
        let ghost rest = input@.skip(i as int);
        let ghost before = out@;
        let left: usize = input.len() - i;
        if input[i] == EQUALS && left >= 2 && input[i + 1] == LF {
            assert(rest.skip(2) =~= input@.skip(i + 2));
            i = i + 2;
        } else if input[i] == EQUALS && left >= 3 && input[i + 1] == CR && input[i + 2] == LF {
            assert(rest.skip(3) =~= input@.skip(i + 3));
            i = i + 3;
        } else {
            let mut byte: u8 = input[i];
            let mut taken: usize = 1;
            if input[i] == EQUALS && left >= 3 {
                if let (Some(a), Some(b)) = (hex(input[i + 1]), hex(input[i + 2])) {
                    byte = a * 16 + b;
                    taken = 3;
                }
            }
            assert(qp_decoded(rest) == seq![byte] + qp_decoded(rest.skip(taken as int)));
            assert(rest.skip(taken as int) =~= input@.skip(i + taken));
            out.push(byte);
            i = i + taken;
            assert(out@ + qp_decoded(input@.skip(i as int)) =~= before + (seq![byte] + qp_decoded(
                input@.skip(i as int),
            )));
        }
    }
    assert(out@ + qp_decoded(input@.skip(i as int)) =~= out@);
    out
}

/// ASCII white space, which base64 text may hold anywhere without meaning.
pub open spec fn base64_white(b: u8) -> bool {
    b == ' ' as u8 || b == 0x09 || b == LF || b == 0x0c || b == CR
}

/// A byte of base64 text that stands for no bits: white space or the padding
/// sign.
pub open spec fn base64_skipped(b: u8) -> bool {
    base64_white(b) || b == EQUALS
}

/// The six bits that a byte of base64 text stands for.
pub open spec fn base64_value(b: u8) -> Option<u8> {
    if ('A' as u8) <= b <= ('Z' as u8) {
        Some((b - 'A' as u8) as u8)
    } else if ('a' as u8) <= b <= ('z' as u8) {
        Some((b - 'a' as u8 + 26) as u8)
    } else if ('0' as u8) <= b <= ('9' as u8) {
        Some((b - '0' as u8 + 52) as u8)
    } else if b == '+' as u8 {
        Some(62)
    } else if b == '/' as u8 {
        Some(63)
    } else {
        None
    }
}

/// Every byte of `s` is a base64 digit, white space or a padding sign, and no
/// digit stands behind a padding sign.
pub open spec fn base64_valid(s: Seq<u8>) -> bool {
    &&& forall|i: int|
        0 <= i < s.len() ==> base64_skipped(#[trigger] s[i]) || base64_value(s[i]) is Some
    &&& forall|i: int, j: int|
        0 <= i < j < s.len() && #[trigger] s[i] == EQUALS ==> base64_skipped(#[trigger] s[j])
}

/// The values of the digits in `s`, in order.
pub open spec fn base64_digits(s: Seq<u8>) -> Seq<u8> {
    s.filter(|b: u8| !base64_skipped(b)).map_values(|b: u8| base64_value(b)->0)
}

/// The `k`th byte of the bit string that the six-bit values `v` make up.
pub open spec fn sextets_byte(v: Seq<u8>, k: int) -> u8 {
    let q = 4 * (k / 3);
    if k % 3 == 0 {
        (v[q] * 4 + v[q + 1] / 16) as u8
    } else if k % 3 == 1 {
        ((v[q + 1] % 16) * 16 + v[q + 2] / 4) as u8
    } else {
        ((v[q + 2] % 4) * 64 + v[q + 3]) as u8
    }
}

/// The whole bytes of the bit string that the six-bit values `v` make up; bits
/// left over at the end are dropped.
pub open spec fn sextets_packed(v: Seq<u8>) -> Seq<u8> {
    Seq::new((v.len() * 6 / 8) as nat, |k: int| sextets_byte(v, k))
}

/// What `s` stands for in base64, or nothing where it is malformed: it holds a
/// byte that base64 has no use for, it goes on behind its padding, or its last
/// digit begins a byte that no other digit completes.
pub open spec fn base64_decoded(s: Seq<u8>) -> Option<Seq<u8>> {
    if base64_valid(s) && base64_digits(s).len() % 4 != 1 {
        Some(sextets_packed(base64_digits(s)))
    } else {
        None
    }
}

/// The low bits of the accumulator `acc` that are still to be written, after
/// the six-bit values `v`.
spec fn pending(v: Seq<u8>, acc: u32, bits: u32) -> bool {
    let n = v.len() as int;
    if n % 4 == 0 {
        bits == 0
    } else if n % 4 == 1 {
        bits == 6 && acc % 64 == v[n - 1]
    } else if n % 4 == 2 {
        bits == 4 && acc % 16 == v[n - 1] % 16
    } else {
        bits == 2 && acc % 4 == v[n - 1] % 4
    }
}

/// One more six-bit value in the accumulator.
proof fn lemma_accumulate(acc: u32, v: u32)
    by (bit_vector)
    requires
        v < 64,
    ensures
        ((acc << 6) | v) % 64 == v,
        ((acc << 6) | v) % 16 == v % 16,
        ((acc << 6) | v) % 4 == v % 4,
        (((acc << 6) | v) >> 4) as u8 == ((acc % 64) * 4 + v / 16) as u8,
        (((acc << 6) | v) >> 2) as u8 == ((acc % 16) * 16 + v / 4) as u8,
        (((acc << 6) | v) >> 0) as u8 == ((acc % 4) * 64 + v) as u8,
{
}

/// A byte that is complete does not change with one more six-bit value.
proof fn lemma_byte_complete(v: Seq<u8>, x: u8, k: int)
    requires
        0 <= k,
        8 * (k + 1) <= 6 * v.len(),
    ensures
        sextets_byte(v.push(x), k) == sextets_byte(v, k),
{
    let t = k / 3;
    if k % 3 == 0 {
        assert(k == 3 * t);
        assert(4 * t + 1 < v.len());
    } else if k % 3 == 1 {
        assert(k == 3 * t + 1);
        assert(4 * t + 2 < v.len());
    } else {
        assert(k == 3 * t + 2);
        assert(4 * t + 3 < v.len());
    }
}

/// One more six-bit value adds the byte that it completes, if any.
proof fn lemma_packed_push(v: Seq<u8>, x: u8)
    ensures
        v.len() % 4 == 0 ==> sextets_packed(v.push(x)) == sextets_packed(v),
        v.len() % 4 != 0 ==> sextets_packed(v.push(x)) == sextets_packed(v).push(
            sextets_byte(v.push(x), v.len() as int * 6 / 8),
        ),
{
    let w = v.push(x);
    let n = v.len() as int;
    let old_len = n * 6 / 8;
    assert forall|k: int| 0 <= k < old_len implies sextets_byte(v, k) == sextets_byte(w, k) by {
        lemma_byte_complete(v, x, k);
    }
    if n % 4 == 0 {
        assert((n + 1) * 6 / 8 == old_len);
        assert(sextets_packed(w) =~= sextets_packed(v));
    } else {
        assert((n + 1) * 6 / 8 == old_len + 1);
        assert(sextets_packed(w) =~= sextets_packed(v).push(sextets_byte(w, old_len)));
    }
}

/// One more byte of text adds its digit, unless it is skipped.
proof fn lemma_digits_push(s: Seq<u8>, b: u8)
    ensures
        base64_digits(s.push(b)) == if base64_skipped(b) {
            base64_digits(s)
        } else {
            base64_digits(s).push(base64_value(b)->0)
        },
{
    reveal(Seq::filter);
    assert(s.push(b).drop_last() =~= s);
    assert(base64_digits(s.push(b)) =~= if base64_skipped(b) {
        base64_digits(s)
    } else {
        base64_digits(s).push(base64_value(b)->0)
    });
}

/// When one more byte keeps base64 text valid.
proof fn lemma_valid_push(s: Seq<u8>, b: u8)
    requires
        base64_valid(s),
    ensures
        base64_valid(s.push(b)) <==> base64_skipped(b) || (base64_value(b) is Some && !s.contains(
            EQUALS,
        )),
{
    let t = s.push(b);
    let n = s.len() as int;
    assert(t[n] == b);
    assert(forall|i: int| 0 <= i < n ==> #[trigger] t[i] == s[i]);
    if s.contains(EQUALS) {
        let i = choose|i: int| 0 <= i < n && s[i] == EQUALS;
        assert(t[i] == EQUALS);
    }
}

/// Valid base64 text begins with valid base64 text.
proof fn lemma_valid_prefix(s: Seq<u8>, n: int)
    requires
        0 <= n <= s.len(),
        base64_valid(s),
    ensures
        base64_valid(s.take(n)),
{
    assert(forall|i: int| 0 <= i < n ==> #[trigger] s.take(n)[i] == s[i]);
}

/// The value of a base64 digit.
fn base64_digit(b: u8) -> (r: Option<u8>)
    ensures
        r == base64_value(b),
        r matches Some(v) ==> v < 64,
{
    if ('A' as u8) <= b && b <= ('Z' as u8) {
        Some(b - 'A' as u8)
    } else if ('a' as u8) <= b && b <= ('z' as u8) {
        Some(b - 'a' as u8 + 26)
    } else if ('0' as u8) <= b && b <= ('9' as u8) {
        Some(b - '0' as u8 + 52)
    } else if b == '+' as u8 {
        Some(62)
    } else if b == '/' as u8 {
        Some(63)
    } else {
        None
    }
}

/// Decodes standard base64, ignoring white space. `None` where the text is
/// malformed: it holds a byte that is no digit, white space or padding sign, a
/// digit behind a padding sign, or one digit more than whole groups of four.
/// Padding at the end may be left out.
pub fn decode_base64(input: &[u8]) -> (r: Option<Vec<u8>>)
    ensures
        match r {
            Some(out) => base64_decoded(input@) == Some(out@) && out@.len() <= input@.len(),
            None => base64_decoded(input@) is None,
        },
{
    let mut out: Vec<u8> = Vec::new();
    let mut acc: u32 = 0;
    let mut bits: u32 = 0;
    let mut padded: bool = false;
    let mut i: usize = 0;
    assert(base64_digits(input@.take(0)) =~= seq![]) by {
        reveal(Seq::filter);
    }
    while i < input.len()
        invariant
            i <= input@.len(),
            base64_digits(input@.take(i as int)).len() <= i,
            out@ == sextets_packed(base64_digits(input@.take(i as int))),
            pending(base64_digits(input@.take(i as int)), acc, bits),
            padded <==> exists|j: int| 0 <= j < i && #[trigger] input@[j] == EQUALS,
            base64_valid(input@.take(i as int)),
        decreases input@.len() - i,
    {
        let b = input[i];
        let ghost before = input@.take(i as int);
        let ghost digits = base64_digits(before);
        proof {
            assert(input@.take(i + 1) =~= before.push(b));
            lemma_digits_push(before, b);
            lemma_valid_push(before, b);
            assert(padded <==> before.contains(EQUALS)) by {
                if padded {
                    let j = choose|j: int| 0 <= j < i && #[trigger] input@[j] == EQUALS;
                    assert(before[j] == EQUALS);
                }
            }
        }
        if b == EQUALS {
            padded = true;
            assert(input@[i as int] == EQUALS);
        } else if !(b == ' ' as u8 || b == 0x09 || b == LF || b == 0x0c || b == CR) {
            let v: u32 = match base64_digit(b) {
                Some(v) if !padded => v as u32,
                _ => {
                    proof {
                        if base64_valid(input@) {
                            lemma_valid_prefix(input@, i + 1);
                        }
                    }
                    return None;
                },
            };
            proof {
                lemma_accumulate(acc, v);
                lemma_packed_push(digits, v as u8);
            }
            acc = (acc << 6) | v;
            bits = bits + 6;
            if bits >= 8 {
                bits = bits - 8;
                #[verifier::truncate]
                let byte: u8 = (acc >> bits) as u8;
                out.push(byte);
                assert(byte == sextets_byte(digits.push(v as u8), digits.len() as int * 6 / 8));
            }
        }
        i = i + 1;
    }
    assert(input@.take(i as int) =~= input@);
    if bits == 6 {
        None
    } else {
        Some(out)
    }
}

/// Text in front that holds no equals sign stands for itself.
pub proof fn lemma_qp_literal_prefix(a: Seq<u8>, b: Seq<u8>)
    requires
        !a.contains(EQUALS),
    ensures
        qp_decoded(a + b) == a + qp_decoded(b),
    decreases a.len(),
{
    if a.len() == 0 {
        assert(a + b =~= b);
        assert(a + qp_decoded(b) =~= qp_decoded(b));
    } else {
        let s = a + b;
        assert(a[0] != EQUALS);
        assert(s.skip(1) =~= a.skip(1) + b);
        assert(!a.skip(1).contains(EQUALS)) by {
            if a.skip(1).contains(EQUALS) {
                let k = choose|k: int| 0 <= k < a.skip(1).len() && a.skip(1)[k] == EQUALS;
                assert(a[k + 1] == EQUALS);
            }
        }
        lemma_qp_literal_prefix(a.skip(1), b);
        assert(a + qp_decoded(b) =~= seq![a[0]] + (a.skip(1) + qp_decoded(b)));
    }
}

/// Quoted-printable text without an equals sign decodes to itself.
pub proof fn law_qp_literal(s: Seq<u8>)
    requires
        !s.contains(EQUALS),
    ensures
        qp_decoded(s) == s,
{
    lemma_qp_literal_prefix(s, seq![]);
    assert(s + seq![] =~= s);
}

/// A soft line break joins what stands before it and what stands after it,
/// whether the line ends in a line feed alone or in a carriage return too.
pub proof fn law_qp_soft_break(a: Seq<u8>, b: Seq<u8>)
    requires
        !a.contains(EQUALS),
    ensures
        qp_decoded(a + seq![EQUALS, LF] + b) == a + qp_decoded(b),
        qp_decoded(a + seq![EQUALS, CR, LF] + b) == a + qp_decoded(b),
{
    let short = seq![EQUALS, LF] + b;
    let long = seq![EQUALS, CR, LF] + b;
    lemma_qp_literal_prefix(a, short);
    lemma_qp_literal_prefix(a, long);
    assert(a + seq![EQUALS, LF] + b =~= a + short);
    assert(a + seq![EQUALS, CR, LF] + b =~= a + long);
    assert(short.skip(2) =~= b);
    assert(long.skip(3) =~= b);
}

/// The hexadecimal digit of a value below sixteen.
pub open spec fn hex_digit(v: u8) -> u8 {
    if v < 10 {
        ('0' as u8 + v) as u8
    } else {
        ('A' as u8 + v - 10) as u8
    }
}

/// `bytes` in quoted-printable, every byte as an escape.
pub open spec fn qp_escaped(bytes: Seq<u8>) -> Seq<u8>
    decreases bytes.len(),
{
    if bytes.len() == 0 {
        seq![]
    } else {
        seq![EQUALS, hex_digit(bytes[0] / 16), hex_digit(bytes[0] % 16)] + qp_escaped(bytes.skip(1))
    }
}

/// Any bytes, written as escapes, come back.
pub proof fn law_qp_escapes_come_back(bytes: Seq<u8>)
    ensures
        qp_decoded(qp_escaped(bytes)) == bytes,
    decreases bytes.len(),
{
    if bytes.len() > 0 {
        let s = qp_escaped(bytes);
        let b = bytes[0];
        assert(s.skip(3) =~= qp_escaped(bytes.skip(1)));
        assert(hex_value(hex_digit(b / 16)) == Some((b / 16) as u8));
        assert(hex_value(hex_digit(b % 16)) == Some((b % 16) as u8));
        assert((b / 16) * 16 + b % 16 == b);
        law_qp_escapes_come_back(bytes.skip(1));
        assert(bytes =~= seq![b] + bytes.skip(1));
    } else {
        assert(bytes =~= seq![]);
    }
}

/// A piece of quoted-printable text.
pub enum QpPiece {
    /// A byte that stands for itself.
    Literal(u8),
    /// An equals sign and two hexadecimal digits, in either case.
    Escape(u8, u8),
    /// A soft line break, with a carriage return or without.
    Break(bool),
}

/// The piece is one: no literal is an equals sign, and the digits of an escape
/// are hexadecimal.
pub open spec fn qp_piece_valid(piece: QpPiece) -> bool {
    match piece {
        QpPiece::Literal(b) => b != EQUALS,
        QpPiece::Escape(high, low) => hex_value(high) is Some && hex_value(low) is Some,
        QpPiece::Break(_) => true,
    }
}

/// How a piece is written.
pub open spec fn qp_piece_written(piece: QpPiece) -> Seq<u8> {
    match piece {
        QpPiece::Literal(b) => seq![b],
        QpPiece::Escape(high, low) => seq![EQUALS, high, low],
        QpPiece::Break(cr) => if cr {
            seq![EQUALS, CR, LF]
        } else {
            seq![EQUALS, LF]
        },
    }
}

/// What a piece stands for.
pub open spec fn qp_piece_bytes(piece: QpPiece) -> Seq<u8> {
    match piece {
        QpPiece::Literal(b) => seq![b],
        QpPiece::Escape(high, low) => seq![(hex_value(high)->0 * 16 + hex_value(low)->0) as u8],
        QpPiece::Break(_) => seq![],
    }
}

/// How pieces are written, one behind the other.
pub open spec fn qp_written(pieces: Seq<QpPiece>) -> Seq<u8>
    decreases pieces.len(),
{
    if pieces.len() == 0 {
        seq![]
    } else {
        qp_piece_written(pieces[0]) + qp_written(pieces.skip(1))
    }
}

/// What pieces stand for, one behind the other.
pub open spec fn qp_meant(pieces: Seq<QpPiece>) -> Seq<u8>
    decreases pieces.len(),
{
    if pieces.len() == 0 {
        seq![]
    } else {
        qp_piece_bytes(pieces[0]) + qp_meant(pieces.skip(1))
    }
}

/// Any mix of literal bytes, escapes in either case and soft line breaks gives
/// the bytes that it stands for.
pub proof fn law_qp_pieces_come_back(pieces: Seq<QpPiece>)
    requires
        forall|i: int| 0 <= i < pieces.len() ==> qp_piece_valid(#[trigger] pieces[i]),
    ensures
        qp_decoded(qp_written(pieces)) == qp_meant(pieces),
    decreases pieces.len(),
{
    if pieces.len() > 0 {
        let rest = pieces.skip(1);
        assert forall|i: int| 0 <= i < rest.len() implies qp_piece_valid(#[trigger] rest[i]) by {
            assert(rest[i] == pieces[i + 1]);
        }
        law_qp_pieces_come_back(rest);
        assert(qp_piece_valid(pieces[0]));
        let s = qp_written(pieces);
        let n = qp_piece_written(pieces[0]).len() as int;
        assert(s.skip(n) =~= qp_written(rest));
        if pieces[0] is Break {
            assert(qp_meant(pieces) =~= qp_meant(rest));
        }
    }
}

/// How many bytes the first escape, soft line break or byte that stands for
/// itself takes in `s`.
pub open spec fn qp_unit(s: Seq<u8>) -> int {
    if qp_soft_break(s) > 0 {
        qp_soft_break(s)
    } else if qp_escape(s) {
        3
    } else {
        1
    }
}

/// No escape or soft line break begins in `a` and ends in `b`, which follows it.
pub open spec fn qp_seam(a: Seq<u8>, b: Seq<u8>) -> bool {
    forall|j: int|
        0 <= j < a.len() && #[trigger] a[j] == EQUALS ==> j + qp_unit((a + b).skip(j)) <= a.len()
}

/// Two texts may be decoded one by one exactly where no escape and no soft line
/// break lies across the seam between them.
pub proof fn law_qp_concatenates(a: Seq<u8>, b: Seq<u8>)
    ensures
        qp_seam(a, b) <==> qp_decoded(a + b) == qp_decoded(a) + qp_decoded(b),
    decreases a.len(),
{
    let s = a + b;
    if a.len() == 0 {
        assert(s =~= b);
        assert(qp_decoded(a) + qp_decoded(b) =~= qp_decoded(b));
    } else if qp_unit(s) <= a.len() {
        let n = qp_unit(s);
        let rest = a.skip(n);
        law_qp_concatenates(rest, b);
        lemma_qp_unit_within(a, b);
        lemma_seam_skip(a, b);
        assert(s.skip(n) =~= rest + b);
        let head = if qp_soft_break(s) > 0 {
            Seq::<u8>::empty()
        } else {
            qp_decoded(s).take(1)
        };
        let h = head.len() as int;
        let x = qp_decoded(rest + b);
        let y = qp_decoded(rest) + qp_decoded(b);
        assert(qp_decoded(s) =~= head + x);
        assert(qp_decoded(a) =~= head + qp_decoded(rest));
        assert(qp_decoded(a) + qp_decoded(b) =~= head + y);
        assert((head + x).skip(h) =~= x);
        assert((head + y).skip(h) =~= y);
    } else {
        lemma_qp_straddled(a, b);
    }
}

/// A unit that fits into `a` is the same with `b` behind it or without, and
/// holds no equals sign but the one that it begins with.
proof fn lemma_qp_unit_within(a: Seq<u8>, b: Seq<u8>)
    requires
        a.len() > 0,
        qp_unit(a + b) <= a.len(),
    ensures
        qp_unit(a) == qp_unit(a + b),
        qp_soft_break(a) == qp_soft_break(a + b),
        qp_escape(a) == qp_escape(a + b),
        forall|j: int| 0 < j < qp_unit(a + b) ==> #[trigger] a[j] != EQUALS,
{
    let s = a + b;
    assert(forall|j: int| 0 <= j < a.len() ==> #[trigger] s[j] == a[j]);
}

/// Whether something lies across the seam does not depend on the units before.
proof fn lemma_seam_skip(a: Seq<u8>, b: Seq<u8>)
    requires
        a.len() > 0,
        qp_unit(a + b) <= a.len(),
    ensures
        qp_seam(a, b) <==> qp_seam(a.skip(qp_unit(a + b)), b),
{
    let s = a + b;
    let n = qp_unit(s);
    let rest = a.skip(n);
    lemma_qp_unit_within(a, b);
    assert(s.skip(0) =~= s);
    assert forall|j: int| 0 <= j < rest.len() implies #[trigger] rest[j] == a[j + n] && (rest
        + b).skip(j) == s.skip(j + n) by {
        assert((rest + b).skip(j) =~= s.skip(j + n));
    }
    if qp_seam(a, b) {
        assert forall|j: int| 0 <= j < rest.len() && #[trigger] rest[j] == EQUALS implies j
            + qp_unit((rest + b).skip(j)) <= rest.len() by {
            assert(a[j + n] == EQUALS);
        }
    }
    if qp_seam(rest, b) {
        assert forall|j: int| 0 <= j < a.len() && #[trigger] a[j] == EQUALS implies j + qp_unit(
            s.skip(j),
        ) <= a.len() by {
            if j >= n {
                assert(rest[j - n] == EQUALS);
            }
        }
    }
}

/// A unit that lies across the seam gives less than its two ends do.
proof fn lemma_qp_straddled(a: Seq<u8>, b: Seq<u8>)
    requires
        a.len() > 0,
        qp_unit(a + b) > a.len(),
    ensures
        !qp_seam(a, b),
        qp_decoded(a + b) != qp_decoded(a) + qp_decoded(b),
{
    let s = a + b;
    let n = qp_unit(s);
    let k = n - a.len();
    assert(s.skip(0) =~= s);
    assert(s[0] == a[0]);
    assert(a[0] == EQUALS);
    assert(forall|j: int| 0 <= j < k ==> #[trigger] b[j] == s[j + a.len()]);
    assert(!b.take(k).contains(EQUALS));
    lemma_qp_literal_prefix(b.take(k), b.skip(k));
    assert(b.take(k) + b.skip(k) =~= b);
    assert(s.skip(n) =~= b.skip(k));
    assert(qp_decoded(a).len() == a.len()) by {
        assert(qp_soft_break(a) == 0 && !qp_escape(a));
        let t = a.skip(1);
        if t.len() > 0 {
            assert(t[0] == s[1]);
        }
        law_qp_literal(t);
        assert(qp_decoded(a) == seq![a[0]] + qp_decoded(t));
    }
    assert(qp_decoded(s).len() <= 1 + qp_decoded(b.skip(k)).len());
    assert((qp_decoded(a) + qp_decoded(b)).len() == n + qp_decoded(b.skip(k)).len());
}

/// White space in base64 text changes nothing, wherever it stands.
pub proof fn law_base64_ignores_white_space(a: Seq<u8>, white: Seq<u8>, b: Seq<u8>)
    requires
        forall|i: int| 0 <= i < white.len() ==> base64_white(#[trigger] white[i]),
    ensures
        base64_decoded(a + white + b) == base64_decoded(a + b),
{
    let s = a + white + b;
    let t = a + b;
    let n = a.len() as int;
    let m = white.len() as int;
    lemma_skipped_adds_nothing(a, white, b);
    assert forall|i: int| 0 <= i < s.len() implies #[trigger] s[i] == if i < n {
        t[i]
    } else if i < n + m {
        white[i - n]
    } else {
        t[i - m]
    } by {}
    assert forall|i: int| 0 <= i < t.len() implies #[trigger] t[i] == if i < n {
        s[i]
    } else {
        s[i + m]
    } by {}
    if base64_valid(s) {
        assert(base64_valid(t));
    }
    if base64_valid(t) {
        assert(base64_valid(s));
    }
}

/// Padding signs and white space at the end of base64 text change nothing.
pub proof fn law_base64_ignores_padding(s: Seq<u8>, pad: Seq<u8>)
    requires
        forall|i: int| 0 <= i < pad.len() ==> base64_skipped(#[trigger] pad[i]),
    ensures
        base64_decoded(s + pad) == base64_decoded(s),
{
    let t = s + pad;
    lemma_skipped_adds_nothing(s, pad, seq![]);
    assert(s + pad + seq![] =~= t);
    assert(s + seq![] =~= s);
    if base64_valid(t) {
        lemma_valid_prefix(t, s.len() as int);
        assert(t.take(s.len() as int) =~= s);
    }
    if base64_valid(s) {
        assert forall|i: int| 0 <= i < t.len() implies #[trigger] t[i] == if i < s.len() {
            s[i]
        } else {
            pad[i - s.len()]
        } by {}
        assert(base64_valid(t));
    }
}

/// What stands for no bits adds no digits.
proof fn lemma_skipped_adds_nothing(a: Seq<u8>, skipped: Seq<u8>, b: Seq<u8>)
    requires
        forall|i: int| 0 <= i < skipped.len() ==> base64_skipped(#[trigger] skipped[i]),
    ensures
        base64_digits(a + skipped + b) == base64_digits(a + b),
{
    let keep = |x: u8| !base64_skipped(x);
    assert(skipped.filter(keep) =~= seq![]) by {
        broadcast use vstd::seq_lib::group_filter_ensures;

        let f = skipped.filter(keep);
        if f.len() > 0 {
            assert(keep(f[0]));
            assert(skipped.contains(f[0])) by {
                lemma_filter_kept(skipped, keep, 0);
            }
        }
    }
    Seq::filter_distributes_over_add(a, skipped, keep);
    Seq::filter_distributes_over_add(a + skipped, b, keep);
    Seq::filter_distributes_over_add(a, b, keep);
    assert((a + skipped + b).filter(keep) =~= (a + b).filter(keep));
}

/// What a filter keeps stood in the sequence.
proof fn lemma_filter_kept(s: Seq<u8>, keep: spec_fn(u8) -> bool, i: int)
    requires
        0 <= i < s.filter(keep).len(),
    ensures
        s.contains(s.filter(keep)[i]),
    decreases s.len(),
{
    reveal(Seq::filter);
    if s.len() > 0 {
        let t = s.drop_last();
        if i < t.filter(keep).len() {
            lemma_filter_kept(t, keep, i);
            let k = choose|k: int| 0 <= k < t.len() && t[k] == t.filter(keep)[i];
            assert(s[k] == s.filter(keep)[i]);
        } else {
            assert(s[s.len() - 1] == s.filter(keep)[i]);
        }
    }
}

/// The base64 digit of a value below sixty-four.
pub open spec fn base64_letter(v: int) -> u8 {
    if v < 26 {
        ('A' as u8 + v) as u8
    } else if v < 52 {
        ('a' as u8 + v - 26) as u8
    } else if v < 62 {
        ('0' as u8 + v - 52) as u8
    } else if v == 62 {
        '+' as u8
    } else {
        '/' as u8
    }
}

/// The `j`th group of six bits in `bytes`, with zero bits beyond the end.
pub open spec fn bytes_sextet(bytes: Seq<u8>, j: int) -> int {
    let q = 3 * (j / 4);
    let at = |k: int| if k < bytes.len() { bytes[k] as int } else { 0 };
    if j % 4 == 0 {
        at(q) / 4
    } else if j % 4 == 1 {
        (at(q) % 4) * 16 + at(q + 1) / 16
    } else if j % 4 == 2 {
        (at(q + 1) % 16) * 4 + at(q + 2) / 64
    } else {
        at(q + 2) % 64
    }
}

/// `bytes` in standard base64, padded to a multiple of four signs.
pub open spec fn base64_encoded(bytes: Seq<u8>) -> Seq<u8> {
    let n = bytes.len() as int;
    let digits = (8 * n + 5) / 6;
    Seq::new(digits as nat, |j: int| base64_letter(bytes_sextet(bytes, j))) + Seq::new(
        (4 * ((n + 2) / 3) - digits) as nat,
        |j: int| EQUALS,
    )
}

/// The digit of a value stands for that value.
proof fn lemma_letter_value(v: int)
    requires
        0 <= v < 64,
    ensures
        base64_value(base64_letter(v)) == Some(v as u8),
        !base64_skipped(base64_letter(v)),
{
}

/// A group of six bits is below sixty-four.
proof fn lemma_sextet_range(bytes: Seq<u8>, j: int)
    ensures
        0 <= bytes_sextet(bytes, j) < 64,
{
}

/// The groups of six bits of `bytes` pack into `bytes` again.
proof fn lemma_repacked(bytes: Seq<u8>, v: Seq<u8>, k: int)
    requires
        v.len() == (8 * bytes.len() + 5) / 6,
        forall|j: int| 0 <= j < v.len() ==> #[trigger] v[j] == bytes_sextet(bytes, j),
        0 <= k < bytes.len(),
    ensures
        sextets_byte(v, k) == bytes[k],
{
    let t = k / 3;
    let q = 4 * t;
    assert(q / 4 == t && q % 4 == 0);
    assert((q + 1) / 4 == t && (q + 1) % 4 == 1);
    assert((q + 2) / 4 == t && (q + 2) % 4 == 2);
    assert((q + 3) / 4 == t && (q + 3) % 4 == 3);
    if k % 3 == 0 {
        assert(k == 3 * t);
        assert(q + 1 < v.len());
        assert(v[q] == bytes[k] as int / 4);
        assert(v[q + 1] / 16 == bytes[k] % 4);
    } else if k % 3 == 1 {
        assert(k == 3 * t + 1);
        assert(q + 2 < v.len());
        assert(v[q + 1] % 16 == bytes[k] / 16);
        assert(v[q + 2] / 4 == bytes[k] % 16);
    } else {
        assert(k == 3 * t + 2);
        assert(q + 3 < v.len());
        assert(v[q + 2] % 4 == bytes[k] / 64);
        assert(v[q + 3] == bytes[k] % 64);
    }
}

/// Any bytes, written in base64, come back.
pub proof fn law_base64_round_trip(bytes: Seq<u8>)
    ensures
        base64_decoded(base64_encoded(bytes)) == Some(bytes),
{
    let n = bytes.len() as int;
    let m = (8 * n + 5) / 6;
    let letters = Seq::new(m as nat, |j: int| base64_letter(bytes_sextet(bytes, j)));
    let pad = Seq::new((4 * ((n + 2) / 3) - m) as nat, |j: int| EQUALS);
    let keep = |x: u8| !base64_skipped(x);
    assert forall|j: int| 0 <= j < m implies base64_value(#[trigger] letters[j]) == Some(
        bytes_sextet(bytes, j) as u8,
    ) && !base64_skipped(letters[j]) && 0 <= bytes_sextet(bytes, j) < 64 by {
        lemma_sextet_range(bytes, j);
        lemma_letter_value(bytes_sextet(bytes, j));
    }
    assert(base64_valid(letters));
    law_base64_ignores_padding(letters, pad);
    assert(letters + pad =~= base64_encoded(bytes));
    lemma_filter_all(letters, keep);
    let v = base64_digits(letters);
    assert(v =~= letters.map_values(|b: u8| base64_value(b)->0));
    assert forall|k: int| 0 <= k < n implies sextets_byte(v, k) == bytes[k] by {
        lemma_repacked(bytes, v, k);
    }
    assert(m * 6 / 8 == n);
    assert(m % 4 != 1) by {
        let t = n / 3;
        assert(n == 3 * t || n == 3 * t + 1 || n == 3 * t + 2);
        assert(m == 4 * t || m == 4 * t + 2 || m == 4 * t + 3);
    }
    assert(sextets_packed(v) =~= bytes);
}

/// A filter that keeps everything changes nothing.
proof fn lemma_filter_all(s: Seq<u8>, keep: spec_fn(u8) -> bool)
    requires
        forall|i: int| 0 <= i < s.len() ==> keep(#[trigger] s[i]),
    ensures
        s.filter(keep) == s,
    decreases s.len(),
{
    reveal(Seq::filter);
    if s.len() > 0 {
        lemma_filter_all(s.drop_last(), keep);
        assert(s.drop_last().push(s.last()) =~= s);
    }
}

/// The digits of a hexadecimal number are those of `0123456789abcdef`, small or
/// large, each with its position as its value, and no other byte is one.
pub proof fn law_hexadecimal_digits(b: u8, v: int)
    requires
        0 <= v < 16,
    ensures
        hex_value("0123456789abcdef"@[v] as u8) == Some(v as u8),
        hex_value("0123456789ABCDEF"@[v] as u8) == Some(v as u8),
        hex_value(b) matches Some(w) ==> w < 16 && (b == "0123456789abcdef"@[w as int] as u8 || b
            == "0123456789ABCDEF"@[w as int] as u8),
{
    reveal_strlit("0123456789abcdef");
    reveal_strlit("0123456789ABCDEF");
}

/// An equals sign that begins neither an escape nor a soft line break stands for
/// itself, and what follows it is read as if it were not there.
pub proof fn law_qp_stray_equals_stays(a: Seq<u8>, b: Seq<u8>)
    requires
        !a.contains(EQUALS),
        b.len() > 0 ==> b[0] != LF,
        b.len() > 1 ==> !(b[0] == CR && b[1] == LF),
        b.len() > 1 ==> hex_value(b[0]) is None || hex_value(b[1]) is None,
    ensures
        qp_decoded(a + seq![EQUALS] + b) == a + seq![EQUALS] + qp_decoded(b),
{
    let s = seq![EQUALS] + b;
    lemma_qp_literal_prefix(a, s);
    assert(a + seq![EQUALS] + b =~= a + s);
    if b.len() > 0 {
        assert(s[1] == b[0]);
    }
    if b.len() > 1 {
        assert(s[2] == b[1]);
    }
    assert(s.skip(1) =~= b);
    assert(a + (seq![EQUALS] + qp_decoded(b)) =~= a + seq![EQUALS] + qp_decoded(b));
}

/// The digits of base64 are the letters, large and then small, the ten digits,
/// the plus sign and the slash.
pub proof fn law_base64_alphabet(v: int)
    requires
        0 <= v < 64,
    ensures
        base64_letter(v)
            == "ABCDEFGHIJKLMNOPQRSTUVWXYZabcdefghijklmnopqrstuvwxyz0123456789+/"@[v] as u8,
{
    reveal_strlit("ABCDEFGHIJKLMNOPQRSTUVWXYZabcdefghijklmnopqrstuvwxyz0123456789+/");
}

/// Base64 is malformed where it holds a byte that is no digit, no white space
/// and no padding sign, and where a digit stands behind a padding sign.
pub proof fn law_base64_refuses_stray_bytes(s: Seq<u8>, i: int, j: int)
    requires
        0 <= i < s.len(),
        0 <= j < s.len(),
        ({
            let digit = exists|v: int| 0 <= v < 64 && s[i] == #[trigger] base64_letter(v);
            let white = s[i] == 0x20 || s[i] == 0x09 || s[i] == 0x0a || s[i] == 0x0c || s[i]
                == 0x0d;
            ||| !digit && !white && s[i] != '=' as u8
            ||| digit && j < i && s[j] == '=' as u8
        }),
    ensures
        base64_decoded(s) is None,
{
    let b = s[i];
    assert(' ' as u8 == 0x20);
    if exists|v: int| 0 <= v < 64 && b == #[trigger] base64_letter(v) {
        let v = choose|v: int| 0 <= v < 64 && b == #[trigger] base64_letter(v);
        lemma_letter_value(v);
    } else if base64_value(b) is Some {
        let v = base64_value(b)->0 as int;
        assert(b == base64_letter(v));
    }
    if base64_valid(s) {
        assert(base64_skipped(s[i]) || base64_value(s[i]) is Some);
        if j < i {
            assert(s[j] == EQUALS ==> base64_skipped(s[i]));
        }
    }
}

/// Whole groups of digits, without padding.
proof fn lemma_whole_groups(bytes: Seq<u8>)
    requires
        bytes.len() % 3 == 0,
    ensures
        base64_valid(base64_encoded(bytes)),
        !base64_encoded(bytes).contains(EQUALS),
        base64_digits(base64_encoded(bytes)).len() == 4 * (bytes.len() / 3),
        sextets_packed(base64_digits(base64_encoded(bytes))) == bytes,
{
    let n = bytes.len() as int;
    let t = n / 3;
    let m = (8 * n + 5) / 6;
    assert(n == 3 * t);
    assert(m == 4 * t);
    let e = base64_encoded(bytes);
    assert(e.len() == m);
    law_base64_round_trip(bytes);
    assert forall|j: int| 0 <= j < m implies !base64_skipped(#[trigger] e[j]) by {
        lemma_sextet_range(bytes, j);
        lemma_letter_value(bytes_sextet(bytes, j));
    }
    lemma_filter_all(e, |b: u8| !base64_skipped(b));
}

/// Digits behind whole groups: one alone is malformed, two give one more byte
/// and three give two, with the bits that are left over dropped.
pub proof fn law_base64_last_group(bytes: Seq<u8>, x: int, y: int, z: int)
    requires
        bytes.len() % 3 == 0,
        0 <= x < 64,
        0 <= y < 64,
        0 <= z < 64,
    ensures
        base64_decoded(base64_encoded(bytes).push(base64_letter(x))) is None,
        base64_decoded(base64_encoded(bytes).push(base64_letter(x)).push(base64_letter(y))) == Some(
            bytes.push((x * 4 + y / 16) as u8),
        ),
        base64_decoded(
            base64_encoded(bytes).push(base64_letter(x)).push(base64_letter(y)).push(
                base64_letter(z),
            ),
        ) == Some(bytes.push((x * 4 + y / 16) as u8).push(((y % 16) * 16 + z / 4) as u8)),
{
    let e = base64_encoded(bytes);
    let d = base64_digits(e);
    let t = bytes.len() as int / 3;
    let (a, b, c) = (base64_letter(x), base64_letter(y), base64_letter(z));
    let e1 = e.push(a);
    let e2 = e1.push(b);
    let e3 = e2.push(c);
    let d1 = d.push(x as u8);
    let d2 = d1.push(y as u8);
    let d3 = d2.push(z as u8);
    lemma_whole_groups(bytes);
    lemma_letter_value(x);
    lemma_letter_value(y);
    lemma_letter_value(z);
    lemma_digits_push(e, a);
    lemma_digits_push(e1, b);
    lemma_digits_push(e2, c);
    assert(!e1.contains(EQUALS) && !e2.contains(EQUALS)) by {
        if e1.contains(EQUALS) {
            let k = choose|k: int| 0 <= k < e1.len() && e1[k] == EQUALS;
            assert(e[k] == EQUALS);
        }
        if e2.contains(EQUALS) {
            let k = choose|k: int| 0 <= k < e2.len() && e2[k] == EQUALS;
            assert(e1[k] == EQUALS);
        }
    }
    lemma_valid_push(e, a);
    lemma_valid_push(e1, b);
    lemma_valid_push(e2, c);
    lemma_packed_push(d, x as u8);
    lemma_packed_push(d1, y as u8);
    lemma_packed_push(d2, z as u8);
    assert((4 * t + 1) * 6 / 8 == 3 * t);
    assert((4 * t + 2) * 6 / 8 == 3 * t + 1);
    assert((3 * t) / 3 == t && (3 * t) % 3 == 0);
    assert((3 * t + 1) / 3 == t && (3 * t + 1) % 3 == 1);
    assert(sextets_byte(d2, 3 * t) == (x * 4 + y / 16) as u8);
    assert(sextets_byte(d3, 3 * t + 1) == ((y % 16) * 16 + z / 4) as u8);
}

} // verus!
