//! What searching, splitting, trimming and lowering give, told by the
//! characters alone.

use vstd::prelude::*;

use crate::laws::{lemma_occurs_found, lemma_one_occurs, lemma_split_once_at};
use crate::text::{
    find, is_blank, is_white, lemma_find_none, lemma_find_some, lower, occurs_at, split, split_once,
    starts_with, strip, strip_end, strip_start, trim, Class,
};

verus! {

/// A character that is not there is not found.
pub(crate) proof fn lemma_char_absent(s: Seq<char>, c: char)
    requires
        !s.contains(c),
    ensures
        find(s, seq![c]) is None,
        split_once(s, seq![c]) is None,
        split(s, seq![c]) == seq![s],
{
    let pat = seq![c];
    assert(pat.len() == 1 && pat[0] == c);
    assert forall|j: int| 0 <= j <= s.len() implies !#[trigger] occurs_at(s, pat, j) by {
        if occurs_at(s, pat, j) {
            assert(pat[0] == s[j + 0]);
            assert(s.contains(s[j]));
        }
    }
    lemma_find_none(s, pat);
}

/// A character is found at its first position, and nowhere only where the text
/// does not hold it.
pub proof fn law_first_char_is_found(s: Seq<char>, c: char)
    ensures
        find(s, seq![c]) matches Some(i) ==> 0 <= i < s.len() && s[i] == c && !s.take(i).contains(
            c,
        ),
        find(s, seq![c]) is None <==> !s.contains(c),
{
    let pat = seq![c];
    assert(pat.len() == 1 && pat[0] == c);
    lemma_find_some(s, pat);
    if let Some(i) = find(s, pat) {
        assert(pat[0] == s[i + 0]);
        assert(s.contains(s[i]));
        if s.take(i).contains(c) {
            let k = choose|k: int| 0 <= k < i && s.take(i)[k] == c;
            lemma_one_occurs(s, c, k);
            assert(!occurs_at(s, pat, k));
        }
    } else if s.contains(c) {
        let k = choose|k: int| 0 <= k < s.len() && s[k] == c;
        lemma_one_occurs(s, c, k);
        lemma_occurs_found(s, pat, k);
    }
}

/// A text stands where a stretch of the same length equals it.
proof fn lemma_occurs_is_stretch<T>(s: Seq<T>, pat: Seq<T>, i: int)
    requires
        0 <= i,
    ensures
        occurs_at(s, pat, i) <==> i + pat.len() <= s.len() && s.subrange(
            i,
            i + pat.len() as int,
        ) == pat,
{
    if i + pat.len() <= s.len() {
        let t = s.subrange(i, i + pat.len() as int);
        if occurs_at(s, pat, i) {
            assert(t =~= pat);
        }
        if t == pat {
            assert forall|k: int| 0 <= k < pat.len() implies #[trigger] pat[k] == s[i + k] by {
                assert(t[k] == s[i + k]);
            }
        }
    }
}

/// A text is found at the first stretch that equals it, and nowhere only where
/// no stretch does. A text begins with another exactly where its first stretch
/// equals it.
pub proof fn law_first_stretch_is_found<T>(s: Seq<T>, pat: Seq<T>, j: int)
    requires
        0 <= j,
        j + pat.len() <= s.len(),
    ensures
        find(s, pat) matches Some(i) ==> 0 <= i <= s.len() - pat.len() && s.subrange(
            i,
            i + pat.len() as int,
        ) == pat && (j < i ==> s.subrange(j, j + pat.len() as int) != pat),
        find(s, pat) is None ==> s.subrange(j, j + pat.len() as int) != pat,
        starts_with(s, pat) <==> s.take(pat.len() as int) == pat,
{
    lemma_find_some(s, pat);
    lemma_occurs_is_stretch(s, pat, j);
    lemma_occurs_is_stretch(s, pat, 0);
    assert(s.subrange(0, pat.len() as int) =~= s.take(pat.len() as int));
    match find(s, pat) {
        Some(i) => {
            lemma_occurs_is_stretch(s, pat, i);
            if j < i {
                assert(!occurs_at(s, pat, j));
            }
        },
        None => {
            if occurs_at(s, pat, j) {
                lemma_occurs_found(s, pat, j);
            }
        },
    }
}

/// Pieces of text with one character between each two.
pub open spec fn joined_by(pieces: Seq<Seq<char>>, c: char) -> Seq<char>
    decreases pieces.len(),
{
    if pieces.len() == 0 {
        seq![]
    } else if pieces.len() == 1 {
        pieces[0]
    } else {
        pieces[0] + seq![c] + joined_by(pieces.drop_first(), c)
    }
}

/// Splitting undoes joining: the pieces come back, all of them and in order.
pub proof fn law_split_undoes_join(pieces: Seq<Seq<char>>, c: char)
    requires
        pieces.len() > 0,
        forall|i: int| 0 <= i < pieces.len() ==> !(#[trigger] pieces[i]).contains(c),
    ensures
        split(joined_by(pieces, c), seq![c]) == pieces,
    decreases pieces.len(),
{
    assert(!pieces[0].contains(c));
    if pieces.len() == 1 {
        lemma_char_absent(pieces[0], c);
        assert(pieces =~= seq![pieces[0]]);
    } else {
        let others = pieces.drop_first();
        let rest = joined_by(others, c);
        assert forall|i: int| 0 <= i < others.len() implies !(#[trigger] others[i]).contains(c) by {
            assert(others[i] == pieces[i + 1]);
        }
        law_split_undoes_join(others, c);
        lemma_split_once_at(pieces[0], c, rest);
        let s = pieces[0] + seq![c] + rest;
        assert(s.take(pieces[0].len() as int) =~= pieces[0]);
        assert(s.skip(pieces[0].len() as int + 1) =~= rest);
        assert(seq![c].len() == 1);
        assert(split(s, seq![c]) == seq![pieces[0]] + others);
        assert(pieces =~= seq![pieces[0]] + others);
    }
}

/// `s` holds nothing but characters of `class`.
spec fn all_in(s: Seq<char>, class: Class) -> bool {
    forall|i: int| 0 <= i < s.len() ==> class.holds(#[trigger] s[i])
}

proof fn lemma_strip_start(a: Seq<char>, m: Seq<char>, class: Class)
    requires
        all_in(a, class),
        m.len() > 0 ==> !class.holds(m[0]),
    ensures
        strip_start(a + m, class) == m,
    decreases a.len(),
{
    if a.len() == 0 {
        assert(a + m =~= m);
    } else {
        assert((a + m)[0] == a[0]);
        assert((a + m).drop_first() =~= a.drop_first() + m);
        lemma_strip_start(a.drop_first(), m, class);
    }
}

proof fn lemma_strip_end(m: Seq<char>, b: Seq<char>, class: Class)
    requires
        all_in(b, class),
        m.len() > 0 ==> !class.holds(m.last()),
    ensures
        strip_end(m + b, class) == m,
    decreases b.len(),
{
    if b.len() == 0 {
        assert(m + b =~= m);
    } else {
        assert((m + b).last() == b.last());
        assert((m + b).drop_last() =~= m + b.drop_last());
        lemma_strip_end(m, b.drop_last(), class);
    }
}

proof fn lemma_strip(a: Seq<char>, m: Seq<char>, b: Seq<char>, class: Class)
    requires
        all_in(a, class),
        all_in(b, class),
        m.len() > 0 ==> !class.holds(m[0]) && !class.holds(m.last()),
    ensures
        strip(a + m + b, class) == m,
{
    if m.len() == 0 {
        let none = Seq::<char>::empty();
        assert(a + m + b =~= (a + b) + none);
        lemma_strip_start(a + b, none, class);
        assert(m =~= none);
    } else {
        assert(a + m + b =~= a + (m + b));
        lemma_strip_start(a, m + b, class);
        lemma_strip_end(m, b, class);
    }
}

/// Trimming takes all white space off both ends, however much there is, and
/// nothing else.
pub proof fn law_trim_takes_white_space(a: Seq<char>, m: Seq<char>, b: Seq<char>)
    requires
        is_blank(a),
        is_blank(b),
        m.len() > 0 ==> !is_white(m[0]) && !is_white(m.last()),
    ensures
        trim(a + m + b) == m,
{
    lemma_strip(a, m, b, Class::White);
}

/// Stripping one character takes it off both ends, however often it stands
/// there, and nothing else.
pub proof fn law_strip_takes_one_character(a: nat, m: Seq<char>, b: nat, c: char)
    requires
        m.len() > 0 ==> m[0] != c && m.last() != c,
    ensures
        strip(Seq::new(a, |i: int| c) + m + Seq::new(b, |i: int| c), Class::Only(c)) == m,
{
    lemma_strip(Seq::new(a, |i: int| c), m, Seq::new(b, |i: int| c), Class::Only(c));
}

/// White space at the end has no part in what trimming leaves.
pub(crate) proof fn lemma_trim_ignores_end(s: Seq<char>, c: char)
    requires
        is_white(c),
    ensures
        trim(s.push(c)) == trim(s),
{
    let (a, b) = lemma_trim_parts(s);
    let t = trim(s);
    assert(s.push(c) =~= a + t + b.push(c));
    law_trim_takes_white_space(a, t, b.push(c));
}

/// What trimming takes off, and that what it leaves has no white space at its
/// ends.
pub(crate) proof fn lemma_trim_parts(s: Seq<char>) -> (r: (Seq<char>, Seq<char>))
    ensures
        s == r.0 + trim(s) + r.1,
        is_blank(r.0),
        is_blank(r.1),
        trim(s).len() > 0 ==> !is_white(trim(s)[0]) && !is_white(trim(s).last()),
{
    let t = strip_start(s, Class::White);
    let a = lemma_start_parts(s);
    let b = lemma_end_parts(t);
    let m = strip_end(t, Class::White);
    assert(s =~= a + m + b);
    if m.len() > 0 {
        assert(m[0] == t[0]);
    }
    (a, b)
}

proof fn lemma_start_parts(s: Seq<char>) -> (a: Seq<char>)
    ensures
        s == a + strip_start(s, Class::White),
        is_blank(a),
        strip_start(s, Class::White).len() > 0 ==> !is_white(strip_start(s, Class::White)[0]),
    decreases s.len(),
{
    if s.len() > 0 && is_white(s[0]) {
        let rest = lemma_start_parts(s.drop_first());
        let a = seq![s[0]] + rest;
        assert(s =~= seq![s[0]] + s.drop_first());
        assert(s =~= a + strip_start(s, Class::White));
        assert forall|i: int| 0 <= i < a.len() implies is_white(#[trigger] a[i]) by {
            if i > 0 {
                assert(a[i] == rest[i - 1]);
            }
        }
        a
    } else {
        let a = Seq::<char>::empty();
        assert(s =~= a + s);
        a
    }
}

proof fn lemma_end_parts(s: Seq<char>) -> (b: Seq<char>)
    ensures
        s == strip_end(s, Class::White) + b,
        is_blank(b),
        strip_end(s, Class::White).len() > 0 ==> !is_white(strip_end(s, Class::White).last()),
    decreases s.len(),
{
    if s.len() > 0 && is_white(s.last()) {
        let rest = lemma_end_parts(s.drop_last());
        let b = rest.push(s.last());
        assert(s =~= s.drop_last().push(s.last()));
        assert(s =~= strip_end(s, Class::White) + b);
        b
    } else {
        let b = Seq::<char>::empty();
        assert(s =~= s + b);
        b
    }
}

/// Lowering changes the ASCII capitals into their small letters, each where it
/// stands, and no other character.
pub proof fn law_lower_changes_capitals(s: Seq<char>, i: int)
    requires
        0 <= i < s.len(),
    ensures
        lower(s).len() == s.len(),
        'A' <= s[i] <= 'Z' ==> lower(s)[i] as u32 == s[i] as u32 + 32,
        !('A' <= s[i] <= 'Z') ==> lower(s)[i] == s[i],
{
}

} // verus!
