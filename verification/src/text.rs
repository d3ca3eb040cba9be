//! Character sequences: searching, splitting, trimming and case folding.
//!
//! Contracts speak of `Seq<char>`, the view of `String` and `str`; the
//! functions work on slices of characters, which can be indexed.

use vstd::prelude::*;
use vstd::slice::slice_subrange;

verus! {

/// `pat` stands in `s` at position `i`.
pub open spec fn occurs_at<T>(s: Seq<T>, pat: Seq<T>, i: int) -> bool {
    &&& 0 <= i
    &&& i + pat.len() <= s.len()
    &&& forall|k: int| 0 <= k < pat.len() ==> #[trigger] pat[k] == s[i + k]
}

/// `i` is the first position of `s` at which `pat` stands.
pub open spec fn first_at<T>(s: Seq<T>, pat: Seq<T>, i: int) -> bool {
    &&& occurs_at(s, pat, i)
    &&& forall|j: int| 0 <= j < i ==> !#[trigger] occurs_at(s, pat, j)
}

/// The first position of `pat` in `s`, if it stands there at all.
#[verifier::opaque]
pub open spec fn find<T>(s: Seq<T>, pat: Seq<T>) -> Option<int> {
    if exists|i: int| first_at(s, pat, i) {
        Some(choose|i: int| first_at(s, pat, i))
    } else {
        None
    }
}

/// What [`find`] returns, from a known first position.
pub proof fn lemma_find_first<T>(s: Seq<T>, pat: Seq<T>, i: int)
    requires
        first_at(s, pat, i),
    ensures
        find(s, pat) == Some(i),
{
    reveal(find);
    let j = choose|j: int| first_at(s, pat, j);
    assert(first_at(s, pat, j));
    if i < j {
        assert(!occurs_at(s, pat, i));
    }
    if j < i {
        assert(!occurs_at(s, pat, j));
    }
}

/// [`find`] fails only where `pat` stands nowhere.
pub proof fn lemma_find_none<T>(s: Seq<T>, pat: Seq<T>)
    requires
        forall|j: int| 0 <= j <= s.len() ==> !#[trigger] occurs_at(s, pat, j),
    ensures
        find(s, pat) is None,
{
    reveal(find);
    if exists|i: int| first_at(s, pat, i) {
        let i = choose|i: int| first_at(s, pat, i);
        assert(!occurs_at(s, pat, i));
    }
}

/// A position that [`find`] returns is the first one.
pub proof fn lemma_find_some<T>(s: Seq<T>, pat: Seq<T>)
    ensures
        find(s, pat) matches Some(i) ==> first_at(s, pat, i) && 0 <= i && i + pat.len() <= s.len(),
{
    reveal(find);
}

/// Whether `s` begins with `pat`.
pub open spec fn starts_with<T>(s: Seq<T>, pat: Seq<T>) -> bool {
    occurs_at(s, pat, 0)
}

/// The text before the first `pat` and the text after it.
pub open spec fn split_once<T>(s: Seq<T>, pat: Seq<T>) -> Option<(Seq<T>, Seq<T>)> {
    match find(s, pat) {
        Some(i) => Some((s.take(i), s.skip(i + pat.len()))),
        None => None,
    }
}

/// The pieces of `s` between the occurrences of `pat`, taken from the left.
pub open spec fn split<T>(s: Seq<T>, pat: Seq<T>) -> Seq<Seq<T>>
    recommends
        pat.len() > 0,
    decreases s.len(),
    when pat.len() > 0
{
    proof {
        lemma_find_some(s, pat);
    }
    match find(s, pat) {
        Some(i) => seq![s.take(i)] + split(s.skip(i + pat.len()), pat),
        None => seq![s],
    }
}

/// A split yields at least one piece.
pub proof fn lemma_split_len(s: Seq<char>, pat: Seq<char>)
    requires
        pat.len() > 0,
    ensures
        split(s, pat).len() > 0,
{
}

/// `s` without one carriage return at its end.
pub open spec fn without_cr(s: Seq<char>) -> Seq<char> {
    if s.len() > 0 && s.last() == '\r' {
        s.drop_last()
    } else {
        s
    }
}

/// The lines of `s`. A line ends in a line feed or in a carriage return and a
/// line feed, neither of which belongs to it; what follows the last line feed
/// is a line of its own unless it is empty.
pub open spec fn lines(s: Seq<char>) -> Seq<Seq<char>>
    decreases s.len(),
{
    proof {
        lemma_find_some(s, seq!['\n']);
    }
    if s.len() == 0 {
        seq![]
    } else {
        match find(s, seq!['\n']) {
            Some(i) => seq![without_cr(s.take(i))] + lines(s.skip(i + 1)),
            None => seq![s],
        }
    }
}

/// Whether `c` has the Unicode property `White_Space`.
pub open spec fn is_white(c: char) -> bool {
    ||| '\u{9}' <= c <= '\u{d}'
    ||| c == ' '
    ||| c == '\u{85}'
    ||| c == '\u{a0}'
    ||| c == '\u{1680}'
    ||| '\u{2000}' <= c <= '\u{200a}'
    ||| c == '\u{2028}'
    ||| c == '\u{2029}'
    ||| c == '\u{202f}'
    ||| c == '\u{205f}'
    ||| c == '\u{3000}'
}

/// A set of characters to strip from the ends of a text.
#[derive(Clone, Copy)]
pub enum Class {
    /// Every character with the property `White_Space`.
    White,
    /// One character.
    Only(char),
}

impl Class {
    /// Whether `c` belongs to the class.
    pub open spec fn holds(self, c: char) -> bool {
        match self {
            Class::White => is_white(c),
            Class::Only(d) => c == d,
        }
    }

    /// Whether `c` belongs to the class.
    pub fn contains(&self, c: char) -> (r: bool)
        ensures
            r == self.holds(c),
    {
        match *self {
            Class::White => ('\u{9}' <= c && c <= '\u{d}') || c == ' ' || c == '\u{85}' || c
                == '\u{a0}' || c == '\u{1680}' || ('\u{2000}' <= c && c <= '\u{200a}') || c
                == '\u{2028}' || c == '\u{2029}' || c == '\u{202f}' || c == '\u{205f}' || c
                == '\u{3000}',
            Class::Only(d) => c == d,
        }
    }
}

/// `s` without the characters of `class` at its start.
pub open spec fn strip_start(s: Seq<char>, class: Class) -> Seq<char>
    decreases s.len(),
{
    if s.len() > 0 && class.holds(s[0]) {
        strip_start(s.drop_first(), class)
    } else {
        s
    }
}

/// `s` without the characters of `class` at its end.
pub open spec fn strip_end(s: Seq<char>, class: Class) -> Seq<char>
    decreases s.len(),
{
    if s.len() > 0 && class.holds(s.last()) {
        strip_end(s.drop_last(), class)
    } else {
        s
    }
}

/// `s` without the characters of `class` at either end.
pub open spec fn strip(s: Seq<char>, class: Class) -> Seq<char> {
    strip_end(strip_start(s, class), class)
}

/// `s` without white space at either end.
pub open spec fn trim(s: Seq<char>) -> Seq<char> {
    strip(s, Class::White)
}

/// Stripping makes no text longer.
pub proof fn lemma_strip_len(s: Seq<char>, class: Class)
    ensures
        strip(s, class).len() <= s.len(),
        s.len() > 0 && class.holds(s[0]) ==> strip(s, class).len() < s.len(),
{
    lemma_strip_start_len(s, class);
    lemma_strip_end_len(strip_start(s, class), class);
}

proof fn lemma_strip_start_len(s: Seq<char>, class: Class)
    ensures
        strip_start(s, class).len() <= s.len(),
        s.len() > 0 && class.holds(s[0]) ==> strip_start(s, class).len() < s.len(),
    decreases s.len(),
{
    if s.len() > 0 && class.holds(s[0]) {
        lemma_strip_start_len(s.drop_first(), class);
    }
}

proof fn lemma_strip_end_len(s: Seq<char>, class: Class)
    ensures
        strip_end(s, class).len() <= s.len(),
    decreases s.len(),
{
    if s.len() > 0 && class.holds(s.last()) {
        lemma_strip_end_len(s.drop_last(), class);
    }
}

/// Whether `s` holds nothing but white space.
pub open spec fn is_blank(s: Seq<char>) -> bool {
    forall|i: int| 0 <= i < s.len() ==> is_white(#[trigger] s[i])
}

/// An ASCII capital turned into its small letter, any other character as it is.
pub open spec fn lower_char(c: char) -> char {
    if 'A' <= c <= 'Z' {
        (c as u32 + 32) as char
    } else {
        c
    }
}

/// `s` with its ASCII capitals turned into small letters.
pub open spec fn lower(s: Seq<char>) -> Seq<char> {
    s.map_values(|c: char| lower_char(c))
}

/// The texts behind a sequence of slices.
pub open spec fn texts(v: Seq<&[char]>) -> Seq<Seq<char>> {
    v.map_values(|s: &[char]| s@)
}

/// The characters of `s`.
pub fn chars_of(s: &str) -> (r: Vec<char>)
    ensures
        r@ == s@,
{
    let mut r: Vec<char> = Vec::new();
    for c in it: s.chars()
        invariant
            r@ == it.seq().take(it.index() as int),
            it.seq() == s@,
    {
        r.push(c);
    }
    r
}

/// `String::push`: appends one character.
pub assume_specification[ String::push ](s: &mut String, c: char)
    ensures
        final(s)@ == old(s)@.push(c),
;

/// The string that holds the characters of `s`.
pub fn string_of(s: &[char]) -> (r: String)
    ensures
        r@ == s@,
{
    let mut r = String::new();
    let mut i: usize = 0;
    while i < s.len()
        invariant
            i <= s@.len(),
            r@ == s@.take(i as int),
        decreases s@.len() - i,
    {
        r.push(s[i]);
        i = i + 1;
        assert(s@.take(i as int) =~= s@.take(i - 1).push(s@[i - 1]));
    }
    assert(s@.take(i as int) =~= s@);
    r
}

/// Whether `pat` stands in `s` at position `i`.
pub fn occurs(s: &[char], pat: &[char], i: usize) -> (r: bool)
    ensures
        r == occurs_at(s@, pat@, i as int),
{
    if i > s.len() || pat.len() > s.len() - i {
        return false;
    }
    let mut k: usize = 0;
    while k < pat.len()
        invariant
            k <= pat@.len(),
            i + pat@.len() <= s.len(),
            forall|j: int| 0 <= j < k ==> #[trigger] pat@[j] == s@[i + j],
        decreases pat@.len() - k,
    {
        if pat[k] != s[i + k] {
            return false;
        }
        k = k + 1;
    }
    true
}

/// Whether the two slices hold the same characters.
pub fn same(a: &[char], b: &[char]) -> (r: bool)
    ensures
        r == (a@ == b@),
{
    if a.len() != b.len() {
        return false;
    }
    let r = occurs(a, b, 0);
    proof {
        if r {
            assert forall|k: int| 0 <= k < a@.len() implies a@[k] == b@[k] by {
                assert(b@[k] == a@[0 + k]);
            }
            assert(a@ =~= b@);
        }
    }
    r
}

/// The first position of `pat` in `s`.
pub fn position(s: &[char], pat: &[char]) -> (r: Option<usize>)
    ensures
        match r {
            Some(i) => find(s@, pat@) == Some(i as int) && i + pat@.len() <= s@.len(),
            None => find(s@, pat@) is None,
        },
{
    let mut i: usize = 0;
    while i < s.len()
        invariant
            i <= s@.len(),
            forall|j: int| 0 <= j < i ==> !#[trigger] occurs_at(s@, pat@, j),
        decreases s@.len() - i,
    {
        if occurs(s, pat, i) {
            proof {
                lemma_find_first(s@, pat@, i as int);
            }
            return Some(i);
        }
        i = i + 1;
    }
    if occurs(s, pat, i) {
        proof {
            lemma_find_first(s@, pat@, i as int);
        }
        return Some(i);
    }
    proof {
        lemma_find_none(s@, pat@);
    }
    None
}

/// The pieces of `s` between the occurrences of `pat`.
pub fn pieces<'a>(s: &'a [char], pat: &[char]) -> (r: Vec<&'a [char]>)
    requires
        pat@.len() > 0,
    ensures
        texts(r@) == split(s@, pat@),
{
    let mut r: Vec<&'a [char]> = Vec::new();
    let mut rest: &'a [char] = s;
    assert(texts(r@) + split(rest@, pat@) =~= split(s@, pat@));
    loop
        invariant
            pat@.len() > 0,
            texts(r@) + split(rest@, pat@) == split(s@, pat@),
        decreases rest@.len(),
    {
        match position(rest, pat) {
            Some(i) => {
                let ghost before = r@;
                let ghost tail = split(rest@.skip(i + pat@.len()), pat@);
                let piece = slice_subrange(rest, 0, i);
                r.push(piece);
                assert(piece@ =~= rest@.take(i as int));
                assert(split(rest@, pat@) == seq![rest@.take(i as int)] + tail);
                assert(texts(r@) =~= texts(before) + seq![rest@.take(i as int)]);
                assert(i + pat@.len() <= rest.len());
                let next = slice_subrange(rest, i + pat.len(), rest.len());
                assert(next@ =~= rest@.skip(i + pat@.len()));
                rest = next;
                assert(texts(r@) + tail =~= texts(before) + (seq![piece@] + tail));
            },
            None => {
                let ghost before = r@;
                r.push(rest);
                assert(texts(r@) =~= texts(before) + seq![rest@]);
                return r;
            },
        }
    }
}

/// The lines of `s`.
pub fn line_slices<'a>(s: &'a [char]) -> (r: Vec<&'a [char]>)
    ensures
        texts(r@) == lines(s@),
{
    let mut r: Vec<&'a [char]> = Vec::new();
    let mut rest: &'a [char] = s;
    assert(texts(r@) + lines(rest@) =~= lines(s@));
    while rest.len() > 0
        invariant
            texts(r@) + lines(rest@) == lines(s@),
        decreases rest@.len(),
    {
        let ghost before = r@;
        match position(rest, &['\n']) {
            Some(i) => {
                let ghost tail = lines(rest@.skip(i + 1));
                let mut end: usize = i;
                if i > 0 && rest[i - 1] == '\r' {
                    end = i - 1;
                }
                let line = slice_subrange(rest, 0, end);
                assert(line@ =~= without_cr(rest@.take(i as int)));
                r.push(line);
                assert(seq!['\n'] =~= ['\n']@);
                assert(lines(rest@) == seq![line@] + tail);
                assert(texts(r@) =~= texts(before) + seq![line@]);
                let next = slice_subrange(rest, i + 1, rest.len());
                assert(next@ =~= rest@.skip(i + 1));
                rest = next;
                assert(texts(r@) + tail =~= texts(before) + (seq![line@] + tail));
            },
            None => {
                r.push(rest);
                assert(seq!['\n'] =~= ['\n']@);
                assert(texts(r@) =~= texts(before) + seq![rest@]);
                return r;
            },
        }
    }
    assert(texts(r@) + lines(rest@) =~= texts(r@));
    r
}

/// `s` without the characters of `class` at either end.
pub fn stripped<'a>(s: &'a [char], class: Class) -> (r: &'a [char])
    ensures
        r@ == strip(s@, class),
{
    let mut from: usize = 0;
    assert(s@.skip(0) =~= s@);
    while from < s.len() && class.contains(s[from])
        invariant
            from <= s@.len(),
            strip_start(s@.skip(from as int), class) == strip_start(s@, class),
        decreases s@.len() - from,
    {
        assert(s@.skip(from as int).drop_first() =~= s@.skip(from + 1));
        from = from + 1;
    }
    let ghost body = s@.skip(from as int);
    let mut to: usize = s.len();
    assert(body.take(body.len() as int) =~= body);
    while from < to && class.contains(s[to - 1])
        invariant
            from <= to <= s@.len(),
            body == s@.skip(from as int),
            strip_end(body.take(to - from), class) == strip_end(body, class),
        decreases to - from,
    {
        assert(body.take(to - from).drop_last() =~= body.take(to - from - 1));
        to = to - 1;
    }
    let r = slice_subrange(s, from, to);
    assert(r@ =~= body.take(to - from));
    r
}

/// Whether `s` holds nothing but white space.
pub fn blank(s: &[char]) -> (r: bool)
    ensures
        r == is_blank(s@),
{
    let mut i: usize = 0;
    let class = Class::White;
    while i < s.len()
        invariant
            i <= s@.len(),
            class == Class::White,
            forall|j: int| 0 <= j < i ==> is_white(#[trigger] s@[j]),
        decreases s@.len() - i,
    {
        if !class.contains(s[i]) {
            return false;
        }
        i = i + 1;
    }
    true
}

/// `s` with its ASCII capitals turned into small letters.
pub fn lowered(s: &[char]) -> (r: Vec<char>)
    ensures
        r@ == lower(s@),
{
    let mut r: Vec<char> = Vec::new();
    let mut i: usize = 0;
    while i < s.len()
        invariant
            i <= s@.len(),
            r@ == lower(s@.take(i as int)),
        decreases s@.len() - i,
    {
        let c = s[i];
        let d: char = if 'A' <= c && c <= 'Z' {
            ((c as u8) + 32) as char
        } else {
            c
        };
        r.push(d);
        i = i + 1;
        assert(r@ =~= lower(s@.take(i as int)));
    }
    assert(s@.take(i as int) =~= s@);
    r
}

} // verus!
