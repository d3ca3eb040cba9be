//! Header fields.

use vstd::prelude::*;
use vstd::slice::slice_subrange;

use crate::charset::{utf8_lossy, utf8_text};
use crate::text::{
    chars_of, find, lemma_find_some, lemma_split_len, lemma_strip_len, line_slices, lines, lower,
    lowered, pieces, position, same, split, split_once, string_of, strip, stripped, texts, trim,
    without_cr, Class,
};

verus! {

/// A line that continues the field before it.
pub open spec fn is_folded(line: Seq<char>) -> bool {
    line.len() > 0 && (line[0] == ' ' || line[0] == '\t')
}

/// The fields after one more line of a header block. A line that begins with
/// white space continues the last field, behind one space; a line with a colon
/// begins a field, whose name counts in small letters; any other line counts
/// for nothing.
pub open spec fn with_line(
    fields: Seq<(Seq<char>, Seq<char>)>,
    line: Seq<char>,
) -> Seq<(Seq<char>, Seq<char>)> {
    if is_folded(line) {
        if fields.len() > 0 {
            let (name, value) = fields.last();
            fields.drop_last().push((name, value + seq![' '] + trim(line)))
        } else {
            fields
        }
    } else {
        match split_once(line, seq![':']) {
            Some((name, value)) => fields.push((lower(trim(name)), trim(value))),
            None => fields,
        }
    }
}

/// The fields that the lines of a header block make up.
pub open spec fn fields_of(ls: Seq<Seq<char>>) -> Seq<(Seq<char>, Seq<char>)>
    decreases ls.len(),
{
    if ls.len() == 0 {
        seq![]
    } else {
        with_line(fields_of(ls.drop_last()), ls.last())
    }
}

/// The value of the first field called `name`.
pub open spec fn field(fields: Seq<(Seq<char>, Seq<char>)>, name: Seq<char>) -> Option<Seq<char>>
    decreases fields.len(),
{
    if fields.len() == 0 {
        None
    } else if fields[0].0 == name {
        Some(fields[0].1)
    } else {
        field(fields.drop_first(), name)
    }
}

/// The value of the parameter called `name`, in any case, in a run of
/// parameters. A piece that is no parameter ends the search.
pub open spec fn param(params: Seq<Seq<char>>, name: Seq<char>) -> Option<Seq<char>>
    decreases params.len(),
{
    if params.len() == 0 {
        None
    } else {
        match split_once(params[0], seq!['=']) {
            Some((key, value)) => if lower(trim(key)) == lower(name) {
                Some(strip(trim(value), Class::Only('"')))
            } else {
                param(params.drop_first(), name)
            },
            None => None,
        }
    }
}

/// The parameter called `name` of the content type.
pub open spec fn content_param(
    fields: Seq<(Seq<char>, Seq<char>)>,
    name: Seq<char>,
) -> Option<Seq<char>> {
    match field(fields, "content-type"@) {
        Some(value) => param(split(value, seq![';']).drop_first(), name),
        None => None,
    }
}

/// The content type without its parameters, in small letters; `text/plain`
/// where there is none.
pub open spec fn media_type(fields: Seq<(Seq<char>, Seq<char>)>) -> Seq<char> {
    match field(fields, "content-type"@) {
        Some(value) => lower(trim(split(value, seq![';'])[0])),
        None => "text/plain"@,
    }
}

/// The fields of a header block: their names and their values, in order.
pub struct Headers(pub Vec<(String, String)>);

impl View for Headers {
    type V = Seq<(Seq<char>, Seq<char>)>;

    open spec fn view(&self) -> Seq<(Seq<char>, Seq<char>)> {
        self.0@.map_values(|f: (String, String)| (f.0@, f.1@))
    }
}

/// Whether no value is longer than `n` characters.
pub open spec fn values_within(fields: Seq<(Seq<char>, Seq<char>)>, n: int) -> bool {
    forall|i: int| 0 <= i < fields.len() ==> (#[trigger] fields[i]).1.len() <= n
}

/// How many characters a run of lines holds.
spec fn total(ls: Seq<Seq<char>>) -> int
    decreases ls.len(),
{
    if ls.len() == 0 {
        0
    } else {
        total(ls.drop_last()) + ls.last().len()
    }
}

proof fn lemma_total_add(a: Seq<Seq<char>>, b: Seq<Seq<char>>)
    ensures
        total(a + b) == total(a) + total(b),
    decreases b.len(),
{
    if b.len() == 0 {
        assert(a + b =~= a);
    } else {
        assert((a + b).drop_last() =~= a + b.drop_last());
        lemma_total_add(a, b.drop_last());
    }
}

/// The lines of a text hold no more characters than the text.
proof fn lemma_lines_total(s: Seq<char>)
    ensures
        total(lines(s)) <= s.len(),
    decreases s.len(),
{
    let nl = seq!['\n'];
    lemma_find_some(s, nl);
    if s.len() > 0 {
        match find(s, nl) {
            Some(i) => {
                let head = seq![without_cr(s.take(i))];
                lemma_lines_total(s.skip(i + 1));
                lemma_total_add(head, lines(s.skip(i + 1)));
                assert(head.drop_last() =~= seq![]);
                assert(total(head.drop_last()) == 0);
                assert(total(head) == head.last().len());
            },
            None => {
                let one = seq![s];
                assert(one.drop_last() =~= seq![]);
                assert(total(one.drop_last()) == 0);
                assert(total(one) == s.len());
            },
        }
    }
}

/// No value is longer than the lines that it was made of.
proof fn lemma_values_within(ls: Seq<Seq<char>>)
    ensures
        values_within(fields_of(ls), total(ls)),
        total(ls) >= 0,
    decreases ls.len(),
{
    if ls.len() > 0 {
        let line = ls.last();
        lemma_values_within(ls.drop_last());
        lemma_strip_len(line, Class::White);
        lemma_find_some(line, seq![':']);
        match split_once(line, seq![':']) {
            Some((name, value)) => {
                lemma_strip_len(value, Class::White);
            },
            None => {},
        }
    }
}

impl Headers {
    /// Reads a header block. Bytes that are not UTF-8 are repaired first.
    pub fn parse(bytes: &[u8]) -> (r: Headers)
        ensures
            r@ == fields_of(lines(utf8_text(bytes@))),
            values_within(r@, bytes@.len() as int),
    {
        let text = utf8_lossy(bytes);
        Headers::parse_text(text.as_str())
    }

    /// Reads the text of a header block.
    pub fn parse_text(text: &str) -> (r: Headers)
        ensures
            r@ == fields_of(lines(text@)),
            values_within(r@, text@.len() as int),
    {
        let chars = chars_of(text);
        let ls = line_slices(chars.as_slice());
        let mut r = Headers(Vec::new());
        let mut i: usize = 0;
        assert(r@ =~= fields_of(texts(ls@).take(0)));
        while i < ls.len()
            invariant
                i <= ls@.len(),
                r@ == fields_of(texts(ls@).take(i as int)),
            decreases ls@.len() - i,
        {
            r.add_line(ls[i]);
            i = i + 1;
            assert(texts(ls@).take(i as int).drop_last() =~= texts(ls@).take(i - 1));
        }
        assert(texts(ls@).take(i as int) =~= lines(text@));
        proof {
            lemma_lines_total(text@);
            lemma_values_within(lines(text@));
        }
        r
    }

    /// Takes in one more line of a header block.
    pub fn add_line(&mut self, line: &[char])
        ensures
            final(self)@ == with_line(old(self)@, line@),
    {
        if line.len() > 0 && (line[0] == ' ' || line[0] == '\t') {
            match self.0.pop() {
                Some(last) => {
                    let (name, mut value) = last;
                    let ghost start = value@;
                    value.push(' ');
                    let more = string_of(stripped(line, Class::White));
                    value.append(more.as_str());
                    assert(value@ =~= start + seq![' '] + trim(line@));
                    assert(old(self)@.last() == (name@, start));
                    self.0.push((name, value));
                    assert(self@ =~= with_line(old(self)@, line@));
                },
                None => {
                    assert(self@ =~= old(self)@);
                },
            }
        } else {
            assert([':']@ =~= seq![':']);
            match position(line, &[':']) {
                Some(i) => {
                    let name = slice_subrange(line, 0, i);
                    let value = slice_subrange(line, i + 1, line.len());
                    assert(name@ =~= line@.take(i as int));
                    assert(value@ =~= line@.skip(i + 1));
                    let name = lowered(stripped(name, Class::White));
                    let value = stripped(value, Class::White);
                    self.0.push((string_of(name.as_slice()), string_of(value)));
                    assert(self@ =~= with_line(old(self)@, line@));
                },
                None => {},
            }
        }
    }

    /// The value of the first field called `name`. Names of fields are kept in
    /// small letters.
    pub fn get(&self, name: &str) -> (r: Option<String>)
        ensures
            match r {
                Some(value) => field(self@, name@) == Some(value@),
                None => field(self@, name@) is None,
            },
    {
        let wanted = chars_of(name);
        let mut i: usize = 0;
        assert(self@.skip(0) =~= self@);
        while i < self.0.len()
            invariant
                i <= self.0@.len(),
                wanted@ == name@,
                field(self@.skip(i as int), name@) == field(self@, name@),
            decreases self.0@.len() - i,
        {
            let key = chars_of(self.0[i].0.as_str());
            assert(self@.skip(i as int)[0] == self@[i as int]);
            if same(key.as_slice(), wanted.as_slice()) {
                return Some(self.0[i].1.clone());
            }
            assert(self@.skip(i as int).drop_first() =~= self@.skip(i + 1));
            i = i + 1;
        }
        None
    }

    /// The parameter called `name` of the content type, such as `boundary` or
    /// `charset`, without the quotes around it.
    pub fn ct_param(&self, name: &str) -> (r: Option<String>)
        ensures
            match r {
                Some(value) => content_param(self@, name@) == Some(value@),
                None => content_param(self@, name@) is None,
            },
    {
        let value = match self.get("content-type") {
            Some(value) => chars_of(value.as_str()),
            None => {
                return None;
            },
        };
        let name_chars = chars_of(name);
        let wanted = lowered(name_chars.as_slice());
        assert([';']@ =~= seq![';']);
        assert(['=']@ =~= seq!['=']);
        let parts = pieces(value.as_slice(), &[';']);
        let ghost params = split(value@, seq![';']).drop_first();
        let mut i: usize = 1;
        proof {
            lemma_split_len(value@, seq![';']);
        }
        assert(params.skip(0) =~= params);
        while i < parts.len()
            invariant
                1 <= i <= parts@.len(),
                params == texts(parts@).drop_first(),
                wanted@ == lower(name@),
                ['=']@ == seq!['='],
                param(params.skip(i - 1), name@) == param(params, name@),
                content_param(self@, name@) == param(params, name@),
            decreases parts@.len() - i,
        {
            let part = parts[i];
            assert(params.skip(i - 1)[0] == part@);
            match position(part, &['=']) {
                Some(k) => {
                    assert(k + 1 <= part.len());
                    let key = slice_subrange(part, 0, k);
                    let text = slice_subrange(part, k + 1, part.len());
                    assert(key@ =~= part@.take(k as int));
                    assert(text@ =~= part@.skip(k + 1));
                    let key = lowered(stripped(key, Class::White));
                    if same(key.as_slice(), wanted.as_slice()) {
                        return Some(
                            string_of(stripped(stripped(text, Class::White), Class::Only('"'))),
                        );
                    }
                },
                None => {
                    return None;
                },
            }
            assert(params.skip(i - 1).drop_first() =~= params.skip(i as int));
            i = i + 1;
        }
        assert(params.skip(i - 1) =~= seq![]);
        None
    }

    /// The content type without its parameters, in small letters. A block
    /// without one counts as `text/plain`.
    pub fn content_type(&self) -> (r: String)
        ensures
            r@ == media_type(self@),
    {
        match self.get("content-type") {
            Some(value) => {
                let value = chars_of(value.as_str());
                assert([';']@ =~= seq![';']);
                let parts = pieces(value.as_slice(), &[';']);
                proof {
                    lemma_split_len(value@, seq![';']);
                }
                assert(texts(parts@)[0] == parts@[0]@);
                string_of(lowered(stripped(parts[0], Class::White)).as_slice())
            },
            None => "text/plain".to_string(),
        }
    }
}

} // verus!
