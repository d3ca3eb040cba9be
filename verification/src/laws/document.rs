//! What stands in the document that a message turns into, told by the fields
//! and the text of the message.

use vstd::prelude::*;

use crate::error::Problem;
use crate::headers::field;
use crate::laws::law_line_ends_are_alike;
use crate::laws::text::joined_by;
use crate::message::{
    body_blocks, joined, message_blocks, message_fields, message_text, metadata, paragraphs,
};
use crate::model::{cleans_blocks, BlockView, InlineView, Style};
use crate::text::{
    find, first_at, is_blank, lemma_find_first, lemma_find_none, lemma_find_some, lines, occurs_at,
    split, strip, strip_end, strip_start, Class,
};
use crate::words::words_decoded;

verus! {

/// Text without emphasis.
pub open spec fn unmarked(text: Seq<char>) -> InlineView {
    InlineView::Text { text, style: Style { bold: false } }
}

/// A field with something to show: it is there, and not blank once its encoded
/// words are decoded.
pub open spec fn has_value(fields: Seq<(Seq<char>, Seq<char>)>, key: Seq<char>) -> bool {
    field(fields, key) is Some && !is_blank(words_decoded(field(fields, key)->0))
}

/// A line of metadata, where the field has something to show: the label, a
/// colon and a space, and the value.
pub open spec fn row(
    fields: Seq<(Seq<char>, Seq<char>)>,
    label: Seq<char>,
    key: Seq<char>,
) -> Seq<(Seq<char>, Seq<char>)> {
    if has_value(fields, key) {
        seq![(label, words_decoded(field(fields, key)->0))]
    } else {
        seq![]
    }
}

/// The lines of metadata: sender, recipients, copies and date, in this order.
pub open spec fn rows(fields: Seq<(Seq<char>, Seq<char>)>) -> Seq<(Seq<char>, Seq<char>)> {
    row(fields, "From: "@, "from"@) + row(fields, "To: "@, "to"@) + row(fields, "Cc: "@, "cc"@)
        + row(fields, "Date: "@, "date"@)
}

/// `content` is the rows and nothing else: each a bold label directly followed
/// by its value, with one line break between each two rows.
pub open spec fn lays_out(content: Seq<InlineView>, rows: Seq<(Seq<char>, Seq<char>)>) -> bool {
    &&& rows.len() == 0 ==> content.len() == 0
    &&& rows.len() > 0 ==> content.len() == 3 * rows.len() - 1
    &&& forall|k: int|
        0 <= k < rows.len() ==> {
            let r = #[trigger] rows[k];
            &&& content[3 * k] == InlineView::Text { text: r.0, style: Style { bold: true } }
            &&& content[3 * k + 1] == unmarked(r.1)
            &&& k > 0 ==> content[3 * k - 1] == InlineView::LineBreak
        }
}

/// One more row behind those that are laid out.
proof fn lemma_row_added(
    before: Seq<InlineView>,
    above: Seq<(Seq<char>, Seq<char>)>,
    fields: Seq<(Seq<char>, Seq<char>)>,
    name: Seq<char>,
    label: Seq<char>,
    key: Seq<char>,
)
    requires
        lays_out(before, above),
        label == name + seq![':', ' '],
    ensures
        lays_out(
            crate::message::with_field(before, fields, name, key),
            above + row(fields, label, key),
        ),
{
    let after = crate::message::with_field(before, fields, name, key);
    let all = above + row(fields, label, key);
    let n = above.len() as int;
    if has_value(fields, key) {
        assert forall|k: int| 0 <= k < all.len() implies ({
            let r = #[trigger] all[k];
            &&& after[3 * k] == InlineView::Text { text: r.0, style: Style { bold: true } }
            &&& after[3 * k + 1] == unmarked(r.1)
            &&& k > 0 ==> after[3 * k - 1] == InlineView::LineBreak
        }) by {
            if k < n {
                assert(all[k] == above[k]);
                assert(3 * k + 1 < before.len());
            } else {
                assert(k == n);
                assert(all[k] == (label, words_decoded(field(fields, key)->0)));
            }
        }
    } else {
        assert(all =~= above);
    }
}

/// The metadata is a line for each of the fields `from`, `to`, `cc` and `date`
/// that has something to show, in this order, and nothing else.
pub proof fn law_metadata_shows_every_field(fields: Seq<(Seq<char>, Seq<char>)>)
    ensures
        lays_out(metadata(fields), rows(fields)),
{
    reveal_strlit("From");
    reveal_strlit("To");
    reveal_strlit("Cc");
    reveal_strlit("Date");
    reveal_strlit("From: ");
    reveal_strlit("To: ");
    reveal_strlit("Cc: ");
    reveal_strlit("Date: ");
    assert("From: "@ =~= "From"@ + seq![':', ' ']);
    assert("To: "@ =~= "To"@ + seq![':', ' ']);
    assert("Cc: "@ =~= "Cc"@ + seq![':', ' ']);
    assert("Date: "@ =~= "Date"@ + seq![':', ' ']);
    let none = Seq::<(Seq<char>, Seq<char>)>::empty();
    let start = Seq::<InlineView>::empty();
    let a = row(fields, "From: "@, "from"@);
    let b = row(fields, "To: "@, "to"@);
    let c = row(fields, "Cc: "@, "cc"@);
    let from = crate::message::with_field(start, fields, "From"@, "from"@);
    let to = crate::message::with_field(from, fields, "To"@, "to"@);
    let cc = crate::message::with_field(to, fields, "Cc"@, "cc"@);
    assert(lays_out(start, none));
    lemma_row_added(start, none, fields, "From"@, "From: "@, "from"@);
    assert(none + a =~= a);
    lemma_row_added(from, a, fields, "To"@, "To: "@, "to"@);
    lemma_row_added(to, a + b, fields, "Cc"@, "Cc: "@, "cc"@);
    lemma_row_added(cc, a + b + c, fields, "Date"@, "Date: "@, "date"@);
}

/// A document holds, in this order: a heading of the first level with the
/// subject, where it has something to show; a paragraph with the metadata, where
/// one of its fields has; and the blocks of the body. Nothing else stands in it,
/// and every message whose text can be shown has one.
pub proof fn law_document_has_three_pieces(bytes: Seq<u8>, text: Seq<char>)
    requires
        message_text(bytes) == Ok::<Seq<char>, Problem>(text),
    ensures
        message_blocks(bytes) matches Ok(blocks) && {
            let fields = message_fields(bytes);
            let h: int = if has_value(fields, "subject"@) {
                1
            } else {
                0
            };
            let m: int = if rows(fields).len() > 0 {
                1
            } else {
                0
            };
            &&& blocks.len() == h + m + body_blocks(text).len()
            &&& h == 1 ==> blocks[0] == (BlockView::Heading {
                level: 1,
                anchor: None,
                content: seq![unmarked(words_decoded(field(fields, "subject"@)->0))],
            })
            &&& m == 1 ==> (blocks[h] matches BlockView::Paragraph(content) && lays_out(
                content,
                rows(fields),
            ))
            &&& blocks.skip(h + m) == body_blocks(text)
        },
{
    let fields = message_fields(bytes);
    law_metadata_shows_every_field(fields);
    let blocks = message_blocks(bytes)->Ok_0;
    let h: int = if has_value(fields, "subject"@) {
        1
    } else {
        0
    };
    let m: int = if rows(fields).len() > 0 {
        1
    } else {
        0
    };
    assert(blocks.skip(h + m) =~= body_blocks(text));
}

/// Lines as a paragraph shows them: each as unmarked text, with one line break
/// between each two.
pub open spec fn shows_lines(content: Seq<InlineView>, ls: Seq<Seq<char>>) -> bool {
    &&& content.len() == 2 * ls.len() - 1
    &&& forall|k: int|
        0 <= k < ls.len() ==> {
            &&& content[2 * k] == unmarked(#[trigger] ls[k])
            &&& k > 0 ==> content[2 * k - 1] == InlineView::LineBreak
        }
}

/// Lines without the carriage returns that belong to their ends. The last line
/// has no line feed behind it, and keeps what it has.
pub open spec fn bare_lines(ls: Seq<Seq<char>>) -> Seq<Seq<char>> {
    Seq::new(
        ls.len(),
        |k: int|
            if k + 1 < ls.len() && ls[k].len() > 0 && ls[k].last() == '\r' {
                ls[k].drop_last()
            } else {
                ls[k]
            },
    )
}

/// Lines that are joined by line feeds are read again.
proof fn lemma_lines_of_joined(ls: Seq<Seq<char>>)
    requires
        ls.len() > 0,
        forall|i: int| 0 <= i < ls.len() ==> !(#[trigger] ls[i]).contains('\n'),
        ls.last().len() > 0,
    ensures
        lines(joined_by(ls, '\n')) == bare_lines(ls),
    decreases ls.len(),
{
    let line = ls[0];
    assert(!line.contains('\n'));
    if ls.len() == 1 {
        law_line_ends_are_alike(line, seq![]);
        assert(bare_lines(ls) =~= seq![line]);
    } else {
        let others = ls.drop_first();
        let rest = joined_by(others, '\n');
        assert forall|i: int| 0 <= i < others.len() implies !(#[trigger] others[i]).contains(
            '\n',
        ) by {
            assert(others[i] == ls[i + 1]);
        }
        lemma_lines_of_joined(others);
        if line.len() > 0 && line.last() == '\r' {
            let bare = line.drop_last();
            assert(!bare.contains('\n')) by {
                if bare.contains('\n') {
                    let k = choose|k: int| 0 <= k < bare.len() && bare[k] == '\n';
                    assert(line[k] == '\n');
                }
            }
            law_line_ends_are_alike(bare, rest);
            assert(line + seq!['\n'] + rest =~= bare + seq!['\r', '\n'] + rest);
            assert(bare_lines(ls) =~= seq![bare] + bare_lines(others));
        } else {
            law_line_ends_are_alike(line, rest);
            assert(bare_lines(ls) =~= seq![line] + bare_lines(others));
        }
    }
}

/// `pat` stands nowhere in `s`.
spec fn is_absent(s: Seq<char>, pat: Seq<char>) -> bool {
    forall|j: int| !#[trigger] occurs_at(s, pat, j)
}

/// Lines that hold something make no empty line, and no line feed at either
/// end.
proof fn lemma_no_double_feed(ls: Seq<Seq<char>>)
    requires
        ls.len() > 0,
        forall|i: int|
            0 <= i < ls.len() ==> (#[trigger] ls[i]).len() > 0 && !ls[i].contains('\n'),
    ensures
        joined_by(ls, '\n').len() > 0,
        joined_by(ls, '\n')[0] != '\n',
        joined_by(ls, '\n').last() != '\n',
        is_absent(joined_by(ls, '\n'), seq!['\n', '\n']),
    decreases ls.len(),
{
    let two = seq!['\n', '\n'];
    let s = joined_by(ls, '\n');
    let line = ls[0];
    let n = line.len() as int;
    assert(two.len() == 2 && two[0] == '\n' && two[1] == '\n');
    assert(line.len() > 0 && !line.contains('\n'));
    assert(line.contains(line[0]) && line.contains(line.last()));
    if ls.len() > 1 {
        let others = ls.drop_first();
        let rest = joined_by(others, '\n');
        assert forall|i: int| 0 <= i < others.len() implies (#[trigger] others[i]).len() > 0
            && !others[i].contains('\n') by {
            assert(others[i] == ls[i + 1]);
        }
        lemma_no_double_feed(others);
        assert(s[0] == line[0]);
        assert(s.last() == rest.last());
        assert forall|j: int| !#[trigger] occurs_at(s, two, j) by {
            if occurs_at(s, two, j) {
                assert(two[0] == s[j + 0] && two[1] == s[j + 1]);
                if j < n {
                    assert(s[j] == line[j]);
                    assert(line.contains(line[j]));
                } else if j == n {
                    assert(s[j + 1] == rest[0]);
                } else {
                    assert(s[j] == rest[j - n - 1] && s[j + 1] == rest[j - n]);
                    assert(occurs_at(rest, two, j - n - 1)) by {
                        assert forall|k: int| 0 <= k < two.len() implies #[trigger] two[k] == rest[
                        j - n - 1 + k] by {}
                    }
                }
            }
        }
    } else {
        assert forall|j: int| !#[trigger] occurs_at(s, two, j) by {
            if occurs_at(s, two, j) {
                assert(two[0] == s[j + 0]);
                assert(line.contains(line[j]));
            }
        }
    }
}

/// Line breaks stand between lines.
proof fn lemma_joined_shows(ls: Seq<Seq<char>>)
    requires
        ls.len() > 0,
    ensures
        shows_lines(joined(ls), ls),
{
    let content = joined(ls);
    assert forall|k: int| 0 <= k < ls.len() implies ({
        &&& content[2 * k] == unmarked(#[trigger] ls[k])
        &&& k > 0 ==> content[2 * k - 1] == InlineView::LineBreak
    }) by {
        assert((2 * k) % 2 == 0 && (2 * k) / 2 == k);
        assert((2 * k - 1) % 2 == 1);
    }
}

spec fn stretch_of(p: Seq<char>) -> Seq<char> {
    strip(p, Class::Only('\n'))
}

/// How the paragraphs of a text that is split once come about.
proof fn lemma_paragraphs_split(s: Seq<char>, p: Seq<char>, others: Seq<Seq<char>>)
    requires
        split(s, seq!['\n', '\n']) == seq![p] + others,
    ensures
        ({
            let strip_one = |p: Seq<char>| strip(p, Class::Only('\n'));
            let keep = |p: Seq<char>| !is_blank(p);
            let more = others.map_values(strip_one).filter(keep);
            paragraphs(s) == if is_blank(stretch_of(p)) {
                more
            } else {
                seq![stretch_of(p)] + more
            }
        }),
{
    let strip_one = |p: Seq<char>| strip(p, Class::Only('\n'));
    let keep = |p: Seq<char>| !is_blank(p);
    let rest = others.map_values(strip_one);
    let q = stretch_of(p);
    assert(split(s, seq!['\n', '\n']).map_values(strip_one) =~= seq![q] + rest);
    Seq::filter_distributes_over_add(seq![q], rest, keep);
    reveal(Seq::filter);
    assert(seq![q].drop_last() =~= seq![]);
    assert(seq![q].drop_last().filter(keep) =~= seq![]);
    if is_blank(q) {
        assert(seq![q].filter(keep) =~= seq![]);
        assert(seq![q].filter(keep) + rest.filter(keep) =~= rest.filter(keep));
    } else {
        assert(seq![q].filter(keep) =~= seq![q]);
    }
}

/// A stretch behind which a pair of line feeds stands, without such a pair
/// inside it, is split off.
proof fn lemma_split_off(p: Seq<char>, rest: Seq<char>)
    requires
        p.len() > 0 ==> p.last() != '\n',
        is_absent(p, seq!['\n', '\n']),
    ensures
        split(p + seq!['\n', '\n'] + rest, seq!['\n', '\n']) == seq![p] + split(
            rest,
            seq!['\n', '\n'],
        ),
{
    let two = seq!['\n', '\n'];
    let s = p + two + rest;
    let n = p.len() as int;
    assert(two.len() == 2 && two[0] == '\n' && two[1] == '\n');
    assert(occurs_at(s, two, n)) by {
        assert forall|k: int| 0 <= k < two.len() implies #[trigger] two[k] == s[n + k] by {}
    }
    assert forall|j: int| 0 <= j < n implies !#[trigger] occurs_at(s, two, j) by {
        if occurs_at(s, two, j) {
            assert(two[0] == s[j + 0] && two[1] == s[j + 1]);
            if j == n - 1 {
                assert(s[j] == p.last());
            } else {
                assert(occurs_at(p, two, j)) by {
                    assert forall|k: int| 0 <= k < two.len() implies #[trigger] two[k] == p[j
                        + k] by {
                        assert(s[j + k] == p[j + k]);
                    }
                }
            }
        }
    }
    assert(first_at(s, two, n));
    lemma_find_first(s, two, n);
    assert(s.take(n) =~= p);
    assert(s.skip(n + 2) =~= rest);
}

/// A stretch without a pair of line feeds is one piece.
proof fn lemma_one_piece(p: Seq<char>)
    requires
        is_absent(p, seq!['\n', '\n']),
    ensures
        split(p, seq!['\n', '\n']) == seq![p] + Seq::<Seq<char>>::empty(),
{
    lemma_find_none(p, seq!['\n', '\n']);
    assert(seq![p] =~= seq![p] + Seq::<Seq<char>>::empty());
}

/// A line feed in front of a text adds nothing to its paragraphs.
pub proof fn law_leading_line_feed_shows_nothing(s: Seq<char>)
    ensures
        body_blocks(seq!['\n'] + s) == body_blocks(s),
        body_blocks(seq![]).len() == 0,
    decreases s.len(),
{
    lemma_leading_feed(s);
    assert(body_blocks(seq!['\n'] + s) =~= body_blocks(s));
    let none = Seq::<char>::empty();
    lemma_no_paragraph(none);
}

proof fn lemma_no_paragraph(none: Seq<char>)
    requires
        none.len() == 0,
    ensures
        paragraphs(none) == Seq::<Seq<char>>::empty(),
{
    let two = seq!['\n', '\n'];
    let no_others = Seq::<Seq<char>>::empty();
    assert(two.len() == 2);
    lemma_one_piece(none);
    lemma_paragraphs_split(none, none, no_others);
    reveal(Seq::filter);
    let strip_one = |p: Seq<char>| strip(p, Class::Only('\n'));
    assert(no_others.map_values(strip_one) =~= no_others);
    assert(stretch_of(none).len() == 0);
}

proof fn lemma_leading_feed(s: Seq<char>)
    ensures
        paragraphs(seq!['\n'] + s) == paragraphs(s),
    decreases s.len(),
{
    let two = seq!['\n', '\n'];
    let t = seq!['\n'] + s;
    let none = Seq::<char>::empty();
    assert(two.len() == 2 && two[0] == '\n' && two[1] == '\n');
    if s.len() == 0 {
        lemma_no_paragraph(s);
        assert forall|j: int| !#[trigger] occurs_at(t, two, j) by {
            if occurs_at(t, two, j) {
                assert(t.len() == 1);
            }
        }
        lemma_one_piece(t);
        let no_others = Seq::<Seq<char>>::empty();
        lemma_paragraphs_split(t, t, no_others);
        reveal(Seq::filter);
        let strip_one = |p: Seq<char>| strip(p, Class::Only('\n'));
        assert(no_others.map_values(strip_one) =~= no_others);
        assert(t.drop_first() =~= none);
        assert(strip_start(none, Class::Only('\n')) == none);
        assert(stretch_of(t) =~= none);
    } else if s[0] == '\n' {
        let rest = s.drop_first();
        assert(t =~= none + two + rest);
        assert(s =~= seq!['\n'] + rest);
        lemma_leading_feed(rest);
        assert forall|j: int| !#[trigger] occurs_at(none, two, j) by {}
        lemma_split_off(none, rest);
        lemma_paragraphs_split(t, none, split(rest, two));
        assert(stretch_of(none).len() == 0);
    } else {
        lemma_find_shift(s);
        match find(s, two) {
            Some(i) => {
                lemma_find_some(s, two);
                let p = s.take(i);
                let others = split(s.skip(i + 2), two);
                assert(t.take(i + 1) =~= seq!['\n'] + p);
                assert(t.skip(i + 3) =~= s.skip(i + 2));
                assert(split(s, two) == seq![p] + others);
                assert(split(t, two) == seq![t.take(i + 1)] + others);
                lemma_strip_feed(p);
                lemma_paragraphs_split(s, p, others);
                lemma_paragraphs_split(t, t.take(i + 1), others);
            },
            None => {
                let no_others = Seq::<Seq<char>>::empty();
                assert(split(s, two) =~= seq![s] + no_others);
                assert(split(t, two) =~= seq![t] + no_others);
                lemma_strip_feed(s);
                lemma_paragraphs_split(s, s, no_others);
                lemma_paragraphs_split(t, t, no_others);
            },
        }
    }
}

proof fn lemma_strip_feed(p: Seq<char>)
    ensures
        stretch_of(seq!['\n'] + p) == stretch_of(p),
{
    let t = seq!['\n'] + p;
    assert(t[0] == '\n');
    assert(t.drop_first() =~= p);
}

/// A line feed in front of a text that begins with none moves the first pair of
/// line feeds by one.
proof fn lemma_find_shift(s: Seq<char>)
    requires
        s.len() > 0,
        s[0] != '\n',
    ensures
        find(seq!['\n'] + s, seq!['\n', '\n']) == match find(s, seq!['\n', '\n']) {
            Some(i) => Some(i + 1),
            None => None,
        },
{
    let two = seq!['\n', '\n'];
    let t = seq!['\n'] + s;
    assert(two.len() == 2 && two[0] == '\n' && two[1] == '\n');
    assert forall|j: int| #[trigger] occurs_at(t, two, j) implies j > 0 && occurs_at(
        s,
        two,
        j - 1,
    ) by {
        assert(two[0] == t[j + 0] && two[1] == t[j + 1]);
        if j > 0 {
            assert forall|k: int| 0 <= k < two.len() implies #[trigger] two[k] == s[j - 1 + k] by {
                assert(t[j + k] == s[j - 1 + k]);
            }
        } else {
            assert(t[1] == s[0]);
        }
    }
    match find(s, two) {
        Some(i) => {
            lemma_find_some(s, two);
            assert(occurs_at(t, two, i + 1)) by {
                assert forall|k: int| 0 <= k < two.len() implies #[trigger] two[k] == t[i + 1
                    + k] by {
                    assert(two[k] == s[i + k]);
                }
            }
            assert forall|j: int| 0 <= j < i + 1 implies !#[trigger] occurs_at(t, two, j) by {
                if occurs_at(t, two, j) {
                    assert(!occurs_at(s, two, j - 1));
                }
            }
            assert(first_at(t, two, i + 1));
            lemma_find_first(t, two, i + 1);
        },
        None => {
            assert forall|j: int| 0 <= j <= t.len() implies !#[trigger] occurs_at(t, two, j) by {
                if occurs_at(t, two, j) {
                    crate::laws::lemma_occurs_found(s, two, j - 1);
                }
            }
            lemma_find_none(t, two);
        },
    }
}

/// The block that a stretch of lines makes: a paragraph with its lines, or
/// nothing where it is blank.
pub open spec fn is_block_of(blocks: Seq<BlockView>, ls: Seq<Seq<char>>) -> bool {
    if is_blank(joined_by(ls, '\n')) {
        blocks.len() == 0
    } else {
        &&& blocks.len() == 1
        &&& blocks[0] matches BlockView::Paragraph(content) && shows_lines(content, bare_lines(ls))
    }
}

/// Lines that hold something and stand one below the other make one paragraph,
/// which shows every one of them, in order, with a line break between each two;
/// blank ones make none. An empty line ends the paragraph, and what stands
/// behind it is shown behind it. A line feed at the end adds nothing.
pub proof fn law_lines_make_a_paragraph(ls: Seq<Seq<char>>, rest: Seq<char>)
    requires
        ls.len() > 0,
        forall|i: int|
            0 <= i < ls.len() ==> (#[trigger] ls[i]).len() > 0 && !ls[i].contains('\n'),
    ensures
        is_block_of(body_blocks(joined_by(ls, '\n')), ls),
        is_block_of(body_blocks(joined_by(ls, '\n') + seq!['\n']), ls),
        exists|first: Seq<BlockView>| #[trigger]
            is_block_of(first, ls) && body_blocks(joined_by(ls, '\n') + seq!['\n', '\n'] + rest)
                == first + body_blocks(rest),
{
    let p = joined_by(ls, '\n');
    let two = seq!['\n', '\n'];
    let no_others = Seq::<Seq<char>>::empty();
    let strip_one = |p: Seq<char>| strip(p, Class::Only('\n'));
    let keep = |p: Seq<char>| !is_blank(p);
    let build = |p: Seq<char>| BlockView::Paragraph(joined(lines(p)));
    lemma_no_double_feed(ls);
    lemma_lines_of_joined(ls);
    lemma_joined_shows(bare_lines(ls));
    assert(no_others.map_values(strip_one) =~= no_others);
    assert(no_others.filter(keep) =~= no_others) by {
        reveal(Seq::filter);
    }
    assert(stretch_of(p) == p);
    lemma_one_piece(p);
    lemma_paragraphs_split(p, p, no_others);
    let first = body_blocks(p);
    if !is_blank(p) {
        assert(paragraphs(p) =~= seq![p]);
        assert(first =~= seq![build(p)]);
    }
    let q = p + seq!['\n'];
    assert(two.len() == 2 && two[0] == '\n' && two[1] == '\n');
    assert forall|j: int| !#[trigger] occurs_at(q, two, j) by {
        if occurs_at(q, two, j) {
            assert(two[0] == q[j + 0] && two[1] == q[j + 1]);
            assert(q[j] == p[j]);
            if j + 1 < p.len() {
                assert(occurs_at(p, two, j)) by {
                    assert forall|k: int| 0 <= k < two.len() implies #[trigger] two[k] == p[j
                        + k] by {
                        assert(q[j + k] == p[j + k]);
                    }
                }
            }
        }
    }
    lemma_one_piece(q);
    assert(q[0] == p[0] && q.last() == '\n' && q.drop_last() =~= p);
    assert(stretch_of(q) == p) by {
        assert(strip_start(q, Class::Only('\n')) == q);
        assert(strip_end(p, Class::Only('\n')) == p);
    }
    lemma_paragraphs_split(q, q, no_others);
    assert(paragraphs(q) == paragraphs(p));
    let s = p + two + rest;
    lemma_split_off(p, rest);
    lemma_paragraphs_split(s, p, split(rest, two));
    assert(body_blocks(s) =~= first + body_blocks(rest));
    assert(is_block_of(first, ls));
}

/// A cleaning that answers every text as `f` does turns every run of text of a
/// document that is not bold into what `f` makes of it, and changes nothing
/// else: not the bold labels, not the line breaks, not the level or the anchor
/// of a heading, not the number or the kinds of the blocks.
pub proof fn law_cleaning_changes_texts_alone<F: Fn(&str) -> String>(
    clean: F,
    f: spec_fn(Seq<char>) -> Seq<char>,
    before: Seq<BlockView>,
    after: Seq<BlockView>,
    i: int,
    k: int,
)
    requires
        forall|s: &str, t: String| #[trigger] clean.ensures((s,), t) ==> t@ == f(s@),
        cleans_blocks(clean, before, after),
        0 <= i < before.len(),
    ensures
        after.len() == before.len(),
        before[i] matches BlockView::Heading { level, anchor, content } ==> (
        after[i] matches BlockView::Heading { level: l, anchor: a, content: new } && l == level && a
            == anchor && new.len() == content.len() && (0 <= k < content.len()
            ==> cleaned_by(f, content[k], new[k]))),
        before[i] matches BlockView::Paragraph(content) ==> (
        after[i] matches BlockView::Paragraph(new) && new.len() == content.len() && (0 <= k
            < content.len() ==> cleaned_by(f, content[k], new[k]))),
{
    assert(crate::model::cleans_block(clean, before[i], after[i]));
}

/// `after` is `before` with `f` applied to its text, unless it is bold.
pub open spec fn cleaned_by(
    f: spec_fn(Seq<char>) -> Seq<char>,
    before: InlineView,
    after: InlineView,
) -> bool {
    match before {
        InlineView::Text { text, style } => after == InlineView::Text {
            text: if style.bold {
                text
            } else {
                f(text)
            },
            style,
        },
        InlineView::LineBreak => after == InlineView::LineBreak,
    }
}

} // verus!
