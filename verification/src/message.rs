//! A whole message turned into a document: the subject as a heading, a
//! paragraph with sender, recipients and date, then the body.

use vstd::prelude::*;

use crate::charset::utf8_text;
use crate::error::{ConvertError, Problem};
use crate::headers::{field, fields_of, values_within, Headers};
use crate::mime::{body_of, extract_text, header_block, levels_at, split_headers, text_of};
use crate::model::{
    blocks, bold, cleans_blocks, inlines, plain, Block, BlockView, Document, Inline, InlineView,
    Style,
};
use crate::text::{
    blank, chars_of, is_blank, line_slices, lines, pieces, split, string_of, strip, stripped, texts,
    Class,
};
use crate::words::{decode_words, lemma_utf8_len, words_decoded};

verus! {

/// The heading that a subject makes, unless it is blank or missing.
pub open spec fn subject_blocks(fields: Seq<(Seq<char>, Seq<char>)>) -> Seq<BlockView> {
    match field(fields, "subject"@) {
        Some(raw) => if is_blank(words_decoded(raw)) {
            seq![]
        } else {
            seq![
                BlockView::Heading {
                    level: 1,
                    anchor: None,
                    content: seq![plain(words_decoded(raw))],
                },
            ]
        },
        None => seq![],
    }
}

/// `before` with the field called `key` on a line of its own, behind a bold
/// label, unless the field is blank or missing.
pub open spec fn with_field(
    before: Seq<InlineView>,
    fields: Seq<(Seq<char>, Seq<char>)>,
    label: Seq<char>,
    key: Seq<char>,
) -> Seq<InlineView> {
    match field(fields, key) {
        Some(raw) => if is_blank(words_decoded(raw)) {
            before
        } else if before.len() > 0 {
            before + seq![
                InlineView::LineBreak,
                bold(label + seq![':', ' ']),
                plain(words_decoded(raw)),
            ]
        } else {
            seq![bold(label + seq![':', ' ']), plain(words_decoded(raw))]
        },
        None => before,
    }
}

/// The lines for sender, recipients, copies and date, as far as the fields are
/// there.
pub open spec fn metadata(fields: Seq<(Seq<char>, Seq<char>)>) -> Seq<InlineView> {
    let from = with_field(seq![], fields, "From"@, "from"@);
    let to = with_field(from, fields, "To"@, "to"@);
    let cc = with_field(to, fields, "Cc"@, "cc"@);
    with_field(cc, fields, "Date"@, "date"@)
}

/// The paragraph with the metadata, unless there is none.
pub open spec fn metadata_blocks(fields: Seq<(Seq<char>, Seq<char>)>) -> Seq<BlockView> {
    if metadata(fields).len() > 0 {
        seq![BlockView::Paragraph(metadata(fields))]
    } else {
        seq![]
    }
}

/// Lines of text with a line break between each two.
pub open spec fn joined(ls: Seq<Seq<char>>) -> Seq<InlineView> {
    if ls.len() == 0 {
        seq![]
    } else {
        Seq::new(
            (2 * ls.len() - 1) as nat,
            |i: int|
                if i % 2 == 0 {
                    plain(ls[i / 2])
                } else {
                    InlineView::LineBreak
                },
        )
    }
}

/// The stretches of a text that line feeds in pairs set apart, without the line
/// feeds around them, and without those that are blank.
pub open spec fn paragraphs(text: Seq<char>) -> Seq<Seq<char>> {
    split(text, seq!['\n', '\n']).map_values(|p: Seq<char>| strip(p, Class::Only('\n'))).filter(
        |p: Seq<char>| !is_blank(p),
    )
}

/// The paragraphs of a body.
pub open spec fn body_blocks(text: Seq<char>) -> Seq<BlockView> {
    paragraphs(text).map_values(|p: Seq<char>| BlockView::Paragraph(joined(lines(p))))
}

/// The fields of a message.
pub open spec fn message_fields(bytes: Seq<u8>) -> Seq<(Seq<char>, Seq<char>)> {
    fields_of(lines(utf8_text(header_block(bytes))))
}

/// The text to show of a message.
pub open spec fn message_text(bytes: Seq<u8>) -> Result<Seq<char>, Problem> {
    text_of(message_fields(bytes), body_of(bytes), levels_at(0))
}

/// The document that a message turns into. A message without a text to show
/// turns into none.
pub open spec fn message_blocks(bytes: Seq<u8>) -> Result<Seq<BlockView>, Problem> {
    match message_text(bytes) {
        Ok(text) => Ok(
            subject_blocks(message_fields(bytes)) + metadata_blocks(message_fields(bytes))
                + body_blocks(text),
        ),
        Err(problem) => Err(problem),
    }
}

/// A field's value is within the bound for all values.
proof fn lemma_field_within(fields: Seq<(Seq<char>, Seq<char>)>, name: Seq<char>, n: int)
    requires
        values_within(fields, n),
    ensures
        field(fields, name) matches Some(value) ==> value.len() <= n,
    decreases fields.len(),
{
    if fields.len() > 0 {
        let rest = fields.drop_first();
        assert(values_within(rest, n)) by {
            assert forall|i: int| 0 <= i < rest.len() implies (#[trigger] rest[i]).1.len() <= n by {
                assert(rest[i] == fields[i + 1]);
            }
        }
        lemma_field_within(rest, name, n);
    }
}

/// Adds the field called `key` to the metadata.
fn push_field(out: &mut Vec<Inline>, headers: &Headers, label: &str, key: &str)
    requires
        values_within(headers@, (usize::MAX / 64) as int),
    ensures
        inlines(final(out)@) == with_field(inlines(old(out)@), headers@, label@, key@),
{
    proof {
        lemma_field_within(headers@, key@, (usize::MAX / 64) as int);
    }
    let raw = match headers.get(key) {
        Some(raw) => raw,
        None => {
            return;
        },
    };
    proof {
        lemma_utf8_len(raw@);
    }
    let value = decode_words(raw.as_str());
    if blank(chars_of(value.as_str()).as_slice()) {
        return;
    }
    if out.len() > 0 {
        out.push(Inline::LineBreak);
    }
    let mut text = String::new();
    text.append(label);
    text.push(':');
    text.push(' ');
    assert(text@ =~= label@ + seq![':', ' ']);
    out.push(Inline::Text { text, style: Style { bold: true } });
    out.push(Inline::plain(value));
    assert(inlines(out@) =~= with_field(inlines(old(out)@), headers@, label@, key@));
}

/// Sender, recipients, copies and date, one line for each field that is there,
/// behind a bold label. The bound on the values is that of [`decode_words`].
pub fn metadata_block(headers: &Headers) -> (r: Vec<Inline>)
    requires
        values_within(headers@, (usize::MAX / 64) as int),
    ensures
        inlines(r@) == metadata(headers@),
{
    let mut out: Vec<Inline> = Vec::new();
    assert(inlines(out@) =~= seq![]);
    push_field(&mut out, headers, "From", "from");
    push_field(&mut out, headers, "To", "to");
    push_field(&mut out, headers, "Cc", "cc");
    push_field(&mut out, headers, "Date", "date");
    out
}

/// One more line comes behind a line break, unless it is the first.
proof fn lemma_joined_push(ls: Seq<Seq<char>>, line: Seq<char>)
    ensures
        ls.len() == 0 ==> joined(ls.push(line)) == seq![plain(line)],
        ls.len() > 0 ==> joined(ls.push(line)) == joined(ls) + seq![
            InlineView::LineBreak,
            plain(line),
        ],
{
    let all = ls.push(line);
    let n = ls.len() as int;
    if n == 0 {
        assert(joined(all) =~= seq![plain(line)]);
    } else {
        let expected = joined(ls) + seq![InlineView::LineBreak, plain(line)];
        assert forall|i: int| 0 <= i < 2 * n + 1 implies joined(all)[i] == expected[i] by {
            if i == 2 * n {
                assert(i % 2 == 0 && i / 2 == n);
            } else if i == 2 * n - 1 {
                assert(i % 2 == 1);
            } else {
                assert(0 <= i / 2 < n);
            }
        }
        assert(joined(all) =~= expected);
    }
}

/// The lines of a paragraph, with a line break between each two.
pub fn paragraph_inlines(paragraph: &[char]) -> (r: Vec<Inline>)
    ensures
        inlines(r@) == joined(lines(paragraph@)),
{
    let ls = line_slices(paragraph);
    let ghost all = texts(ls@);
    let mut out: Vec<Inline> = Vec::new();
    let mut i: usize = 0;
    assert(inlines(out@) =~= joined(all.take(0)));
    while i < ls.len()
        invariant
            i <= ls@.len(),
            all == texts(ls@),
            inlines(out@) == joined(all.take(i as int)),
        decreases ls@.len() - i,
    {
        let ghost before = inlines(out@);
        proof {
            lemma_joined_push(all.take(i as int), all[i as int]);
            assert(all.take(i + 1) =~= all.take(i as int).push(all[i as int]));
        }
        if i > 0 {
            out.push(Inline::LineBreak);
        }
        out.push(Inline::plain(string_of(ls[i])));
        assert(inlines(out@) =~= if i > 0 {
            before + seq![InlineView::LineBreak, plain(all[i as int])]
        } else {
            seq![plain(all[i as int])]
        });
        i = i + 1;
    }
    assert(all.take(i as int) =~= all);
    out
}

/// The paragraphs of a body's text.
pub fn paragraph_blocks(text: &str) -> (r: Vec<Block>)
    ensures
        blocks(r@) == body_blocks(text@),
{
    let chars = chars_of(text);
    assert(['\n', '\n']@ =~= seq!['\n', '\n']);
    let stretches = pieces(chars.as_slice(), &['\n', '\n']);
    let ghost strip_one = |p: Seq<char>| strip(p, Class::Only('\n'));
    let ghost keep = |p: Seq<char>| !is_blank(p);
    let ghost build = |p: Seq<char>| BlockView::Paragraph(joined(lines(p)));
    let ghost all = texts(stretches@).map_values(strip_one);
    let mut out: Vec<Block> = Vec::new();
    let mut i: usize = 0;
    proof {
        reveal(Seq::filter);
    }
    assert(blocks(out@) =~= all.take(0).filter(keep).map_values(build));
    while i < stretches.len()
        invariant
            i <= stretches@.len(),
            all == texts(stretches@).map_values(strip_one),
            strip_one == |p: Seq<char>| strip(p, Class::Only('\n')),
            keep == |p: Seq<char>| !is_blank(p),
            build == |p: Seq<char>| BlockView::Paragraph(joined(lines(p))),
            blocks(out@) == all.take(i as int).filter(keep).map_values(build),
        decreases stretches@.len() - i,
    {
        let paragraph = stripped(stretches[i], Class::Only('\n'));
        let ghost before = all.take(i as int);
        proof {
            reveal(Seq::filter);
            assert(paragraph@ == all[i as int]);
            assert(all.take(i + 1) =~= before.push(paragraph@));
            assert(all.take(i + 1).drop_last() =~= before);
        }
        if !blank(paragraph) {
            let ghost had = blocks(out@);
            out.push(Block::Paragraph(paragraph_inlines(paragraph)));
            assert(blocks(out@) =~= had.push(build(paragraph@)));
            assert(all.take(i + 1).filter(keep) == before.filter(keep).push(paragraph@));
            assert(blocks(out@) =~= all.take(i + 1).filter(keep).map_values(build));
        }
        i = i + 1;
    }
    assert(all.take(i as int) =~= all);
    out
}

/// Turns a message into a document. The text of the message stands in it as it
/// was decoded; [`parse_with`] also cleans it. The bound on the message is that
/// of [`decode_words`] on its header fields, at four bytes for a character.
pub fn parse(bytes: &[u8]) -> (r: Result<Document, ConvertError>)
    requires
        bytes@.len() <= usize::MAX / 64,
    ensures
        match r {
            Ok(doc) => message_blocks(bytes@) == Ok::<Seq<BlockView>, Problem>(doc@),
            Err(error) => message_blocks(bytes@) == Err::<Seq<BlockView>, Problem>(error@),
        },
        r is Ok <==> message_text(bytes@) is Ok,
{
    let (head, body) = split_headers(bytes);
    let headers = Headers::parse(head.as_slice());
    let mut doc = Document::default();
    proof {
        lemma_field_within(headers@, "subject"@, (usize::MAX / 64) as int);
    }
    if let Some(raw) = headers.get("subject") {
        proof {
            lemma_utf8_len(raw@);
        }
        let subject = decode_words(raw.as_str());
        if !blank(chars_of(subject.as_str()).as_slice()) {
            let mut content: Vec<Inline> = Vec::new();
            content.push(Inline::plain(subject));
            assert(inlines(content@) =~= seq![plain(words_decoded(raw@))]);
            doc.blocks.push(Block::Heading { level: 1, anchor: None, content });
        }
    }
    assert(doc@ =~= subject_blocks(headers@));
    let meta = metadata_block(&headers);
    if meta.len() > 0 {
        doc.blocks.push(Block::Paragraph(meta));
    }
    assert(doc@ =~= subject_blocks(headers@) + metadata_blocks(headers@));
    match extract_text(&headers, body, 0) {
        Ok(text) => {
            let mut rest = paragraph_blocks(text.as_str());
            let ghost front = doc@;
            let ghost back = rest@;
            doc.blocks.append(&mut rest);
            assert(doc@ =~= front + blocks(back));
            Ok(doc)
        },
        Err(error) => Err(error),
    }
}

/// Turns a message into a document whose text went through `clean`: the
/// subject, the values of the metadata and each line of the body, one at a
/// time. The labels of the metadata are no text of the message and stay.
pub fn parse_with<F: Fn(&str) -> String>(bytes: &[u8], clean: F) -> (r: Result<
    Document,
    ConvertError,
>)
    requires
        bytes@.len() <= usize::MAX / 64,
        forall|s: &str| clean.requires((s,)),
    ensures
        match r {
            Ok(doc) => message_blocks(bytes@) matches Ok(raw) && cleans_blocks(clean, raw, doc@),
            Err(error) => message_blocks(bytes@) == Err::<Seq<BlockView>, Problem>(error@),
        },
        r is Ok <==> message_text(bytes@) is Ok,
{
    match parse(bytes) {
        Ok(doc) => Ok(doc.cleaned(clean)),
        Err(error) => Err(error),
    }
}

} // verus!
