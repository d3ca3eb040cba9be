//! The document that a message turns into.

use vstd::prelude::*;

verus! {

/// How a run of text looks.
#[derive(Debug, Clone, Copy, PartialEq, Eq, Structural)]
pub struct Style {
    /// Whether the text is bold.
    pub bold: bool,
}

impl Default for Style {
    /// Text without any emphasis.
    fn default() -> (r: Style)
        ensures
            r == (Style { bold: false }),
    {
        Style { bold: false }
    }
}

/// A piece of a line.
#[derive(Debug)]
pub enum Inline {
    /// A run of text in one style.
    Text { text: String, style: Style },
    /// The end of a line inside a paragraph.
    LineBreak,
}

/// What an [`Inline`] holds.
pub enum InlineView {
    /// A run of text in one style.
    Text { text: Seq<char>, style: Style },
    /// The end of a line inside a paragraph.
    LineBreak,
}

impl View for Inline {
    type V = InlineView;

    open spec fn view(&self) -> InlineView {
        match self {
            Inline::Text { text, style } => InlineView::Text { text: text@, style: *style },
            Inline::LineBreak => InlineView::LineBreak,
        }
    }
}

/// Text without any emphasis.
pub open spec fn plain(text: Seq<char>) -> InlineView {
    InlineView::Text { text, style: Style { bold: false } }
}

/// Bold text.
pub open spec fn bold(text: Seq<char>) -> InlineView {
    InlineView::Text { text, style: Style { bold: true } }
}

/// What a run of inlines holds.
pub open spec fn inlines(v: Seq<Inline>) -> Seq<InlineView> {
    v.map_values(|i: Inline| i@)
}

impl Inline {
    /// Text without any emphasis.
    pub fn plain(text: String) -> (r: Inline)
        ensures
            r@ == plain(text@),
    {
        Inline::Text { text, style: Style::default() }
    }
}

/// A block of a document.
#[derive(Debug)]
pub enum Block {
    /// A heading.
    Heading { level: u8, anchor: Option<String>, content: Vec<Inline> },
    /// A paragraph.
    Paragraph(Vec<Inline>),
}

/// What a [`Block`] holds.
pub enum BlockView {
    /// A heading.
    Heading { level: u8, anchor: Option<Seq<char>>, content: Seq<InlineView> },
    /// A paragraph.
    Paragraph(Seq<InlineView>),
}

impl View for Block {
    type V = BlockView;

    open spec fn view(&self) -> BlockView {
        match self {
            Block::Heading { level, anchor, content } => BlockView::Heading {
                level: *level,
                anchor: match anchor {
                    Some(a) => Some(a@),
                    None => None,
                },
                content: inlines(content@),
            },
            Block::Paragraph(content) => BlockView::Paragraph(inlines(content@)),
        }
    }
}

/// What a run of blocks holds.
pub open spec fn blocks(v: Seq<Block>) -> Seq<BlockView> {
    v.map_values(|b: Block| b@)
}

/// A document: its blocks, in order.
#[derive(Debug)]
pub struct Document {
    /// The blocks of the document.
    pub blocks: Vec<Block>,
}

impl View for Document {
    type V = Seq<BlockView>;

    open spec fn view(&self) -> Seq<BlockView> {
        blocks(self.blocks@)
    }
}

impl Default for Document {
    /// The document without blocks.
    fn default() -> (r: Document)
        ensures
            r@ == Seq::<BlockView>::empty(),
    {
        Document { blocks: Vec::new() }
    }
}

/// `clean` may turn `before` into `after`.
pub open spec fn cleans<F: Fn(&str) -> String>(
    clean: F,
    before: Seq<char>,
    after: Seq<char>,
) -> bool {
    exists|s: &str, t: String| s@ == before && t@ == after && #[trigger] clean.ensures((s,), t)
}

/// `after` is `before` with its text cleaned. Bold text, which labels what
/// follows it, stays.
pub open spec fn cleans_inline<F: Fn(&str) -> String>(
    clean: F,
    before: InlineView,
    after: InlineView,
) -> bool {
    match before {
        InlineView::Text { text, style } => match after {
            InlineView::Text { text: new, style: new_style } => new_style == style
                && if style.bold {
                new == text
            } else {
                cleans(clean, text, new)
            },
            InlineView::LineBreak => false,
        },
        InlineView::LineBreak => after is LineBreak,
    }
}

/// `after` is `before` with its text cleaned.
pub open spec fn cleans_inlines<F: Fn(&str) -> String>(
    clean: F,
    before: Seq<InlineView>,
    after: Seq<InlineView>,
) -> bool {
    &&& after.len() == before.len()
    &&& forall|i: int|
        0 <= i < before.len() ==> cleans_inline(clean, before[i], #[trigger] after[i])
}

/// `after` is `before` with its text cleaned.
pub open spec fn cleans_block<F: Fn(&str) -> String>(
    clean: F,
    before: BlockView,
    after: BlockView,
) -> bool {
    match before {
        BlockView::Heading { level, anchor, content } => match after {
            BlockView::Heading { level: new_level, anchor: new_anchor, content: new } => new_level
                == level && new_anchor == anchor && cleans_inlines(clean, content, new),
            BlockView::Paragraph(_) => false,
        },
        BlockView::Paragraph(content) => match after {
            BlockView::Heading { .. } => false,
            BlockView::Paragraph(new) => cleans_inlines(clean, content, new),
        },
    }
}

/// `after` is `before` with its text cleaned.
pub open spec fn cleans_blocks<F: Fn(&str) -> String>(
    clean: F,
    before: Seq<BlockView>,
    after: Seq<BlockView>,
) -> bool {
    &&& after.len() == before.len()
    &&& forall|i: int| 0 <= i < before.len() ==> cleans_block(clean, before[i], #[trigger] after[i])
}

/// Cleans the text of a run of inlines.
fn clean_inlines<F: Fn(&str) -> String>(content: Vec<Inline>, clean: &F) -> (r: Vec<Inline>)
    requires
        forall|s: &str| clean.requires((s,)),
    ensures
        cleans_inlines(*clean, inlines(content@), inlines(r@)),
{
    let mut r: Vec<Inline> = Vec::new();
    let mut i: usize = 0;
    while i < content.len()
        invariant
            i <= content@.len(),
            r@.len() == i,
            forall|s: &str| clean.requires((s,)),
            forall|k: int|
                0 <= k < i ==> cleans_inline(*clean, content@[k]@, (#[trigger] r@[k])@),
        decreases content@.len() - i,
    {
        let next = match &content[i] {
            Inline::Text { text, style } => if style.bold {
                Inline::Text { text: text.clone(), style: *style }
            } else {
                let new = clean(text.as_str());
                assert(cleans(*clean, text@, new@));
                Inline::Text { text: new, style: *style }
            },
            Inline::LineBreak => Inline::LineBreak,
        };
        r.push(next);
        i = i + 1;
    }
    assert forall|k: int| 0 <= k < content@.len() implies cleans_inline(
        *clean,
        inlines(content@)[k],
        #[trigger] inlines(r@)[k],
    ) by {
        assert(cleans_inline(*clean, content@[k]@, r@[k]@));
    }
    r
}

impl Document {
    /// The document with its text cleaned: every heading, value and line goes
    /// through `clean`, bold labels stay.
    pub fn cleaned<F: Fn(&str) -> String>(self, clean: F) -> (r: Document)
        requires
            forall|s: &str| clean.requires((s,)),
        ensures
            cleans_blocks(clean, self@, r@),
    {
        let mut before = self.blocks;
        let mut r: Vec<Block> = Vec::new();
        let ghost all = before@;
        while before.len() > 0
            invariant
                r@.len() + before@.len() == all.len(),
                before@ == all.skip(r@.len() as int),
                forall|s: &str| clean.requires((s,)),
                forall|k: int|
                    0 <= k < r@.len() ==> cleans_block(clean, all[k]@, (#[trigger] r@[k])@),
            decreases before@.len(),
        {
            let block = before.remove(0);
            assert(block == all[r@.len() as int]);
            let next = match block {
                Block::Heading { level, anchor, content } => Block::Heading {
                    level,
                    anchor,
                    content: clean_inlines(content, &clean),
                },
                Block::Paragraph(content) => Block::Paragraph(clean_inlines(content, &clean)),
            };
            assert(cleans_block(clean, block@, next@));
            r.push(next);
            assert(before@ =~= all.skip(r@.len() as int));
        }
        let doc = Document { blocks: r };
        assert forall|k: int| 0 <= k < all.len() implies cleans_block(
            clean,
            self@[k],
            #[trigger] doc@[k],
        ) by {
            assert(cleans_block(clean, all[k]@, r@[k]@));
        }
        doc
    }
}

} // verus!
