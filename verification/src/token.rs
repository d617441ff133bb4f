use vstd::prelude::*;

verus! {

/// The depth of a header: the number of `#` that introduce it, at most six.
#[derive(Debug, PartialEq, Eq, Clone, Copy)]
pub enum HeaderLevel {
    One,
    Two,
    Three,
    Four,
    Five,
    Six,
}

/// The four emphasis styles.
pub enum Style {
    Italic,
    Bold,
    BoldItalic,
    Code,
}

/// An inline token: a run of plain text, or a style and its children.
#[derive(Debug, PartialEq, Eq)]
pub enum TextToken {
    Text(String),
    Italic(Vec<TextToken>),
    Bold(Vec<TextToken>),
    BoldItalic(Vec<TextToken>),
    Code(Vec<TextToken>),
}

/// A block token.
#[derive(Debug, PartialEq, Eq)]
pub enum MarkdownToken {
    Header(HeaderLevel, Vec<TextToken>),
    NewLine,
    Paragraph(Vec<TextToken>),
}

/// The mathematical value of an inline token.
pub enum Inline {
    Text(Seq<char>),
    Styled(Style, Seq<Inline>),
}

/// The mathematical value of a block token.
pub enum Block {
    Header(HeaderLevel, Seq<Inline>),
    NewLine,
    Paragraph(Seq<Inline>),
}

/// The values of a sequence of inline tokens, in order.
pub open spec fn inline_views(tokens: Seq<TextToken>) -> Seq<Inline>
    decreases tokens,
{
    Seq::new(
        tokens.len(),
        |i: int|
            if 0 <= i < tokens.len() {
                tokens[i].view()
            } else {
                Inline::Text(Seq::empty())
            },
    )
}

impl View for TextToken {
    type V = Inline;

    open spec fn view(&self) -> Inline
        decreases self,
    {
        match self {
            TextToken::Text(s) => Inline::Text(s@),
            TextToken::Italic(kids) => Inline::Styled(Style::Italic, inline_views(kids@)),
            TextToken::Bold(kids) => Inline::Styled(Style::Bold, inline_views(kids@)),
            TextToken::BoldItalic(kids) => Inline::Styled(Style::BoldItalic, inline_views(kids@)),
            TextToken::Code(kids) => Inline::Styled(Style::Code, inline_views(kids@)),
        }
    }
}

impl View for MarkdownToken {
    type V = Block;

    open spec fn view(&self) -> Block {
        match self {
            MarkdownToken::Header(level, kids) => Block::Header(*level, inline_views(kids@)),
            MarkdownToken::NewLine => Block::NewLine,
            MarkdownToken::Paragraph(kids) => Block::Paragraph(inline_views(kids@)),
        }
    }
}

/// The values of a sequence of block tokens, in order.
pub open spec fn block_views(tokens: Seq<MarkdownToken>) -> Seq<Block> {
    Seq::new(tokens.len(), |i: int| tokens[i]@)
}

/// Appending a token appends its value.
pub proof fn lemma_inline_views_push(tokens: Seq<TextToken>, token: TextToken)
    ensures
        inline_views(tokens.push(token)) == inline_views(tokens).push(token@),
{
    assert(inline_views(tokens.push(token)) =~= inline_views(tokens).push(token@));
}

/// Appending a block token appends its value.
pub proof fn lemma_block_views_push(tokens: Seq<MarkdownToken>, token: MarkdownToken)
    ensures
        block_views(tokens.push(token)) == block_views(tokens).push(token@),
{
    assert(block_views(tokens.push(token)) =~= block_views(tokens).push(token@));
}

} // verus!
