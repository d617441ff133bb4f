use vstd::prelude::*;
use crate::grammar::{
    block_at, blocks, closes, document, is_delimiter, items, lemma_run_end, lemma_text_end,
    level_of, open_len, repeat, run_end, styled, text_end, valid_stack, Marker,
};
use crate::laws::{law_items_span, lemma_closing_run_fits};
use crate::token::{Block, HeaderLevel, Inline, Style};

verus! {

/// The run that writes a style: one, two and three asterisks for italic,
/// bold and both, one backtick for code.
pub open spec fn mark(style: Style) -> Seq<char> {
    match style {
        Style::Italic => repeat('*', 1),
        Style::Bold => repeat('*', 2),
        Style::BoldItalic => repeat('*', 3),
        Style::Code => repeat('`', 1),
    }
}

/// An inline token written as text: a text token is its text, a styled
/// token its children between two runs of its style.
pub open spec fn render(token: Inline) -> Seq<char>
    decreases token,
{
    match token {
        Inline::Text(t) => t,
        Inline::Styled(style, kids) => mark(style) + render_all(kids) + mark(style),
    }
}

/// A sequence of inline tokens written as text, one after the other.
pub open spec fn render_all(tokens: Seq<Inline>) -> Seq<char>
    decreases tokens,
{
    if tokens.len() == 0 {
        Seq::empty()
    } else {
        render(tokens[0]) + render_all(tokens.drop_first())
    }
}

/// Whether the inline tokens read at `p` end at a run that closes the
/// style on top of the stack, and not at the end of the line.
pub open spec fn ends_at_close(s: Seq<char>, p: int, stack: Seq<Marker>) -> bool
    decreases s.len() - p,
{
    if !(0 <= p < s.len()) || s[p] == '\n' {
        false
    } else if stack.len() > 0 && s[p] == stack.last().ch && closes(s, p, stack) {
        true
    } else {
        let q = if is_delimiter(s[p]) {
            styled(s, p, stack).1
        } else {
            text_end(s, p)
        };
        if p < q <= s.len() {
            ends_at_close(s, q, stack)
        } else {
            false
        }
    }
}

/// Whether every style among the inline tokens read at `p` is written out
/// in full: see `closed_styled`.
pub open spec fn closed_items(s: Seq<char>, p: int, stack: Seq<Marker>) -> bool
    decreases s.len() - p, 1int,
{
    if !(0 <= p < s.len()) || s[p] == '\n' {
        true
    } else if stack.len() > 0 && s[p] == stack.last().ch && closes(s, p, stack) {
        true
    } else {
        let q = if is_delimiter(s[p]) {
            styled(s, p, stack).1
        } else {
            text_end(s, p)
        };
        &&& is_delimiter(s[p]) ==> closed_styled(s, p, stack)
        &&& if p < q <= s.len() {
            closed_items(s, q, stack)
        } else {
            true
        }
    }
}

/// Whether the style opened at `p` is written out in full: it is opened by
/// asterisks or by a single backtick, a run closes it before the line ends,
/// and the same holds of every style inside it.
pub open spec fn closed_styled(s: Seq<char>, p: int, stack: Seq<Marker>) -> bool
    decreases s.len() - p, 0int,
{
    if !(0 <= p < s.len()) {
        false
    } else {
        let n = open_len(s, p);
        if 1 <= n <= 3 && p + n <= s.len() {
            let inner = stack.push(Marker { ch: s[p], len: n as usize });
            &&& s[p] == '*' || n == 1
            &&& ends_at_close(s, p + n, inner)
            &&& closed_items(s, p + n, inner)
        } else {
            false
        }
    }
}

/// Writing out the first of several tokens and then the others writes out
/// all of them.
pub proof fn lemma_render_all_first(token: Inline, rest: Seq<Inline>)
    ensures
        render_all(seq![token] + rest) == render(token) + render_all(rest),
{
    let all = seq![token] + rest;
    assert(all[0] == token);
    assert(all.drop_first() =~= rest);
}

/// The tokens read at `p`, written out, are the text from `p` up to the
/// run that closes the style around them, or up to the end of the line where
/// no run closes it.
pub proof fn lemma_render_items(s: Seq<char>, p: int, stack: Seq<Marker>)
    requires
        0 <= p <= s.len(),
        valid_stack(stack),
        closed_items(s, p, stack),
    ensures
        p <= items(s, p, stack).1 <= s.len(),
        ends_at_close(s, p, stack) ==> {
            let e = items(s, p, stack).1 - stack.last().len;
            &&& stack.len() > 0
            &&& p <= e < s.len()
            &&& s[e] == stack.last().ch
            &&& closes(s, e, stack)
            &&& render_all(items(s, p, stack).0) == s.subrange(p, e)
        },
        !ends_at_close(s, p, stack) ==> render_all(items(s, p, stack).0) == s.subrange(
            p,
            items(s, p, stack).1,
        ),
    decreases s.len() - p, 1int,
{
    if !(p < s.len()) || s[p] == '\n' {
        assert(s.subrange(p, p) =~= Seq::<char>::empty());
    } else if stack.len() > 0 && s[p] == stack.last().ch && closes(s, p, stack) {
        assert(s.subrange(p, p) =~= Seq::<char>::empty());
        lemma_closing_run_fits(s, p, stack);
    } else {
        let token = if is_delimiter(s[p]) {
            styled(s, p, stack).0
        } else {
            Inline::Text(s.subrange(p, text_end(s, p)))
        };
        let q = if is_delimiter(s[p]) {
            styled(s, p, stack).1
        } else {
            text_end(s, p)
        };
        if is_delimiter(s[p]) {
            lemma_render_styled(s, p, stack);
        } else {
            lemma_text_end(s, p);
        }
        assert(render(token) == s.subrange(p, q));
        lemma_render_items(s, q, stack);
        let rest = items(s, q, stack).0;
        let r = items(s, q, stack).1;
        lemma_render_all_first(token, rest);
        assert(items(s, p, stack) == (seq![token] + rest, r));
        if ends_at_close(s, p, stack) {
            let e = r - stack.last().len;
            assert(s.subrange(p, q) + s.subrange(q, e) =~= s.subrange(p, e));
        } else {
            assert(s.subrange(p, q) + s.subrange(q, r) =~= s.subrange(p, r));
        }
    }
}

/// A style that is written out in full, written out again, is the text
/// from its opening run to the end of its closing run.
pub proof fn lemma_render_styled(s: Seq<char>, p: int, stack: Seq<Marker>)
    requires
        0 <= p < s.len(),
        is_delimiter(s[p]),
        valid_stack(stack),
        closed_styled(s, p, stack),
    ensures
        p < styled(s, p, stack).1 <= s.len(),
        render(styled(s, p, stack).0) == s.subrange(p, styled(s, p, stack).1),
    decreases s.len() - p, 0int,
{
    let c = s[p];
    let n = open_len(s, p);
    let marker = Marker { ch: c, len: n as usize };
    let inner = stack.push(marker);
    lemma_run_end(s, p, c);
    assert(marker.valid());
    assert(valid_stack(inner));
    assert(inner.last() == marker);
    lemma_render_items(s, p + n, inner);
    let kids = items(s, p + n, inner).0;
    let q = items(s, p + n, inner).1;
    let e = q - n;
    lemma_closing_run_fits(s, e, inner);
    lemma_run_end(s, e, c);
    assert(mark(marker.style()) =~= repeat(c, n));
    assert(s.subrange(p, p + n) =~= repeat(c, n));
    assert(s.subrange(e, q) =~= repeat(c, n));
    assert(s.subrange(p, p + n) + s.subrange(p + n, e) + s.subrange(e, q) =~= s.subrange(p, q));
}

/// Writing out the tokens of a line gives the line back: where the text is
/// one line in which every style is written out in full, its inline tokens,
/// written out, are the text.
pub proof fn law_render_line(s: Seq<char>)
    requires
        closed_items(s, 0, Seq::empty()),
        items(s, 0, Seq::empty()).1 == s.len(),
    ensures
        render_all(items(s, 0, Seq::empty()).0) == s,
{
    lemma_render_items(s, 0, Seq::empty());
    assert(s.subrange(0, s.len() as int) =~= s);
}

/// Reading a line, writing its tokens out and reading them again gives the
/// same tokens, where the text is one line in which every style is written
/// out in full.
pub proof fn law_round_trip(s: Seq<char>)
    requires
        closed_items(s, 0, Seq::empty()),
        items(s, 0, Seq::empty()).1 == s.len(),
    ensures
        items(render_all(items(s, 0, Seq::empty()).0), 0, Seq::empty()) == items(
            s,
            0,
            Seq::empty(),
        ),
{
    law_render_line(s);
}

/// The number of hashes that write a header level.
pub open spec fn level_hashes(level: HeaderLevel) -> int {
    match level {
        HeaderLevel::One => 1,
        HeaderLevel::Two => 2,
        HeaderLevel::Three => 3,
        HeaderLevel::Four => 4,
        HeaderLevel::Five => 5,
        HeaderLevel::Six => 6,
    }
}

/// A block token written as text: a header is its hashes, a space and its
/// body; a paragraph is its body; a line break is itself.
pub open spec fn render_block(block: Block) -> Seq<char> {
    match block {
        Block::Header(level, kids) => repeat('#', level_hashes(level)) + seq![' '] + render_all(
            kids,
        ),
        Block::NewLine => seq!['\n'],
        Block::Paragraph(kids) => render_all(kids),
    }
}

/// A sequence of block tokens written as text, one after the other.
pub open spec fn render_blocks(tokens: Seq<Block>) -> Seq<char>
    decreases tokens.len(),
{
    if tokens.len() == 0 {
        Seq::empty()
    } else {
        render_block(tokens[0]) + render_blocks(tokens.drop_first())
    }
}

/// Whether the block at `p` is written out in full: a line break always; a
/// header where it has at most six hashes and every style of its body is
/// written out in full; a paragraph where every style of it is, but not the
/// paragraph without content that hashes at the end of the text give.
pub open spec fn closed_block(s: Seq<char>, p: int) -> bool {
    let e = run_end(s, p, '#');
    if s[p] == '\n' {
        true
    } else if e >= s.len() {
        false
    } else if e > p && s[e] == ' ' {
        e - p <= 6 && closed_items(s, e + 1, Seq::empty())
    } else {
        closed_items(s, p, Seq::empty())
    }
}

/// Whether every block from `p` on is written out in full.
pub open spec fn closed_blocks(s: Seq<char>, p: int) -> bool
    decreases s.len() - p,
{
    if !(0 <= p < s.len()) {
        true
    } else {
        let q = block_at(s, p).1;
        &&& closed_block(s, p)
        &&& if p < q <= s.len() {
            closed_blocks(s, q)
        } else {
            true
        }
    }
}

/// Writing out the first of several blocks and then the others writes out
/// all of them.
pub proof fn lemma_render_blocks_first(block: Block, rest: Seq<Block>)
    ensures
        render_blocks(seq![block] + rest) == render_block(block) + render_blocks(rest),
{
    let all = seq![block] + rest;
    assert(all[0] == block);
    assert(all.drop_first() =~= rest);
}

/// The blocks from `p` on, written out, are the text from `p` on, where
/// every one of them is written out in full.
pub proof fn lemma_render_blocks(s: Seq<char>, p: int)
    requires
        0 <= p <= s.len(),
        closed_blocks(s, p),
    ensures
        render_blocks(blocks(s, p)) == s.subrange(p, s.len() as int),
    decreases s.len() - p,
{
    let end = s.len() as int;
    if p == end {
        assert(s.subrange(p, end) =~= Seq::<char>::empty());
    } else {
        let block = block_at(s, p).0;
        let q = block_at(s, p).1;
        let none = Seq::<Marker>::empty();
        let e = run_end(s, p, '#');
        lemma_run_end(s, p, '#');
        if s[p] == '\n' {
            assert(render_block(block) =~= s.subrange(p, q));
        } else if e > p && s[e] == ' ' {
            lemma_render_items(s, e + 1, none);
            assert(repeat('#', level_hashes(level_of(e - p))) =~= s.subrange(p, e));
            assert(seq![' '] =~= s.subrange(e, e + 1));
            assert(s.subrange(p, e) + s.subrange(e, e + 1) + s.subrange(e + 1, q) =~= s.subrange(
                p,
                q,
            ));
        } else {
            lemma_render_items(s, p, none);
            law_items_span(s, p, none);
        }
        assert(render_block(block) == s.subrange(p, q));
        assert(p < q <= end);
        lemma_render_blocks(s, q);
        lemma_render_blocks_first(block, blocks(s, q));
        assert(s.subrange(p, q) + s.subrange(q, end) =~= s.subrange(p, end));
    }
}

/// Reading a text, writing its blocks out and reading them again gives the
/// same blocks: the blocks written out are the text itself, where every
/// block of the text is written out in full.
pub proof fn law_document_round_trip(s: Seq<char>)
    requires
        closed_blocks(s, 0),
    ensures
        render_blocks(document(s)) == s,
        document(render_blocks(document(s))) == document(s),
{
    lemma_render_blocks(s, 0);
    assert(s.subrange(0, s.len() as int) =~= s);
}

} // verus!
