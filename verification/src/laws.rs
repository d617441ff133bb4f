use vstd::prelude::*;
use crate::grammar::{
    block_at, blocks, closes, document, is_delimiter, is_plain, items, lemma_run_end,
    lemma_run_text, lemma_text_end, level_of, open_len, open_text, run_end, run_text, styled,
    text_end, valid_stack, Marker,
};
use crate::token::{Block, HeaderLevel, Inline};

verus! {

/// A plain run that starts at `p` ends at `e` where every character between
/// them is plain and the one at `e`, if there is one, is not.
pub proof fn lemma_text_end_is(s: Seq<char>, p: int, e: int)
    requires
        0 <= p <= e <= s.len(),
        forall|j: int| p <= j < e ==> is_plain(s[j]),
        e == s.len() || !is_plain(s[e]),
    ensures
        text_end(s, p) == e,
    decreases e - p,
{
    if p < e {
        lemma_text_end_is(s, p + 1, e);
    }
}

/// A run that closes a style is at least as long as the marker on top of
/// the stack, so the characters that the close consumes are there.
pub proof fn lemma_closing_run_fits(s: Seq<char>, p: int, stack: Seq<Marker>)
    requires
        closes(s, p, stack),
    ensures
        p + stack.last().len <= run_end(s, p, s[p]) <= s.len(),
{
    lemma_run_text(s, p);
    assert(open_text(stack) =~= stack.last().text() + open_text(stack.drop_last()));
    assert(run_text(s, p).len() == run_end(s, p, s[p]) - p);
    assert(stack.last().text().len() == stack.last().len);
}

/// Reading inline tokens never moves the cursor back nor past the end of
/// the text, and moves it forward wherever the cursor is not at a line
/// break or at the end.
pub proof fn law_items_span(s: Seq<char>, p: int, stack: Seq<Marker>)
    requires
        0 <= p <= s.len(),
        valid_stack(stack),
    ensures
        p <= items(s, p, stack).1 <= s.len(),
        p < s.len() && s[p] != '\n' ==> p < items(s, p, stack).1,
    decreases s.len() - p, 1int,
{
    if !(p < s.len()) || s[p] == '\n' {
    } else if stack.len() > 0 && s[p] == stack.last().ch && closes(s, p, stack) {
        lemma_closing_run_fits(s, p, stack);
        assert(stack.last().valid());
    } else {
        if is_delimiter(s[p]) {
            law_styled_span(s, p, stack);
            law_items_span(s, styled(s, p, stack).1, stack);
        } else {
            lemma_text_end(s, p);
            law_items_span(s, text_end(s, p), stack);
        }
    }
}

/// A styled token consumes at least its opening run and ends within the text.
pub proof fn law_styled_span(s: Seq<char>, p: int, stack: Seq<Marker>)
    requires
        0 <= p < s.len(),
        is_delimiter(s[p]),
        valid_stack(stack),
    ensures
        p + open_len(s, p) <= styled(s, p, stack).1 <= s.len(),
        1 <= open_len(s, p) <= 3,
    decreases s.len() - p, 0int,
{
    lemma_run_end(s, p, s[p]);
    let n = open_len(s, p);
    let marker = Marker { ch: s[p], len: n as usize };
    assert(marker.valid());
    assert(valid_stack(stack.push(marker)));
    law_items_span(s, p + n, stack.push(marker));
}

/// Every block consumes at least one character and ends within the text,
/// so the blocks of a text are read up to its end.
pub proof fn law_block_span(s: Seq<char>, p: int)
    requires
        0 <= p < s.len(),
    ensures
        p < block_at(s, p).1 <= s.len(),
{
    let none = Seq::<Marker>::empty();
    lemma_run_end(s, p, '#');
    let e = run_end(s, p, '#');
    if s[p] != '\n' && e < s.len() {
        if e > p && s[e] == ' ' {
            law_items_span(s, e + 1, none);
        } else {
            law_items_span(s, p, none);
        }
    }
}

/// A line without a delimiter is one text token that holds the line: where
/// the characters from `p` up to `e` are plain, there is at least one, and
/// the line ends at `e`, the inline tokens at `p` are that text alone.
pub proof fn law_plain_line(s: Seq<char>, p: int, e: int)
    requires
        0 <= p < e <= s.len(),
        forall|j: int| p <= j < e ==> is_plain(s[j]),
        e == s.len() || s[e] == '\n',
    ensures
        items(s, p, Seq::empty()) == (seq![Inline::Text(s.subrange(p, e))], e),
{
    lemma_text_end_is(s, p, e);
    let none = Seq::<Marker>::empty();
    assert(items(s, e, none) == (Seq::<Inline>::empty(), e));
    assert(seq![Inline::Text(s.subrange(p, e))] + Seq::<Inline>::empty() =~= seq![
        Inline::Text(s.subrange(p, e)),
    ]);
}

/// A text without delimiters and line breaks is one paragraph of one text
/// token equal to the text, unless it is empty or begins with hashes that a
/// space or the end of the text follows.
pub proof fn law_plain_document(s: Seq<char>)
    requires
        s.len() > 0,
        forall|j: int| 0 <= j < s.len() ==> is_plain(s[j]),
        run_end(s, 0, '#') < s.len(),
        run_end(s, 0, '#') == 0 || s[run_end(s, 0, '#')] != ' ',
    ensures
        document(s) == seq![Block::Paragraph(seq![Inline::Text(s)])],
{
    law_plain_line(s, 0, s.len() as int);
    assert(s.subrange(0, s.len() as int) =~= s);
    assert(block_at(s, 0) == (Block::Paragraph(seq![Inline::Text(s)]), s.len() as int));
    assert(blocks(s, s.len() as int) =~= Seq::<Block>::empty());
    assert(seq![Block::Paragraph(seq![Inline::Text(s)])] + Seq::<Block>::empty() =~= seq![
        Block::Paragraph(seq![Inline::Text(s)]),
    ]);
}

/// A body without styles: no token, or one text token.
pub open spec fn plain_body(kids: Seq<Inline>) -> bool {
    kids.len() == 0 || (kids.len() == 1 && kids[0] is Text)
}

/// A block without styles: a line break, or a header or a paragraph whose
/// body has none.
pub open spec fn plain_block(block: Block) -> bool {
    match block {
        Block::NewLine => true,
        Block::Header(_, kids) => plain_body(kids),
        Block::Paragraph(kids) => plain_body(kids),
    }
}

/// In a text without delimiters the inline tokens at `p` are the rest of
/// the line as one text token, or nothing where the line ends at `p`.
pub proof fn law_plain_items(s: Seq<char>, p: int)
    requires
        0 <= p <= s.len(),
        forall|j: int| 0 <= j < s.len() ==> !is_delimiter(#[trigger] s[j]),
    ensures
        items(s, p, Seq::empty()).1 == text_end(s, p),
        text_end(s, p) == p ==> items(s, p, Seq::empty()).0 == Seq::<Inline>::empty(),
        text_end(s, p) > p ==> items(s, p, Seq::empty()).0 == seq![
            Inline::Text(s.subrange(p, text_end(s, p))),
        ],
        plain_body(items(s, p, Seq::empty()).0),
{
    lemma_text_end(s, p);
    if text_end(s, p) > p {
        law_plain_line(s, p, text_end(s, p));
    }
}

/// In a text without delimiters every block is a line break, or a header
/// or a paragraph that holds at most one text token.
pub proof fn law_plain_blocks(s: Seq<char>, p: int)
    requires
        0 <= p <= s.len(),
        forall|j: int| 0 <= j < s.len() ==> !is_delimiter(#[trigger] s[j]),
    ensures
        forall|i: int| 0 <= i < blocks(s, p).len() ==> plain_block(#[trigger] blocks(s, p)[i]),
    decreases s.len() - p,
{
    if p < s.len() {
        let block = block_at(s, p).0;
        let q = block_at(s, p).1;
        let e = run_end(s, p, '#');
        lemma_run_end(s, p, '#');
        if s[p] != '\n' && e < s.len() {
            if e > p && s[e] == ' ' {
                law_plain_items(s, e + 1);
            } else {
                law_plain_items(s, p);
            }
        }
        assert(plain_block(block));
        if p < q <= s.len() {
            law_plain_blocks(s, q);
            assert forall|i: int| 0 <= i < blocks(s, p).len() implies plain_block(
                #[trigger] blocks(s, p)[i],
            ) by {
                if i > 0 {
                    assert(blocks(s, p)[i] == blocks(s, q)[i - 1]);
                }
            }
        }
    }
}

/// Each line break is a token of its own, followed by the blocks of the
/// text after it.
pub proof fn law_line_break(s: Seq<char>, p: int)
    requires
        0 <= p < s.len(),
        s[p] == '\n',
    ensures
        blocks(s, p) == seq![Block::NewLine] + blocks(s, p + 1),
{
    if p + 1 == s.len() {
        assert(blocks(s, p + 1) =~= Seq::<Block>::empty());
    }
}

/// A style that nothing closes ends with its line. Where a run of
/// delimiters at `p` opens a style, only plain characters follow the
/// opening run up to `e`, and the line ends at `e`, the token is that style
/// around the plain text, or around nothing where no text follows.
pub proof fn law_unclosed_style(s: Seq<char>, p: int, e: int, stack: Seq<Marker>)
    requires
        0 <= p < s.len(),
        is_delimiter(s[p]),
        p + open_len(s, p) <= e <= s.len(),
        forall|j: int| p + open_len(s, p) <= j < e ==> is_plain(s[j]),
        e == s.len() || s[e] == '\n',
    ensures
        styled(s, p, stack) == (
            Inline::Styled(
                (Marker { ch: s[p], len: open_len(s, p) as usize }).style(),
                if p + open_len(s, p) < e {
                    seq![Inline::Text(s.subrange(p + open_len(s, p), e))]
                } else {
                    Seq::empty()
                },
            ),
            e,
        ),
{
    lemma_run_end(s, p, s[p]);
    let n = open_len(s, p);
    let marker = Marker { ch: s[p], len: n as usize };
    let inner = stack.push(marker);
    let body = p + n;
    assert(inner.last() == marker);
    assert(items(s, e, inner) == (Seq::<Inline>::empty(), e));
    if body < e {
        lemma_text_end_is(s, body, e);
        let token = Inline::Text(s.subrange(body, e));
        assert(items(s, body, inner).0 =~= seq![token]);
    }
}

/// A style is closed by a run equal to the one that opened it. Where a
/// whole run of at most three delimiters stands at `p`, plain text follows
/// it up to `e`, and a whole run of the same character and length stands at
/// `e`, the token is the style of the run around that text, and ends after
/// the closing run, whatever styles are open around it.
pub proof fn law_closed_style(s: Seq<char>, p: int, e: int, stack: Seq<Marker>)
    requires
        0 <= p < e < s.len(),
        is_delimiter(s[p]),
        run_end(s, p, s[p]) - p <= 3,
        run_end(s, p, s[p]) < e,
        forall|j: int| run_end(s, p, s[p]) <= j < e ==> is_plain(s[j]),
        s[e] == s[p],
        run_end(s, e, s[p]) - e == run_end(s, p, s[p]) - p,
    ensures
        styled(s, p, stack) == (
            Inline::Styled(
                (Marker { ch: s[p], len: open_len(s, p) as usize }).style(),
                seq![Inline::Text(s.subrange(p + open_len(s, p), e))],
            ),
            e + open_len(s, p),
        ),
{
    lemma_run_end(s, p, s[p]);
    lemma_run_text(s, e);
    let n = open_len(s, p);
    let marker = Marker { ch: s[p], len: n as usize };
    let inner = stack.push(marker);
    let body = p + n;
    assert(inner.last() == marker);
    assert(run_text(s, e) == marker.text());
    assert(closes(s, e, inner));
    assert(items(s, e, inner) == (Seq::<Inline>::empty(), e + n));
    lemma_text_end_is(s, body, e);
    let token = Inline::Text(s.subrange(body, e));
    assert(items(s, body, inner).0 =~= seq![token]);
}

/// The level of a header is the number of its hashes, and six where there
/// are more: hashes at `p` and a space after them give a header of that
/// level, whose body is the rest of the line.
pub proof fn law_header_level(s: Seq<char>, p: int)
    requires
        0 <= p < s.len(),
        s[p] == '#',
        run_end(s, p, '#') < s.len(),
        s[run_end(s, p, '#')] == ' ',
    ensures
        block_at(s, p).0 == Block::Header(
            level_of(run_end(s, p, '#') - p),
            items(s, run_end(s, p, '#') + 1, Seq::empty()).0,
        ),
        run_end(s, p, '#') - p >= 1,
        run_end(s, p, '#') - p >= 6 ==> level_of(run_end(s, p, '#') - p) == HeaderLevel::Six,
{
    lemma_run_end(s, p, '#');
}

/// A line that begins with no hash is never a header: it is a paragraph
/// that holds the inline tokens of the line.
pub proof fn law_no_hash_is_paragraph(s: Seq<char>, p: int)
    requires
        0 <= p < s.len(),
        s[p] != '#',
        s[p] != '\n',
    ensures
        block_at(s, p) == (
            Block::Paragraph(items(s, p, Seq::empty()).0),
            items(s, p, Seq::empty()).1,
        ),
{
}

} // verus!
