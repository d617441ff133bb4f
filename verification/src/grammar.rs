use vstd::prelude::*;
use crate::token::{Block, HeaderLevel, Inline, Style};

verus! {

/// An open style marker: the delimiter character and how many of it opened
/// the style. It stands for the literal run, `text()`.
#[derive(Debug, PartialEq, Eq, Clone, Copy)]
pub struct Marker {
    pub ch: char,
    pub len: usize,
}

/// The two characters that open and close styles.
pub open spec fn is_delimiter(c: char) -> bool {
    c == '*' || c == '`'
}

/// A character that belongs to a plain text run.
pub open spec fn is_plain(c: char) -> bool {
    !is_delimiter(c) && c != '\n'
}

/// `n` copies of `c`.
pub open spec fn repeat(c: char, n: int) -> Seq<char> {
    Seq::new(if n >= 0 { n as nat } else { 0 }, |i: int| c)
}

impl Marker {
    /// A marker is a run of one to three delimiters.
    pub open spec fn valid(self) -> bool {
        is_delimiter(self.ch) && 1 <= self.len <= 3
    }

    /// The literal run that the marker records.
    pub open spec fn text(self) -> Seq<char> {
        repeat(self.ch, self.len as int)
    }

    /// The style that the marker opens: any run of backticks is code, one,
    /// two and three asterisks are italic, bold and both.
    pub open spec fn style(self) -> Style {
        if self.ch == '`' {
            Style::Code
        } else if self.len == 1 {
            Style::Italic
        } else if self.len == 2 {
            Style::Bold
        } else {
            Style::BoldItalic
        }
    }
}

/// Every marker of the stack is a valid one.
pub open spec fn valid_stack(stack: Seq<Marker>) -> bool {
    forall|i: int| 0 <= i < stack.len() ==> (#[trigger] stack[i]).valid()
}

/// The end of the maximal run of `c` that starts at `p`.
pub open spec fn run_end(s: Seq<char>, p: int, c: char) -> int
    decreases s.len() - p,
{
    if 0 <= p < s.len() && s[p] == c {
        run_end(s, p + 1, c)
    } else {
        p
    }
}

/// The end of the maximal run of plain characters that starts at `p`.
pub open spec fn text_end(s: Seq<char>, p: int) -> int
    decreases s.len() - p,
{
    if 0 <= p < s.len() && is_plain(s[p]) {
        text_end(s, p + 1)
    } else {
        p
    }
}

/// The length of the run that opens a style at `p`: the run of the
/// character at `p`, cut at three.
pub open spec fn open_len(s: Seq<char>, p: int) -> int {
    let n = run_end(s, p, s[p]) - p;
    if n > 3 {
        3
    } else {
        n
    }
}

/// The whole run of one character that starts at `p`, as text.
pub open spec fn run_text(s: Seq<char>, p: int) -> Seq<char> {
    s.subrange(p, run_end(s, p, s[p]))
}

/// The literal runs of all open markers, from the top of the stack down.
pub open spec fn open_text(stack: Seq<Marker>) -> Seq<char>
    decreases stack.len(),
{
    if stack.len() == 0 {
        Seq::empty()
    } else {
        stack.last().text() + open_text(stack.drop_last())
    }
}

/// Whether the run at `p` closes the style on top of the stack: the whole
/// run is the top marker, or it is all open markers read from the top down,
/// so that one long run closes every open style, one marker at a time.
/// A run that is neither closes nothing and opens a new style, also where
/// it is as long as some, but not all, of the open markers together.
pub open spec fn closes(s: Seq<char>, p: int, stack: Seq<Marker>) -> bool {
    &&& stack.len() > 0
    &&& 0 <= p < s.len()
    &&& (run_text(s, p) == stack.last().text() || run_text(s, p) == open_text(stack))
}

/// The inline tokens from `p` to the end of the innermost open style, or of
/// the line where none is open or none is closed, and the position after
/// them. A closing run is consumed by the length of the top marker. Every
/// token ends after `p` and within the text (`law_items_span`), so the
/// tokens after the first are always read.
pub open spec fn items(s: Seq<char>, p: int, stack: Seq<Marker>) -> (Seq<Inline>, int)
    decreases s.len() - p, 1int,
{
    if !(0 <= p < s.len()) || s[p] == '\n' {
        (Seq::empty(), p)
    } else if stack.len() > 0 && s[p] == stack.last().ch && closes(s, p, stack) {
        (Seq::empty(), p + stack.last().len)
    } else {
        let (token, q) = if is_delimiter(s[p]) {
            styled(s, p, stack)
        } else {
            (Inline::Text(s.subrange(p, text_end(s, p))), text_end(s, p))
        };
        if p < q <= s.len() {
            let (rest, r) = items(s, q, stack);
            (seq![token] + rest, r)
        } else {
            (seq![token], q)
        }
    }
}

/// The styled token that the run of delimiters at `p` opens, and the
/// position after it. The style ends at its closing run, or unclosed at the
/// end of the line; a run that nothing follows opens a style without
/// children.
pub open spec fn styled(s: Seq<char>, p: int, stack: Seq<Marker>) -> (Inline, int)
    decreases s.len() - p, 0int,
{
    if !(0 <= p < s.len()) {
        (Inline::Text(Seq::empty()), p)
    } else {
        let n = open_len(s, p);
        if 1 <= n <= 3 && p + n <= s.len() {
            let marker = Marker { ch: s[p], len: n as usize };
            let inner = items(s, p + n, stack.push(marker));
            (Inline::Styled(marker.style(), inner.0), inner.1)
        } else {
            (Inline::Text(Seq::empty()), p)
        }
    }
}

/// The level of a header introduced by `n` hashes: more than six count as six.
pub open spec fn level_of(n: int) -> HeaderLevel {
    if n <= 1 {
        HeaderLevel::One
    } else if n == 2 {
        HeaderLevel::Two
    } else if n == 3 {
        HeaderLevel::Three
    } else if n == 4 {
        HeaderLevel::Four
    } else if n == 5 {
        HeaderLevel::Five
    } else {
        HeaderLevel::Six
    }
}

/// The block of the line that starts at `p`, which is no line break, and
/// the position after it. With `n` the number of hashes at `p`: hashes up
/// to the end of the text are a paragraph without content; one hash or more
/// and a space are a header of level `n`, or six where `n` is greater; any
/// other line, one without a hash too, is a paragraph that begins at `p`.
pub open spec fn line_block(s: Seq<char>, p: int) -> (Block, int) {
    let e = run_end(s, p, '#');
    if e >= s.len() {
        (Block::Paragraph(Seq::empty()), e)
    } else if e > p && s[e] == ' ' {
        let inner = items(s, e + 1, Seq::empty());
        (Block::Header(level_of(e - p), inner.0), inner.1)
    } else {
        let inner = items(s, p, Seq::empty());
        (Block::Paragraph(inner.0), inner.1)
    }
}

/// The block that starts at `p`, and the position after it.
pub open spec fn block_at(s: Seq<char>, p: int) -> (Block, int) {
    if s[p] == '\n' {
        (Block::NewLine, p + 1)
    } else {
        line_block(s, p)
    }
}

/// The blocks of the text from `p` on.
pub open spec fn blocks(s: Seq<char>, p: int) -> Seq<Block>
    decreases s.len() - p,
{
    if !(0 <= p < s.len()) {
        Seq::empty()
    } else {
        let (block, q) = block_at(s, p);
        if p < q <= s.len() {
            seq![block] + blocks(s, q)
        } else {
            seq![block]
        }
    }
}

/// The blocks of a whole text.
pub open spec fn document(s: Seq<char>) -> Seq<Block> {
    blocks(s, 0)
}

/// A run ends at or after its start, within the text, holds only its
/// character, and cannot be extended.
pub proof fn lemma_run_end(s: Seq<char>, p: int, c: char)
    requires
        0 <= p <= s.len(),
    ensures
        p <= run_end(s, p, c) <= s.len(),
        forall|j: int| p <= j < run_end(s, p, c) ==> s[j] == c,
        run_end(s, p, c) < s.len() ==> s[run_end(s, p, c)] != c,
        p < s.len() && s[p] == c ==> p < run_end(s, p, c),
    decreases s.len() - p,
{
    if p < s.len() && s[p] == c {
        lemma_run_end(s, p + 1, c);
    }
}

/// A plain run ends at or after its start, within the text, holds only plain
/// characters, and cannot be extended.
pub proof fn lemma_text_end(s: Seq<char>, p: int)
    requires
        0 <= p <= s.len(),
    ensures
        p <= text_end(s, p) <= s.len(),
        forall|j: int| p <= j < text_end(s, p) ==> is_plain(s[j]),
        text_end(s, p) < s.len() ==> !is_plain(s[text_end(s, p)]),
        p < s.len() && is_plain(s[p]) ==> p < text_end(s, p),
    decreases s.len() - p,
{
    if p < s.len() && is_plain(s[p]) {
        lemma_text_end(s, p + 1);
    }
}

/// The run at `p` is as many copies of the character at `p` as the run is long.
pub proof fn lemma_run_text(s: Seq<char>, p: int)
    requires
        0 <= p < s.len(),
    ensures
        p < run_end(s, p, s[p]) <= s.len(),
        run_text(s, p) == repeat(s[p], run_end(s, p, s[p]) - p),
{
    lemma_run_end(s, p, s[p]);
    assert(run_text(s, p) =~= repeat(s[p], run_end(s, p, s[p]) - p));
}

/// The text of the open markers is the text of those above `i` followed by
/// the text of those below.
pub proof fn lemma_open_text_split(stack: Seq<Marker>, i: int)
    requires
        0 <= i <= stack.len(),
    ensures
        open_text(stack) == open_text(stack.subrange(i, stack.len() as int)) + open_text(
            stack.subrange(0, i),
        ),
    decreases stack.len(),
{
    let upper = stack.subrange(i, stack.len() as int);
    let lower = stack.subrange(0, i);
    if i == stack.len() {
        assert(lower =~= stack);
        assert(open_text(upper) =~= Seq::<char>::empty());
        assert(open_text(stack) =~= open_text(upper) + open_text(lower));
    } else {
        let rest = stack.drop_last();
        lemma_open_text_split(rest, i);
        assert(rest.subrange(0, i) =~= lower);
        assert(rest.subrange(i, rest.len() as int) =~= upper.drop_last());
        assert(upper.last() == stack.last());
        assert(open_text(stack) =~= open_text(upper) + open_text(lower));
    }
}

/// One more open marker below those read so far adds its run to their text.
pub proof fn lemma_open_text_below(stack: Seq<Marker>, i: int)
    requires
        0 < i <= stack.len(),
    ensures
        open_text(stack.subrange(i - 1, stack.len() as int)) == open_text(
            stack.subrange(i, stack.len() as int),
        ) + stack[i - 1].text(),
{
    let wider = stack.subrange(i - 1, stack.len() as int);
    lemma_open_text_split(wider, 1);
    assert(wider.subrange(1, wider.len() as int) =~= stack.subrange(i, stack.len() as int));
    let one = wider.subrange(0, 1);
    assert(one.last() == stack[i - 1]);
    assert(one.drop_last() =~= Seq::<Marker>::empty());
    assert(open_text(one.drop_last()) =~= Seq::<char>::empty());
    assert(open_text(one) =~= stack[i - 1].text());
}

} // verus!
