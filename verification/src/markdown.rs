use vstd::prelude::*;
use crate::grammar::{
    blocks, closes, document, is_delimiter, is_plain, items, lemma_open_text_below,
    lemma_open_text_split, lemma_run_end, lemma_run_text, lemma_text_end, line_block, open_len,
    open_text, repeat, run_end, run_text, styled, text_end, valid_stack, Marker,
};
use crate::token::{
    block_views, inline_views, lemma_block_views_push, lemma_inline_views_push, Block,
    HeaderLevel, Inline, MarkdownToken, TextToken,
};

verus! {

/// `String::push` appends one character to the string.
pub assume_specification[ String::push ](s: &mut String, c: char)
    ensures
        final(s)@ == old(s)@.push(c),
;

/// A parser over one text: the characters, a cursor that only moves
/// forward, and the stack of the styles that are open at the cursor.
pub struct MarkdownParser {
    offset: usize,
    chars: Vec<char>,
    chars_len: usize,
    stack: Vec<Marker>,
}

impl MarkdownParser {
    /// The text that is parsed.
    pub closed spec fn chars(&self) -> Seq<char> {
        self.chars@
    }

    /// The position of the next character to read.
    pub closed spec fn cursor(&self) -> int {
        self.offset as int
    }

    /// The open markers, the innermost last.
    pub closed spec fn open(&self) -> Seq<Marker> {
        self.stack@
    }

    /// The cursor is within the text or at its end, and every open marker
    /// is a run of one to three delimiters.
    pub closed spec fn wf(&self) -> bool {
        &&& self.chars_len == self.chars@.len()
        &&& self.offset <= self.chars_len
        &&& valid_stack(self.stack@)
    }

    /// A parser at the start of `input`, with no style open.
    pub fn new(input: &str) -> (parser: Self)
        ensures
            parser.wf(),
            parser.chars() == input@,
            parser.cursor() == 0,
            parser.open() == Seq::<Marker>::empty(),
    {
        let mut chars: Vec<char> = Vec::new();
        for c in it: input.chars()
            invariant
                it.seq() == input@,
                chars@ == it.seq().take(it.index()),
        {
            chars.push(c);
        }
        MarkdownParser { offset: 0, chars_len: chars.len(), chars, stack: Vec::with_capacity(5) }
    }

    /// Whether the cursor is at the end of the text.
    pub fn at_end(&self) -> (b: bool)
        requires
            self.wf(),
        ensures
            b == (self.cursor() == self.chars().len()),
    {
        self.offset == self.chars_len
    }

    /// The character at the cursor, or `None` at the end of the text.
    pub fn peek(&self) -> (ch: Option<char>)
        requires
            self.wf(),
        ensures
            match ch {
                Some(c) => self.cursor() < self.chars().len() && c == self.chars()[self.cursor()],
                None => self.cursor() == self.chars().len(),
            },
    {
        if self.offset < self.chars_len {
            Some(self.chars[self.offset])
        } else {
            None
        }
    }

    /// Moves the cursor over one character; at the end of the text it stays.
    pub fn advance(&mut self)
        requires
            old(self).wf(),
        ensures
            final(self).wf(),
            final(self).chars() == old(self).chars(),
            final(self).open() == old(self).open(),
            old(self).cursor() < old(self).chars().len()
                ==> final(self).cursor() == old(self).cursor() + 1,
            old(self).cursor() == old(self).chars().len()
                ==> final(self).cursor() == old(self).cursor(),
    {
        if self.offset < self.chars_len {
            self.offset += 1;
        }
    }

    /// Reads the plain run at the cursor as one text token. The run is empty
    /// where the cursor is at a delimiter, at a line break or at the end.
    pub fn parse_text(&mut self) -> (token: TextToken)
        requires
            old(self).wf(),
        ensures
            final(self).wf(),
            final(self).chars() == old(self).chars(),
            final(self).open() == old(self).open(),
            final(self).cursor() == text_end(old(self).chars(), old(self).cursor()),
            token@ == Inline::Text(
                old(self).chars().subrange(old(self).cursor(), final(self).cursor()),
            ),
    {
        let mut text = String::new();
        let ghost start = self.offset as int;
        while self.offset < self.chars_len && !Self::is_break(self.chars[self.offset])
            invariant
                self.wf(),
                self.chars@ == old(self).chars@,
                self.stack@ == old(self).stack@,
                start == old(self).offset,
                start <= self.offset,
                text_end(self.chars@, start) == text_end(self.chars@, self.offset as int),
                text@ == self.chars@.subrange(start, self.offset as int),
            decreases self.chars_len - self.offset,
        {
            let ch = self.chars[self.offset];
            text.push(ch);
            self.advance();
            assert(text@ =~= self.chars@.subrange(start, self.offset as int));
        }
        TextToken::Text(text)
    }

    /// Whether a character ends a plain run.
    fn is_break(ch: char) -> (b: bool)
        ensures
            b == !is_plain(ch),
    {
        ch == '`' || ch == '*' || ch == '\n'
    }

    /// Steps over the line break at the cursor and gives its token.
    pub fn parse_new_line(&mut self) -> (token: MarkdownToken)
        requires
            old(self).wf(),
        ensures
            final(self).wf(),
            final(self).chars() == old(self).chars(),
            final(self).open() == old(self).open(),
            old(self).cursor() < old(self).chars().len()
                ==> final(self).cursor() == old(self).cursor() + 1,
            old(self).cursor() == old(self).chars().len()
                ==> final(self).cursor() == old(self).cursor(),
            token@ == Block::NewLine,
    {
        self.advance();
        MarkdownToken::NewLine
    }

    /// Closes the innermost open style around `tokens`: its marker leaves the
    /// stack and names the style of the token.
    fn compact_text_token(&mut self, tokens: Vec<TextToken>) -> (token: TextToken)
        requires
            old(self).wf(),
            old(self).open().len() > 0,
        ensures
            final(self).wf(),
            final(self).chars() == old(self).chars(),
            final(self).cursor() == old(self).cursor(),
            final(self).open() == old(self).open().drop_last(),
            token@ == Inline::Styled(old(self).open().last().style(), inline_views(tokens@)),
    {
        let marker = self.stack.pop().unwrap();
        if marker.ch == '`' {
            TextToken::Code(tokens)
        } else if marker.len == 1 {
            TextToken::Italic(tokens)
        } else if marker.len == 2 {
            TextToken::Bold(tokens)
        } else {
            TextToken::BoldItalic(tokens)
        }
    }

    /// Whether the run at the cursor closes the innermost open style: the
    /// whole run is the top marker, or all open markers from the top down.
    /// A closing run is at least as long as the top marker.
    fn is_styled_text_token_closure(&self) -> (b: bool)
        requires
            self.wf(),
            self.cursor() < self.chars().len(),
            self.open().len() > 0,
        ensures
            b == closes(self.chars(), self.cursor(), self.open()),
            b ==> self.cursor() + self.open().last().len <= self.chars().len(),
    {
        let special_ch = self.chars[self.offset];
        let ghost s = self.chars@;
        let ghost st = self.stack@;
        let ghost p = self.offset as int;
        let ghost depth = st.len() as int;
        let mut end = self.offset;
        while end < self.chars_len && self.chars[end] == special_ch
            invariant
                self.wf(),
                self.offset <= end <= self.chars_len,
                run_end(self.chars@, self.offset as int, special_ch) == run_end(
                    self.chars@,
                    end as int,
                    special_ch,
                ),
            decreases self.chars_len - end,
        {
            end += 1;
        }
        let run_len = end - self.offset;
        let top = self.stack[self.stack.len() - 1];
        proof {
            lemma_run_text(s, p);
            assert(run_text(s, p) == repeat(special_ch, run_len as int));
            assert(open_text(st) =~= top.text() + open_text(st.drop_last()));
            assert(top.valid());
            if run_text(s, p) == top.text() {
                assert(run_text(s, p)[0] == top.text()[0]);
            }
        }
        if top.ch == special_ch && top.len == run_len {
            return true;
        }
        let mut i = self.stack.len();
        let mut total: usize = 0;
        while i > 0
            invariant
                self.wf(),
                st == self.stack@,
                depth == st.len(),
                0 <= i <= depth,
                total <= run_len,
                run_text(s, p) == repeat(special_ch, run_len as int),
                run_text(s, p) != top.text(),
                top == st.last(),
                s == self.chars@,
                p == self.offset,
                p < s.len(),
                depth > 0,
                open_text(st.subrange(i as int, depth)) == repeat(special_ch, total as int),
            decreases i,
        {
            let marker = self.stack[i - 1];
            proof {
                lemma_open_text_below(st, i as int);
                lemma_open_text_split(st, i as int - 1);
                assert(marker.valid());
            }
            if marker.ch != special_ch || marker.len > run_len - total {
                proof {
                    let upper = open_text(st.subrange(i as int - 1, depth));
                    let lower = open_text(st.subrange(0, i as int - 1));
                    assert(open_text(st) == upper + lower);
                    assert(upper.len() == total + marker.len);
                    assert(open_text(st).len() == upper.len() + lower.len());
                    if open_text(st) == run_text(s, p) {
                        assert(run_text(s, p).len() == run_len);
                        assert(marker.ch != special_ch);
                        assert(upper[total as int] == marker.text()[0]);
                        assert(open_text(st)[total as int] == marker.ch);
                        assert(repeat(special_ch, run_len as int)[total as int] == special_ch);
                        assert(false);
                    }
                }
                return false;
            }
            proof {
                assert(repeat(special_ch, total as int) + marker.text() =~= repeat(
                    special_ch,
                    total + marker.len,
                ));
            }
            total += marker.len;
            i -= 1;
        }
        proof {
            assert(st.subrange(0, depth) =~= st);
        }
        total == run_len
    }

    /// Reads the styled token that the run at the cursor opens. The run, of
    /// at most three characters, goes on the stack; the children are read up
    /// to the run that closes it, or to the end of the line, where the style
    /// ends unclosed; the marker leaves the stack again.
    pub fn get_styled_text_token(&mut self) -> (token: TextToken)
        requires
            old(self).wf(),
            old(self).cursor() < old(self).chars().len(),
            is_delimiter(old(self).chars()[old(self).cursor()]),
        ensures
            final(self).wf(),
            final(self).chars() == old(self).chars(),
            final(self).open() == old(self).open(),
            old(self).cursor() < final(self).cursor() <= old(self).chars().len(),
            token@ == styled(old(self).chars(), old(self).cursor(), old(self).open()).0,
            final(self).cursor() == styled(
                old(self).chars(),
                old(self).cursor(),
                old(self).open(),
            ).1,
        decreases old(self).chars().len() - old(self).cursor(),
    {
        let spec_ch = self.chars[self.offset];
        let ghost s = self.chars@;
        let ghost start = self.offset as int;
        let ghost outer = self.stack@;
        let mut ch_count: usize = 0;
        proof {
            lemma_run_end(s, start, spec_ch);
        }
        while self.offset < self.chars_len && ch_count < 3 && self.chars[self.offset] == spec_ch
            invariant
                self.wf(),
                self.chars@ == s,
                self.stack@ == outer,
                self.offset == start + ch_count,
                ch_count <= 3,
                run_end(s, start, spec_ch) == run_end(s, self.offset as int, spec_ch),
            decreases 3 - ch_count,
        {
            self.offset += 1;
            ch_count += 1;
        }
        proof {
            lemma_run_end(s, self.offset as int, spec_ch);
            assert(ch_count == open_len(s, start));
        }
        let marker = Marker { ch: spec_ch, len: ch_count };
        self.stack.push(marker);
        let ghost inner = outer.push(marker);
        let ghost body = self.offset as int;
        proof {
            assert(inner.drop_last() =~= outer);
        }
        let mut tokens: Vec<TextToken> = Vec::with_capacity(10);
        proof {
            assert(inline_views(tokens@) + items(s, body, inner).0 =~= items(s, body, inner).0);
        }
        while self.offset < self.chars_len && self.chars[self.offset] != '\n'
            invariant
                self.wf(),
                self.chars@ == s,
                self.stack@ == inner,
                inner == outer.push(marker),
                marker.valid(),
                marker.ch == spec_ch,
                start < body <= self.offset <= s.len(),
                items(s, body, inner).0 == inline_views(tokens@) + items(
                    s,
                    self.offset as int,
                    inner,
                ).0,
                items(s, body, inner).1 == items(s, self.offset as int, inner).1,
                s == old(self).chars(),
                outer == old(self).open(),
                start == old(self).cursor(),
                marker.len == open_len(s, start),
                marker.ch == s[start],
                body == start + marker.len,
            decreases self.chars_len - self.offset,
        {
            let ch = self.chars[self.offset];
            let ghost here = self.offset as int;
            if ch == spec_ch && self.is_styled_text_token_closure() {
                self.offset += marker.len;
                proof {
                    assert(inner.last() == marker);
                    assert(items(s, here, inner).0 == Seq::<Inline>::empty());
                    assert(items(s, here, inner).1 == here + marker.len);
                    assert(inline_views(tokens@) + Seq::<Inline>::empty() =~= inline_views(
                        tokens@,
                    ));
                    assert(inner.drop_last() =~= outer);
                }
                return self.compact_text_token(tokens);
            }
            let token = if ch == '*' || ch == '`' {
                self.get_styled_text_token()
            } else {
                proof {
                    lemma_text_end(s, here);
                }
                self.parse_text()
            };
            proof {
                lemma_inline_views_push(tokens@, token);
                let rest = items(s, self.offset as int, inner).0;
                assert(items(s, here, inner).0 == seq![token@] + rest);
                assert(inline_views(tokens@) + (seq![token@] + rest) =~= inline_views(
                    tokens@,
                ).push(token@) + rest);
            }
            tokens.push(token);
        }
        proof {
            assert(inline_views(tokens@) + Seq::<Inline>::empty() =~= inline_views(tokens@));
        }
        self.compact_text_token(tokens)
    }

    /// Reads the inline tokens of the rest of the line, with no style open.
    /// The cursor stops at the line break or at the end of the text.
    pub fn parse_text_tokens(&mut self) -> (tokens: Vec<TextToken>)
        requires
            old(self).wf(),
            old(self).open().len() == 0,
        ensures
            final(self).wf(),
            final(self).chars() == old(self).chars(),
            final(self).open() == old(self).open(),
            old(self).cursor() <= final(self).cursor() <= old(self).chars().len(),
            old(self).cursor() < old(self).chars().len()
                && old(self).chars()[old(self).cursor()] != '\n'
                ==> old(self).cursor() < final(self).cursor(),
            final(self).cursor() == old(self).chars().len()
                || old(self).chars()[final(self).cursor()] == '\n',
            inline_views(tokens@) == items(
                old(self).chars(),
                old(self).cursor(),
                Seq::empty(),
            ).0,
            final(self).cursor() == items(old(self).chars(), old(self).cursor(), Seq::empty()).1,
    {
        if self.offset == self.chars_len {
            proof {
                assert(inline_views(Seq::<TextToken>::empty()) =~= Seq::<Inline>::empty());
            }
            return Vec::new();
        }
        let ghost s = self.chars@;
        let ghost start = self.offset as int;
        let ghost none = Seq::<Marker>::empty();
        let mut tokens: Vec<TextToken> = Vec::with_capacity(10);
        proof {
            assert(self.stack@ =~= none);
            assert(inline_views(tokens@) + items(s, start, none).0 =~= items(s, start, none).0);
        }
        while self.offset < self.chars_len && self.chars[self.offset] != '\n'
            invariant
                self.wf(),
                self.chars@ == s,
                self.stack@ == none,
                none.len() == 0,
                start <= self.offset <= s.len(),
                items(s, start, none).0 == inline_views(tokens@) + items(
                    s,
                    self.offset as int,
                    none,
                ).0,
                items(s, start, none).1 == items(s, self.offset as int, none).1,
            decreases self.chars_len - self.offset,
        {
            let ch = self.chars[self.offset];
            let ghost here = self.offset as int;
            let token = if ch == '*' || ch == '`' {
                self.get_styled_text_token()
            } else {
                proof {
                    lemma_text_end(s, here);
                }
                self.parse_text()
            };
            proof {
                lemma_inline_views_push(tokens@, token);
                let rest = items(s, self.offset as int, none).0;
                assert(items(s, here, none).0 == seq![token@] + rest);
                assert(inline_views(tokens@) + (seq![token@] + rest) =~= inline_views(
                    tokens@,
                ).push(token@) + rest);
            }
            tokens.push(token);
        }
        proof {
            assert(inline_views(tokens@) + Seq::<Inline>::empty() =~= inline_views(tokens@));
        }
        tokens
    }

    /// Reads the rest of the line as the body of a header of the given level.
    pub fn parse_header(&mut self, header_level: HeaderLevel) -> (token: MarkdownToken)
        requires
            old(self).wf(),
            old(self).open().len() == 0,
        ensures
            final(self).wf(),
            final(self).chars() == old(self).chars(),
            final(self).open() == old(self).open(),
            old(self).cursor() <= final(self).cursor() <= old(self).chars().len(),
            token@ == Block::Header(
                header_level,
                items(old(self).chars(), old(self).cursor(), Seq::empty()).0,
            ),
            final(self).cursor() == items(old(self).chars(), old(self).cursor(), Seq::empty()).1,
    {
        let text_tokens = self.parse_text_tokens();
        MarkdownToken::Header(header_level, text_tokens)
    }

    /// Reads the block of the line at the cursor: a header where the line
    /// begins with hashes and a space, a paragraph otherwise. More than six
    /// hashes give level six; hashes that end the text give a paragraph
    /// without content.
    pub fn parse_header_or_text(&mut self) -> (token: MarkdownToken)
        requires
            old(self).wf(),
            old(self).open().len() == 0,
        ensures
            final(self).wf(),
            final(self).chars() == old(self).chars(),
            final(self).open() == old(self).open(),
            old(self).cursor() <= final(self).cursor() <= old(self).chars().len(),
            old(self).cursor() < old(self).chars().len()
                && old(self).chars()[old(self).cursor()] != '\n'
                ==> old(self).cursor() < final(self).cursor(),
            token@ == line_block(old(self).chars(), old(self).cursor()).0,
            final(self).cursor() == line_block(old(self).chars(), old(self).cursor()).1,
    {
        let ghost s = self.chars@;
        let ghost start = self.offset as int;
        let mut end = self.offset;
        while end < self.chars_len && self.chars[end] == '#'
            invariant
                self.wf(),
                self.chars@ == s,
                self.offset == start,
                start <= end <= self.chars_len,
                run_end(s, start, '#') == run_end(s, end as int, '#'),
            decreases self.chars_len - end,
        {
            end += 1;
        }
        let header_ch_count = end - self.offset;
        if end == self.chars_len {
            self.offset = end;
            proof {
                assert(inline_views(Seq::<TextToken>::empty()) =~= Seq::<Inline>::empty());
            }
            return MarkdownToken::Paragraph(Vec::new());
        }
        if header_ch_count > 0 && self.chars[end] == ' ' {
            self.offset = end + 1;
            let header_level = if header_ch_count == 1 {
                HeaderLevel::One
            } else if header_ch_count == 2 {
                HeaderLevel::Two
            } else if header_ch_count == 3 {
                HeaderLevel::Three
            } else if header_ch_count == 4 {
                HeaderLevel::Four
            } else if header_ch_count == 5 {
                HeaderLevel::Five
            } else {
                HeaderLevel::Six
            };
            self.parse_header(header_level)
        } else {
            MarkdownToken::Paragraph(self.parse_text_tokens())
        }
    }

    /// Reads the text from the cursor to its end, block by block: each line
    /// break is a token of its own, each other line a header or a paragraph.
    pub fn parse(&mut self) -> (result: Vec<MarkdownToken>)
        requires
            old(self).wf(),
            old(self).open().len() == 0,
        ensures
            final(self).wf(),
            final(self).chars() == old(self).chars(),
            final(self).open() == old(self).open(),
            final(self).cursor() == old(self).chars().len(),
            block_views(result@) == blocks(old(self).chars(), old(self).cursor()),
            old(self).cursor() == 0 ==> block_views(result@) == document(old(self).chars()),
    {
        let chars_len = self.chars.len();
        let ghost s = self.chars@;
        let ghost start = self.offset as int;
        let mut result: Vec<MarkdownToken> = Vec::with_capacity(10);
        proof {
            assert(block_views(result@) + blocks(s, start) =~= blocks(s, start));
        }
        while !self.at_end()
            invariant
                self.wf(),
                self.chars@ == s,
                self.stack@ == old(self).stack@,
                self.stack@.len() == 0,
                chars_len == s.len(),
                start <= self.offset <= chars_len,
                blocks(s, start) == block_views(result@) + blocks(s, self.offset as int),
            decreases chars_len - self.offset,
        {
            let ghost here = self.offset as int;
            let at_break = match self.peek() {
                Some(ch) => ch == '\n',
                None => false,
            };
            let token = if at_break {
                self.parse_new_line()
            } else {
                self.parse_header_or_text()
            };
            proof {
                lemma_block_views_push(result@, token);
                let rest = blocks(s, self.offset as int);
                assert(blocks(s, here) == seq![token@] + rest);
                assert(block_views(result@) + (seq![token@] + rest) =~= block_views(
                    result@,
                ).push(token@) + rest);
            }
            result.push(token);
        }
        proof {
            assert(block_views(result@) + Seq::<Block>::empty() =~= block_views(result@));
        }
        result
    }
}

} // verus!
