use markdown_parser::markdown::MarkdownParser;
use markdown_parser::token::{HeaderLevel, MarkdownToken, TextToken};

fn txt(s: &str) -> TextToken {
    TextToken::Text(s.to_string())
}

fn inline(input: &str) -> Vec<TextToken> {
    MarkdownParser::new(input).parse_text_tokens()
}

#[test]
fn unclosed_style_closes_at_the_end() {
    assert_eq!(inline("*text"), vec![TextToken::Italic(vec![txt("text")])]);
    assert_eq!(inline("**text"), vec![TextToken::Bold(vec![txt("text")])]);
    assert_eq!(inline("***text"), vec![TextToken::BoldItalic(vec![txt("text")])]);
    assert_eq!(inline("`text"), vec![TextToken::Code(vec![txt("text")])]);
}

#[test]
fn unclosed_style_in_a_paragraph() {
    let result = MarkdownParser::new("*text").parse();
    assert_eq!(
        result,
        vec![MarkdownToken::Paragraph(vec![TextToken::Italic(vec![txt("text")])])]
    );
}

#[test]
fn unclosed_style_closes_at_the_line_break() {
    let result = MarkdownParser::new("# a *b\nc").parse();
    assert_eq!(
        result,
        vec![
            MarkdownToken::Header(
                HeaderLevel::One,
                vec![txt("a "), TextToken::Italic(vec![txt("b")])]
            ),
            MarkdownToken::NewLine,
            MarkdownToken::Paragraph(vec![txt("c")])
        ]
    );
}

#[test]
fn nested_unclosed_styles_all_close() {
    assert_eq!(
        inline("*a `b **c"),
        vec![TextToken::Italic(vec![
            txt("a "),
            TextToken::Code(vec![txt("b "), TextToken::Bold(vec![txt("c")])])
        ])]
    );
}

#[test]
fn trailing_run_is_a_style_without_children() {
    assert_eq!(inline("a*"), vec![txt("a"), TextToken::Italic(vec![])]);
    assert_eq!(inline("a**"), vec![txt("a"), TextToken::Bold(vec![])]);
    assert_eq!(inline("```"), vec![TextToken::Code(vec![])]);
    let result = MarkdownParser::new("a*\nb").parse();
    assert_eq!(
        result,
        vec![
            MarkdownToken::Paragraph(vec![txt("a"), TextToken::Italic(vec![])]),
            MarkdownToken::NewLine,
            MarkdownToken::Paragraph(vec![txt("b")])
        ]
    );
}

#[test]
fn each_run_length_names_its_style() {
    assert_eq!(inline("*a*"), vec![TextToken::Italic(vec![txt("a")])]);
    assert_eq!(inline("**a**"), vec![TextToken::Bold(vec![txt("a")])]);
    assert_eq!(inline("***a***"), vec![TextToken::BoldItalic(vec![txt("a")])]);
    assert_eq!(inline("`a`"), vec![TextToken::Code(vec![txt("a")])]);
    assert_eq!(inline("``a``"), vec![TextToken::Code(vec![txt("a")])]);
    assert_eq!(inline("```a```"), vec![TextToken::Code(vec![txt("a")])]);
}

#[test]
fn opening_run_is_cut_at_three() {
    assert_eq!(
        inline("****a"),
        vec![TextToken::BoldItalic(vec![TextToken::Italic(vec![txt("a")])])]
    );
}

#[test]
fn one_run_closes_two_styles() {
    assert_eq!(
        inline("*a**b***c"),
        vec![
            TextToken::Italic(vec![txt("a"), TextToken::Bold(vec![txt("b")])]),
            txt("c")
        ]
    );
}

#[test]
fn run_that_matches_neither_opens_a_style() {
    assert_eq!(
        inline("**a *b**"),
        vec![TextToken::Bold(vec![
            txt("a "),
            TextToken::Italic(vec![txt("b"), TextToken::Bold(vec![])])
        ])]
    );
}

#[test]
fn other_delimiter_inside_a_style_opens_a_style() {
    assert_eq!(
        inline("`a *b* c`"),
        vec![TextToken::Code(vec![
            txt("a "),
            TextToken::Italic(vec![txt("b")]),
            txt(" c")
        ])]
    );
}

#[test]
fn mixed_stack_is_not_closed_by_one_run() {
    assert_eq!(
        inline("`a*b**"),
        vec![TextToken::Code(vec![
            txt("a"),
            TextToken::Italic(vec![txt("b"), TextToken::Bold(vec![])])
        ])]
    );
}

#[test]
fn inline_tokens_stop_at_the_line_break() {
    let mut parser = MarkdownParser::new("a*b*\nc");
    let tokens = parser.parse_text_tokens();
    assert_eq!(tokens, vec![txt("a"), TextToken::Italic(vec![txt("b")])]);
    let rest = parser.parse();
    assert_eq!(
        rest,
        vec![MarkdownToken::NewLine, MarkdownToken::Paragraph(vec![txt("c")])]
    );
}

#[test]
fn inline_tokens_of_an_empty_line() {
    assert_eq!(inline(""), vec![]);
    assert_eq!(inline("\nabc"), vec![]);
}

#[test]
fn parse_text_reads_the_plain_run() {
    let mut parser = MarkdownParser::new("abc*def");
    assert_eq!(parser.parse_text(), txt("abc"));
    assert_eq!(parser.parse_text(), txt(""));
    let mut parser = MarkdownParser::new("abc\ndef");
    assert_eq!(parser.parse_text(), txt("abc"));
    let mut parser = MarkdownParser::new("# abc");
    assert_eq!(parser.parse_text(), txt("# abc"));
    assert_eq!(parser.parse_text(), txt(""));
}

#[test]
fn styled_token_from_the_cursor() {
    let mut parser = MarkdownParser::new("**a**b");
    assert_eq!(parser.get_styled_text_token(), TextToken::Bold(vec![txt("a")]));
    assert_eq!(parser.parse_text(), txt("b"));
}

#[test]
fn header_or_text_from_the_cursor() {
    let mut parser = MarkdownParser::new("### a\n#b");
    assert_eq!(
        parser.parse_header_or_text(),
        MarkdownToken::Header(HeaderLevel::Three, vec![txt("a")])
    );
    assert_eq!(parser.parse_new_line(), MarkdownToken::NewLine);
    assert_eq!(parser.parse_header_or_text(), MarkdownToken::Paragraph(vec![txt("#b")]));
}

#[test]
fn header_of_a_given_level() {
    let mut parser = MarkdownParser::new("a `b`");
    assert_eq!(
        parser.parse_header(HeaderLevel::Four),
        MarkdownToken::Header(HeaderLevel::Four, vec![txt("a "), TextToken::Code(vec![txt("b")])])
    );
}

#[test]
fn long_closing_run_closes_the_whole_stack() {
    assert_eq!(
        inline("*a**b*c****d"),
        vec![
            TextToken::Italic(vec![
                txt("a"),
                TextToken::Bold(vec![txt("b"), TextToken::Italic(vec![txt("c")])])
            ]),
            txt("d")
        ]
    );
}

#[test]
fn cursor_reads_and_steps_to_the_end() {
    let mut parser = MarkdownParser::new("a\u{e9}");
    assert!(!parser.at_end());
    assert_eq!(parser.peek(), Some('a'));
    parser.advance();
    assert_eq!(parser.peek(), Some('\u{e9}'));
    parser.advance();
    assert!(parser.at_end());
    assert_eq!(parser.peek(), None);
    parser.advance();
    assert!(parser.at_end());
    assert_eq!(parser.peek(), None);
}

#[test]
fn empty_text_is_at_its_end() {
    let parser = MarkdownParser::new("");
    assert!(parser.at_end());
    assert_eq!(parser.peek(), None);
}

#[test]
fn new_line_at_the_end_stays() {
    let mut parser = MarkdownParser::new("\n");
    assert_eq!(parser.parse_new_line(), MarkdownToken::NewLine);
    assert!(parser.at_end());
    assert_eq!(parser.parse_new_line(), MarkdownToken::NewLine);
    assert!(parser.at_end());
}
