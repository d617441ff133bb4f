use markdown_parser::markdown::MarkdownParser;
use markdown_parser::token::{HeaderLevel, MarkdownToken, TextToken};

fn text(s: &str) -> TextToken {
    TextToken::Text(s.to_string())
}

#[test]
fn parse_header_1() {
    let input = "# Hello World!";

    let mut markdown_parser = MarkdownParser::new(input);
    let result = markdown_parser.parse();

    assert_eq!(
        result,
        vec![MarkdownToken::Header(
            HeaderLevel::One,
            vec![TextToken::Text("Hello World!".to_string())]
        )]
    );
}

#[test]
fn parse_header_1_with_style_children() {
    let input = "# Hello *World*!";

    let mut markdown_parser = MarkdownParser::new(input);
    let result = markdown_parser.parse();

    assert_eq!(
        result,
        vec![MarkdownToken::Header(
            HeaderLevel::One,
            vec![
                TextToken::Text("Hello ".to_string()),
                TextToken::Italic(vec![TextToken::Text("World".to_string())]),
                TextToken::Text("!".to_string())
            ]
        )]
    );
}

#[test]
fn parse_header_1_with_style_children_2() {
    let input = "# Hello *World **123***!";

    let mut markdown_parser = MarkdownParser::new(input);
    let result = markdown_parser.parse();

    assert_eq!(
        result,
        vec![MarkdownToken::Header(
            HeaderLevel::One,
            vec![
                TextToken::Text("Hello ".to_string()),
                TextToken::Italic(vec![
                    TextToken::Text("World ".to_string()),
                    TextToken::Bold(vec![TextToken::Text("123".to_string())])
                ]),
                TextToken::Text("!".to_string())
            ]
        )]
    );
}

#[test]
fn parse_header_1_with_style_children_3() {
    let input = "# Hello *World **123** `i am a code`*!";

    let mut markdown_parser = MarkdownParser::new(input);
    let result = markdown_parser.parse();

    assert_eq!(
        result,
        vec![MarkdownToken::Header(
            HeaderLevel::One,
            vec![
                TextToken::Text("Hello ".to_string()),
                TextToken::Italic(vec![
                    TextToken::Text("World ".to_string()),
                    TextToken::Bold(vec![TextToken::Text("123".to_string())]),
                    TextToken::Text(" ".to_string()),
                    TextToken::Code(vec![TextToken::Text("i am a code".to_string())])
                ]),
                TextToken::Text("!".to_string())
            ]
        )]
    );
}

#[test]
fn parse_header_1_with_style_children_4() {
    let input = "# **Introduction to** ***Programming*** with `Rust`";

    let mut markdown_parser = MarkdownParser::new(input);
    let result = markdown_parser.parse();

    assert_eq!(
        result,
        vec![MarkdownToken::Header(
            HeaderLevel::One,
            vec![
                TextToken::Bold(vec![TextToken::Text("Introduction to".to_string())]),
                TextToken::Text(" ".to_string()),
                TextToken::BoldItalic(vec![TextToken::Text("Programming".to_string())]),
                TextToken::Text(" with ".to_string()),
                TextToken::Code(vec![TextToken::Text("Rust".to_string())]),
            ]
        )]
    );
}

#[test]
fn parse_header_1_with_style_children_5() {
    let input = "# **Introduction to** ***Programming*** with `Rust *Programming Language*`";

    let mut markdown_parser = MarkdownParser::new(input);
    let result = markdown_parser.parse();

    assert_eq!(
        result,
        vec![MarkdownToken::Header(
            HeaderLevel::One,
            vec![
                TextToken::Bold(vec![TextToken::Text("Introduction to".to_string())]),
                TextToken::Text(" ".to_string()),
                TextToken::BoldItalic(vec![TextToken::Text("Programming".to_string())]),
                TextToken::Text(" with ".to_string()),
                TextToken::Code(vec![
                    TextToken::Text("Rust ".to_string()),
                    TextToken::Italic(vec![TextToken::Text(
                        "Programming Language".to_string()
                    )])
                ]),
            ]
        )]
    );
}

#[test]
fn parse_header_1_with_newline() {
    let input = "# Hello World!\n\n";

    let mut markdown_parser = MarkdownParser::new(input);
    let result = markdown_parser.parse();

    assert_eq!(
        result,
        vec![
            MarkdownToken::Header(
                HeaderLevel::One,
                vec![TextToken::Text("Hello World!".to_string())]
            ),
            MarkdownToken::NewLine,
            MarkdownToken::NewLine
        ]
    );
}

#[test]
fn parse_header_2() {
    let input = "## **Hello World!**";

    let mut markdown_parser = MarkdownParser::new(input);
    let result = markdown_parser.parse();

    assert_eq!(
        result,
        vec![MarkdownToken::Header(
            HeaderLevel::Two,
            vec![TextToken::Bold(vec![TextToken::Text(
                "Hello World!".to_string()
            )])]
        )]
    );
}

#[test]
fn header_levels_one_to_six() {
    let levels = [
        ("# x", HeaderLevel::One),
        ("## x", HeaderLevel::Two),
        ("### x", HeaderLevel::Three),
        ("#### x", HeaderLevel::Four),
        ("##### x", HeaderLevel::Five),
        ("###### x", HeaderLevel::Six),
    ];
    for (input, level) in levels {
        let result = MarkdownParser::new(input).parse();
        assert_eq!(result, vec![MarkdownToken::Header(level, vec![text("x")])]);
    }
}

#[test]
fn seven_hashes_and_more_are_level_six() {
    let result = MarkdownParser::new("####### x").parse();
    assert_eq!(result, vec![MarkdownToken::Header(HeaderLevel::Six, vec![text("x")])]);
    let result = MarkdownParser::new("############ x").parse();
    assert_eq!(result, vec![MarkdownToken::Header(HeaderLevel::Six, vec![text("x")])]);
}

#[test]
fn no_hash_is_a_paragraph() {
    let result = MarkdownParser::new("x # y").parse();
    assert_eq!(result, vec![MarkdownToken::Paragraph(vec![text("x # y")])]);
}

#[test]
fn leading_space_is_a_paragraph() {
    let result = MarkdownParser::new(" x").parse();
    assert_eq!(result, vec![MarkdownToken::Paragraph(vec![text(" x")])]);
}

#[test]
fn hashes_without_space_are_paragraph_text() {
    let result = MarkdownParser::new("##x *y*\n").parse();
    assert_eq!(
        result,
        vec![
            MarkdownToken::Paragraph(vec![text("##x "), TextToken::Italic(vec![text("y")])]),
            MarkdownToken::NewLine
        ]
    );
}

#[test]
fn hashes_at_the_end_are_an_empty_paragraph() {
    let result = MarkdownParser::new("##").parse();
    assert_eq!(result, vec![MarkdownToken::Paragraph(vec![])]);
    let result = MarkdownParser::new("# a\n###").parse();
    assert_eq!(
        result,
        vec![
            MarkdownToken::Header(HeaderLevel::One, vec![text("a")]),
            MarkdownToken::NewLine,
            MarkdownToken::Paragraph(vec![])
        ]
    );
}

#[test]
fn header_without_body() {
    let result = MarkdownParser::new("# ").parse();
    assert_eq!(result, vec![MarkdownToken::Header(HeaderLevel::One, vec![])]);
    let result = MarkdownParser::new("## \n").parse();
    assert_eq!(
        result,
        vec![MarkdownToken::Header(HeaderLevel::Two, vec![]), MarkdownToken::NewLine]
    );
}

#[test]
fn hashes_before_a_line_break_are_paragraph_text() {
    let result = MarkdownParser::new("#\nx").parse();
    assert_eq!(
        result,
        vec![
            MarkdownToken::Paragraph(vec![text("#")]),
            MarkdownToken::NewLine,
            MarkdownToken::Paragraph(vec![text("x")])
        ]
    );
}

#[test]
fn empty_input_has_no_tokens() {
    let result = MarkdownParser::new("").parse();
    assert_eq!(result, vec![]);
}

#[test]
fn only_line_breaks() {
    let result = MarkdownParser::new("\n\n\n").parse();
    assert_eq!(
        result,
        vec![MarkdownToken::NewLine, MarkdownToken::NewLine, MarkdownToken::NewLine]
    );
}

#[test]
fn plain_text_is_one_text_token() {
    let result = MarkdownParser::new("just some words, 100% plain").parse();
    assert_eq!(
        result,
        vec![MarkdownToken::Paragraph(vec![text("just some words, 100% plain")])]
    );
}

#[test]
fn plain_lines_and_their_line_breaks() {
    let result = MarkdownParser::new("one\ntwo\n\nthree").parse();
    assert_eq!(
        result,
        vec![
            MarkdownToken::Paragraph(vec![text("one")]),
            MarkdownToken::NewLine,
            MarkdownToken::Paragraph(vec![text("two")]),
            MarkdownToken::NewLine,
            MarkdownToken::NewLine,
            MarkdownToken::Paragraph(vec![text("three")])
        ]
    );
}

#[test]
fn text_beyond_ascii_is_kept() {
    let result = MarkdownParser::new("# héllo *wörld* ✓").parse();
    assert_eq!(
        result,
        vec![MarkdownToken::Header(
            HeaderLevel::One,
            vec![text("héllo "), TextToken::Italic(vec![text("wörld")]), text(" ✓")]
        )]
    );
}

#[test]
fn parsing_twice_reads_nothing_more() {
    let mut parser = MarkdownParser::new("# a\nb");
    let first = parser.parse();
    assert_eq!(first.len(), 3);
    let second = parser.parse();
    assert_eq!(second, vec![]);
}
