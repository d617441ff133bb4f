//! An inline Markdown tokenizer.
//!
//! The text is read once, left to right, and turned into block tokens
//! (headers, paragraphs, line breaks) whose bodies are trees of inline
//! tokens: plain text and the emphasis styles opened and closed by runs
//! of `*` and of backticks.
//!
//! `token` holds the tokens and their mathematical views, `grammar` states
//! what the token tree of a text is, and `markdown` is the parser, proved to
//! return exactly the tree that `grammar` describes. `laws` proves what
//! holds of every text, and `render` what holds of the tokens written out
//! as text again.

pub mod token;
pub mod grammar;
pub mod markdown;
pub mod laws;
pub mod render;
