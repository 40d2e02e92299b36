//! The HTML pipeline: text to tokens, tokens to a tree of nodes.

pub mod attributes;
pub mod parser;
pub mod tokenizer;

pub use attributes::Attributes;
pub use parser::{
    parse_html, parse_html_document, tokenize_html, Element, ElementView, HtmlParser, Node,
    NodeView,
};
pub use tokenizer::{HtmlToken, HtmlTokenView, HtmlTokenizer};
