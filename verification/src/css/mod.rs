//! The CSS pipeline: text to tokens, tokens to rules.

pub mod numeral;
pub mod parser;
pub mod tokenizer;

pub use parser::{
    parse_css, tokenize_css, CssParser, Declaration, DeclarationView, Rule, RuleView, Selector,
    SelectorView,
};
pub use tokenizer::{CssToken, CssTokenView, CssTokenizer};
