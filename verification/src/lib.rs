//! Lenient tokenizers and parsers for HTML and CSS text.
//!
//! Each pipeline has a tokenizer, which turns text into a flat sequence of
//! tokens, and a parser, which turns that sequence into a structure: a tree
//! of nodes for HTML, a list of rules for CSS. Nothing here fails: malformed
//! input gives a best-effort result, and every function returns on every
//! input.
//!
//! What each function returns is stated over the characters of the text, as
//! a `Seq<char>`, by the specification functions `token_at` and `tokens_from`
//! of the two tokenizers and `nodes_from` and `rules_from` of the two
//! parsers. Beside them stand the laws that hold of them: the tokens tile
//! the text, every text node is trimmed and not empty, a void element has no
//! children, every rule has a selector.
//!
//! Which characters are whitespace, alphabetic or numeric, and what the
//! lowercase form of a name is, is decided by the standard library and only
//! named here; see the module [`text`].
//!
//! A number of a stylesheet is kept as the numeral that was written, and is
//! rendered as the decimal text of its exact value; see [`css::numeral`].

pub mod css;
pub mod html;
pub mod text;
