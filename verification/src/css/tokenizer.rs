//! The CSS tokenizer.

use crate::text::{
    alphabetic, ascii_digit, char_at, contiguous, covered, find_from, lemma_find_from,
    lemma_run_end, run_end, skip_past, CharClass, Cursor,
};
use vstd::prelude::*;

verus! {

/// A lexical unit of a stylesheet.
#[derive(Debug, PartialEq)]
pub enum CssToken {
    /// An identifier.
    Ident(String),
    /// A quoted string, without its quotes and with its escapes resolved.
    String(String),
    /// A number, as the numeral that was written.
    Number(String),
    /// A number that a unit follows.
    Dimension { value: String, unit: String },
    /// A number that `%` follows.
    Percentage(String),
    /// `#` and a name; the `#` is left out.
    Hash(String),
    /// A character that stands for itself.
    Delim(char),
    LeftParen,
    RightParen,
    LeftBrace,
    RightBrace,
    LeftBracket,
    RightBracket,
    Comma,
    Colon,
    Semicolon,
    /// One run of whitespace.
    Whitespace,
    /// What stands between `/*` and `*/`.
    Comment(String),
    /// `@` and a name; the `@` is left out.
    AtKeyword(String),
}

/// The mathematical value of a [`CssToken`].
pub enum CssTokenView {
    Ident(Seq<char>),
    String(Seq<char>),
    Number(Seq<char>),
    Dimension { value: Seq<char>, unit: Seq<char> },
    Percentage(Seq<char>),
    Hash(Seq<char>),
    Delim(char),
    LeftParen,
    RightParen,
    LeftBrace,
    RightBrace,
    LeftBracket,
    RightBracket,
    Comma,
    Colon,
    Semicolon,
    Whitespace,
    Comment(Seq<char>),
    AtKeyword(Seq<char>),
}

impl View for CssToken {
    type V = CssTokenView;

    open spec fn view(&self) -> CssTokenView {
        match self {
            CssToken::Ident(s) => CssTokenView::Ident(s@),
            CssToken::String(s) => CssTokenView::String(s@),
            CssToken::Number(n) => CssTokenView::Number(n@),
            CssToken::Dimension { value, unit } => CssTokenView::Dimension {
                value: value@,
                unit: unit@,
            },
            CssToken::Percentage(n) => CssTokenView::Percentage(n@),
            CssToken::Hash(s) => CssTokenView::Hash(s@),
            CssToken::Delim(c) => CssTokenView::Delim(*c),
            CssToken::LeftParen => CssTokenView::LeftParen,
            CssToken::RightParen => CssTokenView::RightParen,
            CssToken::LeftBrace => CssTokenView::LeftBrace,
            CssToken::RightBrace => CssTokenView::RightBrace,
            CssToken::LeftBracket => CssTokenView::LeftBracket,
            CssToken::RightBracket => CssTokenView::RightBracket,
            CssToken::Comma => CssTokenView::Comma,
            CssToken::Colon => CssTokenView::Colon,
            CssToken::Semicolon => CssTokenView::Semicolon,
            CssToken::Whitespace => CssTokenView::Whitespace,
            CssToken::Comment(s) => CssTokenView::Comment(s@),
            CssToken::AtKeyword(s) => CssTokenView::AtKeyword(s@),
        }
    }
}

impl Clone for CssToken {
    fn clone(&self) -> (copy: Self)
        ensures
            copy@ == self@,
    {
        match self {
            CssToken::Ident(s) => CssToken::Ident(s.clone()),
            CssToken::String(s) => CssToken::String(s.clone()),
            CssToken::Number(n) => CssToken::Number(n.clone()),
            CssToken::Dimension { value, unit } => CssToken::Dimension {
                value: value.clone(),
                unit: unit.clone(),
            },
            CssToken::Percentage(n) => CssToken::Percentage(n.clone()),
            CssToken::Hash(s) => CssToken::Hash(s.clone()),
            CssToken::Delim(c) => CssToken::Delim(*c),
            CssToken::LeftParen => CssToken::LeftParen,
            CssToken::RightParen => CssToken::RightParen,
            CssToken::LeftBrace => CssToken::LeftBrace,
            CssToken::RightBrace => CssToken::RightBrace,
            CssToken::LeftBracket => CssToken::LeftBracket,
            CssToken::RightBracket => CssToken::RightBracket,
            CssToken::Comma => CssToken::Comma,
            CssToken::Colon => CssToken::Colon,
            CssToken::Semicolon => CssToken::Semicolon,
            CssToken::Whitespace => CssToken::Whitespace,
            CssToken::Comment(s) => CssToken::Comment(s.clone()),
            CssToken::AtKeyword(s) => CssToken::AtKeyword(s.clone()),
        }
    }
}

impl DeepView for CssToken {
    type V = CssTokenView;

    open spec fn deep_view(&self) -> CssTokenView {
        self@
    }
}

/// The four characters that begin a run of whitespace.
pub open spec fn begins_whitespace(c: char) -> bool {
    c == ' ' || c == '\t' || c == '\n' || c == '\r'
}

/// The characters that are a token by themselves, each with its token.
pub open spec fn punctuation(c: char) -> Option<CssTokenView> {
    if c == '(' {
        Some(CssTokenView::LeftParen)
    } else if c == ')' {
        Some(CssTokenView::RightParen)
    } else if c == '{' {
        Some(CssTokenView::LeftBrace)
    } else if c == '}' {
        Some(CssTokenView::RightBrace)
    } else if c == '[' {
        Some(CssTokenView::LeftBracket)
    } else if c == ']' {
        Some(CssTokenView::RightBracket)
    } else if c == ',' {
        Some(CssTokenView::Comma)
    } else if c == ':' {
        Some(CssTokenView::Colon)
    } else if c == ';' {
        Some(CssTokenView::Semicolon)
    } else {
        None
    }
}

/// The two characters that close a comment.
pub open spec fn comment_close() -> Seq<char> {
    seq!['*', '/']
}

/// The content of a quoted string whose first character after the opening
/// quote stands at `p`, and the index behind the string. A backslash is left
/// out, and the character after it is taken as it is, whatever it is. The
/// string ends at the first `quote` that is not taken in this way, or at the
/// end of the text.
pub open spec fn quoted(s: Seq<char>, p: int, quote: char) -> (Seq<char>, int)
    decreases s.len() - p,
{
    if p < 0 || p >= s.len() {
        (Seq::empty(), p)
    } else if s[p] == quote {
        (Seq::empty(), p + 1)
    } else if s[p] == '\\' {
        if p + 1 < s.len() {
            let rest = quoted(s, p + 2, quote);
            (seq![s[p + 1]] + rest.0, rest.1)
        } else {
            (Seq::empty(), p + 1)
        }
    } else {
        let rest = quoted(s, p + 1, quote);
        (seq![s[p]] + rest.0, rest.1)
    }
}

/// The token that a number at `p` gives, and the index behind it. The numeral
/// is the run of digits and points at `p`; `%` behind it makes a percentage,
/// an alphabetic character a dimension, whose unit is the name that begins
/// there.
pub open spec fn numeric_at(s: Seq<char>, p: int) -> (CssTokenView, int) {
    let q = run_end(s, p, CharClass::Numeral);
    let numeral = s.subrange(p, q);
    if char_at(s, q) == Some('%') {
        (CssTokenView::Percentage(numeral), q + 1)
    } else if q < s.len() && alphabetic(s[q]) {
        let r = run_end(s, q, CharClass::Name);
        (CssTokenView::Dimension { value: numeral, unit: s.subrange(q, r) }, r)
    } else {
        (CssTokenView::Number(numeral), q)
    }
}

/// The token that begins at index `p` of `s`, and the index behind it; `None`
/// where `p` is the end of the text. A space, a tab or a line break begins a
/// run of whitespace, to which all the whitespace behind it belongs; `/*`
/// begins a comment, a quote a string, `#` and `@` a name, a digit a number,
/// an alphabetic character, `-` or `_` an identifier. Each of
/// `( ) { } [ ] , : ;` is a token by itself, and so is any other character.
pub open spec fn token_at(s: Seq<char>, p: int) -> Option<(CssTokenView, int)> {
    if p < 0 || p >= s.len() {
        None
    } else {
        let c = s[p];
        Some(
            if begins_whitespace(c) {
                (CssTokenView::Whitespace, run_end(s, p + 1, CharClass::Whitespace))
            } else if c == '/' && char_at(s, p + 1) == Some('*') {
                (
                    CssTokenView::Comment(
                        s.subrange(p + 2, find_from(s, p + 2, comment_close())),
                    ),
                    skip_past(s, p + 2, comment_close()),
                )
            } else if c == '"' || c == '\'' {
                (CssTokenView::String(quoted(s, p + 1, c).0), quoted(s, p + 1, c).1)
            } else if c == '#' {
                (
                    CssTokenView::Hash(s.subrange(p + 1, run_end(s, p + 1, CharClass::Name))),
                    run_end(s, p + 1, CharClass::Name),
                )
            } else if c == '@' {
                (
                    CssTokenView::AtKeyword(s.subrange(p + 1, run_end(s, p + 1, CharClass::Name))),
                    run_end(s, p + 1, CharClass::Name),
                )
            } else if punctuation(c) is Some {
                (punctuation(c)->0, p + 1)
            } else if ascii_digit(c) {
                numeric_at(s, p)
            } else if alphabetic(c) || c == '-' || c == '_' {
                (
                    CssTokenView::Ident(s.subrange(p, run_end(s, p, CharClass::Name))),
                    run_end(s, p, CharClass::Name),
                )
            } else {
                (CssTokenView::Delim(c), p + 1)
            },
        )
    }
}

/// A quoted string ends behind its start and within the text.
pub proof fn lemma_quoted_end(s: Seq<char>, p: int, quote: char)
    requires
        0 <= p <= s.len(),
    ensures
        p <= quoted(s, p, quote).1 <= s.len(),
    decreases s.len() - p,
{
    if p < s.len() && s[p] != quote {
        if s[p] == '\\' {
            if p + 1 < s.len() {
                lemma_quoted_end(s, p + 2, quote);
            }
        } else {
            lemma_quoted_end(s, p + 1, quote);
        }
    }
}

/// Every token holds at least one character of the text and ends within it.
pub proof fn lemma_token_advances(s: Seq<char>, p: int)
    requires
        0 <= p < s.len(),
    ensures
        token_at(s, p) is Some,
        p < token_at(s, p).unwrap().1 <= s.len(),
{
    let c = s[p];
    lemma_run_end(s, p + 1, CharClass::Whitespace);
    lemma_run_end(s, p + 1, CharClass::Name);
    lemma_run_end(s, p, CharClass::Numeral);
    let q = run_end(s, p, CharClass::Numeral);
    lemma_run_end(s, q, CharClass::Name);
    if c == '/' && char_at(s, p + 1) == Some('*') {
        lemma_find_from(s, p + 2, comment_close());
    }
    if c == '"' || c == '\'' {
        lemma_quoted_end(s, p + 1, c);
    }
}

/// The tokens of `s` from index `p` on, in order.
pub open spec fn tokens_from(s: Seq<char>, p: int) -> Seq<CssTokenView>
    decreases s.len() - p,
{
    match token_at(s, p) {
        Some((token, next)) => {
            proof {
                lemma_token_advances(s, p);
            }
            seq![token] + tokens_from(s, next)
        },
        None => Seq::empty(),
    }
}

/// The spans of the tokens of `s` from index `p` on: for each token the
/// index at which it begins and the index before which it ends.
pub open spec fn spans_from(s: Seq<char>, p: int) -> Seq<(int, int)>
    decreases s.len() - p,
{
    match token_at(s, p) {
        Some((token, next)) => {
            proof {
                lemma_token_advances(s, p);
            }
            seq![(p, next)] + spans_from(s, next)
        },
        None => Seq::empty(),
    }
}

/// The tokens tile the text. There is one span for each token, and the
/// token is what is read at the start of its span. No span is empty, each
/// begins where the one before it ends, the first begins at `p` and the
/// last ends with the text: so the spans, one after the other, hold the
/// text from `p` on, each character once and in order.
pub proof fn lemma_tokens_tile_text(s: Seq<char>, p: int)
    requires
        0 <= p <= s.len(),
    ensures
        spans_from(s, p).len() == tokens_from(s, p).len(),
        forall|i: int|
            0 <= i < spans_from(s, p).len() ==> token_at(s, (#[trigger] spans_from(s, p)[i]).0)
                == Some((tokens_from(s, p)[i], spans_from(s, p)[i].1)),
        contiguous(spans_from(s, p)),
        spans_from(s, p).len() > 0 ==> spans_from(s, p).first().0 == p && spans_from(
            s,
            p,
        ).last().1 == s.len(),
        spans_from(s, p).len() == 0 ==> p == s.len(),
        covered(s, spans_from(s, p)) == s.subrange(p, s.len() as int),
    decreases s.len() - p,
{
    let spans = spans_from(s, p);
    if p < s.len() {
        lemma_token_advances(s, p);
        let next = token_at(s, p).unwrap().1;
        let rest = spans_from(s, next);
        lemma_tokens_tile_text(s, next);
        assert(spans.drop_first() == rest);
    }
}

/// Tokenizing is a function of the text alone: two runs over the same text
/// give the same tokens.
pub proof fn lemma_tokenize_twice(text: Seq<char>, first: Vec<CssToken>, second: Vec<CssToken>)
    requires
        first.deep_view() == tokens_from(text, 0),
        second.deep_view() == tokens_from(text, 0),
    ensures
        first.deep_view() == second.deep_view(),
        first@.len() == second@.len(),
        forall|i: int| 0 <= i < first@.len() ==> (#[trigger] first@[i])@ == second@[i]@,
{
    assert(second.deep_view().len() == second@.len());
    assert forall|i: int| 0 <= i < first@.len() implies (#[trigger] first@[i])@ == second@[i]@ by {
        assert(second.deep_view()[i] == second@[i]@);
    }
}

/// A forward-only reader of the tokens of a stylesheet.
pub struct CssTokenizer {
    cursor: Cursor,
}

impl CssTokenizer {
    /// The text that is read.
    pub closed spec fn text(&self) -> Seq<char> {
        self.cursor.text()
    }

    /// The number of characters that have been read.
    pub closed spec fn offset(&self) -> int {
        self.cursor.offset()
    }

    /// A tokenizer at the start of `input`.
    pub fn new(input: &str) -> (tokenizer: Self)
        ensures
            tokenizer.text() == input@,
            tokenizer.offset() == 0,
    {
        CssTokenizer { cursor: Cursor::new(input) }
    }

    /// The number of characters that have been read.
    pub fn position(&self) -> (p: usize)
        ensures
            p == self.offset(),
            p <= self.text().len(),
    {
        self.cursor.position()
    }

    /// Reads a quoted string whose opening quote stands at the cursor.
    fn parse_string(&mut self, quote: char) -> (content: String)
        requires
            old(self).offset() < old(self).text().len(),
        ensures
            final(self).text() == old(self).text(),
            content@ == quoted(old(self).text(), old(self).offset() + 1, quote).0,
            final(self).offset() == quoted(old(self).text(), old(self).offset() + 1, quote).1,
    {
        let mut content = String::new();
        self.cursor.advance();
        let ghost text = self.cursor.text();
        let ghost start = self.cursor.offset();
        loop
            invariant_except_break
                quoted(text, start, quote).0 == content@ + quoted(
                    text,
                    self.cursor.offset(),
                    quote,
                ).0,
                quoted(text, start, quote).1 == quoted(text, self.cursor.offset(), quote).1,
            invariant
                self.cursor.text() == text,
                0 <= start <= self.cursor.offset() <= text.len(),
            ensures
                content@ == quoted(text, start, quote).0,
                self.cursor.offset() == quoted(text, start, quote).1,
                self.cursor.text() == text,
            decreases text.len() - self.cursor.offset(),
        {
            match self.cursor.current() {
                None => {
                    break ;
                },
                Some(ch) => {
                    if ch == quote {
                        self.cursor.advance();
                        break ;
                    } else if ch == '\\' {
                        self.cursor.advance();
                        match self.cursor.current() {
                            Some(escaped) => {
                                content.push(escaped);
                                self.cursor.advance();
                            },
                            None => {},
                        }
                    } else {
                        content.push(ch);
                        self.cursor.advance();
                    }
                },
            }
        }
        content
    }

    /// Reads the run of digits and points at the cursor.
    fn parse_number(&mut self) -> (numeral: String)
        ensures
            final(self).text() == old(self).text(),
            final(self).offset() == run_end(
                old(self).text(),
                old(self).offset(),
                CharClass::Numeral,
            ),
            numeral@ == old(self).text().subrange(old(self).offset(), final(self).offset()),
    {
        self.cursor.consume_while(CharClass::Numeral)
    }

    /// Reads the name at the cursor.
    fn parse_ident(&mut self) -> (name: String)
        ensures
            final(self).text() == old(self).text(),
            final(self).offset() == run_end(old(self).text(), old(self).offset(), CharClass::Name),
            name@ == old(self).text().subrange(old(self).offset(), final(self).offset()),
    {
        self.cursor.consume_while(CharClass::Name)
    }

    /// Reads a comment whose opening `/*` stands at the cursor.
    fn parse_comment(&mut self) -> (content: String)
        requires
            old(self).offset() + 1 < old(self).text().len(),
        ensures
            final(self).text() == old(self).text(),
            content@ == old(self).text().subrange(
                old(self).offset() + 2,
                find_from(old(self).text(), old(self).offset() + 2, comment_close()),
            ),
            final(self).offset() == skip_past(
                old(self).text(),
                old(self).offset() + 2,
                comment_close(),
            ),
    {
        self.cursor.advance();
        self.cursor.advance();
        let mut close: Vec<char> = Vec::new();
        close.push('*');
        close.push('/');
        assert(close@ == comment_close());
        self.cursor.consume_until(&close)
    }

    /// Reads the next token. Returns `None` at the end of the text, and only
    /// there; every token takes at least one character.
    pub fn next_token(&mut self) -> (token: Option<CssToken>)
        ensures
            final(self).text() == old(self).text(),
            match token_at(old(self).text(), old(self).offset()) {
                Some((view, next)) => token is Some && token->0@ == view && final(self).offset()
                    == next && old(self).offset() < next <= old(self).text().len(),
                None => token is None && final(self).offset() == old(self).offset(),
            },
    {
        let ghost text = self.cursor.text();
        let ghost p = self.cursor.offset();
        let c = match self.cursor.current() {
            Some(c) => c,
            None => {
                return None;
            },
        };
        proof {
            lemma_token_advances(text, p);
        }
        if c == ' ' || c == '\t' || c == '\n' || c == '\r' {
            self.cursor.advance();
            self.cursor.skip_while(CharClass::Whitespace);
            Some(CssToken::Whitespace)
        } else if c == '/' && self.cursor.peek() == Some('*') {
            let comment = self.parse_comment();
            Some(CssToken::Comment(comment))
        } else if c == '"' || c == '\'' {
            let string = self.parse_string(c);
            Some(CssToken::String(string))
        } else if c == '#' {
            self.cursor.advance();
            let hash = self.parse_ident();
            Some(CssToken::Hash(hash))
        } else if c == '@' {
            self.cursor.advance();
            let keyword = self.parse_ident();
            Some(CssToken::AtKeyword(keyword))
        } else if c == '(' {
            self.cursor.advance();
            Some(CssToken::LeftParen)
        } else if c == ')' {
            self.cursor.advance();
            Some(CssToken::RightParen)
        } else if c == '{' {
            self.cursor.advance();
            Some(CssToken::LeftBrace)
        } else if c == '}' {
            self.cursor.advance();
            Some(CssToken::RightBrace)
        } else if c == '[' {
            self.cursor.advance();
            Some(CssToken::LeftBracket)
        } else if c == ']' {
            self.cursor.advance();
            Some(CssToken::RightBracket)
        } else if c == ',' {
            self.cursor.advance();
            Some(CssToken::Comma)
        } else if c == ':' {
            self.cursor.advance();
            Some(CssToken::Colon)
        } else if c == ';' {
            self.cursor.advance();
            Some(CssToken::Semicolon)
        } else if '0' <= c && c <= '9' {
            let number = self.parse_number();
            match self.cursor.current() {
                Some('%') => {
                    self.cursor.advance();
                    Some(CssToken::Percentage(number))
                },
                Some(ch) => {
                    if ch.is_alphabetic() {
                        let unit = self.parse_ident();
                        Some(CssToken::Dimension { value: number, unit })
                    } else {
                        Some(CssToken::Number(number))
                    }
                },
                None => Some(CssToken::Number(number)),
            }
        } else if c.is_alphabetic() || c == '-' || c == '_' {
            let ident = self.parse_ident();
            Some(CssToken::Ident(ident))
        } else {
            self.cursor.advance();
            Some(CssToken::Delim(c))
        }
    }

    /// Reads all the tokens that are left, in order.
    pub fn collect(self) -> (tokens: Vec<CssToken>)
        ensures
            tokens.deep_view() == tokens_from(self.text(), self.offset()),
    {
        let mut tokenizer = self;
        let mut tokens: Vec<CssToken> = Vec::new();
        let ghost text = tokenizer.text();
        let ghost start = tokenizer.offset();
        loop
            invariant
                tokenizer.text() == text,
                tokens_from(text, start) == tokens.deep_view() + tokens_from(
                    text,
                    tokenizer.offset(),
                ),
            ensures
                tokens.deep_view() == tokens_from(text, start),
            decreases text.len() - tokenizer.offset(),
        {
            match tokenizer.next_token() {
                Some(token) => {
                    tokens.push(token);
                },
                None => {
                    break ;
                },
            }
        }
        tokens
    }
}

} // verus!
