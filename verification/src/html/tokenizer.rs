//! The HTML tokenizer.

use crate::text::{
    char_at, contiguous, covered, end_of, find_from, lemma_find_from, lemma_run_end, run_end,
    skip_past, CharClass, Cursor,
};
use vstd::prelude::*;

verus! {

/// A lexical unit of a document.
#[derive(Debug, PartialEq)]
pub enum HtmlToken {
    /// An opening tag. The attributes stand in the order in which they were
    /// written, a name that was written twice stands twice.
    StartTag { name: String, attributes: Vec<(String, String)>, self_closing: bool },
    /// A closing tag.
    EndTag { name: String },
    /// Text between tags, with the whitespace inside it and behind it.
    Text(String),
    /// What stands between `<!--` and `-->`.
    Comment(String),
    /// What stands between `<!` and `>`.
    Doctype(String),
}

/// The mathematical value of an [`HtmlToken`].
pub enum HtmlTokenView {
    StartTag { name: Seq<char>, attributes: Seq<(Seq<char>, Seq<char>)>, self_closing: bool },
    EndTag { name: Seq<char> },
    Text(Seq<char>),
    Comment(Seq<char>),
    Doctype(Seq<char>),
}

impl Clone for HtmlToken {
    fn clone(&self) -> (copy: Self)
        ensures
            copy@ == self@,
    {
        match self {
            HtmlToken::StartTag { name, attributes, self_closing } => {
                let mut list: Vec<(String, String)> = Vec::new();
                let mut i: usize = 0;
                while i < attributes.len()
                    invariant
                        i <= attributes@.len(),
                        list.deep_view() == attributes.deep_view().subrange(0, i as int),
                    decreases attributes@.len() - i,
                {
                    let ghost views = attributes.deep_view();
                    let key = attributes[i].0.clone();
                    let value = attributes[i].1.clone();
                    list.push((key, value));
                    proof {
                        assert(views.subrange(0, i + 1) == views.subrange(0, i as int).push(
                            views[i as int],
                        ));
                    }
                    i = i + 1;
                }
                proof {
                    assert(attributes.deep_view().subrange(0, i as int) == attributes.deep_view());
                }
                HtmlToken::StartTag {
                    name: name.clone(),
                    attributes: list,
                    self_closing: *self_closing,
                }
            },
            HtmlToken::EndTag { name } => HtmlToken::EndTag { name: name.clone() },
            HtmlToken::Text(text) => HtmlToken::Text(text.clone()),
            HtmlToken::Comment(comment) => HtmlToken::Comment(comment.clone()),
            HtmlToken::Doctype(doctype) => HtmlToken::Doctype(doctype.clone()),
        }
    }
}

impl DeepView for HtmlToken {
    type V = HtmlTokenView;

    open spec fn deep_view(&self) -> HtmlTokenView {
        match self {
            HtmlToken::StartTag { name, attributes, self_closing } => HtmlTokenView::StartTag {
                name: name@,
                attributes: attributes.deep_view(),
                self_closing: *self_closing,
            },
            HtmlToken::EndTag { name } => HtmlTokenView::EndTag { name: name@ },
            HtmlToken::Text(text) => HtmlTokenView::Text(text@),
            HtmlToken::Comment(comment) => HtmlTokenView::Comment(comment@),
            HtmlToken::Doctype(doctype) => HtmlTokenView::Doctype(doctype@),
        }
    }
}

impl View for HtmlToken {
    type V = HtmlTokenView;

    open spec fn view(&self) -> HtmlTokenView {
        self.deep_view()
    }
}

/// The three characters that close a comment.
pub open spec fn comment_close() -> Seq<char> {
    seq!['-', '-', '>']
}

/// Whether the character ends a list of attributes.
pub open spec fn ends_attributes(c: char) -> bool {
    c == '>' || c == '/'
}

/// The index behind `p` if the character `c` stands there, else `p`.
pub open spec fn skip_char(s: Seq<char>, p: int, c: char) -> int {
    if char_at(s, p) == Some(c) {
        p + 1
    } else {
        p
    }
}

/// The value of an attribute whose `=` stands before index `p`, and the
/// index behind the value. Whitespace before the value is passed over. A
/// value in quotes runs to the next such quote, or to the end of the text;
/// one without quotes runs to the next whitespace, `>` or `/`.
pub open spec fn attribute_value_at(s: Seq<char>, p: int) -> (Seq<char>, int) {
    let start = run_end(s, p, CharClass::Whitespace);
    if char_at(s, start) == Some('"') || char_at(s, start) == Some('\'') {
        let end = run_end(s, start + 1, CharClass::Except(s[start]));
        (s.subrange(start + 1, end), skip_char(s, end, s[start]))
    } else {
        let end = run_end(s, start, CharClass::Unquoted);
        (s.subrange(start, end), end)
    }
}

/// The attributes from index `p` on, and the index behind them. The list
/// ends before `>` or `/`, at the end of the text, or where no name begins.
/// An attribute without `=` has the empty value.
pub open spec fn attributes_at(s: Seq<char>, p: int) -> (Seq<(Seq<char>, Seq<char>)>, int)
    decreases s.len() - p,
{
    if p < 0 || p >= s.len() || ends_attributes(s[p]) {
        (Seq::empty(), p)
    } else {
        let start = run_end(s, p, CharClass::Whitespace);
        let name_end = run_end(s, start, CharClass::AttributeName);
        if start >= s.len() || ends_attributes(s[start]) || name_end == start {
            (Seq::empty(), start)
        } else {
            let after_name = run_end(s, name_end, CharClass::Whitespace);
            let value = if char_at(s, after_name) == Some('=') {
                attribute_value_at(s, after_name + 1)
            } else {
                (Seq::empty(), after_name)
            };
            proof {
                lemma_run_end(s, p, CharClass::Whitespace);
                lemma_run_end(s, start, CharClass::AttributeName);
                lemma_run_end(s, name_end, CharClass::Whitespace);
                if after_name < s.len() {
                    lemma_attribute_value_end(s, after_name + 1);
                }
            }
            let rest = attributes_at(s, value.1);
            (seq![(s.subrange(start, name_end), value.0)] + rest.0, rest.1)
        }
    }
}

/// The value of an attribute ends at or behind its start and within the text.
pub proof fn lemma_attribute_value_end(s: Seq<char>, p: int)
    requires
        0 <= p <= s.len(),
    ensures
        p <= attribute_value_at(s, p).1 <= s.len(),
{
    lemma_run_end(s, p, CharClass::Whitespace);
    let start = run_end(s, p, CharClass::Whitespace);
    if start < s.len() {
        lemma_run_end(s, start + 1, CharClass::Except(s[start]));
    }
    lemma_run_end(s, start, CharClass::Unquoted);
}

/// The attributes end at or behind their start and within the text.
pub proof fn lemma_attributes_end(s: Seq<char>, p: int)
    requires
        0 <= p <= s.len(),
    ensures
        p <= attributes_at(s, p).1 <= s.len(),
    decreases s.len() - p,
{
    if p < s.len() && !ends_attributes(s[p]) {
        let start = run_end(s, p, CharClass::Whitespace);
        let name_end = run_end(s, start, CharClass::AttributeName);
        lemma_run_end(s, p, CharClass::Whitespace);
        lemma_run_end(s, start, CharClass::AttributeName);
        if !(start >= s.len() || ends_attributes(s[start]) || name_end == start) {
            let after_name = run_end(s, name_end, CharClass::Whitespace);
            lemma_run_end(s, name_end, CharClass::Whitespace);
            if after_name < s.len() {
                lemma_attribute_value_end(s, after_name + 1);
            }
            let value = if char_at(s, after_name) == Some('=') {
                attribute_value_at(s, after_name + 1)
            } else {
                (Seq::empty(), after_name)
            };
            lemma_attributes_end(s, value.1);
        }
    }
}

/// The token whose `<` stands at index `p`, and the index behind it. `<!--`
/// begins a comment, which ends with the first `-->` or with the text. Any
/// other `<!` begins a doctype, which ends with the next `>`. `</` begins an
/// end tag: a name, and all that follows up to the next `>` is passed over.
/// Anything else begins a start tag: a name, attributes, `/` if the tag closes
/// itself, and `>` if it stands there.
pub open spec fn markup_at(s: Seq<char>, p: int) -> (HtmlTokenView, int) {
    if char_at(s, p + 1) == Some('!') {
        if char_at(s, p + 2) == Some('-') && char_at(s, p + 3) == Some('-') {
            (
                HtmlTokenView::Comment(s.subrange(p + 4, find_from(s, p + 4, comment_close()))),
                skip_past(s, p + 4, comment_close()),
            )
        } else {
            let end = run_end(s, p + 2, CharClass::Except('>'));
            (HtmlTokenView::Doctype(s.subrange(p + 2, end)), skip_char(s, end, '>'))
        }
    } else if char_at(s, p + 1) == Some('/') {
        let name_end = run_end(s, p + 2, CharClass::Name);
        (
            HtmlTokenView::EndTag { name: s.subrange(p + 2, name_end) },
            skip_char(s, run_end(s, name_end, CharClass::Except('>')), '>'),
        )
    } else {
        let name_end = run_end(s, p + 1, CharClass::Name);
        let attributes = attributes_at(s, name_end);
        let self_closing = char_at(s, attributes.1) == Some('/');
        (
            HtmlTokenView::StartTag {
                name: s.subrange(p + 1, name_end),
                attributes: attributes.0,
                self_closing,
            },
            skip_char(s, skip_char(s, attributes.1, '/'), '>'),
        )
    }
}

/// The token that is read from index `p` of `s` on, and the index behind it;
/// `None` where only whitespace is left. Whitespace before a token is passed
/// over. A token begins with `<`, or is the text up to the next `<`.
pub open spec fn token_at(s: Seq<char>, p: int) -> Option<(HtmlTokenView, int)> {
    let start = run_end(s, p, CharClass::Whitespace);
    if start < 0 || start >= s.len() {
        None
    } else if s[start] == '<' {
        Some(markup_at(s, start))
    } else {
        let end = run_end(s, start, CharClass::Except('<'));
        Some((HtmlTokenView::Text(s.subrange(start, end)), end))
    }
}

/// Every token holds at least one character of the text and ends within it.
pub proof fn lemma_token_advances(s: Seq<char>, p: int)
    requires
        0 <= p <= s.len(),
    ensures
        token_at(s, p) is Some ==> p < token_at(s, p).unwrap().1 <= s.len(),
        token_at(s, p) is None ==> run_end(s, p, CharClass::Whitespace) == s.len(),
{
    lemma_run_end(s, p, CharClass::Whitespace);
    let start = run_end(s, p, CharClass::Whitespace);
    if start < s.len() {
        if s[start] == '<' {
            if start + 4 <= s.len() {
                lemma_find_from(s, start + 4, comment_close());
            }
            if start + 2 <= s.len() {
                lemma_run_end(s, start + 2, CharClass::Except('>'));
                lemma_run_end(s, start + 2, CharClass::Name);
                let name_end = run_end(s, start + 2, CharClass::Name);
                lemma_run_end(s, name_end, CharClass::Except('>'));
            }
            let name_end = run_end(s, start + 1, CharClass::Name);
            lemma_attributes_end(s, name_end);
        } else {
            lemma_run_end(s, start, CharClass::Except('<'));
        }
    }
}

/// The tokens of `s` from index `p` on, in order.
pub open spec fn tokens_from(s: Seq<char>, p: int) -> Seq<HtmlTokenView>
    decreases s.len() - p,
{
    if p < 0 || p > s.len() {
        Seq::empty()
    } else {
        match token_at(s, p) {
            Some((token, next)) => {
                proof {
                    lemma_token_advances(s, p);
                }
                seq![token] + tokens_from(s, next)
            },
            None => Seq::empty(),
        }
    }
}

/// The spans of the tokens of `s` from index `p` on: for each token the
/// index at which reading it begins, which is the index of the whitespace
/// before it where there is some, and the index before which it ends.
pub open spec fn spans_from(s: Seq<char>, p: int) -> Seq<(int, int)>
    decreases s.len() - p,
{
    if p < 0 || p > s.len() {
        Seq::empty()
    } else {
        match token_at(s, p) {
            Some((token, next)) => {
                proof {
                    lemma_token_advances(s, p);
                }
                seq![(p, next)] + spans_from(s, next)
            },
            None => Seq::empty(),
        }
    }
}

/// The tokens tile the text. There is one span for each token, and the
/// token is what is read at the start of its span. No span is empty, each
/// begins where the one before it ends, the first begins at `p`, and
/// behind the last only whitespace is left: so the spans, one after the
/// other, hold the text from `p` on up to that whitespace, each character
/// once and in order.
pub proof fn lemma_tokens_tile_text(s: Seq<char>, p: int)
    requires
        0 <= p <= s.len(),
    ensures
        spans_from(s, p).len() == tokens_from(s, p).len(),
        forall|i: int|
            0 <= i < spans_from(s, p).len() ==> token_at(s, (#[trigger] spans_from(s, p)[i]).0)
                == Some((tokens_from(s, p)[i], spans_from(s, p)[i].1)),
        contiguous(spans_from(s, p)),
        spans_from(s, p).len() > 0 ==> spans_from(s, p).first().0 == p,
        p <= end_of(spans_from(s, p), p) <= s.len(),
        run_end(s, end_of(spans_from(s, p), p), CharClass::Whitespace) == s.len(),
        covered(s, spans_from(s, p)) == s.subrange(p, end_of(spans_from(s, p), p)),
    decreases s.len() - p,
{
    let spans = spans_from(s, p);
    lemma_token_advances(s, p);
    if token_at(s, p) is Some {
        let next = token_at(s, p).unwrap().1;
        let rest = spans_from(s, next);
        lemma_tokens_tile_text(s, next);
        assert(spans.drop_first() == rest);
    }
}

/// A text token is never empty.
pub proof fn lemma_text_is_not_empty(s: Seq<char>, p: int)
    requires
        0 <= p <= s.len(),
    ensures
        token_at(s, p) matches Some((HtmlTokenView::Text(text), _)) ==> text.len() > 0,
{
    lemma_run_end(s, p, CharClass::Whitespace);
    let start = run_end(s, p, CharClass::Whitespace);
    if start < s.len() {
        lemma_run_end(s, start, CharClass::Except('<'));
    }
}

/// Tokenizing is a function of the text alone: two runs over the same text
/// give the same tokens.
pub proof fn lemma_tokenize_twice(text: Seq<char>, first: Vec<HtmlToken>, second: Vec<HtmlToken>)
    requires
        first.deep_view() == tokens_from(text, 0),
        second.deep_view() == tokens_from(text, 0),
    ensures
        first.deep_view() == second.deep_view(),
        first@.len() == second@.len(),
        forall|i: int| 0 <= i < first@.len() ==> (#[trigger] first@[i])@ == second@[i]@,
{
    assert(second.deep_view().len() == second@.len());
    assert forall|i: int| 0 <= i < first@.len() implies (#[trigger] first@[i])@ == second@[i]@ by {
        assert(second.deep_view()[i] == second@[i]@);
    }
}

/// A forward-only reader of the tokens of a document.
pub struct HtmlTokenizer {
    cursor: Cursor,
}

impl HtmlTokenizer {
    /// The text that is read.
    pub closed spec fn text(&self) -> Seq<char> {
        self.cursor.text()
    }

    /// The number of characters that have been read.
    pub closed spec fn offset(&self) -> int {
        self.cursor.offset()
    }

    /// A tokenizer at the start of `input`.
    pub fn new(input: &str) -> (tokenizer: Self)
        ensures
            tokenizer.text() == input@,
            tokenizer.offset() == 0,
    {
        HtmlTokenizer { cursor: Cursor::new(input) }
    }

    /// The number of characters that have been read.
    pub fn position(&self) -> (p: usize)
        ensures
            p == self.offset(),
            p <= self.text().len(),
    {
        self.cursor.position()
    }

    /// Passes over the whitespace at the cursor.
    fn skip_whitespace(&mut self)
        ensures
            final(self).text() == old(self).text(),
            final(self).offset() == run_end(
                old(self).text(),
                old(self).offset(),
                CharClass::Whitespace,
            ),
            0 <= old(self).offset() <= final(self).offset() <= old(self).text().len(),
    {
        self.cursor.skip_while(CharClass::Whitespace);
    }

    /// Passes over the character `c` if it stands at the cursor.
    fn skip_if(&mut self, c: char)
        ensures
            final(self).text() == old(self).text(),
            final(self).offset() == skip_char(old(self).text(), old(self).offset(), c),
    {
        if self.cursor.current() == Some(c) {
            self.cursor.advance();
        }
    }

    /// Reads the name of a tag.
    fn parse_tag_name(&mut self) -> (name: String)
        ensures
            final(self).text() == old(self).text(),
            final(self).offset() == run_end(old(self).text(), old(self).offset(), CharClass::Name),
            name@ == old(self).text().subrange(old(self).offset(), final(self).offset()),
    {
        self.cursor.consume_while(CharClass::Name)
    }

    /// Reads the name of an attribute.
    fn parse_attribute_name(&mut self) -> (name: String)
        ensures
            final(self).text() == old(self).text(),
            final(self).offset() == run_end(
                old(self).text(),
                old(self).offset(),
                CharClass::AttributeName,
            ),
            name@ == old(self).text().subrange(old(self).offset(), final(self).offset()),
    {
        self.cursor.consume_while(CharClass::AttributeName)
    }

    /// Reads the value of an attribute, behind its `=`.
    fn parse_attribute_value(&mut self) -> (value: String)
        ensures
            final(self).text() == old(self).text(),
            value@ == attribute_value_at(old(self).text(), old(self).offset()).0,
            final(self).offset() == attribute_value_at(old(self).text(), old(self).offset()).1,
    {
        self.skip_whitespace();
        match self.cursor.current() {
            Some(quote) => {
                if quote == '"' || quote == '\'' {
                    self.cursor.advance();
                    let value = self.cursor.consume_while(CharClass::Except(quote));
                    self.skip_if(quote);
                    value
                } else {
                    self.cursor.consume_while(CharClass::Unquoted)
                }
            },
            None => self.cursor.consume_while(CharClass::Unquoted),
        }
    }

    /// Reads the attributes of a tag.
    fn parse_attributes(&mut self) -> (attributes: Vec<(String, String)>)
        ensures
            final(self).text() == old(self).text(),
            attributes.deep_view() == attributes_at(old(self).text(), old(self).offset()).0,
            final(self).offset() == attributes_at(old(self).text(), old(self).offset()).1,
    {
        let mut attributes: Vec<(String, String)> = Vec::new();
        let ghost s = self.cursor.text();
        let ghost first = self.cursor.offset();
        loop
            invariant_except_break
                attributes_at(s, first).0 == attributes.deep_view() + attributes_at(
                    s,
                    self.cursor.offset(),
                ).0,
                attributes_at(s, first).1 == attributes_at(s, self.cursor.offset()).1,
            invariant
                self.cursor.text() == s,
            ensures
                attributes.deep_view() == attributes_at(s, first).0,
                self.cursor.offset() == attributes_at(s, first).1,
                self.cursor.text() == s,
            decreases s.len() - self.cursor.offset(),
        {
            match self.cursor.current() {
                None => {
                    break ;
                },
                Some(ch) => {
                    if ch == '>' || ch == '/' {
                        break ;
                    }
                },
            }
            self.skip_whitespace();
            let ghost start = self.cursor.offset();
            match self.cursor.current() {
                None => {
                    break ;
                },
                Some(ch) => {
                    if ch == '>' || ch == '/' {
                        break ;
                    }
                },
            }
            let name = self.parse_attribute_name();
            proof {
                lemma_run_end(s, start, CharClass::AttributeName);
            }
            if name.as_str().is_empty() {
                break ;
            }
            self.skip_whitespace();
            let ghost after_name = self.cursor.offset();
            let value = if self.cursor.current() == Some('=') {
                self.cursor.advance();
                proof {
                    lemma_attribute_value_end(s, after_name + 1);
                }
                self.parse_attribute_value()
            } else {
                String::new()
            };
            attributes.push((name, value));
        }
        attributes
    }

    /// Reads a comment, behind its opening `<!--`.
    fn parse_comment(&mut self) -> (content: String)
        ensures
            final(self).text() == old(self).text(),
            content@ == old(self).text().subrange(
                old(self).offset(),
                find_from(old(self).text(), old(self).offset(), comment_close()),
            ),
            final(self).offset() == skip_past(
                old(self).text(),
                old(self).offset(),
                comment_close(),
            ),
    {
        let mut close: Vec<char> = Vec::new();
        close.push('-');
        close.push('-');
        close.push('>');
        assert(close@ == comment_close());
        self.cursor.consume_until(&close)
    }

    /// Reads what stands before the next `>`.
    fn parse_doctype(&mut self) -> (content: String)
        ensures
            final(self).text() == old(self).text(),
            final(self).offset() == run_end(
                old(self).text(),
                old(self).offset(),
                CharClass::Except('>'),
            ),
            content@ == old(self).text().subrange(old(self).offset(), final(self).offset()),
    {
        self.cursor.consume_while(CharClass::Except('>'))
    }

    /// Reads the next token. Returns `None` where only whitespace is left,
    /// and then stands at the end of the text; every token takes at least
    /// one character.
    pub fn next_token(&mut self) -> (token: Option<HtmlToken>)
        ensures
            final(self).text() == old(self).text(),
            match token_at(old(self).text(), old(self).offset()) {
                Some((view, next)) => token is Some && token.unwrap()@ == view
                    && final(self).offset() == next
                    && old(self).offset() < next <= old(self).text().len(),
                None => token is None && final(self).offset() == old(self).text().len(),
            },
    {
        let ghost s = self.cursor.text();
        let ghost p = self.cursor.offset();
        self.skip_whitespace();
        proof {
            lemma_token_advances(s, p);
        }
        let c = match self.cursor.current() {
            Some(c) => c,
            None => {
                return None;
            },
        };
        if c == '<' {
            self.cursor.advance();
            if self.cursor.current() == Some('!') {
                self.cursor.advance();
                if self.cursor.current() == Some('-') && self.cursor.peek() == Some('-') {
                    self.cursor.advance();
                    self.cursor.advance();
                    let comment = self.parse_comment();
                    Some(HtmlToken::Comment(comment))
                } else {
                    let doctype = self.parse_doctype();
                    self.skip_if('>');
                    Some(HtmlToken::Doctype(doctype))
                }
            } else if self.cursor.current() == Some('/') {
                self.cursor.advance();
                let name = self.parse_tag_name();
                self.cursor.skip_while(CharClass::Except('>'));
                self.skip_if('>');
                Some(HtmlToken::EndTag { name })
            } else {
                let name = self.parse_tag_name();
                let attributes = self.parse_attributes();
                let self_closing = self.cursor.current() == Some('/');
                self.skip_if('/');
                self.skip_if('>');
                Some(HtmlToken::StartTag { name, attributes, self_closing })
            }
        } else {
            let text = self.cursor.consume_while(CharClass::Except('<'));
            Some(HtmlToken::Text(text))
        }
    }

    /// Reads all the tokens that are left, in order.
    pub fn collect(self) -> (tokens: Vec<HtmlToken>)
        ensures
            tokens.deep_view() == tokens_from(self.text(), self.offset()),
    {
        let mut tokenizer = self;
        let mut tokens: Vec<HtmlToken> = Vec::new();
        let ghost text = tokenizer.text();
        let ghost start = tokenizer.offset();
        loop
            invariant_except_break
                tokens_from(text, start) == tokens.deep_view() + tokens_from(
                    text,
                    tokenizer.offset(),
                ),
            invariant
                tokenizer.text() == text,
            ensures
                tokens.deep_view() == tokens_from(text, start),
            decreases text.len() - tokenizer.offset(),
        {
            match tokenizer.next_token() {
                Some(token) => {
                    tokens.push(token);
                },
                None => {
                    break ;
                },
            }
        }
        tokens
    }
}

} // verus!
