//! The CSS parser: from tokens to rules.

use crate::css::numeral::{decimal_text, to_decimal_text};
use crate::css::tokenizer::{tokens_from, CssToken, CssTokenView, CssTokenizer};
use crate::text::{trim, trimmed};
use vstd::prelude::*;
use vstd::string::StringExecFns;

verus! {

/// One `property: value` pair of a rule.
#[derive(Debug, PartialEq)]
pub struct Declaration {
    pub property: String,
    pub value: String,
    pub important: bool,
}

/// What a rule applies to. The parser gives the first four forms only.
#[derive(Debug, PartialEq)]
pub enum Selector {
    Type(String),
    Class(String),
    Id(String),
    Universal,
    Descendant(Box<Selector>, Box<Selector>),
    Child(Box<Selector>, Box<Selector>),
    Adjacent(Box<Selector>, Box<Selector>),
    GeneralSibling(Box<Selector>, Box<Selector>),
}

/// A list of selectors and the declarations that hold for them.
#[derive(Debug, PartialEq)]
pub struct Rule {
    pub selectors: Vec<Selector>,
    pub declarations: Vec<Declaration>,
}

/// The mathematical value of a [`Declaration`].
pub struct DeclarationView {
    pub property: Seq<char>,
    pub value: Seq<char>,
    pub important: bool,
}

/// The mathematical value of a [`Selector`].
pub enum SelectorView {
    Type(Seq<char>),
    Class(Seq<char>),
    Id(Seq<char>),
    Universal,
    Descendant(Box<SelectorView>, Box<SelectorView>),
    Child(Box<SelectorView>, Box<SelectorView>),
    Adjacent(Box<SelectorView>, Box<SelectorView>),
    GeneralSibling(Box<SelectorView>, Box<SelectorView>),
}

/// The mathematical value of a [`Rule`].
pub struct RuleView {
    pub selectors: Seq<SelectorView>,
    pub declarations: Seq<DeclarationView>,
}

impl DeepView for Declaration {
    type V = DeclarationView;

    open spec fn deep_view(&self) -> DeclarationView {
        DeclarationView {
            property: self.property@,
            value: self.value@,
            important: self.important,
        }
    }
}

impl Clone for Declaration {
    fn clone(&self) -> (copy: Self)
        ensures
            copy@ == self@,
    {
        Declaration {
            property: self.property.clone(),
            value: self.value.clone(),
            important: self.important,
        }
    }
}

impl View for Declaration {
    type V = DeclarationView;

    open spec fn view(&self) -> DeclarationView {
        self.deep_view()
    }
}

/// The mathematical value of a selector.
pub open spec fn selector_view(selector: Selector) -> SelectorView
    decreases selector,
{
    match selector {
        Selector::Type(name) => SelectorView::Type(name@),
        Selector::Class(name) => SelectorView::Class(name@),
        Selector::Id(name) => SelectorView::Id(name@),
        Selector::Universal => SelectorView::Universal,
        Selector::Descendant(a, b) => SelectorView::Descendant(
            Box::new(selector_view(*a)),
            Box::new(selector_view(*b)),
        ),
        Selector::Child(a, b) => SelectorView::Child(
            Box::new(selector_view(*a)),
            Box::new(selector_view(*b)),
        ),
        Selector::Adjacent(a, b) => SelectorView::Adjacent(
            Box::new(selector_view(*a)),
            Box::new(selector_view(*b)),
        ),
        Selector::GeneralSibling(a, b) => SelectorView::GeneralSibling(
            Box::new(selector_view(*a)),
            Box::new(selector_view(*b)),
        ),
    }
}

impl DeepView for Selector {
    type V = SelectorView;

    open spec fn deep_view(&self) -> SelectorView {
        selector_view(*self)
    }
}

impl Clone for Selector {
    fn clone(&self) -> (copy: Self)
        ensures
            copy@ == self@,
        decreases self,
    {
        match self {
            Selector::Type(name) => Selector::Type(name.clone()),
            Selector::Class(name) => Selector::Class(name.clone()),
            Selector::Id(name) => Selector::Id(name.clone()),
            Selector::Universal => Selector::Universal,
            Selector::Descendant(a, b) => Selector::Descendant(
                Box::new((**a).clone()),
                Box::new((**b).clone()),
            ),
            Selector::Child(a, b) => Selector::Child(
                Box::new((**a).clone()),
                Box::new((**b).clone()),
            ),
            Selector::Adjacent(a, b) => Selector::Adjacent(
                Box::new((**a).clone()),
                Box::new((**b).clone()),
            ),
            Selector::GeneralSibling(a, b) => Selector::GeneralSibling(
                Box::new((**a).clone()),
                Box::new((**b).clone()),
            ),
        }
    }
}

impl View for Selector {
    type V = SelectorView;

    open spec fn view(&self) -> SelectorView {
        self.deep_view()
    }
}

impl DeepView for Rule {
    type V = RuleView;

    open spec fn deep_view(&self) -> RuleView {
        RuleView {
            selectors: self.selectors.deep_view(),
            declarations: self.declarations.deep_view(),
        }
    }
}

impl Clone for Rule {
    fn clone(&self) -> (copy: Self)
        ensures
            copy@ == self@,
    {
        let mut selectors: Vec<Selector> = Vec::new();
        let mut i: usize = 0;
        while i < self.selectors.len()
            invariant
                i <= self.selectors@.len(),
                selectors.deep_view() == self.selectors.deep_view().subrange(0, i as int),
            decreases self.selectors@.len() - i,
        {
            let ghost views = self.selectors.deep_view();
            let selector = self.selectors[i].clone();
            selectors.push(selector);
            proof {
                assert(views.subrange(0, i + 1) == views.subrange(0, i as int).push(
                    views[i as int],
                ));
            }
            i = i + 1;
        }
        let mut declarations: Vec<Declaration> = Vec::new();
        let mut j: usize = 0;
        while j < self.declarations.len()
            invariant
                j <= self.declarations@.len(),
                declarations.deep_view() == self.declarations.deep_view().subrange(0, j as int),
            decreases self.declarations@.len() - j,
        {
            let ghost views = self.declarations.deep_view();
            let declaration = self.declarations[j].clone();
            declarations.push(declaration);
            proof {
                assert(views.subrange(0, j + 1) == views.subrange(0, j as int).push(
                    views[j as int],
                ));
            }
            j = j + 1;
        }
        proof {
            assert(self.selectors.deep_view().subrange(0, i as int) == self.selectors.deep_view());
            assert(self.declarations.deep_view().subrange(0, j as int)
                == self.declarations.deep_view());
        }
        Rule { selectors, declarations }
    }
}

impl View for Rule {
    type V = RuleView;

    open spec fn view(&self) -> RuleView {
        self.deep_view()
    }
}

/// The token at index `p`, if there is one.
pub open spec fn token(t: Seq<CssTokenView>, p: int) -> Option<CssTokenView> {
    if 0 <= p < t.len() {
        Some(t[p])
    } else {
        None
    }
}

/// The simple selector that begins at index `p`, if one does, and the index
/// at which reading goes on. A `.` that no identifier follows is passed over
/// and gives no selector.
pub open spec fn selector_at(t: Seq<CssTokenView>, p: int) -> (Option<SelectorView>, int) {
    match token(t, p) {
        Some(CssTokenView::Ident(name)) => (Some(SelectorView::Type(name)), p + 1),
        Some(CssTokenView::Hash(id)) => (Some(SelectorView::Id(id)), p + 1),
        Some(CssTokenView::Delim(c)) => if c == '.' {
            match token(t, p + 1) {
                Some(CssTokenView::Ident(class)) => (Some(SelectorView::Class(class)), p + 2),
                _ => (None, p + 1),
            }
        } else if c == '*' {
            (Some(SelectorView::Universal), p + 1)
        } else {
            (None, p)
        },
        _ => (None, p),
    }
}

/// The selectors that begin at index `p`, separated by commas, and the index
/// at which reading goes on.
pub open spec fn selector_list_at(t: Seq<CssTokenView>, p: int) -> (Seq<SelectorView>, int)
    decreases t.len() - p,
{
    match selector_at(t, p) {
        (Some(selector), next) => if token(t, next) == Some(CssTokenView::Comma) {
            let rest = selector_list_at(t, next + 1);
            (seq![selector] + rest.0, rest.1)
        } else {
            (seq![selector], next)
        },
        (None, next) => (Seq::empty(), next),
    }
}

/// The text that a token adds to the value of a declaration; `None` for a
/// token that adds nothing.
pub open spec fn rendered(token: CssTokenView) -> Option<Seq<char>> {
    match token {
        CssTokenView::Ident(s) => Some(s),
        CssTokenView::String(s) => Some(seq!['"'] + s + seq!['"']),
        CssTokenView::Number(n) => Some(decimal_text(n)),
        CssTokenView::Dimension { value, unit } => Some(decimal_text(value) + unit),
        CssTokenView::Percentage(n) => Some(decimal_text(n) + seq!['%']),
        CssTokenView::Hash(h) => Some(seq!['#'] + h),
        CssTokenView::Delim(c) => Some(seq![c]),
        _ => None,
    }
}

/// What the tokens of a value hold: the texts of its parts, whether
/// `!important` stands among them, and the index at which the value ends.
pub struct ValueScan {
    pub parts: Seq<Seq<char>>,
    pub important: bool,
    pub end: int,
}

/// Whether the token ends a value.
pub open spec fn ends_value(token: CssTokenView) -> bool {
    token is Semicolon || token is RightBrace
}

/// Whether `!important` stands at index `p`.
pub open spec fn important_at(t: Seq<CssTokenView>, p: int) -> bool {
    token(t, p) == Some(CssTokenView::Delim('!')) && token(t, p + 1) == Some(
        CssTokenView::Ident("important"@),
    )
}

/// The value that begins at index `p`. It ends before the first `;` or `}`,
/// or with the tokens. `!important` sets the mark and adds no text; a `!`
/// alone is passed over.
pub open spec fn value_at(t: Seq<CssTokenView>, p: int) -> ValueScan
    decreases t.len() - p,
{
    match token(t, p) {
        None => ValueScan { parts: Seq::empty(), important: false, end: p },
        Some(tok) => if ends_value(tok) {
            ValueScan { parts: Seq::empty(), important: false, end: p }
        } else if important_at(t, p) {
            let rest = value_at(t, p + 2);
            ValueScan { parts: rest.parts, important: true, end: rest.end }
        } else if tok == CssTokenView::Delim('!') {
            value_at(t, p + 1)
        } else {
            let rest = value_at(t, p + 1);
            match rendered(tok) {
                Some(text) => ValueScan {
                    parts: seq![text] + rest.parts,
                    important: rest.important,
                    end: rest.end,
                },
                None => rest,
            }
        },
    }
}

/// The parts with one space between each two of them.
pub open spec fn joined(parts: Seq<Seq<char>>) -> Seq<char>
    decreases parts.len(),
{
    if parts.len() == 0 {
        Seq::empty()
    } else if parts.len() == 1 {
        parts[0]
    } else {
        joined(parts.drop_last()) + seq![' '] + parts.last()
    }
}

/// The text of a value: a single part as it is, several parts joined by
/// spaces and trimmed.
pub open spec fn value_text(parts: Seq<Seq<char>>) -> Seq<char> {
    if parts.len() == 1 {
        parts[0]
    } else {
        trimmed(joined(parts))
    }
}

/// The declaration that begins at index `p`, if one does, and the index at
/// which reading goes on. A declaration is an identifier, a colon and a
/// value; the `;` behind it belongs to it. An identifier that no colon
/// follows is passed over and gives no declaration.
pub open spec fn declaration_at(t: Seq<CssTokenView>, p: int) -> (Option<DeclarationView>, int) {
    match token(t, p) {
        Some(CssTokenView::Ident(property)) => if token(t, p + 1) == Some(CssTokenView::Colon) {
            let value = value_at(t, p + 2);
            (
                Some(
                    DeclarationView {
                        property,
                        value: value_text(value.parts),
                        important: value.important,
                    },
                ),
                if token(t, value.end) == Some(CssTokenView::Semicolon) {
                    value.end + 1
                } else {
                    value.end
                },
            )
        } else {
            (None, p + 1)
        },
        _ => (None, p),
    }
}

/// A value ends at or behind its start and within the tokens.
pub proof fn lemma_value_end(t: Seq<CssTokenView>, p: int)
    requires
        0 <= p <= t.len(),
    ensures
        p <= value_at(t, p).end <= t.len(),
    decreases t.len() - p,
{
    if p < t.len() && !ends_value(t[p]) {
        if important_at(t, p) {
            lemma_value_end(t, p + 2);
        } else {
            lemma_value_end(t, p + 1);
        }
    }
}

/// The index behind `p`, or `p` itself at the end of the tokens.
pub open spec fn step(t: Seq<CssTokenView>, p: int) -> int {
    if p < t.len() {
        p + 1
    } else {
        p
    }
}

/// The declarations from index `p` on, up to the first `}` that does not stand
/// inside one of them or to the end of the tokens, and the index at which
/// they end. Where no declaration begins, one token more is passed over.
pub open spec fn declarations_from(t: Seq<CssTokenView>, p: int) -> (Seq<DeclarationView>, int)
    decreases t.len() - p,
{
    if p < 0 || p >= t.len() || t[p] is RightBrace {
        (Seq::empty(), p)
    } else {
        proof {
            if p + 2 <= t.len() {
                lemma_value_end(t, p + 2);
            }
        }
        match declaration_at(t, p) {
            (Some(declaration), next) => {
                let rest = declarations_from(t, next);
                (seq![declaration] + rest.0, rest.1)
            },
            (None, next) => declarations_from(t, step(t, next)),
        }
    }
}

/// A list of selectors ends at or behind its start and within the tokens,
/// and behind its start if it holds a selector.
pub proof fn lemma_selector_list_end(t: Seq<CssTokenView>, p: int)
    requires
        0 <= p <= t.len(),
    ensures
        p <= selector_list_at(t, p).1 <= t.len(),
        selector_list_at(t, p).0.len() > 0 ==> p < selector_list_at(t, p).1,
    decreases t.len() - p,
{
    match selector_at(t, p) {
        (Some(selector), next) => {
            if token(t, next) == Some(CssTokenView::Comma) {
                lemma_selector_list_end(t, next + 1);
            }
        },
        (None, next) => {},
    }
}

/// The declarations end at or behind their start and within the tokens.
pub proof fn lemma_declarations_end(t: Seq<CssTokenView>, p: int)
    requires
        0 <= p <= t.len(),
    ensures
        p <= declarations_from(t, p).1 <= t.len(),
    decreases t.len() - p,
{
    if p < t.len() && !(t[p] is RightBrace) {
        if p + 2 <= t.len() {
            lemma_value_end(t, p + 2);
        }
        match declaration_at(t, p) {
            (Some(declaration), next) => {
                lemma_declarations_end(t, next);
            },
            (None, next) => {
                lemma_declarations_end(t, step(t, next));
            },
        }
    }
}

/// The rule that begins at index `p`, if one does, and the index at which
/// reading goes on. A rule is a list of selectors that is not empty, `{`,
/// declarations, and `}` unless the tokens end before it.
pub open spec fn rule_at(t: Seq<CssTokenView>, p: int) -> (Option<RuleView>, int) {
    let selectors = selector_list_at(t, p);
    if selectors.0.len() == 0 || token(t, selectors.1) != Some(CssTokenView::LeftBrace) {
        (None, selectors.1)
    } else {
        let declarations = declarations_from(t, selectors.1 + 1);
        (
            Some(RuleView { selectors: selectors.0, declarations: declarations.0 }),
            if token(t, declarations.1) == Some(CssTokenView::RightBrace) {
                declarations.1 + 1
            } else {
                declarations.1
            },
        )
    }
}

/// A rule, or the attempt at one, ends at or behind its start and within the
/// tokens; a rule ends behind its start and has a selector.
pub proof fn lemma_rule_end(t: Seq<CssTokenView>, p: int)
    requires
        0 <= p <= t.len(),
    ensures
        p <= rule_at(t, p).1 <= t.len(),
        rule_at(t, p).0 is Some ==> p < rule_at(t, p).1,
        rule_at(t, p).0 is Some ==> rule_at(t, p).0.unwrap().selectors.len() > 0,
{
    lemma_selector_list_end(t, p);
    let selectors = selector_list_at(t, p);
    if selectors.0.len() > 0 && token(t, selectors.1) == Some(CssTokenView::LeftBrace) {
        lemma_declarations_end(t, selectors.1 + 1);
    }
}

/// The rules from index `p` on, in order. Where no rule begins, one token
/// more is passed over.
pub open spec fn rules_from(t: Seq<CssTokenView>, p: int) -> Seq<RuleView>
    decreases t.len() - p,
{
    if p < 0 || p >= t.len() {
        Seq::empty()
    } else {
        proof {
            lemma_rule_end(t, p);
        }
        match rule_at(t, p) {
            (Some(rule), next) => seq![rule] + rules_from(t, next),
            (None, next) => rules_from(t, step(t, next)),
        }
    }
}

/// Every rule has at least one selector.
pub proof fn lemma_rules_have_selectors(t: Seq<CssTokenView>, p: int)
    requires
        0 <= p <= t.len(),
    ensures
        forall|i: int|
            0 <= i < rules_from(t, p).len() ==> (#[trigger] rules_from(t, p)[i]).selectors.len()
                > 0,
    decreases t.len() - p,
{
    if p < t.len() {
        lemma_rule_end(t, p);
        match rule_at(t, p) {
            (Some(rule), next) => {
                lemma_rules_have_selectors(t, next);
                assert(rules_from(t, p) == seq![rule] + rules_from(t, next));
            },
            (None, next) => {
                lemma_rules_have_selectors(t, step(t, next));
                assert(rules_from(t, p) == rules_from(t, step(t, next)));
            },
        }
    }
}

/// Whether the selector has one of the four simple forms.
pub open spec fn is_simple(selector: SelectorView) -> bool {
    selector is Type || selector is Class || selector is Id || selector is Universal
}

/// Every selector of a list that is read is simple.
pub proof fn lemma_selector_list_is_simple(t: Seq<CssTokenView>, p: int)
    ensures
        forall|i: int|
            0 <= i < selector_list_at(t, p).0.len() ==> is_simple(
                #[trigger] selector_list_at(t, p).0[i],
            ),
    decreases t.len() - p,
{
    match selector_at(t, p) {
        (Some(selector), next) => {
            if token(t, next) == Some(CssTokenView::Comma) {
                lemma_selector_list_is_simple(t, next + 1);
                assert(selector_list_at(t, p).0 == seq![selector] + selector_list_at(
                    t,
                    next + 1,
                ).0);
            }
        },
        (None, next) => {},
    }
}

/// The parser gives simple selectors only: a type, a class, an id or the
/// universal selector, and never a combination of two selectors.
pub proof fn lemma_selectors_are_simple(t: Seq<CssTokenView>, p: int)
    requires
        0 <= p <= t.len(),
    ensures
        forall|i: int, j: int|
            0 <= i < rules_from(t, p).len() && 0 <= j < rules_from(t, p)[i].selectors.len()
                ==> is_simple(#[trigger] rules_from(t, p)[i].selectors[j]),
    decreases t.len() - p,
{
    let rules = rules_from(t, p);
    if p < t.len() {
        lemma_rule_end(t, p);
        lemma_selector_list_is_simple(t, p);
        match rule_at(t, p) {
            (Some(rule), next) => {
                lemma_selectors_are_simple(t, next);
                let rest = rules_from(t, next);
                assert forall|i: int, j: int|
                    0 <= i < rules.len() && 0 <= j < rules[i].selectors.len() implies is_simple(
                    #[trigger] rules[i].selectors[j],
                ) by {
                    if i > 0 {
                        assert(is_simple(rest[i - 1].selectors[j]));
                    }
                }
            },
            (None, next) => {
                lemma_selectors_are_simple(t, step(t, next));
                assert(rules == rules_from(t, step(t, next)));
            },
        }
    }
}

/// Whether the token counts for the parser: every token but whitespace does.
pub open spec fn is_significant(token: CssTokenView) -> bool {
    !(token is Whitespace)
}

/// The tokens without the whitespace among them.
pub open spec fn significant(tokens: Seq<CssTokenView>) -> Seq<CssTokenView> {
    tokens.filter(|token: CssTokenView| is_significant(token))
}

/// The rules that the text of a stylesheet holds.
pub open spec fn stylesheet(text: Seq<char>) -> Seq<RuleView> {
    rules_from(significant(tokens_from(text, 0)), 0)
}

/// A reader of rules from the tokens of a stylesheet.
pub struct CssParser {
    tokens: Vec<CssToken>,
    position: usize,
}

impl CssParser {
    #[verifier::type_invariant]
    spec fn in_bounds(&self) -> bool {
        self.position <= self.tokens@.len()
    }

    /// The tokens that are read: those of the stylesheet but the whitespace.
    pub closed spec fn tokens(&self) -> Seq<CssTokenView> {
        self.tokens.deep_view()
    }

    /// The number of tokens that have been read.
    pub closed spec fn offset(&self) -> int {
        self.position as int
    }

    /// A parser at the first token of `input` that is not whitespace.
    pub fn new(input: &str) -> (parser: Self)
        ensures
            parser.tokens() == significant(tokens_from(input@, 0)),
            parser.offset() == 0,
    {
        let tokenizer = CssTokenizer::new(input);
        Self::from_tokens(tokenizer.collect())
    }

    /// A parser at the first of the given tokens that is not whitespace.
    pub fn from_tokens(tokens: Vec<CssToken>) -> (parser: Self)
        ensures
            parser.tokens() == significant(tokens.deep_view()),
            parser.offset() == 0,
    {
        let ghost all = tokens.deep_view();
        let ghost given = tokens@;
        let mut kept: Vec<CssToken> = Vec::new();
        for token in it: tokens
            invariant
                it.seq() == given,
                all.len() == given.len(),
                forall|j: int| 0 <= j < given.len() ==> all[j] == (#[trigger] given[j])@,
                kept.deep_view() == significant(all.subrange(0, it.index() as int)),
        {
            let ghost i = it.index() as int;
            let ghost view = token@;
            proof {
                assert(all.subrange(0, i + 1) == all.subrange(0, i).push(view));
                lemma_significant_last(all.subrange(0, i), view);
            }
            match token {
                CssToken::Whitespace => {},
                token => {
                    kept.push(token);
                },
            }
        }
        proof {
            assert(all.subrange(0, all.len() as int) == all);
        }
        CssParser { tokens: kept, position: 0 }
    }

    /// The token at the cursor, if there is one.
    fn current_token(&self) -> (current: Option<&CssToken>)
        ensures
            current.deep_view() == token(self.tokens(), self.offset()),
            0 <= self.offset() <= self.tokens().len(),
    {
        proof {
            use_type_invariant(self);
        }
        if self.position < self.tokens.len() {
            Some(&self.tokens[self.position])
        } else {
            None
        }
    }

    /// Moves to the next token; at the end nothing changes.
    fn advance(&mut self)
        ensures
            final(self).tokens() == old(self).tokens(),
            final(self).offset() == step(old(self).tokens(), old(self).offset()),
    {
        if self.position < self.tokens.len() {
            self.position = self.position + 1;
        }
    }

    /// Reads one simple selector.
    fn parse_selector(&mut self) -> (selector: Option<Selector>)
        ensures
            final(self).tokens() == old(self).tokens(),
            selector.deep_view() == selector_at(old(self).tokens(), old(self).offset()).0,
            final(self).offset() == selector_at(old(self).tokens(), old(self).offset()).1,
    {
        let mut dot = false;
        let simple: Option<Selector> = match self.current_token() {
            Some(CssToken::Ident(name)) => Some(Selector::Type(name.clone())),
            Some(CssToken::Hash(id)) => Some(Selector::Id(id.clone())),
            Some(CssToken::Delim(c)) => {
                if *c == '.' {
                    dot = true;
                    None
                } else if *c == '*' {
                    Some(Selector::Universal)
                } else {
                    None
                }
            },
            _ => None,
        };
        if dot {
            self.advance();
            let class: Option<Selector> = match self.current_token() {
                Some(CssToken::Ident(name)) => Some(Selector::Class(name.clone())),
                _ => None,
            };
            if class.is_some() {
                self.advance();
            }
            class
        } else {
            if simple.is_some() {
                self.advance();
            }
            simple
        }
    }

    /// Reads selectors that commas separate.
    fn parse_selector_list(&mut self) -> (selectors: Vec<Selector>)
        ensures
            final(self).tokens() == old(self).tokens(),
            selectors.deep_view() == selector_list_at(old(self).tokens(), old(self).offset()).0,
            final(self).offset() == selector_list_at(old(self).tokens(), old(self).offset()).1,
    {
        let mut selectors: Vec<Selector> = Vec::new();
        let ghost t = self.tokens();
        let ghost start = self.offset();
        proof {
            use_type_invariant(&*self);
        }
        loop
            invariant_except_break
                selector_list_at(t, start).0 == selectors.deep_view() + selector_list_at(
                    t,
                    self.offset(),
                ).0,
                selector_list_at(t, start).1 == selector_list_at(t, self.offset()).1,
            invariant
                self.tokens() == t,
                0 <= self.offset() <= t.len(),
            ensures
                selectors.deep_view() == selector_list_at(t, start).0,
                self.offset() == selector_list_at(t, start).1,
                self.tokens() == t,
            decreases t.len() - self.offset(),
        {
            match self.parse_selector() {
                Some(selector) => {
                    selectors.push(selector);
                    let comma = match self.current_token() {
                        Some(CssToken::Comma) => true,
                        _ => false,
                    };
                    if comma {
                        self.advance();
                    } else {
                        break ;
                    }
                },
                None => {
                    break ;
                },
            }
        }
        selectors
    }

    /// Reads one declaration.
    fn parse_declaration(&mut self) -> (declaration: Option<Declaration>)
        ensures
            final(self).tokens() == old(self).tokens(),
            declaration.deep_view() == declaration_at(old(self).tokens(), old(self).offset()).0,
            final(self).offset() == declaration_at(old(self).tokens(), old(self).offset()).1,
    {
        let ghost t = self.tokens();
        let property: String = match self.current_token() {
            Some(CssToken::Ident(property)) => property.clone(),
            _ => {
                return None;
            },
        };
        self.advance();
        let colon = match self.current_token() {
            Some(CssToken::Colon) => true,
            _ => false,
        };
        if !colon {
            return None;
        }
        self.advance();
        let ghost start = self.offset();
        let mut value_parts: Vec<String> = Vec::new();
        let mut important = false;
        loop
            invariant_except_break
                value_at(t, start).parts == value_parts.deep_view() + value_at(
                    t,
                    self.offset(),
                ).parts,
                value_at(t, start).important == (important || value_at(
                    t,
                    self.offset(),
                ).important),
                value_at(t, start).end == value_at(t, self.offset()).end,
            invariant
                self.tokens() == t,
                0 <= self.offset() <= t.len(),
            ensures
                value_parts.deep_view() == value_at(t, start).parts,
                important == value_at(t, start).important,
                self.offset() == value_at(t, start).end,
                self.tokens() == t,
            decreases t.len() - self.offset(),
        {
            let mut bang = false;
            let part: Option<String> = match self.current_token() {
                None => {
                    break ;
                },
                Some(token) => {
                    match token {
                        CssToken::Semicolon | CssToken::RightBrace => {
                            break ;
                        },
                        CssToken::Delim(c) => {
                            if *c == '!' {
                                bang = true;
                                None
                            } else {
                                render(token)
                            }
                        },
                        _ => render(token),
                    }
                },
            };
            self.advance();
            if bang {
                let marked = match self.current_token() {
                    Some(token) => is_important_word(token),
                    None => false,
                };
                if marked {
                    important = true;
                    self.advance();
                }
            } else {
                match part {
                    Some(text) => {
                        value_parts.push(text);
                    },
                    None => {},
                }
            }
        }
        let value = if value_parts.len() == 1 {
            value_parts[0].clone()
        } else {
            let all = join(&value_parts);
            trim(all.as_str())
        };
        let semicolon = match self.current_token() {
            Some(CssToken::Semicolon) => true,
            _ => false,
        };
        if semicolon {
            self.advance();
        }
        Some(Declaration { property, value, important })
    }

    /// Reads the declarations of a rule, up to its `}` or to the end.
    fn parse_declarations(&mut self) -> (declarations: Vec<Declaration>)
        ensures
            final(self).tokens() == old(self).tokens(),
            declarations.deep_view() == declarations_from(
                old(self).tokens(),
                old(self).offset(),
            ).0,
            final(self).offset() == declarations_from(old(self).tokens(), old(self).offset()).1,
    {
        let mut declarations: Vec<Declaration> = Vec::new();
        let ghost t = self.tokens();
        let ghost start = self.offset();
        proof {
            use_type_invariant(&*self);
        }
        loop
            invariant_except_break
                declarations_from(t, start).0 == declarations.deep_view() + declarations_from(
                    t,
                    self.offset(),
                ).0,
                declarations_from(t, start).1 == declarations_from(t, self.offset()).1,
            invariant
                self.tokens() == t,
                0 <= self.offset() <= t.len(),
            ensures
                declarations.deep_view() == declarations_from(t, start).0,
                self.offset() == declarations_from(t, start).1,
                self.tokens() == t,
            decreases t.len() - self.offset(),
        {
            let ghost at = self.offset();
            let open = match self.current_token() {
                Some(CssToken::RightBrace) => false,
                Some(_) => true,
                None => false,
            };
            if !open {
                break ;
            }
            proof {
                if at + 2 <= t.len() {
                    lemma_value_end(t, at + 2);
                }
            }
            match self.parse_declaration() {
                Some(declaration) => {
                    declarations.push(declaration);
                },
                None => {
                    self.advance();
                },
            }
        }
        declarations
    }

    /// Reads one rule.
    fn parse_rule(&mut self) -> (rule: Option<Rule>)
        ensures
            final(self).tokens() == old(self).tokens(),
            rule.deep_view() == rule_at(old(self).tokens(), old(self).offset()).0,
            final(self).offset() == rule_at(old(self).tokens(), old(self).offset()).1,
    {
        let selectors = self.parse_selector_list();
        if selectors.len() == 0 {
            return None;
        }
        let brace = match self.current_token() {
            Some(CssToken::LeftBrace) => true,
            _ => false,
        };
        if !brace {
            return None;
        }
        self.advance();
        let declarations = self.parse_declarations();
        let closed = match self.current_token() {
            Some(CssToken::RightBrace) => true,
            _ => false,
        };
        if closed {
            self.advance();
        }
        Some(Rule { selectors, declarations })
    }

    /// Reads all the rules that are left, in order, and leaves the parser at
    /// the end of its tokens. Every rule has at least one selector.
    pub fn parse(&mut self) -> (rules: Vec<Rule>)
        ensures
            final(self).tokens() == old(self).tokens(),
            final(self).offset() == old(self).tokens().len(),
            rules.deep_view() == rules_from(old(self).tokens(), old(self).offset()),
            forall|i: int| 0 <= i < rules@.len() ==> (#[trigger] rules@[i]).selectors@.len() > 0,
    {
        let mut rules: Vec<Rule> = Vec::new();
        let ghost t = self.tokens();
        let ghost start = self.offset();
        proof {
            use_type_invariant(&*self);
        }
        while self.position < self.tokens.len()
            invariant
                self.tokens() == t,
                0 <= self.offset() <= t.len(),
                self.offset() == self.position,
                t.len() == self.tokens@.len(),
                rules_from(t, start) == rules.deep_view() + rules_from(t, self.offset()),
            decreases t.len() - self.offset(),
        {
            let ghost at = self.offset();
            proof {
                lemma_rule_end(t, at);
            }
            match self.parse_rule() {
                Some(rule) => {
                    rules.push(rule);
                },
                None => {
                    self.advance();
                },
            }
            proof {
                use_type_invariant(&*self);
            }
        }
        proof {
            lemma_rules_have_selectors(t, start);
            assert forall|i: int| 0 <= i < rules@.len() implies (#[trigger] rules@[i]).selectors@.len()
                > 0 by {
                assert(rules_from(t, start)[i].selectors.len() > 0);
            }
        }
        rules
    }
}

/// Taking the whitespace away from a sequence leaves its last token, unless
/// that is whitespace, behind what is left of the others.
pub proof fn lemma_significant_last(tokens: Seq<CssTokenView>, last: CssTokenView)
    ensures
        significant(tokens.push(last)) == if is_significant(last) {
            significant(tokens).push(last)
        } else {
            significant(tokens)
        },
{
    reveal(Seq::filter);
    assert(tokens.push(last).drop_last() == tokens);
}

/// Renders a token as the text that it adds to a value.
fn render(token: &CssToken) -> (text: Option<String>)
    ensures
        text.deep_view() == rendered(token@),
{
    match token {
        CssToken::Ident(s) => Some(s.clone()),
        CssToken::String(s) => {
            let mut text = String::new();
            text.push('"');
            text.append(s.as_str());
            text.push('"');
            Some(text)
        },
        CssToken::Number(n) => Some(to_decimal_text(n.as_str())),
        CssToken::Dimension { value, unit } => {
            let mut text = to_decimal_text(value.as_str());
            text.append(unit.as_str());
            Some(text)
        },
        CssToken::Percentage(n) => {
            let mut text = to_decimal_text(n.as_str());
            text.push('%');
            Some(text)
        },
        CssToken::Hash(h) => {
            let mut text = String::new();
            text.push('#');
            text.append(h.as_str());
            Some(text)
        },
        CssToken::Delim(c) => {
            let mut text = String::new();
            text.push(*c);
            Some(text)
        },
        _ => None,
    }
}

/// Whether the token is the identifier `important`.
fn is_important_word(token: &CssToken) -> (r: bool)
    ensures
        r == (token@ == CssTokenView::Ident("important"@)),
{
    match token {
        CssToken::Ident(word) => {
            let keyword = String::from_str("important");
            *word == keyword
        },
        _ => false,
    }
}

/// Joins the parts with one space between each two of them.
fn join(parts: &Vec<String>) -> (text: String)
    ensures
        text@ == joined(parts.deep_view()),
{
    let mut text = String::new();
    let mut i: usize = 0;
    while i < parts.len()
        invariant
            i <= parts@.len(),
            text@ == joined(parts.deep_view().subrange(0, i as int)),
        decreases parts@.len() - i,
    {
        if i > 0 {
            text.push(' ');
        }
        text.append(parts[i].as_str());
        proof {
            let views = parts.deep_view();
            let next = views.subrange(0, i + 1);
            assert(next.drop_last() == views.subrange(0, i as int));
        }
        i = i + 1;
    }
    proof {
        assert(parts.deep_view().subrange(0, i as int) == parts.deep_view());
    }
    text
}

/// Parses the text of a stylesheet into its rules.
pub fn parse_css(input: &str) -> (rules: Vec<Rule>)
    ensures
        rules.deep_view() == stylesheet(input@),
{
    let mut parser = CssParser::new(input);
    parser.parse()
}

/// Reads all the tokens of a stylesheet, whitespace among them.
pub fn tokenize_css(input: &str) -> (tokens: Vec<CssToken>)
    ensures
        tokens.deep_view() == tokens_from(input@, 0),
{
    CssTokenizer::new(input).collect()
}

} // verus!
