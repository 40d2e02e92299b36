//! The HTML parser: from tokens to a tree of nodes.

use crate::html::attributes::{has_name, Attributes};
use crate::html::tokenizer::{tokens_from, HtmlToken, HtmlTokenView, HtmlTokenizer};
use crate::text::{lemma_trimmed_twice, lowercase, trim, trimmed};
use vstd::prelude::*;
use vstd::string::StringExecFns;

verus! {

/// A tag with its attributes and what stands inside it.
#[derive(Debug, PartialEq)]
pub struct Element {
    pub tag_name: String,
    pub attributes: Attributes,
    pub children: Vec<Node>,
}

/// A node of the tree: an element, text that is trimmed and not empty, or a
/// comment.
#[derive(Debug, PartialEq)]
pub enum Node {
    Element(Element),
    Text(String),
    Comment(String),
}

/// The mathematical value of an [`Element`].
pub struct ElementView {
    pub tag_name: Seq<char>,
    pub attributes: Map<Seq<char>, Seq<char>>,
    pub children: Seq<NodeView>,
}

/// The mathematical value of a [`Node`].
pub enum NodeView {
    Element(ElementView),
    Text(Seq<char>),
    Comment(Seq<char>),
}

/// The mathematical value of an element.
pub open spec fn element_view(element: Element) -> ElementView
    decreases element,
{
    ElementView {
        tag_name: element.tag_name@,
        attributes: element.attributes@,
        children: Seq::new(
            element.children@.len(),
            |i: int|
                if 0 <= i < element.children@.len() {
                    node_view(element.children@[i])
                } else {
                    NodeView::Text(Seq::empty())
                },
        ),
    }
}

/// The mathematical value of a node.
pub open spec fn node_view(node: Node) -> NodeView
    decreases node,
{
    match node {
        Node::Element(element) => NodeView::Element(element_view(element)),
        Node::Text(text) => NodeView::Text(text@),
        Node::Comment(comment) => NodeView::Comment(comment@),
    }
}

impl DeepView for Node {
    type V = NodeView;

    open spec fn deep_view(&self) -> NodeView {
        node_view(*self)
    }
}

impl View for Node {
    type V = NodeView;

    open spec fn view(&self) -> NodeView {
        node_view(*self)
    }
}

impl DeepView for Element {
    type V = ElementView;

    open spec fn deep_view(&self) -> ElementView {
        element_view(*self)
    }
}

impl View for Element {
    type V = ElementView;

    open spec fn view(&self) -> ElementView {
        element_view(*self)
    }
}

impl Clone for Element {
    fn clone(&self) -> (copy: Self)
        ensures
            copy@ == self@,
    {
        clone_element(self)
    }
}

impl Clone for Node {
    fn clone(&self) -> (copy: Self)
        ensures
            copy@ == self@,
    {
        clone_node(self)
    }
}

/// A copy of the element, with copies of all that stands inside it.
fn clone_element(element: &Element) -> (copy: Element)
    ensures
        copy@ == element@,
    decreases element,
{
    let mut children: Vec<Node> = Vec::new();
    let mut i: usize = 0;
    while i < element.children.len()
        invariant
            i <= element.children@.len(),
            children.deep_view() == element.children.deep_view().subrange(0, i as int),
        decreases element.children@.len() - i,
    {
        let child = clone_node(&element.children[i]);
        children.push(child);
        proof {
            let views = element.children.deep_view();
            assert(views.subrange(0, i + 1) == views.subrange(0, i as int).push(views[i as int]));
        }
        i = i + 1;
    }
    let copy = Element {
        tag_name: element.tag_name.clone(),
        attributes: element.attributes.clone(),
        children,
    };
    proof {
        let views = element.children.deep_view();
        assert(views.subrange(0, i as int) == views);
        lemma_children_views(copy);
        lemma_children_views(*element);
    }
    copy
}

/// A copy of the node, with copies of all that stands inside it.
fn clone_node(node: &Node) -> (copy: Node)
    ensures
        copy@ == node@,
    decreases node,
{
    match node {
        Node::Element(element) => Node::Element(clone_element(element)),
        Node::Text(text) => Node::Text(text.clone()),
        Node::Comment(comment) => Node::Comment(comment.clone()),
    }
}

/// The children of an element's value are the values of its children.
pub proof fn lemma_children_views(element: Element)
    ensures
        element@.children == element.children.deep_view(),
{
}

/// The token at index `p`, if there is one.
pub open spec fn token(t: Seq<HtmlTokenView>, p: int) -> Option<HtmlTokenView> {
    if 0 <= p < t.len() {
        Some(t[p])
    } else {
        None
    }
}

/// Whether the name, which is taken as it stands, is one of the fourteen
/// names of void elements.
pub open spec fn is_void_word(name: Seq<char>) -> bool {
    name == "area"@ || name == "base"@ || name == "br"@ || name == "col"@ || name == "embed"@
        || name == "hr"@ || name == "img"@ || name == "input"@ || name == "link"@ || name
        == "meta"@ || name == "param"@ || name == "source"@ || name == "track"@ || name == "wbr"@
}

/// Whether an element of this name never has children: whether the name, in
/// lowercase, is the name of a void element.
pub open spec fn is_void_name(name: Seq<char>) -> bool {
    is_void_word(lowercase(name))
}

/// The map that a list of attributes stands for: of two values for one
/// name, the later one counts.
pub open spec fn attribute_map(attributes: Seq<(Seq<char>, Seq<char>)>) -> Map<
    Seq<char>,
    Seq<char>,
>
    decreases attributes.len(),
{
    if attributes.len() == 0 {
        Map::empty()
    } else {
        attribute_map(attributes.drop_last()).insert(attributes.last().0, attributes.last().1)
    }
}

/// Whether no attribute behind index `i` has the name of the one at `i`.
pub open spec fn is_last_of_its_name(attributes: Seq<(Seq<char>, Seq<char>)>, i: int) -> bool {
    forall|j: int| i < j < attributes.len() ==> (#[trigger] attributes[j]).0 != attributes[i].0
}

/// The map of a list of attributes holds the names that occur in the list,
/// and under each name the value that was written last for it.
pub proof fn lemma_attribute_map(attributes: Seq<(Seq<char>, Seq<char>)>)
    ensures
        forall|name: Seq<char>| #[trigger]
            attribute_map(attributes).contains_key(name) == has_name(attributes, name),
        forall|i: int|
            0 <= i < attributes.len() && is_last_of_its_name(attributes, i) ==> attribute_map(
                attributes,
            )[(#[trigger] attributes[i]).0] == attributes[i].1,
    decreases attributes.len(),
{
    if attributes.len() > 0 {
        let init = attributes.drop_last();
        let last = attributes.last();
        lemma_attribute_map(init);
        assert forall|name: Seq<char>| #[trigger]
            attribute_map(attributes).contains_key(name) == has_name(attributes, name) by {
            assert(attribute_map(attributes).contains_key(name) == (name == last.0
                || attribute_map(init).contains_key(name)));
            if has_name(attributes, name) && name != last.0 {
                let i = choose|i: int|
                    0 <= i < attributes.len() && #[trigger] attributes[i].0 == name;
                assert(init[i].0 == name);
            }
        }
        assert forall|i: int|
            0 <= i < attributes.len() && is_last_of_its_name(attributes, i) implies attribute_map(
            attributes,
        )[(#[trigger] attributes[i]).0] == attributes[i].1 by {
            if i < init.len() {
                assert(init[i] == attributes[i]);
            }
        }
    }
}

/// The node that a token gives by itself: text, trimmed, unless nothing
/// remains of it, or a comment.
pub open spec fn leaf_of(token: HtmlTokenView) -> Option<NodeView> {
    match token {
        HtmlTokenView::Text(text) => if trimmed(text).len() > 0 {
            Some(NodeView::Text(trimmed(text)))
        } else {
            None
        },
        HtmlTokenView::Comment(comment) => Some(NodeView::Comment(comment)),
        _ => None,
    }
}

/// The element whose start tag stands at index `p`, and the index at which
/// reading goes on. A tag that closes itself, or has the name of a void
/// element, gives an element without children, and nothing more is read.
/// Any other tag is followed by the children of its element.
pub open spec fn element_at(t: Seq<HtmlTokenView>, p: int) -> (ElementView, int)
    recommends
        token(t, p) is Some,
        token(t, p).unwrap() is StartTag,
    decreases t.len() - p, 0int,
{
    match token(t, p) {
        Some(HtmlTokenView::StartTag { name, attributes, self_closing }) => {
            if self_closing || is_void_name(name) {
                (
                    ElementView {
                        tag_name: name,
                        attributes: attribute_map(attributes),
                        children: Seq::empty(),
                    },
                    p + 1,
                )
            } else {
                let children = children_at(t, p + 1, name);
                (
                    ElementView {
                        tag_name: name,
                        attributes: attribute_map(attributes),
                        children: children.0,
                    },
                    children.1,
                )
            }
        },
        _ => (
            ElementView { tag_name: Seq::empty(), attributes: Map::empty(), children: Seq::empty() },
            p,
        ),
    }
}

/// The children of an open element `name`, read from index `p` on, and the
/// index at which reading goes on. An end tag of that very name closes the
/// element and is passed over; any other end tag closes it too, and stays.
/// Text is trimmed and left out where nothing remains of it; a doctype is
/// left out. (An element always ends behind its start tag and within the
/// tokens.)
pub open spec fn children_at(t: Seq<HtmlTokenView>, p: int, name: Seq<char>) -> (
    Seq<NodeView>,
    int,
)
    decreases t.len() - p, 1int,
{
    match token(t, p) {
        None => (Seq::empty(), p),
        Some(HtmlTokenView::EndTag { name: end }) => if end == name {
            (Seq::empty(), p + 1)
        } else {
            (Seq::empty(), p)
        },
        Some(HtmlTokenView::StartTag { .. }) => {
            let element = element_at(t, p);
            if p < element.1 <= t.len() {
                let rest = children_at(t, element.1, name);
                (seq![NodeView::Element(element.0)] + rest.0, rest.1)
            } else {
                (Seq::empty(), p)
            }
        },
        Some(other) => {
            let rest = children_at(t, p + 1, name);
            match leaf_of(other) {
                Some(node) => (seq![node] + rest.0, rest.1),
                None => rest,
            }
        },
    }
}

/// An element ends behind its start tag and within the tokens; its children
/// end at or behind their start.
pub proof fn lemma_element_end(t: Seq<HtmlTokenView>, p: int)
    requires
        0 <= p < t.len(),
        t[p] is StartTag,
    ensures
        p < element_at(t, p).1 <= t.len(),
    decreases t.len() - p, 0int,
{
    match t[p] {
        HtmlTokenView::StartTag { name, attributes, self_closing } => {
            if !(self_closing || is_void_name(name)) {
                lemma_children_end(t, p + 1, name);
            }
        },
        _ => {},
    }
}

/// The children of an element end at or behind their start and within the
/// tokens.
pub proof fn lemma_children_end(t: Seq<HtmlTokenView>, p: int, name: Seq<char>)
    requires
        0 <= p <= t.len(),
    ensures
        p <= children_at(t, p, name).1 <= t.len(),
    decreases t.len() - p, 1int,
{
    match token(t, p) {
        None => {},
        Some(HtmlTokenView::EndTag { name: end }) => {},
        Some(HtmlTokenView::StartTag { .. }) => {
            lemma_element_end(t, p);
            lemma_children_end(t, element_at(t, p).1, name);
        },
        _ => {
            lemma_children_end(t, p + 1, name);
        },
    }
}

/// The node that is read from index `p` on, if there is one, and the index
/// at which reading goes on. Text that is empty when trimmed and doctypes
/// are passed over; an end tag gives no node and stays where it is.
pub open spec fn node_at(t: Seq<HtmlTokenView>, p: int) -> (Option<NodeView>, int)
    decreases t.len() - p,
{
    match token(t, p) {
        None => (None, p),
        Some(HtmlTokenView::StartTag { .. }) => (
            Some(NodeView::Element(element_at(t, p).0)),
            element_at(t, p).1,
        ),
        Some(HtmlTokenView::EndTag { .. }) => (None, p),
        Some(other) => match leaf_of(other) {
            Some(node) => (Some(node), p + 1),
            None => node_at(t, p + 1),
        },
    }
}

/// Reading a node ends at or behind its start and within the tokens, and
/// behind its start if there is a node. Where there is none, an end tag
/// stands there, or the tokens have ended.
pub proof fn lemma_node_end(t: Seq<HtmlTokenView>, p: int)
    requires
        0 <= p <= t.len(),
    ensures
        p <= node_at(t, p).1 <= t.len(),
        node_at(t, p).0 is Some ==> p < node_at(t, p).1,
        node_at(t, p).0 is None && node_at(t, p).1 < t.len() ==> t[node_at(t, p).1] is EndTag,
    decreases t.len() - p,
{
    match token(t, p) {
        Some(HtmlTokenView::StartTag { .. }) => {
            lemma_element_end(t, p);
        },
        Some(HtmlTokenView::EndTag { .. }) => {},
        Some(other) => {
            if leaf_of(other) is None {
                lemma_node_end(t, p + 1);
            }
        },
        None => {},
    }
}

/// A void element has no children and takes its start tag alone, whether or
/// not the tag closes itself: inside any parent, the token behind the tag is
/// read as the next child of the parent, never as a child of the void
/// element.
pub proof fn lemma_void_element(t: Seq<HtmlTokenView>, p: int, parent: Seq<char>)
    requires
        0 <= p < t.len(),
        t[p] matches HtmlTokenView::StartTag { name, .. } && is_void_name(name),
    ensures
        element_at(t, p).0.children == Seq::<NodeView>::empty(),
        element_at(t, p).1 == p + 1,
        node_at(t, p) == (Some(NodeView::Element(element_at(t, p).0)), p + 1),
        children_at(t, p, parent) == (
            seq![NodeView::Element(element_at(t, p).0)] + children_at(t, p + 1, parent).0,
            children_at(t, p + 1, parent).1,
        ),
{
}

/// Whether every text in the node, at any depth, is trimmed and not empty.
pub open spec fn texts_are_trimmed(node: NodeView) -> bool
    decreases node,
{
    match node {
        NodeView::Text(text) => text.len() > 0 && trimmed(text) == text,
        NodeView::Comment(_) => true,
        NodeView::Element(element) => forall|i: int|
            0 <= i < element.children.len() ==> texts_are_trimmed(#[trigger] element.children[i]),
    }
}

/// Every text in an element that is read is trimmed and not empty.
pub proof fn lemma_element_texts(t: Seq<HtmlTokenView>, p: int)
    requires
        0 <= p < t.len(),
        t[p] is StartTag,
    ensures
        texts_are_trimmed(NodeView::Element(element_at(t, p).0)),
    decreases t.len() - p, 0int,
{
    match t[p] {
        HtmlTokenView::StartTag { name, attributes, self_closing } => {
            let element = element_at(t, p).0;
            if !(self_closing || is_void_name(name)) {
                lemma_children_texts(t, p + 1, name);
                assert(element.children == children_at(t, p + 1, name).0);
            }
        },
        _ => {},
    }
}

/// Every text among the children that are read, at any depth, is trimmed
/// and not empty.
pub proof fn lemma_children_texts(t: Seq<HtmlTokenView>, p: int, name: Seq<char>)
    requires
        0 <= p <= t.len(),
    ensures
        forall|i: int|
            0 <= i < children_at(t, p, name).0.len() ==> texts_are_trimmed(
                #[trigger] children_at(t, p, name).0[i],
            ),
    decreases t.len() - p, 1int,
{
    match token(t, p) {
        None => {},
        Some(HtmlTokenView::EndTag { name: end }) => {},
        Some(HtmlTokenView::StartTag { .. }) => {
            lemma_element_end(t, p);
            lemma_element_texts(t, p);
            let next = element_at(t, p).1;
            lemma_children_texts(t, next, name);
            assert(children_at(t, p, name).0 == seq![NodeView::Element(element_at(t, p).0)]
                + children_at(t, next, name).0);
        },
        Some(other) => {
            lemma_children_texts(t, p + 1, name);
            lemma_leaf_text(other);
            assert(children_at(t, p, name).0 == match leaf_of(other) {
                Some(node) => seq![node] + children_at(t, p + 1, name).0,
                None => children_at(t, p + 1, name).0,
            });
        },
    }
}

/// The text that a token gives by itself is trimmed and not empty.
pub proof fn lemma_leaf_text(token: HtmlTokenView)
    ensures
        leaf_of(token) matches Some(node) ==> texts_are_trimmed(node),
{
    match token {
        HtmlTokenView::Text(text) => {
            lemma_trimmed_twice(text);
        },
        _ => {},
    }
}

/// Every text in the tree, at any depth, is trimmed and not empty.
pub proof fn lemma_texts_are_trimmed(t: Seq<HtmlTokenView>, p: int)
    requires
        0 <= p <= t.len(),
    ensures
        forall|i: int|
            0 <= i < nodes_from(t, p).len() ==> texts_are_trimmed(#[trigger] nodes_from(t, p)[i]),
    decreases t.len() - p,
{
    if p < t.len() {
        lemma_node_end(t, p);
        lemma_node_texts(t, p);
        let nodes = nodes_from(t, p);
        match node_at(t, p) {
            (Some(node), next) => {
                lemma_texts_are_trimmed(t, next);
                assert(nodes == seq![node] + nodes_from(t, next));
            },
            (None, next) => {
                lemma_texts_are_trimmed(t, step(t, next));
                assert(nodes == nodes_from(t, step(t, next)));
            },
        }
    }
}

/// Every text in a node that is read is trimmed and not empty.
pub proof fn lemma_node_texts(t: Seq<HtmlTokenView>, p: int)
    requires
        0 <= p <= t.len(),
    ensures
        node_at(t, p).0 matches Some(node) ==> texts_are_trimmed(node),
    decreases t.len() - p,
{
    match token(t, p) {
        Some(HtmlTokenView::StartTag { .. }) => {
            lemma_element_texts(t, p);
        },
        Some(HtmlTokenView::EndTag { .. }) => {},
        Some(other) => {
            lemma_leaf_text(other);
            if leaf_of(other) is None {
                lemma_node_texts(t, p + 1);
            }
        },
        None => {},
    }
}

/// The index behind `p`, or `p` itself at the end of the tokens.
pub open spec fn step(t: Seq<HtmlTokenView>, p: int) -> int {
    if p < t.len() {
        p + 1
    } else {
        p
    }
}

/// The nodes at the top level, read from index `p` on. An end tag that
/// closes nothing is passed over.
pub open spec fn nodes_from(t: Seq<HtmlTokenView>, p: int) -> Seq<NodeView>
    decreases t.len() - p,
{
    if p < 0 || p >= t.len() {
        Seq::empty()
    } else {
        proof {
            lemma_node_end(t, p);
        }
        match node_at(t, p) {
            (Some(node), next) => seq![node] + nodes_from(t, next),
            (None, next) => nodes_from(t, step(t, next)),
        }
    }
}

/// Whether the node is an element whose name is `html` in lowercase.
pub open spec fn is_html_element(node: NodeView) -> bool {
    node matches NodeView::Element(element) && lowercase(element.tag_name) == "html"@
}

/// The index of the first `html` element from index `from` on, or the
/// number of nodes if there is none.
pub open spec fn first_html_element(nodes: Seq<NodeView>, from: int) -> int
    decreases nodes.len() - from,
{
    if from < 0 || from >= nodes.len() {
        nodes.len() as int
    } else if is_html_element(nodes[from]) {
        from
    } else {
        first_html_element(nodes, from + 1)
    }
}

/// The index of the first element from index `from` on, or the number of
/// nodes if there is none.
pub open spec fn first_element(nodes: Seq<NodeView>, from: int) -> int
    decreases nodes.len() - from,
{
    if from < 0 || from >= nodes.len() {
        nodes.len() as int
    } else if nodes[from] is Element {
        from
    } else {
        first_element(nodes, from + 1)
    }
}

/// The node that stands for the document: the first `html` element at the
/// top level; where there is none, the first element; where there is no
/// element, nothing.
pub open spec fn document_of(nodes: Seq<NodeView>) -> Option<NodeView> {
    if first_html_element(nodes, 0) < nodes.len() {
        Some(nodes[first_html_element(nodes, 0)])
    } else if first_element(nodes, 0) < nodes.len() {
        Some(nodes[first_element(nodes, 0)])
    } else {
        None
    }
}

/// What [`first_html_element`] returns is an `html` element, unless it is
/// the number of nodes, and no `html` element stands before it.
pub proof fn lemma_first_html_element(nodes: Seq<NodeView>, from: int)
    requires
        0 <= from <= nodes.len(),
    ensures
        from <= first_html_element(nodes, from) <= nodes.len(),
        first_html_element(nodes, from) < nodes.len() ==> is_html_element(
            nodes[first_html_element(nodes, from)],
        ),
        forall|i: int|
            from <= i < first_html_element(nodes, from) ==> !is_html_element(#[trigger] nodes[i]),
    decreases nodes.len() - from,
{
    if from < nodes.len() && !is_html_element(nodes[from]) {
        lemma_first_html_element(nodes, from + 1);
    }
}

/// What [`first_element`] returns is an element, unless it is the number of
/// nodes, and no element stands before it.
pub proof fn lemma_first_element(nodes: Seq<NodeView>, from: int)
    requires
        0 <= from <= nodes.len(),
    ensures
        from <= first_element(nodes, from) <= nodes.len(),
        first_element(nodes, from) < nodes.len() ==> nodes[first_element(nodes, from)] is Element,
        forall|i: int| from <= i < first_element(nodes, from) ==> !(#[trigger] nodes[i] is Element),
    decreases nodes.len() - from,
{
    if from < nodes.len() && !(nodes[from] is Element) {
        lemma_first_element(nodes, from + 1);
    }
}

/// The document is an element of the top level. It is the first `html`
/// element there; where there is no `html` element, it is the first element;
/// and there is none only where the top level holds no element.
pub proof fn lemma_document_of(nodes: Seq<NodeView>)
    ensures
        document_of(nodes) is None <==> forall|i: int|
            0 <= i < nodes.len() ==> !(#[trigger] nodes[i] is Element),
        document_of(nodes) matches Some(node) ==> exists|i: int|
            0 <= i < nodes.len() && #[trigger] nodes[i] == node && node is Element && if is_html_element(
                node,
            ) {
                forall|j: int| 0 <= j < i ==> !is_html_element(#[trigger] nodes[j])
            } else {
                &&& forall|j: int| 0 <= j < nodes.len() ==> !is_html_element(#[trigger] nodes[j])
                &&& forall|j: int| 0 <= j < i ==> !(#[trigger] nodes[j] is Element)
            },
{
    lemma_first_html_element(nodes, 0);
    lemma_first_element(nodes, 0);
    let html = first_html_element(nodes, 0);
    let first = first_element(nodes, 0);
    if html < nodes.len() {
        assert(nodes[html] == document_of(nodes).unwrap());
        assert(nodes[html] is Element);
    } else if first < nodes.len() {
        assert(nodes[first] == document_of(nodes).unwrap());
    }
}

/// The tree of a document: the nodes at the top level of its text.
pub open spec fn tree(text: Seq<char>) -> Seq<NodeView> {
    nodes_from(tokens_from(text, 0), 0)
}

/// A reader of nodes from the tokens of a document.
pub struct HtmlParser {
    tokens: Vec<HtmlToken>,
    position: usize,
}

impl HtmlParser {
    #[verifier::type_invariant]
    spec fn in_bounds(&self) -> bool {
        self.position <= self.tokens@.len()
    }

    /// The tokens that are read.
    pub closed spec fn tokens(&self) -> Seq<HtmlTokenView> {
        self.tokens.deep_view()
    }

    /// The number of tokens that have been read.
    pub closed spec fn offset(&self) -> int {
        self.position as int
    }

    /// A parser at the first token of `input`.
    pub fn new(input: &str) -> (parser: Self)
        ensures
            parser.tokens() == tokens_from(input@, 0),
            parser.offset() == 0,
    {
        let tokenizer = HtmlTokenizer::new(input);
        Self::from_tokens(tokenizer.collect())
    }

    /// A parser at the first of the given tokens.
    pub fn from_tokens(tokens: Vec<HtmlToken>) -> (parser: Self)
        ensures
            parser.tokens() == tokens.deep_view(),
            parser.offset() == 0,
    {
        HtmlParser { tokens, position: 0 }
    }

    /// The token at the cursor, if there is one.
    fn current_token(&self) -> (current: Option<&HtmlToken>)
        ensures
            current.deep_view() == token(self.tokens(), self.offset()),
            0 <= self.offset() <= self.tokens().len(),
    {
        proof {
            use_type_invariant(self);
        }
        if self.position < self.tokens.len() {
            Some(&self.tokens[self.position])
        } else {
            None
        }
    }

    /// Moves to the next token; at the end nothing changes.
    fn advance(&mut self)
        ensures
            final(self).tokens() == old(self).tokens(),
            final(self).offset() == step(old(self).tokens(), old(self).offset()),
    {
        if self.position < self.tokens.len() {
            self.position = self.position + 1;
        }
    }

    /// Whether an element of this name never has children.
    fn is_void_element(tag_name: &str) -> (r: bool)
        ensures
            r == is_void_name(tag_name@),
    {
        let lower = tag_name.to_lowercase();
        is_void_lowercase(lower.as_str())
    }

    /// Reads the element whose start tag stands at the cursor, with all that
    /// stands inside it. Elements inside elements are read by recursion, so
    /// the call stack grows as deep as the document nests them.
    fn parse_element(&mut self) -> (element: Element)
        requires
            token(old(self).tokens(), old(self).offset()) is Some,
            token(old(self).tokens(), old(self).offset()).unwrap() is StartTag,
        ensures
            final(self).tokens() == old(self).tokens(),
            element@ == element_at(old(self).tokens(), old(self).offset()).0,
            final(self).offset() == element_at(old(self).tokens(), old(self).offset()).1,
        decreases old(self).tokens().len() - old(self).offset(),
    {
        let ghost t = self.tokens();
        let ghost p = self.offset();
        let mut tag_name = String::new();
        let mut attributes = Attributes::new();
        let mut complete = true;
        match self.current_token() {
            Some(HtmlToken::StartTag { name, attributes: list, self_closing }) => {
                tag_name = name.clone();
                attributes = fold_attributes(list);
                complete = *self_closing || Self::is_void_element(name.as_str());
            },
            _ => {},
        }
        self.advance();
        let mut children: Vec<Node> = Vec::new();
        if !complete {
            let ghost start = self.offset();
            let ghost name = tag_name@;
            loop
                invariant_except_break
                    children_at(t, start, name).0 == children.deep_view() + children_at(
                        t,
                        self.offset(),
                        name,
                    ).0,
                    children_at(t, start, name).1 == children_at(t, self.offset(), name).1,
                invariant
                    self.tokens() == t,
                    t == old(self).tokens(),
                    p == old(self).offset(),
                    p < start <= self.offset() <= t.len(),
                    name == tag_name@,
                ensures
                    children.deep_view() == children_at(t, start, name).0,
                    self.offset() == children_at(t, start, name).1,
                    self.tokens() == t,
                decreases t.len() - self.offset(),
            {
                let ghost at = self.offset();
                let mut open = false;
                let mut close = false;
                let mut matching = false;
                let mut leaf: Option<Node> = None;
                match self.current_token() {
                    None => {
                        break ;
                    },
                    Some(token) => {
                        match token {
                            HtmlToken::StartTag { .. } => {
                                open = true;
                            },
                            HtmlToken::EndTag { name: end } => {
                                close = true;
                                matching = *end == tag_name;
                            },
                            _ => {
                                leaf = leaf_node(token);
                            },
                        }
                    },
                }
                if close {
                    if matching {
                        self.advance();
                    }
                    break ;
                }
                let child: Option<Node> = if open {
                    proof {
                        lemma_element_end(t, at);
                    }
                    let inner = self.parse_element();
                    Some(Node::Element(inner))
                } else {
                    self.advance();
                    leaf
                };
                match child {
                    Some(node) => {
                        children.push(node);
                    },
                    None => {},
                }
            }
        }
        let element = Element { tag_name, attributes, children };
        proof {
            assert(element@.children == element_at(t, p).0.children);
        }
        element
    }

    /// Reads the next node, if there is one.
    fn parse_node(&mut self) -> (node: Option<Node>)
        ensures
            final(self).tokens() == old(self).tokens(),
            node.deep_view() == node_at(old(self).tokens(), old(self).offset()).0,
            final(self).offset() == node_at(old(self).tokens(), old(self).offset()).1,
    {
        let ghost t = self.tokens();
        let ghost start = self.offset();
        proof {
            use_type_invariant(&*self);
        }
        loop
            invariant
                self.tokens() == t,
                t == old(self).tokens(),
                start == old(self).offset(),
                0 <= self.offset() <= t.len(),
                node_at(t, start) == node_at(t, self.offset()),
            decreases t.len() - self.offset(),
        {
            let mut open = false;
            let mut leaf: Option<Node> = None;
            match self.current_token() {
                None => {
                    return None;
                },
                Some(token) => {
                    match token {
                        HtmlToken::StartTag { .. } => {
                            open = true;
                        },
                        HtmlToken::EndTag { .. } => {
                            return None;
                        },
                        _ => {
                            leaf = leaf_node(token);
                        },
                    }
                },
            }
            if open {
                let element = self.parse_element();
                return Some(Node::Element(element));
            }
            self.advance();
            if leaf.is_some() {
                return leaf;
            }
        }
    }

    /// Reads all the nodes that are left at the top level, in order, and
    /// leaves the parser at the end of its tokens.
    pub fn parse(&mut self) -> (nodes: Vec<Node>)
        ensures
            final(self).tokens() == old(self).tokens(),
            final(self).offset() == old(self).tokens().len(),
            nodes.deep_view() == nodes_from(old(self).tokens(), old(self).offset()),
    {
        let mut nodes: Vec<Node> = Vec::new();
        let ghost t = self.tokens();
        let ghost start = self.offset();
        proof {
            use_type_invariant(&*self);
        }
        while self.position < self.tokens.len()
            invariant
                self.tokens() == t,
                0 <= self.offset() <= t.len(),
                self.offset() == self.position,
                t.len() == self.tokens@.len(),
                nodes_from(t, start) == nodes.deep_view() + nodes_from(t, self.offset()),
            decreases t.len() - self.offset(),
        {
            let ghost at = self.offset();
            proof {
                lemma_node_end(t, at);
            }
            match self.parse_node() {
                Some(node) => {
                    nodes.push(node);
                },
                None => {
                    self.advance();
                },
            }
            proof {
                use_type_invariant(&*self);
            }
        }
        nodes
    }

    /// Reads all the nodes that are left and returns the one that stands for
    /// the document: the first `html` element at the top level, else the
    /// first element, else nothing.
    pub fn parse_document(&mut self) -> (document: Option<Node>)
        ensures
            final(self).tokens() == old(self).tokens(),
            final(self).offset() == old(self).tokens().len(),
            document.deep_view() == document_of(
                nodes_from(old(self).tokens(), old(self).offset()),
            ),
    {
        let mut nodes = self.parse();
        let ghost views = nodes.deep_view();
        let mut i: usize = 0;
        while i < nodes.len()
            invariant
                self.tokens() == old(self).tokens(),
                self.offset() == old(self).tokens().len(),
                views == nodes_from(old(self).tokens(), old(self).offset()),
                i <= nodes@.len(),
                views == nodes.deep_view(),
                first_html_element(views, 0) == first_html_element(views, i as int),
            decreases nodes@.len() - i,
        {
            if is_html(&nodes[i]) {
                let node = nodes.remove(i);
                return Some(node);
            }
            i = i + 1;
        }
        let mut j: usize = 0;
        while j < nodes.len()
            invariant
                self.tokens() == old(self).tokens(),
                self.offset() == old(self).tokens().len(),
                views == nodes_from(old(self).tokens(), old(self).offset()),
                first_html_element(views, 0) == views.len(),
                j <= nodes@.len(),
                views == nodes.deep_view(),
                first_element(views, 0) == first_element(views, j as int),
            decreases nodes@.len() - j,
        {
            let found = match &nodes[j] {
                Node::Element(_) => true,
                _ => false,
            };
            if found {
                let node = nodes.remove(j);
                return Some(node);
            }
            j = j + 1;
        }
        None
    }
}

/// Whether the text is the given word.
fn is_word(text: &str, word: &str) -> (r: bool)
    ensures
        r == (text@ == word@),
{
    let found = String::from_str(text);
    let wanted = String::from_str(word);
    found == wanted
}

/// Whether the name, which is taken as it stands, is the name of a void
/// element.
pub fn is_void_lowercase(name: &str) -> (r: bool)
    ensures
        r == is_void_word(name@),
{
    is_word(name, "area") || is_word(name, "base") || is_word(name, "br") || is_word(name, "col")
        || is_word(name, "embed") || is_word(name, "hr") || is_word(name, "img") || is_word(
        name,
        "input",
    ) || is_word(name, "link") || is_word(name, "meta") || is_word(name, "param") || is_word(
        name,
        "source",
    ) || is_word(name, "track") || is_word(name, "wbr")
}

/// Whether the node is an element whose name is `html` in lowercase.
fn is_html(node: &Node) -> (r: bool)
    ensures
        r == is_html_element(node@),
{
    match node {
        Node::Element(element) => {
            let lower = element.tag_name.as_str().to_lowercase();
            is_word(lower.as_str(), "html")
        },
        _ => false,
    }
}

/// The node that a token gives by itself.
fn leaf_node(token: &HtmlToken) -> (node: Option<Node>)
    ensures
        node.deep_view() == leaf_of(token@),
{
    match token {
        HtmlToken::Text(text) => {
            let inner = trim(text.as_str());
            if inner.as_str().is_empty() {
                None
            } else {
                Some(Node::Text(inner))
            }
        },
        HtmlToken::Comment(comment) => Some(Node::Comment(comment.clone())),
        _ => None,
    }
}

/// Folds a list of attributes into a map; of two values for one name, the
/// later one counts.
fn fold_attributes(list: &Vec<(String, String)>) -> (attributes: Attributes)
    ensures
        attributes@ == attribute_map(list.deep_view()),
{
    let mut attributes = Attributes::new();
    let mut i: usize = 0;
    while i < list.len()
        invariant
            i <= list@.len(),
            attributes@ == attribute_map(list.deep_view().subrange(0, i as int)),
        decreases list@.len() - i,
    {
        attributes.insert(list[i].0.clone(), list[i].1.clone());
        proof {
            let views = list.deep_view();
            let next = views.subrange(0, i + 1);
            assert(next.drop_last() == views.subrange(0, i as int));
        }
        i = i + 1;
    }
    proof {
        assert(list.deep_view().subrange(0, i as int) == list.deep_view());
    }
    attributes
}

/// Parses the text of a document into the nodes at its top level.
pub fn parse_html(input: &str) -> (nodes: Vec<Node>)
    ensures
        nodes.deep_view() == tree(input@),
{
    let mut parser = HtmlParser::new(input);
    parser.parse()
}

/// Parses the text of a document and returns the node that stands for it.
pub fn parse_html_document(input: &str) -> (document: Option<Node>)
    ensures
        document.deep_view() == document_of(tree(input@)),
{
    let mut parser = HtmlParser::new(input);
    parser.parse_document()
}

/// Reads all the tokens of a document.
pub fn tokenize_html(input: &str) -> (tokens: Vec<HtmlToken>)
    ensures
        tokens.deep_view() == tokens_from(input@, 0),
{
    HtmlTokenizer::new(input).collect()
}

} // verus!
