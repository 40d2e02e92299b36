use html_css_parser::css::numeral::to_decimal_text;
use html_css_parser::css::{
    parse_css, tokenize_css, CssParser, CssToken, CssTokenizer, Declaration, Rule, Selector,
};
use html_css_parser::html::parser::is_void_lowercase;
use html_css_parser::html::{
    parse_html, parse_html_document, tokenize_html, Attributes, Element, HtmlParser, HtmlToken,
    HtmlTokenizer, Node,
};
use html_css_parser::text::{strip, trim, CharClass, Cursor};

fn start(name: &str, attributes: &[(&str, &str)], self_closing: bool) -> HtmlToken {
    HtmlToken::StartTag {
        name: name.to_string(),
        attributes: attributes.iter().map(|(k, v)| (k.to_string(), v.to_string())).collect(),
        self_closing,
    }
}

fn end(name: &str) -> HtmlToken {
    HtmlToken::EndTag { name: name.to_string() }
}

fn text(content: &str) -> HtmlToken {
    HtmlToken::Text(content.to_string())
}

fn element(node: &Node) -> &Element {
    match node {
        Node::Element(element) => element,
        other => panic!("expected an element, found {:?}", other),
    }
}

fn declaration(property: &str, value: &str, important: bool) -> Declaration {
    Declaration { property: property.to_string(), value: value.to_string(), important }
}

// ---- the cursor and the text utilities ----

#[test]
fn cursor_moves_by_scalar_values() {
    let mut cursor = Cursor::new("aé日");
    assert_eq!(cursor.current(), Some('a'));
    assert_eq!(cursor.peek(), Some('é'));
    cursor.advance();
    assert_eq!(cursor.current(), Some('é'));
    assert_eq!(cursor.peek(), Some('日'));
    cursor.advance();
    assert_eq!(cursor.current(), Some('日'));
    assert_eq!(cursor.peek(), None);
    assert!(!cursor.at_end());
    cursor.advance();
    assert_eq!(cursor.current(), None);
    assert!(cursor.at_end());
    cursor.advance();
    assert_eq!(cursor.current(), None);
}

#[test]
fn cursor_consumes_runs() {
    let mut cursor = Cursor::new("abc-1_2: rest");
    assert_eq!(cursor.consume_while(CharClass::Name), "abc-1_2");
    assert_eq!(cursor.current(), Some(':'));
    assert_eq!(cursor.consume_while(CharClass::Name), "");
    assert_eq!(cursor.consume_while(CharClass::AttributeName), ":");
    assert_eq!(cursor.consume_while(CharClass::Whitespace), " ");
    assert_eq!(cursor.consume_while(CharClass::Except('s')), "re");
    assert_eq!(cursor.consume_while(CharClass::Unquoted), "st");
    assert!(cursor.at_end());
}

#[test]
fn cursor_consumes_until_a_pattern() {
    let mut cursor = Cursor::new("one--two-->three");
    let pattern = vec!['-', '-', '>'];
    assert_eq!(cursor.consume_until(&pattern), "one--two");
    assert_eq!(cursor.current(), Some('t'));
    assert_eq!(cursor.consume_until(&pattern), "three");
    assert!(cursor.at_end());
}

#[test]
fn classes_hold_what_they_name() {
    assert!(CharClass::Whitespace.holds(' '));
    assert!(CharClass::Whitespace.holds('\u{3000}'));
    assert!(!CharClass::Whitespace.holds('a'));
    assert!(CharClass::Name.holds('é'));
    assert!(CharClass::Name.holds('7'));
    assert!(CharClass::Name.holds('-'));
    assert!(CharClass::Name.holds('_'));
    assert!(!CharClass::Name.holds(':'));
    assert!(CharClass::AttributeName.holds(':'));
    assert!(CharClass::Digit.holds('0'));
    assert!(!CharClass::Digit.holds('.'));
    assert!(!CharClass::Digit.holds('٣'));
    assert!(CharClass::Numeral.holds('.'));
    assert!(!CharClass::Unquoted.holds('>'));
    assert!(!CharClass::Unquoted.holds('/'));
    assert!(!CharClass::Unquoted.holds('\t'));
    assert!(CharClass::Unquoted.holds('"'));
    assert!(CharClass::Except('x').holds('y'));
    assert!(!CharClass::Except('x').holds('x'));
    assert!(CharClass::Only('x').holds('x'));
    assert!(!CharClass::Only('x').holds('y'));
}

#[test]
fn trim_takes_whitespace_from_both_ends() {
    assert_eq!(trim("  Hello World \n"), "Hello World");
    assert_eq!(trim("\u{a0}x\u{3000}"), "x");
    assert_eq!(trim(" \t\r\n"), "");
    assert_eq!(trim(""), "");
    assert_eq!(trim("a"), "a");
    assert_eq!(strip("00100", CharClass::Only('0')), "1");
}

#[test]
fn trimming_twice_changes_nothing() {
    for input in ["  a b  ", "", "   ", "x", "\n\u{2003}é \t"] {
        let once = trim(input);
        assert_eq!(trim(&once), once);
        assert_eq!(once, input.trim());
    }
}

// ---- the HTML tokenizer ----

#[test]
fn html_tokens_of_a_simple_element() {
    assert_eq!(
        tokenize_html("<div>Hello</div>"),
        vec![start("div", &[], false), text("Hello"), end("div")]
    );
}

#[test]
fn html_tokenizer_ends_with_none() {
    let mut tokenizer = HtmlTokenizer::new("<p>x</p>  \n ");
    assert_eq!(tokenizer.next_token(), Some(start("p", &[], false)));
    assert_eq!(tokenizer.next_token(), Some(text("x")));
    assert_eq!(tokenizer.next_token(), Some(end("p")));
    assert_eq!(tokenizer.next_token(), None);
    assert_eq!(tokenizer.next_token(), None);
    assert_eq!(tokenize_html(""), vec![]);
    assert_eq!(tokenize_html(" \n\t "), vec![]);
}

#[test]
fn html_text_keeps_its_inner_and_final_whitespace() {
    assert_eq!(
        tokenize_html("  Hello  World  <b>"),
        vec![text("Hello  World  "), start("b", &[], false)]
    );
}

#[test]
fn html_attributes_keep_order_and_duplicates() {
    assert_eq!(
        tokenize_html(r#"<a x="1" y='2' x=3 checked>"#),
        vec![start("a", &[("x", "1"), ("y", "2"), ("x", "3"), ("checked", "")], false)]
    );
}

#[test]
fn html_attribute_values() {
    assert_eq!(
        tokenize_html("<a href = \"a b>c/d\" data:x-y_z=un/quoted>"),
        vec![
            start("a", &[("href", "a b>c/d"), ("data:x-y_z", "un")], true),
            text("quoted>")
        ]
    );
    assert_eq!(tokenize_html("<a b=>"), vec![start("a", &[("b", "")], false)]);
    assert_eq!(tokenize_html("<a b='it''s'>"), vec![start("a", &[("b", "it")], false), text("'s'>")]);
}

#[test]
fn html_unterminated_input_is_read_to_the_end() {
    assert_eq!(tokenize_html("<!-- never closed"), vec![HtmlToken::Comment(" never closed".to_string())]);
    assert_eq!(tokenize_html("<!-- a --"), vec![HtmlToken::Comment(" a --".to_string())]);
    assert_eq!(tokenize_html("<!DOCTYPE html"), vec![HtmlToken::Doctype("DOCTYPE html".to_string())]);
    assert_eq!(tokenize_html("<a b=\"c"), vec![start("a", &[("b", "c")], false)]);
    assert_eq!(tokenize_html("<div"), vec![start("div", &[], false)]);
    assert_eq!(tokenize_html("</div"), vec![end("div")]);
    assert_eq!(tokenize_html("<"), vec![start("", &[], false)]);
}

#[test]
fn html_comment_ends_at_the_first_closing_sequence() {
    assert_eq!(
        tokenize_html("<!--a--b-->c-->"),
        vec![HtmlToken::Comment("a--b".to_string()), text("c-->")]
    );
    assert_eq!(tokenize_html("<!---->x"), vec![HtmlToken::Comment("".to_string()), text("x")]);
    assert_eq!(tokenize_html("<!--a--->x"), vec![HtmlToken::Comment("a-".to_string()), text("x")]);
    assert_eq!(tokenize_html("<!-x>y"), vec![HtmlToken::Doctype("-x".to_string()), text("y")]);
}

#[test]
fn html_end_tag_reaches_to_its_closing_bracket() {
    assert_eq!(tokenize_html("</div  >x"), vec![end("div"), text("x")]);
    assert_eq!(tokenize_html("</div foo='a'/>x"), vec![end("div"), text("x")]);
    assert_eq!(tokenize_html("</div foo <p>"), vec![end("div")]);
    assert_eq!(tokenize_html("</ div>x"), vec![end(""), text("x")]);
}

#[test]
fn html_tag_names_may_hold_letters_of_any_script_and_digits() {
    assert_eq!(
        tokenize_html("<h1><détail-x_2/>"),
        vec![start("h1", &[], false), start("détail-x_2", &[], true)]
    );
}

#[test]
fn html_tokenizing_twice_gives_equal_tokens() {
    let input = r#"<!DOCTYPE html><!-- c --><p class="a" class=b>text <br/> more</p></x>"#;
    assert_eq!(tokenize_html(input), tokenize_html(input));
    assert_eq!(HtmlTokenizer::new(input).collect(), tokenize_html(input));
}

#[test]
fn html_tokens_tile_the_text() {
    let input = "  <!DOCTYPE html>\n<p class=\"a\">é text <br/> more</p><!-- c -->  </x> tail \n ";
    let length = input.chars().count();
    let mut tokenizer = HtmlTokenizer::new(input);
    let mut spans = Vec::new();
    loop {
        let from = tokenizer.position();
        match tokenizer.next_token() {
            Some(_) => spans.push((from, tokenizer.position())),
            None => break,
        }
    }
    assert_eq!(spans.len(), tokenize_html(input).len());
    assert_eq!(spans[0].0, 0);
    for span in &spans {
        assert!(span.0 < span.1);
    }
    for pair in spans.windows(2) {
        assert_eq!(pair[0].1, pair[1].0);
    }
    let end = spans[spans.len() - 1].1;
    assert!(input.chars().skip(end).all(|c| c.is_whitespace()));
    assert_eq!(tokenizer.position(), length);
    let chars: Vec<char> = input.chars().collect();
    let covered: String = spans.iter().map(|s| chars[s.0..s.1].iter().collect::<String>()).collect();
    assert_eq!(covered, chars[..end].iter().collect::<String>());
}

// ---- the HTML parser ----

#[test]
fn html_simple_element_has_one_text_child() {
    let nodes = parse_html("<div>Hello</div>");
    assert_eq!(nodes.len(), 1);
    let div = element(&nodes[0]);
    assert_eq!(div.tag_name, "div");
    assert!(div.attributes.is_empty());
    assert_eq!(div.children, vec![Node::Text("Hello".to_string())]);
}

#[test]
fn html_void_element_takes_no_sibling() {
    for source in [
        r#"<p><img src="a.jpg">after<b>x</b></p>"#,
        r#"<p><img src="a.jpg"/>after<b>x</b></p>"#,
        r#"<p><IMG src="a.jpg">after<b>x</b></p>"#,
    ] {
        let nodes = parse_html(source);
        assert_eq!(nodes.len(), 1);
        let p = element(&nodes[0]);
        assert_eq!(p.children.len(), 3);
        let img = element(&p.children[0]);
        assert!(img.tag_name.eq_ignore_ascii_case("img"));
        assert!(img.children.is_empty());
        assert_eq!(img.attributes.get("src"), Some(&"a.jpg".to_string()));
        assert_eq!(p.children[1], Node::Text("after".to_string()));
        assert_eq!(element(&p.children[2]).tag_name, "b");
    }
}

#[test]
fn html_every_void_name_is_void() {
    for name in [
        "area", "base", "br", "col", "embed", "hr", "img", "input", "link", "meta", "param",
        "source", "track", "wbr",
    ] {
        assert!(is_void_lowercase(name));
        assert!(!is_void_lowercase(&name.to_uppercase()));
        let source = format!("<{}>x", name.to_uppercase());
        let nodes = parse_html(&source);
        assert_eq!(nodes.len(), 2, "{}", source);
        assert!(element(&nodes[0]).children.is_empty());
        assert_eq!(nodes[1], Node::Text("x".to_string()));
    }
    assert!(!is_void_lowercase("div"));
    assert!(!is_void_lowercase(""));
    assert!(!is_void_lowercase("imgs"));
}

#[test]
fn html_self_closing_element_has_no_children() {
    let nodes = parse_html("<div/>text</div>");
    assert_eq!(nodes.len(), 2);
    assert!(element(&nodes[0]).children.is_empty());
    assert_eq!(nodes[1], Node::Text("text".to_string()));
}

#[test]
fn html_document_is_the_html_element() {
    let document =
        parse_html_document("<!DOCTYPE html><html><head></head><body></body></html>").unwrap();
    let html = element(&document);
    assert_eq!(html.tag_name, "html");
    assert_eq!(html.children.len(), 2);
    assert_eq!(element(&html.children[0]).tag_name, "head");
    assert_eq!(element(&html.children[1]).tag_name, "body");
}

#[test]
fn html_document_selection() {
    let first = parse_html_document("<!-- c --><div></div><HTML></HTML><html></html>").unwrap();
    assert_eq!(element(&first).tag_name, "HTML");
    let other = parse_html_document("text<!-- c --><div></div><p></p>").unwrap();
    assert_eq!(element(&other).tag_name, "div");
    assert_eq!(parse_html_document("only text <!-- and a comment -->"), None);
    assert_eq!(parse_html_document(""), None);
    let nested = parse_html_document("<div><html></html></div>").unwrap();
    assert_eq!(element(&nested).tag_name, "div");
    let mut parser = HtmlParser::new("<a></a><html></html>");
    assert_eq!(element(&parser.parse_document().unwrap()).tag_name, "html");
    assert_eq!(parser.parse(), vec![]);
    assert_eq!(parser.parse_document(), None);
}

#[test]
fn html_attributes_are_a_map_in_which_the_last_value_counts() {
    let nodes = parse_html(r#"<a x="1" y="2" x="3">"#);
    let a = element(&nodes[0]);
    assert_eq!(a.attributes.len(), 2);
    assert_eq!(a.attributes.get("x"), Some(&"3".to_string()));
    assert_eq!(a.attributes.get("y"), Some(&"2".to_string()));
    assert_eq!(a.attributes.get("z"), None);
    assert!(a.attributes.contains_key("x"));
    assert!(!a.attributes.contains_key("X"));
    assert_eq!(
        a.attributes.entries(),
        &vec![("x".to_string(), "3".to_string()), ("y".to_string(), "2".to_string())]
    );
}

#[test]
fn attributes_behave_as_a_map() {
    let mut attributes = Attributes::new();
    assert!(attributes.is_empty());
    assert_eq!(attributes.len(), 0);
    attributes.insert("a".to_string(), "1".to_string());
    attributes.insert("b".to_string(), "2".to_string());
    attributes.insert("a".to_string(), "3".to_string());
    assert!(!attributes.is_empty());
    assert_eq!(attributes.len(), 2);
    assert_eq!(attributes.get("a"), Some(&"3".to_string()));
    let mut other = Attributes::new();
    other.insert("b".to_string(), "2".to_string());
    assert_ne!(attributes, other);
    other.insert("a".to_string(), "3".to_string());
    assert_eq!(attributes, other);
    assert_eq!(attributes.clone(), attributes);
    other.insert("a".to_string(), "4".to_string());
    assert_ne!(attributes, other);
}

#[test]
fn html_text_is_trimmed_and_empty_text_is_dropped() {
    let nodes = parse_html("<p>  a  <b> </b>  b\n</p>   ");
    assert_eq!(nodes.len(), 1);
    let p = element(&nodes[0]);
    assert_eq!(p.children.len(), 3);
    assert_eq!(p.children[0], Node::Text("a".to_string()));
    assert!(element(&p.children[1]).children.is_empty());
    assert_eq!(p.children[2], Node::Text("b".to_string()));
}

#[test]
fn html_mismatched_end_tag_closes_the_open_element() {
    let nodes = parse_html("<div><span>a</div>b</span>c");
    assert_eq!(nodes.len(), 3);
    let div = element(&nodes[0]);
    assert_eq!(div.tag_name, "div");
    let span = element(&div.children[0]);
    assert_eq!(span.children, vec![Node::Text("a".to_string())]);
    assert_eq!(nodes[1], Node::Text("b".to_string()));
    assert_eq!(nodes[2], Node::Text("c".to_string()));
}

#[test]
fn html_end_tag_matches_by_exact_name() {
    let nodes = parse_html("<DIV>a</div>b");
    assert_eq!(nodes.len(), 2);
    assert_eq!(element(&nodes[0]).children, vec![Node::Text("a".to_string())]);
    assert_eq!(nodes[1], Node::Text("b".to_string()));
}

#[test]
fn html_stray_tokens_at_the_top_are_passed_over() {
    assert_eq!(parse_html("</div>"), vec![]);
    assert_eq!(parse_html("</a></b><!DOCTYPE x>  "), vec![]);
    let nodes = parse_html("</a>x<!DOCTYPE y><!--c--></b><p></p>");
    assert_eq!(nodes.len(), 3);
    assert_eq!(nodes[0], Node::Text("x".to_string()));
    assert_eq!(nodes[1], Node::Comment("c".to_string()));
    assert_eq!(element(&nodes[2]).tag_name, "p");
}

#[test]
fn html_doctype_and_comment_inside_an_element() {
    let nodes = parse_html("<p><!DOCTYPE x><!-- c -->t</p>");
    let p = element(&nodes[0]);
    assert_eq!(
        p.children,
        vec![Node::Comment(" c ".to_string()), Node::Text("t".to_string())]
    );
}

#[test]
fn html_unclosed_elements_end_with_the_input() {
    let nodes = parse_html("<a><b><c>deep");
    assert_eq!(nodes.len(), 1);
    let a = element(&nodes[0]);
    let b = element(&a.children[0]);
    let c = element(&b.children[0]);
    assert_eq!(c.children, vec![Node::Text("deep".to_string())]);
}

#[test]
fn html_parser_reads_given_tokens() {
    let tokens = vec![
        start("ul", &[("id", "l")], false),
        start("li", &[], false),
        text(" one "),
        end("li"),
        start("br", &[], false),
        HtmlToken::Comment("c".to_string()),
        end("ul"),
    ];
    let mut parser = HtmlParser::from_tokens(tokens);
    let nodes = parser.parse();
    assert_eq!(nodes.len(), 1);
    let ul = element(&nodes[0]);
    assert_eq!(ul.attributes.get("id"), Some(&"l".to_string()));
    assert_eq!(ul.children.len(), 3);
    assert_eq!(element(&ul.children[0]).children, vec![Node::Text("one".to_string())]);
    assert!(element(&ul.children[1]).children.is_empty());
    assert_eq!(ul.children[2], Node::Comment("c".to_string()));
}

#[test]
fn html_nodes_can_be_copied_and_compared() {
    let nodes = parse_html(r#"<div a="1" b="2"><p>x</p><!-- c --></div>"#);
    let copy = nodes.clone();
    assert_eq!(copy, nodes);
    let other = parse_html(r#"<div b="2" a="1"><p>x</p><!-- c --></div>"#);
    assert_eq!(other, nodes);
    let different = parse_html(r#"<div a="1" b="2"><p>y</p><!-- c --></div>"#);
    assert_ne!(different, nodes);
    let tokens = tokenize_html(r#"<div a="1">x</div>"#);
    assert_eq!(tokens.clone(), tokens);
}

// ---- the CSS tokenizer ----

#[test]
fn css_tokens_of_every_kind() {
    assert_eq!(
        tokenize_css("a{b:c;}"),
        vec![
            CssToken::Ident("a".to_string()),
            CssToken::LeftBrace,
            CssToken::Ident("b".to_string()),
            CssToken::Colon,
            CssToken::Ident("c".to_string()),
            CssToken::Semicolon,
            CssToken::RightBrace,
        ]
    );
    assert_eq!(
        tokenize_css("()[],"),
        vec![
            CssToken::LeftParen,
            CssToken::RightParen,
            CssToken::LeftBracket,
            CssToken::RightBracket,
            CssToken::Comma,
        ]
    );
    assert_eq!(
        tokenize_css("#id @media -x _y >\u{a0}"),
        vec![
            CssToken::Hash("id".to_string()),
            CssToken::Whitespace,
            CssToken::AtKeyword("media".to_string()),
            CssToken::Whitespace,
            CssToken::Ident("-x".to_string()),
            CssToken::Whitespace,
            CssToken::Ident("_y".to_string()),
            CssToken::Whitespace,
            CssToken::Delim('>'),
            CssToken::Delim('\u{a0}'),
        ]
    );
}

#[test]
fn css_tokenizer_ends_with_none() {
    let mut tokenizer = CssTokenizer::new("a ");
    assert_eq!(tokenizer.next_token(), Some(CssToken::Ident("a".to_string())));
    assert_eq!(tokenizer.next_token(), Some(CssToken::Whitespace));
    assert_eq!(tokenizer.next_token(), None);
    assert_eq!(tokenizer.next_token(), None);
    assert_eq!(tokenize_css(""), vec![]);
}

#[test]
fn css_whitespace_is_one_token_for_one_run() {
    assert_eq!(tokenize_css(" \t\r\n\u{2003} "), vec![CssToken::Whitespace]);
    assert_eq!(
        tokenize_css("a \n b"),
        vec![
            CssToken::Ident("a".to_string()),
            CssToken::Whitespace,
            CssToken::Ident("b".to_string())
        ]
    );
}

#[test]
fn css_numbers() {
    assert_eq!(
        tokenize_css("100px 50% 0.5 1.2.3 7é 3-4"),
        vec![
            CssToken::Dimension { value: "100".to_string(), unit: "px".to_string() },
            CssToken::Whitespace,
            CssToken::Percentage("50".to_string()),
            CssToken::Whitespace,
            CssToken::Number("0.5".to_string()),
            CssToken::Whitespace,
            CssToken::Number("1.2.3".to_string()),
            CssToken::Whitespace,
            CssToken::Dimension { value: "7".to_string(), unit: "é".to_string() },
            CssToken::Whitespace,
            CssToken::Number("3".to_string()),
            CssToken::Ident("-4".to_string()),
        ]
    );
}

#[test]
fn css_strings_and_escapes() {
    assert_eq!(
        tokenize_css(r#""a\"b" 'c\\d' "e'f" 'open"#),
        vec![
            CssToken::String("a\"b".to_string()),
            CssToken::Whitespace,
            CssToken::String("c\\d".to_string()),
            CssToken::Whitespace,
            CssToken::String("e'f".to_string()),
            CssToken::Whitespace,
            CssToken::String("open".to_string()),
        ]
    );
    assert_eq!(tokenize_css("'a\\"), vec![CssToken::String("a".to_string())]);
    assert_eq!(tokenize_css("\"\\41\""), vec![CssToken::String("41".to_string())]);
}

#[test]
fn css_comments() {
    assert_eq!(
        tokenize_css("/* a */b/**/ /*/ c"),
        vec![
            CssToken::Comment(" a ".to_string()),
            CssToken::Ident("b".to_string()),
            CssToken::Comment("".to_string()),
            CssToken::Whitespace,
            CssToken::Comment("/ c".to_string()),
        ]
    );
    assert_eq!(tokenize_css("/"), vec![CssToken::Delim('/')]);
    assert_eq!(tokenize_css("/*"), vec![CssToken::Comment("".to_string())]);
    assert_eq!(tokenize_css("/* a *"), vec![CssToken::Comment(" a *".to_string())]);
}

#[test]
fn css_tokenizing_twice_gives_equal_tokens() {
    let input = "@media x { .a, #b > c { d: 1.50em \"s\" !important; } } /* e */";
    assert_eq!(tokenize_css(input), tokenize_css(input));
    assert_eq!(CssTokenizer::new(input).collect(), tokenize_css(input));
}

#[test]
fn css_tokens_tile_the_text() {
    let input = "@media x { .a, #b > c { d: 1.50em \"s\\\"t\" 'u' 5% !important; } } /* é */ ";
    let length = input.chars().count();
    let mut tokenizer = CssTokenizer::new(input);
    let mut spans = Vec::new();
    loop {
        let from = tokenizer.position();
        match tokenizer.next_token() {
            Some(_) => spans.push((from, tokenizer.position())),
            None => break,
        }
    }
    assert_eq!(spans.len(), tokenize_css(input).len());
    assert_eq!(spans[0].0, 0);
    assert_eq!(spans[spans.len() - 1].1, length);
    for span in &spans {
        assert!(span.0 < span.1);
    }
    for pair in spans.windows(2) {
        assert_eq!(pair[0].1, pair[1].0);
    }
    let chars: Vec<char> = input.chars().collect();
    let covered: String = spans.iter().map(|s| chars[s.0..s.1].iter().collect::<String>()).collect();
    assert_eq!(covered, input);
}

#[test]
fn css_tokens_give_back_plain_source() {
    let input = "a{b:c;d:#e f,g(h)[i]}";
    let mut source = String::new();
    for token in tokenize_css(input) {
        match token {
            CssToken::Ident(s) => source.push_str(&s),
            CssToken::Hash(s) => {
                source.push('#');
                source.push_str(&s);
            }
            CssToken::Delim(c) => source.push(c),
            CssToken::LeftParen => source.push('('),
            CssToken::RightParen => source.push(')'),
            CssToken::LeftBrace => source.push('{'),
            CssToken::RightBrace => source.push('}'),
            CssToken::LeftBracket => source.push('['),
            CssToken::RightBracket => source.push(']'),
            CssToken::Comma => source.push(','),
            CssToken::Colon => source.push(':'),
            CssToken::Semicolon => source.push(';'),
            CssToken::Whitespace => source.push(' '),
            other => panic!("unexpected token {:?}", other),
        }
    }
    assert_eq!(source, input);
}

// ---- numerals ----

#[test]
fn decimal_text_of_numerals() {
    for (numeral, text) in [
        ("0", "0"),
        ("16", "16"),
        ("007", "7"),
        ("000", "0"),
        ("0.5", "0.5"),
        ("0.50", "0.5"),
        ("1.", "1"),
        ("1.0", "1"),
        ("10.010", "10.01"),
        ("100", "100"),
        ("0.000", "0"),
        ("1.2.3", "0"),
        ("1..", "0"),
        ("3.14159", "3.14159"),
    ] {
        assert_eq!(to_decimal_text(numeral), text, "{}", numeral);
        let value: f64 = numeral.parse().unwrap_or(0.0);
        assert_eq!(value.to_string(), text, "{}", numeral);
    }
    for numeral in ["123456789.012345", "999999999999999", "0.000000000000001", "100000000000000000000"] {
        let value: f64 = numeral.parse().unwrap_or(0.0);
        assert_eq!(to_decimal_text(numeral), value.to_string(), "{}", numeral);
    }
    assert_eq!(to_decimal_text("0.12345678901234567890"), "0.1234567890123456789");
    assert_eq!(to_decimal_text("12345678901234567890123"), "12345678901234567890123");
    assert_eq!(to_decimal_text(""), "0");
    assert_eq!(to_decimal_text("."), "0");
    assert_eq!(to_decimal_text(".5"), "0.5");
    assert_eq!(to_decimal_text("1e5"), "0");
}

// ---- the CSS parser ----

#[test]
fn css_class_rule_with_two_declarations() {
    let rules = parse_css(".box { color: red; font-size: 14px; }");
    assert_eq!(
        rules,
        vec![Rule {
            selectors: vec![Selector::Class("box".to_string())],
            declarations: vec![
                declaration("color", "red", false),
                declaration("font-size", "14px", false)
            ],
        }]
    );
}

#[test]
fn css_two_selectors_in_one_rule() {
    let rules = parse_css("h1, h2 { font-weight: bold; }");
    assert_eq!(rules.len(), 1);
    assert_eq!(
        rules[0].selectors,
        vec![Selector::Type("h1".to_string()), Selector::Type("h2".to_string())]
    );
}

#[test]
fn css_important_is_not_part_of_the_value() {
    let rules = parse_css("p { color: red !important; }");
    assert_eq!(rules[0].declarations, vec![declaration("color", "red", true)]);
    let rules = parse_css("p { color: !important red; margin: 0 ! 1 !x; }");
    assert_eq!(
        rules[0].declarations,
        vec![declaration("color", "red", true), declaration("margin", "0 1 x", false)]
    );
}

#[test]
fn css_value_texts() {
    let rules = parse_css(
        "a { b: url(\"i.jpg\") no-repeat; c: 0 2px 50% #fff 1.50 rgba(0, 0, 0, 0.10); d: 'x'; e: ; f: >; g:\u{a0}h\u{a0}; i: \u{a0} j }",
    );
    assert_eq!(
        rules[0].declarations,
        vec![
            declaration("b", "url \"i.jpg\" no-repeat", false),
            declaration("c", "0 2px 50% #fff 1.5 rgba 0 0 0 0.1", false),
            declaration("d", "\"x\"", false),
            declaration("e", "", false),
            declaration("f", ">", false),
            declaration("g", "h", false),
            declaration("i", "j", false),
        ]
    );
    let rules = parse_css("a { b:\u{a0}}");
    assert_eq!(rules[0].declarations, vec![declaration("b", "\u{a0}", false)]);
}

#[test]
fn css_every_rule_has_a_selector() {
    for source in ["{ a: b; }", "a, { b: c }", "a b { c: d }", ". { a: b }", "@media x { a { b: c } }"] {
        for rule in parse_css(source) {
            assert!(!rule.selectors.is_empty(), "{}", source);
        }
    }
    assert_eq!(parse_css("{ a: b; }"), vec![]);
    assert_eq!(parse_css(""), vec![]);
    assert_eq!(parse_css("a"), vec![]);
}

#[test]
fn css_selectors() {
    let rules = parse_css("* {} #i {} .c {} t {}");
    let selectors: Vec<Selector> = rules.iter().map(|r| r.selectors[0].clone()).collect();
    assert_eq!(
        selectors,
        vec![
            Selector::Universal,
            Selector::Id("i".to_string()),
            Selector::Class("c".to_string()),
            Selector::Type("t".to_string()),
        ]
    );
    assert!(rules.iter().all(|r| r.declarations.is_empty()));
}

#[test]
fn css_unknown_tokens_are_passed_over() {
    let rules = parse_css("} ; a { b: c } ) d { e: f }");
    assert_eq!(rules.len(), 2);
    assert_eq!(rules[0].selectors, vec![Selector::Type("a".to_string())]);
    assert_eq!(rules[1].selectors, vec![Selector::Type("d".to_string())]);
    assert_eq!(parse_css("a b { c: d }"), vec![]);
    let rules = parse_css("a b c { d: e }");
    assert_eq!(rules.len(), 1);
    assert_eq!(rules[0].selectors, vec![Selector::Type("c".to_string())]);
}

#[test]
fn css_declaration_without_colon_is_dropped() {
    let rules = parse_css("a { b c: d; e: f; }");
    assert_eq!(rules[0].declarations, vec![declaration("e", "f", false)]);
    let rules = parse_css("a { b; c: d }");
    assert_eq!(rules[0].declarations, vec![declaration("c", "d", false)]);
}

#[test]
fn css_rule_without_closing_brace() {
    let rules = parse_css("a { b: c");
    assert_eq!(
        rules,
        vec![Rule {
            selectors: vec![Selector::Type("a".to_string())],
            declarations: vec![declaration("b", "c", false)],
        }]
    );
    let rules = parse_css("a { b: c } d { e: f; g: h");
    assert_eq!(rules.len(), 2);
    assert_eq!(
        rules[1].declarations,
        vec![declaration("e", "f", false), declaration("g", "h", false)]
    );
}

#[test]
fn css_parser_reads_given_tokens() {
    let tokens = vec![
        CssToken::Whitespace,
        CssToken::Delim('.'),
        CssToken::Ident("a".to_string()),
        CssToken::Comma,
        CssToken::Whitespace,
        CssToken::Hash("b".to_string()),
        CssToken::LeftBrace,
        CssToken::Ident("w".to_string()),
        CssToken::Colon,
        CssToken::Dimension { value: "010.50".to_string(), unit: "em".to_string() },
        CssToken::Whitespace,
        CssToken::Percentage("05".to_string()),
        CssToken::Number("1.2.3".to_string()),
        CssToken::RightBrace,
    ];
    let mut parser = CssParser::from_tokens(tokens);
    assert_eq!(
        parser.parse(),
        vec![Rule {
            selectors: vec![Selector::Class("a".to_string()), Selector::Id("b".to_string())],
            declarations: vec![declaration("w", "10.5em 5% 0", false)],
        }]
    );
    assert_eq!(parser.parse(), vec![]);
}

#[test]
fn css_values_can_be_copied() {
    let rules = parse_css("a, .b { c: d !important }");
    assert_eq!(rules.clone(), rules);
    let tokens = tokenize_css("a 1px 'x'");
    assert_eq!(tokens.clone(), tokens);
    let nested = Selector::Child(
        Box::new(Selector::Type("a".to_string())),
        Box::new(Selector::Descendant(
            Box::new(Selector::Universal),
            Box::new(Selector::Id("b".to_string())),
        )),
    );
    assert_eq!(nested.clone(), nested);
}
