use kepub::errors::ConverterError;
use kepub::node::{Element, Node};
use kepub::restructure::restructure_body;
use kepub::spans::convert_kobo_spans;

fn node_eq(a: &Node, b: &Node) -> bool {
    match (a, b) {
        (Node::Element(x), Node::Element(y)) => {
            x.name == y.name && x.attributes == y.attributes && x.children.len()
                == y.children.len() && x.children.iter().zip(y.children.iter()).all(
                |(c, d)| node_eq(c, d),
            )
        },
        (Node::Text(x), Node::Text(y)) => x == y,
        (Node::Other, Node::Other) => true,
        _ => false,
    }
}

fn text_p(text: &str) -> Element {
    let mut p = Element::new("p");
    p.children.push(Node::Text(text.to_string()));
    p
}

fn single_element(children: &[Node]) -> &Element {
    assert_eq!(children.len(), 1);
    match &children[0] {
        Node::Element(e) => e,
        _ => panic!("expected an element"),
    }
}

fn attr<'a>(e: &'a Element, key: &str) -> &'a String {
    e.get_attr(key).expect("attribute present")
}

#[test]
fn test_scaffold_structure() {
    let mut root = Element::new("html");
    let mut body = Element::new("body");
    body.children.push(Node::Element(text_p("One.")));
    body.children.push(Node::Text("loose".to_string()));
    root.children.push(Node::Element(body));

    assert!(restructure_body(&mut root).is_ok());
    let body = single_element(&root.children);
    assert_eq!(body.name, "body");
    let outer = single_element(&body.children);
    assert_eq!(outer.name, "div");
    assert_eq!(attr(outer, "id"), "book-columns");
    let inner = single_element(&outer.children);
    assert_eq!(inner.name, "div");
    assert_eq!(attr(inner, "id"), "book-inner");
    assert_eq!(inner.children.len(), 2);
    match &inner.children[0] {
        Node::Element(p) => assert_eq!(p.name, "p"),
        _ => panic!("expected the original paragraph first"),
    }
    match &inner.children[1] {
        Node::Text(t) => assert_eq!(t, "loose"),
        _ => panic!("expected the original text second"),
    }
}

#[test]
fn test_restructure_without_body_fails() {
    let mut root = Element::new("html");
    root.children.push(Node::Element(Element::new("head")));
    let err = restructure_body(&mut root).unwrap_err();
    assert_eq!(err, ConverterError::DocumentMalformed);
}

#[test]
fn test_image_example() {
    // A bare img as the only body content, restructured and converted.
    let mut root = Element::new("html");
    let mut body = Element::new("body");
    body.children.push(Node::Element(Element::new("img")));
    root.children.push(Node::Element(body));

    assert!(restructure_body(&mut root).is_ok());
    match &mut root.children[0] {
        Node::Element(body) => convert_kobo_spans(body),
        _ => panic!("expected the body"),
    }

    let body = single_element(&root.children);
    let outer = single_element(&body.children);
    assert_eq!(attr(outer, "id"), "book-columns");
    let inner = single_element(&outer.children);
    assert_eq!(attr(inner, "id"), "book-inner");
    let span = single_element(&inner.children);
    assert_eq!(span.name, "span");
    assert_eq!(attr(span, "class"), "kobospan");
    assert_eq!(attr(span, "id"), "kobo.1.0");
    let img = single_element(&span.children);
    assert_eq!(img.name, "img");
    assert!(img.children.is_empty());
}

#[test]
fn test_sentence_markers_and_paragraph_numbering() {
    let mut body = Element::new("body");
    body.children.push(Node::Element(text_p("One. Two here.")));
    body.children.push(Node::Element(text_p("Three.")));
    convert_kobo_spans(&mut body);

    // Each paragraph is kept; its text is wrapped sentence by sentence.
    assert_eq!(body.children.len(), 2);
    let p1 = match &body.children[0] {
        Node::Element(e) => e,
        _ => panic!("expected p"),
    };
    let ids1: Vec<String> = p1.children.iter().map(|c| match c {
        Node::Element(s) => attr(s, "id").clone(),
        _ => panic!("expected spans"),
    }).collect();
    assert_eq!(ids1, vec!["kobo.1.1".to_string(), "kobo.1.2".to_string()]);
    let p2 = match &body.children[1] {
        Node::Element(e) => e,
        _ => panic!("expected p"),
    };
    let ids2: Vec<String> = p2.children.iter().map(|c| match c {
        Node::Element(s) => attr(s, "id").clone(),
        _ => panic!("expected spans"),
    }).collect();
    assert_eq!(ids2, vec!["kobo.2.1".to_string()]);
}

#[test]
fn test_conversion_is_idempotent() {
    let mut body = Element::new("body");
    body.children.push(Node::Element(text_p("One. Two here.")));
    body.children.push(Node::Element(Element::new("img")));
    convert_kobo_spans(&mut body);
    let first = Node::Element(kepub::node::clone_element(&body));
    convert_kobo_spans(&mut body);
    assert!(node_eq(&first, &Node::Element(body)));
}

#[test]
fn test_math_and_svg_are_dropped() {
    let mut body = Element::new("body");
    let mut math = Element::new("math");
    math.children.push(Node::Text("x + y".to_string()));
    body.children.push(Node::Element(math));
    let mut svg = Element::new("svg");
    svg.children.push(Node::Element(Element::new("circle")));
    body.children.push(Node::Element(svg));
    body.children.push(Node::Element(text_p("Kept.")));
    convert_kobo_spans(&mut body);

    fn has_named(n: &Node, name: &str) -> bool {
        match n {
            Node::Element(e) => e.name == name || e.children.iter().any(|c| has_named(c, name)),
            _ => false,
        }
    }
    let as_node = Node::Element(body);
    assert!(!has_named(&as_node, "math"));
    assert!(!has_named(&as_node, "svg"));
    assert!(!has_named(&as_node, "circle"));
    assert!(has_named(&as_node, "p"));
}

#[test]
fn test_whitespace_text_outside_p_is_dropped() {
    let mut body = Element::new("body");
    body.children.push(Node::Text("   ".to_string()));
    let mut p = Element::new("p");
    p.children.push(Node::Text(" ".to_string()));
    body.children.push(Node::Element(p));
    convert_kobo_spans(&mut body);

    // The loose whitespace vanished; the whitespace inside p was wrapped.
    assert_eq!(body.children.len(), 1);
    let p = single_element(&body.children);
    let span = single_element(&p.children);
    assert_eq!(attr(span, "class"), "kobospan");
    assert_eq!(attr(span, "id"), "kobo.1.1");
}

#[test]
fn test_forest_weight_small_tree() {
    let mut body = Element::new("body");
    body.children.push(Node::Element(text_p("Hi.")));
    // The paragraph counts 2, its three-character text 2*3+2.
    assert_eq!(kepub::spans::forest_weight(&body.children), Some(10));
}

#[test]
fn test_heading_quirk_matches_any_two_letter_h_name() {
    // The break rule catches any two-character name starting with h.
    let mut body = Element::new("body");
    let mut hx = Element::new("hr");
    hx.children.push(Node::Text("inside".to_string()));
    body.children.push(Node::Element(hx));
    convert_kobo_spans(&mut body);
    let hx = single_element(&body.children);
    assert_eq!(hx.name, "hr");
    let span = single_element(&hx.children);
    assert_eq!(attr(span, "id"), "kobo.1.1");
}

#[test]
fn test_conversion_of_markerless_body_is_idempotent() {
    // A body whose rewrite emits no marker at all: the second pass runs
    // the rewrite again and still changes nothing.
    let mut body = Element::new("body");
    let mut div = Element::new("div");
    div.children.push(Node::Element(Element::new("br")));
    body.children.push(Node::Element(div));
    convert_kobo_spans(&mut body);
    let first = Node::Element(kepub::node::clone_element(&body));
    convert_kobo_spans(&mut body);
    assert!(node_eq(&first, &Node::Element(body)));
}
