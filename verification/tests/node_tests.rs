use kepub::node::{clone_node, Element, Node};

fn elem(id: &str) -> Element {
    let mut e = Element::new("child");
    e.set_attr("id", id);
    e
}

fn get_id(e: &Element) -> String {
    e.get_attr("id").expect("id attribute").clone()
}

#[test]
fn test_iter() {
    const ORDER: [&str; 9] = [
        "root",
        "c1",
        "c1-gc1",
        "c1-gc2",
        "c2",
        "c3",
        "c3-gc1",
        "c3-gc2",
        "c3-gc2-ggc1",
    ];

    let mut root = Element::new("root");
    root.set_attr("id", "root");

    let mut c1 = elem("c1");
    c1.children.push(Node::Element(elem("c1-gc1")));
    c1.children.push(Node::Element(elem("c1-gc2")));

    let mut c2 = elem("c2");
    c2.children.push(Node::Text("Hi".to_string()));

    let mut c3 = elem("c3");
    c3.children.push(Node::Element(elem("c3-gc1")));
    let mut gc2 = elem("c3-gc2");
    gc2.children.push(Node::Element(elem("c3-gc2-ggc1")));
    c3.children.push(Node::Element(gc2));

    root.children.push(Node::Element(c1));
    root.children.push(Node::Element(c2));
    root.children.push(Node::Element(c3));

    for (i, d) in root.descendants().iter().enumerate() {
        let id = get_id(d);
        assert_eq!(id, ORDER[i]);
    }
    assert_eq!(root.descendants().len(), ORDER.len());
}

#[test]
fn test_set_attr_overwrites_in_place() {
    let mut e = Element::new("item");
    e.set_attr("id", "cover");
    e.set_attr("href", "cover.jpg");
    e.set_attr("id", "other");
    assert_eq!(e.attributes.len(), 2);
    assert_eq!(e.attributes[0], ("id".to_string(), "other".to_string()));
    assert_eq!(e.get_attr("href").unwrap(), "cover.jpg");
}

#[test]
fn test_get_attr_absent() {
    let e = Element::new("item");
    assert!(e.get_attr("id").is_none());
}

#[test]
fn test_clone_node_is_deep() {
    let mut e = Element::new("p");
    e.set_attr("class", "x");
    e.children.push(Node::Text("hello".to_string()));
    let copy = clone_node(&Node::Element(e));
    match copy {
        Node::Element(c) => {
            assert_eq!(c.name, "p");
            assert_eq!(c.attributes, vec![("class".to_string(), "x".to_string())]);
            assert_eq!(c.children.len(), 1);
            match &c.children[0] {
                Node::Text(t) => assert_eq!(t, "hello"),
                _ => panic!("expected a text child"),
            }
        },
        _ => panic!("expected an element"),
    }
}
