//! The body restructurer: wraps all of a document body's content in the
//! two-level layout scaffold that the target device expects.
use vstd::prelude::*;
use crate::errors::ConverterError;
use crate::node::{
    Element, Node, VElem, VNode, attrs_view, children_view, elem_view, node_view,
    lemma_children_view_push, str_eq,
};

verus! {

/// The position of the first direct child that is an element with this
/// name.
pub open spec fn find_child_named(s: Seq<VNode>, name: Seq<char>) -> Option<int>
    decreases s.len(),
{
    if s.len() == 0 {
        None
    } else if (s[0] matches VNode::Element(e) && e.name == name) {
        Some(0)
    } else {
        match find_child_named(s.subrange(1, s.len() as int), name) {
            Some(k) => Some(k + 1),
            None => None,
        }
    }
}

/// The scaffold around a body's original content: an outer `book-columns`
/// wrapper holding an inner `book-inner` wrapper holding everything the
/// body held, in original order.
pub open spec fn scaffold(body: VElem) -> VElem {
    VElem {
        name: body.name,
        attributes: body.attributes,
        children: seq![
            VNode::Element(
                VElem {
                    name: "div"@,
                    attributes: seq![("id"@, "book-columns"@)],
                    children: seq![
                        VNode::Element(
                            VElem {
                                name: "div"@,
                                attributes: seq![("id"@, "book-inner"@)],
                                children: body.children,
                            },
                        ),
                    ],
                },
            ),
        ],
    }
}

/// Wraps the content of the document's body in the layout scaffold: the
/// body's first occurrence among the root's direct children is replaced
/// by the same body whose children are the single outer wrapper. A
/// document without a direct `body` child is refused unchanged.
pub fn restructure_body(root: &mut Element) -> (r: Result<(), ConverterError>)
    ensures
        match r {
            Ok(()) => {
                let kids = children_view(old(root).children@);
                &&& find_child_named(kids, "body"@) is Some
                &&& {
                    let i = find_child_named(kids, "body"@)->Some_0;
                    &&& final(root).name == old(root).name
                    &&& attrs_view(final(root).attributes@) == attrs_view(old(root).attributes@)
                    &&& children_view(final(root).children@) == kids.update(
                        i,
                        VNode::Element(scaffold(kids[i]->Element_0)),
                    )
                }
            },
            Err(e) => {
                &&& e == ConverterError::DocumentMalformed
                &&& find_child_named(children_view(old(root).children@), "body"@) is None
                &&& *final(root) == *old(root)
            },
        },
{
    let ghost kids = children_view(old(root).children@);
    let mut i: usize = 0;
    let n: usize = root.children.len();
    let mut found: bool = false;
    proof {
        assert(kids.subrange(0, kids.len() as int) =~= kids);
    }
    while i < n && !found
        invariant
            *root == *old(root),
            n == root.children@.len(),
            kids == children_view(root.children@),
            i <= n,
            !found ==> find_child_named(kids, "body"@) == match find_child_named(
                kids.subrange(i as int, kids.len() as int),
                "body"@,
            ) {
                Some(k) => Some(k + i),
                None => None::<int>,
            },
            found ==> i < n && find_child_named(kids, "body"@) == Some(i as int) && (
            kids[i as int] matches VNode::Element(e) && e.name == "body"@),
        decreases n - i + (if found {
            0int
        } else {
            1int
        }),
    {
        let ghost suffix = kids.subrange(i as int, kids.len() as int);
        proof {
            assert(suffix[0] == kids[i as int]);
            assert(suffix.subrange(1, suffix.len() as int) =~= kids.subrange(
                i + 1,
                kids.len() as int,
            ));
        }
        match &root.children[i] {
            Node::Element(e) => {
                if str_eq(e.name.as_str(), "body") {
                    found = true;
                } else {
                    i = i + 1;
                }
            },
            _ => {
                i = i + 1;
            },
        }
    }
    if !found {
        proof {
            assert(kids.subrange(i as int, kids.len() as int).len() == 0);
        }
        return Err(ConverterError::DocumentMalformed);
    }
    let node: Node = root.children.remove(i);
    match node {
        Node::Element(body) => {
            let Element { name, attributes, children } = body;
            let mut bk_inn: Element = Element::new("div");
            bk_inn.set_attr("id", "book-inner");
            bk_inn.children = children;
            let mut bk_col: Element = Element::new("div");
            bk_col.set_attr("id", "book-columns");
            let ghost col_kids = bk_col.children@;
            bk_col.children.push(Node::Element(bk_inn));
            proof {
                lemma_children_view_push(col_kids, bk_col.children@[0]);
            }
            let mut new_body_children: Vec<Node> = Vec::new();
            new_body_children.push(Node::Element(bk_col));
            let rebuilt = Element { name, attributes, children: new_body_children };
            proof {
                assert(children_view(rebuilt.children@) =~= seq![
                    node_view(rebuilt.children@[0]),
                ]);
                assert(attrs_view(bk_inn.attributes@) =~= seq![("id"@, "book-inner"@)]);
                assert(attrs_view(rebuilt.children@[0]->Element_0.attributes@) =~= seq![
                    ("id"@, "book-columns"@),
                ]);
                assert(elem_view(rebuilt) == scaffold(kids[i as int]->Element_0));
            }
            root.children.insert(i, Node::Element(rebuilt));
            proof {
                assert(children_view(root.children@) =~= kids.update(
                    i as int,
                    VNode::Element(scaffold(kids[i as int]->Element_0)),
                ));
            }
            Ok(())
        },
        _ => {
            proof {
                assert(false);
            }
            Err(ConverterError::DocumentMalformed)
        },
    }
}

} // verus!
