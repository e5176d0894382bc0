//! The document tree model: elements with ordered attributes and children,
//! text nodes, and an opaque kind for comments and processing instructions.
//! Contracts speak of the ghost mirror (`VNode`, `VElem`) of the tree.
use vstd::prelude::*;

verus! {

/// An element of a document tree: a tag name, its attributes in insertion
/// order, and its child nodes in reading order.
pub struct Element {
    pub name: String,
    pub attributes: Vec<(String, String)>,
    pub children: Vec<Node>,
}

/// One node of a document tree.
pub enum Node {
    Element(Element),
    Text(String),
    Other,
}

/// Ghost mirror of an element: everything as mathematical sequences.
pub struct VElem {
    pub name: Seq<char>,
    pub attributes: Seq<(Seq<char>, Seq<char>)>,
    pub children: Seq<VNode>,
}

/// Ghost mirror of a node.
pub enum VNode {
    Element(VElem),
    Text(Seq<char>),
    Other,
}

/// The ghost mirror of an attribute list.
pub open spec fn attrs_view(attrs: Seq<(String, String)>) -> Seq<(Seq<char>, Seq<char>)> {
    Seq::new(attrs.len(), |i: int| (attrs[i].0@, attrs[i].1@))
}

/// The ghost mirror of a child list.
pub open spec fn children_view(s: Seq<Node>) -> Seq<VNode>
    decreases s,
{
    Seq::new(
        s.len(),
        |i: int|
            if 0 <= i < s.len() {
                node_view(s[i])
            } else {
                VNode::Other
            },
    )
}

/// The ghost mirror of an element.
pub open spec fn elem_view(e: Element) -> VElem
    decreases e,
{
    VElem { name: e.name@, attributes: attrs_view(e.attributes@), children: children_view(
        e.children@,
    ) }
}

/// The ghost mirror of a node.
pub open spec fn node_view(n: Node) -> VNode
    decreases n,
{
    match n {
        Node::Element(e) => VNode::Element(elem_view(e)),
        Node::Text(t) => VNode::Text(t@),
        Node::Other => VNode::Other,
    }
}

/// An attribute list is well formed when no key occurs twice.
pub open spec fn vattrs_wf(attrs: Seq<(Seq<char>, Seq<char>)>) -> bool {
    forall|i: int, j: int| 0 <= i < j < attrs.len() ==> attrs[i].0 != attrs[j].0
}

/// The value bound to `key`: the first matching entry wins.
pub open spec fn vattrs_get(attrs: Seq<(Seq<char>, Seq<char>)>, key: Seq<char>) -> Option<
    Seq<char>,
>
    decreases attrs.len(),
{
    if attrs.len() == 0 {
        None
    } else if attrs[0].0 == key {
        Some(attrs[0].1)
    } else {
        vattrs_get(attrs.subrange(1, attrs.len() as int), key)
    }
}

/// Insertion or overwrite of one attribute: the first entry with this key is
/// replaced in place; an absent key is appended at the end.
pub open spec fn vattrs_set(
    attrs: Seq<(Seq<char>, Seq<char>)>,
    key: Seq<char>,
    value: Seq<char>,
) -> Seq<(Seq<char>, Seq<char>)>
    decreases attrs.len(),
{
    if attrs.len() == 0 {
        seq![(key, value)]
    } else if attrs[0].0 == key {
        seq![(key, value)] + attrs.subrange(1, attrs.len() as int)
    } else {
        seq![attrs[0]] + vattrs_set(attrs.subrange(1, attrs.len() as int), key, value)
    }
}

/// A whole ghost subtree is well formed when every element in it has
/// well-formed attributes.
pub open spec fn vnode_wf(n: VNode) -> bool
    decreases n,
{
    match n {
        VNode::Element(e) => vattrs_wf(e.attributes) && (forall|i: int|
            0 <= i < e.children.len() ==> vnode_wf(#[trigger] e.children[i])),
        VNode::Text(_) => true,
        VNode::Other => true,
    }
}

/// Character-for-character string comparison; the workhorse behind every
/// tag- and attribute-name test.
pub fn str_eq(a: &str, b: &str) -> (r: bool)
    ensures
        r == (a@ == b@),
{
    let na: usize = a.unicode_len();
    let nb: usize = b.unicode_len();
    if na != nb {
        return false;
    }
    let mut i: usize = 0;
    while i < na
        invariant
            na == a@.len() == b@.len(),
            i <= na,
            forall|j: int| 0 <= j < i ==> a@[j] == b@[j],
        decreases na - i,
    {
        if a.get_char(i) != b.get_char(i) {
            return false;
        }
        i = i + 1;
    }
    proof {
        assert(a@ =~= b@);
    }
    true
}

impl Element {
    /// A fresh element with the given tag name and no attributes or children.
    pub fn new(name: &str) -> (r: Element)
        ensures
            elem_view(r) == (VElem {
                name: name@,
                attributes: Seq::<(Seq<char>, Seq<char>)>::empty(),
                children: Seq::<VNode>::empty(),
            }),
    {
        let e = Element { name: name.to_owned(), attributes: Vec::new(), children: Vec::new() };
        proof {
            assert(attrs_view(e.attributes@) =~= Seq::<(Seq<char>, Seq<char>)>::empty());
            assert(children_view(e.children@) =~= Seq::<VNode>::empty());
        }
        e
    }

    /// Looks an attribute up by key; the first matching entry wins.
    pub fn get_attr(&self, key: &str) -> (r: Option<&String>)
        ensures
            match r {
                Some(v) => vattrs_get(attrs_view(self.attributes@), key@) == Some(v@),
                None => vattrs_get(attrs_view(self.attributes@), key@) is None,
            },
    {
        let mut i: usize = 0;
        proof {
            assert(attrs_view(self.attributes@).subrange(0, self.attributes@.len() as int)
                =~= attrs_view(self.attributes@));
        }
        while i < self.attributes.len()
            invariant
                i <= self.attributes@.len(),
                vattrs_get(attrs_view(self.attributes@), key@) == vattrs_get(
                    attrs_view(self.attributes@).subrange(i as int, self.attributes@.len() as int),
                    key@,
                ),
            decreases self.attributes@.len() - i,
        {
            let ghost rest = attrs_view(self.attributes@).subrange(
                i as int,
                self.attributes@.len() as int,
            );
            if str_eq(self.attributes[i].0.as_str(), key) {
                proof {
                    assert(rest[0].0 == key@);
                }
                return Some(&self.attributes[i].1);
            }
            proof {
                assert(rest[0].0 != key@);
                assert(rest.subrange(1, rest.len() as int) =~= attrs_view(
                    self.attributes@,
                ).subrange(i + 1, self.attributes@.len() as int));
            }
            i = i + 1;
        }
        proof {
            assert(attrs_view(self.attributes@).subrange(
                i as int,
                self.attributes@.len() as int,
            ).len() == 0);
        }
        None
    }

    /// The position of the first entry with this key, if any.
    fn find_attr_index(&self, key: &str) -> (r: Option<usize>)
        ensures
            match r {
                Some(i) => i < self.attributes@.len() && attrs_view(self.attributes@)[i as int].0
                    == key@ && (forall|j: int|
                    0 <= j < i ==> attrs_view(self.attributes@)[j].0 != key@),
                None => forall|j: int|
                    0 <= j < self.attributes@.len() ==> attrs_view(self.attributes@)[j].0 != key@,
            },
    {
        let mut i: usize = 0;
        while i < self.attributes.len()
            invariant
                i <= self.attributes@.len(),
                forall|j: int| 0 <= j < i ==> attrs_view(self.attributes@)[j].0 != key@,
            decreases self.attributes@.len() - i,
        {
            if str_eq(self.attributes[i].0.as_str(), key) {
                return Some(i);
            }
            i = i + 1;
        }
        None
    }

    /// Inserts or overwrites one attribute, keeping insertion order: an
    /// existing key keeps its place, a new key goes to the end.
    pub fn set_attr(&mut self, key: &str, value: &str)
        ensures
            final(self).name == old(self).name,
            final(self).children == old(self).children,
            attrs_view(final(self).attributes@) == vattrs_set(
                attrs_view(old(self).attributes@),
                key@,
                value@,
            ),
    {
        let ghost orig = attrs_view(old(self).attributes@);
        let idx = self.find_attr_index(key);
        let k: String = key.to_owned();
        let v: String = value.to_owned();
        match idx {
            Some(i) => {
                proof {
                    lemma_vattrs_set_update(orig, key@, value@, i as int);
                }
                let _ = self.attributes.remove(i);
                self.attributes.insert(i, (k, v));
                proof {
                    assert(attrs_view(self.attributes@) =~= orig.update(i as int, (key@, value@)));
                }
            },
            None => {
                proof {
                    lemma_vattrs_set_append(orig, key@, value@);
                }
                self.attributes.push((k, v));
                proof {
                    assert(attrs_view(self.attributes@) =~= orig.push((key@, value@)));
                }
            },
        }
    }
}

/// Overwriting the first entry that carries the key updates exactly that
/// position.
proof fn lemma_vattrs_set_update(
    attrs: Seq<(Seq<char>, Seq<char>)>,
    key: Seq<char>,
    value: Seq<char>,
    i: int,
)
    requires
        0 <= i < attrs.len(),
        attrs[i].0 == key,
        forall|j: int| 0 <= j < i ==> attrs[j].0 != key,
    ensures
        vattrs_set(attrs, key, value) == attrs.update(i, (key, value)),
    decreases attrs.len(),
{
    if i == 0 {
        assert(seq![(key, value)] + attrs.subrange(1, attrs.len() as int) =~= attrs.update(
            0,
            (key, value),
        ));
    } else {
        let rest = attrs.subrange(1, attrs.len() as int);
        lemma_vattrs_set_update(rest, key, value, i - 1);
        assert(seq![attrs[0]] + rest.update(i - 1, (key, value)) =~= attrs.update(
            i,
            (key, value),
        ));
    }
}

/// Setting an absent key appends one entry at the end.
proof fn lemma_vattrs_set_append(attrs: Seq<(Seq<char>, Seq<char>)>, key: Seq<char>, value: Seq<
    char,
>)
    requires
        forall|j: int| 0 <= j < attrs.len() ==> attrs[j].0 != key,
    ensures
        vattrs_set(attrs, key, value) == attrs.push((key, value)),
    decreases attrs.len(),
{
    if attrs.len() == 0 {
        assert(seq![(key, value)] =~= attrs.push((key, value)));
    } else {
        let rest = attrs.subrange(1, attrs.len() as int);
        lemma_vattrs_set_append(rest, key, value);
        assert(seq![attrs[0]] + rest.push((key, value)) =~= attrs.push((key, value)));
    }
}


/// The ghost mirrors of a vector of elements.
pub open spec fn elems_view(s: Seq<Element>) -> Seq<VElem>
    decreases s,
{
    Seq::new(
        s.len(),
        |i: int|
            if 0 <= i < s.len() {
                elem_view(s[i])
            } else {
                elem_view(s[0])
            },
    )
}

/// All elements of the subtree rooted at `e`, in depth-first pre-order,
/// the root itself first.
pub open spec fn vdescendants(e: VElem) -> Seq<VElem>
    decreases e,
{
    seq![e] + vdescendants_forest(e.children)
}

/// All elements of a forest, in depth-first pre-order.
pub open spec fn vdescendants_forest(s: Seq<VNode>) -> Seq<VElem>
    decreases s,
{
    if s.len() == 0 {
        Seq::empty()
    } else {
        (match s[0] {
            VNode::Element(e) => vdescendants(e),
            _ => Seq::empty(),
        }) + vdescendants_forest(s.subrange(1, s.len() as int))
    }
}

proof fn lemma_vdescendants_forest_push(s: Seq<VNode>, x: VNode)
    ensures
        vdescendants_forest(s.push(x)) == vdescendants_forest(s) + (match x {
            VNode::Element(e) => vdescendants(e),
            _ => Seq::<VElem>::empty(),
        }),
    decreases s.len(),
{
    let from_x = match x {
        VNode::Element(e) => vdescendants(e),
        _ => Seq::<VElem>::empty(),
    };
    if s.len() == 0 {
        assert(s.push(x).subrange(1, 1) =~= Seq::<VNode>::empty());
        assert(vdescendants_forest(Seq::<VNode>::empty()) =~= Seq::<VElem>::empty());
        assert(vdescendants_forest(s.push(x)) =~= from_x);
        assert(vdescendants_forest(s) + from_x =~= from_x);
    } else {
        assert(s.push(x).subrange(1, s.len() as int + 1) =~= s.subrange(1, s.len() as int).push(x));
        lemma_vdescendants_forest_push(s.subrange(1, s.len() as int), x);
        let head = match s[0] {
            VNode::Element(e) => vdescendants(e),
            _ => Seq::<VElem>::empty(),
        };
        assert(head + (vdescendants_forest(s.subrange(1, s.len() as int)) + from_x) =~= (head
            + vdescendants_forest(s.subrange(1, s.len() as int))) + from_x);
    }
}

/// A deep copy of a node; the copy mirrors the original exactly.
pub fn clone_node(n: &Node) -> (r: Node)
    ensures
        node_view(r) == node_view(*n),
    decreases n,
{
    match n {
        Node::Element(e) => Node::Element(clone_element(e)),
        Node::Text(t) => Node::Text(t.clone()),
        Node::Other => Node::Other,
    }
}

/// A copy of an attribute list; the copy mirrors the original exactly.
pub fn clone_attrs(src: &Vec<(String, String)>) -> (r: Vec<(String, String)>)
    ensures
        attrs_view(r@) == attrs_view(src@),
{
    let mut attributes: Vec<(String, String)> = Vec::new();
    let mut i: usize = 0;
    while i < src.len()
        invariant
            i <= src@.len(),
            attrs_view(attributes@) == attrs_view(src@).subrange(0, i as int),
        decreases src@.len() - i,
    {
        let k: String = src[i].0.clone();
        let v: String = src[i].1.clone();
        let ghost before = attributes@;
        let ghost p = (k, v);
        attributes.push((k, v));
        proof {
            lemma_attrs_view_push(before, p);
            assert(attrs_view(before).push((p.0@, p.1@)) =~= attrs_view(src@).subrange(
                0,
                i + 1,
            ));
        }
        i = i + 1;
    }
    proof {
        assert(attrs_view(src@).subrange(0, src@.len() as int) =~= attrs_view(src@));
    }
    attributes
}

/// A deep copy of an element; the copy mirrors the original exactly.
pub fn clone_element(e: &Element) -> (r: Element)
    ensures
        elem_view(r) == elem_view(*e),
    decreases e,
{
    let name: String = e.name.clone();
    let attributes: Vec<(String, String)> = clone_attrs(&e.attributes);
    let mut children: Vec<Node> = Vec::new();
    let mut j: usize = 0;
    while j < e.children.len()
        invariant
            j <= e.children@.len(),
            children_view(children@) == children_view(e.children@).subrange(0, j as int),
        decreases e.children@.len() - j,
    {
        let c: Node = clone_node(&e.children[j]);
        let ghost before = children@;
        let ghost cg = c;
        children.push(c);
        proof {
            lemma_children_view_push(before, cg);
            assert(children_view(before).push(node_view(cg)) =~= children_view(
                e.children@,
            ).subrange(0, j + 1));
        }
        j = j + 1;
    }
    let r = Element { name, attributes, children };
    proof {
        assert(attrs_view(r.attributes@) =~= attrs_view(e.attributes@));
        assert(children_view(r.children@) =~= children_view(e.children@));
    }
    r
}

impl Element {
    /// All elements of this subtree as fresh copies, in depth-first
    /// pre-order, this element itself first.
    pub fn descendants(&self) -> (r: Vec<Element>)
        ensures
            elems_view(r@) == vdescendants(elem_view(*self)),
        decreases self,
    {
        let mut out: Vec<Element> = Vec::new();
        let me: Element = clone_element(self);
        out.push(me);
        proof {
            assert(children_view(self.children@).subrange(0, 0) =~= Seq::<VNode>::empty());
            assert(elems_view(out@) =~= seq![elem_view(*self)] + vdescendants_forest(
                children_view(self.children@).subrange(0, 0),
            ));
        }
        let mut i: usize = 0;
        while i < self.children.len()
            invariant
                i <= self.children@.len(),
                elems_view(out@) == seq![elem_view(*self)] + vdescendants_forest(
                    children_view(self.children@).subrange(0, i as int),
                ),
            decreases self.children@.len() - i,
        {
            let ghost prefix = children_view(self.children@).subrange(0, i as int);
            let ghost before = out@;
            match &self.children[i] {
                Node::Element(c) => {
                    let mut sub: Vec<Element> = c.descendants();
                    let ghost subv = sub@;
                    out.append(&mut sub);
                    proof {
                        lemma_elems_view_append(before, subv);
                    }
                },
                _ => {},
            }
            proof {
                lemma_vdescendants_forest_push(prefix, children_view(self.children@)[i as int]);
                assert(prefix.push(children_view(self.children@)[i as int])
                    =~= children_view(self.children@).subrange(0, i + 1));
                assert(elems_view(out@) =~= seq![elem_view(*self)] + vdescendants_forest(
                    children_view(self.children@).subrange(0, i + 1),
                ));
            }
            i = i + 1;
        }
        proof {
            assert(children_view(self.children@).subrange(
                0,
                self.children@.len() as int,
            ) =~= children_view(self.children@));
        }
        out
    }
}


/// Pushing a pair extends the attribute mirror by its views.
proof fn lemma_attrs_view_push(a: Seq<(String, String)>, p: (String, String))
    ensures
        attrs_view(a.push(p)) == attrs_view(a).push((p.0@, p.1@)),
{
    assert(attrs_view(a.push(p)) =~= attrs_view(a).push((p.0@, p.1@)));
}

/// Pushing a node extends the child mirror by its view.
pub proof fn lemma_children_view_push(s: Seq<Node>, c: Node)
    ensures
        children_view(s.push(c)) == children_view(s).push(node_view(c)),
{
    assert(children_view(s.push(c)) =~= children_view(s).push(node_view(c)));
}

/// The child mirror distributes over concatenation.
pub proof fn lemma_children_view_append(a: Seq<Node>, b: Seq<Node>)
    ensures
        children_view(a + b) == children_view(a) + children_view(b),
{
    assert(children_view(a + b) =~= children_view(a) + children_view(b));
}

/// The element mirror distributes over concatenation.
proof fn lemma_elems_view_append(a: Seq<Element>, b: Seq<Element>)
    ensures
        elems_view(a + b) == elems_view(a) + elems_view(b),
{
    assert(elems_view(a + b) =~= elems_view(a) + elems_view(b));
}


/// Law: attribute insertion keeps keys unique — a well-formed attribute
/// list stays well formed under insert-or-overwrite.
pub proof fn lemma_vattrs_set_wf(attrs: Seq<(Seq<char>, Seq<char>)>, key: Seq<char>, value: Seq<
    char,
>)
    requires
        vattrs_wf(attrs),
    ensures
        vattrs_wf(vattrs_set(attrs, key, value)),
        vattrs_get(vattrs_set(attrs, key, value), key) == Some(value),
    decreases attrs.len(),
{
    if attrs.len() == 0 {
        let r = vattrs_set(attrs, key, value);
        assert(r[0].0 == key);
    } else if attrs[0].0 == key {
        let rest = attrs.subrange(1, attrs.len() as int);
        let r = seq![(key, value)] + rest;
        assert(forall|j: int| 0 <= j < rest.len() ==> rest[j] == attrs[j + 1]);
        assert(vattrs_wf(r));
        assert(r[0].0 == key);
    } else {
        let rest = attrs.subrange(1, attrs.len() as int);
        lemma_vattrs_set_wf(rest, key, value);
        let rs = vattrs_set(rest, key, value);
        let r = seq![attrs[0]] + rs;
        assert(vattrs_set(attrs, key, value) == r);
        assert(forall|j: int| 0 <= j < rest.len() ==> rest[j] == attrs[j + 1]);
        assert(forall|j: int| 0 <= j < rs.len() ==> #[trigger] rs[j].0 == key || (exists|k: int|
            0 <= k < rest.len() && rest[k].0 == #[trigger] rs[j].0)) by {
            lemma_vattrs_set_keys(rest, key, value);
        }
        assert(forall|j: int| 1 <= j < r.len() ==> r[0].0 != #[trigger] r[j].0);
        assert(vattrs_wf(r));
        assert(r.subrange(1, r.len() as int) =~= rs);
        assert(vattrs_get(r, key) == vattrs_get(rs, key));
    }
}

/// Every key of the updated list is the inserted key or one of the old
/// keys.
proof fn lemma_vattrs_set_keys(attrs: Seq<(Seq<char>, Seq<char>)>, key: Seq<char>, value: Seq<
    char,
>)
    ensures
        forall|j: int|
            0 <= j < vattrs_set(attrs, key, value).len() ==> #[trigger] vattrs_set(
                attrs,
                key,
                value,
            )[j].0 == key || (exists|k: int|
                0 <= k < attrs.len() && attrs[k].0 == vattrs_set(attrs, key, value)[j].0),
    decreases attrs.len(),
{
    if attrs.len() > 0 && attrs[0].0 != key {
        let rest = attrs.subrange(1, attrs.len() as int);
        lemma_vattrs_set_keys(rest, key, value);
        let rs = vattrs_set(rest, key, value);
        let r = vattrs_set(attrs, key, value);
        assert(r == seq![attrs[0]] + rs);
        assert(forall|k: int| 0 <= k < rest.len() ==> rest[k] == attrs[k + 1]);
        assert forall|j: int| 0 <= j < r.len() implies #[trigger] r[j].0 == key || (exists|k: int|
            0 <= k < attrs.len() && attrs[k].0 == r[j].0) by {
            if j == 0 {
                assert(attrs[0].0 == r[0].0);
            } else {
                assert(r[j] == rs[j - 1]);
                if rs[j - 1].0 != key {
                    let k = choose|k: int| 0 <= k < rest.len() && rest[k].0 == rs[j - 1].0;
                    assert(attrs[k + 1].0 == r[j].0);
                }
            }
        }
    }
}

} // verus!
