//! The manifest patcher and document locator: depth-first searches over
//! the package manifest, the cover-image annotation, and the collection
//! of content-document paths.
use vstd::prelude::*;
use crate::errors::ConverterError;
use crate::node::{
    Element, Node, VElem, VNode, attrs_view, children_view, clone_attrs, clone_node, elem_view,
    node_view, lemma_children_view_push, str_eq, vattrs_get, vattrs_set,
};
use crate::segmenter::seq_views;

verus! {

/// The first element of the forest, in depth-first pre-order, whose name
/// is `tag` and whose attribute `key` equals `val`.
pub open spec fn vfind_elem(s: Seq<VNode>, tag: Seq<char>, key: Seq<char>, val: Seq<char>) -> Option<
    VElem,
>
    decreases s,
{
    if s.len() == 0 {
        None
    } else {
        match vfind_elem_node(s[0], tag, key, val) {
            Some(e) => Some(e),
            None => vfind_elem(s.subrange(1, s.len() as int), tag, key, val),
        }
    }
}

/// The first matching element of one subtree, the subtree's root counted
/// first.
pub open spec fn vfind_elem_node(n: VNode, tag: Seq<char>, key: Seq<char>, val: Seq<char>) -> Option<
    VElem,
>
    decreases n,
{
    match n {
        VNode::Element(e) => if e.name == tag && vattrs_get(e.attributes, key) == Some(val) {
            Some(e)
        } else {
            vfind_elem(e.children, tag, key, val)
        },
        _ => None,
    }
}

/// The first element of the forest, in depth-first pre-order, with this
/// name.
pub open spec fn vfind_named(s: Seq<VNode>, tag: Seq<char>) -> Option<VElem>
    decreases s,
{
    if s.len() == 0 {
        None
    } else {
        match vfind_named_node(s[0], tag) {
            Some(e) => Some(e),
            None => vfind_named(s.subrange(1, s.len() as int), tag),
        }
    }
}

/// The first element with this name in one subtree, the root counted
/// first.
pub open spec fn vfind_named_node(n: VNode, tag: Seq<char>) -> Option<VElem>
    decreases n,
{
    match n {
        VNode::Element(e) => if e.name == tag {
            Some(e)
        } else {
            vfind_named(e.children, tag)
        },
        _ => None,
    }
}

/// The forest with the first matching element given one extra attribute:
/// the element found by the same depth-first search gains `pkey=pval`;
/// everything else is untouched. The flag says whether a match was found.
pub open spec fn vpatch(
    s: Seq<VNode>,
    tag: Seq<char>,
    key: Seq<char>,
    val: Seq<char>,
    pkey: Seq<char>,
    pval: Seq<char>,
) -> (Seq<VNode>, bool)
    decreases s,
{
    if s.len() == 0 {
        (s, false)
    } else {
        let h = vpatch_node(s[0], tag, key, val, pkey, pval);
        if h.1 {
            (seq![h.0] + s.subrange(1, s.len() as int), true)
        } else {
            let t = vpatch(s.subrange(1, s.len() as int), tag, key, val, pkey, pval);
            if t.1 {
                (seq![s[0]] + t.0, true)
            } else {
                (s, false)
            }
        }
    }
}

/// One subtree of the patch: an unmatched subtree comes back as it was.
pub open spec fn vpatch_node(
    n: VNode,
    tag: Seq<char>,
    key: Seq<char>,
    val: Seq<char>,
    pkey: Seq<char>,
    pval: Seq<char>,
) -> (VNode, bool)
    decreases n,
{
    match n {
        VNode::Element(e) => if e.name == tag && vattrs_get(e.attributes, key) == Some(val) {
            (
                VNode::Element(
                    VElem {
                        name: e.name,
                        attributes: vattrs_set(e.attributes, pkey, pval),
                        children: e.children,
                    },
                ),
                true,
            )
        } else {
            let r = vpatch(e.children, tag, key, val, pkey, pval);
            if r.1 {
                (
                    VNode::Element(
                        VElem { name: e.name, attributes: e.attributes, children: r.0 },
                    ),
                    true,
                )
            } else {
                (n, false)
            }
        },
        _ => (n, false),
    }
}

impl Element {
    /// Finds the first descendant element (this element itself excluded)
    /// with the given tag name, depth first, in document order.
    pub fn find_first_child(&self, tag: &str) -> (r: Option<&Element>)
        ensures
            match r {
                Some(e) => vfind_named(children_view(self.children@), tag@) == Some(elem_view(*e)),
                None => vfind_named(children_view(self.children@), tag@) is None,
            },
        decreases self,
    {
        let ghost kids = children_view(self.children@);
        let mut i: usize = 0;
        proof {
            assert(kids.subrange(0, kids.len() as int) =~= kids);
        }
        while i < self.children.len()
            invariant
                i <= self.children@.len(),
                kids == children_view(self.children@),
                vfind_named(kids, tag@) == vfind_named(
                    kids.subrange(i as int, kids.len() as int),
                    tag@,
                ),
            decreases self.children@.len() - i,
        {
            let ghost suffix = kids.subrange(i as int, kids.len() as int);
            proof {
                assert(suffix[0] == kids[i as int]);
                assert(suffix.subrange(1, suffix.len() as int) =~= kids.subrange(
                    i + 1,
                    kids.len() as int,
                ));
            }
            match &self.children[i] {
                Node::Element(el) => {
                    proof {
                        assert(kids[i as int] == VNode::Element(elem_view(*el)));
                    }
                    if str_eq(el.name.as_str(), tag) {
                        proof {
                            assert(vfind_named_node(kids[i as int], tag@) == Some(elem_view(*el)));
                        }
                        return Some(el);
                    }
                    let sub = el.find_first_child(tag);
                    match sub {
                        Some(found) => {
                            proof {
                                assert(vfind_named_node(kids[i as int], tag@) == Some(
                                    elem_view(*found),
                                ));
                            }
                            return Some(found);
                        },
                        None => {},
                    }
                    proof {
                        assert(vfind_named_node(kids[i as int], tag@) is None);
                    }
                },
                _ => {
                    proof {
                        assert(vfind_named_node(kids[i as int], tag@) is None);
                    }
                },
            }
            i = i + 1;
        }
        proof {
            assert(kids.subrange(i as int, kids.len() as int).len() == 0);
        }
        None
    }

    /// Finds the first descendant element (this element itself excluded)
    /// with the given tag name that carries the attribute `key=value`,
    /// depth first, in document order.
    pub fn find_first_child_with_attrs(&self, tag: &str, key: &str, value: &str) -> (r: Option<
        &Element,
    >)
        ensures
            match r {
                Some(e) => vfind_elem(children_view(self.children@), tag@, key@, value@) == Some(
                    elem_view(*e),
                ),
                None => vfind_elem(children_view(self.children@), tag@, key@, value@) is None,
            },
        decreases self,
    {
        let ghost kids = children_view(self.children@);
        let mut i: usize = 0;
        proof {
            assert(kids.subrange(0, kids.len() as int) =~= kids);
        }
        while i < self.children.len()
            invariant
                i <= self.children@.len(),
                kids == children_view(self.children@),
                vfind_elem(kids, tag@, key@, value@) == vfind_elem(
                    kids.subrange(i as int, kids.len() as int),
                    tag@,
                    key@,
                    value@,
                ),
            decreases self.children@.len() - i,
        {
            let ghost suffix = kids.subrange(i as int, kids.len() as int);
            proof {
                assert(suffix[0] == kids[i as int]);
                assert(suffix.subrange(1, suffix.len() as int) =~= kids.subrange(
                    i + 1,
                    kids.len() as int,
                ));
            }
            match &self.children[i] {
                Node::Element(el) => {
                    proof {
                        assert(kids[i as int] == VNode::Element(elem_view(*el)));
                    }
                    let name_hit: bool = str_eq(el.name.as_str(), tag);
                    let attr_hit: bool = match el.get_attr(key) {
                        Some(v) => str_eq(v.as_str(), value),
                        None => false,
                    };
                    if name_hit && attr_hit {
                        proof {
                            assert(vfind_elem_node(kids[i as int], tag@, key@, value@) == Some(
                                elem_view(*el),
                            ));
                        }
                        return Some(el);
                    }
                    let sub = el.find_first_child_with_attrs(tag, key, value);
                    match sub {
                        Some(found) => {
                            proof {
                                assert(vfind_elem_node(kids[i as int], tag@, key@, value@) == Some(
                                    elem_view(*found),
                                ));
                            }
                            return Some(found);
                        },
                        None => {},
                    }
                    proof {
                        assert(vfind_elem_node(kids[i as int], tag@, key@, value@) is None);
                    }
                },
                _ => {
                    proof {
                        assert(vfind_elem_node(kids[i as int], tag@, key@, value@) is None);
                    }
                },
            }
            i = i + 1;
        }
        proof {
            assert(kids.subrange(i as int, kids.len() as int).len() == 0);
        }
        None
    }
}

fn patch_node(n: &Node, tag: &str, key: &str, value: &str, pkey: &str, pval: &str) -> (r: (
    Node,
    bool,
))
    ensures
        (node_view(r.0), r.1) == vpatch_node(node_view(*n), tag@, key@, value@, pkey@, pval@),
    decreases n,
{
    match n {
        Node::Element(e) => {
            let name_hit: bool = str_eq(e.name.as_str(), tag);
            let attr_hit: bool = match e.get_attr(key) {
                Some(v) => str_eq(v.as_str(), value),
                None => false,
            };
            if name_hit && attr_hit {
                let mut e2: Element = crate::node::clone_element(e);
                e2.set_attr(pkey, pval);
                (Node::Element(e2), true)
            } else {
                let rk = patch_children(&e.children, tag, key, value, pkey, pval);
                if rk.1 {
                    let rebuilt = Element {
                        name: e.name.clone(),
                        attributes: clone_attrs(&e.attributes),
                        children: rk.0,
                    };
                    (Node::Element(rebuilt), true)
                } else {
                    (clone_node(n), false)
                }
            }
        },
        _ => (clone_node(n), false),
    }
}

fn patch_children(children: &Vec<Node>, tag: &str, key: &str, value: &str, pkey: &str, pval: &str) -> (r: (
    Vec<Node>,
    bool,
))
    ensures
        (children_view(r.0@), r.1) == vpatch(
            children_view(children@),
            tag@,
            key@,
            value@,
            pkey@,
            pval@,
        ),
    decreases children,
{
    let ghost all = children_view(children@);
    let ghost goal = vpatch(all, tag@, key@, value@, pkey@, pval@);
    let mut out: Vec<Node> = Vec::new();
    let mut found: bool = false;
    let mut i: usize = 0;
    proof {
        assert(all.subrange(0, all.len() as int) =~= all);
    }
    while i < children.len()
        invariant
            i <= children@.len(),
            all == children_view(children@),
            goal == vpatch(all, tag@, key@, value@, pkey@, pval@),
            found ==> goal.1 && goal.0 == children_view(out@) + all.subrange(
                i as int,
                all.len() as int,
            ),
            !found ==> children_view(out@) == all.subrange(0, i as int) && goal == {
                let t = vpatch(
                    all.subrange(i as int, all.len() as int),
                    tag@,
                    key@,
                    value@,
                    pkey@,
                    pval@,
                );
                if t.1 {
                    (all.subrange(0, i as int) + t.0, true)
                } else {
                    (all, false)
                }
            },
        decreases children@.len() - i,
    {
        let ghost suffix = all.subrange(i as int, all.len() as int);
        let ghost out_entry = children_view(out@);
        proof {
            assert(suffix[0] == all[i as int]);
            assert(suffix.subrange(1, suffix.len() as int) =~= all.subrange(
                i + 1,
                all.len() as int,
            ));
        }
        if found {
            let copy: Node = clone_node(&children[i]);
            let ghost out_pre = out@;
            out.push(copy);
            proof {
                lemma_children_view_push(out_pre, out@[out@.len() - 1]);
                assert(children_view(out@) + all.subrange(i + 1, all.len() as int) =~= out_entry
                    + all.subrange(i as int, all.len() as int));
            }
        } else {
            let rp = patch_node(&children[i], tag, key, value, pkey, pval);
            let ghost h = vpatch_node(all[i as int], tag@, key@, value@, pkey@, pval@);
            let ghost rp0 = rp.0;
            found = rp.1;
            let ghost out_pre = out@;
            out.push(rp.0);
            proof {
                lemma_children_view_push(out_pre, rp0);
                if found {
                    assert(children_view(out@) =~= all.subrange(0, i as int) + seq![h.0]);
                    assert(vpatch(suffix, tag@, key@, value@, pkey@, pval@).0 == seq![h.0]
                        + all.subrange(i + 1, all.len() as int));
                    assert(all.subrange(0, i as int) + (seq![h.0] + all.subrange(
                        i + 1,
                        all.len() as int,
                    )) =~= (all.subrange(0, i as int) + seq![h.0]) + all.subrange(
                        i + 1,
                        all.len() as int,
                    ));
                } else {
                    assert(h.0 == all[i as int]);
                    assert(children_view(out@) =~= all.subrange(0, i + 1));
                }
            }
        }
        i = i + 1;
    }
    proof {
        if found {
            assert(all.subrange(i as int, all.len() as int).len() == 0);
            assert(children_view(out@) + all.subrange(i as int, all.len() as int)
                =~= children_view(out@));
        } else {
            assert(all.subrange(i as int, all.len() as int).len() == 0);
            assert(children_view(out@) =~= all);
        }
    }
    (out, found)
}

/// Patches the cover annotation into the manifest: the first `meta`
/// element with `name="cover"` names the cover resource in its `content`
/// attribute; the first `item` element with that id gains
/// `properties="cover-image"`. A manifest that lacks the meta element,
/// its `content` attribute, or the matching item is refused unchanged
/// with `ManifestMalformed`.
pub fn patch_cover(root: &mut Element) -> (r: Result<(), ConverterError>)
    ensures
        match r {
            Ok(()) => {
                let kids = children_view(old(root).children@);
                let m = vfind_elem(kids, "meta"@, "name"@, "cover"@);
                &&& m is Some
                &&& vattrs_get(m->Some_0.attributes, "content"@) is Some
                &&& {
                    let cid = vattrs_get(m->Some_0.attributes, "content"@)->Some_0;
                    let p = vpatch(kids, "item"@, "id"@, cid, "properties"@, "cover-image"@);
                    &&& p.1
                    &&& final(root).name == old(root).name
                    &&& attrs_view(final(root).attributes@) == attrs_view(old(root).attributes@)
                    &&& children_view(final(root).children@) == p.0
                }
            },
            Err(e) => {
                let kids = children_view(old(root).children@);
                let m = vfind_elem(kids, "meta"@, "name"@, "cover"@);
                &&& e == ConverterError::ManifestMalformed
                &&& *final(root) == *old(root)
                &&& (m is None || vattrs_get(m->Some_0.attributes, "content"@) is None || !vpatch(
                    kids,
                    "item"@,
                    "id"@,
                    vattrs_get(m->Some_0.attributes, "content"@)->Some_0,
                    "properties"@,
                    "cover-image"@,
                ).1)
            },
        },
{
    let cover_id: String;
    match root.find_first_child_with_attrs("meta", "name", "cover") {
        Some(meta) => {
            match meta.get_attr("content") {
                Some(c) => {
                    cover_id = c.clone();
                },
                None => {
                    return Err(ConverterError::ManifestMalformed);
                },
            }
        },
        None => {
            return Err(ConverterError::ManifestMalformed);
        },
    }
    let rp = patch_children(
        &root.children,
        "item",
        "id",
        cover_id.as_str(),
        "properties",
        "cover-image",
    );
    if !rp.1 {
        return Err(ConverterError::ManifestMalformed);
    }
    root.children = rp.0;
    Ok(())
}

/// The `href` values, in document order, of every `item` element whose
/// `media-type` is `application/xhtml+xml`, over one subtree (its root
/// included).
pub open spec fn vcollect_hrefs_node(n: VNode) -> Seq<Seq<char>>
    decreases n,
{
    match n {
        VNode::Element(e) => (if e.name == "item"@ && vattrs_get(e.attributes, "media-type"@)
            == Some("application/xhtml+xml"@) {
            match vattrs_get(e.attributes, "href"@) {
                Some(h) => seq![h],
                None => Seq::<Seq<char>>::empty(),
            }
        } else {
            Seq::<Seq<char>>::empty()
        }) + vcollect_hrefs(e.children),
        _ => Seq::<Seq<char>>::empty(),
    }
}

/// The same collection over a forest.
pub open spec fn vcollect_hrefs(s: Seq<VNode>) -> Seq<Seq<char>>
    decreases s,
{
    if s.len() == 0 {
        Seq::<Seq<char>>::empty()
    } else {
        vcollect_hrefs_node(s[0]) + vcollect_hrefs(s.subrange(1, s.len() as int))
    }
}

/// Collects the paths of all content documents that the manifest lists:
/// the `href` of every `item` with the xhtml media type, in document
/// order.
pub fn locate_documents(root: &Element) -> (r: Vec<String>)
    ensures
        seq_views(r@) == vcollect_hrefs_node(VNode::Element(elem_view(*root))),
    decreases root,
{
    let mut out: Vec<String> = Vec::new();
    let is_item: bool = str_eq(root.name.as_str(), "item");
    let mt_hit: bool = match root.get_attr("media-type") {
        Some(v) => str_eq(v.as_str(), "application/xhtml+xml"),
        None => false,
    };
    if is_item && mt_hit {
        match root.get_attr("href") {
            Some(h) => {
                out.push(h.clone());
                proof {
                    assert(seq_views(out@) =~= seq![h@]);
                }
            },
            None => {
                proof {
                    assert(seq_views(out@) =~= Seq::<Seq<char>>::empty());
                }
            },
        }
    } else {
        proof {
            assert(seq_views(out@) =~= Seq::<Seq<char>>::empty());
        }
    }
    let ghost own = seq_views(out@);
    let ghost kids = children_view(root.children@);
    let mut i: usize = 0;
    proof {
        assert(kids.subrange(0, 0) =~= Seq::<VNode>::empty());
        assert(vcollect_hrefs(kids.subrange(0, 0)) == Seq::<Seq<char>>::empty());
        assert(own + Seq::<Seq<char>>::empty() =~= own);
    }
    while i < root.children.len()
        invariant
            i <= root.children@.len(),
            kids == children_view(root.children@),
            seq_views(out@) == own + vcollect_hrefs(kids.subrange(0, i as int)),
        decreases root.children@.len() - i,
    {
        let ghost out_entry = seq_views(out@);
        match &root.children[i] {
            Node::Element(c) => {
                let mut sub: Vec<String> = locate_documents(c);
                let ghost subv = sub@;
                let ghost out_pre = out@;
                out.append(&mut sub);
                proof {
                    lemma_seq_views_append(out_pre, subv);
                }
            },
            _ => {},
        }
        proof {
            lemma_vcollect_push(kids.subrange(0, i as int), kids[i as int]);
            assert(kids.subrange(0, i as int).push(kids[i as int]) =~= kids.subrange(0, i + 1));
            assert(own + (vcollect_hrefs(kids.subrange(0, i as int)) + vcollect_hrefs_node(
                kids[i as int],
            )) =~= (own + vcollect_hrefs(kids.subrange(0, i as int))) + vcollect_hrefs_node(
                kids[i as int],
            ));
        }
        i = i + 1;
    }
    proof {
        assert(kids.subrange(0, kids.len() as int) =~= kids);
    }
    out
}

/// The string-view mirror distributes over concatenation.
proof fn lemma_seq_views_append(a: Seq<String>, b: Seq<String>)
    ensures
        seq_views(a + b) == seq_views(a) + seq_views(b),
{
    assert(seq_views(a + b) =~= seq_views(a) + seq_views(b));
}

proof fn lemma_vcollect_push(s: Seq<VNode>, x: VNode)
    ensures
        vcollect_hrefs(s.push(x)) == vcollect_hrefs(s) + vcollect_hrefs_node(x),
    decreases s.len(),
{
    if s.len() == 0 {
        assert(s.push(x)[0] == x);
        assert(s.push(x).subrange(1, 1) =~= Seq::<VNode>::empty());
        assert(vcollect_hrefs(Seq::<VNode>::empty()) == Seq::<Seq<char>>::empty());
        assert(vcollect_hrefs_node(x) + Seq::<Seq<char>>::empty() =~= vcollect_hrefs_node(x));
        assert(Seq::<Seq<char>>::empty() + vcollect_hrefs_node(x) =~= vcollect_hrefs_node(x));
    } else {
        assert(s.push(x)[0] == s[0]);
        assert(s.push(x).subrange(1, s.len() as int + 1) =~= s.subrange(1, s.len() as int).push(
            x,
        ));
        lemma_vcollect_push(s.subrange(1, s.len() as int), x);
        assert(vcollect_hrefs_node(s[0]) + (vcollect_hrefs(s.subrange(1, s.len() as int))
            + vcollect_hrefs_node(x)) =~= (vcollect_hrefs_node(s[0]) + vcollect_hrefs(
            s.subrange(1, s.len() as int),
        )) + vcollect_hrefs_node(x));
    }
}

} // verus!
