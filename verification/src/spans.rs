//! The span converter: a pre-order rewrite of a document body that tags
//! every sentence (and every image) with a uniquely numbered marker span,
//! carrying one shared segmentation context across the whole document.
use vstd::prelude::*;
use crate::node::{
    Element, Node, VElem, VNode, attrs_view, children_view, clone_attrs, clone_element, elem_view,
    lemma_children_view_append, lemma_children_view_push, str_eq, vattrs_get, vattrs_set,
    vattrs_wf, vnode_wf,
};
use crate::segmenter::split_sentences_spec;
use crate::segmenter::split_sentences;
use crate::segmenter::lemma_split_count;

verus! {

/// One decimal digit, as text.
pub open spec fn dec_digit(d: nat) -> Seq<char> {
    if d == 0 {
        "0"@
    } else if d == 1 {
        "1"@
    } else if d == 2 {
        "2"@
    } else if d == 3 {
        "3"@
    } else if d == 4 {
        "4"@
    } else if d == 5 {
        "5"@
    } else if d == 6 {
        "6"@
    } else if d == 7 {
        "7"@
    } else if d == 8 {
        "8"@
    } else {
        "9"@
    }
}

/// The decimal rendering of `n`, without sign or leading zeroes.
pub open spec fn dec_str(n: nat) -> Seq<char>
    decreases n,
{
    if n < 10 {
        dec_digit(n)
    } else {
        dec_str(n / 10) + dec_digit(n % 10)
    }
}

fn push_digit(s: &mut String, d: usize)
    requires
        d < 10,
    ensures
        final(s)@ == old(s)@ + dec_digit(d as nat),
{
    if d == 0 {
        s.append("0");
    } else if d == 1 {
        s.append("1");
    } else if d == 2 {
        s.append("2");
    } else if d == 3 {
        s.append("3");
    } else if d == 4 {
        s.append("4");
    } else if d == 5 {
        s.append("5");
    } else if d == 6 {
        s.append("6");
    } else if d == 7 {
        s.append("7");
    } else if d == 8 {
        s.append("8");
    } else {
        s.append("9");
    }
}

/// Appends the decimal rendering of `n` to `s`.
fn push_decimal(s: &mut String, n: usize)
    ensures
        final(s)@ == old(s)@ + dec_str(n as nat),
    decreases n,
{
    if n >= 10 {
        push_decimal(s, n / 10);
        push_digit(s, n % 10);
        proof {
            assert((old(s)@ + dec_str((n / 10) as nat)) + dec_digit((n % 10) as nat) =~= old(s)@
                + dec_str(n as nat));
        }
    } else {
        push_digit(s, n);
    }
}

/// The marker identifier `kobo.<paragraph>.<sentence>`.
pub open spec fn kobo_id(para: nat, sent: nat) -> Seq<char> {
    "kobo."@ + dec_str(para) + "."@ + dec_str(sent)
}

fn make_kobo_id(para: usize, sent: usize) -> (r: String)
    ensures
        r@ == kobo_id(para as nat, sent as nat),
{
    let mut id: String = "kobo.".to_owned();
    push_decimal(&mut id, para);
    id.append(".");
    push_decimal(&mut id, sent);
    proof {
        assert((("kobo."@ + dec_str(para as nat)) + "."@) + dec_str(sent as nat) =~= kobo_id(
            para as nat,
            sent as nat,
        ));
    }
    id
}

/// The ghost shape of a marker span: a `span` element carrying the
/// `kobospan` class and the numbered identifier, holding `content`.
pub open spec fn vspan(para: nat, sent: nat, content: Seq<VNode>) -> VElem {
    VElem {
        name: "span"@,
        attributes: seq![("class"@, "kobospan"@), ("id"@, kobo_id(para, sent))],
        children: content,
    }
}

/// Builds one marker span, holding the given sentence text or, for an
/// image marker, nothing yet.
pub fn make_span(para: usize, sent: usize, content: Option<&String>) -> (r: Element)
    ensures
        elem_view(r) == vspan(
            para as nat,
            sent as nat,
            match content {
                Some(c) => seq![VNode::Text(c@)],
                None => Seq::<VNode>::empty(),
            },
        ),
{
    proof {
        reveal_strlit("class");
        reveal_strlit("id");
    }
    let mut e: Element = Element::new("span");
    e.set_attr("class", "kobospan");
    proof {
        assert(attrs_view(e.attributes@) == vattrs_set(
            Seq::<(Seq<char>, Seq<char>)>::empty(),
            "class"@,
            "kobospan"@,
        ));
        assert(attrs_view(e.attributes@) =~= seq![("class"@, "kobospan"@)]);
    }
    let id: String = make_kobo_id(para, sent);
    let ghost mid = attrs_view(e.attributes@);
    e.set_attr("id", id.as_str());
    proof {
        assert("class"@.len() == 5);
        assert("id"@.len() == 2);
        assert("class"@ != "id"@);
        assert(mid[0].0 == "class"@);
        assert(mid.subrange(1, 1) =~= Seq::<(Seq<char>, Seq<char>)>::empty());
        assert(vattrs_set(mid.subrange(1, 1), "id"@, id@) =~= seq![("id"@, id@)]);
        assert(attrs_view(e.attributes@) =~= seq![
            ("class"@, "kobospan"@),
            ("id"@, kobo_id(para as nat, sent as nat)),
        ]);
    }
    match content {
        Some(c) => {
            let t: String = c.clone();
            e.children.push(Node::Text(t));
            proof {
                assert(children_view(e.children@) =~= seq![VNode::Text(c@)]);
            }
        },
        None => {
            proof {
                assert(children_view(e.children@) =~= Seq::<VNode>::empty());
            }
        },
    }
    e
}

/// One character of the Unicode whitespace class, as string trimming
/// understands it.
pub open spec fn is_space_char(c: char) -> bool {
    let u = c as u32;
    u == 0x20 || (0x9 <= u && u <= 0xd) || u == 0x85 || u == 0xa0 || u == 0x1680 || (0x2000 <= u
        && u <= 0x200a) || u == 0x2028 || u == 0x2029 || u == 0x202f || u == 0x205f || u == 0x3000
}

/// Whether the text consists of whitespace alone (an empty text counts).
pub open spec fn all_space(s: Seq<char>) -> bool {
    forall|i: int| 0 <= i < s.len() ==> is_space_char(#[trigger] s[i])
}

/// Whether the string consists of whitespace alone.
pub fn is_blank(s: &str) -> (r: bool)
    ensures
        r == all_space(s@),
{
    let n: usize = s.unicode_len();
    let mut i: usize = 0;
    while i < n
        invariant
            n == s@.len(),
            i <= n,
            forall|j: int| 0 <= j < i ==> is_space_char(#[trigger] s@[j]),
        decreases n - i,
    {
        let c: char = s.get_char(i);
        let u: u32 = c as u32;
        if !(u == 0x20 || (0x9 <= u && u <= 0xd) || u == 0x85 || u == 0xa0 || u == 0x1680 || (0x2000
            <= u && u <= 0x200a) || u == 0x2028 || u == 0x2029 || u == 0x202f || u == 0x205f || u
            == 0x3000) {
            return false;
        }
        i = i + 1;
    }
    true
}


/// The shared segmentation context: the current paragraph and sentence
/// counters and whether the next emitted sentence must open a new
/// paragraph.
pub struct SpecCtx {
    pub paragraph: nat,
    pub sentence: nat,
    pub pending_break: bool,
}

/// The executable segmentation context.
pub struct Ctx {
    pub paragraph: usize,
    pub sentence: usize,
    pub pending_break: bool,
}

impl View for Ctx {
    type V = SpecCtx;

    open spec fn view(&self) -> SpecCtx {
        SpecCtx {
            paragraph: self.paragraph as nat,
            sentence: self.sentence as nat,
            pending_break: self.pending_break,
        }
    }
}

/// Element names that force the next sentence into a new paragraph:
/// `p`, `ol`, `ul`, `table`, and any two-character name starting with `h`
/// (a pre-existing quirk: this catches more than the heading tags).
pub open spec fn is_break_name(name: Seq<char>) -> bool {
    name == "p"@ || name == "ol"@ || name == "ul"@ || name == "table"@ || (name.len() == 2
        && name[0] == 'h')
}

/// The rewrite of one sentence substring: whitespace outside a `p` parent
/// is dropped; anything else becomes a marker span, opening a new
/// paragraph first when a break is pending.
pub open spec fn conv_text_one(sent: Seq<char>, parent_is_p: bool, ctx: SpecCtx) -> (
    Seq<VNode>,
    SpecCtx,
) {
    if all_space(sent) && !parent_is_p {
        (Seq::<VNode>::empty(), ctx)
    } else {
        let c1 = if ctx.pending_break {
            SpecCtx { paragraph: ctx.paragraph + 1, sentence: 0, pending_break: false }
        } else {
            ctx
        };
        let c2 = SpecCtx {
            paragraph: c1.paragraph,
            sentence: c1.sentence + 1,
            pending_break: c1.pending_break,
        };
        (
            seq![VNode::Element(vspan(c2.paragraph, c2.sentence, seq![VNode::Text(sent)]))],
            c2,
        )
    }
}

/// The rewrite of a list of sentence substrings, in order, threading the
/// context through.
pub open spec fn conv_texts(sents: Seq<Seq<char>>, parent_is_p: bool, ctx: SpecCtx) -> (
    Seq<VNode>,
    SpecCtx,
)
    decreases sents.len(),
{
    if sents.len() == 0 {
        (Seq::<VNode>::empty(), ctx)
    } else {
        let head = conv_text_one(sents[0], parent_is_p, ctx);
        let tail = conv_texts(sents.subrange(1, sents.len() as int), parent_is_p, head.1);
        (head.0 + tail.0, tail.1)
    }
}

/// The rewrite of a single node: the first matching rule applies.
/// An `img` is wrapped in a fresh image marker; a break element is kept
/// and flags a pending paragraph break; `math` and `svg` subtrees are
/// dropped whole; any other element is kept with rewritten children; a
/// text node is segmented into marker spans; any other node is dropped.
pub open spec fn conv_node(n: VNode, parent_is_p: bool, ctx: SpecCtx) -> (Seq<VNode>, SpecCtx)
    decreases n,
{
    match n {
        VNode::Element(e) => {
            if e.name == "img"@ {
                let c2 = SpecCtx { paragraph: ctx.paragraph + 1, sentence: 0, pending_break: false };
                (seq![VNode::Element(vspan(c2.paragraph, 0, seq![VNode::Element(e)]))], c2)
            } else if is_break_name(e.name) {
                let c1 = SpecCtx {
                    paragraph: ctx.paragraph,
                    sentence: ctx.sentence,
                    pending_break: true,
                };
                let r = conv_nodes(e.children, e.name == "p"@, c1);
                (
                    seq![
                        VNode::Element(
                            VElem { name: e.name, attributes: e.attributes, children: r.0 },
                        ),
                    ],
                    r.1,
                )
            } else if e.name == "math"@ || e.name == "svg"@ {
                (Seq::<VNode>::empty(), ctx)
            } else {
                let r = conv_nodes(e.children, e.name == "p"@, ctx);
                (
                    seq![
                        VNode::Element(
                            VElem { name: e.name, attributes: e.attributes, children: r.0 },
                        ),
                    ],
                    r.1,
                )
            }
        },
        VNode::Text(t) => conv_texts(split_sentences_spec(t), parent_is_p, ctx),
        VNode::Other => (Seq::<VNode>::empty(), ctx),
    }
}

/// The rewrite of a child list, in reading order, threading the context
/// through.
pub open spec fn conv_nodes(s: Seq<VNode>, parent_is_p: bool, ctx: SpecCtx) -> (Seq<VNode>, SpecCtx)
    decreases s,
{
    if s.len() == 0 {
        (Seq::<VNode>::empty(), ctx)
    } else {
        let head = conv_node(s[0], parent_is_p, ctx);
        let tail = conv_nodes(s.subrange(1, s.len() as int), parent_is_p, head.1);
        (head.0 + tail.0, tail.1)
    }
}

/// Whether `sub` occurs inside `s`.
pub open spec fn contains_sub(s: Seq<char>, sub: Seq<char>) -> bool {
    exists|k: int| 0 <= k && k + sub.len() <= s.len() && #[trigger] s.subrange(k, k + sub.len()) == sub
}

/// Whether an element is already a conversion product: its `class`
/// attribute holds the substring `kobospan`.
pub open spec fn is_converted_elem(e: VElem) -> bool {
    match vattrs_get(e.attributes, "class"@) {
        Some(v) => contains_sub(v, "kobospan"@),
        None => false,
    }
}

/// Whether any element of the forest, at any depth, is a conversion
/// product.
pub open spec fn forest_converted(s: Seq<VNode>) -> bool
    decreases s,
{
    if s.len() == 0 {
        false
    } else {
        node_converted(s[0]) || forest_converted(s.subrange(1, s.len() as int))
    }
}

/// Whether the subtree holds a conversion product.
pub open spec fn node_converted(n: VNode) -> bool
    decreases n,
{
    match n {
        VNode::Element(e) => is_converted_elem(e) || forest_converted(e.children),
        _ => false,
    }
}

/// The whole span conversion of a body element: a body that already holds
/// a marker span anywhere is left untouched; otherwise its children are
/// rewritten with a fresh context.
pub open spec fn spec_convert_spans(body: VElem) -> VElem {
    if node_converted(VNode::Element(body)) {
        body
    } else {
        VElem {
            name: body.name,
            attributes: body.attributes,
            children: conv_nodes(
                body.children,
                body.name == "p"@,
                SpecCtx { paragraph: 0, sentence: 0, pending_break: false },
            ).0,
        }
    }
}

/// An upper bound on how often the rewrite of this node can step either
/// counter.
pub open spec fn vnode_weight(n: VNode) -> nat
    decreases n,
{
    match n {
        VNode::Element(e) => 2 + vnodes_weight(e.children),
        VNode::Text(t) => 2 * t.len() + 2,
        VNode::Other => 0,
    }
}

/// An upper bound on how often the rewrite of this forest can step either
/// counter.
pub open spec fn vnodes_weight(s: Seq<VNode>) -> nat
    decreases s,
{
    if s.len() == 0 {
        0
    } else {
        vnode_weight(s[0]) + vnodes_weight(s.subrange(1, s.len() as int))
    }
}

proof fn lemma_conv_texts_bounds(sents: Seq<Seq<char>>, parent_is_p: bool, ctx: SpecCtx)
    ensures
        conv_texts(sents, parent_is_p, ctx).1.paragraph <= ctx.paragraph + sents.len(),
        conv_texts(sents, parent_is_p, ctx).1.sentence <= ctx.sentence + sents.len(),
    decreases sents.len(),
{
    if sents.len() > 0 {
        let head = conv_text_one(sents[0], parent_is_p, ctx);
        lemma_conv_texts_bounds(sents.subrange(1, sents.len() as int), parent_is_p, head.1);
    }
}

proof fn lemma_conv_node_bounds(n: VNode, parent_is_p: bool, ctx: SpecCtx)
    ensures
        conv_node(n, parent_is_p, ctx).1.paragraph <= ctx.paragraph + vnode_weight(n),
        conv_node(n, parent_is_p, ctx).1.sentence <= ctx.sentence + vnode_weight(n),
    decreases n, 0int,
{
    match n {
        VNode::Element(e) => {
            if e.name == "img"@ {
            } else if is_break_name(e.name) {
                let c1 = SpecCtx {
                    paragraph: ctx.paragraph,
                    sentence: ctx.sentence,
                    pending_break: true,
                };
                lemma_conv_nodes_bounds(e.children, e.name == "p"@, c1);
            } else if e.name == "math"@ || e.name == "svg"@ {
            } else {
                lemma_conv_nodes_bounds(e.children, e.name == "p"@, ctx);
            }
        },
        VNode::Text(t) => {
            lemma_split_count(t);
            lemma_conv_texts_bounds(split_sentences_spec(t), parent_is_p, ctx);
        },
        VNode::Other => {},
    }
}

proof fn lemma_conv_nodes_bounds(s: Seq<VNode>, parent_is_p: bool, ctx: SpecCtx)
    ensures
        conv_nodes(s, parent_is_p, ctx).1.paragraph <= ctx.paragraph + vnodes_weight(s),
        conv_nodes(s, parent_is_p, ctx).1.sentence <= ctx.sentence + vnodes_weight(s),
    decreases s, 1int,
{
    if s.len() > 0 {
        lemma_conv_node_bounds(s[0], parent_is_p, ctx);
        let head = conv_node(s[0], parent_is_p, ctx);
        lemma_conv_nodes_bounds(s.subrange(1, s.len() as int), parent_is_p, head.1);
    }
}


proof fn lemma_forest_converted_exists(s: Seq<VNode>)
    ensures
        forest_converted(s) <==> exists|j: int| 0 <= j < s.len() && node_converted(#[trigger] s[j]),
    decreases s.len(),
{
    if s.len() > 0 {
        let rest = s.subrange(1, s.len() as int);
        lemma_forest_converted_exists(rest);
        if node_converted(s[0]) {
            assert(exists|j: int| 0 <= j < s.len() && node_converted(#[trigger] s[j]));
        } else if forest_converted(rest) {
            let j = choose|j: int| 0 <= j < rest.len() && node_converted(#[trigger] rest[j]);
            assert(s[j + 1] == rest[j]);
            assert(exists|j: int| 0 <= j < s.len() && node_converted(#[trigger] s[j]));
        } else {
            assert(forall|j: int|
                1 <= j < s.len() ==> node_converted(#[trigger] s[j]) == node_converted(
                    rest[j - 1],
                ));
        }
    }
}

fn str_contains_kobospan(s: &str) -> (r: bool)
    ensures
        r == contains_sub(s@, "kobospan"@),
{
    proof {
        reveal_strlit("kobospan");
    }
    let n: usize = s.unicode_len();
    if n < 8 {
        return false;
    }
    let mut k: usize = 0;
    while k <= n - 8
        invariant
            n == s@.len(),
            8 <= n,
            k <= n,
            "kobospan"@.len() == 8,
            forall|k2: int| 0 <= k2 < k ==> #[trigger] s@.subrange(k2, k2 + 8) != "kobospan"@,
        decreases n - k,
    {
        let piece: &str = s.substring_char(k, k + 8);
        if str_eq(piece, "kobospan") {
            return true;
        }
        k = k + 1;
    }
    proof {
        assert(forall|k2: int|
            0 <= k2 && k2 + "kobospan"@.len() <= s@.len() ==> #[trigger] s@.subrange(
                k2,
                k2 + "kobospan"@.len(),
            ) != "kobospan"@);
    }
    false
}

/// Scans the whole subtree for an element whose `class` attribute holds
/// `kobospan`: the mark of an already converted document.
pub fn has_kobospan(e: &Element) -> (r: bool)
    ensures
        r == node_converted(VNode::Element(elem_view(*e))),
    decreases e,
{
    match e.get_attr("class") {
        Some(v) => {
            if str_contains_kobospan(v.as_str()) {
                return true;
            }
        },
        None => {},
    }
    let ghost kids = children_view(e.children@);
    let mut i: usize = 0;
    while i < e.children.len()
        invariant
            i <= e.children@.len(),
            kids == children_view(e.children@),
            forall|j: int| 0 <= j < i ==> !node_converted(#[trigger] kids[j]),
        decreases e.children@.len() - i,
    {
        match &e.children[i] {
            Node::Element(c) => {
                if has_kobospan(c) {
                    proof {
                        assert(kids[i as int] == VNode::Element(elem_view(*c)));
                        lemma_forest_converted_exists(kids);
                        assert(forest_converted(kids));
                        assert(node_converted(VNode::Element(elem_view(*e))));
                    }
                    return true;
                }
            },
            _ => {},
        }
        i = i + 1;
    }
    proof {
        lemma_forest_converted_exists(kids);
    }
    false
}

fn is_break_name_exec(name: &str) -> (r: bool)
    ensures
        r == is_break_name(name@),
{
    if str_eq(name, "p") || str_eq(name, "ol") || str_eq(name, "ul") || str_eq(name, "table") {
        true
    } else if name.unicode_len() == 2 {
        name.get_char(0) == 'h'
    } else {
        false
    }
}

fn convert_nodes(children: &Vec<Node>, parent_is_p: bool, ctx: &mut Ctx) -> (out: Vec<Node>)
    requires
        old(ctx)@.paragraph + vnodes_weight(children_view(children@)) <= usize::MAX,
        old(ctx)@.sentence + vnodes_weight(children_view(children@)) <= usize::MAX,
    ensures
        children_view(out@) == conv_nodes(children_view(children@), parent_is_p, old(ctx)@).0,
        final(ctx)@ == conv_nodes(children_view(children@), parent_is_p, old(ctx)@).1,
    decreases children,
{
    let ghost all = children_view(children@);
    let ghost goal = conv_nodes(all, parent_is_p, old(ctx)@);
    let mut out: Vec<Node> = Vec::new();
    let mut i: usize = 0;
    proof {
        assert(all.subrange(0, all.len() as int) =~= all);
        assert(children_view(out@) =~= Seq::<VNode>::empty());
        assert(Seq::<VNode>::empty() + goal.0 =~= goal.0);
    }
    while i < children.len()
        invariant
            i <= children@.len(),
            all == children_view(children@),
            goal == conv_nodes(all, parent_is_p, old(ctx)@),
            ctx@.paragraph + vnodes_weight(all.subrange(i as int, all.len() as int)) <= usize::MAX,
            ctx@.sentence + vnodes_weight(all.subrange(i as int, all.len() as int)) <= usize::MAX,
            goal.0 == children_view(out@) + conv_nodes(
                all.subrange(i as int, all.len() as int),
                parent_is_p,
                ctx@,
            ).0,
            goal.1 == conv_nodes(all.subrange(i as int, all.len() as int), parent_is_p, ctx@).1,
        decreases children@.len() - i,
    {
        let ghost suffix = all.subrange(i as int, all.len() as int);
        let ghost centry = ctx@;
        let ghost out_entry = children_view(out@);
        proof {
            assert(suffix[0] == all[i as int]);
            assert(suffix.subrange(1, suffix.len() as int) =~= all.subrange(
                i + 1,
                all.len() as int,
            ));
            lemma_conv_node_bounds(suffix[0], parent_is_p, centry);
        }
        let ghost head = conv_node(suffix[0], parent_is_p, centry);
        match &children[i] {
            Node::Element(el) => {
                proof {
                    assert(all[i as int] == VNode::Element(elem_view(*el)));
                }
                if str_eq(el.name.as_str(), "img") {
                    ctx.paragraph = ctx.paragraph + 1;
                    ctx.sentence = 0;
                    ctx.pending_break = false;
                    let mut sp: Element = make_span(ctx.paragraph, 0, None);
                    let dup: Element = clone_element(el);
                    let ghost sp_kids = sp.children@;
                    sp.children.push(Node::Element(dup));
                    proof {
                        lemma_children_view_push(sp_kids, Node::Element(dup));
                        assert(children_view(sp.children@) =~= seq![
                            VNode::Element(elem_view(*el)),
                        ]);
                    }
                    let ghost out_pre = out@;
                    out.push(Node::Element(sp));
                    proof {
                        lemma_children_view_push(out_pre, Node::Element(sp));
                        assert(children_view(out@) =~= out_entry + head.0);
                    }
                } else if is_break_name_exec(el.name.as_str()) {
                    ctx.pending_break = true;
                    let child_is_p: bool = str_eq(el.name.as_str(), "p");
                    proof {
                        assert(vnode_weight(suffix[0]) == 2 + vnodes_weight(
                            children_view(el.children@),
                        ));
                    }
                    let kids: Vec<Node> = convert_nodes(&el.children, child_is_p, ctx);
                    let name2: String = el.name.clone();
                    let attrs2: Vec<(String, String)> = clone_attrs(&el.attributes);
                    let rebuilt = Element { name: name2, attributes: attrs2, children: kids };
                    let ghost out_pre = out@;
                    out.push(Node::Element(rebuilt));
                    proof {
                        lemma_children_view_push(out_pre, Node::Element(rebuilt));
                        assert(children_view(out@) =~= out_entry + head.0);
                    }
                } else if str_eq(el.name.as_str(), "math") || str_eq(el.name.as_str(), "svg") {
                    proof {
                        assert(children_view(out@) =~= out_entry + head.0);
                    }
                } else {
                    let child_is_p: bool = str_eq(el.name.as_str(), "p");
                    proof {
                        assert(vnode_weight(suffix[0]) == 2 + vnodes_weight(
                            children_view(el.children@),
                        ));
                    }
                    let kids: Vec<Node> = convert_nodes(&el.children, child_is_p, ctx);
                    let name2: String = el.name.clone();
                    let attrs2: Vec<(String, String)> = clone_attrs(&el.attributes);
                    let rebuilt = Element { name: name2, attributes: attrs2, children: kids };
                    let ghost out_pre = out@;
                    out.push(Node::Element(rebuilt));
                    proof {
                        lemma_children_view_push(out_pre, Node::Element(rebuilt));
                        assert(children_view(out@) =~= out_entry + head.0);
                    }
                }
            },
            Node::Text(t) => {
                proof {
                    assert(all[i as int] == VNode::Text(t@));
                }
                let sents: Vec<String> = split_sentences(t);
                let ghost sviews = crate::segmenter::seq_views(sents@);
                let ghost tctx0 = ctx@;
                let ghost tgoal = conv_texts(sviews, parent_is_p, tctx0);
                let ghost wrest = vnodes_weight(all.subrange(i + 1, all.len() as int));
                proof {
                    lemma_split_count(t@);
                    assert(vnode_weight(suffix[0]) == 2 * t@.len() + 2);
                }
                let mut spansv: Vec<Node> = Vec::new();
                let mut j: usize = 0;
                proof {
                    assert(sviews.subrange(0, sviews.len() as int) =~= sviews);
                    assert(children_view(spansv@) =~= Seq::<VNode>::empty());
                    assert(Seq::<VNode>::empty() + tgoal.0 =~= tgoal.0);
                }
                while j < sents.len()
                    invariant
                        j <= sents@.len(),
                        sviews == crate::segmenter::seq_views(sents@),
                        tgoal == conv_texts(sviews, parent_is_p, tctx0),
                        wrest == vnodes_weight(all.subrange(i + 1, all.len() as int)),
                        i < all.len(),
                        ctx@.paragraph + (sviews.len() - j) + wrest <= usize::MAX,
                        ctx@.sentence + (sviews.len() - j) + wrest <= usize::MAX,
                        tgoal.0 == children_view(spansv@) + conv_texts(
                            sviews.subrange(j as int, sviews.len() as int),
                            parent_is_p,
                            ctx@,
                        ).0,
                        tgoal.1 == conv_texts(
                            sviews.subrange(j as int, sviews.len() as int),
                            parent_is_p,
                            ctx@,
                        ).1,
                    decreases sents@.len() - j,
                {
                    let ghost tsuffix = sviews.subrange(j as int, sviews.len() as int);
                    let ghost tentry = ctx@;
                    let ghost spans_entry = children_view(spansv@);
                    proof {
                        assert(tsuffix[0] == sviews[j as int]);
                        assert(tsuffix.subrange(1, tsuffix.len() as int) =~= sviews.subrange(
                            j + 1,
                            sviews.len() as int,
                        ));
                    }
                    let ghost thead = conv_text_one(tsuffix[0], parent_is_p, tentry);
                    let sent: &String = &sents[j];
                    if is_blank(sent.as_str()) && !parent_is_p {
                        proof {
                            assert(children_view(spansv@) =~= spans_entry + thead.0);
                        }
                    } else {
                        if ctx.pending_break {
                            ctx.paragraph = ctx.paragraph + 1;
                            ctx.sentence = 0;
                            ctx.pending_break = false;
                        }
                        ctx.sentence = ctx.sentence + 1;
                        let sp: Element = make_span(ctx.paragraph, ctx.sentence, Some(sent));
                        let ghost spans_pre = spansv@;
                        spansv.push(Node::Element(sp));
                        proof {
                            lemma_children_view_push(spans_pre, Node::Element(sp));
                            assert(children_view(spansv@) =~= spans_entry + thead.0);
                        }
                    }
                    proof {
                        assert(children_view(spansv@) + (conv_texts(
                            sviews.subrange(j + 1, sviews.len() as int),
                            parent_is_p,
                            thead.1,
                        ).0) =~= (spans_entry + thead.0) + conv_texts(
                            sviews.subrange(j + 1, sviews.len() as int),
                            parent_is_p,
                            thead.1,
                        ).0);
                        assert(spans_entry + (thead.0 + conv_texts(
                            sviews.subrange(j + 1, sviews.len() as int),
                            parent_is_p,
                            thead.1,
                        ).0) =~= (spans_entry + thead.0) + conv_texts(
                            sviews.subrange(j + 1, sviews.len() as int),
                            parent_is_p,
                            thead.1,
                        ).0);
                    }
                    j = j + 1;
                }
                proof {
                    assert(sviews.subrange(j as int, sviews.len() as int).len() == 0);
                    assert(children_view(spansv@) + Seq::<VNode>::empty() =~= children_view(
                        spansv@,
                    ));
                }
                let ghost out_pre = out@;
                let ghost spansv_g = spansv@;
                out.append(&mut spansv);
                proof {
                    lemma_children_view_append(out_pre, spansv_g);
                    assert(children_view(out@) == out_entry + head.0);
                }
            },
            Node::Other => {
                proof {
                    assert(children_view(out@) =~= out_entry + head.0);
                }
            },
        }
        proof {
            let rest = conv_nodes(all.subrange(i + 1, all.len() as int), parent_is_p, ctx@);
            assert(out_entry + (head.0 + rest.0) =~= (out_entry + head.0) + rest.0);
        }
        i = i + 1;
    }
    proof {
        assert(all.subrange(i as int, all.len() as int).len() == 0);
        assert(children_view(out@) + Seq::<VNode>::empty() =~= children_view(out@));
    }
    out
}

/// The span conversion of one document body: when any marker span is
/// already present the tree is left untouched; otherwise every sentence
/// and image under the body is wrapped in a numbered marker span, with one
/// context shared across the whole rewrite.
pub fn convert_kobo_spans(root_elem: &mut Element)
    requires
        vnodes_weight(children_view(old(root_elem).children@)) <= usize::MAX,
    ensures
        elem_view(*final(root_elem)) == spec_convert_spans(elem_view(*old(root_elem))),
{
    if has_kobospan(root_elem) {
        return ;
    }
    let mut ctx = Ctx { paragraph: 0, sentence: 0, pending_break: false };
    let is_p: bool = str_eq(root_elem.name.as_str(), "p");
    let new_children: Vec<Node> = convert_nodes(&root_elem.children, is_p, &mut ctx);
    root_elem.children = new_children;
}

/// The total counter budget of a body's children, or nothing where it
/// does not fit the machine word; a caller checks this before asking for
/// a conversion.
pub fn forest_weight(children: &Vec<Node>) -> (r: Option<usize>)
    ensures
        match r {
            Some(w) => w as nat == vnodes_weight(children_view(children@)),
            None => vnodes_weight(children_view(children@)) > usize::MAX,
        },
    decreases children,
{
    let ghost all = children_view(children@);
    let mut total: usize = 0;
    let mut i: usize = 0;
    proof {
        assert(all.subrange(0, 0) =~= Seq::<VNode>::empty());
        assert(vnodes_weight(all.subrange(0, 0)) == 0);
    }
    while i < children.len()
        invariant
            i <= children@.len(),
            all == children_view(children@),
            total as nat == vnodes_weight(all.subrange(0, i as int)),
        decreases children@.len() - i,
    {
        proof {
            lemma_vnodes_weight_push(all.subrange(0, i as int), all[i as int]);
            assert(all.subrange(0, i as int).push(all[i as int]) =~= all.subrange(0, i + 1));
        }
        let w: Option<usize> = match &children[i] {
            Node::Element(el) => {
                let inner: Option<usize> = forest_weight(&el.children);
                match inner {
                    Some(wi) => wi.checked_add(2),
                    None => None,
                }
            },
            Node::Text(t) => {
                let n: usize = t.as_str().unicode_len();
                match n.checked_mul(2) {
                    Some(d) => d.checked_add(2),
                    None => None,
                }
            },
            Node::Other => Some(0),
        };
        match w {
            Some(wv) => {
                match total.checked_add(wv) {
                    Some(t2) => {
                        total = t2;
                    },
                    None => {
                        proof {
                            lemma_vnodes_weight_prefix(all, i + 1);
                        }
                        return None;
                    },
                }
            },
            None => {
                proof {
                    lemma_vnodes_weight_prefix(all, i + 1);
                }
                return None;
            },
        }
        i = i + 1;
    }
    proof {
        assert(all.subrange(0, all.len() as int) =~= all);
    }
    Some(total)
}

proof fn lemma_vnodes_weight_push(s: Seq<VNode>, x: VNode)
    ensures
        vnodes_weight(s.push(x)) == vnodes_weight(s) + vnode_weight(x),
    decreases s.len(),
{
    if s.len() == 0 {
        assert(s.push(x)[0] == x);
        assert(s.push(x).subrange(1, 1) =~= Seq::<VNode>::empty());
        assert(vnodes_weight(Seq::<VNode>::empty()) == 0);
    } else {
        assert(s.push(x)[0] == s[0]);
        assert(s.push(x).subrange(1, s.len() as int + 1) =~= s.subrange(1, s.len() as int).push(
            x,
        ));
        lemma_vnodes_weight_push(s.subrange(1, s.len() as int), x);
    }
}

/// A prefix never outweighs the whole forest.
proof fn lemma_vnodes_weight_prefix(s: Seq<VNode>, i: int)
    requires
        0 <= i <= s.len(),
    ensures
        vnodes_weight(s.subrange(0, i)) <= vnodes_weight(s),
    decreases s.len() - i,
{
    if i < s.len() {
        lemma_vnodes_weight_push(s.subrange(0, i), s[i]);
        assert(s.subrange(0, i).push(s[i]) =~= s.subrange(0, i + 1));
        lemma_vnodes_weight_prefix(s, i + 1);
    } else {
        assert(s.subrange(0, i) =~= s);
    }
}


/// An inert forest: nothing in it that a second rewrite pass could
/// touch — no text, no images, no dropped subtrees, no opaque nodes.
pub open spec fn inert_node(n: VNode) -> bool
    decreases n,
{
    match n {
        VNode::Element(e) => e.name != "img"@ && e.name != "math"@ && e.name != "svg"@
            && inert_forest(e.children),
        VNode::Text(_) => false,
        VNode::Other => false,
    }
}

/// An inert forest, node by node.
pub open spec fn inert_forest(s: Seq<VNode>) -> bool
    decreases s,
{
    if s.len() == 0 {
        true
    } else {
        inert_node(s[0]) && inert_forest(s.subrange(1, s.len() as int))
    }
}

proof fn lemma_tag_facts()
    ensures
        "img"@.len() == 3,
        "math"@.len() == 4,
        "svg"@.len() == 3,
        "p"@.len() == 1,
        "ol"@.len() == 2,
        "ul"@.len() == 2,
        "table"@.len() == 5,
        "span"@.len() == 4,
        "span"@ != "math"@,
        "span"@ != "svg"@,
        "span"@ != "img"@,
        "img"@ != "svg"@,
        "img"@ != "math"@,
{
    reveal_strlit("img");
    reveal_strlit("math");
    reveal_strlit("svg");
    reveal_strlit("p");
    reveal_strlit("ol");
    reveal_strlit("ul");
    reveal_strlit("table");
    reveal_strlit("span");
    assert("span"@[0] == 's');
    assert("math"@[0] == 'm');
    assert("svg"@[0] == 's');
    assert("svg"@.len() == 3);
    assert("img"@[0] == 'i');
}

proof fn lemma_span_converted(para: nat, sent: nat, content: Seq<VNode>)
    ensures
        node_converted(VNode::Element(vspan(para, sent, content))),
{
    let e = vspan(para, sent, content);
    assert(e.attributes[0].0 == "class"@);
    assert(vattrs_get(e.attributes, "class"@) == Some("kobospan"@));
    let sub = "kobospan"@;
    assert(sub.subrange(0, 0 + sub.len() as int) =~= sub);
    assert(contains_sub(sub, sub));
    assert(is_converted_elem(e));
}

proof fn lemma_forest_converted_append(a: Seq<VNode>, b: Seq<VNode>)
    ensures
        forest_converted(a + b) == (forest_converted(a) || forest_converted(b)),
    decreases a.len(),
{
    if a.len() == 0 {
        assert(a + b =~= b);
    } else {
        assert((a + b)[0] == a[0]);
        assert((a + b).subrange(1, (a + b).len() as int) =~= a.subrange(1, a.len() as int) + b);
        lemma_forest_converted_append(a.subrange(1, a.len() as int), b);
    }
}

proof fn lemma_inert_forest_append(a: Seq<VNode>, b: Seq<VNode>)
    ensures
        inert_forest(a + b) == (inert_forest(a) && inert_forest(b)),
    decreases a.len(),
{
    if a.len() == 0 {
        assert(a + b =~= b);
    } else {
        assert((a + b)[0] == a[0]);
        assert((a + b).subrange(1, (a + b).len() as int) =~= a.subrange(1, a.len() as int) + b);
        lemma_inert_forest_append(a.subrange(1, a.len() as int), b);
    }
}

proof fn lemma_conv_texts_product(sents: Seq<Seq<char>>, parent_is_p: bool, ctx: SpecCtx)
    ensures
        forest_converted(conv_texts(sents, parent_is_p, ctx).0) || conv_texts(
            sents,
            parent_is_p,
            ctx,
        ).0.len() == 0,
    decreases sents.len(),
{
    if sents.len() > 0 {
        let head = conv_text_one(sents[0], parent_is_p, ctx);
        let tail = conv_texts(sents.subrange(1, sents.len() as int), parent_is_p, head.1);
        lemma_conv_texts_product(sents.subrange(1, sents.len() as int), parent_is_p, head.1);
        if head.0.len() > 0 {
            let c1 = if ctx.pending_break {
                SpecCtx { paragraph: ctx.paragraph + 1, sentence: 0, pending_break: false }
            } else {
                ctx
            };
            lemma_span_converted(c1.paragraph, c1.sentence + 1, seq![VNode::Text(sents[0])]);
            lemma_forest_converted_append(head.0, tail.0);
            assert(forest_converted(head.0));
        } else {
            assert(head.0 + tail.0 =~= tail.0);
        }
    }
}

proof fn lemma_conv_node_product(n: VNode, parent_is_p: bool, ctx: SpecCtx)
    ensures
        forest_converted(conv_node(n, parent_is_p, ctx).0) || inert_forest(
            conv_node(n, parent_is_p, ctx).0,
        ),
    decreases n, 0int,
{
    lemma_tag_facts();
    match n {
        VNode::Element(e) => {
            if e.name == "img"@ {
                let c2 = SpecCtx { paragraph: ctx.paragraph + 1, sentence: 0, pending_break: false };
                lemma_span_converted(c2.paragraph, 0, seq![VNode::Element(e)]);
                let out = conv_node(n, parent_is_p, ctx).0;
                assert(node_converted(out[0]));
                assert(forest_converted(out));
            } else if is_break_name(e.name) {
                let c1 = SpecCtx {
                    paragraph: ctx.paragraph,
                    sentence: ctx.sentence,
                    pending_break: true,
                };
                lemma_conv_nodes_product(e.children, e.name == "p"@, c1);
                let r = conv_nodes(e.children, e.name == "p"@, c1);
                let out = conv_node(n, parent_is_p, ctx).0;
                assert(e.name != "math"@ && e.name != "svg"@);
                if forest_converted(r.0) {
                    assert(node_converted(out[0]));
                    assert(forest_converted(out));
                } else {
                    assert(inert_node(out[0]));
                    assert(out.subrange(1, out.len() as int) =~= Seq::<VNode>::empty());
                    assert(inert_forest(Seq::<VNode>::empty()));
                    assert(inert_forest(out));
                }
            } else if e.name == "math"@ || e.name == "svg"@ {
            } else {
                lemma_conv_nodes_product(e.children, e.name == "p"@, ctx);
                let r = conv_nodes(e.children, e.name == "p"@, ctx);
                let out = conv_node(n, parent_is_p, ctx).0;
                if forest_converted(r.0) {
                    assert(node_converted(out[0]));
                    assert(forest_converted(out));
                } else {
                    assert(inert_node(out[0]));
                    assert(out.subrange(1, out.len() as int) =~= Seq::<VNode>::empty());
                    assert(inert_forest(Seq::<VNode>::empty()));
                    assert(inert_forest(out));
                }
            }
        },
        VNode::Text(t) => {
            lemma_conv_texts_product(split_sentences_spec(t), parent_is_p, ctx);
        },
        VNode::Other => {},
    }
}

proof fn lemma_conv_nodes_product(s: Seq<VNode>, parent_is_p: bool, ctx: SpecCtx)
    ensures
        forest_converted(conv_nodes(s, parent_is_p, ctx).0) || inert_forest(
            conv_nodes(s, parent_is_p, ctx).0,
        ),
    decreases s, 1int,
{
    if s.len() > 0 {
        let head = conv_node(s[0], parent_is_p, ctx);
        let tail = conv_nodes(s.subrange(1, s.len() as int), parent_is_p, head.1);
        lemma_conv_node_product(s[0], parent_is_p, ctx);
        lemma_conv_nodes_product(s.subrange(1, s.len() as int), parent_is_p, head.1);
        lemma_forest_converted_append(head.0, tail.0);
        lemma_inert_forest_append(head.0, tail.0);
    }
}

proof fn lemma_conv_node_inert(n: VNode, parent_is_p: bool, ctx: SpecCtx)
    requires
        inert_node(n),
    ensures
        conv_node(n, parent_is_p, ctx).0 == seq![n],
    decreases n, 0int,
{
    match n {
        VNode::Element(e) => {
            if is_break_name(e.name) {
                let c1 = SpecCtx {
                    paragraph: ctx.paragraph,
                    sentence: ctx.sentence,
                    pending_break: true,
                };
                lemma_conv_nodes_inert(e.children, e.name == "p"@, c1);
            } else {
                lemma_conv_nodes_inert(e.children, e.name == "p"@, ctx);
            }
        },
        _ => {},
    }
}

proof fn lemma_conv_nodes_inert(s: Seq<VNode>, parent_is_p: bool, ctx: SpecCtx)
    requires
        inert_forest(s),
    ensures
        conv_nodes(s, parent_is_p, ctx).0 == s,
    decreases s, 1int,
{
    if s.len() > 0 {
        let head = conv_node(s[0], parent_is_p, ctx);
        lemma_conv_node_inert(s[0], parent_is_p, ctx);
        lemma_conv_nodes_inert(s.subrange(1, s.len() as int), parent_is_p, head.1);
        assert(seq![s[0]] + s.subrange(1, s.len() as int) =~= s);
    }
}

/// Law: the span conversion is idempotent — converting a body a second
/// time gives back exactly the first conversion's result. A first pass
/// that emitted any marker is caught by the guard; one that emitted none
/// has left nothing a second pass could rewrite.
pub proof fn lemma_convert_idempotent(body: VElem)
    ensures
        spec_convert_spans(spec_convert_spans(body)) == spec_convert_spans(body),
{
    let out = spec_convert_spans(body);
    if node_converted(VNode::Element(body)) {
    } else {
        let ctx0 = SpecCtx { paragraph: 0, sentence: 0, pending_break: false };
        lemma_conv_nodes_product(body.children, body.name == "p"@, ctx0);
        if forest_converted(out.children) {
            assert(node_converted(VNode::Element(out)));
        } else {
            assert(!is_converted_elem(body));
            assert(!is_converted_elem(out));
            assert(!node_converted(VNode::Element(out)));
            lemma_conv_nodes_inert(out.children, out.name == "p"@, ctx0);
            assert(spec_convert_spans(out) == out);
        }
    }
}

proof fn lemma_conv_texts_monotone(sents: Seq<Seq<char>>, parent_is_p: bool, ctx: SpecCtx)
    ensures
        conv_texts(sents, parent_is_p, ctx).1.paragraph >= ctx.paragraph,
    decreases sents.len(),
{
    if sents.len() > 0 {
        let head = conv_text_one(sents[0], parent_is_p, ctx);
        lemma_conv_texts_monotone(sents.subrange(1, sents.len() as int), parent_is_p, head.1);
    }
}

proof fn lemma_conv_node_monotone(n: VNode, parent_is_p: bool, ctx: SpecCtx)
    ensures
        conv_node(n, parent_is_p, ctx).1.paragraph >= ctx.paragraph,
    decreases n, 0int,
{
    match n {
        VNode::Element(e) => {
            if e.name == "img"@ {
            } else if is_break_name(e.name) {
                let c1 = SpecCtx {
                    paragraph: ctx.paragraph,
                    sentence: ctx.sentence,
                    pending_break: true,
                };
                lemma_conv_nodes_monotone(e.children, e.name == "p"@, c1);
            } else if e.name == "math"@ || e.name == "svg"@ {
            } else {
                lemma_conv_nodes_monotone(e.children, e.name == "p"@, ctx);
            }
        },
        VNode::Text(t) => {
            lemma_conv_texts_monotone(split_sentences_spec(t), parent_is_p, ctx);
        },
        VNode::Other => {},
    }
}

/// Law: the paragraph counter never decreases across a rewrite, so the
/// markers of one document carry non-decreasing paragraph numbers in
/// emission order.
pub proof fn lemma_conv_nodes_monotone(s: Seq<VNode>, parent_is_p: bool, ctx: SpecCtx)
    ensures
        conv_nodes(s, parent_is_p, ctx).1.paragraph >= ctx.paragraph,
    decreases s, 1int,
{
    if s.len() > 0 {
        let head = conv_node(s[0], parent_is_p, ctx);
        lemma_conv_node_monotone(s[0], parent_is_p, ctx);
        lemma_conv_nodes_monotone(s.subrange(1, s.len() as int), parent_is_p, head.1);
    }
}

/// Law: a text marker keeps the paragraph and steps the sentence by one,
/// or — exactly when a break was pending — opens the next paragraph with
/// sentence one.
pub proof fn lemma_sentence_reset(sent: Seq<char>, parent_is_p: bool, ctx: SpecCtx)
    ensures
        ({
            let r = conv_text_one(sent, parent_is_p, ctx);
            r.0.len() > 0 ==> if ctx.pending_break {
                r.1.paragraph == ctx.paragraph + 1 && r.1.sentence == 1
            } else {
                r.1.paragraph == ctx.paragraph && r.1.sentence == ctx.sentence + 1
            }
        }),
{
}

/// Law: an image marker always opens the next paragraph with sentence
/// zero and clears any pending break.
pub proof fn lemma_image_marker(e: VElem, parent_is_p: bool, ctx: SpecCtx)
    requires
        e.name == "img"@,
    ensures
        conv_node(VNode::Element(e), parent_is_p, ctx).1 == (SpecCtx {
            paragraph: ctx.paragraph + 1,
            sentence: 0,
            pending_break: false,
        }),
        conv_node(VNode::Element(e), parent_is_p, ctx).0 == seq![
            VNode::Element(vspan(ctx.paragraph + 1, 0, seq![VNode::Element(e)])),
        ],
{
}


/// Whether any element of the subtree bears this name.
pub open spec fn vnode_has_named(n: VNode, name: Seq<char>) -> bool
    decreases n,
{
    match n {
        VNode::Element(e) => e.name == name || vforest_has_named(e.children, name),
        _ => false,
    }
}

/// Whether any element of the forest, at any depth, bears this name.
pub open spec fn vforest_has_named(s: Seq<VNode>, name: Seq<char>) -> bool
    decreases s,
{
    if s.len() == 0 {
        false
    } else {
        vnode_has_named(s[0], name) || vforest_has_named(s.subrange(1, s.len() as int), name)
    }
}

/// Every image element of the subtree is bare: it has no children of its
/// own. The exclusion law needs this, because an image is carried into
/// its marker whole.
pub open spec fn imgs_bare_node(n: VNode) -> bool
    decreases n,
{
    match n {
        VNode::Element(e) => (e.name == "img"@ ==> e.children.len() == 0) && imgs_bare_forest(
            e.children,
        ),
        _ => true,
    }
}

/// Every image element of the forest is bare.
pub open spec fn imgs_bare_forest(s: Seq<VNode>) -> bool
    decreases s,
{
    if s.len() == 0 {
        true
    } else {
        imgs_bare_node(s[0]) && imgs_bare_forest(s.subrange(1, s.len() as int))
    }
}

proof fn lemma_has_named_append(a: Seq<VNode>, b: Seq<VNode>, name: Seq<char>)
    ensures
        vforest_has_named(a + b, name) == (vforest_has_named(a, name) || vforest_has_named(
            b,
            name,
        )),
    decreases a.len(),
{
    if a.len() == 0 {
        assert(a + b =~= b);
    } else {
        assert((a + b)[0] == a[0]);
        assert((a + b).subrange(1, (a + b).len() as int) =~= a.subrange(1, a.len() as int) + b);
        lemma_has_named_append(a.subrange(1, a.len() as int), b, name);
    }
}

proof fn lemma_conv_texts_excludes(sents: Seq<Seq<char>>, parent_is_p: bool, ctx: SpecCtx, name: Seq<
    char,
>)
    requires
        name != "span"@,
    ensures
        !vforest_has_named(conv_texts(sents, parent_is_p, ctx).0, name),
    decreases sents.len(),
{
    if sents.len() > 0 {
        let head = conv_text_one(sents[0], parent_is_p, ctx);
        let tail = conv_texts(sents.subrange(1, sents.len() as int), parent_is_p, head.1);
        lemma_conv_texts_excludes(sents.subrange(1, sents.len() as int), parent_is_p, head.1, name);
        if head.0.len() > 0 {
            assert(head.0[0] matches VNode::Element(sp) && sp.children == seq![
                VNode::Text(sents[0]),
            ]);
            assert(!vnode_has_named(head.0[0], name)) by {
                let sp = head.0[0]->Element_0;
                assert(!vnode_has_named(sp.children[0], name));
                assert(sp.children.subrange(1, 1) =~= Seq::<VNode>::empty());
                assert(!vforest_has_named(Seq::<VNode>::empty(), name));
                assert(!vforest_has_named(sp.children, name));
            }
            assert(head.0.subrange(1, 1) =~= Seq::<VNode>::empty());
            assert(!vforest_has_named(Seq::<VNode>::empty(), name));
            assert(!vforest_has_named(head.0, name));
        } else {
            assert(head.0 + tail.0 =~= tail.0);
        }
        lemma_has_named_append(head.0, tail.0, name);
    }
}

proof fn lemma_conv_node_excludes(n: VNode, parent_is_p: bool, ctx: SpecCtx, name: Seq<char>)
    requires
        imgs_bare_node(n),
        name == "math"@ || name == "svg"@,
    ensures
        !vforest_has_named(conv_node(n, parent_is_p, ctx).0, name),
    decreases n, 0int,
{
    lemma_tag_facts();
    let out = conv_node(n, parent_is_p, ctx).0;
    match n {
        VNode::Element(e) => {
            if e.name == "img"@ {
                assert(!vnode_has_named(out[0], name)) by {
                    let sp = out[0]->Element_0;
                    assert(sp.children == seq![VNode::Element(e)]);
                    assert(e.children.len() == 0);
                    assert(!vforest_has_named(e.children, name));
                    assert(!vnode_has_named(sp.children[0], name));
                    assert(sp.children.subrange(1, 1) =~= Seq::<VNode>::empty());
                    assert(!vforest_has_named(Seq::<VNode>::empty(), name));
                    assert(!vforest_has_named(sp.children, name));
                }
                assert(out.subrange(1, out.len() as int) =~= Seq::<VNode>::empty());
                assert(!vforest_has_named(Seq::<VNode>::empty(), name));
                assert(!vforest_has_named(out, name));
            } else if is_break_name(e.name) {
                let c1 = SpecCtx {
                    paragraph: ctx.paragraph,
                    sentence: ctx.sentence,
                    pending_break: true,
                };
                lemma_conv_nodes_excludes(e.children, e.name == "p"@, c1, name);
                assert(e.name != name);
                assert(!vnode_has_named(out[0], name));
                assert(out.subrange(1, out.len() as int) =~= Seq::<VNode>::empty());
                assert(!vforest_has_named(Seq::<VNode>::empty(), name));
                assert(!vforest_has_named(out, name));
            } else if e.name == "math"@ || e.name == "svg"@ {
            } else {
                lemma_conv_nodes_excludes(e.children, e.name == "p"@, ctx, name);
                assert(e.name != name);
                assert(!vnode_has_named(out[0], name));
                assert(out.subrange(1, out.len() as int) =~= Seq::<VNode>::empty());
                assert(!vforest_has_named(Seq::<VNode>::empty(), name));
                assert(!vforest_has_named(out, name));
            }
        },
        VNode::Text(t) => {
            lemma_conv_texts_excludes(split_sentences_spec(t), parent_is_p, ctx, name);
        },
        VNode::Other => {},
    }
}

/// Law: no `math` or `svg` element, nor anything below one, survives the
/// rewrite of a forest whose images are bare.
pub proof fn lemma_conv_nodes_excludes(s: Seq<VNode>, parent_is_p: bool, ctx: SpecCtx, name: Seq<
    char,
>)
    requires
        imgs_bare_forest(s),
        name == "math"@ || name == "svg"@,
    ensures
        !vforest_has_named(conv_nodes(s, parent_is_p, ctx).0, name),
    decreases s, 1int,
{
    if s.len() > 0 {
        let head = conv_node(s[0], parent_is_p, ctx);
        lemma_conv_node_excludes(s[0], parent_is_p, ctx, name);
        lemma_conv_nodes_excludes(s.subrange(1, s.len() as int), parent_is_p, head.1, name);
        lemma_has_named_append(head.0, conv_nodes(s.subrange(1, s.len() as int), parent_is_p, head.1).0, name);
    }
}


/// The paragraph and sentence numbers stamped on the markers that the
/// rewrite of one text node emits, in emission order.
pub open spec fn markers_texts(sents: Seq<Seq<char>>, parent_is_p: bool, ctx: SpecCtx) -> Seq<
    (nat, nat),
>
    decreases sents.len(),
{
    if sents.len() == 0 {
        Seq::<(nat, nat)>::empty()
    } else {
        let head = conv_text_one(sents[0], parent_is_p, ctx);
        let rest = markers_texts(sents.subrange(1, sents.len() as int), parent_is_p, head.1);
        if head.0.len() == 0 {
            rest
        } else {
            seq![(head.1.paragraph, head.1.sentence)] + rest
        }
    }
}

/// The numbers stamped on the markers that the rewrite of one node
/// emits, in emission order.
pub open spec fn markers_node(n: VNode, parent_is_p: bool, ctx: SpecCtx) -> Seq<(nat, nat)>
    decreases n, 0int,
{
    match n {
        VNode::Element(e) => {
            if e.name == "img"@ {
                seq![((ctx.paragraph + 1) as nat, 0 as nat)]
            } else if is_break_name(e.name) {
                let c1 = SpecCtx {
                    paragraph: ctx.paragraph,
                    sentence: ctx.sentence,
                    pending_break: true,
                };
                markers_nodes(e.children, e.name == "p"@, c1)
            } else if e.name == "math"@ || e.name == "svg"@ {
                Seq::<(nat, nat)>::empty()
            } else {
                markers_nodes(e.children, e.name == "p"@, ctx)
            }
        },
        VNode::Text(t) => markers_texts(split_sentences_spec(t), parent_is_p, ctx),
        VNode::Other => Seq::<(nat, nat)>::empty(),
    }
}

/// The numbers stamped on the markers that the rewrite of a forest
/// emits, in emission order.
pub open spec fn markers_nodes(s: Seq<VNode>, parent_is_p: bool, ctx: SpecCtx) -> Seq<(nat, nat)>
    decreases s, 1int,
{
    if s.len() == 0 {
        Seq::<(nat, nat)>::empty()
    } else {
        markers_node(s[0], parent_is_p, ctx) + markers_nodes(
            s.subrange(1, s.len() as int),
            parent_is_p,
            conv_node(s[0], parent_is_p, ctx).1,
        )
    }
}

/// One legal step between consecutive markers: either the paragraph is
/// kept and the sentence steps by one, or the paragraph grows and the
/// sentence restarts at zero (an image) or one (a sentence).
pub open spec fn marker_step_ok(a: (nat, nat), b: (nat, nat)) -> bool {
    (b.0 == a.0 && b.1 == a.1 + 1) || (b.0 > a.0 && b.1 <= 1)
}

/// Every marker of the list continues its predecessor legally, starting
/// from `prev`.
pub open spec fn markers_chain(ms: Seq<(nat, nat)>, prev: (nat, nat)) -> bool
    decreases ms.len(),
{
    ms.len() == 0 || (marker_step_ok(prev, ms[0]) && markers_chain(
        ms.subrange(1, ms.len() as int),
        ms[0],
    ))
}

proof fn lemma_markers_chain_append(a: Seq<(nat, nat)>, b: Seq<(nat, nat)>, prev: (nat, nat))
    requires
        markers_chain(a, prev),
        markers_chain(b, if a.len() == 0 { prev } else { a.last() }),
    ensures
        markers_chain(a + b, prev),
    decreases a.len(),
{
    if a.len() == 0 {
        assert(a + b =~= b);
    } else {
        assert((a + b)[0] == a[0]);
        assert((a + b).subrange(1, (a + b).len() as int) =~= a.subrange(1, a.len() as int) + b);
        if a.len() == 1 {
            assert(a.last() == a[0]);
        } else {
            assert(a.subrange(1, a.len() as int).last() == a.last());
        }
        lemma_markers_chain_append(a.subrange(1, a.len() as int), b, a[0]);
    }
}

proof fn lemma_markers_texts_chain(sents: Seq<Seq<char>>, parent_is_p: bool, ctx: SpecCtx)
    ensures
        ({
            let ms = markers_texts(sents, parent_is_p, ctx);
            let c2 = conv_texts(sents, parent_is_p, ctx).1;
            &&& markers_chain(ms, (ctx.paragraph, ctx.sentence))
            &&& (c2.paragraph, c2.sentence) == if ms.len() == 0 {
                (ctx.paragraph, ctx.sentence)
            } else {
                ms.last()
            }
        }),
    decreases sents.len(),
{
    if sents.len() > 0 {
        let head = conv_text_one(sents[0], parent_is_p, ctx);
        lemma_markers_texts_chain(sents.subrange(1, sents.len() as int), parent_is_p, head.1);
        let rest = markers_texts(sents.subrange(1, sents.len() as int), parent_is_p, head.1);
        if head.0.len() == 0 {
        } else {
            let first = (head.1.paragraph, head.1.sentence);
            assert(marker_step_ok((ctx.paragraph, ctx.sentence), first));
            assert(seq![first].subrange(1, 1) =~= Seq::<(nat, nat)>::empty());
            assert(markers_chain(Seq::<(nat, nat)>::empty(), first));
            assert(markers_chain(seq![first], (ctx.paragraph, ctx.sentence)));
            assert(seq![first].last() == first);
            lemma_markers_chain_append(seq![first], rest, (ctx.paragraph, ctx.sentence));
            if rest.len() > 0 {
                assert((seq![first] + rest).last() == rest.last());
            } else {
                assert(seq![first] + rest =~= seq![first]);
            }
        }
    }
}

proof fn lemma_markers_node_chain(n: VNode, parent_is_p: bool, ctx: SpecCtx)
    ensures
        ({
            let ms = markers_node(n, parent_is_p, ctx);
            let c2 = conv_node(n, parent_is_p, ctx).1;
            &&& markers_chain(ms, (ctx.paragraph, ctx.sentence))
            &&& (c2.paragraph, c2.sentence) == if ms.len() == 0 {
                (ctx.paragraph, ctx.sentence)
            } else {
                ms.last()
            }
        }),
    decreases n, 0int,
{
    match n {
        VNode::Element(e) => {
            if e.name == "img"@ {
                let ms = markers_node(n, parent_is_p, ctx);
                assert(ms.last() == ms[0]);
                assert(marker_step_ok((ctx.paragraph, ctx.sentence), ms[0]));
                assert(ms.subrange(1, 1) =~= Seq::<(nat, nat)>::empty());
                assert(markers_chain(Seq::<(nat, nat)>::empty(), ms[0]));
            } else if is_break_name(e.name) {
                let c1 = SpecCtx {
                    paragraph: ctx.paragraph,
                    sentence: ctx.sentence,
                    pending_break: true,
                };
                lemma_markers_nodes_chain(e.children, e.name == "p"@, c1);
            } else if e.name == "math"@ || e.name == "svg"@ {
            } else {
                lemma_markers_nodes_chain(e.children, e.name == "p"@, ctx);
            }
        },
        VNode::Text(t) => {
            lemma_markers_texts_chain(split_sentences_spec(t), parent_is_p, ctx);
        },
        VNode::Other => {},
    }
}

/// Law: the markers that a rewrite emits carry, in emission order,
/// non-decreasing paragraph numbers; whenever the paragraph number grows,
/// the sentence number restarts — at zero for an image, at one for a
/// sentence — and while it stands still the sentence number steps by
/// exactly one. The chain starts at the incoming counters.
pub proof fn lemma_markers_nodes_chain(s: Seq<VNode>, parent_is_p: bool, ctx: SpecCtx)
    ensures
        ({
            let ms = markers_nodes(s, parent_is_p, ctx);
            let c2 = conv_nodes(s, parent_is_p, ctx).1;
            &&& markers_chain(ms, (ctx.paragraph, ctx.sentence))
            &&& (c2.paragraph, c2.sentence) == if ms.len() == 0 {
                (ctx.paragraph, ctx.sentence)
            } else {
                ms.last()
            }
        }),
    decreases s, 1int,
{
    if s.len() > 0 {
        let head_ms = markers_node(s[0], parent_is_p, ctx);
        let c1 = conv_node(s[0], parent_is_p, ctx).1;
        lemma_markers_node_chain(s[0], parent_is_p, ctx);
        lemma_markers_nodes_chain(s.subrange(1, s.len() as int), parent_is_p, c1);
        let tail_ms = markers_nodes(s.subrange(1, s.len() as int), parent_is_p, c1);
        lemma_markers_chain_append(head_ms, tail_ms, (ctx.paragraph, ctx.sentence));
        if tail_ms.len() > 0 {
            assert((head_ms + tail_ms).last() == tail_ms.last());
        } else if head_ms.len() > 0 {
            assert(head_ms + tail_ms =~= head_ms);
        } else {
            assert(head_ms + tail_ms =~= Seq::<(nat, nat)>::empty());
        }
    }
}


/// Strict lexicographic order on marker numbers.
pub open spec fn marker_lt(a: (nat, nat), b: (nat, nat)) -> bool {
    a.0 < b.0 || (a.0 == b.0 && a.1 < b.1)
}

proof fn lemma_chain_sorted(ms: Seq<(nat, nat)>, prev: (nat, nat))
    requires
        markers_chain(ms, prev),
    ensures
        forall|k: int| 0 <= k < ms.len() ==> marker_lt(prev, #[trigger] ms[k]),
        forall|i: int, j: int| 0 <= i < j < ms.len() ==> marker_lt(ms[i], ms[j]),
    decreases ms.len(),
{
    if ms.len() > 0 {
        let rest = ms.subrange(1, ms.len() as int);
        lemma_chain_sorted(rest, ms[0]);
        assert(marker_lt(prev, ms[0]));
        assert(forall|k: int| 1 <= k < ms.len() ==> #[trigger] ms[k] == rest[k - 1]);
    }
}

/// Law: the marker numbers of one rewrite are strictly increasing in
/// lexicographic order, so no two markers of a document carry the same
/// paragraph and sentence pair.
pub proof fn lemma_marker_numbers_unique(s: Seq<VNode>, parent_is_p: bool, ctx: SpecCtx)
    ensures
        ({
            let ms = markers_nodes(s, parent_is_p, ctx);
            forall|i: int, j: int| 0 <= i < j < ms.len() ==> marker_lt(#[trigger] ms[i], #[trigger] ms[j])
        }),
{
    lemma_markers_nodes_chain(s, parent_is_p, ctx);
    lemma_chain_sorted(markers_nodes(s, parent_is_p, ctx), (ctx.paragraph, ctx.sentence));
}


/// A well-formed forest: every element in it has unique attribute keys.
pub open spec fn vforest_wf(s: Seq<VNode>) -> bool {
    forall|i: int| 0 <= i < s.len() ==> vnode_wf(#[trigger] s[i])
}

proof fn lemma_vforest_wf_append(a: Seq<VNode>, b: Seq<VNode>)
    requires
        vforest_wf(a),
        vforest_wf(b),
    ensures
        vforest_wf(a + b),
{
    assert forall|i: int| 0 <= i < (a + b).len() implies vnode_wf(#[trigger] (a + b)[i]) by {
        if i < a.len() {
            assert((a + b)[i] == a[i]);
        } else {
            assert((a + b)[i] == b[i - a.len()]);
        }
    }
}

proof fn lemma_vspan_wf(para: nat, sent: nat, content: Seq<VNode>)
    requires
        vforest_wf(content),
    ensures
        vnode_wf(VNode::Element(vspan(para, sent, content))),
{
    reveal_strlit("class");
    reveal_strlit("id");
    assert("class"@.len() == 5);
    assert("id"@.len() == 2);
    let e = vspan(para, sent, content);
    assert(vattrs_wf(e.attributes));
}

proof fn lemma_conv_texts_wf(sents: Seq<Seq<char>>, parent_is_p: bool, ctx: SpecCtx)
    ensures
        vforest_wf(conv_texts(sents, parent_is_p, ctx).0),
    decreases sents.len(),
{
    if sents.len() == 0 {
        assert(vforest_wf(Seq::<VNode>::empty()));
    } else {
        let head = conv_text_one(sents[0], parent_is_p, ctx);
        lemma_conv_texts_wf(sents.subrange(1, sents.len() as int), parent_is_p, head.1);
        if head.0.len() > 0 {
            let txt = seq![VNode::Text(sents[0])];
            assert(vforest_wf(txt));
            lemma_vspan_wf(head.1.paragraph, head.1.sentence, txt);
            assert(vforest_wf(head.0));
        } else {
            assert(vforest_wf(head.0));
        }
        lemma_vforest_wf_append(
            head.0,
            conv_texts(sents.subrange(1, sents.len() as int), parent_is_p, head.1).0,
        );
    }
}

proof fn lemma_conv_node_wf(n: VNode, parent_is_p: bool, ctx: SpecCtx)
    requires
        vnode_wf(n),
    ensures
        vforest_wf(conv_node(n, parent_is_p, ctx).0),
    decreases n, 0int,
{
    match n {
        VNode::Element(e) => {
            assert(vforest_wf(e.children));
            if e.name == "img"@ {
                lemma_vspan_wf(ctx.paragraph + 1, 0, seq![VNode::Element(e)]);
                assert(vforest_wf(conv_node(n, parent_is_p, ctx).0));
            } else if is_break_name(e.name) {
                let c1 = SpecCtx {
                    paragraph: ctx.paragraph,
                    sentence: ctx.sentence,
                    pending_break: true,
                };
                lemma_conv_nodes_wf(e.children, e.name == "p"@, c1);
                assert(vforest_wf(conv_node(n, parent_is_p, ctx).0));
            } else if e.name == "math"@ || e.name == "svg"@ {
                assert(vforest_wf(Seq::<VNode>::empty()));
            } else {
                lemma_conv_nodes_wf(e.children, e.name == "p"@, ctx);
                assert(vforest_wf(conv_node(n, parent_is_p, ctx).0));
            }
        },
        VNode::Text(t) => {
            lemma_conv_texts_wf(split_sentences_spec(t), parent_is_p, ctx);
        },
        VNode::Other => {
            assert(vforest_wf(Seq::<VNode>::empty()));
        },
    }
}

/// Law: the rewrite keeps the tree well formed — every element of the
/// output, marker spans included, carries unique attribute keys, given
/// that the input did.
pub proof fn lemma_conv_nodes_wf(s: Seq<VNode>, parent_is_p: bool, ctx: SpecCtx)
    requires
        vforest_wf(s),
    ensures
        vforest_wf(conv_nodes(s, parent_is_p, ctx).0),
    decreases s, 1int,
{
    if s.len() == 0 {
        assert(vforest_wf(Seq::<VNode>::empty()));
    } else {
        let head = conv_node(s[0], parent_is_p, ctx);
        assert(vnode_wf(s[0]));
        lemma_conv_node_wf(s[0], parent_is_p, ctx);
        assert(vforest_wf(s.subrange(1, s.len() as int)));
        lemma_conv_nodes_wf(s.subrange(1, s.len() as int), parent_is_p, head.1);
        lemma_vforest_wf_append(
            head.0,
            conv_nodes(s.subrange(1, s.len() as int), parent_is_p, head.1).0,
        );
    }
}

} // verus!
