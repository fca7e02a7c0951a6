//! DOM commands that change the tree.
use vstd::prelude::*;

use super::{arg_node, DomAnswer, DomReply};
use super::read::{attribute_of, node_arg, ns_and_local, parse_arg, split_text};
use crate::mutation_impact::{local_part, parsed_u32, split_once, three_parts};
use crate::scripts::{copies_of_started, pair_walk, walk_depth, StartedScripts};
use crate::strutil::{owned, str_eq};
use crate::tree::copy::copied_data;
use crate::tree::copy_law::deep_copy_of;
use crate::fragment::xhtml;
use crate::tree::{Attribute, DomTree, Node, NodeData, NodeId, QualName};
use crate::tree::model::{data_id_value, without};
use crate::tree::node::{first_where, keep_where_not, lemma_first_where, ns_attr_set, ns_local_is, qname_is};

verus! {

/// `t1` is `t0` with at most the payload of node `n` changed, old and new
/// node related by `ok`; the id index aside.
pub open spec fn edited(t0: DomTree, t1: DomTree, n: nat, ok: spec_fn(Node, Node) -> bool) -> bool {
    &&& forall|x: nat| #[trigger] t1.live(x) == t0.live(x)
    &&& forall|x: nat| #[trigger] t1.kids(x) == t0.kids(x)
    &&& forall|x: nat| #[trigger] t1.anc(x) == t0.anc(x)
    &&& forall|x: nat| x != n && t0.live(x) ==> #[trigger] t1.node(x) == t0.node(x)
    &&& t0.live(n) ==> ok(t0.node(n), t1.node(n))
    &&& t1.same_registry(t0)
}

/// `f` is `o` after `Node::set_attribute(name, value)`.
pub open spec fn attr_set(o: Node, f: Node, name: Seq<char>, value: Seq<char>) -> bool {
    &&& f.same_but_attrs(o)
    &&& match o.attrs_of() {
        None => f == o,
        Some(a) => {
            let k = first_where(a, qname_is(name));
            let b = f.attrs_of()->Some_0;
            &&& f.attrs_of() is Some
            &&& k >= 0 ==> b.len() == a.len() && b[k].name == a[k].name && b[k].value@ == value
                && (forall|j: int| 0 <= j < a.len() && j != k ==> #[trigger] b[j] == a[j])
            &&& k < 0 ==> b.len() == a.len() + 1 && b.drop_last() == a && b.last().name.prefix is None
                && b.last().name.ns@ == Seq::<char>::empty() && b.last().name.local@ == name
                && b.last().value@ == value
        },
    }
}

/// `f` is `o` without its attributes satisfying `p`.
pub open spec fn attrs_dropped(o: Node, f: Node, p: spec_fn(Attribute) -> bool) -> bool {
    &&& f.same_but_attrs(o)
    &&& match o.attrs_of() {
        None => f == o,
        Some(a) => f.attrs_of() == Some(keep_where_not(a, p)),
    }
}

/// `f` is `o` with its character data replaced by `text` when it is a
/// Text, Comment or processing-instruction node.
pub open spec fn text_set(o: Node, f: Node, text: Seq<char>) -> bool {
    &&& f == (Node { data: f.data, ..o })
    &&& match o.data {
        NodeData::Text { .. } => f.data matches NodeData::Text { contents } && contents@ == text,
        NodeData::Comment { .. } => f.data matches NodeData::Comment { contents } && contents@ == text,
        NodeData::ProcessingInstruction { target, .. } => f.data matches NodeData::ProcessingInstruction {
            target: t,
            data,
        } && t == target && data@ == text,
        _ => f == o,
    }
}

/// The id index after the `id` value of `node` changed from `old_id` to
/// `new_id`.
pub open spec fn id_moved(
    m: Map<Seq<char>, NodeId>,
    old_id: Option<Seq<char>>,
    new_id: Option<Seq<char>>,
    node: NodeId,
) -> Map<Seq<char>, NodeId> {
    let base = match old_id {
        Some(o) => m.remove(o),
        None => m,
    };
    match new_id {
        Some(v) => base.insert(v, node),
        None => base,
    }
}

/// The node a node argument names, as an id.
pub open spec fn arg_id(a: Seq<char>) -> NodeId {
    NodeId(arg_node(a) as u32)
}

/// `set_attribute`: `a2` holds a name and a value separated by a NUL;
/// writing `id` moves the node's entry in the id index.
pub open spec fn set_attribute_done(t0: DomTree, t1: DomTree, a1: Seq<char>, a2: Seq<char>) -> bool {
    let n = arg_node(a1);
    match split_once(a2, '\0') {
        None => t1 == t0,
        Some((name, value)) => {
            &&& edited(t0, t1, n, |o: Node, f: Node| attr_set(o, f, name, value))
            &&& t1.id_map() == if name == "id"@ {
                id_moved(t0.id_map(), attribute_of(t0, n, "id"@), Some(value), arg_id(a1))
            } else {
                t0.id_map()
            }
        },
    }
}

/// `remove_attribute`: drops the attributes whose qualified name is `a2`;
/// the id index is left alone.
pub open spec fn remove_attribute_done(t0: DomTree, t1: DomTree, a1: Seq<char>, a2: Seq<char>) -> bool {
    &&& edited(t0, t1, arg_node(a1), |o: Node, f: Node| attrs_dropped(o, f, qname_is(a2)))
    &&& t1.id_map() == t0.id_map()
}

/// `set_attribute_ns`: `a2` holds a namespace, a qualified name and a
/// value separated by NULs; nothing happens for an empty qualified name.
pub open spec fn set_attribute_ns_done(t0: DomTree, t1: DomTree, a1: Seq<char>, a2: Seq<char>) -> bool {
    let n = arg_node(a1);
    let (ns, q, value) = three_parts(a2);
    if q.len() == 0 {
        t1 == t0
    } else {
        &&& edited(t0, t1, n, |o: Node, f: Node| ns_attr_set(o, f, ns, q, value))
        &&& t1.id_map() == if ns.len() == 0 && local_part(q) == "id"@ {
            id_moved(t0.id_map(), attribute_of(t0, n, "id"@), Some(value), arg_id(a1))
        } else {
            t0.id_map()
        }
    }
}

/// `remove_attribute_ns`: `a2` holds a namespace and a local name
/// separated by a NUL (no NUL: no namespace).
pub open spec fn remove_attribute_ns_done(t0: DomTree, t1: DomTree, a1: Seq<char>, a2: Seq<char>) -> bool {
    let n = arg_node(a1);
    let (ns, local) = ns_and_local(a2);
    &&& edited(t0, t1, n, |o: Node, f: Node| attrs_dropped(o, f, ns_local_is(ns, local)))
    &&& t1.id_map() == if ns.len() == 0 && local == "id"@ {
        id_moved(t0.id_map(), attribute_of(t0, n, "id"@), None, arg_id(a1))
    } else {
        t0.id_map()
    }
}

/// `set_text_content`: replaces the character data of a Text, Comment or
/// processing-instruction node.
pub open spec fn set_text_done(t0: DomTree, t1: DomTree, a1: Seq<char>, a2: Seq<char>) -> bool {
    &&& edited(t0, t1, arg_node(a1), |o: Node, f: Node| text_set(o, f, a2))
    &&& t1.id_map() == t0.id_map()
}

/// `t1` is `t0` after `append_child(p, c)`.
pub open spec fn appended(t0: DomTree, t1: DomTree, p: nat, c: nat) -> bool {
    &&& !t0.can_insert(p, c) ==> t1 == t0
    &&& t0.can_insert(p, c) ==> t1.inserted(t0, p, c) && t1.kids(p) == without(t0.kids(p), c).push(c)
}

/// `t1` is `t0` after `insert_before(e, c)`.
pub open spec fn put_before(t0: DomTree, t1: DomTree, e: nat, c: nat) -> bool {
    &&& !t0.can_insert_before(e, c) ==> t1 == t0
    &&& t0.can_insert_before(e, c) ==> {
        let p = t0.parent_of(e)->Some_0;
        let w = without(t0.kids(p), c);
        &&& t1.inserted(t0, p, c)
        &&& t1.kids(p) == w.insert(w.index_of(e), c)
    }
}

/// `t1` is `t0` after `remove_child(c)`.
pub open spec fn removed(t0: DomTree, t1: DomTree, c: nat) -> bool {
    &&& t1.id_map() == t0.id_map().remove_keys(t0.light_ids(c))
    &&& !t0.movable(c) ==> t1.same_but_ids(t0)
    &&& t0.movable(c) ==> t1.detached_from(t0, c, true)
}

/// The parent a node has, if it is live.
pub open spec fn parent_if_live(t: DomTree, n: nat) -> Option<nat> {
    if t.live(n) {
        t.parent_of(n)
    } else {
        None
    }
}

/// `append_child`: both arguments must parse; the reply says whether the
/// child now has the parent.
pub open spec fn append_done(t0: DomTree, t1: DomTree, a1: Seq<char>, a2: Seq<char>, r: DomAnswer) -> bool {
    match (parsed_u32(a1), parsed_u32(a2)) {
        (Some(p), Some(c)) => appended(t0, t1, p as nat, c as nat) && r == DomAnswer::Bool(
            parent_if_live(t1, c as nat) == Some(p as nat),
        ),
        _ => t1 == t0 && r == DomAnswer::Bool(false),
    }
}

/// `insert_before`: `a1` is the node to insert, `a2` the node it goes
/// before; the reply says whether it now has that node's parent.
pub open spec fn insert_done(t0: DomTree, t1: DomTree, a1: Seq<char>, a2: Seq<char>, r: DomAnswer) -> bool {
    match (parsed_u32(a1), parsed_u32(a2)) {
        (Some(c), Some(e)) => put_before(t0, t1, e as nat, c as nat) && r == DomAnswer::Bool(
            parent_if_live(t0, e as nat) is Some && parent_if_live(t1, c as nat) == parent_if_live(
                t0,
                e as nat,
            ),
        ),
        _ => t1 == t0 && r == DomAnswer::Bool(false),
    }
}

/// `remove_child`: the reply says whether the node had a parent and has
/// none now.
pub open spec fn remove_done(t0: DomTree, t1: DomTree, a1: Seq<char>, r: DomAnswer) -> bool {
    match parsed_u32(a1) {
        Some(c) => removed(t0, t1, c as nat) && r == DomAnswer::Bool(
            parent_if_live(t0, c as nat) is Some && t1.live(c as nat) && t1.parent_of(c as nat) is None,
        ),
        None => t1 == t0 && r == DomAnswer::Bool(false),
    }
}

/// `n` is a fresh, detached, childless node of `t1`, which is otherwise
/// `t0`; it takes the slot freed last, or a new slot when none is free.
pub open spec fn fresh(t0: DomTree, t1: DomTree, n: nat) -> bool {
    &&& n == t0.next_slot()
    &&& !t0.live(n)
    &&& t1.live(n)
    &&& t1.node(n).parent is None
    &&& t1.node(n).first_child is None
    &&& !t1.node(n).connected
    &&& t1.kids(n) == Seq::<nat>::empty()
    &&& forall|i: nat| #[trigger] t1.keeps(t0, i)
    &&& forall|i: nat| i != n ==> t1.live(i) == t0.live(i)
    &&& t1.same_registry(t0)
    &&& t1.id_map() == t0.id_map()
}

/// `t1` is `t0` with one fresh node `r` whose payload satisfies `ok`;
/// refused (-1, no change) when the arena has no id left.
pub open spec fn created(t0: DomTree, t1: DomTree, r: int, ok: spec_fn(NodeData) -> bool) -> bool {
    if !t0.can_alloc() {
        t1 == t0 && r == -1
    } else {
        r >= 0 && fresh(t0, t1, r as nat) && ok(t1.node(r as nat).data)
    }
}

/// An element payload with no attributes, named `local` with `prefix` in
/// namespace `ns`.
pub open spec fn bare_element(d: NodeData, prefix: Option<Seq<char>>, ns: Seq<char>, local: Seq<char>) -> bool {
    &&& d matches NodeData::Element { name, attrs, template_contents, mathml_annotation_xml_integration_point }
    &&& d->Element_name.ns@ == ns
    &&& d->Element_name.local@ == local
    &&& match prefix {
        Some(p) => d->Element_name.prefix matches Some(x) && x@ == p,
        None => d->Element_name.prefix is None,
    }
    &&& d->Element_attrs@.len() == 0
    &&& d->Element_template_contents is None
    &&& !d->Element_mathml_annotation_xml_integration_point
}

/// The prefix and local name `create_element_ns` reads from a qualified
/// name: `prefix:local` with both parts non-empty, or a non-empty name
/// without a colon; `None` for anything else.
pub open spec fn element_ns_name(q: Seq<char>) -> Option<(Option<Seq<char>>, Seq<char>)> {
    match split_once(q, ':') {
        Some((p, l)) => if p.len() > 0 && l.len() > 0 {
            Some((Some(p), l))
        } else {
            None
        },
        None => if q.len() > 0 {
            Some((None, q))
        } else {
            None
        },
    }
}

/// A creation command: which node it makes from `a1` and `a2`.
pub open spec fn create_done(t0: DomTree, t1: DomTree, cmd: Seq<char>, a1: Seq<char>, a2: Seq<char>, r: int) -> bool {
    if cmd == "create_document_fragment"@ {
        created(t0, t1, r, |d: NodeData| d is Document)
    } else if cmd == "create_element"@ {
        created(t0, t1, r, |d: NodeData| bare_element(d, None, xhtml(), a1))
    } else if cmd == "create_element_ns"@ {
        let (ns, q) = ns_and_local(a1);
        match element_ns_name(q) {
            Some((prefix, local)) => created(t0, t1, r, |d: NodeData| bare_element(d, prefix, ns, local)),
            None => t1 == t0 && r == -1,
        }
    } else if cmd == "create_text_node"@ {
        created(t0, t1, r, |d: NodeData| d matches NodeData::Text { contents } && contents@ == a1)
    } else if cmd == "create_comment_node"@ {
        created(t0, t1, r, |d: NodeData| d matches NodeData::Comment { contents } && contents@ == a1)
    } else if cmd == "create_processing_instruction"@ {
        created(
            t0,
            t1,
            r,
            |d: NodeData| d matches NodeData::ProcessingInstruction { target, data } && target@ == a1 && data@ == a2,
        )
    } else {
        created(
            t0,
            t1,
            r,
            |d: NodeData|
                d matches NodeData::Doctype { name, public_id, system_id } && name@ == a1 && public_id@ == a2
                    && system_id@ == Seq::<char>::empty(),
        )
    }
}

/// `template_contents`: the contents document of an element, made on
/// first use; -1 for any other node, and when a new one is needed but the
/// arena has no id left.
pub open spec fn contents_done(t0: DomTree, t1: DomTree, a1: Seq<char>, r: int) -> bool {
    let n = arg_node(a1);
    if !(t0.live(n) && t0.node(n).data is Element) {
        t1 == t0 && r == -1
    } else {
        let d = t0.node(n).data;
        match d->Element_template_contents {
            Some(c) => t1 == t0 && r == c.0 as int,
            None => if !t0.can_alloc() {
                t1 == t0 && r == -1
            } else {
                let c = r as nat;
                &&& r >= 0
                &&& !t0.live(c)
                &&& t1.live(c)
                &&& t1.node(c).data is Document
                &&& t1.parent_of(c) is None
                &&& t1.node(n).data == (NodeData::Element {
                    name: d->Element_name,
                    attrs: d->Element_attrs,
                    template_contents: Some(NodeId(c as u32)),
                    mathml_annotation_xml_integration_point: d->Element_mathml_annotation_xml_integration_point,
                })
            },
        }
    }
}

/// `t1` is `t0` after `clone_node(src, deep)` answered `res`.
pub open spec fn cloned(t0: DomTree, t1: DomTree, src: nat, deep: bool, res: Option<nat>) -> bool {
    &&& (res is None <==> !t0.live(src) || t0.is_shadow_root_node(src) || !t0.can_alloc())
    &&& res is None ==> t1 == t0
    &&& forall|x: nat| t0.live(x) ==> #[trigger] t1.live(x)
    &&& forall|x: nat| t0.live(x) ==> #[trigger] t1.node(x).data == t0.node(x).data
    &&& forall|x: nat| t0.live(x) ==> #[trigger] t1.parent_of(x) == t0.parent_of(x)
    &&& forall|x: nat| t0.live(x) ==> #[trigger] t1.kids(x) == t0.kids(x)
    &&& res matches Some(n) ==> {
        &&& !t0.live(n)
        &&& t1.live(n)
        &&& t1.parent_of(n) is None
        &&& copied_data(t0, t1, t0.node(src).data, t1.node(n).data)
        &&& !deep ==> t1.kids(n) == Seq::<nat>::empty()
        &&& !deep && t1.node(n).data is Element ==> (t1.node(n).data->Element_template_contents matches Some(
            c,
        ) ==> t1.kids(c.id()) == Seq::<nat>::empty())
        &&& deep && t1.can_alloc() ==> deep_copy_of(t0, t0, t1, src, n)
    }
}

/// `clone_node`: `a1` names the node (it must parse), `a2` is `"true"` for
/// a deep clone; the copies of started scripts count as started.
pub open spec fn clone_done(
    t0: DomTree,
    t1: DomTree,
    s0: Set<nat>,
    s1: Set<nat>,
    a1: Seq<char>,
    a2: Seq<char>,
    r: int,
) -> bool {
    match parsed_u32(a1) {
        None => t1 == t0 && s1 == s0 && r == -1,
        Some(src) => {
            let res = if r >= 0 {
                Some(r as nat)
            } else {
                None
            };
            &&& cloned(t0, t1, src as nat, a2 == "true"@, res)
            &&& s1 == match res {
                Some(c) => s0.union(
                    copies_of_started(pair_walk(t1, src as nat, c, walk_depth(t1)), s0).to_set(),
                ),
                None => s0,
            }
        },
    }
}

pub open spec fn is_create_cmd(cmd: Seq<char>) -> bool {
    ||| cmd == "create_document_fragment"@
    ||| cmd == "create_element"@
    ||| cmd == "create_element_ns"@
    ||| cmd == "create_text_node"@
    ||| cmd == "create_comment_node"@
    ||| cmd == "create_processing_instruction"@
    ||| cmd == "create_doctype"@
}

pub open spec fn is_update_cmd(cmd: Seq<char>) -> bool {
    ||| cmd == "set_attribute"@
    ||| cmd == "remove_attribute"@
    ||| cmd == "set_attribute_ns"@
    ||| cmd == "remove_attribute_ns"@
    ||| cmd == "set_text_content"@
    ||| cmd == "append_child"@
    ||| cmd == "insert_before"@
    ||| cmd == "remove_child"@
    ||| cmd == "template_contents"@
    ||| cmd == "clone_node"@
    ||| is_create_cmd(cmd)
}

/// What a command that changes the tree does, to the tree `t0` and the set
/// `s0` of started scripts, and what it answers; `None` for any other
/// command, which changes nothing.
pub open spec fn update_answer(
    t0: DomTree,
    t1: DomTree,
    s0: Set<nat>,
    s1: Set<nat>,
    cmd: Seq<char>,
    a1: Seq<char>,
    a2: Seq<char>,
    r: Option<DomAnswer>,
) -> bool {
    if cmd == "set_attribute"@ {
        r == Some(DomAnswer::Bool(true)) && set_attribute_done(t0, t1, a1, a2) && s1 == s0
    } else if cmd == "remove_attribute"@ {
        r == Some(DomAnswer::Bool(true)) && remove_attribute_done(t0, t1, a1, a2) && s1 == s0
    } else if cmd == "set_attribute_ns"@ {
        r == Some(DomAnswer::Bool(true)) && set_attribute_ns_done(t0, t1, a1, a2) && s1 == s0
    } else if cmd == "remove_attribute_ns"@ {
        r == Some(DomAnswer::Bool(true)) && remove_attribute_ns_done(t0, t1, a1, a2) && s1 == s0
    } else if cmd == "set_text_content"@ {
        r == Some(DomAnswer::Bool(true)) && set_text_done(t0, t1, a1, a2) && s1 == s0
    } else if cmd == "append_child"@ {
        r matches Some(x) && append_done(t0, t1, a1, a2, x) && s1 == s0
    } else if cmd == "insert_before"@ {
        r matches Some(x) && insert_done(t0, t1, a1, a2, x) && s1 == s0
    } else if cmd == "remove_child"@ {
        r matches Some(x) && remove_done(t0, t1, a1, x) && s1 == s0
    } else if cmd == "template_contents"@ {
        r matches Some(DomAnswer::Int(x)) && contents_done(t0, t1, a1, x) && s1 == s0
    } else if cmd == "clone_node"@ {
        r matches Some(DomAnswer::Int(x)) && clone_done(t0, t1, s0, s1, a1, a2, x)
    } else if is_create_cmd(cmd) {
        r matches Some(DomAnswer::Int(x)) && create_done(t0, t1, cmd, a1, a2, x) && s1 == s0
    } else {
        r is None && t1 == t0 && s1 == s0
    }
}

impl DomTree {
    proof fn lemma_edit(t0: DomTree, t1: DomTree, n: nat)
        requires
            t0.wf(),
            t0.live(n) ==> t1.data_set_from(t0, n),
            !t0.live(n) ==> t1 == t0,
        ensures
            t1.wf(),
            forall|x: nat| #[trigger] t1.live(x) == t0.live(x),
            forall|x: nat| #[trigger] t1.kids(x) == t0.kids(x),
            forall|x: nat| #[trigger] t1.anc(x) == t0.anc(x),
            forall|x: nat| x != n && t0.live(x) ==> #[trigger] t1.node(x) == t0.node(x),
            t1.same_registry(t0),
            t1.id_map() == t0.id_map(),
    {
        if t0.live(n) {
            t1.lemma_data_set(t0, n);
        }
    }

    proof fn lemma_ids_only(t0: DomTree, t1: DomTree)
        requires
            t1.same_but_ids(t0),
        ensures
            forall|x: nat| #[trigger] t1.live(x) == t0.live(x),
            forall|x: nat| #[trigger] t1.kids(x) == t0.kids(x),
            forall|x: nat| #[trigger] t1.anc(x) == t0.anc(x),
            forall|x: nat| #[trigger] t1.node(x) == t0.node(x),
            t1.same_registry(t0),
    {
        assert forall|r: nat| #[trigger] t1.shadow_info(r) == t0.shadow_info(r) by {}
        assert forall|h: nat| #[trigger] t1.hosted(h) == t0.hosted(h) by {}
    }

    fn run_set_attribute(&mut self, arg1: &str, arg2: &str)
        requires
            old(self).wf(),
        ensures
            final(self).wf(),
            set_attribute_done(*old(self), *final(self), arg1@, arg2@),
    {
        let ghost t0 = *self;
        let n = node_arg(arg1);
        let ghost ni = n.id();
        proof {
            assert(n == arg_id(arg1@));
        }
        match split_text(arg2, '\0') {
            None => {},
            Some((name, value)) => {
                let is_id = str_eq(name.as_str(), "id");
                let old_id = self.attribute_value(n, "id");
                let new_value = owned(value.as_str());
                self.set_node_attribute(n, name.as_str(), new_value);
                let ghost t1 = *self;
                proof {
                    DomTree::lemma_edit(t0, t1, ni);
                    if t0.live(ni) {
                        assert(t1.node(ni).same_but_attrs(t0.node(ni)));
                        match t0.node(ni).attrs_of() {
                            Some(a) => {
                                lemma_first_where(a, qname_is(name@), 0);
                                let k = first_where(a, qname_is(name@));
                                let b = t1.node(ni).attrs_of()->Some_0;
                                assert(t1.node(ni).attrs_of() is Some);
                                if k >= 0 {
                                    assert(b.len() == a.len());
                                    assert(b[k].name == a[k].name);
                                    assert(b[k].value@ == value@);
                                    assert(forall|j: int| 0 <= j < a.len() && j != k ==> #[trigger] b[j] == a[j]);
                                } else {
                                    assert(b.last().value@ == value@);
                                }
                            },
                            None => {},
                        }
                        assert(attr_set(t0.node(ni), t1.node(ni), name@, value@));
                    }
                }
                if is_id {
                    let o = match &old_id {
                        Some(s) => Some(s.as_str()),
                        None => None,
                    };
                    self.update_id_index(n, o, Some(value.as_str()));
                    proof {
                        DomTree::lemma_ids_only(t1, *self);
                    }
                }
            },
        }
    }

    fn run_remove_attribute(&mut self, arg1: &str, arg2: &str)
        requires
            old(self).wf(),
        ensures
            final(self).wf(),
            remove_attribute_done(*old(self), *final(self), arg1@, arg2@),
    {
        let ghost t0 = *self;
        let n = node_arg(arg1);
        self.remove_node_attribute(n, arg2);
        proof {
            DomTree::lemma_edit(t0, *self, n.id());
        }
    }

    fn run_set_text(&mut self, arg1: &str, arg2: &str)
        requires
            old(self).wf(),
        ensures
            final(self).wf(),
            set_text_done(*old(self), *final(self), arg1@, arg2@),
    {
        let ghost t0 = *self;
        let n = node_arg(arg1);
        self.set_node_text(n, arg2);
        proof {
            DomTree::lemma_edit(t0, *self, n.id());
        }
    }

    fn run_set_attribute_ns(&mut self, arg1: &str, arg2: &str)
        requires
            old(self).wf(),
        ensures
            final(self).wf(),
            set_attribute_ns_done(*old(self), *final(self), arg1@, arg2@),
    {
        let ghost t0 = *self;
        let n = node_arg(arg1);
        let ghost ni = n.id();
        proof {
            assert(n == arg_id(arg1@));
        }
        let (ns, qualified, value) = split_three(arg2);
        proof {
            reveal_strlit("");
        }
        if str_eq(qualified.as_str(), "") {
            return;
        }
        proof {
            assert(qualified@.len() == 0 ==> qualified@ =~= ""@);
        }
        let local = match split_text(qualified.as_str(), ':') {
            Some((_, l)) => l,
            None => owned(qualified.as_str()),
        };
        let is_id = str_eq(ns.as_str(), "") && str_eq(local.as_str(), "id");
        let old_id = self.attribute_value(n, "id");
        let new_value = owned(value.as_str());
        self.set_node_attribute_ns(n, ns.as_str(), qualified.as_str(), new_value);
        let ghost t1 = *self;
        proof {
            DomTree::lemma_edit(t0, t1, ni);
            assert(local@ == local_part(qualified@));
            assert(""@.len() == 0);
            assert(ns@.len() == 0 ==> ns@ =~= ""@);
            assert(is_id == (ns@.len() == 0 && local_part(qualified@) == "id"@));
            assert((ns@, qualified@, value@) == three_parts(arg2@));
            assert(edited(t0, t1, ni, |o: Node, f: Node| ns_attr_set(o, f, ns@, qualified@, value@)));
        }
        if is_id {
            let o = match &old_id {
                Some(s) => Some(s.as_str()),
                None => None,
            };
            self.update_id_index(n, o, Some(value.as_str()));
            proof {
                DomTree::lemma_ids_only(t1, *self);
            }
        }
    }

    fn run_remove_attribute_ns(&mut self, arg1: &str, arg2: &str)
        requires
            old(self).wf(),
        ensures
            final(self).wf(),
            remove_attribute_ns_done(*old(self), *final(self), arg1@, arg2@),
    {
        let ghost t0 = *self;
        let n = node_arg(arg1);
        let ghost ni = n.id();
        proof {
            assert(n == arg_id(arg1@));
        }
        let (ns, local) = match split_text(arg2, '\0') {
            Some(p) => p,
            None => (String::new(), owned(arg2)),
        };
        proof {
            reveal_strlit("");
        }
        let is_id = str_eq(ns.as_str(), "") && str_eq(local.as_str(), "id");
        let old_id = self.attribute_value(n, "id");
        self.remove_node_attribute_ns(n, ns.as_str(), local.as_str());
        let ghost t1 = *self;
        proof {
            DomTree::lemma_edit(t0, t1, ni);
            assert(ns@.len() == 0 ==> ns@ =~= ""@);
            assert((ns@, local@) == ns_and_local(arg2@));
            assert(edited(t0, t1, ni, |o: Node, f: Node| attrs_dropped(o, f, ns_local_is(ns@, local@))));
        }
        if is_id {
            let o = match &old_id {
                Some(s) => Some(s.as_str()),
                None => None,
            };
            self.update_id_index(n, o, None);
            proof {
                DomTree::lemma_ids_only(t1, *self);
            }
        }
    }

    fn run_append_child(&mut self, arg1: &str, arg2: &str) -> (r: bool)
        requires
            old(self).wf(),
        ensures
            final(self).wf(),
            append_done(*old(self), *final(self), arg1@, arg2@, DomAnswer::Bool(r)),
    {
        let parent = match parse_arg(arg1) {
            Some(v) => NodeId::new(v),
            None => {
                return false;
            },
        };
        let child = match parse_arg(arg2) {
            Some(v) => NodeId::new(v),
            None => {
                return false;
            },
        };
        self.append_child(parent, child);
        self.parent_is(child, parent)
    }

    fn run_insert_before(&mut self, arg1: &str, arg2: &str) -> (r: bool)
        requires
            old(self).wf(),
        ensures
            final(self).wf(),
            insert_done(*old(self), *final(self), arg1@, arg2@, DomAnswer::Bool(r)),
    {
        let new_node = match parse_arg(arg1) {
            Some(v) => NodeId::new(v),
            None => {
                return false;
            },
        };
        let ref_node = match parse_arg(arg2) {
            Some(v) => NodeId::new(v),
            None => {
                return false;
            },
        };
        let expected = match self.node_ref(ref_node) {
            Some(nd) => nd.parent,
            None => None,
        };
        self.insert_before(ref_node, new_node);
        match expected {
            Some(p) => self.parent_is(new_node, p),
            None => false,
        }
    }

    fn run_remove_child(&mut self, arg1: &str) -> (r: bool)
        requires
            old(self).wf(),
        ensures
            final(self).wf(),
            remove_done(*old(self), *final(self), arg1@, DomAnswer::Bool(r)),
    {
        let child = match parse_arg(arg1) {
            Some(v) => NodeId::new(v),
            None => {
                return false;
            },
        };
        let had_parent = match self.node_ref(child) {
            Some(nd) => nd.parent.is_some(),
            None => false,
        };
        self.remove_child(child);
        let orphan = match self.node_ref(child) {
            Some(nd) => nd.parent.is_none(),
            None => false,
        };
        had_parent && orphan
    }

    fn make_node(&mut self, data: NodeData) -> (r: i64)
        requires
            old(self).wf(),
            data_id_value(data) is None,
        ensures
            final(self).wf(),
            !old(self).can_alloc() ==> *final(self) == *old(self) && r == -1,
            old(self).can_alloc() ==> r >= 0 && fresh(*old(self), *final(self), r as nat),
            old(self).can_alloc() ==> final(self).node(r as nat).data == data,
    {
        if !self.can_allocate() {
            return -1;
        }
        let id = self.new_node(data);
        id.0 as i64
    }

    #[verifier::rlimit(30)]
    fn run_create(&mut self, cmd: &str, arg1: &str, arg2: &str) -> (r: i64)
        requires
            old(self).wf(),
        ensures
            final(self).wf(),
            create_done(*old(self), *final(self), cmd@, arg1@, arg2@, r as int),
    {
        proof {
            reveal_strlit("");
        }
        if str_eq(cmd, "create_document_fragment") {
            self.make_node(NodeData::Document)
        } else if str_eq(cmd, "create_element") {
            self.make_node(
                NodeData::Element {
                    name: QualName { prefix: None, ns: owned("http://www.w3.org/1999/xhtml"), local: owned(arg1) },
                    attrs: Vec::new(),
                    template_contents: None,
                    mathml_annotation_xml_integration_point: false,
                },
            )
        } else if str_eq(cmd, "create_element_ns") {
            let (ns, qualified) = match split_text(arg1, '\0') {
                Some(p) => p,
                None => (String::new(), owned(arg1)),
            };
            proof {
                assert((ns@, qualified@) == ns_and_local(arg1@));
                assert(""@ =~= Seq::<char>::empty());
            }
            let (prefix, local) = match split_text(qualified.as_str(), ':') {
                Some((p, l)) => {
                    if str_eq(p.as_str(), "") || str_eq(l.as_str(), "") {
                        proof {
                            assert(element_ns_name(qualified@) is None);
                        }
                        return -1;
                    }
                    proof {
                        assert(p@.len() == 0 ==> p@ =~= ""@);
                        assert(l@.len() == 0 ==> l@ =~= ""@);
                    }
                    (Some(p), l)
                },
                None => {
                    if str_eq(qualified.as_str(), "") {
                        proof {
                            assert(element_ns_name(qualified@) is None);
                        }
                        return -1;
                    }
                    proof {
                        assert(qualified@.len() == 0 ==> qualified@ =~= ""@);
                    }
                    (None, qualified)
                },
            };
            proof {
                assert(""@.len() == 0);
            }
            self.make_node(
                NodeData::Element {
                    name: QualName { prefix, ns, local },
                    attrs: Vec::new(),
                    template_contents: None,
                    mathml_annotation_xml_integration_point: false,
                },
            )
        } else if str_eq(cmd, "create_text_node") {
            self.make_node(NodeData::Text { contents: owned(arg1) })
        } else if str_eq(cmd, "create_comment_node") {
            self.make_node(NodeData::Comment { contents: owned(arg1) })
        } else if str_eq(cmd, "create_processing_instruction") {
            self.make_node(NodeData::ProcessingInstruction { target: owned(arg1), data: owned(arg2) })
        } else {
            self.make_node(
                NodeData::Doctype { name: owned(arg1), public_id: owned(arg2), system_id: String::new() },
            )
        }
    }

    fn run_template_contents(&mut self, arg1: &str) -> (r: i64)
        requires
            old(self).wf(),
        ensures
            final(self).wf(),
            contents_done(*old(self), *final(self), arg1@, r as int),
    {
        let n = node_arg(arg1);
        if !self.can_allocate() {
            return match self.node_ref(n) {
                Some(nd) => match &nd.data {
                    NodeData::Element { template_contents, .. } => match template_contents {
                        Some(c) => c.0 as i64,
                        None => -1,
                    },
                    _ => -1,
                },
                None => -1,
            };
        }
        match self.template_contents(n) {
            Some(c) => c.0 as i64,
            None => -1,
        }
    }

    fn run_clone(&mut self, started: &mut StartedScripts, arg1: &str, arg2: &str) -> (r: i64)
        requires
            old(self).wf(),
        ensures
            final(self).wf(),
            clone_done(*old(self), *final(self), old(started)@, final(started)@, arg1@, arg2@, r as int),
    {
        let source = match parse_arg(arg1) {
            Some(v) => NodeId::new(v),
            None => {
                return -1;
            },
        };
        proof {
            reveal_strlit("true");
        }
        let deep = str_eq(arg2, "true");
        match self.clone_node(source, deep) {
            Some(c) => {
                started.propagate_script_start_state(self, source, c);
                c.0 as i64
            },
            None => -1,
        }
    }

    /// Whether live node `c` has parent `p`.
    fn parent_is(&self, c: NodeId, p: NodeId) -> (r: bool)
        requires
            self.wf(),
        ensures
            r == (parent_if_live(*self, c.id()) == Some(p.id())),
    {
        match self.node_ref(c) {
            Some(nd) => match nd.parent {
                Some(x) => x.0 == p.0,
                None => false,
            },
            None => false,
        }
    }

    /// The value of attribute `name` of node `n`, if any.
    fn attribute_value(&self, n: NodeId, name: &str) -> (r: Option<String>)
        requires
            self.wf(),
        ensures
            super::opt_text_view(r) == attribute_of(*self, n.id(), name@),
    {
        match self.node_ref(n) {
            Some(nd) => match nd.get_attribute(name) {
                Some(v) => Some(owned(v)),
                None => None,
            },
            None => None,
        }
    }
}

/// `splitn(3, '\0')` with each missing part read as empty.
fn split_three(s: &str) -> (r: (String, String, String))
    ensures
        (r.0@, r.1@, r.2@) == three_parts(s@),
{
    match split_text(s, '\0') {
        None => (owned(s), String::new(), String::new()),
        Some((a, rest)) => match split_text(rest.as_str(), '\0') {
            None => (a, rest, String::new()),
            Some((b, c)) => (a, b, c),
        },
    }
}

impl DomTree {
    /// Runs a DOM command that changes the tree; `None`, with nothing
    /// changed, when `cmd` is not such a command.
    #[verifier::rlimit(40)]
    pub fn dom_update(&mut self, started: &mut StartedScripts, cmd: &str, arg1: &str, arg2: &str) -> (r:
        Option<DomReply>)
        requires
            old(self).wf(),
        ensures
            final(self).wf(),
            update_answer(
                *old(self),
                *final(self),
                old(started)@,
                final(started)@,
                cmd@,
                arg1@,
                arg2@,
                super::read::opt_reply_view(r),
            ),
    {
        if str_eq(cmd, "set_attribute") {
            self.run_set_attribute(arg1, arg2);
            Some(DomReply::Bool(true))
        } else if str_eq(cmd, "remove_attribute") {
            self.run_remove_attribute(arg1, arg2);
            Some(DomReply::Bool(true))
        } else if str_eq(cmd, "set_attribute_ns") {
            self.run_set_attribute_ns(arg1, arg2);
            Some(DomReply::Bool(true))
        } else if str_eq(cmd, "remove_attribute_ns") {
            self.run_remove_attribute_ns(arg1, arg2);
            Some(DomReply::Bool(true))
        } else if str_eq(cmd, "set_text_content") {
            self.run_set_text(arg1, arg2);
            Some(DomReply::Bool(true))
        } else if str_eq(cmd, "append_child") {
            Some(DomReply::Bool(self.run_append_child(arg1, arg2)))
        } else if str_eq(cmd, "insert_before") {
            Some(DomReply::Bool(self.run_insert_before(arg1, arg2)))
        } else if str_eq(cmd, "remove_child") {
            Some(DomReply::Bool(self.run_remove_child(arg1)))
        } else if str_eq(cmd, "template_contents") {
            Some(DomReply::Int(self.run_template_contents(arg1)))
        } else if str_eq(cmd, "clone_node") {
            Some(DomReply::Int(self.run_clone(started, arg1, arg2)))
        } else if str_eq(cmd, "create_document_fragment") || str_eq(cmd, "create_element") || str_eq(
            cmd,
            "create_element_ns",
        ) || str_eq(cmd, "create_text_node") || str_eq(cmd, "create_comment_node") || str_eq(
            cmd,
            "create_processing_instruction",
        ) || str_eq(cmd, "create_doctype") {
            Some(DomReply::Int(self.run_create(cmd, arg1, arg2)))
        } else {
            None
        }
    }
}

} // verus!
