//! Edits of node payloads that leave the tree's shape alone: attributes,
//! text and template contents.
use vstd::prelude::*;

use super::{Attribute, DomTree, Node, NodeData, NodeId};
use super::node::{first_where, qname_is, ns_local_is, keep_where_not, first_colon, ns_attr_set};
use crate::strutil::{owned, str_eq};
use super::model::{last_of, without};

verus! {

impl DomTree {
    /// Only the payload of live node `i` changed, and it is an element
    /// exactly when it was before.
    pub open(crate) spec fn data_set_from(&self, old: DomTree, i: nat) -> bool {
        &&& old.live(i)
        &&& self.nodes@.len() == old.nodes@.len()
        &&& self.nodes@ == old.nodes@.update(i as int, Some(self.node(i)))
        &&& self.node(i) == (Node { data: self.node(i).data, ..old.node(i) })
        &&& (self.node(i).data is Element) == (old.node(i).data is Element)
        &&& self.free_list@ == old.free_list@
        &&& self.document == old.document
        &&& self.id_index@ == old.id_index@
        &&& self.root_info@ == old.root_info@
        &&& self.hosted_root@ == old.hosted_root@
        &&& self.kids@ == old.kids@
        &&& self.anc@ == old.anc@
        &&& self.quirks == old.quirks
        &&& self.allow_declarative_shadow_roots == old.allow_declarative_shadow_roots
    }

    /// Changing a payload keeps the tree well formed.
    pub(crate) proof fn lemma_data_set(&self, old: DomTree, i: nat)
        requires
            old.wf(),
            self.data_set_from(old, i),
        ensures
            self.wf(),
            forall|x: nat| #[trigger] self.live(x) == old.live(x),
            forall|x: nat| #[trigger] self.kids(x) == old.kids(x),
            forall|x: nat| #[trigger] self.anc(x) == old.anc(x),
            forall|x: nat| x != i && old.live(x) ==> #[trigger] self.node(x) == old.node(x),
            self.same_registry(old),
            self.id_map() == old.id_map(),
    {
        reveal(DomTree::wf_arena);
        reveal(DomTree::wf_links);
        reveal(DomTree::wf_shadow);
        reveal(DomTree::wf_anc);
        reveal(DomTree::wf_ids);
        reveal(DomTree::wf_conn);
        assert forall|x: nat| #[trigger] self.live(x) == old.live(x) by {}
        assert forall|x: nat| x != i && old.live(x) implies #[trigger] self.node(x) == old.node(x) by {}
        assert forall|p: nat| #[trigger] self.live(p) implies self.kids_ok(p) by {
            assert(old.live(p));
            assert(old.kids_ok(p));
            assert forall|j: int| 0 <= j < self.kids(p).len() implies #[trigger] self.kid_ok(p, j) by {
                assert(old.kid_ok(p, j));
            }
        }
        assert forall|p: nat| #[trigger] self.live(p) implies self.parent_ok(p) by {
            assert(old.live(p));
            assert(old.parent_ok(p));
        }
        assert forall|p: nat| #[trigger] self.live(p) implies self.anc_ok(p) by {
            assert(old.live(p));
            assert(old.anc_ok(p));
        }
        assert forall|p: nat| #[trigger] self.live(p) implies self.conn_ok(p) by {
            assert(old.live(p));
            assert(old.conn_ok(p));
        }
        assert forall|r: nat| #[trigger] self.shadow_info(r) is Some implies self.shadow_ok(r) by {
            assert(old.shadow_ok(r));
        }
        assert forall|r: nat| #[trigger] self.hosted(r) is Some implies self.host_ok(r) by {
            assert(old.host_ok(r));
        }
        assert forall|x: nat| #[trigger] self.live(x) implies self.node(x).id.0 == x by {
            assert(old.live(x));
        }
        assert forall|r: nat| #[trigger] self.shadow_info(r) == old.shadow_info(r) by {}
        assert forall|r: nat| #[trigger] self.hosted(r) == old.hosted(r) by {}
        assert(self.id_map() =~= old.id_map());
    }

    /// Sets attribute `name` of element `id` as `Node::set_attribute` does;
    /// any other node is left alone. The id index is not touched.
    pub fn set_node_attribute(&mut self, id: NodeId, name: &str, value: String)
        requires
            old(self).wf(),
        ensures
            final(self).wf(),
            !old(self).live(id.id()) ==> *final(self) == *old(self),
            old(self).live(id.id()) ==> final(self).data_set_from(*old(self), id.id()),
            old(self).live(id.id()) ==> final(self).node(id.id()).same_but_attrs(old(self).node(id.id())),
            old(self).live(id.id()) ==> match old(self).node(id.id()).attrs_of() {
                None => final(self).node(id.id()) == old(self).node(id.id()),
                Some(a) => {
                    let k = first_where(a, qname_is(name@));
                    let b = final(self).node(id.id()).attrs_of()->Some_0;
                    &&& final(self).node(id.id()).attrs_of() is Some
                    &&& k >= 0 ==> b == a.update(k, Attribute { value, ..a[k] })
                    &&& k < 0 ==> b.len() == a.len() + 1 && b.drop_last() == a
                        && b.last().name.prefix is None && b.last().name.ns@ == Seq::<char>::empty()
                        && b.last().name.local@ == name@ && b.last().value == value
                },
            },
    {
        let ghost t = *self;
        if self.node_ref(id).is_none() {
            return;
        }
        let i = id.0 as usize;
        proof {
            reveal(DomTree::wf_arena);
        }
        match &mut self.nodes[i] {
            Some(n) => {
                n.set_attribute(name, value);
            },
            None => {},
        }
        proof {
            assert(self.nodes@ =~= t.nodes@.update(i as int, Some(self.node(id.id()))));
            self.lemma_data_set(t, id.id());
        }
    }

    /// Sets a namespaced attribute of element `id` as
    /// `Node::set_attribute_ns` does; any other node is left alone.
    pub fn set_node_attribute_ns(&mut self, id: NodeId, ns: &str, qualified: &str, value: String)
        requires
            old(self).wf(),
        ensures
            final(self).wf(),
            !old(self).live(id.id()) ==> *final(self) == *old(self),
            old(self).live(id.id()) ==> final(self).data_set_from(*old(self), id.id()),
            old(self).live(id.id()) ==> final(self).node(id.id()).same_but_attrs(old(self).node(id.id())),
            old(self).live(id.id()) && old(self).node(id.id()).attrs_of() is None ==> final(self).node(id.id()) == old(self).node(id.id()),
            old(self).live(id.id()) ==> ns_attr_set(old(self).node(id.id()), final(self).node(id.id()), ns@, qualified@, value@),
    {
        let ghost t = *self;
        if self.node_ref(id).is_none() {
            return;
        }
        let i = id.0 as usize;
        proof {
            reveal(DomTree::wf_arena);
        }
        match &mut self.nodes[i] {
            Some(n) => {
                n.set_attribute_ns(ns, qualified, value);
            },
            None => {},
        }
        proof {
            assert(self.nodes@ =~= t.nodes@.update(i as int, Some(self.node(id.id()))));
            self.lemma_data_set(t, id.id());
        }
    }

    /// Drops the namespaced attribute `(ns, local)` of element `id`; any other
    /// node is left alone.
    pub fn remove_node_attribute_ns(&mut self, id: NodeId, ns: &str, local: &str)
        requires
            old(self).wf(),
        ensures
            final(self).wf(),
            !old(self).live(id.id()) ==> *final(self) == *old(self),
            old(self).live(id.id()) ==> final(self).data_set_from(*old(self), id.id()),
            old(self).live(id.id()) ==> final(self).node(id.id()).same_but_attrs(old(self).node(id.id())),
            old(self).live(id.id()) ==> match old(self).node(id.id()).attrs_of() {
                None => final(self).node(id.id()) == old(self).node(id.id()),
                Some(a) => final(self).node(id.id()).attrs_of() == Some(
                    keep_where_not(a, ns_local_is(ns@, local@)),
                ),
            },
    {
        let ghost t = *self;
        if self.node_ref(id).is_none() {
            return;
        }
        let i = id.0 as usize;
        proof {
            reveal(DomTree::wf_arena);
        }
        match &mut self.nodes[i] {
            Some(n) => {
                n.remove_attribute_ns(ns, local);
            },
            None => {},
        }
        proof {
            assert(self.nodes@ =~= t.nodes@.update(i as int, Some(self.node(id.id()))));
            self.lemma_data_set(t, id.id());
        }
    }

    /// Drops the attributes of element `id` whose qualified name is
    /// `name`; any other node is left alone. The id index is not touched.
    pub fn remove_node_attribute(&mut self, id: NodeId, name: &str)
        requires
            old(self).wf(),
        ensures
            final(self).wf(),
            !old(self).live(id.id()) ==> *final(self) == *old(self),
            old(self).live(id.id()) ==> final(self).data_set_from(*old(self), id.id()),
            old(self).live(id.id()) ==> final(self).node(id.id()).same_but_attrs(old(self).node(id.id())),
            old(self).live(id.id()) ==> match old(self).node(id.id()).attrs_of() {
                None => final(self).node(id.id()) == old(self).node(id.id()),
                Some(a) => final(self).node(id.id()).attrs_of() == Some(keep_where_not(a, qname_is(name@))),
            },
    {
        let ghost t = *self;
        if self.node_ref(id).is_none() {
            return;
        }
        let i = id.0 as usize;
        proof {
            reveal(DomTree::wf_arena);
        }
        match &mut self.nodes[i] {
            Some(n) => {
                n.remove_attribute(name);
            },
            None => {},
        }
        proof {
            assert(self.nodes@ =~= t.nodes@.update(i as int, Some(self.node(id.id()))));
            self.lemma_data_set(t, id.id());
        }
    }

    /// Replaces the character data of node `id` when it is a Text, Comment
    /// or processing-instruction node; any other node is left alone.
    pub fn set_node_text(&mut self, id: NodeId, text: &str)
        requires
            old(self).wf(),
        ensures
            final(self).wf(),
            !old(self).live(id.id()) ==> *final(self) == *old(self),
            old(self).live(id.id()) ==> final(self).data_set_from(*old(self), id.id()),
            old(self).live(id.id()) ==> match old(self).node(id.id()).data {
                NodeData::Text { .. } => final(self).node(id.id()).data matches NodeData::Text { contents } && contents@ == text@,
                NodeData::Comment { .. } => final(self).node(id.id()).data matches NodeData::Comment { contents } && contents@ == text@,
                NodeData::ProcessingInstruction { target, .. } => final(self).node(id.id()).data matches NodeData::ProcessingInstruction { target: t, data } && t == target && data@ == text@,
                _ => final(self).node(id.id()) == old(self).node(id.id()),
            },
    {
        let ghost t = *self;
        if self.node_ref(id).is_none() {
            return;
        }
        let i = id.0 as usize;
        proof {
            reveal(DomTree::wf_arena);
        }
        match &mut self.nodes[i] {
            Some(n) => {
                n.set_character_data(text);
            },
            None => {},
        }
        proof {
            assert(self.nodes@ =~= t.nodes@.update(i as int, Some(self.node(id.id()))));
            self.lemma_data_set(t, id.id());
        }
    }

    /// The last child of live `p`, when it is a Text node.
    pub open spec fn last_text_child(&self, p: nat) -> Option<nat> {
        if self.live(p) && self.kids(p).len() > 0 && self.node(self.kids(p).last()).data is Text {
            Some(self.kids(p).last())
        } else {
            None
        }
    }

    /// Appends `text` to `parent_id`: merged into its last child when that
    /// is a Text node, otherwise as a new Text node appended to it (which
    /// stays detached when `parent_id` is a free slot).
    pub fn append_text(&mut self, parent_id: NodeId, text: &str)
        requires
            old(self).wf(),
            old(self).can_alloc(),
        ensures
            final(self).wf(),
            match old(self).last_text_child(parent_id.id()) {
                Some(lc) => {
                    &&& final(self).data_set_from(*old(self), lc)
                    &&& final(self).node(lc).data is Text
                    &&& final(self).node(lc).data->Text_contents@ == old(self).node(lc).data->Text_contents@
                        + text@
                },
                None => exists|n: nat| {
                    &&& !old(self).live(n)
                    &&& final(self).live(n)
                    &&& final(self).node(n).data is Text
                    &&& final(self).node(n).data->Text_contents@ == text@
                    &&& old(self).live(parent_id.id()) ==> final(self).parent_of(n) == Some(parent_id.id())
                        && final(self).kids(parent_id.id()) == old(self).kids(parent_id.id()).push(n)
                    &&& !old(self).live(parent_id.id()) ==> final(self).parent_of(n) is None
                },
            },
            forall|i: nat|
                #[trigger] old(self).live(i) && old(self).last_text_child(parent_id.id()) != Some(i)
                    ==> final(self).live(i) && final(self).node(i).data == old(self).node(i).data,
            forall|i: nat|
                #[trigger] old(self).live(i) && i != parent_id.id() ==> final(self).kids(i) == old(
                    self,
                ).kids(i),
    {
        let ghost t0 = *self;
        let ghost p = parent_id.id();
        let last = match self.node_ref(parent_id) {
            Some(pn) => match pn.last_child {
                Some(lc) => match self.node_ref(lc) {
                    Some(n) => if n.is_text() {
                        Some(lc)
                    } else {
                        None
                    },
                    None => None,
                },
                None => None,
            },
            None => None,
        };
        proof {
            if t0.live(p) {
                t0.lemma_at(p);
                if t0.kids(p).len() > 0 {
                    t0.lemma_kids_bound(p);
                    assert(t0.live(t0.kids(p).last()));
                    t0.lemma_at(t0.kids(p).last());
                }
            }
        }
        match last {
            Some(lc) => {
                let i = lc.0 as usize;
                proof {
                    reveal(DomTree::wf_arena);
                    assert(lc.id() == t0.kids(p).last());
                }
                match &mut self.nodes[i] {
                    Some(n) => match &mut n.data {
                        NodeData::Text { contents } => {
                            contents.append(text);
                        },
                        _ => {},
                    },
                    None => {},
                }
                proof {
                    assert(self.nodes@ =~= t0.nodes@.update(i as int, Some(self.node(lc.id()))));
                    self.lemma_data_set(t0, lc.id());
                    assert forall|j: nat|
                        #[trigger] t0.live(j) && t0.last_text_child(p) != Some(j) implies self.live(j)
                        && self.node(j).data == t0.node(j).data by {
                        reveal(DomTree::wf_arena);
                        assert(j != lc.id());
                        assert(self.nodes@[j as int] == t0.nodes@[j as int]);
                    }
                }
            },
            None => {
                let tn = self.new_node(NodeData::Text { contents: owned(text) });
                let ghost t1 = *self;
                let ghost n = tn.id();
                proof {
                    assert(t1.keeps(t0, p));
                    t1.lemma_at(n);
                    assert(t1.shadow_info(n) is None) by {
                        reveal(DomTree::wf_shadow);
                        if t0.shadow_info(n) is Some {
                            t0.lemma_shadow_at(n);
                        }
                    }
                    assert(t1.hosted(n) is None) by {
                        if t0.hosted(n) is Some {
                            t0.lemma_host_at(n);
                        }
                    }
                    if t0.live(p) {
                        assert(p != n);
                        assert(!t1.in_hsub(n, p)) by {
                            if t1.in_hsub(n, p) {
                                t1.lemma_at(p);
                                let u = t1.lemma_path_step(n, p);
                                t1.lemma_hchild(u, n);
                            }
                        }
                        assert(n != t1.doc());
                        assert(t1.can_insert(p, n));
                        assert(t1.kids(p) == t0.kids(p));
                        assert(!t1.kids(p).contains(n)) by {
                            if t1.kids(p).contains(n) {
                                let k = choose|k: int| 0 <= k < t1.kids(p).len() && t1.kids(p)[k] == n;
                                assert(t1.kid_ok(p, k));
                            }
                        }
                        assert(without(t1.kids(p), n) == t1.kids(p));
                    } else {
                        assert(!t1.can_insert(p, n)) by {
                            if p != n {
                                assert(t1.live(p) == t0.live(p));
                            }
                        }
                    }
                }
                self.append_child(parent_id, tn);
                proof {
                    if t0.live(p) {
                        assert(self.live(n));
                        assert(self.node(n).data == t1.node(n).data);
                        assert forall|j: nat| #[trigger] t0.live(j) && j != p implies self.kids(j)
                            == t0.kids(j) by {
                            assert(t1.keeps(t0, j));
                            assert(t1.parent_of(n) != Some(j));
                        }
                        assert forall|j: nat|
                            #[trigger] t0.live(j) && t0.last_text_child(p) != Some(j) implies self.live(j)
                            && self.node(j).data == t0.node(j).data by {
                            assert(t1.keeps(t0, j));
                            assert(t1.live(j));
                        }
                    } else {
                        assert(*self == t1);
                        assert forall|j: nat| #[trigger] t0.live(j) && j != p implies self.kids(j)
                            == t0.kids(j) by {
                            assert(t1.keeps(t0, j));
                        }
                        assert forall|j: nat|
                            #[trigger] t0.live(j) && t0.last_text_child(p) != Some(j) implies self.live(j)
                            && self.node(j).data == t0.node(j).data by {
                            assert(t1.keeps(t0, j));
                        }
                    }
                }
            },
        }
    }

    /// The node holding a `<template>` element's contents, allocated as a
    /// fresh document fragment on first use. `None` for anything that is not
    /// a live element.
    pub fn template_contents(&mut self, node_id: NodeId) -> (r: Option<NodeId>)
        requires
            old(self).wf(),
            old(self).can_alloc(),
        ensures
            final(self).wf(),
            !(old(self).live(node_id.id()) && old(self).node(node_id.id()).data is Element) ==> r is None && *final(self) == *old(self),
            old(self).live(node_id.id()) && old(self).node(node_id.id()).data is Element ==> {
                let d = old(self).node(node_id.id()).data;
                &&& r is Some
                &&& d->Element_template_contents is Some ==> r == d->Element_template_contents && *final(self) == *old(self)
                &&& d->Element_template_contents is None ==> {
                    let c = r->Some_0.id();
                    &&& !old(self).live(c)
                    &&& final(self).live(c)
                    &&& final(self).node(c).data is Document
                    &&& final(self).parent_of(c) is None
                    &&& final(self).node(node_id.id()).data == (NodeData::Element {
                        name: d->Element_name,
                        attrs: d->Element_attrs,
                        template_contents: r,
                        mathml_annotation_xml_integration_point: d->Element_mathml_annotation_xml_integration_point,
                    })
                }
            },
    {
        let ghost t0 = *self;
        let ghost x = node_id.id();
        match self.node_ref(node_id) {
            Some(n) => match &n.data {
                NodeData::Element { template_contents, .. } => {
                    match template_contents {
                        Some(existing) => {
                            return Some(*existing);
                        },
                        None => {},
                    }
                },
                _ => {
                    return None;
                },
            },
            None => {
                return None;
            },
        }
        let contents = self.new_node(NodeData::Document);
        let ghost t1 = *self;
        proof {
            assert(t1.keeps(t0, x));
            reveal(DomTree::wf_arena);
            t1.lemma_at(contents.id());
        }
        let i = node_id.0 as usize;
        match &mut self.nodes[i] {
            Some(n) => match &mut n.data {
                NodeData::Element { template_contents, .. } => {
                    *template_contents = Some(contents);
                },
                _ => {},
            },
            None => {},
        }
        proof {
            assert(self.nodes@ =~= t1.nodes@.update(i as int, Some(self.node(x))));
            self.lemma_data_set(t1, x);
            assert(self.node(contents.id()) == t1.node(contents.id()));
        }
        Some(contents)
    }

    /// The node whose children are a parsed fragment's top-level nodes: the
    /// first `<html>` element child of the document, or the document itself.
    pub fn fragment_root(&self) -> (r: NodeId)
        requires
            self.wf_struct(),
        ensures
            r.id() == match first_html_child(*self, self.kids(self.doc())) {
                Some(h) => h,
                None => self.doc(),
            },
    {
        let doc = self.document;
        let kids = self.children(doc);
        let ghost ks = self.kids(self.doc());
        proof {
            self.lemma_at(self.doc());
            self.lemma_kids_bound(self.doc());
            assert(ks.skip(0) =~= ks);
        }
        let mut k: usize = 0;
        while k < kids.len()
            invariant
                self.wf_struct(),
                ks == self.kids(self.doc()),
                kids@ == super::model::ids_of(ks),
                forall|j: int| 0 <= j < ks.len() ==> self.live(#[trigger] ks[j]),
                k <= kids@.len(),
                first_html_child(*self, ks) == first_html_child(*self, ks.skip(k as int)),
            decreases kids@.len() - k,
        {
            let c = kids[k];
            proof {
                assert(self.live(ks[k as int]));
                self.lemma_at(ks[k as int]);
                assert(c.id() == ks[k as int]);
                assert(ks.skip(k as int).drop_first() =~= ks.skip(k + 1));
                assert(ks.skip(k as int)[0] == ks[k as int]);
            }
            let is_html = match self.node_ref(c) {
                Some(n) => match n.as_element() {
                    Some(name) => str_eq(name.local.as_str(), "html"),
                    None => false,
                },
                None => false,
            };
            if is_html {
                return c;
            }
            k = k + 1;
        }
        proof {
            assert(ks.skip(k as int).len() == 0);
        }
        doc
    }
}

/// The first element of `ks` whose local name is `html`.
pub open spec fn first_html_child(t: DomTree, ks: Seq<nat>) -> Option<nat>
    decreases ks.len(),
{
    if ks.len() == 0 {
        None
    } else if t.live(ks[0]) && t.node(ks[0]).data is Element && t.node(ks[0]).data->Element_name.local@
        == "html"@ {
        Some(ks[0])
    } else {
        first_html_child(t, ks.drop_first())
    }
}

impl DomTree {
}

} // verus!
