//! Copying nodes: cloning within a tree and importing from another one.
//!
//! Both walks keep an explicit stack of (destination parent, source node)
//! pairs, so deep trees cannot exhaust the thread stack. A copied
//! `<template>` gets a fresh contents node of its own, which the source
//! contents' children are copied into, instead of the source tree's id.
use vstd::prelude::*;

use super::{DomTree, NodeData, NodeId};
use super::model::{ids_of, without};
use super::lemmas::lemma_nat_range;
use super::copy_law::{
    contents_id, copy_partial, copy_rel, copy_witness, deep_copy_of, lemma_copy_done, lemma_queued_concat,
    lemma_copy_kept, lemma_ids_back, lemma_queued_none, lemma_queued_other, lemma_queued_pushed, lemma_rev_len, lemma_rev_skip,
    queue_ok,
    queued_for, rev,
};

verus! {

/// `d` with its template contents set to `c`; any other kind of node as it
/// is.
pub open spec fn with_contents(d: NodeData, c: Option<NodeId>) -> NodeData {
    match d {
        NodeData::Element { name, attrs, template_contents: _, mathml_annotation_xml_integration_point: m } =>
            NodeData::Element {
            name,
            attrs,
            template_contents: c,
            mathml_annotation_xml_integration_point: m,
        },
        _ => d,
    }
}

/// `d` is a template element with contents.
pub open spec fn has_contents(d: NodeData) -> bool {
    d is Element && d->Element_template_contents is Some
}

/// `dst`, in tree `t` grown from `t0`, is a copy of `src`: the same
/// content, except that a template's contents are a fresh parentless
/// document node of `t` (or none, when the arena had no slot left).
pub open spec fn copied_data(t0: DomTree, t: DomTree, src: NodeData, dst: NodeData) -> bool {
    if has_contents(src) {
        &&& dst.same_as(with_contents(src, dst->Element_template_contents))
        &&& dst->Element_template_contents matches Some(c) ==> {
            &&& !t0.live(c.id())
            &&& t.live(c.id())
            &&& t.node(c.id()).data is Document
            &&& t.parent_of(c.id()) is None
        }
    } else {
        dst.same_as(src)
    }
}

proof fn lemma_parent_from_kids(t: DomTree, q: nat, j: int)
    requires
        t.wf_struct(),
        t.live(q),
        0 <= j < t.kids(q).len(),
    ensures
        t.parent_of(t.kids(q)[j]) == Some(q),
{
    t.lemma_kid_at(q, j);
}

impl DomTree {
    /// Whether one more node can be allocated: a freed slot is waiting or
    /// the arena has fewer than 2^32 slots.
    pub fn can_allocate(&self) -> (r: bool)
        ensures
            r == self.can_alloc(),
    {
        let n = self.nodes.len();
        self.free_list.len() > 0 || (n as u64) < 0x1_0000_0000u64
    }

    /// A set of live nodes has at most 2^32 elements.
    proof fn lemma_made_bound(&self, made: Set<nat>)
        requires
            self.wf(),
            made.finite(),
            forall|x: nat| #[trigger] made.contains(x) ==> self.live(x),
        ensures
            made.len() <= 0x1_0000_0000,
    {
        reveal(DomTree::wf_arena);
        lemma_nat_range(self.slots());
        assert(made.subset_of(Set::new(|i: nat| i < self.slots())));
        vstd::set_lib::lemma_len_subset(made, Set::new(|i: nat| i < self.slots()));
    }

    /// Allocates a node holding `data` and appends it to `parent_id`; it
    /// stays detached when `parent_id` is a free slot.
    fn append_fresh(&mut self, parent_id: NodeId, data: NodeData) -> (n: NodeId)
        requires
            old(self).wf(),
            old(self).can_alloc(),
        ensures
            final(self).wf(),
            !old(self).live(n.id()),
            final(self).live(n.id()),
            final(self).node(n.id()).data == data,
            final(self).kids(n.id()) == Seq::<nat>::empty(),
            forall|x: nat| #[trigger] final(self).live(x) == (old(self).live(x) || x == n.id()),
            forall|x: nat|
                old(self).live(x) ==> #[trigger] final(self).node(x).data == old(self).node(x).data,
            forall|x: nat|
                old(self).live(x) ==> #[trigger] final(self).parent_of(x) == old(self).parent_of(x),
            forall|x: nat|
                old(self).live(x) && x != parent_id.id() ==> #[trigger] final(self).kids(x) == old(
                    self,
                ).kids(x),
            old(self).live(parent_id.id()) ==> final(self).parent_of(n.id()) == Some(parent_id.id())
                && final(self).kids(parent_id.id()) == old(self).kids(parent_id.id()).push(n.id()),
            !old(self).live(parent_id.id()) ==> final(self).parent_of(n.id()) is None,
    {
        let ghost t0 = *self;
        let ghost p = parent_id.id();
        let tn = self.new_node(data);
        let ghost t1 = *self;
        let ghost n = tn.id();
        proof {
            assert(t1.keeps(t0, p));
            t1.lemma_at(n);
            assert(t1.shadow_info(n) is None) by {
                reveal(DomTree::wf_shadow);
                if t0.shadow_info(n) is Some {
                    t0.lemma_shadow_at(n);
                }
            }
            assert(t1.hosted(n) is None) by {
                if t0.hosted(n) is Some {
                    t0.lemma_host_at(n);
                }
            }
            assert forall|x: nat| t0.live(x) implies #[trigger] t1.parent_of(x) == t0.parent_of(x)
                && t1.node(x).data == t0.node(x).data && t1.kids(x) == t0.kids(x) by {
                assert(t1.keeps(t0, x));
            }
            if t0.live(p) {
                assert(p != n);
                assert(!t1.in_hsub(n, p)) by {
                    if t1.in_hsub(n, p) {
                        t1.lemma_at(p);
                        let u = t1.lemma_path_step(n, p);
                        t1.lemma_hchild(u, n);
                    }
                }
                assert(n != t1.doc());
                assert(t1.can_insert(p, n));
                assert(t1.kids(p) == t0.kids(p));
                assert(!t1.kids(p).contains(n)) by {
                    t1.lemma_at(p);
                    if t1.kids(p).contains(n) {
                        let k = choose|k: int| 0 <= k < t1.kids(p).len() && t1.kids(p)[k] == n;
                        assert(t1.kid_ok(p, k));
                    }
                }
                assert(without(t1.kids(p), n) == t1.kids(p));
            } else {
                assert(!t1.can_insert(p, n)) by {
                    if p != n {
                        assert(t1.live(p) == t0.live(p));
                    }
                }
            }
        }
        self.append_child(parent_id, tn);
        proof {
            if t0.live(p) {
                assert(t1.parent_of(n) is None);
                assert forall|x: nat| t0.live(x) implies #[trigger] self.node(x).data == t0.node(
                    x,
                ).data by {
                    assert(t1.live(x));
                    assert(t1.keeps(t0, x));
                }
                assert forall|x: nat| t0.live(x) && x != p implies #[trigger] self.kids(x) == t0.kids(
                    x,
                ) by {
                    assert(t1.live(x));
                    assert(t1.keeps(t0, x));
                    assert(t1.parent_of(n) != Some(x));
                }
                assert(self.live(n));
                assert forall|x: nat| t0.live(x) implies #[trigger] self.parent_of(x)
                    == t0.parent_of(x) by {
                    t1.lemma_at(x);
                    self.lemma_at(x);
                    match t1.parent_of(x) {
                        Some(q) => {
                            t1.lemma_at(q);
                            let j = t1.kids(q).index_of(x);
                            assert(t1.kids(q)[j] == x);
                            assert(self.kids(q)[j] == x);
                            lemma_parent_from_kids(*self, q, j);
                        },
                        None => {
                            match self.parent_of(x) {
                                Some(q) => {
                                    self.lemma_at(q);
                                    let j = self.kids(q).index_of(x);
                                    assert(self.kids(q)[j] == x);
                                    assert(x != n);
                                    if q == p {
                                        assert(j < t1.kids(p).len());
                                        assert(t1.kids(q)[j] == x);
                                    } else {
                                        assert(t1.kids(q)[j] == x);
                                    }
                                    t1.lemma_at(q);
                                    lemma_parent_from_kids(t1, q, j);
                                },
                                None => {},
                            }
                        },
                    }
                }
            } else {
                assert(*self == t1);
                assert forall|x: nat| t0.live(x) implies #[trigger] self.node(x).data == t0.node(
                    x,
                ).data by {
                    assert(t1.keeps(t0, x));
                }
                assert forall|x: nat| t0.live(x) implies #[trigger] self.kids(x) == t0.kids(x) by {
                    assert(t1.keeps(t0, x));
                }
            }
        }
        tn
    }

    /// Points the template contents of element `n` at `c`.
    fn set_contents(&mut self, n: NodeId, c: Option<NodeId>)
        requires
            old(self).wf(),
            old(self).live(n.id()),
            old(self).node(n.id()).data is Element,
        ensures
            final(self).wf(),
            final(self).data_set_from(*old(self), n.id()),
            final(self).node(n.id()).data == with_contents(old(self).node(n.id()).data, c),
            forall|x: nat| #[trigger] final(self).live(x) == old(self).live(x),
            forall|x: nat| #[trigger] final(self).kids(x) == old(self).kids(x),
            forall|x: nat| old(self).live(x) ==> #[trigger] final(self).parent_of(x) == old(
                self,
            ).parent_of(x),
            forall|x: nat|
                old(self).live(x) && x != n.id() ==> #[trigger] final(self).node(x).data == old(
                    self,
                ).node(x).data,
    {
        let ghost t0 = *self;
        let ghost x = n.id();
        proof {
            reveal(DomTree::wf_arena);
            t0.lemma_at(x);
        }
        let i = n.0 as usize;
        match &mut self.nodes[i] {
            Some(nd) => match &mut nd.data {
                NodeData::Element { template_contents, .. } => {
                    *template_contents = c;
                },
                _ => {},
            },
            None => {},
        }
        proof {
            assert(self.nodes@ =~= t0.nodes@.update(i as int, Some(self.node(x))));
            self.lemma_data_set(t0, x);
        }
    }
}

/// The children of `x` as ids; none for a free slot.
pub open spec fn kid_ids(t: DomTree, x: nat) -> Seq<NodeId> {
    if t.live(x) {
        ids_of(t.kids(x))
    } else {
        Seq::empty()
    }
}

/// What `prepare_cloned_children` queues for the contents of the copy of
/// a template: the children of the source contents under the fresh
/// contents `c`, when children are copied and contents were made.
pub open spec fn contents_queue(t: DomTree, src: nat, c: Option<NodeId>, deep: bool) -> Seq<(NodeId, NodeId)> {
    if deep && has_contents(t.node(src).data) && c is Some {
        pushed(c->Some_0, kid_ids(t, t.node(src).data->Element_template_contents->Some_0.id()))
    } else {
        Seq::empty()
    }
}

/// The pairs `(dest, k)` for the ids `ks`, last first, as they are
/// pushed so that they pop in order.
pub open spec fn pushed(dest: NodeId, ks: Seq<NodeId>) -> Seq<(NodeId, NodeId)> {
    Seq::new(ks.len(), |i: int| (dest, ks[ks.len() - 1 - i]))
}

/// Pushes `(dest, k)` for each `k` of `kids`, last first, so that they pop
/// in order.
fn push_pairs(stack: &mut Vec<(NodeId, NodeId)>, dest: NodeId, kids: &Vec<NodeId>)
    ensures
        final(stack)@ == old(stack)@ + pushed(dest, kids@),
{
    let ghost base = stack@;
    let mut i = kids.len();
    proof {
        assert(base + pushed(dest, kids@.skip(i as int)) =~= base);
    }
    while i > 0
        invariant
            i <= kids@.len(),
            stack@ == base + pushed(dest, kids@.skip(i as int)),
        decreases i,
    {
        i = i - 1;
        stack.push((dest, kids[i]));
        proof {
            assert(pushed(dest, kids@.skip(i as int)) =~= pushed(dest, kids@.skip(i + 1)).push(
                (dest, kids@[i as int]),
            ));
            assert(stack@ =~= base + pushed(dest, kids@.skip(i as int)));
        }
    }
    proof {
        assert(kids@.skip(0) =~= kids@);
    }
}

impl DomTree {
    /// Gives copy `n` (an element) its own template contents: a fresh
    /// document node, with `(contents, k)` queued for each child `k` of the
    /// source contents when `queue` holds; none when the arena has no slot
    /// left.
    fn give_contents(
        &mut self,
        n: NodeId,
        src_kids: &Vec<NodeId>,
        queue: bool,
        stack: &mut Vec<(NodeId, NodeId)>,
        Ghost(t0): Ghost<DomTree>,
    )
        requires
            old(self).wf(),
            old(self).live(n.id()),
            old(self).node(n.id()).data is Element,
            forall|x: nat| t0.live(x) ==> old(self).live(x),
        ensures
            final(self).wf(),
            forall|x: nat| old(self).live(x) ==> #[trigger] final(self).live(x),
            forall|x: nat|
                old(self).live(x) && x != n.id() ==> #[trigger] final(self).node(x).data == old(
                    self,
                ).node(x).data,
            forall|x: nat| old(self).live(x) ==> #[trigger] final(self).parent_of(x) == old(
                self,
            ).parent_of(x),
            forall|x: nat| old(self).live(x) ==> #[trigger] final(self).kids(x) == old(self).kids(x),
            final(self).node(n.id()).data == with_contents(
                old(self).node(n.id()).data,
                final(self).node(n.id()).data->Element_template_contents,
            ),
            final(self).node(n.id()).data is Element,
            final(self).node(n.id()).data->Element_template_contents matches Some(c) ==> {
                &&& !old(self).live(c.id())
                &&& final(self).live(c.id())
                &&& final(self).node(c.id()).data is Document
                &&& final(self).parent_of(c.id()) is None
                &&& final(self).kids(c.id()) == Seq::<nat>::empty()
            },
            !queue ==> final(stack)@ == old(stack)@,
            final(stack)@.len() >= old(stack)@.len(),
            forall|k: int| 0 <= k < old(stack)@.len() ==> #[trigger] final(stack)@[k] == old(stack)@[k],
            forall|k: int|
                old(stack)@.len() <= k < final(stack)@.len() ==> !t0.live(
                    (#[trigger] final(stack)@[k]).0.id(),
                ),
            final(self).node(n.id()).data->Element_template_contents is None ==> !final(self).can_alloc(),
            queue && final(self).node(n.id()).data->Element_template_contents is Some ==> final(stack)@
                == old(stack)@ + pushed(
                final(self).node(n.id()).data->Element_template_contents->Some_0,
                src_kids@,
            ),
            final(self).node(n.id()).data->Element_template_contents is None ==> final(stack)@ == old(
                stack,
            )@,
    {
        let ghost s0 = *self;
        if !self.can_allocate() {
            self.set_contents(n, None);
            return;
        }
        let c = self.new_node(NodeData::Document);
        let ghost s1 = *self;
        proof {
            assert forall|x: nat| s0.live(x) implies #[trigger] s1.keeps(s0, x) by {}
            assert(s1.keeps(s0, n.id()));
        }
        self.set_contents(n, Some(c));
        proof {
            assert forall|x: nat| s0.live(x) implies #[trigger] self.live(x) by {
                assert(s1.keeps(s0, x));
            }
            assert forall|x: nat| s0.live(x) && x != n.id() implies #[trigger] self.node(x).data
                == s0.node(x).data by {
                assert(s1.keeps(s0, x));
            }
            assert forall|x: nat| s0.live(x) implies #[trigger] self.parent_of(x) == s0.parent_of(
                x,
            ) by {
                assert(s1.keeps(s0, x));
            }
            assert forall|x: nat| s0.live(x) implies #[trigger] self.kids(x) == s0.kids(x) by {
                assert(s1.keeps(s0, x));
            }
            assert(self.parent_of(c.id()) == s1.parent_of(c.id()));
        }
        if queue {
            push_pairs(stack, c, src_kids);
        }
    }

    /// Copies `source_node_id` of `source`, with its subtree, and appends
    /// the copy to `parent_id`; returns the copy of `source_node_id`, so a
    /// caller that keeps parsing into `source` can map one to the other.
    /// `None` when `source_node_id` is a free slot of `source`, or when this
    /// arena has no slot left. Copying stops once the arena runs out of
    /// slots (a template copied then has no contents).
    #[verifier::rlimit(40)]
    pub fn import_node_from(
        &mut self,
        parent_id: NodeId,
        source: &DomTree,
        source_node_id: NodeId,
    ) -> (r: Option<NodeId>)
        requires
            old(self).wf(),
            source.wf_struct(),
        ensures
            final(self).wf(),
            r is None <==> !source.live(source_node_id.id()) || !old(self).can_alloc(),
            r is None ==> *final(self) == *old(self),
            forall|x: nat| old(self).live(x) ==> #[trigger] final(self).live(x),
            forall|x: nat|
                old(self).live(x) ==> #[trigger] final(self).node(x).data == old(self).node(x).data,
            forall|x: nat|
                old(self).live(x) ==> #[trigger] final(self).parent_of(x) == old(self).parent_of(x),
            forall|x: nat|
                old(self).live(x) && x != parent_id.id() ==> #[trigger] final(self).kids(x) == old(
                    self,
                ).kids(x),
            r matches Some(n) ==> {
                &&& !old(self).live(n.id())
                &&& final(self).live(n.id())
                &&& copied_data(
                    *old(self),
                    *final(self),
                    source.node(source_node_id.id()).data,
                    final(self).node(n.id()).data,
                )
                &&& old(self).live(parent_id.id()) ==> final(self).parent_of(n.id()) == Some(
                    parent_id.id(),
                ) && final(self).kids(parent_id.id()) == old(self).kids(parent_id.id()).push(n.id())
                &&& !old(self).live(parent_id.id()) ==> final(self).parent_of(n.id()) is None
                &&& final(self).can_alloc() ==> deep_copy_of(
                    *source,
                    *old(self),
                    *final(self),
                    source_node_id.id(),
                    n.id(),
                )
            },
    {
        let sn = match source.node_ref(source_node_id) {
            Some(x) => x,
            None => {
                return None;
            },
        };
        if !self.can_allocate() {
            return None;
        }
        let ghost t0 = *self;
        let ghost p = parent_id.id();
        let ghost s0 = source_node_id.id();
        let root = self.append_fresh(parent_id, sn.data.duplicate());
        let ghost ta = *self;
        let mut stack: Vec<(NodeId, NodeId)> = Vec::new();
        match &sn.data {
            NodeData::Element { template_contents: Some(sc), .. } => {
                let kids = source.children(*sc);
                self.give_contents(root, &kids, true, &mut stack, Ghost(t0));
            },
            _ => {},
        }
        let ghost tg = *self;
        let ghost qa = stack@;
        let kids = source.children(source_node_id);
        push_pairs(&mut stack, root, &kids);
        let ghost t1 = *self;
        let ghost rd = source.node(source_node_id.id()).data;
        let ghost mut m: Map<nat, nat> = map![root.id() => s0];
        let ghost mut cp: Set<nat> = set![root.id()];
        let ghost mut ct: Set<nat> = Set::empty();
        let ghost mut made: Set<nat> = set![root.id()];
        let ghost mut complete: bool = true;
        proof {
            assert(copied_data(t0, t1, rd, t1.node(root.id()).data));
            source.lemma_at(s0);
            source.lemma_kids_bound(s0);
            let ks = source.kids(s0);
            assert forall|i: int| 0 <= i < ks.len() implies ks[i] < 0x1_0000_0000 && source.live(ks[i]) by {
                source.lemma_at(ks[i]);
            }
            lemma_ids_back(ks);
            let qb = pushed(root, ids_of(ks));
            assert(stack@ == qa + qb);
            let tcr = t1.node(root.id()).data->Element_template_contents;
            if has_contents(rd) {
                let sc = contents_id(rd);
                if source.live(sc) {
                    source.lemma_at(sc);
                    source.lemma_kids_bound(sc);
                    let ks2 = source.kids(sc);
                    assert forall|i: int| 0 <= i < ks2.len() implies ks2[i] < 0x1_0000_0000 && source.live(
                        ks2[i],
                    ) by {
                        source.lemma_at(ks2[i]);
                    }
                    lemma_ids_back(ks2);
                }
                match tcr {
                    Some(cc) => {
                        assert(!ta.live(cc.id()));
                        assert(qa == pushed(cc, kid_ids(*source, sc)));
                        made = made.insert(cc.id());
                        if source.live(sc) {
                            m = m.insert(cc.id(), sc);
                            cp = cp.insert(cc.id());
                            ct = ct.insert(cc.id());
                        }
                    },
                    None => {
                        complete = false;
                        assert(qa.len() == 0);
                    },
                }
            } else {
                assert(qa.len() == 0);
            }
            assert forall|k: int| 0 <= k < stack@.len() implies self.live((#[trigger] stack@[k]).0.id())
                && source.live(stack@[k].1.id()) && !t0.live(stack@[k].0.id()) by {
                if k < qa.len() {
                    assert(stack@[k] == qa[k]);
                } else {
                    assert(stack@[k] == qb[k - qa.len()]);
                }
            }
            if complete {
                assert forall|x: nat| #[trigger] cp.contains(x) implies queued_for(stack@, x) == rev(
                    source.kids(m[x]).skip(t1.kids(x).len() as int),
                ) by {
                    lemma_queued_concat(qa, qb, x);
                    if x == root.id() {
                        lemma_queued_pushed(root, ks, x);
                        assert(ks.skip(0) =~= ks);
                        if qa.len() > 0 {
                            let cc = tcr->Some_0;
                            lemma_queued_other(Seq::empty(), cc, kid_ids(*source, contents_id(rd)), x);
                            assert(Seq::<(NodeId, NodeId)>::empty() + qa =~= qa);
                        }
                        assert(t1.kids(x) == Seq::<nat>::empty());
                    } else {
                        let cc = tcr->Some_0;
                        let sc = contents_id(rd);
                        assert(x == cc.id());
                        let ks2 = source.kids(sc);
                        lemma_queued_pushed(cc, ks2, x);
                        lemma_queued_pushed(root, ks, x);
                        assert(ks2.skip(0) =~= ks2);
                        assert(t1.kids(cc.id()) == Seq::<nat>::empty());
                    }
                }
                assert(copy_partial(*source, t1, m, cp, ct));
            }
        }
        let mut room = true;
        let mut steps: u64 = 0;
        while room && stack.len() > 0 && steps < u64::MAX
            invariant
                self.wf(),
                source.wf_struct(),
                forall|x: nat| t0.live(x) ==> #[trigger] t1.live(x),
                forall|x: nat| #[trigger] t1.live(x) ==> self.live(x),
                forall|x: nat| t1.live(x) ==> #[trigger] self.node(x).data == t1.node(x).data,
                forall|x: nat| t1.live(x) ==> #[trigger] self.parent_of(x) == t1.parent_of(x),
                forall|x: nat| t0.live(x) ==> #[trigger] self.kids(x) == t1.kids(x),
                forall|k: int| 0 <= k < stack@.len() ==> !t0.live((#[trigger] stack@[k]).0.id()),
                forall|k: int|
                    0 <= k < stack@.len() ==> self.live((#[trigger] stack@[k]).0.id()) && source.live(
                        stack@[k].1.id(),
                    ),
                !complete ==> !self.can_alloc(),
                !room ==> !complete,
                complete ==> copy_partial(*source, *self, m, cp, ct),
                complete ==> queue_ok(*source, *self, stack@, m, cp),
                complete ==> cp.contains(root.id()) && !ct.contains(root.id()) && m[root.id()] == s0,
                made.finite(),
                forall|x: nat| #[trigger] made.contains(x) ==> self.live(x),
                forall|x: nat| #[trigger] cp.contains(x) ==> made.contains(x),
                forall|x: nat| #[trigger] made.contains(x) ==> !t0.live(x),
                complete ==> steps <= made.len(),
            decreases u64::MAX - steps,
        {
            steps = steps + 1;
            let ghost before = *self;
            let ghost pre = stack@;
            let (dest, src) = stack.pop().unwrap();
            let ghost st0 = stack@;
            proof {
                assert(st0 =~= pre.drop_last());
                assert(pre.last() == (dest, src));
                assert forall|k: int| 0 <= k < st0.len() implies !t0.live((#[trigger] st0[k]).0.id()) by {
                    assert(st0[k] == pre[k]);
                }
                assert(source.live(src.id())) by {
                    assert(pre[pre.len() - 1] == (dest, src));
                }
                assert(before.live(dest.id())) by {
                    assert(pre[pre.len() - 1] == (dest, src));
                }
            }
            match source.node_ref(src) {
                Some(s) => {
                    if self.can_allocate() {
                        let n = self.append_fresh(dest, s.data.duplicate());
                        let ghost after = *self;
                        proof {
                            assert(!t0.live(dest.id()));
                            assert forall|x: nat| t0.live(x) implies #[trigger] self.live(x) by {
                                assert(t1.live(x));
                                assert(before.live(x));
                            }
                        }
                        match &s.data {
                            NodeData::Element { template_contents: Some(sc), .. } => {
                                let kids = source.children(*sc);
                                self.give_contents(n, &kids, true, &mut stack, Ghost(t0));
                            },
                            _ => {},
                        }
                        let ghost st1 = stack@;
                        let kids = source.children(src);
                        push_pairs(&mut stack, n, &kids);
                        proof {
                            assert(!t0.live(n.id())) by {
                                if t0.live(n.id()) {
                                    assert(t1.live(n.id()));
                                    assert(before.live(n.id()));
                                }
                            }
                            assert forall|x: nat| #[trigger] t1.live(x) implies self.live(x)
                                && self.node(x).data == t1.node(x).data && self.parent_of(x)
                                == t1.parent_of(x) by {
                                assert(before.live(x));
                                assert(after.live(x));
                                assert(x != n.id());
                            }
                            assert forall|x: nat| t0.live(x) implies #[trigger] self.kids(x) == t1.kids(
                                x,
                            ) by {
                                assert(t1.live(x));
                                assert(before.live(x));
                                assert(x != dest.id());
                                assert(after.live(x));
                            }
                            assert(before.can_alloc());
                            assert(complete);
                            let m0 = m;
                            let cp0 = cp;
                            let made0 = made;
                            let dd = dest.id();
                            let sn = src.id();
                            let nn = n.id();
                            let sdata = source.node(sn).data;
                            let tcn = self.node(nn).data->Element_template_contents;
                            let qa = st1.skip(st0.len() as int);
                            assert(st1 =~= st0 + qa);
                            source.lemma_at(sn);
                            source.lemma_kids_bound(sn);
                            let ksn = source.kids(sn);
                            assert forall|i: int| 0 <= i < ksn.len() implies ksn[i] < 0x1_0000_0000
                                && source.live(ksn[i]) by {
                                source.lemma_at(ksn[i]);
                            }
                            lemma_ids_back(ksn);
                            let qb = pushed(n, ids_of(ksn));
                            assert(stack@ == st0 + qa + qb);
                            assert(!before.live(nn));
                            assert(!made0.contains(nn));
                            let tracked_dest = cp0.contains(dd);
                            if tracked_dest {
                                let ks = source.kids(m0[dd]);
                                let k = before.kids(dd).len() as int;
                                assert(queued_for(pre, dd) == queued_for(st0, dd).push(sn));
                                assert(queued_for(pre, dd) == rev(ks.skip(k)));
                                lemma_rev_len(ks.skip(k));
                                assert(k < ks.len());
                                lemma_rev_skip(ks, k);
                                assert(sn == ks[k]);
                                m = m.insert(nn, sn);
                                cp = cp.insert(nn);
                            }
                            made = made.insert(nn);
                            if has_contents(sdata) {
                                let sc = contents_id(sdata);
                                if source.live(sc) {
                                    source.lemma_at(sc);
                                    source.lemma_kids_bound(sc);
                                    let ks2 = source.kids(sc);
                                    assert forall|i: int| 0 <= i < ks2.len() implies ks2[i] < 0x1_0000_0000
                                        && source.live(ks2[i]) by {
                                        source.lemma_at(ks2[i]);
                                    }
                                    lemma_ids_back(ks2);
                                }
                                match tcn {
                                    Some(cc) => {
                                        assert(!after.live(cc.id()));
                                        assert(cc.id() != nn);
                                        assert(qa == pushed(cc, kid_ids(*source, sc)));
                                        made = made.insert(cc.id());
                                        if tracked_dest && source.live(sc) {
                                            m = m.insert(cc.id(), sc);
                                            cp = cp.insert(cc.id());
                                            ct = ct.insert(cc.id());
                                        }
                                    },
                                    None => {
                                        complete = false;
                                        assert(qa.len() == 0);
                                    },
                                }
                            } else {
                                assert(qa.len() == 0);
                            }
                            assert forall|k: int| 0 <= k < stack@.len() implies self.live(
                                (#[trigger] stack@[k]).0.id(),
                            ) && source.live(stack@[k].1.id()) && !t0.live(stack@[k].0.id()) by {
                                if k < st0.len() {
                                    assert(stack@[k] == st0[k]);
                                    assert(st0[k] == pre[k]);
                                } else if k < st0.len() + qa.len() {
                                    assert(stack@[k] == qa[k - st0.len()]);
                                } else {
                                    assert(stack@[k] == qb[k - st0.len() - qa.len()]);
                                }
                            }
                            if complete {
                                assert(copy_partial(*source, *self, m, cp, ct));
                                assert forall|x: nat| #[trigger] cp.contains(x) implies queued_for(stack@, x)
                                    == rev(source.kids(m[x]).skip(self.kids(x).len() as int)) by {
                                    lemma_queued_concat(st0 + qa, qb, x);
                                    lemma_queued_concat(st0, qa, x);
                                    if x == nn {
                                        assert forall|k: int| 0 <= k < st0.len() implies (#[trigger] st0[k]).0.id()
                                            != x by {
                                            assert(st0[k] == pre[k]);
                                        }
                                        lemma_queued_none(st0, x);
                                        lemma_queued_pushed(n, ksn, x);
                                        if qa.len() > 0 {
                                            lemma_queued_other(Seq::empty(), tcn->Some_0, kid_ids(*source, contents_id(sdata)), x);
                                            assert(Seq::<(NodeId, NodeId)>::empty() + qa =~= qa);
                                        }
                                        assert(ksn.skip(0) =~= ksn);
                                    } else if cp0.contains(x) {
                                        lemma_queued_other(Seq::empty(), n, ids_of(ksn), x);
                                        assert(Seq::<(NodeId, NodeId)>::empty() + qb =~= qb);
                                        if qa.len() > 0 {
                                            lemma_queued_other(Seq::empty(), tcn->Some_0, kid_ids(*source, contents_id(sdata)), x);
                                            assert(Seq::<(NodeId, NodeId)>::empty() + qa =~= qa);
                                        }
                                        if x == dd {
                                            let ks = source.kids(m0[dd]);
                                            let k = before.kids(dd).len() as int;
                                            lemma_rev_len(ks.skip(k));
                                            lemma_rev_skip(ks, k);
                                        }
                                    } else {
                                        let cc = tcn->Some_0;
                                        assert(x == cc.id());
                                        assert forall|k: int| 0 <= k < st0.len() implies (#[trigger] st0[k]).0.id()
                                            != x by {
                                            assert(st0[k] == pre[k]);
                                        }
                                        lemma_queued_none(st0, x);
                                        lemma_queued_other(Seq::empty(), n, ids_of(ksn), x);
                                        assert(Seq::<(NodeId, NodeId)>::empty() + qb =~= qb);
                                        let ks2 = source.kids(contents_id(sdata));
                                        lemma_queued_pushed(cc, ks2, x);
                                        assert(ks2.skip(0) =~= ks2);
                                    }
                                }
                            }
                        }
                    } else {
                        room = false;
                        proof {
                            complete = false;
                        }
                    }
                },
                None => {
                    proof {
                        assert(false);
                    }
                },
            }
        }
        proof {
            assert forall|x: nat| t0.live(x) implies #[trigger] self.live(x) && self.node(x).data
                == t0.node(x).data && self.parent_of(x) == t0.parent_of(x) by {
                assert(t1.live(x));
                assert(ta.live(x));
            }
            assert forall|x: nat| t0.live(x) && x != p implies #[trigger] self.kids(x) == t0.kids(x) by {
                assert(ta.live(x));
            }
            assert(t1.live(root.id()));
            if self.can_alloc() {
                assert(complete);
                self.lemma_made_bound(made);
                assert(steps < u64::MAX);
                assert(stack@.len() == 0);
                assert(stack@ =~= Seq::<(NodeId, NodeId)>::empty());
                lemma_copy_done(*source, *self, m, cp, ct);
                assert(copy_witness(*source, *self, m, cp, ct));
            }
        }
        Some(root)
    }
}

impl DomTree {
    /// Queues the children of `source_node` (and of its template contents)
    /// under its copy `cloned_node` when `deep`, giving the copy of a
    /// template fresh contents of its own either way.
    fn prepare_cloned_children(
        &mut self,
        source_node: NodeId,
        cloned_node: NodeId,
        deep: bool,
        stack: &mut Vec<(NodeId, NodeId)>,
        Ghost(t0): Ghost<DomTree>,
    )
        requires
            old(self).wf(),
            old(self).live(cloned_node.id()),
            old(self).live(source_node.id()),
            !t0.live(cloned_node.id()),
            has_contents(old(self).node(source_node.id()).data) && old(self).live(source_node.id())
                ==> old(self).node(cloned_node.id()).data is Element,
            forall|x: nat| t0.live(x) ==> old(self).live(x),
        ensures
            final(self).wf(),
            forall|x: nat| old(self).live(x) ==> #[trigger] final(self).live(x),
            forall|x: nat|
                old(self).live(x) && x != cloned_node.id() ==> #[trigger] final(self).node(x).data
                    == old(self).node(x).data,
            forall|x: nat| old(self).live(x) ==> #[trigger] final(self).parent_of(x) == old(
                self,
            ).parent_of(x),
            forall|x: nat| old(self).live(x) ==> #[trigger] final(self).kids(x) == old(self).kids(x),
            old(self).live(source_node.id()) && has_contents(old(self).node(source_node.id()).data) ==> {
                &&& final(self).node(cloned_node.id()).data == with_contents(
                    old(self).node(cloned_node.id()).data,
                    final(self).node(cloned_node.id()).data->Element_template_contents,
                )
                &&& final(self).node(cloned_node.id()).data is Element
                &&& final(self).node(cloned_node.id()).data->Element_template_contents matches Some(c)
                    ==> {
                    &&& !old(self).live(c.id())
                    &&& final(self).live(c.id())
                    &&& final(self).node(c.id()).data is Document
                    &&& final(self).parent_of(c.id()) is None
                    &&& final(self).kids(c.id()) == Seq::<nat>::empty()
                }
            },
            !(old(self).live(source_node.id()) && has_contents(old(self).node(source_node.id()).data))
                ==> final(self).node(cloned_node.id()).data == old(self).node(cloned_node.id()).data,
            !deep ==> final(stack)@ == old(stack)@,
            final(stack)@.len() >= old(stack)@.len(),
            forall|k: int| 0 <= k < old(stack)@.len() ==> #[trigger] final(stack)@[k] == old(stack)@[k],
            forall|k: int|
                old(stack)@.len() <= k < final(stack)@.len() ==> !t0.live(
                    (#[trigger] final(stack)@[k]).0.id(),
                ),
            has_contents(old(self).node(source_node.id()).data) && final(self).node(
                cloned_node.id(),
            ).data->Element_template_contents is None ==> !final(self).can_alloc(),
            final(stack)@ == old(stack)@ + contents_queue(
                *old(self),
                source_node.id(),
                final(self).node(cloned_node.id()).data->Element_template_contents,
                deep,
            ) + if deep {
                pushed(cloned_node, ids_of(old(self).kids(source_node.id())))
            } else {
                Seq::empty()
            },
    {
        let ghost s0 = *self;
        let ghost st0 = stack@;
        let source_contents = match self.node_ref(source_node) {
            Some(nd) => match &nd.data {
                NodeData::Element { template_contents, .. } => *template_contents,
                _ => None,
            },
            None => None,
        };
        match source_contents {
            Some(sc) => {
                let kids = self.children(sc);
                self.give_contents(cloned_node, &kids, deep, stack, Ghost(t0));
            },
            None => {},
        }
        let ghost st1 = stack@;
        let ghost s1 = *self;
        if deep {
            let kids = self.children(source_node);
            push_pairs(stack, cloned_node, &kids);
            proof {
                assert forall|k: int| st0.len() <= k < stack@.len() implies !t0.live(
                    (#[trigger] stack@[k]).0.id(),
                ) by {
                    if k < st1.len() {
                        assert(stack@[k] == st1[k]);
                    }
                }
            }
        }
    }

    /// Clones one node of this tree, without attaching the clone: with its
    /// light subtree when `deep`, and with fresh template contents of its
    /// own. A shadow root is not clonable; a host's clone leaves its shadow
    /// tree behind. `None` also for a free slot, or when the arena has no
    /// slot left; copying stops once it runs out.
    pub fn clone_node(&mut self, source_node_id: NodeId, deep: bool) -> (r: Option<NodeId>)
        requires
            old(self).wf(),
        ensures
            final(self).wf(),
            r is None <==> !old(self).live(source_node_id.id()) || old(self).is_shadow_root_node(
                source_node_id.id(),
            ) || !old(self).can_alloc(),
            r is None ==> *final(self) == *old(self),
            forall|x: nat| old(self).live(x) ==> #[trigger] final(self).live(x),
            forall|x: nat|
                old(self).live(x) ==> #[trigger] final(self).node(x).data == old(self).node(x).data,
            forall|x: nat|
                old(self).live(x) ==> #[trigger] final(self).parent_of(x) == old(self).parent_of(x),
            forall|x: nat| old(self).live(x) ==> #[trigger] final(self).kids(x) == old(self).kids(x),
            r matches Some(n) ==> {
                &&& !old(self).live(n.id())
                &&& final(self).live(n.id())
                &&& final(self).parent_of(n.id()) is None
                &&& copied_data(
                    *old(self),
                    *final(self),
                    old(self).node(source_node_id.id()).data,
                    final(self).node(n.id()).data,
                )
                &&& !deep ==> final(self).kids(n.id()) == Seq::<nat>::empty()
                &&& !deep && final(self).node(n.id()).data is Element ==> (final(self).node(
                    n.id(),
                ).data->Element_template_contents matches Some(c) ==> final(self).kids(c.id())
                    == Seq::<nat>::empty())
                &&& deep && final(self).can_alloc() ==> deep_copy_of(
                    *old(self),
                    *old(self),
                    *final(self),
                    source_node_id.id(),
                    n.id(),
                )
            },
    {
        if self.is_shadow_root(source_node_id) {
            return None;
        }
        let data = match self.node_ref(source_node_id) {
            Some(nd) => nd.data.duplicate(),
            None => {
                return None;
            },
        };
        if !self.can_allocate() {
            return None;
        }
        let ghost t0 = *self;
        let ghost sd = t0.node(source_node_id.id()).data;
        let ghost src0 = source_node_id.id();
        let root = self.new_node(data);
        let ghost ta = *self;
        proof {
            assert forall|x: nat| t0.live(x) implies #[trigger] ta.keeps(t0, x) by {}
            assert(ta.keeps(t0, source_node_id.id()));
        }
        let mut stack: Vec<(NodeId, NodeId)> = Vec::new();
        self.prepare_cloned_children(source_node_id, root, deep, &mut stack, Ghost(t0));
        let ghost t1 = *self;
        let ghost mut m: Map<nat, nat> = map![root.id() => src0];
        let ghost mut cp: Set<nat> = set![root.id()];
        let ghost mut ct: Set<nat> = Set::empty();
        let ghost mut made: Set<nat> = set![root.id()];
        let ghost mut complete: bool = true;
        proof {
            assert forall|x: nat| t0.live(x) implies #[trigger] t1.live(x) && t1.node(x).data
                == t0.node(x).data && t1.parent_of(x) == t0.parent_of(x) && t1.kids(x) == t0.kids(
                x,
            ) by {
                assert(ta.keeps(t0, x));
                assert(ta.live(x));
            }
            assert forall|x: nat| t0.live(x) implies #[trigger] t1.kids(x) == t0.kids(x) by {
                assert(ta.keeps(t0, x));
            }
            assert forall|x: nat| t0.live(x) implies #[trigger] t1.node(x).data == t0.node(x).data by {
                assert(ta.keeps(t0, x));
            }
            assert(copied_data(t0, t1, sd, t1.node(root.id()).data));
            assert(t1.parent_of(root.id()) is None);
            assert(t1.kids(root.id()) == Seq::<nat>::empty());
            t1.lemma_at(src0);
            t1.lemma_kids_bound(src0);
            t1.lemma_at(root.id());
            let tcr = t1.node(root.id()).data->Element_template_contents;
            if has_contents(sd) {
                match tcr {
                    Some(cc) => {
                        made = made.insert(cc.id());
                        let sc = contents_id(sd);
                        if t0.live(sc) {
                            m = m.insert(cc.id(), sc);
                            cp = cp.insert(cc.id());
                            ct = ct.insert(cc.id());
                        }
                    },
                    None => {
                        complete = false;
                    },
                }
            }
            assert(ta.node(src0).data == sd);
            assert(!t0.live(root.id()));
            let ks = t1.kids(src0);
            assert(ks == t0.kids(src0));
            assert forall|i: int| 0 <= i < ks.len() implies ks[i] < 0x1_0000_0000 && t1.live(ks[i]) by {
                t1.lemma_at(ks[i]);
            }
            lemma_ids_back(ks);
            let qa = contents_queue(ta, src0, tcr, deep);
            let qb = if deep {
                pushed(root, ids_of(ta.kids(src0)))
            } else {
                Seq::empty()
            };
            assert(stack@ =~= Seq::<(NodeId, NodeId)>::empty() + qa + qb);
            assert(stack@ =~= qa + qb);
            if has_contents(sd) && tcr is Some {
                let cc = tcr->Some_0;
                let sc = contents_id(sd);
                assert(!ta.live(cc.id()));
                assert(cc.id() != root.id());
                if t0.live(sc) {
                    t1.lemma_at(sc);
                    t1.lemma_kids_bound(sc);
                    let ks2 = t1.kids(sc);
                    assert forall|i: int| 0 <= i < ks2.len() implies ks2[i] < 0x1_0000_0000 && t1.live(ks2[i]) by {
                        t1.lemma_at(ks2[i]);
                    }
                    lemma_ids_back(ks2);
                }
            }
            assert forall|k: int| 0 <= k < stack@.len() implies t1.live((#[trigger] stack@[k]).0.id())
                && t1.live(stack@[k].1.id()) by {
                if k < qa.len() {
                    assert(stack@[k] == qa[k]);
                    let cc = tcr->Some_0;
                    let sc = contents_id(sd);
                    t1.lemma_kids_bound(sc);
                    let ks2 = t1.kids(sc);
                    assert forall|i: int| 0 <= i < ks2.len() implies ks2[i] < 0x1_0000_0000 by {
                        t1.lemma_at(ks2[i]);
                    }
                    lemma_ids_back(ks2);
                } else {
                    assert(stack@[k] == qb[k - qa.len()]);
                }
            }
            if complete && deep {
                assert forall|x: nat| #[trigger] cp.contains(x) implies queued_for(stack@, x) == rev(
                    t0.kids(m[x]).skip(t1.kids(x).len() as int),
                ) by {
                    lemma_queued_concat(qa, qb, x);
                    if x == root.id() {
                        lemma_queued_pushed(root, ks, x);
                        assert(ks.skip(0) =~= ks);
                        if has_contents(sd) && tcr is Some {
                            let cc = tcr->Some_0;
                            lemma_queued_other(Seq::empty(), cc, kid_ids(ta, contents_id(sd)), x);
                            assert(Seq::<(NodeId, NodeId)>::empty() + qa =~= qa);
                        } else {
                            assert(qa =~= Seq::<(NodeId, NodeId)>::empty());
                        }
                        assert(t1.kids(x) == Seq::<nat>::empty());
                    } else {
                        let cc = tcr->Some_0;
                        let sc = contents_id(sd);
                        assert(x == cc.id());
                        let ks2 = t1.kids(sc);
                        assert(ks2 == ta.kids(sc));
                        lemma_queued_pushed(cc, ks2, x);
                        lemma_queued_pushed(root, ks, x);
                        assert(ks2.skip(0) =~= ks2);
                        assert(t1.kids(cc.id()) == Seq::<nat>::empty());
                    }
                }
            }
            if complete {
                assert(copy_partial(t0, t1, m, cp, ct));
            }
            assert(made.finite());
        }
        let mut room = true;
        let mut steps: u64 = 0;
        while room && stack.len() > 0 && steps < u64::MAX
            invariant
                self.wf(),
                t0.wf(),
                !deep ==> stack@.len() == 0 && *self == t1,
                forall|x: nat| t0.live(x) ==> #[trigger] t1.live(x),
                forall|x: nat| #[trigger] t1.live(x) ==> self.live(x),
                forall|x: nat| t1.live(x) ==> #[trigger] self.node(x).data == t1.node(x).data,
                forall|x: nat| t1.live(x) ==> #[trigger] self.parent_of(x) == t1.parent_of(x),
                forall|x: nat| t0.live(x) ==> #[trigger] self.kids(x) == t1.kids(x),
                forall|x: nat| t0.live(x) ==> #[trigger] t1.kids(x) == t0.kids(x),
                forall|x: nat| t0.live(x) ==> #[trigger] t1.node(x).data == t0.node(x).data,
                forall|k: int| 0 <= k < stack@.len() ==> !t0.live((#[trigger] stack@[k]).0.id()),
                forall|k: int|
                    0 <= k < stack@.len() ==> self.live((#[trigger] stack@[k]).0.id()) && self.live(
                        stack@[k].1.id(),
                    ),
                !complete ==> !self.can_alloc(),
                !room ==> !complete,
                complete ==> copy_partial(t0, *self, m, cp, ct),
                complete && deep ==> queue_ok(t0, *self, stack@, m, cp),
                complete ==> cp.contains(root.id()) && !ct.contains(root.id()) && m[root.id()] == src0,
                made.finite(),
                forall|x: nat| #[trigger] made.contains(x) ==> self.live(x),
                forall|x: nat| #[trigger] cp.contains(x) ==> made.contains(x),
                forall|x: nat| #[trigger] made.contains(x) ==> !t0.live(x),
                complete ==> steps <= made.len(),
            decreases u64::MAX - steps,
        {
            steps = steps + 1;
            let ghost before = *self;
            let ghost pre = stack@;
            let (dest, src) = stack.pop().unwrap();
            let ghost st0 = stack@;
            proof {
                assert(st0 =~= pre.drop_last());
                assert(pre.last() == (dest, src));
                assert forall|k: int| 0 <= k < st0.len() implies !t0.live((#[trigger] st0[k]).0.id()) by {
                    assert(st0[k] == pre[k]);
                }
                assert(before.live(src.id())) by {
                    assert(pre[pre.len() - 1] == (dest, src));
                }
                assert(before.live(dest.id())) by {
                    assert(pre[pre.len() - 1] == (dest, src));
                }
            }
            let data = match self.node_ref(src) {
                Some(nd) => Some(nd.data.duplicate()),
                None => None,
            };
            match data {
                Some(d) => {
                    if self.can_allocate() {
                        let ghost sdata = before.node(src.id()).data;
                        let n = self.append_fresh(dest, d);
                        let ghost after = *self;
                        proof {
                            assert(!t0.live(dest.id()));
                            assert(!t0.live(n.id())) by {
                                if t0.live(n.id()) {
                                    assert(t1.live(n.id()));
                                    assert(before.live(n.id()));
                                }
                            }
                            assert forall|x: nat| t0.live(x) implies #[trigger] self.live(x) by {
                                assert(t1.live(x));
                                assert(before.live(x));
                            }
                            assert(after.live(src.id()));
                            assert(after.node(src.id()).data == sdata);
                        }
                        self.prepare_cloned_children(src, n, true, &mut stack, Ghost(t0));
                        proof {
                            assert forall|x: nat| #[trigger] t1.live(x) implies self.live(x)
                                && self.node(x).data == t1.node(x).data && self.parent_of(x)
                                == t1.parent_of(x) by {
                                assert(before.live(x));
                                assert(after.live(x));
                                assert(x != n.id());
                            }
                            assert forall|x: nat| t0.live(x) implies #[trigger] self.kids(x) == t1.kids(
                                x,
                            ) by {
                                assert(t1.live(x));
                                assert(before.live(x));
                                assert(x != dest.id());
                                assert(after.live(x));
                            }
                            assert(deep);
                            assert(before.can_alloc());
                            assert(complete);
                            let m0 = m;
                            let cp0 = cp;
                            let ct0 = ct;
                            let made0 = made;
                            let dd = dest.id();
                            let sn = src.id();
                            let nn = n.id();
                            let tcn = self.node(nn).data->Element_template_contents;
                            let qa = contents_queue(after, sn, tcn, true);
                            let qb = pushed(n, ids_of(after.kids(sn)));
                            assert(stack@ == st0 + qa + qb);
                            assert(!before.live(nn));
                            assert(!made0.contains(nn));
                            // the popped entry is the next child of its destination
                            let tracked_dest = cp0.contains(dd);
                            if tracked_dest {
                                let ks = t0.kids(m0[dd]);
                                let k = before.kids(dd).len() as int;
                                assert(queued_for(pre, dd) == queued_for(st0, dd).push(sn));
                                assert(queued_for(pre, dd) == rev(ks.skip(k)));
                                lemma_rev_len(ks.skip(k));
                                assert(k < ks.len());
                                lemma_rev_skip(ks, k);
                                assert(sn == ks[k]);
                                t0.lemma_at(m0[dd]);
                                t0.lemma_kids_bound(m0[dd]);
                                assert(t0.live(sn));
                                m = m.insert(nn, sn);
                                cp = cp.insert(nn);
                            }
                            made = made.insert(nn);
                            after.lemma_at(sn);
                            after.lemma_kids_bound(sn);
                            let ksn = after.kids(sn);
                            assert forall|i: int| 0 <= i < ksn.len() implies ksn[i] < 0x1_0000_0000 && after.live(
                                ksn[i],
                            ) by {
                                after.lemma_at(ksn[i]);
                            }
                            lemma_ids_back(ksn);
                            if has_contents(sdata) {
                                match tcn {
                                    Some(cc) => {
                                        assert(!after.live(cc.id()));
                                        assert(cc.id() != nn);
                                        made = made.insert(cc.id());
                                        let sc = contents_id(sdata);
                                        if after.live(sc) {
                                            after.lemma_at(sc);
                                            after.lemma_kids_bound(sc);
                                            let ks2 = after.kids(sc);
                                            assert forall|i: int| 0 <= i < ks2.len() implies ks2[i]
                                                < 0x1_0000_0000 && after.live(ks2[i]) by {
                                                after.lemma_at(ks2[i]);
                                            }
                                            lemma_ids_back(ks2);
                                        }
                                        if tracked_dest && t0.live(sc) {
                                            m = m.insert(cc.id(), sc);
                                            cp = cp.insert(cc.id());
                                            ct = ct.insert(cc.id());
                                        }
                                    },
                                    None => {
                                        complete = false;
                                    },
                                }
                            } else {
                                assert(qa =~= Seq::<(NodeId, NodeId)>::empty());
                            }
                            assert forall|k: int| 0 <= k < stack@.len() implies self.live(
                                (#[trigger] stack@[k]).0.id(),
                            ) && self.live(stack@[k].1.id()) && !t0.live(stack@[k].0.id()) by {
                                if k < st0.len() {
                                    assert(stack@[k] == st0[k]);
                                    assert(st0[k] == pre[k]);
                                } else if k < st0.len() + qa.len() {
                                    assert(stack@[k] == qa[k - st0.len()]);
                                } else {
                                    assert(stack@[k] == qb[k - st0.len() - qa.len()]);
                                }
                            }
                            if complete {
                                assert(copy_partial(t0, *self, m, cp, ct));
                                assert forall|x: nat| #[trigger] cp.contains(x) implies queued_for(stack@, x)
                                    == rev(t0.kids(m[x]).skip(self.kids(x).len() as int)) by {
                                    lemma_queued_concat(st0 + qa, qb, x);
                                    lemma_queued_concat(st0, qa, x);
                                    if x == nn {
                                        assert forall|k: int| 0 <= k < st0.len() implies (#[trigger] st0[k]).0.id()
                                            != x by {
                                            assert(st0[k] == pre[k]);
                                        }
                                        lemma_queued_none(st0, x);
                                        lemma_queued_pushed(n, ksn, x);
                                        if qa.len() > 0 {
                                            lemma_queued_other(Seq::empty(), tcn->Some_0, kid_ids(after, contents_id(sdata)), x);
                                            assert(Seq::<(NodeId, NodeId)>::empty() + qa =~= qa);
                                        }
                                        assert(ksn.skip(0) =~= ksn);
                                    } else if cp0.contains(x) {
                                        lemma_queued_other(Seq::empty(), n, ids_of(ksn), x);
                                        assert(Seq::<(NodeId, NodeId)>::empty() + qb =~= qb);
                                        if qa.len() > 0 {
                                            lemma_queued_other(Seq::empty(), tcn->Some_0, kid_ids(after, contents_id(sdata)), x);
                                            assert(Seq::<(NodeId, NodeId)>::empty() + qa =~= qa);
                                        }
                                        if x == dd {
                                            let ks = t0.kids(m0[dd]);
                                            let k = before.kids(dd).len() as int;
                                            lemma_rev_len(ks.skip(k));
                                            lemma_rev_skip(ks, k);
                                        }
                                    } else {
                                        let cc = tcn->Some_0;
                                        assert(x == cc.id());
                                        assert forall|k: int| 0 <= k < st0.len() implies (#[trigger] st0[k]).0.id()
                                            != x by {
                                            assert(st0[k] == pre[k]);
                                        }
                                        lemma_queued_none(st0, x);
                                        lemma_queued_other(Seq::empty(), n, ids_of(ksn), x);
                                        assert(Seq::<(NodeId, NodeId)>::empty() + qb =~= qb);
                                        let ks2 = after.kids(contents_id(sdata));
                                        lemma_queued_pushed(cc, ks2, x);
                                        assert(ks2.skip(0) =~= ks2);
                                    }
                                }
                            }
                        }
                    } else {
                        room = false;
                        proof {
                            complete = false;
                        }
                    }
                },
                None => {
                    proof {
                        assert(false);
                    }
                },
            }
        }
        proof {
            assert(t1.live(root.id()));
            let d = self.node(root.id()).data;
            assert(d == t1.node(root.id()).data);
            assert(self.parent_of(root.id()) == t1.parent_of(root.id()));
            if has_contents(sd) {
                match d->Element_template_contents {
                    Some(c) => {
                        assert(t1.live(c.id()));
                        assert(self.node(c.id()).data == t1.node(c.id()).data);
                        assert(self.parent_of(c.id()) == t1.parent_of(c.id()));
                    },
                    None => {},
                }
            }
            assert(copied_data(t0, *self, sd, d));
            assert forall|x: nat| t0.live(x) implies #[trigger] self.live(x) && self.node(x).data
                == t0.node(x).data && self.parent_of(x) == t0.parent_of(x) && self.kids(x) == t0.kids(
                x,
            ) by {
                assert(t1.live(x));
                assert(self.kids(x) == t1.kids(x));
            }
            assert forall|x: nat| t0.live(x) implies #[trigger] self.kids(x) == t0.kids(x) by {
                assert(t1.live(x));
            }
            assert forall|x: nat| t0.live(x) implies #[trigger] self.node(x).data == t0.node(x).data by {
                assert(t1.live(x));
            }
            if deep && self.can_alloc() {
                assert(complete);
                self.lemma_made_bound(made);
                assert(steps < u64::MAX);
                assert(stack@.len() == 0);
                assert(stack@ =~= Seq::<(NodeId, NodeId)>::empty());
                lemma_copy_done(t0, *self, m, cp, ct);
                assert(copy_witness(t0, *self, m, cp, ct));
            }
        }
        Some(root)
    }

    /// Imports each child of `source_node` in `source`, in order, as the
    /// last children of `parent_id`.
    pub fn import_children_from(&mut self, parent_id: NodeId, source: &DomTree, source_node: NodeId)
        requires
            old(self).wf(),
            source.wf_struct(),
        ensures
            final(self).wf(),
            forall|x: nat| old(self).live(x) ==> #[trigger] final(self).live(x),
            forall|x: nat|
                old(self).live(x) ==> #[trigger] final(self).node(x).data == old(self).node(x).data,
            forall|x: nat|
                old(self).live(x) ==> #[trigger] final(self).parent_of(x) == old(self).parent_of(x),
            forall|x: nat|
                old(self).live(x) && x != parent_id.id() ==> #[trigger] final(self).kids(x) == old(
                    self,
                ).kids(x),
            old(self).live(parent_id.id()) ==> {
                let k0 = old(self).kids(parent_id.id());
                let k1 = final(self).kids(parent_id.id());
                &&& k0.len() <= k1.len() <= k0.len() + ids_of(source.kids(source_node.id())).len()
                &&& k1.take(k0.len() as int) == k0
                &&& forall|k: int| k0.len() <= k < k1.len() ==> !old(self).live(#[trigger] k1[k])
            },
            !source.live(source_node.id()) ==> *final(self) == *old(self),
            old(self).live(parent_id.id()) && source.live(source_node.id()) && final(self).can_alloc() ==> {
                let k0 = old(self).kids(parent_id.id());
                let k1 = final(self).kids(parent_id.id());
                let sk = source.kids(source_node.id());
                &&& k1.len() == k0.len() + sk.len()
                &&& forall|j: int|
                    0 <= j < sk.len() ==> #[trigger] deep_copy_of(
                        *source,
                        *old(self),
                        *final(self),
                        sk[j],
                        k1[k0.len() + j],
                    )
            },
    {
        let ghost t0 = *self;
        let ghost p = parent_id.id();
        let ghost sk = source.kids(source_node.id());
        let source_children = source.children(source_node);
        let mut i: usize = 0;
        proof {
            if t0.live(p) {
                assert(t0.kids(p).take(t0.kids(p).len() as int) =~= t0.kids(p));
            }
            if source.live(source_node.id()) {
                source.lemma_at(source_node.id());
                source.lemma_kids_bound(source_node.id());
                assert forall|j: int| 0 <= j < sk.len() implies sk[j] < 0x1_0000_0000 && source.live(sk[j]) by {
                    source.lemma_at(sk[j]);
                }
                lemma_ids_back(sk);
            }
        }
        while i < source_children.len()
            invariant
                self.wf(),
                source.wf_struct(),
                i <= source_children@.len(),
                p == parent_id.id(),
                !source.live(source_node.id()) ==> source_children@.len() == 0,
                source.live(source_node.id()) ==> source_children@ == ids_of(source.kids(source_node.id())),
                !source.live(source_node.id()) ==> *self == t0,
                forall|x: nat| t0.live(x) ==> #[trigger] self.live(x),
                forall|x: nat| t0.live(x) ==> #[trigger] self.node(x).data == t0.node(x).data,
                forall|x: nat| t0.live(x) ==> #[trigger] self.parent_of(x) == t0.parent_of(x),
                forall|x: nat| t0.live(x) && x != p ==> #[trigger] self.kids(x) == t0.kids(x),
                t0.live(p) ==> {
                    let k0 = t0.kids(p);
                    let k1 = self.kids(p);
                    &&& k0.len() <= k1.len() <= k0.len() + i
                    &&& k1.take(k0.len() as int) == k0
                    &&& forall|k: int| k0.len() <= k < k1.len() ==> !t0.live(#[trigger] k1[k])
                },
                sk == source.kids(source_node.id()),
                source.live(source_node.id()) ==> forall|j: int|
                    0 <= j < sk.len() ==> #[trigger] source_children@[j].id() == sk[j] && source.live(sk[j]),
                t0.live(p) && source.live(source_node.id()) && self.can_alloc() ==> {
                    let k0 = t0.kids(p);
                    let k1 = self.kids(p);
                    &&& k1.len() == k0.len() + i
                    &&& forall|j: int|
                        0 <= j < i ==> #[trigger] deep_copy_of(*source, t0, *self, sk[j], k1[k0.len() + j])
                },
            decreases source_children@.len() - i,
        {
            let ghost before = *self;
            let r = self.import_node_from(parent_id, source, source_children[i]);
            proof {
                if t0.live(p) && source.live(source_node.id()) && self.can_alloc() {
                    let k0 = t0.kids(p);
                    let child = sk[i as int];
                    assert(source_children@[i as int].id() == child);
                    assert(source.live(child));
                    assert(r is Some) by {
                        if r is None {
                            assert(*self == before);
                        }
                    }
                    let n = r->Some_0;
                    assert(before.can_alloc());
                    assert(before.live(p));
                    let kb = before.kids(p);
                    assert(self.kids(p) == kb.push(n.id()));
                    assert(deep_copy_of(*source, before, *self, child, n.id()));
                    lemma_copy_kept(*source, before, t0, *self, *self, p, child, n.id());
                    assert forall|j: int| 0 <= j < i + 1 implies #[trigger] deep_copy_of(
                        *source,
                        t0,
                        *self,
                        sk[j],
                        self.kids(p)[k0.len() + j],
                    ) by {
                        if j < i {
                            assert(self.kids(p)[k0.len() + j] == kb[k0.len() + j]);
                            assert(deep_copy_of(*source, t0, before, sk[j], kb[k0.len() + j]));
                            lemma_copy_kept(*source, t0, t0, before, *self, p, sk[j], kb[k0.len() + j]);
                        } else {
                            assert(self.kids(p)[k0.len() + j] == n.id());
                        }
                    }
                }
                if t0.live(p) {
                    let k0 = t0.kids(p);
                    let k1 = self.kids(p);
                    assert(before.live(p));
                    match r {
                        Some(n) => {
                            assert(before.live(parent_id.id()));
                            assert(self.kids(parent_id.id()) == before.kids(parent_id.id()).push(n.id()));
                            assert(k1 == before.kids(p).push(n.id()));
                            assert(k1.take(k0.len() as int) =~= before.kids(p).take(k0.len() as int));
                            assert forall|k: int| k0.len() <= k < k1.len() implies !t0.live(
                                #[trigger] k1[k],
                            ) by {
                                if k < before.kids(p).len() {
                                    assert(k1[k] == before.kids(p)[k]);
                                } else {
                                    assert(k1[k] == n.id());
                                    if t0.live(n.id()) {
                                        assert(before.live(n.id()));
                                    }
                                }
                            }
                        },
                        None => {},
                    }
                }
                assert forall|x: nat| t0.live(x) implies #[trigger] self.live(x) && self.node(x).data
                    == t0.node(x).data && self.parent_of(x) == t0.parent_of(x) by {
                    assert(before.live(x));
                }
                assert forall|x: nat| t0.live(x) && x != p implies #[trigger] self.kids(x) == t0.kids(
                    x,
                ) by {
                    assert(before.live(x));
                    assert(before.kids(x) == t0.kids(x));
                }
            }
            i = i + 1;
        }
    }
}

} // verus!
