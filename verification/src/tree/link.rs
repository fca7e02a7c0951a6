//! Field-level edits of arena nodes and the unlinking of a node from its
//! parent's child list.
use vstd::prelude::*;

use super::{DomTree, Node, NodeId};
use super::model::{opt_id, without, prev_in, next_in, first_of, last_of};

verus! {

/// Node `i` after `c` has been taken out of its parent's child list.
pub open(crate) spec fn unlinked_node(t: DomTree, c: nat, i: nat) -> Node {
    let nd = t.node(i);
    let cn = t.node(c);
    if i == c {
        Node { parent: None, prev_sibling: None, next_sibling: None, ..nd }
    } else {
        let nd1 = if opt_id(cn.prev_sibling) == Some(i) {
            Node { next_sibling: cn.next_sibling, ..nd }
        } else {
            nd
        };
        let nd2 = if opt_id(cn.next_sibling) == Some(i) {
            Node { prev_sibling: cn.prev_sibling, ..nd1 }
        } else {
            nd1
        };
        let nd3 = if opt_id(cn.parent) == Some(i) && cn.prev_sibling is None {
            Node { first_child: cn.next_sibling, ..nd2 }
        } else {
            nd2
        };
        if opt_id(cn.parent) == Some(i) && cn.next_sibling is None {
            Node { last_child: cn.prev_sibling, ..nd3 }
        } else {
            nd3
        }
    }
}

/// Ancestor chains after `c` is cut from its parent: nodes of `c`'s
/// host-including subtree keep only the part of their chain below and
/// including `c`.
pub open(crate) spec fn cut_anc(t: DomTree, c: nat) -> Map<nat, Seq<nat>> {
    Map::new(
        |i: nat| t.anc@.dom().contains(i),
        |i: nat|
            if t.in_hsub(c, i) {
                t.anc(i).take(t.anc(i).len() - t.anc(c).len())
            } else {
                t.anc(i)
            },
    )
}

/// Child lists after `c` is cut from its parent.
pub open(crate) spec fn cut_kids(t: DomTree, c: nat) -> Map<nat, Seq<nat>> {
    match t.parent_of(c) {
        Some(p) => t.kids@.insert(p, without(t.kids(p), c)),
        None => t.kids@,
    }
}

pub open spec fn nid(i: nat) -> NodeId {
    NodeId(i as u32)
}

/// The child that will precede a node inserted at position `j` of `ks`.
pub open spec fn before_slot(ks: Seq<nat>, j: int) -> Option<nat> {
    if j > 0 {
        Some(ks[j - 1])
    } else {
        None
    }
}

/// The child that will follow a node inserted at position `j` of `ks`.
pub open spec fn after_slot(ks: Seq<nat>, j: int) -> Option<nat> {
    if j < ks.len() {
        Some(ks[j])
    } else {
        None
    }
}

/// Node `i` after `c` was inserted at position `j` of `p`'s child list.
pub open(crate) spec fn linked_node(t: DomTree, p: nat, c: nat, j: int, i: nat) -> Node {
    let ks = t.kids(p);
    let nd = t.node(i);
    let prv = before_slot(ks, j);
    let nxt = after_slot(ks, j);
    if i == c {
        Node {
            parent: Some(nid(p)),
            prev_sibling: if prv is Some { Some(nid(prv->Some_0)) } else { None },
            next_sibling: if nxt is Some { Some(nid(nxt->Some_0)) } else { None },
            ..nd
        }
    } else {
        let nd1 = if prv == Some(i) {
            Node { next_sibling: Some(nid(c)), ..nd }
        } else {
            nd
        };
        let nd2 = if nxt == Some(i) {
            Node { prev_sibling: Some(nid(c)), ..nd1 }
        } else {
            nd1
        };
        let nd3 = if i == p && j == 0 {
            Node { first_child: Some(nid(c)), ..nd2 }
        } else {
            nd2
        };
        if i == p && j == ks.len() {
            Node { last_child: Some(nid(c)), ..nd3 }
        } else {
            nd3
        }
    }
}

/// Ancestor chains after the subtree of detached `c` went under `p`.
pub open(crate) spec fn grow_anc(t: DomTree, p: nat, c: nat) -> Map<nat, Seq<nat>> {
    Map::new(
        |i: nat| t.anc@.dom().contains(i),
        |i: nat|
            if t.in_hsub(c, i) {
                t.anc(i) + seq![p] + t.anc(p)
            } else {
                t.anc(i)
            },
    )
}

/// Child lists after `c` was inserted at position `j` under `p`.
pub open(crate) spec fn grow_kids(t: DomTree, p: nat, c: nat, j: int) -> Map<nat, Seq<nat>> {
    t.kids@.insert(p, t.kids(p).insert(j, c))
}

impl DomTree {
    /// Only node `i` changed, to `nd`.
    pub open(crate) spec fn node_set(&self, old: DomTree, i: nat, nd: Node) -> bool {
        &&& self.nodes@ == old.nodes@.update(i as int, Some(nd))
        &&& self.free_list@ == old.free_list@
        &&& self.document == old.document
        &&& self.id_index@ == old.id_index@
        &&& self.root_info@ == old.root_info@
        &&& self.hosted_root@ == old.hosted_root@
        &&& self.kids@ == old.kids@
        &&& self.anc@ == old.anc@
        &&& self.quirks == old.quirks
        &&& self.allow_declarative_shadow_roots == old.allow_declarative_shadow_roots
    }

    pub(crate) fn set_next_sibling(&mut self, id: NodeId, v: Option<NodeId>)
        requires
            old(self).live(id.id()),
        ensures
            final(self).node_set(*old(self), id.id(), Node { next_sibling: v, ..old(self).node(id.id()) }),
    {
        match &mut self.nodes[id.0 as usize] {
            Some(n) => {
                n.next_sibling = v;
            },
            None => {},
        }
    }

    pub(crate) fn set_prev_sibling(&mut self, id: NodeId, v: Option<NodeId>)
        requires
            old(self).live(id.id()),
        ensures
            final(self).node_set(*old(self), id.id(), Node { prev_sibling: v, ..old(self).node(id.id()) }),
    {
        match &mut self.nodes[id.0 as usize] {
            Some(n) => {
                n.prev_sibling = v;
            },
            None => {},
        }
    }

    pub(crate) fn set_first_child(&mut self, id: NodeId, v: Option<NodeId>)
        requires
            old(self).live(id.id()),
        ensures
            final(self).node_set(*old(self), id.id(), Node { first_child: v, ..old(self).node(id.id()) }),
    {
        match &mut self.nodes[id.0 as usize] {
            Some(n) => {
                n.first_child = v;
            },
            None => {},
        }
    }

    pub(crate) fn set_last_child(&mut self, id: NodeId, v: Option<NodeId>)
        requires
            old(self).live(id.id()),
        ensures
            final(self).node_set(*old(self), id.id(), Node { last_child: v, ..old(self).node(id.id()) }),
    {
        match &mut self.nodes[id.0 as usize] {
            Some(n) => {
                n.last_child = v;
            },
            None => {},
        }
    }

    pub(crate) fn set_sibling_links(
        &mut self,
        id: NodeId,
        parent: Option<NodeId>,
        prev: Option<NodeId>,
        next: Option<NodeId>,
    )
        requires
            old(self).live(id.id()),
        ensures
            final(self).node_set(
                *old(self),
                id.id(),
                Node { parent, prev_sibling: prev, next_sibling: next, ..old(self).node(id.id()) },
            ),
    {
        match &mut self.nodes[id.0 as usize] {
            Some(n) => {
                n.parent = parent;
                n.prev_sibling = prev;
                n.next_sibling = next;
            },
            None => {},
        }
    }

    /// The arena after unlinking `c` agrees with `unlinked_node` on every
    /// live slot and changed nothing else but the ghost views.
    pub open(crate) spec fn unlinked_from(&self, t: DomTree, c: nat) -> bool {
        &&& self.nodes@.len() == t.nodes@.len()
        &&& forall|i: int|
            0 <= i < self.nodes@.len() ==> (#[trigger] self.nodes@[i] is Some) == (
            t.nodes@[i] is Some)
        &&& forall|i: nat| #[trigger] t.live(i) ==> self.node(i) == unlinked_node(t, c, i)
        &&& self.free_list@ == t.free_list@
        &&& self.document == t.document
        &&& self.id_index@ == t.id_index@
        &&& self.root_info@ == t.root_info@
        &&& self.hosted_root@ == t.hosted_root@
        &&& self.quirks == t.quirks
        &&& self.allow_declarative_shadow_roots == t.allow_declarative_shadow_roots
        &&& self.kids@ == cut_kids(t, c)
        &&& self.anc@ == cut_anc(t, c)
    }

    /// Unlinking keeps the tree well formed.
    #[verifier::rlimit(40)]
    pub(crate) proof fn lemma_unlink(&self, t: DomTree, c: nat)
        requires
            t.wf_struct(),
            t.live(c),
            c != t.doc(),
            t.shadow_info(c) is None,
            self.unlinked_from(t, c),
        ensures
            self.wf_struct(),
            forall|i: nat| #[trigger] self.live(i) == t.live(i),
            self.parent_of(c) is None,
            self.anc(c) == Seq::<nat>::empty(),
            forall|i: nat| #[trigger] self.shadow_info(i) == t.shadow_info(i),
            forall|i: nat| #[trigger] self.hosted(i) == t.hosted(i),
            self.doc() == t.doc(),
            self.id_map() == t.id_map(),
            forall|i: nat| t.live(i) ==> #[trigger] self.node(i).data == t.node(i).data,
            forall|i: nat| t.live(i) ==> #[trigger] self.node(i).connected == t.node(i).connected,
            forall|i: nat| t.live(i) && i != c ==> #[trigger] self.parent_of(i) == t.parent_of(i),
            forall|i: nat| t.live(i) && i != c ==> #[trigger] self.hparent(i) == t.hparent(i),
            forall|i: nat| #[trigger] t.live(i) ==> self.in_hsub(c, i) == t.in_hsub(c, i),
            forall|i: nat|
                #[trigger] t.live(i) && t.in_hsub(c, i) ==> self.sroot(i) == c,
            forall|i: nat|
                #[trigger] t.live(i) && !t.in_hsub(c, i) ==> self.sroot(i) == t.sroot(i)
                    && self.anc(i) == t.anc(i),
    {
        self.lemma_unlink_links(t, c);
        self.lemma_unlink_anc(t, c);
        reveal(DomTree::wf_arena);
        reveal(DomTree::wf_shadow);
        reveal(DomTree::wf_ids);
        t.lemma_at(c);
        let cn = t.node(c);
        let par = t.parent_of(c);
        assert forall|i: nat| #[trigger] self.live(i) == t.live(i) by {
            if i < self.nodes@.len() {
                assert(self.nodes@[i as int] is Some == t.nodes@[i as int] is Some);
            }
        }
        assert forall|i: nat| #[trigger] self.shadow_info(i) == t.shadow_info(i) by {}
        assert forall|i: nat| #[trigger] self.hosted(i) == t.hosted(i) by {}
        assert(self.id_map() =~= t.id_map());
        let j0: int = if par is Some {
            choose|j: int| 0 <= j < t.kids(par->Some_0).len() && t.kids(par->Some_0)[j] == c
        } else {
            0
        };
        if par is Some {
            let p = par->Some_0;
            t.lemma_at(p);
            assert(t.kid_ok(p, j0));
        }
        assert forall|i: nat| t.live(i) ==> #[trigger] self.node(i).data == t.node(i).data by {}
        assert forall|i: nat| t.live(i) ==> #[trigger] self.node(i).connected == t.node(i).connected by {}
        // Shadow registry.
        assert forall|r: nat| #[trigger] self.shadow_info(r) is Some implies self.shadow_ok(r) by {
            assert(t.shadow_ok(r));
            assert(r != c);
            t.lemma_at(r);
            if par is Some {
                let p = par->Some_0;
                if opt_id(cn.prev_sibling) == Some(r) {
                    assert(t.kid_ok(p, j0 - 1));
                }
                if opt_id(cn.next_sibling) == Some(r) {
                    assert(t.kid_ok(p, j0 + 1));
                }
            }
        }
        assert forall|h: nat| #[trigger] self.hosted(h) is Some implies self.host_ok(h) by {
            assert(t.host_ok(h));
        }
        assert(self.wf_arena()) by {
            assert forall|i: nat| #[trigger] self.live(i) implies self.node(i).id.0 == i by {}
        }
        assert(self.wf_doc());
    }

    #[verifier::rlimit(60)]
    pub(crate) proof fn lemma_unlink_links(&self, t: DomTree, c: nat)
        requires
            t.wf_struct(),
            t.live(c),
            c != t.doc(),
            t.shadow_info(c) is None,
            self.unlinked_from(t, c),
        ensures
            self.wf_links(),
            forall|i: nat| t.live(i) && i != c ==> #[trigger] self.parent_of(i) == t.parent_of(i),
    {
        reveal(DomTree::wf_arena);
        reveal(DomTree::wf_links);
        t.lemma_at(c);
        let cn = t.node(c);
        let par = t.parent_of(c);
        assert forall|i: nat| #[trigger] self.live(i) == t.live(i) by {
            if i < self.nodes@.len() {
                assert(self.nodes@[i as int] is Some == t.nodes@[i as int] is Some);
            }
        }
        // Position of `c` in its parent's list, and its neighbours.
        let j0: int = if par is Some {
            choose|j: int| 0 <= j < t.kids(par->Some_0).len() && t.kids(par->Some_0)[j] == c
        } else {
            0
        };
        if par is Some {
            let p = par->Some_0;
            t.lemma_at(p);
            assert(t.kid_ok(p, j0));
            t.kids(p).index_of_first_ensures(c);
            assert(t.kids(p).index_of(c) == j0) by {
                let k = t.kids(p).index_of(c);
                assert(t.kids(p)[k] == c);
            }
            t.lemma_kids_bound(p);
            t.lemma_hparent_live(c);
        }
        // Nodes other than c, its neighbours and its parent keep their links.
        assert forall|i: nat| #[trigger] t.live(i) && i != c implies self.parent_of(i) == t.parent_of(i) by {}
        // Links.
        assert forall|x: nat| #[trigger] self.live(x) implies self.kids_ok(x) by {
            t.lemma_at(x);
            if par == Some(x) {
                let kp = t.kids(x);
                let nk = kp.remove(j0);
                assert(self.kids(x) == without(kp, c));
                assert(self.kids(x) == nk);
                assert(nk.no_duplicates()) by {
                    assert forall|a: int, b: int| 0 <= a < nk.len() && 0 <= b < nk.len() && a != b implies nk[a] != nk[b] by {
                        let aa = if a < j0 { a } else { a + 1 };
                        let bb = if b < j0 { b } else { b + 1 };
                        assert(nk[a] == kp[aa] && nk[b] == kp[bb]);
                    }
                }
                assert(opt_id(self.node(x).first_child) == first_of(nk)) by {
                    if j0 == 0 {
                        if kp.len() > 1 {
                            assert(nk[0] == kp[1]);
                        }
                    } else {
                        assert(nk[0] == kp[0]);
                    }
                }
                assert(opt_id(self.node(x).last_child) == last_of(nk)) by {
                    if j0 == kp.len() - 1 {
                        if kp.len() > 1 {
                            assert(nk.last() == kp[kp.len() - 2]);
                        }
                    } else {
                        assert(nk.last() == kp.last());
                    }
                }
                assert forall|j: int| 0 <= j < nk.len() implies #[trigger] self.kid_ok(x, j) by {
                    let jj = if j < j0 { j } else { j + 1 };
                    assert(nk[j] == kp[jj]);
                    assert(t.kid_ok(x, jj));
                    let k = kp[jj];
                    assert(k != c);
                    t.lemma_at(k);
                    if j > 0 {
                        let pj = if j - 1 < j0 { j - 1 } else { j };
                        assert(nk[j - 1] == kp[pj]);
                    }
                    if j + 1 < nk.len() {
                        let nj = if j + 1 < j0 { j + 1 } else { j + 2 };
                        assert(nk[j + 1] == kp[nj]);
                    }
                    if jj == j0 - 1 {
                        assert(opt_id(cn.prev_sibling) == Some(k));
                    }
                    if jj == j0 + 1 {
                        assert(opt_id(cn.next_sibling) == Some(k));
                    }
                    if opt_id(cn.prev_sibling) == Some(k) {
                        assert(jj == j0 - 1) by {
                            assert(kp[j0 - 1] == k);
                        }
                    }
                    if opt_id(cn.next_sibling) == Some(k) {
                        assert(jj == j0 + 1) by {
                            assert(kp[j0 + 1] == k);
                        }
                    }
                }
            } else {
                assert(self.kids(x) == t.kids(x));
                assert forall|j: int| 0 <= j < self.kids(x).len() implies #[trigger] self.kid_ok(x, j) by {
                    assert(t.kid_ok(x, j));
                    let k = t.kids(x)[j];
                    assert(k != c);
                    if par is Some {
                        let p = par->Some_0;
                        if opt_id(cn.prev_sibling) == Some(k) {
                            assert(t.kid_ok(p, j0 - 1));
                        }
                        if opt_id(cn.next_sibling) == Some(k) {
                            assert(t.kid_ok(p, j0 + 1));
                        }
                    }
                }
            }
        }
        assert forall|y: nat| #[trigger] self.live(y) implies self.parent_ok(y) by {
            t.lemma_at(y);
            if y != c {
                match t.parent_of(y) {
                    Some(q) => {
                        if par == Some(q) {
                            let kp = t.kids(q);
                            let k = choose|k: int| 0 <= k < kp.len() && kp[k] == y;
                            let k2 = if k < j0 { k } else { k - 1 };
                            assert(k != j0);
                            assert(kp.remove(j0)[k2] == y);
                        }
                    },
                    None => {
                        if par is Some {
                            let p = par->Some_0;
                            if opt_id(cn.prev_sibling) == Some(y) {
                                assert(t.kid_ok(p, j0 - 1));
                            }
                            if opt_id(cn.next_sibling) == Some(y) {
                                assert(t.kid_ok(p, j0 + 1));
                            }
                        }
                    },
                }
            }
        }
    }

    #[verifier::rlimit(60)]
    pub(crate) proof fn lemma_unlink_anc(&self, t: DomTree, c: nat)
        requires
            t.wf_struct(),
            t.live(c),
            c != t.doc(),
            t.shadow_info(c) is None,
            self.unlinked_from(t, c),
        ensures
            self.wf_anc(),
            forall|i: nat| t.live(i) && i != c ==> #[trigger] self.hparent(i) == t.hparent(i),
            forall|i: nat| #[trigger] t.live(i) ==> self.in_hsub(c, i) == t.in_hsub(c, i),
            forall|i: nat|
                #[trigger] t.live(i) && t.in_hsub(c, i) ==> self.sroot(i) == c,
            forall|i: nat|
                #[trigger] t.live(i) && !t.in_hsub(c, i) ==> self.sroot(i) == t.sroot(i)
                    && self.anc(i) == t.anc(i),
            self.parent_of(c) is None,
            self.anc(c) == Seq::<nat>::empty(),
    {
        reveal(DomTree::wf_arena);
        reveal(DomTree::wf_anc);
        t.lemma_at(c);
        assert forall|i: nat| #[trigger] self.live(i) == t.live(i) by {
            if i < self.nodes@.len() {
                assert(self.nodes@[i as int] is Some == t.nodes@[i as int] is Some);
            }
        }
        assert forall|i: nat| #[trigger] t.live(i) && i != c implies self.parent_of(i) == t.parent_of(i) by {}
        assert forall|i: nat| t.live(i) && i != c implies #[trigger] self.hparent(i) == t.hparent(i) by {
            assert(self.parent_of(i) == t.parent_of(i));
        }
        assert(self.anc(c) =~= Seq::<nat>::empty());
        // Ancestor chains.
        assert forall|i: nat| #[trigger] t.live(i) implies self.in_hsub(c, i) == t.in_hsub(c, i) && (t.in_hsub(c, i) ==> self.anc(i) == t.anc(i).take(t.anc(i).len() - t.anc(c).len())) && (!t.in_hsub(c, i) ==> self.anc(i) == t.anc(i)) by {
            t.lemma_at(i);
            if t.in_hsub(c, i) {
                t.lemma_hsub_sroot(c, i);
                let a = t.anc(i).take(t.anc(i).len() - t.anc(c).len());
                if i != c {
                    assert(a.last() == c);
                    assert(a.contains(c));
                }
            }
        }
        assert forall|i: nat| #[trigger] self.live(i) implies self.anc_ok(i) by {
            t.lemma_at(i);
            if i == c {
                assert(self.hparent(c) is None);
                assert(self.anc(c) =~= Seq::<nat>::empty());
            } else {
                assert(self.hparent(i) == t.hparent(i));
                match t.hparent(i) {
                    None => {},
                    Some(q) => {
                        t.lemma_hparent_live(i);
                        t.lemma_at(q);
                        if t.in_hsub(c, i) {
                            assert(t.anc(i) == seq![q] + t.anc(q));
                            assert(t.in_hsub(c, q)) by {
                                if q != c {
                                    let k = choose|k: int| 0 <= k < t.anc(i).len() && t.anc(i)[k] == c;
                                    assert(k > 0);
                                    assert(t.anc(q)[k - 1] == c);
                                }
                            }
                            t.lemma_hsub_sroot(c, q);
                            assert(self.anc(i) =~= seq![q] + self.anc(q));
                        } else {
                            assert(!t.in_hsub(c, q)) by {
                                if t.in_hsub(c, q) {
                                    assert(t.anc(i)[0] == q);
                                    if q != c {
                                        let k = choose|k: int| 0 <= k < t.anc(q).len() && t.anc(q)[k] == c;
                                        assert(t.anc(i)[k + 1] == c);
                                    }
                                }
                            }
                        }
                    },
                }
            }
        }
        assert forall|i: nat| #[trigger] t.live(i) && t.in_hsub(c, i) implies self.sroot(i) == c by {
            t.lemma_at(i);
            t.lemma_hsub_sroot(c, i);
            if i != c {
                let a = t.anc(i).take(t.anc(i).len() - t.anc(c).len());
                assert(a.last() == c);
            }
        }
        assert(self.wf_arena()) by {
            assert forall|i: nat| #[trigger] self.live(i) implies self.node(i).id.0 == i by {}
        }
        assert(self.wf_doc());
    }

    /// Takes live node `node_id` out of its parent's child list, leaving it
    /// the root of its own host-including subtree.
    pub(crate) fn unlink(&mut self, node_id: NodeId)
        requires
            old(self).wf_struct(),
            old(self).live(node_id.id()),
            node_id.id() != old(self).doc(),
            old(self).shadow_info(node_id.id()) is None,
        ensures
            final(self).unlinked_from(*old(self), node_id.id()),
    {
        let ghost t = *self;
        let ghost c = node_id.id();
        let i = node_id.0 as usize;
        let (parent_id, prev_id, next_id) = match &self.nodes[i] {
            Some(nd) => (nd.parent, nd.prev_sibling, nd.next_sibling),
            None => (None, None, None),
        };
        proof {
            t.lemma_at(c);
            if parent_id is Some {
                let p = parent_id->Some_0.id();
                t.lemma_at(p);
                t.lemma_hparent_live(c);
                let j0 = choose|j: int| 0 <= j < t.kids(p).len() && t.kids(p)[j] == c;
                assert(t.kid_ok(p, j0));
                t.lemma_kids_bound(p);
                if prev_id is Some {
                    assert(t.kid_ok(p, j0 - 1));
                    assert(t.kids(p)[j0 - 1] != c);
                    t.lemma_at(t.kids(p)[j0 - 1]);
                    t.lemma_hparent_live(t.kids(p)[j0 - 1]);
                }
                if next_id is Some {
                    assert(t.kid_ok(p, j0 + 1));
                    assert(t.kids(p)[j0 + 1] != c);
                    t.lemma_at(t.kids(p)[j0 + 1]);
                    t.lemma_hparent_live(t.kids(p)[j0 + 1]);
                }
                if prev_id is Some && next_id is Some {
                    assert(t.kids(p)[j0 - 1] != t.kids(p)[j0 + 1]);
                }
            }
        }
        let ghost t1 = *self;
        match prev_id {
            Some(pv) => {
                self.set_next_sibling(pv, next_id);
            },
            None => {
                match parent_id {
                    Some(p) => {
                        self.set_first_child(p, next_id);
                    },
                    None => {},
                }
            },
        }
        let ghost t2 = *self;
        proof {
            assert(t2.live(c));
            if next_id is Some {
                assert(t2.live(next_id->Some_0.id()));
            }
            if parent_id is Some {
                assert(t2.live(parent_id->Some_0.id()));
            }
        }
        match next_id {
            Some(nx) => {
                self.set_prev_sibling(nx, prev_id);
            },
            None => {
                match parent_id {
                    Some(p) => {
                        self.set_last_child(p, prev_id);
                    },
                    None => {},
                }
            },
        }
        let ghost t3 = *self;
        proof {
            assert(t3.live(c));
        }
        self.set_sibling_links(node_id, None, None, None);
        proof {
            self.kids@ = cut_kids(t, c);
            self.anc@ = cut_anc(t, c);
            assert forall|x: nat| #[trigger] t.live(x) implies self.node(x) == unlinked_node(t, c, x) by {
                assert(t1.node(x) == t.node(x));
            }
            assert forall|x: int|
                0 <= x < self.nodes@.len() implies (#[trigger] self.nodes@[x] is Some) == (
                t.nodes@[x] is Some) by {}
        }
    }

    /// The arena after inserting `c` at position `j` under `p`.
    pub open(crate) spec fn linked_from(&self, t: DomTree, p: nat, c: nat, j: int) -> bool {
        &&& self.nodes@.len() == t.nodes@.len()
        &&& forall|i: int|
            0 <= i < self.nodes@.len() ==> (#[trigger] self.nodes@[i] is Some) == (
            t.nodes@[i] is Some)
        &&& forall|i: nat| #[trigger] t.live(i) ==> self.node(i) == linked_node(t, p, c, j, i)
        &&& self.free_list@ == t.free_list@
        &&& self.document == t.document
        &&& self.id_index@ == t.id_index@
        &&& self.root_info@ == t.root_info@
        &&& self.hosted_root@ == t.hosted_root@
        &&& self.quirks == t.quirks
        &&& self.allow_declarative_shadow_roots == t.allow_declarative_shadow_roots
        &&& self.kids@ == grow_kids(t, p, c, j)
        &&& self.anc@ == grow_anc(t, p, c)
    }

    /// Preconditions of inserting detached `c` at position `j` under `p`.
    pub open(crate) spec fn can_link(&self, p: nat, c: nat, j: int) -> bool {
        &&& self.wf_struct()
        &&& self.live(p)
        &&& self.live(c)
        &&& c != self.doc()
        &&& self.shadow_info(c) is None
        &&& self.parent_of(c) is None
        &&& !self.in_hsub(c, p)
        &&& 0 <= j <= self.kids(p).len()
    }

    /// Linking keeps the tree well formed.
    #[verifier::rlimit(60)]
    pub(crate) proof fn lemma_link_links(&self, t: DomTree, p: nat, c: nat, j: int)
        requires
            t.can_link(p, c, j),
            self.linked_from(t, p, c, j),
        ensures
            self.wf_links(),
            forall|i: nat| t.live(i) && i != c ==> #[trigger] self.parent_of(i) == t.parent_of(i),
            self.parent_of(c) == Some(p),
    {
        reveal(DomTree::wf_arena);
        reveal(DomTree::wf_links);
        t.lemma_at(c);
        t.lemma_at(p);
        t.lemma_kids_bound(p);
        let ks = t.kids(p);
        let nk = ks.insert(j, c);
        assert(!ks.contains(c)) by {
            if ks.contains(c) {
                let k = choose|k: int| 0 <= k < ks.len() && ks[k] == c;
                assert(t.kid_ok(p, k));
            }
        }
        assert(p != c);
        assert forall|i: nat| #[trigger] self.live(i) == t.live(i) by {
            if i < self.nodes@.len() {
                assert(self.nodes@[i as int] is Some == t.nodes@[i as int] is Some);
            }
        }
        assert forall|i: nat| #[trigger] t.live(i) && i != c implies self.parent_of(i) == t.parent_of(i) by {}
        assert forall|x: nat| #[trigger] self.live(x) implies self.kids_ok(x) by {
            t.lemma_at(x);
            if x == p {
                assert(self.kids(x) == nk);
                assert(nk.no_duplicates()) by {
                    assert forall|a: int, b: int| 0 <= a < nk.len() && 0 <= b < nk.len() && a != b implies nk[a] != nk[b] by {
                        if a != j && b != j {
                            let aa = if a < j { a } else { a - 1 };
                            let bb = if b < j { b } else { b - 1 };
                            assert(nk[a] == ks[aa] && nk[b] == ks[bb]);
                        } else if a == j {
                            let bb = if b < j { b } else { b - 1 };
                            assert(nk[b] == ks[bb]);
                        } else {
                            let aa = if a < j { a } else { a - 1 };
                            assert(nk[a] == ks[aa]);
                        }
                    }
                }
                assert(opt_id(self.node(x).first_child) == first_of(nk)) by {
                    if j > 0 {
                        assert(nk[0] == ks[0]);
                    }
                }
                assert(opt_id(self.node(x).last_child) == last_of(nk)) by {
                    if j < ks.len() {
                        assert(nk.last() == ks.last());
                    }
                }
                assert forall|jj: int| 0 <= jj < nk.len() implies #[trigger] self.kid_ok(x, jj) by {
                    if jj == j {
                        assert(nk[jj] == c);
                        if j > 0 {
                            assert(nk[j - 1] == ks[j - 1]);
                        }
                        if j < ks.len() {
                            assert(nk[j + 1] == ks[j]);
                        }
                    } else {
                        let oj = if jj < j { jj } else { jj - 1 };
                        assert(nk[jj] == ks[oj]);
                        assert(t.kid_ok(x, oj));
                        let k = ks[oj];
                        assert(k != c);
                        if jj > 0 {
                            if jj - 1 == j {
                                assert(nk[jj - 1] == c);
                            } else {
                                let pj = if jj - 1 < j { jj - 1 } else { jj - 2 };
                                assert(nk[jj - 1] == ks[pj]);
                            }
                        }
                        if jj + 1 < nk.len() {
                            if jj + 1 == j {
                                assert(nk[jj + 1] == c);
                            } else {
                                let nj = if jj + 1 < j { jj + 1 } else { jj };
                                assert(nk[jj + 1] == ks[nj]);
                            }
                        }
                        if before_slot(ks, j) == Some(k) {
                            assert(oj == j - 1) by {
                                assert(ks[j - 1] == k);
                            }
                        }
                        if after_slot(ks, j) == Some(k) {
                            assert(oj == j) by {
                                assert(ks[j] == k);
                            }
                        }
                    }
                }
            } else {
                assert(self.kids(x) == t.kids(x));
                assert forall|jj: int| 0 <= jj < self.kids(x).len() implies #[trigger] self.kid_ok(x, jj) by {
                    assert(t.kid_ok(x, jj));
                    let k = t.kids(x)[jj];
                    assert(k != c);
                    if before_slot(ks, j) == Some(k) {
                        assert(t.kid_ok(p, j - 1));
                    }
                    if after_slot(ks, j) == Some(k) {
                        assert(t.kid_ok(p, j));
                    }
                }
            }
        }
        assert forall|y: nat| #[trigger] self.live(y) implies self.parent_ok(y) by {
            t.lemma_at(y);
            if y == c {
                assert(nk[j] == c);
            } else {
                match t.parent_of(y) {
                    Some(q) => {
                        if q == p {
                            let k = choose|k: int| 0 <= k < ks.len() && ks[k] == y;
                            let k2 = if k < j { k } else { k + 1 };
                            assert(nk[k2] == y);
                        }
                    },
                    None => {
                        if before_slot(ks, j) == Some(y) {
                            assert(t.kid_ok(p, j - 1));
                        }
                        if after_slot(ks, j) == Some(y) {
                            assert(t.kid_ok(p, j));
                        }
                    },
                }
            }
        }
    }

    #[verifier::rlimit(60)]
    pub(crate) proof fn lemma_link_anc(&self, t: DomTree, p: nat, c: nat, j: int)
        requires
            t.can_link(p, c, j),
            self.linked_from(t, p, c, j),
        ensures
            self.wf_anc(),
            forall|i: nat| t.live(i) && i != c ==> #[trigger] self.hparent(i) == t.hparent(i),
            forall|i: nat|
                #[trigger] t.live(i) ==> (self.in_hsub(c, i) == t.in_hsub(c, i)),
            forall|i: nat|
                #[trigger] t.live(i) && t.in_hsub(c, i) ==> self.sroot(i) == t.sroot(p),
            forall|i: nat|
                #[trigger] t.live(i) && !t.in_hsub(c, i) ==> self.sroot(i) == t.sroot(i)
                    && self.anc(i) == t.anc(i),
    {
        reveal(DomTree::wf_arena);
        reveal(DomTree::wf_anc);
        reveal(DomTree::wf_shadow);
        t.lemma_at(c);
        t.lemma_at(p);
        assert(t.anc(c) == Seq::<nat>::empty());
        assert forall|i: nat| #[trigger] self.live(i) == t.live(i) by {
            if i < self.nodes@.len() {
                assert(self.nodes@[i as int] is Some == t.nodes@[i as int] is Some);
            }
        }
        assert forall|i: nat| t.live(i) && i != c implies #[trigger] self.hparent(i) == t.hparent(i) by {
            assert(self.parent_of(i) == t.parent_of(i));
        }
        assert forall|i: nat| #[trigger] t.live(i) implies (self.in_hsub(c, i) == t.in_hsub(c, i)) by {
            if t.in_hsub(c, i) && i != c {
                assert(self.anc(i) == t.anc(i) + seq![p] + t.anc(p));
                let k = choose|k: int| 0 <= k < t.anc(i).len() && t.anc(i)[k] == c;
                assert(self.anc(i)[k] == c);
            }
            if !t.in_hsub(c, i) {
                assert(self.anc(i) == t.anc(i));
            }
        }
        assert forall|i: nat| #[trigger] self.live(i) implies self.anc_ok(i) by {
            t.lemma_at(i);
            if i == c {
                assert(self.hparent(c) == Some(p));
                assert(self.anc(c) =~= seq![p] + self.anc(p));
            } else {
                match t.hparent(i) {
                    None => {
                        if t.in_hsub(c, i) {
                            assert(t.anc(i).len() == 0);
                        }
                    },
                    Some(q) => {
                        t.lemma_hparent_live(i);
                        t.lemma_at(q);
                        if t.in_hsub(c, i) {
                            assert(t.in_hsub(c, q)) by {
                                if q != c {
                                    let k = choose|k: int| 0 <= k < t.anc(i).len() && t.anc(i)[k] == c;
                                    assert(k > 0);
                                    assert(t.anc(q)[k - 1] == c);
                                }
                            }
                            assert(self.anc(i) =~= seq![q] + self.anc(q));
                        } else {
                            assert(!t.in_hsub(c, q)) by {
                                if t.in_hsub(c, q) {
                                    assert(t.anc(i)[0] == q);
                                    if q != c {
                                        let k = choose|k: int| 0 <= k < t.anc(q).len() && t.anc(q)[k] == c;
                                        assert(t.anc(i)[k + 1] == c);
                                    }
                                }
                            }
                        }
                    },
                }
            }
        }
        assert forall|i: nat| #[trigger] t.live(i) && t.in_hsub(c, i) implies self.sroot(i) == t.sroot(p) by {
            let a = t.anc(i) + seq![p] + t.anc(p);
            if t.anc(p).len() > 0 {
                assert(a.last() == t.anc(p).last());
            } else {
                assert(a.last() == p);
            }
        }
    }

    pub(crate) proof fn lemma_link(&self, t: DomTree, p: nat, c: nat, j: int)
        requires
            t.can_link(p, c, j),
            self.linked_from(t, p, c, j),
        ensures
            self.wf_struct(),
            forall|i: nat| #[trigger] self.live(i) == t.live(i),
            self.parent_of(c) == Some(p),
            forall|i: nat| #[trigger] self.shadow_info(i) == t.shadow_info(i),
            forall|i: nat| #[trigger] self.hosted(i) == t.hosted(i),
            self.doc() == t.doc(),
            self.id_map() == t.id_map(),
            forall|i: nat| t.live(i) ==> #[trigger] self.node(i).data == t.node(i).data,
            forall|i: nat| t.live(i) ==> #[trigger] self.node(i).connected == t.node(i).connected,
            forall|i: nat| t.live(i) && i != c ==> #[trigger] self.parent_of(i) == t.parent_of(i),
            forall|i: nat| #[trigger] t.live(i) ==> self.in_hsub(c, i) == t.in_hsub(c, i),
            forall|i: nat|
                #[trigger] t.live(i) && t.in_hsub(c, i) ==> self.sroot(i) == t.sroot(p),
            forall|i: nat|
                #[trigger] t.live(i) && !t.in_hsub(c, i) ==> self.sroot(i) == t.sroot(i)
                    && self.anc(i) == t.anc(i),
    {
        self.lemma_link_links(t, p, c, j);
        self.lemma_link_anc(t, p, c, j);
        reveal(DomTree::wf_arena);
        reveal(DomTree::wf_shadow);
        reveal(DomTree::wf_ids);
        t.lemma_at(c);
        t.lemma_at(p);
        let ks = t.kids(p);
        assert forall|i: nat| #[trigger] self.live(i) == t.live(i) by {
            if i < self.nodes@.len() {
                assert(self.nodes@[i as int] is Some == t.nodes@[i as int] is Some);
            }
        }
        assert forall|i: nat| #[trigger] self.shadow_info(i) == t.shadow_info(i) by {}
        assert forall|i: nat| #[trigger] self.hosted(i) == t.hosted(i) by {}
        assert(self.id_map() =~= t.id_map());
        assert forall|i: nat| t.live(i) ==> #[trigger] self.node(i).data == t.node(i).data by {}
        assert forall|i: nat| t.live(i) ==> #[trigger] self.node(i).connected == t.node(i).connected by {}
        assert forall|r: nat| #[trigger] self.shadow_info(r) is Some implies self.shadow_ok(r) by {
            assert(t.shadow_ok(r));
            assert(r != c);
            t.lemma_at(r);
            if before_slot(ks, j) == Some(r) {
                assert(t.kid_ok(p, j - 1));
            }
            if after_slot(ks, j) == Some(r) {
                assert(t.kid_ok(p, j));
            }
        }
        assert forall|h: nat| #[trigger] self.hosted(h) is Some implies self.host_ok(h) by {
            assert(t.host_ok(h));
        }
        assert(self.wf_arena()) by {
            assert forall|i: nat| #[trigger] self.live(i) implies self.node(i).id.0 == i by {}
        }
        assert(self.wf_doc());
    }

    /// Inserts detached `child` at position `j` of `parent`'s child list,
    /// between `prev` and `next`.
    pub(crate) fn link(
        &mut self,
        parent: NodeId,
        child: NodeId,
        prev: Option<NodeId>,
        next: Option<NodeId>,
        Ghost(j): Ghost<int>,
    )
        requires
            old(self).can_link(parent.id(), child.id(), j),
            opt_id(prev) == before_slot(old(self).kids(parent.id()), j),
            opt_id(next) == after_slot(old(self).kids(parent.id()), j),
        ensures
            final(self).linked_from(*old(self), parent.id(), child.id(), j),
    {
        let ghost t = *self;
        let ghost p = parent.id();
        let ghost c = child.id();
        let ghost ks = t.kids(p);
        proof {
            t.lemma_at(p);
            t.lemma_at(c);
            t.lemma_kids_bound(p);
            assert(!ks.contains(c)) by {
                if ks.contains(c) {
                    let k = choose|k: int| 0 <= k < ks.len() && ks[k] == c;
                    assert(t.kid_ok(p, k));
                }
            }
            if prev is Some {
                assert(prev == Some(nid(ks[j - 1])));
                assert(ks[j - 1] != c);
            }
            if next is Some {
                assert(next == Some(nid(ks[j])));
                assert(ks[j] != c);
            }
            if prev is Some && next is Some {
                assert(ks[j - 1] != ks[j]);
            }
            if prev is Some {
                assert(t.kid_ok(p, j - 1));
                t.lemma_hparent_live(ks[j - 1]);
            }
            if next is Some {
                assert(t.kid_ok(p, j));
                t.lemma_hparent_live(ks[j]);
            }
            assert(parent == nid(p));
            assert(child == nid(c));
        }
        let ghost t1 = *self;
        self.set_sibling_links(child, Some(parent), prev, next);
        match prev {
            Some(pv) => {
                self.set_next_sibling(pv, Some(child));
            },
            None => {
                self.set_first_child(parent, Some(child));
            },
        }
        let ghost t2 = *self;
        proof {
            assert(t2.live(p));
        }
        match next {
            Some(nx) => {
                self.set_prev_sibling(nx, Some(child));
            },
            None => {
                self.set_last_child(parent, Some(child));
            },
        }
        proof {
            self.kids@ = grow_kids(t, p, c, j);
            self.anc@ = grow_anc(t, p, c);
            assert forall|x: nat| #[trigger] t.live(x) implies self.node(x) == linked_node(t, p, c, j, x) by {
                assert(t1.node(x) == t.node(x));
            }
            assert forall|x: int|
                0 <= x < self.nodes@.len() implies (#[trigger] self.nodes@[x] is Some) == (
                t.nodes@[x] is Some) by {}
        }
    }
}

} // verus!
