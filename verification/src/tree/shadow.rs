//! Attaching native shadow roots.
use vstd::prelude::*;

use super::{AttachShadowError, DomTree, Node, NodeData, NodeId, ShadowRoot, ShadowRootMode};
use super::link::{grow_anc, nid};
use super::model::opt_id;

verus! {

impl DomTree {
    /// `self` is `t` with detached fragment `r` registered as the shadow root
    /// of `h`.
    pub open(crate) spec fn attached_from(&self, t: DomTree, h: nat, r: nat, mode: ShadowRootMode) -> bool {
        &&& self.nodes@ == t.nodes@
        &&& self.free_list@ == t.free_list@
        &&& self.document == t.document
        &&& self.id_index@ == t.id_index@
        &&& self.root_info@ == t.root_info@.update(
            r as int,
            Some(ShadowRoot { id: nid(r), host: nid(h), mode }),
        )
        &&& self.hosted_root@ == t.hosted_root@.update(h as int, Some(nid(r)))
        &&& self.quirks == t.quirks
        &&& self.allow_declarative_shadow_roots == t.allow_declarative_shadow_roots
        &&& self.kids@ == t.kids@
        &&& self.anc@ == grow_anc(t, h, r)
    }

    /// `r` can become the shadow root of `h`.
    pub open spec fn can_attach(&self, h: nat, r: nat) -> bool {
        &&& self.live(h)
        &&& self.is_element(h)
        &&& self.hosted(h) is None
        &&& self.live(r)
        &&& r != self.doc()
        &&& self.shadow_info(r) is None
        &&& self.node(r).data is Document
        &&& self.parent_of(r) is None
        &&& !self.in_hsub(r, h)
    }

    #[verifier::rlimit(60)]
    pub(crate) proof fn lemma_attach(&self, t: DomTree, h: nat, r: nat, mode: ShadowRootMode)
        requires
            t.wf_struct(),
            t.can_attach(h, r),
            self.attached_from(t, h, r, mode),
        ensures
            self.wf_struct(),
            forall|i: nat| #[trigger] self.live(i) == t.live(i),
            forall|i: nat| #[trigger] self.kids(i) == t.kids(i),
            forall|i: nat| #[trigger] t.live(i) ==> self.node(i) == t.node(i),
            self.shadow_info(r) == Some(ShadowRoot { id: nid(r), host: nid(h), mode }),
            self.hosted(h) == Some(r),
            forall|i: nat| i != r ==> #[trigger] self.shadow_info(i) == t.shadow_info(i),
            forall|i: nat| i != h ==> #[trigger] self.hosted(i) == t.hosted(i),
            self.doc() == t.doc(),
            self.id_map() == t.id_map(),
            forall|i: nat| #[trigger] t.live(i) ==> self.in_hsub(r, i) == t.in_hsub(r, i),
            forall|i: nat|
                #[trigger] t.live(i) && t.in_hsub(r, i) ==> self.sroot(i) == t.sroot(h),
            forall|i: nat|
                #[trigger] t.live(i) && !t.in_hsub(r, i) ==> self.sroot(i) == t.sroot(i)
                    && self.anc(i) == t.anc(i),
    {
        reveal(DomTree::wf_arena);
        reveal(DomTree::wf_links);
        reveal(DomTree::wf_shadow);
        reveal(DomTree::wf_anc);
        reveal(DomTree::wf_ids);
        t.lemma_at(r);
        t.lemma_at(h);
        assert(h != r) by {
            assert(t.in_hsub(r, r));
        }
        assert(t.anc(r) == Seq::<nat>::empty());
        assert(t.hosted(r) is None) by {
            if t.hosted(r) is Some {
                t.lemma_host_at(r);
            }
        }
        assert(t.shadow_info(h) is None || t.shadow_info(h) is Some);
        assert forall|i: nat| #[trigger] self.live(i) == t.live(i) by {}
        assert forall|i: nat| #[trigger] self.kids(i) == t.kids(i) by {}
        assert forall|i: nat| i != r implies #[trigger] self.shadow_info(i) == t.shadow_info(i) by {}
        assert forall|i: nat| i != h implies #[trigger] self.hosted(i) == t.hosted(i) by {}
        assert(self.id_map() =~= t.id_map());
        assert forall|x: nat| #[trigger] self.live(x) implies self.kids_ok(x) by {
            assert(t.kids_ok(x));
            assert forall|j: int| 0 <= j < self.kids(x).len() implies #[trigger] self.kid_ok(x, j) by {
                assert(t.kid_ok(x, j));
            }
        }
        assert forall|y: nat| #[trigger] self.live(y) implies self.parent_ok(y) by {
            assert(t.parent_ok(y));
        }
        assert forall|q: nat| #[trigger] self.shadow_info(q) is Some implies self.shadow_ok(q) by {
            if q != r {
                assert(t.shadow_ok(q));
                let hq = t.shadow_info(q)->Some_0.host.0 as nat;
                assert(t.hosted(hq) == Some(q));
                assert(hq != h);
            } else {
                assert(h < 0x1_0000_0000);
                assert(r < 0x1_0000_0000);
            }
        }
        assert forall|g: nat| #[trigger] self.hosted(g) is Some implies self.host_ok(g) by {
            if g != h {
                assert(t.host_ok(g));
                let q = t.hosted(g)->Some_0;
                assert(t.shadow_info(q) is Some);
                assert(q != r);
            } else {
                assert(h < 0x1_0000_0000);
                assert(r < 0x1_0000_0000);
            }
        }
        assert forall|i: nat| #[trigger] t.live(i) implies (self.in_hsub(r, i) == t.in_hsub(r, i)) by {
            if t.in_hsub(r, i) && i != r {
                let k = choose|k: int| 0 <= k < t.anc(i).len() && t.anc(i)[k] == r;
                assert(self.anc(i)[k] == r);
            }
        }
        assert forall|i: nat| #[trigger] self.live(i) implies self.anc_ok(i) by {
            t.lemma_at(i);
            if i == r {
                assert(self.hparent(r) == Some(h));
                assert(self.anc(r) =~= seq![h] + self.anc(h));
            } else {
                assert(self.hparent(i) == t.hparent(i));
                match t.hparent(i) {
                    None => {
                        if t.in_hsub(r, i) {
                            assert(t.anc(i).len() == 0);
                        }
                    },
                    Some(q) => {
                        t.lemma_hparent_live(i);
                        t.lemma_at(q);
                        if t.in_hsub(r, i) {
                            assert(t.in_hsub(r, q)) by {
                                if q != r {
                                    let k = choose|k: int| 0 <= k < t.anc(i).len() && t.anc(i)[k] == r;
                                    assert(k > 0);
                                    assert(t.anc(q)[k - 1] == r);
                                }
                            }
                            assert(self.anc(i) =~= seq![q] + self.anc(q));
                        } else {
                            assert(!t.in_hsub(r, q)) by {
                                if t.in_hsub(r, q) {
                                    assert(t.anc(i)[0] == q);
                                    if q != r {
                                        let k = choose|k: int| 0 <= k < t.anc(q).len() && t.anc(q)[k] == r;
                                        assert(t.anc(i)[k + 1] == r);
                                    }
                                }
                            }
                        }
                    },
                }
            }
        }
        assert forall|i: nat| #[trigger] t.live(i) && t.in_hsub(r, i) implies self.sroot(i) == t.sroot(h) by {
            let a = t.anc(i) + seq![h] + t.anc(h);
            if t.anc(h).len() > 0 {
                assert(a.last() == t.anc(h).last());
            } else {
                assert(a.last() == h);
            }
        }
        assert(self.wf_doc());
    }

    /// Registers detached fragment node `root` as the shadow root of `host`
    /// and gives its subtree the host's connectivity.
    pub(crate) fn attach_shadow_root_node(
        &mut self,
        host: NodeId,
        root: NodeId,
        mode: ShadowRootMode,
    ) -> (r: Result<(), AttachShadowError>)
        requires
            old(self).wf(),
        ensures
            final(self).wf(),
            !(old(self).live(host.id()) && old(self).is_element(host.id())) ==> r == Err::<
                (),
                AttachShadowError,
            >(AttachShadowError::HostIsNotElement),
            old(self).live(host.id()) && old(self).is_element(host.id()) && old(self).hosted(
                host.id(),
            ) is Some ==> r == Err::<(), AttachShadowError>(
                AttachShadowError::HostAlreadyHasShadowRoot,
            ),
            old(self).live(host.id()) && old(self).is_element(host.id()) && old(self).hosted(
                host.id(),
            ) is None && !old(self).can_attach(host.id(), root.id()) ==> r == Err::<
                (),
                AttachShadowError,
            >(AttachShadowError::InvalidShadowRoot),
            r is Ok <==> old(self).can_attach(host.id(), root.id()),
            r is Err ==> *final(self) == *old(self),
            r is Ok ==> final(self).shadow_info(root.id()) == Some(
                ShadowRoot { id: root, host, mode },
            ) && final(self).hosted(host.id()) == Some(root.id()),
            r is Ok ==> forall|i: nat| #[trigger] final(self).live(i) == old(self).live(i),
            r is Ok ==> forall|i: nat| #[trigger] final(self).kids(i) == old(self).kids(i),
            r is Ok ==> forall|i: nat|
                #[trigger] old(self).live(i) && old(self).in_hsub(root.id(), i) ==> final(self).node(i).connected == old(self).node(host.id()).connected,
            r is Ok ==> forall|i: nat|
                i != root.id() ==> #[trigger] final(self).shadow_info(i) == old(self).shadow_info(i),
            r is Ok ==> forall|i: nat|
                i != host.id() ==> #[trigger] final(self).hosted(i) == old(self).hosted(i),
            r is Ok ==> final(self).id_map() == old(self).id_map(),
            r is Ok ==> forall|i: nat|
                #[trigger] old(self).live(i) ==> final(self).node(i) == (Node {
                    connected: final(self).node(i).connected,
                    ..old(self).node(i)
                }),
            r is Ok ==> forall|i: nat|
                #[trigger] old(self).live(i) && !old(self).in_hsub(root.id(), i) ==> final(self).node(i).connected == old(self).node(i).connected,
    {
        let ghost t0 = *self;
        let ghost h = host.id();
        let ghost rt = root.id();
        let host_connected = match self.node_ref(host) {
            Some(n) => {
                if !n.is_element() {
                    return Err(AttachShadowError::HostIsNotElement);
                }
                n.connected
            },
            None => {
                return Err(AttachShadowError::HostIsNotElement);
            },
        };
        if self.shadow_root(host).is_some() {
            return Err(AttachShadowError::HostAlreadyHasShadowRoot);
        }
        if root.0 == self.document.0 || self.is_shadow_root(root) {
            return Err(AttachShadowError::InvalidShadowRoot);
        }
        let shape_ok = match self.node_ref(root) {
            Some(n) => match n.data {
                NodeData::Document => n.parent.is_none() && n.prev_sibling.is_none()
                    && n.next_sibling.is_none(),
                _ => false,
            },
            None => false,
        };
        if !shape_ok {
            proof {
                if t0.live(rt) {
                    t0.lemma_at(rt);
                }
            }
            return Err(AttachShadowError::InvalidShadowRoot);
        }
        proof {
            t0.lemma_at(h);
            t0.lemma_at(rt);
        }
        if self.would_create_host_including_cycle(host, root) {
            proof {
                let chain = seq![h] + t0.anc(h);
                let k = choose|k: int| 0 <= k < chain.len() && chain[k] == rt;
                if k > 0 {
                    assert(t0.anc(h)[k - 1] == rt);
                }
                assert(t0.in_hsub(rt, h));
            }
            return Err(AttachShadowError::InvalidShadowRoot);
        }
        proof {
            if t0.in_hsub(rt, h) {
                if rt == h {
                    assert(false);
                }
                let u = t0.lemma_path_step(rt, h);
                t0.lemma_hchild(u, rt);
                let k = choose|k: int| 0 <= k < t0.anc(h).len() && t0.anc(h)[k] == rt;
                assert((seq![h] + t0.anc(h))[k + 1] == rt);
                if t0.kids(rt).contains(u) {
                    assert(t0.kids(rt).len() > 0);
                }
            }
            assert(t0.can_attach(h, rt));
        }
        proof {
            reveal(DomTree::wf_arena);
        }
        let info = ShadowRoot { id: root, host, mode };
        self.root_info.set(root.0 as usize, Some(info));
        self.hosted_root.set(host.0 as usize, Some(root));
        proof {
            reveal(DomTree::wf_arena);
            self.anc@ = grow_anc(t0, h, rt);
            assert(root == nid(rt));
            assert(host == nid(h));
            self.lemma_attach(t0, h, rt, mode);
        }
        let ghost t1 = *self;
        self.set_subtree_connected(root, host_connected);
        proof {
            self.lemma_same_but_conn(t1);
            assert(self.wf_conn()) by {
                reveal(DomTree::wf_conn);
                assert forall|i: nat| #[trigger] self.live(i) implies self.conn_ok(i) by {
                    assert(t0.live(i));
                    t0.lemma_conn_at(i);
                    t0.lemma_conn_at(h);
                    assert(t1.anc(i) == self.anc(i));
                }
            }
            assert forall|i: nat| #[trigger] self.live(i) == t0.live(i) by {
                assert(t1.live(i) == t0.live(i));
            }
            assert forall|i: nat| #[trigger] self.kids(i) == t0.kids(i) by {
                assert(t1.kids(i) == t0.kids(i));
            }
            assert forall|i: nat|
                #[trigger] t0.live(i) && t0.in_hsub(rt, i) implies self.node(i).connected
                    == t0.node(h).connected by {
                assert(t1.live(i));
            }
            assert forall|i: nat| i != rt implies #[trigger] self.shadow_info(i) == t0.shadow_info(i) by {
                assert(t1.shadow_info(i) == t0.shadow_info(i));
            }
            assert forall|i: nat| i != h implies #[trigger] self.hosted(i) == t0.hosted(i) by {
                assert(t1.hosted(i) == t0.hosted(i));
            }
            assert forall|i: nat| #[trigger] t0.live(i) implies self.node(i) == (Node {
                connected: self.node(i).connected,
                ..t0.node(i)
            }) by {
                assert(t1.live(i));
            }
            assert forall|i: nat| #[trigger] t0.live(i) && !t0.in_hsub(rt, i) implies self.node(i).connected == t0.node(i).connected by {
                assert(t1.live(i));
            }
        }
        Ok(())
    }

    /// Creates a fresh shadow root node for element `host`. Fails when `host`
    /// is not an element or already hosts a shadow root.
    pub fn attach_shadow_root(&mut self, host: NodeId, mode: ShadowRootMode) -> (r: Result<
        NodeId,
        AttachShadowError,
    >)
        requires
            old(self).wf(),
            old(self).can_alloc(),
        ensures
            final(self).wf(),
            !(old(self).live(host.id()) && old(self).is_element(host.id())) ==> r == Err::<
                NodeId,
                AttachShadowError,
            >(AttachShadowError::HostIsNotElement),
            old(self).live(host.id()) && old(self).is_element(host.id()) && old(self).hosted(
                host.id(),
            ) is Some ==> r == Err::<NodeId, AttachShadowError>(
                AttachShadowError::HostAlreadyHasShadowRoot,
            ),
            r is Err ==> *final(self) == *old(self),
            r is Ok <==> (old(self).live(host.id()) && old(self).is_element(host.id()) && old(self).hosted(host.id()) is None),
            r is Ok ==> {
                let root = r->Ok_0;
                &&& !old(self).live(root.id())
                &&& final(self).live(root.id())
                &&& final(self).node(root.id()).data is Document
                &&& final(self).kids(root.id()) == Seq::<nat>::empty()
                &&& final(self).shadow_info(root.id()) == Some(ShadowRoot { id: root, host, mode })
                &&& final(self).hosted(host.id()) == Some(root.id())
                &&& final(self).node(root.id()).connected == old(self).node(host.id()).connected
                &&& forall|i: nat| i != root.id() ==> #[trigger] final(self).live(i) == old(self).live(i)
                &&& forall|i: nat| #[trigger] old(self).live(i) ==> final(self).kids(i) == old(self).kids(i)
                &&& forall|i: nat| #[trigger] old(self).live(i) ==> final(self).node(i) == old(self).node(i)
            },
    {
        let ghost t0 = *self;
        let ghost h = host.id();
        match self.node_ref(host) {
            Some(n) => {
                if !n.is_element() {
                    return Err(AttachShadowError::HostIsNotElement);
                }
            },
            None => {
                return Err(AttachShadowError::HostIsNotElement);
            },
        }
        if self.shadow_root(host).is_some() {
            return Err(AttachShadowError::HostAlreadyHasShadowRoot);
        }
        let root = self.new_node(NodeData::Document);
        let ghost t1 = *self;
        let ghost rt = root.id();
        proof {
            assert(t1.keeps(t0, h));
            t1.lemma_at(rt);
            assert(t1.hosted(h) is None);
            assert(t1.shadow_info(rt) is None) by {
                reveal(DomTree::wf_shadow);
                if t1.shadow_info(rt) is Some {
                    assert(t1.shadow_ok(rt));
                    assert(t0.shadow_info(rt) is Some);
                    assert(t0.shadow_ok(rt));
                }
            }
            assert(!t1.in_hsub(rt, h)) by {
                if t1.in_hsub(rt, h) {
                    t1.lemma_at(h);
                    let u = t1.lemma_path_step(rt, h);
                    t1.lemma_hchild(u, rt);
                    assert(t1.hosted(rt) is None) by {
                        assert(t0.hosted(rt) is None) by {
                            if t0.hosted(rt) is Some {
                                t0.lemma_host_at(rt);
                            }
                        }
                    }
                }
            }
            assert(t1.can_attach(h, rt));
        }
        let attached = self.attach_shadow_root_node(host, root, mode);
        match attached {
            Ok(()) => {
                proof {
                    assert forall|i: nat| #[trigger] t0.live(i) implies self.node(i) == t0.node(i) by {
                        assert(t1.keeps(t0, i));
                        assert(t1.live(i));
                        assert(i != rt);
                        if t1.in_hsub(rt, i) {
                            t1.lemma_at(i);
                            let u = t1.lemma_path_step(rt, i);
                            t1.lemma_hchild(u, rt);
                            assert(t1.hosted(rt) is None) by {
                                assert(t0.hosted(rt) is None) by {
                                    if t0.hosted(rt) is Some {
                                        t0.lemma_host_at(rt);
                                    }
                                }
                            }
                        }
                    }
                    assert forall|i: nat| #[trigger] t0.live(i) implies self.kids(i) == t0.kids(i) by {
                        assert(t1.keeps(t0, i));
                    }
                    assert(self.node(rt).connected == t0.node(h).connected) by {
                        assert(t1.in_hsub(rt, rt));
                        assert(t1.keeps(t0, h));
                    }
                }
                Ok(root)
            },
            Err(e) => {
                proof {
                    assert(false);
                }
                Err(e)
            },
        }
    }
}

} // verus!
