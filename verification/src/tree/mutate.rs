//! Structural mutation: connectivity propagation, detaching and inserting.
use vstd::prelude::*;

use super::{DomTree, Node, NodeId};
use super::model::{ids_of, opt_id, without};
use super::link::{cut_anc, cut_kids, unlinked_node, grow_kids, before_slot, after_slot};
use super::lemmas::lemma_nat_range;

verus! {

impl DomTree {
    /// Sets the `connected` bit of slot `i` when it is live.
    pub(crate) fn set_conn_bit(&mut self, i: usize, v: bool)
        requires
            i < old(self).nodes@.len(),
        ensures
            final(self).nodes@ == old(self).nodes@.update(
                i as int,
                match old(self).nodes@[i as int] {
                    Some(n) => Some(Node { connected: v, ..n }),
                    None => None,
                },
            ),
            final(self).free_list == old(self).free_list,
            final(self).document == old(self).document,
            final(self).id_index == old(self).id_index,
            final(self).root_info == old(self).root_info,
            final(self).hosted_root == old(self).hosted_root,
            final(self).kids == old(self).kids,
            final(self).anc == old(self).anc,
            final(self).quirks == old(self).quirks,
            final(self).allow_declarative_shadow_roots == old(self).allow_declarative_shadow_roots,
    {
        match &mut self.nodes[i] {
            Some(n) => {
                n.connected = v;
            },
            None => {},
        }
    }

    /// Sets the `connected` bit of every node in the shadow-including
    /// subtree of `root` (ordinary children and hosted shadow roots).
    pub(crate) fn set_subtree_connected(&mut self, root: NodeId, connected: bool)
        requires
            old(self).wf_struct(),
        ensures
            final(self).conn_set(*old(self), root.id(), connected),
    {
        let ghost t0 = *self;
        let ghost c = root.id();
        // Fresh parser/framework insertions are overwhelmingly leaves. Avoid
        // allocating traversal state for the one-node case.
        let is_leaf = match self.node_ref(root) {
            Some(n) => n.first_child.is_none(),
            None => false,
        } && self.shadow_root(root).is_none();
        if is_leaf {
            proof {
                t0.lemma_at(c);
            }
            self.set_conn_bit(root.0 as usize, connected);
            proof {
                assert forall|y: nat| #[trigger] t0.live(y) && t0.in_hsub(c, y) implies y == c by {
                    if y != c {
                        let u = t0.lemma_path_step(c, y);
                        t0.lemma_hchild(u, c);
                    }
                }
                assert(self.same_but_conn(t0));
            }
            return;
        }
        let n = self.nodes.len();
        let mut seen: Vec<bool> = vec![false; n];
        let mut stack: Vec<NodeId> = Vec::new();
        stack.push(root);
        let ghost mut seen_set: Set<nat> = Set::empty();
        proof {
            t0.lemma_at_or_dead(c);
            lemma_nat_range(n as nat);
            assert(seen_set =~= Set::new(|i: nat| i < n && seen@[i as int]));
            assert forall|y: nat|
                #[trigger] t0.live(y) && t0.in_hsub(c, y) && !seen@[y as int] implies on_stack(
                stack@,
                y,
            ) || (y != c && !seen@[t0.hparent(y)->Some_0 as int]) by {
                if y == c {
                    assert(stack@[0].id() == c);
                } else {
                    t0.lemma_at(y);
                    t0.lemma_hparent_live(y);
                }
            }
        }
        while stack.len() > 0
            invariant
                t0.wf_struct(),
                c == root.id(),
                n == t0.slots(),
                self.same_but_conn(t0),
                seen@.len() == n,
                seen_set == Set::new(|i: nat| i < n && seen@[i as int]),
                seen_set.finite(),
                seen_set.len() <= n,
                forall|i: nat|
                    #[trigger] t0.live(i) ==> self.node(i).connected == if seen@[i as int] {
                        connected
                    } else {
                        t0.node(i).connected
                    },
                forall|i: int|
                    0 <= i < n && #[trigger] seen@[i] ==> t0.live(i as nat) && t0.in_hsub(
                        c,
                        i as nat,
                    ),
                forall|k: int|
                    0 <= k < stack@.len() ==> {
                        let s = #[trigger] stack@[k].id();
                        (t0.live(s) && t0.in_hsub(c, s)) || s == c
                    },
                forall|y: nat|
                    #[trigger] t0.live(y) && t0.in_hsub(c, y) && !seen@[y as int] ==> on_stack(
                        stack@,
                        y,
                    ) || (y != c && !seen@[t0.hparent(y)->Some_0 as int]),
            decreases n - seen_set.len(), stack@.len(),
        {
            let ghost st = stack@;
            let node_id = stack.pop().unwrap();
            let ghost z = node_id.id();
            proof {
                self.lemma_same_but_conn(t0);
                assert(st == stack@.push(node_id));
            }
            let idx = node_id.0 as usize;
            let skip = if idx >= n || seen[idx] {
                true
            } else {
                match self.node_ref(node_id) {
                    Some(_) => false,
                    None => true,
                }
            };
            if skip {
                proof {
                    assert forall|y: nat|
                        #[trigger] t0.live(y) && t0.in_hsub(c, y) && !seen@[y as int] implies on_stack(
                        stack@,
                        y,
                    ) || (y != c && !seen@[t0.hparent(y)->Some_0 as int]) by {
                        if on_stack(st, y) {
                            let k = choose|k: int| 0 <= k < st.len() && #[trigger] st[k].id() == y;
                            if k < stack@.len() {
                                assert(stack@[k].id() == y);
                            } else {
                                t0.lemma_at(y);
                            }
                        }
                    }
                }
                continue;
            }
            let first = match self.node_ref(node_id) {
                Some(nd) => nd.first_child,
                None => None,
            };
            proof {
                assert(t0.live(z));
                assert(t0.in_hsub(c, z));
                t0.lemma_at(z);
            }
            let ghost seen0 = seen@;
            seen.set(idx, true);
            self.set_conn_bit(idx, connected);
            proof {
                lemma_nat_range(n as nat);
                assert(!seen_set.contains(z));
                seen_set = seen_set.insert(z);
                assert(seen_set =~= Set::new(|i: nat| i < n && seen@[i as int]));
                assert(seen_set.subset_of(Set::new(|i: nat| i < n)));
                vstd::set_lib::lemma_len_subset(seen_set, Set::new(|i: nat| i < n));
                assert(self.same_but_conn(t0));
                self.lemma_same_but_conn(t0);
            }
            let ghost base0 = stack@;
            let hosted = self.shadow_root(node_id);
            match hosted {
                Some(r) => {
                    stack.push(r);
                },
                None => {},
            }
            let ghost base = stack@;
            let mut child = first;
            let mut cnt: usize = 0;
            proof {
                t0.lemma_kids_bound(z);
            }
            #[verifier::loop_isolation(false)]
            while cnt <= self.nodes.len() && child.is_some()
                invariant
                    cnt <= t0.kids(z).len(),
                    stack@ == base + ids_of(t0.kids(z).take(cnt as int)),
                    opt_id(child) == if cnt < t0.kids(z).len() {
                        Some(t0.kids(z)[cnt as int])
                    } else {
                        None::<nat>
                    },
                decreases t0.kids(z).len() - cnt,
            {
                let child_id = child.unwrap();
                proof {
                    t0.lemma_kid_at(z, cnt as int);
                }
                stack.push(child_id);
                proof {
                    assert(t0.kids(z).take(cnt + 1) =~= t0.kids(z).take(cnt as int).push(
                        t0.kids(z)[cnt as int],
                    ));
                    assert(ids_of(t0.kids(z).take(cnt + 1)) =~= ids_of(
                        t0.kids(z).take(cnt as int),
                    ).push(child_id));
                }
                child = match self.node_ref(child_id) {
                    Some(nd) => nd.next_sibling,
                    None => None,
                };
                cnt = cnt + 1;
            }
            proof {
                assert(cnt == t0.kids(z).len());
                assert(t0.kids(z).take(cnt as int) =~= t0.kids(z));
                assert forall|y: nat|
                    #[trigger] t0.live(y) && t0.in_hsub(c, y) && !seen@[y as int] && y != z implies on_stack(
                    st,
                    y,
                ) || (y != c && (!seen@[t0.hparent(y)->Some_0 as int] || t0.hparent(y) == Some(z))) by {
                    t0.lemma_at(y);
                    assert(seen0[y as int] == seen@[y as int]);
                    if y != c {
                        t0.lemma_hparent_live(y);
                        let p = t0.hparent(y)->Some_0;
                        t0.lemma_at(p);
                        if p != z {
                            assert(seen0[p as int] == seen@[p as int]);
                        }
                    }
                }
                t0.lemma_dfs_push(c, z, st, base0, base, stack@, seen@);
            }
        }
        proof {
            self.lemma_same_but_conn(t0);
            assert forall|y: nat| #[trigger] t0.live(y) && t0.in_hsub(c, y) implies seen@[y as int] by {
                t0.lemma_dfs_reach(c, seen@, y);
            }
        }
    }

    /// `self` is `t` after `c` was unlinked from its parent, with the
    /// connectivity bits of `c`'s host-including subtree cleared when
    /// `disconnect` holds.
    pub open(crate) spec fn detached_from(&self, t: DomTree, c: nat, disconnect: bool) -> bool {
        &&& self.nodes@.len() == t.nodes@.len()
        &&& forall|i: int|
            0 <= i < self.nodes@.len() ==> (#[trigger] self.nodes@[i] is Some) == (
            t.nodes@[i] is Some)
        &&& forall|i: nat|
            #[trigger] t.live(i) ==> self.node(i) == (Node {
                connected: if disconnect && t.in_hsub(c, i) {
                    false
                } else {
                    t.node(i).connected
                },
                ..unlinked_node(t, c, i)
            })
        &&& self.free_list@ == t.free_list@
        &&& self.document == t.document
        &&& self.root_info@ == t.root_info@
        &&& self.hosted_root@ == t.hosted_root@
        &&& self.quirks == t.quirks
        &&& self.allow_declarative_shadow_roots == t.allow_declarative_shadow_roots
        &&& self.kids@ == cut_kids(t, c)
        &&& self.anc@ == cut_anc(t, c)
    }

    /// What stays true of the nodes of a tree when `c`'s subtree moves:
    /// the same slots are live with the same data, registries and ids;
    /// nodes outside the subtree keep their chains and connectivity.
    pub open(crate) spec fn moved_facts(&self, t: DomTree, c: nat) -> bool {
        &&& forall|i: nat| #[trigger] self.live(i) == t.live(i)
        &&& forall|i: nat| #[trigger] self.shadow_info(i) == t.shadow_info(i)
        &&& forall|i: nat| #[trigger] self.hosted(i) == t.hosted(i)
        &&& self.doc() == t.doc()
        &&& self.id_map() == t.id_map()
        &&& self.quirks_flag() == t.quirks_flag()
        &&& self.declarative_flag() == t.declarative_flag()
        &&& forall|i: nat| t.live(i) ==> #[trigger] self.node(i).data == t.node(i).data
        &&& forall|i: nat| #[trigger] t.live(i) ==> self.in_hsub(c, i) == t.in_hsub(c, i)
        &&& forall|i: nat|
            #[trigger] t.live(i) && !t.in_hsub(c, i) ==> self.sroot(i) == t.sroot(i) && self.anc(i)
                == t.anc(i) && self.node(i).connected == t.node(i).connected
    }

    /// A node that light-tree mutation may move: live, not the document and
    /// not a shadow root.
    pub open spec fn movable(&self, c: nat) -> bool {
        self.live(c) && c != self.doc() && self.shadow_info(c) is None
    }

    /// Takes `node_id` out of its parent's child list. The document, shadow
    /// roots and free slots are left alone. With `disconnect`, every node of
    /// the moved subtree loses its connectivity bit; without it the bits are
    /// kept for a caller that reinserts the subtree into a connected parent.
    pub(crate) fn detach_for_reparent(&mut self, node_id: NodeId, disconnect: bool)
        requires
            old(self).wf(),
        ensures
            final(self).wf_struct(),
            !old(self).movable(node_id.id()) ==> *final(self) == *old(self),
            old(self).movable(node_id.id()) ==> final(self).detached_from(
                *old(self),
                node_id.id(),
                disconnect,
            ),
            disconnect ==> final(self).wf(),
            old(self).movable(node_id.id()) ==> final(self).moved_facts(*old(self), node_id.id()),
    {
        let ghost t0 = *self;
        let ghost c = node_id.id();
        if node_id.0 == self.document.0 || self.is_shadow_root(node_id) {
            return;
        }
        let conn = match self.node_ref(node_id) {
            Some(n) => n.connected,
            None => {
                return;
            },
        };
        proof {
            t0.lemma_at(c);
            t0.lemma_conn_at(c);
        }
        if disconnect && conn {
            self.set_subtree_connected(node_id, false);
        }
        let ghost t1 = *self;
        proof {
            t1.lemma_same_but_conn(t0);
            assert(t1.kids@ == t0.kids@);
        }
        self.unlink(node_id);
        proof {
            self.lemma_unlink(t1, c);
            assert(cut_kids(t1, c) == cut_kids(t0, c));
            assert(cut_anc(t1, c) =~= cut_anc(t0, c));
            assert forall|i: nat| #[trigger] t0.live(i) implies self.node(i) == (Node {
                connected: if disconnect && t0.in_hsub(c, i) {
                    false
                } else {
                    t0.node(i).connected
                },
                ..unlinked_node(t0, c, i)
            }) by {
                assert(t1.live(i));
                if disconnect && !conn && t0.in_hsub(c, i) {
                    t0.lemma_conn_at(i);
                    t0.lemma_hsub_sroot(c, i);
                }
            }
            assert forall|i: int|
                0 <= i < self.nodes@.len() implies (#[trigger] self.nodes@[i] is Some) == (
                t0.nodes@[i] is Some) by {
                assert(t1.nodes@[i] is Some == t0.nodes@[i] is Some);
            }
            assert forall|i: nat| #[trigger] t0.live(i) && !t0.in_hsub(c, i) implies self.node(i).connected == t0.node(i).connected by {
                assert(t1.live(i));
            }
            assert forall|i: nat| #[trigger] self.live(i) == t0.live(i) by {
                assert(self.live(i) == t1.live(i));
            }
            assert forall|i: nat| #[trigger] t0.live(i) implies self.in_hsub(c, i) == t0.in_hsub(c, i) by {
                assert(t1.live(i));
                assert(t1.anc(i) == t0.anc(i));
            }
            assert forall|i: nat| #[trigger] t0.live(i) && !t0.in_hsub(c, i) implies self.sroot(i) == t0.sroot(i) && self.anc(i) == t0.anc(i) by {
                assert(t1.live(i));
                assert(t1.anc(i) == t0.anc(i));
            }
            assert forall|i: nat| t0.live(i) implies #[trigger] self.node(i).data == t0.node(i).data by {
                assert(t1.live(i));
            }
            if disconnect {
                assert(self.wf_conn()) by {
                    reveal(DomTree::wf_conn);
                    assert forall|i: nat| #[trigger] self.live(i) implies self.conn_ok(i) by {
                        assert(t0.live(i));
                        t0.lemma_conn_at(i);
                        if t0.in_hsub(c, i) {
                            assert(self.sroot(i) == c);
                            t0.lemma_at(t0.doc());
                        }
                    }
                }
            }
        }
    }

    /// Takes `node_id` out of its parent's child list; the detached subtree
    /// is no longer connected. The document, shadow roots and free slots are
    /// left alone.
    pub fn detach(&mut self, node_id: NodeId)
        requires
            old(self).wf(),
        ensures
            final(self).wf(),
            !old(self).movable(node_id.id()) ==> *final(self) == *old(self),
            old(self).movable(node_id.id()) ==> final(self).detached_from(
                *old(self),
                node_id.id(),
                true,
            ),
            old(self).movable(node_id.id()) ==> final(self).parent_of(node_id.id()) is None
                && final(self).anc(node_id.id()) == Seq::<nat>::empty(),
            old(self).movable(node_id.id()) && old(self).parent_of(node_id.id()) is Some ==> {
                let p = old(self).parent_of(node_id.id())->Some_0;
                final(self).kids(p) == without(old(self).kids(p), node_id.id())
            },
            forall|i: nat| #[trigger] final(self).live(i) == old(self).live(i),
            old(self).movable(node_id.id()) ==> final(self).moved_facts(*old(self), node_id.id()),
    {
        self.detach_for_reparent(node_id, true);
        proof {
            let t0 = *old(self);
            let c = node_id.id();
            if t0.movable(c) {
                t0.lemma_at(c);
                assert(self.parent_of(c) is None);
                assert(self.anc(c) =~= Seq::<nat>::empty());
            }
            assert forall|i: nat| #[trigger] self.live(i) == t0.live(i) by {
                if i < self.nodes@.len() && t0.movable(c) {
                    assert(self.nodes@[i as int] is Some == t0.nodes@[i as int] is Some);
                }
            }
        }
    }

    /// `c` may become a child of `p`: both are live, `c` is neither `p`,
    /// the document nor a shadow root, and `c` is not a host-including
    /// inclusive ancestor of `p`.
    pub open spec fn can_insert(&self, p: nat, c: nat) -> bool {
        p != c && self.live(p) && self.movable(c) && !self.in_hsub(c, p)
    }

    /// The common part of the insertion contracts: the moved node's old
    /// parent lost it, lists of other nodes are untouched, and every node
    /// of the moved subtree is connected exactly when the new parent is.
    pub open(crate) spec fn inserted(&self, t: DomTree, p: nat, c: nat) -> bool {
        &&& self.moved_facts(t, c)
        &&& self.parent_of(c) == Some(p)
        &&& forall|i: nat|
            #[trigger] t.live(i) && t.in_hsub(c, i) ==> self.node(i).connected == t.node(
                p,
            ).connected
        &&& forall|q: nat|
            t.parent_of(c) == Some(q) && q != p ==> #[trigger] self.kids(q) == without(
                t.kids(q),
                c,
            )
        &&& forall|x: nat|
            x != p && t.parent_of(c) != Some(x) ==> #[trigger] self.kids(x) == t.kids(x)
    }

    /// Settles connectivity after the subtree of `c` moved under `p`: the
    /// bits the caller left in place are right unless `p` is connected and
    /// `c` was not, in which case the subtree is marked connected.
    fn finish_insert(
        &mut self,
        child: NodeId,
        parent_connected: bool,
        child_connected: bool,
        Ghost(t0): Ghost<DomTree>,
        Ghost(p): Ghost<nat>,
    )
        requires
            t0.wf(),
            t0.can_insert(p, child.id()),
            parent_connected == t0.node(p).connected,
            child_connected == t0.node(child.id()).connected,
            old(self).wf_struct(),
            old(self).moved_facts(t0, child.id()),
            old(self).parent_of(child.id()) == Some(p),
            forall|i: nat|
                #[trigger] t0.live(i) && t0.in_hsub(child.id(), i) ==> old(self).sroot(i) == t0.sroot(p),
            forall|i: nat|
                #[trigger] t0.live(i) && t0.in_hsub(child.id(), i) ==> old(self).node(i).connected
                    == if child_connected && !parent_connected {
                    false
                } else {
                    t0.node(i).connected
                },
        ensures
            final(self).wf(),
            final(self).moved_facts(t0, child.id()),
            final(self).parent_of(child.id()) == Some(p),
            forall|i: nat|
                #[trigger] t0.live(i) && t0.in_hsub(child.id(), i) ==> final(self).node(i).connected
                    == parent_connected,
            final(self).kids@ == old(self).kids@,
    {
        let ghost c = child.id();
        let ghost t2 = *self;
        proof {
            t0.lemma_at(c);
            t0.lemma_at(p);
            t0.lemma_conn_at(c);
            t0.lemma_conn_at(p);
        }
        if parent_connected && !child_connected {
            self.set_subtree_connected(child, true);
        }
        proof {
            self.lemma_same_but_conn(t2);
            assert forall|i: nat| #[trigger] t0.live(i) && t0.in_hsub(c, i) implies self.node(i).connected == parent_connected by {
                t0.lemma_conn_at(i);
                t0.lemma_hsub_sroot(c, i);
                assert(t2.live(i));
            }
            assert forall|i: nat| #[trigger] t0.live(i) && !t0.in_hsub(c, i) implies self.node(i).connected == t0.node(i).connected by {
                assert(t2.live(i));
            }
            assert(self.wf_conn()) by {
                reveal(DomTree::wf_conn);
                assert forall|i: nat| #[trigger] self.live(i) implies self.conn_ok(i) by {
                    assert(t0.live(i));
                    t0.lemma_conn_at(i);
                    assert(t2.anc(i) == self.anc(i));
                }
            }
            assert forall|i: nat| #[trigger] t0.live(i) implies self.in_hsub(c, i) == t0.in_hsub(c, i) by {
                assert(t2.live(i));
                assert(t2.anc(i) == self.anc(i));
            }
            assert forall|i: nat| #[trigger] t0.live(i) && !t0.in_hsub(c, i) implies self.sroot(i) == t0.sroot(i) && self.anc(i) == t0.anc(i) by {
                assert(t2.live(i));
                assert(t2.anc(i) == self.anc(i));
            }
        }
    }

    /// Appends `child` as the last child of `parent`, first taking it out of
    /// its current parent. Refused, leaving the tree unchanged, when `child`
    /// is `parent`, either is a free slot, `child` is the document or a
    /// shadow root, or `child` is a host-including inclusive ancestor of
    /// `parent`.
    pub fn append_child(&mut self, parent_id: NodeId, child_id: NodeId)
        requires
            old(self).wf(),
        ensures
            final(self).wf(),
            !old(self).can_insert(parent_id.id(), child_id.id()) ==> *final(self) == *old(self),
            old(self).can_insert(parent_id.id(), child_id.id()) ==> final(self).inserted(
                *old(self),
                parent_id.id(),
                child_id.id(),
            ),
            old(self).can_insert(parent_id.id(), child_id.id()) ==> final(self).kids(parent_id.id())
                == without(old(self).kids(parent_id.id()), child_id.id()).push(child_id.id()),
    {
        let ghost t0 = *self;
        let ghost p = parent_id.id();
        let ghost c = child_id.id();
        if parent_id.0 == child_id.0 {
            return;
        }
        let parent_connected = match self.node_ref(parent_id) {
            Some(n) => n.connected,
            None => {
                return;
            },
        };
        let child_connected = match self.node_ref(child_id) {
            Some(n) => n.connected,
            None => {
                return;
            },
        };
        if child_id.0 == self.document.0 || self.is_shadow_root(child_id) {
            return;
        }
        if self.would_create_host_including_cycle(parent_id, child_id) {
            return;
        }
        proof {
            t0.lemma_at(c);
            t0.lemma_at(p);
            if t0.in_hsub(c, p) {
                let u = t0.lemma_path_step(c, p);
                t0.lemma_hchild(u, c);
                let k = choose|k: int| 0 <= k < t0.anc(p).len() && t0.anc(p)[k] == c;
                assert((seq![p] + t0.anc(p))[k + 1] == c);
                if t0.kids(c).contains(u) {
                    assert(t0.kids(c).len() > 0);
                }
            }
            assert(t0.can_insert(p, c));
        }
        self.detach_for_reparent(child_id, child_connected && !parent_connected);
        let ghost t1 = *self;
        proof {
            assert(t1.live(p));
            t1.lemma_at(p);
        }
        let last = match self.node_ref(parent_id) {
            Some(n) => n.last_child,
            None => None,
        };
        let ghost j = t1.kids(p).len() as int;
        proof {
            assert(t1.can_link(p, c, j));
        }
        self.link(parent_id, child_id, last, None, Ghost(j));
        proof {
            self.lemma_link(t1, p, c, j);
            assert forall|i: nat| #[trigger] self.live(i) == t0.live(i) by {
                assert(self.live(i) == t1.live(i));
            }
            assert forall|i: nat| #[trigger] t0.live(i) implies self.in_hsub(c, i) == t0.in_hsub(c, i) by {
                assert(t1.live(i));
            }
            assert forall|i: nat| #[trigger] t0.live(i) && !t0.in_hsub(c, i) implies self.sroot(i)
                == t0.sroot(i) && self.anc(i) == t0.anc(i) && self.node(i).connected == t0.node(
                i,
            ).connected by {
                assert(t1.live(i));
            }
            assert forall|i: nat| t0.live(i) implies #[trigger] self.node(i).data == t0.node(i).data by {
                assert(t1.live(i));
            }
            assert forall|i: nat| #[trigger] t0.live(i) && t0.in_hsub(c, i) implies self.sroot(i)
                == t0.sroot(p) && self.node(i).connected == if child_connected && !parent_connected {
                false
            } else {
                t0.node(i).connected
            } by {
                assert(t1.live(i));
                assert(t1.sroot(p) == t0.sroot(p));
            }
            assert(self.moved_facts(t0, c));
        }
        let ghost t2 = *self;
        self.finish_insert(child_id, parent_connected, child_connected, Ghost(t0), Ghost(p));
        proof {
            assert(t2.kids@ == grow_kids(t1, p, c, j));
            assert(t1.kids(p).insert(j, c) =~= t1.kids(p).push(c));
            assert(t1.kids(p) == without(t0.kids(p), c)) by {
                if t0.parent_of(c) != Some(p) {
                    assert(!t0.kids(p).contains(c)) by {
                        if t0.kids(p).contains(c) {
                            let k = choose|k: int| 0 <= k < t0.kids(p).len() && t0.kids(p)[k] == c;
                            assert(t0.kid_ok(p, k));
                        }
                    }
                }
            }
            assert forall|q: nat|
                t0.parent_of(c) == Some(q) && q != p implies #[trigger] self.kids(q) == without(
                t0.kids(q),
                c,
            ) by {}
            assert forall|x: nat|
                x != p && t0.parent_of(c) != Some(x) implies #[trigger] self.kids(x) == t0.kids(x) by {}
        }
    }

    /// `c` may be inserted before `e`: `e` is a live node with a parent
    /// that `c` may become a child of.
    pub open spec fn can_insert_before(&self, e: nat, c: nat) -> bool {
        &&& e != c
        &&& self.live(e)
        &&& self.parent_of(e) is Some
        &&& self.can_insert(self.parent_of(e)->Some_0, c)
    }

    /// Inserts `new_sibling_id` just before `existing_id` in the latter's
    /// parent, first taking it out of its current parent. Refused, leaving
    /// the tree unchanged, when the two are the same node, `existing_id` has
    /// no parent, or the move could not be made by `append_child` either.
    pub fn insert_before(&mut self, existing_id: NodeId, new_sibling_id: NodeId)
        requires
            old(self).wf(),
        ensures
            final(self).wf(),
            !old(self).can_insert_before(existing_id.id(), new_sibling_id.id()) ==> *final(self)
                == *old(self),
            old(self).can_insert_before(existing_id.id(), new_sibling_id.id()) ==> {
                let p = old(self).parent_of(existing_id.id())->Some_0;
                let w = without(old(self).kids(p), new_sibling_id.id());
                &&& final(self).inserted(*old(self), p, new_sibling_id.id())
                &&& final(self).kids(p) == w.insert(w.index_of(existing_id.id()), new_sibling_id.id())
            },
    {
        let ghost t0 = *self;
        let ghost e = existing_id.id();
        let ghost c = new_sibling_id.id();
        if existing_id.0 == new_sibling_id.0 {
            return;
        }
        let parent_id = match self.node_ref(existing_id) {
            Some(n) => match n.parent {
                Some(pp) => pp,
                None => {
                    return;
                },
            },
            None => {
                return;
            },
        };
        let ghost p = parent_id.id();
        proof {
            t0.lemma_at(e);
        }
        let parent_connected = match self.node_ref(parent_id) {
            Some(n) => n.connected,
            None => {
                return;
            },
        };
        let child_connected = match self.node_ref(new_sibling_id) {
            Some(n) => n.connected,
            None => {
                return;
            },
        };
        if new_sibling_id.0 == self.document.0 || self.is_shadow_root(new_sibling_id) {
            return;
        }
        if self.would_create_host_including_cycle(parent_id, new_sibling_id) {
            return;
        }
        proof {
            t0.lemma_at(c);
            t0.lemma_at(p);
            if t0.in_hsub(c, p) {
                if c != p {
                    let u = t0.lemma_path_step(c, p);
                    t0.lemma_hchild(u, c);
                    let k = choose|k: int| 0 <= k < t0.anc(p).len() && t0.anc(p)[k] == c;
                    assert((seq![p] + t0.anc(p))[k + 1] == c);
                    if t0.kids(c).contains(u) {
                        assert(t0.kids(c).len() > 0);
                    }
                } else {
                    assert(t0.kids(p).contains(e));
                    assert(t0.kids(p).len() > 0);
                    assert((seq![p] + t0.anc(p))[0] == c);
                }
            }
            assert(t0.can_insert(p, c));
        }
        self.detach_for_reparent(new_sibling_id, child_connected && !parent_connected);
        let ghost t1 = *self;
        proof {
            assert(t1.live(p));
            assert(t1.live(e));
            t1.lemma_at(p);
            t1.lemma_at(e);
            assert(t1.parent_of(e) == Some(p));
        }
        let ghost ks1 = t1.kids(p);
        let ghost j = choose|j: int| 0 <= j < ks1.len() && ks1[j] == e;
        let prev = match self.node_ref(existing_id) {
            Some(n) => n.prev_sibling,
            None => None,
        };
        proof {
            assert(ks1.contains(e));
            assert(t1.kid_ok(p, j));
            assert(t1.can_link(p, c, j));
            assert(existing_id == super::link::nid(e));
        }
        self.link(parent_id, new_sibling_id, prev, Some(existing_id), Ghost(j));
        proof {
            self.lemma_link(t1, p, c, j);
            assert forall|i: nat| #[trigger] self.live(i) == t0.live(i) by {
                assert(self.live(i) == t1.live(i));
            }
            assert forall|i: nat| #[trigger] t0.live(i) implies self.in_hsub(c, i) == t0.in_hsub(c, i) by {
                assert(t1.live(i));
            }
            assert forall|i: nat| #[trigger] t0.live(i) && !t0.in_hsub(c, i) implies self.sroot(i)
                == t0.sroot(i) && self.anc(i) == t0.anc(i) && self.node(i).connected == t0.node(
                i,
            ).connected by {
                assert(t1.live(i));
            }
            assert forall|i: nat| t0.live(i) implies #[trigger] self.node(i).data == t0.node(i).data by {
                assert(t1.live(i));
            }
            assert forall|i: nat| #[trigger] t0.live(i) && t0.in_hsub(c, i) implies self.sroot(i)
                == t0.sroot(p) && self.node(i).connected == if child_connected && !parent_connected {
                false
            } else {
                t0.node(i).connected
            } by {
                assert(t1.live(i));
                assert(t1.sroot(p) == t0.sroot(p));
            }
            assert(self.moved_facts(t0, c));
        }
        let ghost t2 = *self;
        self.finish_insert(new_sibling_id, parent_connected, child_connected, Ghost(t0), Ghost(p));
        proof {
            let w = without(t0.kids(p), c);
            assert(t1.kids(p) == w) by {
                if t0.parent_of(c) != Some(p) {
                    assert(!t0.kids(p).contains(c)) by {
                        if t0.kids(p).contains(c) {
                            let k = choose|k: int| 0 <= k < t0.kids(p).len() && t0.kids(p)[k] == c;
                            assert(t0.kid_ok(p, k));
                        }
                    }
                }
            }
            assert(w.index_of(e) == j) by {
                w.index_of_first_ensures(e);
                assert(w.no_duplicates());
                let k = w.index_of(e);
                assert(w[k] == e);
            }
            assert forall|q: nat|
                t0.parent_of(c) == Some(q) && q != p implies #[trigger] self.kids(q) == without(
                t0.kids(q),
                c,
            ) by {}
            assert forall|x: nat|
                x != p && t0.parent_of(c) != Some(x) implies #[trigger] self.kids(x) == t0.kids(x) by {}
        }
    }

    /// A free slot has no parent and no kids that could lead elsewhere; the
    /// facts of `lemma_at` for a live one.
    pub(crate) proof fn lemma_at_or_dead(&self, c: nat)
        requires
            self.wf_struct(),
        ensures
            self.live(c) ==> self.kids_ok(c) && self.anc_ok(c),
    {
        if self.live(c) {
            self.lemma_at(c);
        }
    }

    /// Processing `z` keeps the walk invariants: every unvisited node of the
    /// subtree is on the stack or has an unvisited host-including parent,
    /// and the stack holds only subtree nodes.
    pub(crate) proof fn lemma_dfs_push(
        &self,
        c: nat,
        z: nat,
        st: Seq<NodeId>,
        base0: Seq<NodeId>,
        base: Seq<NodeId>,
        stack: Seq<NodeId>,
        seen: Seq<bool>,
    )
        requires
            self.wf_struct(),
            self.live(z),
            self.in_hsub(c, z),
            seen.len() == self.slots(),
            seen[z as int],
            st.len() > 0,
            st.last().id() == z,
            base0 == st.drop_last(),
            base == base0 || (self.hosted(z) is Some && base == base0.push(
                NodeId(self.hosted(z)->Some_0 as u32),
            )),
            self.hosted(z) is Some ==> base != base0,
            stack == base + ids_of(self.kids(z)),
            forall|k: int|
                0 <= k < st.len() ==> {
                    let s = #[trigger] st[k].id();
                    (self.live(s) && self.in_hsub(c, s)) || s == c
                },
            forall|y: nat|
                #[trigger] self.live(y) && self.in_hsub(c, y) && !seen[y as int] && y != z ==> on_stack(
                    st,
                    y,
                ) || (y != c && (!seen[self.hparent(y)->Some_0 as int] || self.hparent(y)
                    == Some(z))),
        ensures
            forall|k: int|
                0 <= k < stack.len() ==> {
                    let s = #[trigger] stack[k].id();
                    (self.live(s) && self.in_hsub(c, s)) || s == c
                },
            forall|y: nat|
                #[trigger] self.live(y) && self.in_hsub(c, y) && !seen[y as int] ==> on_stack(
                    stack,
                    y,
                ) || (y != c && !seen[self.hparent(y)->Some_0 as int]),
    {
        self.lemma_at(z);
        let kz = self.kids(z);
        assert forall|k: int| 0 <= k < stack.len() implies {
            let s = #[trigger] stack[k].id();
            (self.live(s) && self.in_hsub(c, s)) || s == c
        } by {
            if k < base0.len() {
                assert(stack[k] == st[k]);
            } else if k < base.len() {
                let r = self.hosted(z)->Some_0;
                self.lemma_host_at(z);
                assert(stack[k] == NodeId(r as u32));
                assert(r < self.slots() && self.slots() <= 0x1_0000_0000);
                self.lemma_at(r);
                assert(self.hparent(r) == Some(z));
                assert(self.anc(r).contains(z)) by {
                    assert(self.anc(r)[0] == z);
                }
                self.lemma_hsub_trans(c, z, r);
            } else {
                let j = k - base.len();
                self.lemma_kid_at(z, j);
                self.lemma_kids_bound(z);
                let u = kz[j];
                assert(stack[k] == NodeId(u as u32));
                assert(u < self.slots());
                assert(self.anc(u)[0] == z);
                self.lemma_hsub_trans(c, z, u);
            }
        }
        assert forall|y: nat|
            #[trigger] self.live(y) && self.in_hsub(c, y) && !seen[y as int] implies on_stack(
            stack,
            y,
        ) || (y != c && !seen[self.hparent(y)->Some_0 as int]) by {
            assert(y != z);
            if on_stack(st, y) {
                let k = choose|k: int| 0 <= k < st.len() && #[trigger] st[k].id() == y;
                assert(k < base0.len());
                assert(stack[k] == st[k]);
            } else if self.hparent(y) == Some(z) {
                self.lemma_hchild(y, z);
                if kz.contains(y) {
                    let j = choose|j: int| 0 <= j < kz.len() && kz[j] == y;
                    self.lemma_kids_bound(z);
                    assert(stack[base.len() + j] == NodeId(y as u32));
                    assert(stack[base.len() + j].id() == y);
                } else {
                    assert(self.hosted(z) == Some(y));
                    self.lemma_host_at(z);
                    assert(y < self.slots());
                    assert(stack[base0.len() as int] == NodeId(y as u32));
                    assert(stack[base0.len() as int].id() == y);
                }
            }
        }
    }

    /// When the stack is empty, every node of the subtree has been visited.
    pub(crate) proof fn lemma_dfs_reach(&self, c: nat, seen: Seq<bool>, y: nat)
        requires
            self.wf_struct(),
            self.live(y),
            self.in_hsub(c, y),
            forall|x: nat|
                #[trigger] self.live(x) && self.in_hsub(c, x) && !seen[x as int] ==> on_stack(
                    Seq::<NodeId>::empty(),
                    x,
                ) || (x != c && !seen[self.hparent(x)->Some_0 as int]),
        ensures
            seen[y as int],
        decreases self.anc(y).len(),
    {
        if !seen[y as int] {
            assert(self.live(y) && self.in_hsub(c, y) && !seen[y as int]);
            assert(!on_stack(Seq::<NodeId>::empty(), y));
            self.lemma_at(y);
            self.lemma_hparent_live(y);
            let p = self.hparent(y)->Some_0;
            assert(self.anc(y) == seq![p] + self.anc(p));
            if p != c {
                let k = choose|k: int| 0 <= k < self.anc(y).len() && self.anc(y)[k] == c;
                assert(k > 0);
                assert(self.anc(p)[k - 1] == c);
            }
            assert(self.in_hsub(c, p));
            self.lemma_dfs_reach(c, seen, p);
        }
    }
}

/// `y` is the id of some node on the stack.
pub(crate) open spec fn on_stack(stack: Seq<NodeId>, y: nat) -> bool {
    exists|k: int| 0 <= k < stack.len() && #[trigger] stack[k].id() == y
}

} // verus!
