//! Read-only queries over a well-formed tree.
use vstd::prelude::*;

use super::{DomTree, Node, NodeId, ShadowRoot};
use super::model::{ids_of, opt_id};

verus! {

impl DomTree {
    /// Light ancestors step through the ordinary parent.
    pub(crate) proof fn lemma_light_anc_step(&self, i: nat)
        requires
            self.wf_struct(),
            self.live(i),
        ensures
            self.parent_of(i) is None ==> self.light_anc(i) == Seq::<nat>::empty(),
            self.parent_of(i) is Some ==> self.light_anc(i) == seq![self.parent_of(i)->Some_0]
                + self.light_anc(self.parent_of(i)->Some_0),
            self.parent_of(i) is Some ==> self.live(self.parent_of(i)->Some_0),
    {
        self.lemma_at(i);
    }

    /// Light ancestors are a prefix of the host-including ancestors.
    pub(crate) proof fn lemma_light_anc_prefix(&self, i: nat)
        requires
            self.wf_struct(),
            self.live(i),
        ensures
            self.light_anc(i).len() <= self.anc(i).len(),
            self.light_anc(i) == self.anc(i).take(self.light_anc(i).len() as int),
            forall|k: int|
                0 <= k < self.light_anc(i).len() ==> self.live(#[trigger] self.light_anc(i)[k]),
            self.light_anc(i).len() > 0 ==> self.parent_of(self.light_anc(i).last()) is None,
            self.light_anc(i).len() == 0 ==> self.parent_of(i) is None,
        decreases self.anc(i).len(),
    {
        self.lemma_light_anc_step(i);
        self.lemma_at(i);
        match self.parent_of(i) {
            None => {},
            Some(p) => {
                self.lemma_light_anc_prefix(p);
                assert(self.anc(i) == seq![p] + self.anc(p));
                assert(self.light_anc(i) =~= self.anc(i).take(self.light_anc(i).len() as int));
                assert forall|k: int|
                    0 <= k < self.light_anc(i).len() implies self.live(
                    #[trigger] self.light_anc(i)[k],
                ) by {
                    if k > 0 {
                        assert(self.light_anc(i)[k] == self.light_anc(p)[k - 1]);
                    }
                }
                if self.light_anc(p).len() > 0 {
                    assert(self.light_anc(i).last() == self.light_anc(p).last());
                }
            },
        }
    }

    /// The node in slot `id`, if that slot is live.
    pub(crate) fn node_ref(&self, id: NodeId) -> (r: Option<&Node>)
        requires
            self.wf_arena(),
        ensures
            r is Some == self.live(id.id()),
            r is Some ==> *r->Some_0 == self.node(id.id()),
    {
        let i = id.0 as usize;
        if i < self.nodes.len() {
            match &self.nodes[i] {
                Some(n) => Some(n),
                None => None,
            }
        } else {
            None
        }
    }

    pub fn document(&self) -> (r: NodeId)
        requires
            self.wf(),
        ensures
            r.id() == self.doc(),
    {
        self.document
    }

    /// Record whether the document was parsed in (full) quirks mode.
    pub fn set_quirks(&mut self, quirks: bool)
        requires
            old(self).wf(),
        ensures
            final(self).wf(),
            final(self).quirks_flag() == quirks,
            final(self).declarative_flag() == old(self).declarative_flag(),
            final(self).doc() == old(self).doc(),
            forall|i: nat| #[trigger] final(self).keeps(*old(self), i),
            forall|i: nat| final(self).live(i) == old(self).live(i),
            forall|r: nat| #[trigger] final(self).shadow_info(r) == old(self).shadow_info(r),
            forall|h: nat| #[trigger] final(self).hosted(h) == old(self).hosted(h),
            final(self).id_map() == old(self).id_map(),
    {
        self.quirks = quirks;
        proof {
            self.lemma_wf_same_shape(*old(self));
        }
    }

    /// Whether the document is in (full) quirks mode, in which CSS class and id
    /// selectors match ASCII-case-insensitively.
    pub fn is_quirks(&self) -> (r: bool)
        ensures
            r == self.quirks_flag(),
    {
        self.quirks
    }

    pub(crate) fn set_allow_declarative_shadow_roots(&mut self, allow: bool)
        requires
            old(self).wf(),
        ensures
            final(self).wf(),
            final(self).declarative_flag() == allow,
            final(self).quirks_flag() == old(self).quirks_flag(),
            final(self).doc() == old(self).doc(),
            forall|i: nat| #[trigger] final(self).keeps(*old(self), i),
            forall|i: nat| final(self).live(i) == old(self).live(i),
            forall|r: nat| #[trigger] final(self).shadow_info(r) == old(self).shadow_info(r),
            forall|h: nat| #[trigger] final(self).hosted(h) == old(self).hosted(h),
            final(self).id_map() == old(self).id_map(),
    {
        self.allow_declarative_shadow_roots = allow;
        proof {
            self.lemma_wf_same_shape(*old(self));
        }
    }

    pub(crate) fn allows_declarative_shadow_roots(&self) -> (r: bool)
        ensures
            r == self.declarative_flag(),
    {
        self.allow_declarative_shadow_roots
    }

    /// A copy of the node in slot `id`, if that slot is live.
    pub fn get_node(&self, id: NodeId) -> (r: Option<Node>)
        requires
            self.wf(),
        ensures
            r is Some == self.live(id.id()),
            r is Some ==> r->Some_0.same_as(self.node(id.id())),
    {
        match self.node_ref(id) {
            Some(n) => Some(n.duplicate()),
            None => None,
        }
    }

    /// Return the native root hosted by `host`, including closed roots. Web API
    /// visibility is intentionally left to the caller.
    pub fn shadow_root(&self, host: NodeId) -> (r: Option<NodeId>)
        requires
            self.wf_struct(),
        ensures
            opt_id(r) == self.hosted(host.id()),
    {
        let i = host.0 as usize;
        if i < self.hosted_root.len() {
            self.hosted_root[i]
        } else {
            None
        }
    }

    pub fn shadow_root_info(&self, root: NodeId) -> (r: Option<ShadowRoot>)
        requires
            self.wf_struct(),
        ensures
            r == self.shadow_info(root.id()),
    {
        let i = root.0 as usize;
        if i < self.root_info.len() {
            self.root_info[i]
        } else {
            None
        }
    }

    pub fn is_shadow_root(&self, node: NodeId) -> (r: bool)
        requires
            self.wf_struct(),
        ensures
            r == self.is_shadow_root_node(node.id()),
    {
        let i = node.0 as usize;
        i < self.root_info.len() && self.root_info[i].is_some()
    }

    /// Constant-time shadow-including connectivity. The bit is propagated over
    /// ordinary children and hosted shadow roots whenever a subtree moves.
    pub fn is_connected(&self, node: NodeId) -> (r: bool)
        requires
            self.wf(),
        ensures
            r == (self.live(node.id()) && self.sroot(node.id()) == self.doc()),
    {
        match self.node_ref(node) {
            Some(n) => {
                proof {
                    self.lemma_conn_at(node.id());
                }
                n.connected
            },
            None => false,
        }
    }

    /// The children of `node_id` in order; empty for a free slot.
    pub fn children(&self, node_id: NodeId) -> (r: Vec<NodeId>)
        requires
            self.wf_struct(),
        ensures
            self.live(node_id.id()) ==> r@ == ids_of(self.kids(node_id.id())),
            !self.live(node_id.id()) ==> r@ == Seq::<NodeId>::empty(),
    {
        let mut result: Vec<NodeId> = Vec::new();
        let ghost p = node_id.id();
        let mut current: Option<NodeId> = match self.node_ref(node_id) {
            Some(n) => n.first_child,
            None => None,
        };
        proof {
            if self.live(p) {
                self.lemma_at(p);
                self.lemma_kids_bound(p);
            }
        }
        while current.is_some()
            invariant
                self.wf_struct(),
                self.live(p) ==> {
                    &&& result@.len() <= self.kids(p).len()
                    &&& result@ == ids_of(self.kids(p).take(result@.len() as int))
                    &&& opt_id(current) == if result@.len() < self.kids(p).len() {
                        Some(self.kids(p)[result@.len() as int])
                    } else {
                        None::<nat>
                    }
                    &&& self.kids(p).len() <= self.slots()
                },
                !self.live(p) ==> current is None && result@.len() == 0,
            ensures
                current is None,
            decreases (if self.live(p) {
                self.kids(p).len()
            } else {
                0
            }) - result@.len(),
        {
            let child_id = current.unwrap();
            let ghost k = result@.len() as int;
            proof {
                self.lemma_kid_at(p, k);
                assert(self.kids(p)[k] < 0x1_0000_0000);
            }
            result.push(child_id);
            proof {
                assert(self.kids(p).take(k + 1) =~= self.kids(p).take(k).push(self.kids(p)[k]));
                assert(ids_of(self.kids(p).take(k + 1)) =~= ids_of(self.kids(p).take(k)).push(
                    child_id,
                ));
            }
            // Defense in depth: a valid sibling chain is at most nodes.len()
            // long; stop rather than loop forever on a corrupted one.
            if result.len() > self.nodes.len() {
                break;
            }
            current = match self.node_ref(child_id) {
                Some(n) => n.next_sibling,
                None => None,
            };
        }
        proof {
            if self.live(p) {
                assert(self.kids(p).take(self.kids(p).len() as int) =~= self.kids(p));
            }
        }
        result
    }

    /// Walking ordinary parents from `i` visits `[i] + light_anc(i)`.
    pub(crate) proof fn lemma_light_chain(&self, i: nat)
        requires
            self.wf_struct(),
            self.live(i),
        ensures
            forall|k: int|
                0 <= k <= self.light_anc(i).len() ==> self.live(
                    #[trigger] (seq![i] + self.light_anc(i))[k],
                ),
            forall|k: int|
                0 <= k < self.light_anc(i).len() ==> self.parent_of(
                    #[trigger] (seq![i] + self.light_anc(i))[k],
                ) == Some(self.light_anc(i)[k]),
            self.parent_of((seq![i] + self.light_anc(i))[self.light_anc(i).len() as int]) is None,
            self.light_anc(i).len() < self.slots(),
        decreases self.anc(i).len(),
    {
        self.lemma_light_anc_step(i);
        self.lemma_light_anc_prefix(i);
        self.lemma_depth_bound(i);
        let c = seq![i] + self.light_anc(i);
        match self.parent_of(i) {
            None => {},
            Some(p) => {
                self.lemma_at(i);
                self.lemma_light_chain(p);
                let cp = seq![p] + self.light_anc(p);
                assert(c =~= seq![i] + cp);
                assert forall|k: int| 0 <= k <= self.light_anc(i).len() implies self.live(
                    #[trigger] c[k],
                ) by {
                    if k > 0 {
                        assert(c[k] == cp[k - 1]);
                    }
                }
                assert forall|k: int| 0 <= k < self.light_anc(i).len() implies self.parent_of(
                    #[trigger] c[k],
                ) == Some(self.light_anc(i)[k]) by {
                    if k > 0 {
                        assert(c[k] == cp[k - 1]);
                        assert(self.light_anc(i)[k] == self.light_anc(p)[k - 1]);
                    }
                }
                assert(c[self.light_anc(i).len() as int] == cp[self.light_anc(p).len() as int]);
            },
        }
    }

    /// Walking host-including parents from `i` visits `[i] + anc(i)`.
    pub(crate) proof fn lemma_host_chain(&self, i: nat)
        requires
            self.wf_struct(),
            self.live(i),
        ensures
            forall|k: int|
                0 <= k <= self.anc(i).len() ==> self.live(#[trigger] (seq![i] + self.anc(i))[k]),
            forall|k: int|
                0 <= k < self.anc(i).len() ==> self.hparent(#[trigger] (seq![i] + self.anc(i))[k])
                    == Some(self.anc(i)[k]),
            self.hparent((seq![i] + self.anc(i))[self.anc(i).len() as int]) is None,
            self.anc(i).len() < self.slots(),
    {
        self.lemma_depth_bound(i);
        self.lemma_anc_distinct(i);
        let c = seq![i] + self.anc(i);
        let n = self.anc(i).len() as int;
        self.lemma_at(i);
        assert forall|k: int| 0 <= k <= n implies self.live(#[trigger] c[k]) by {
            if k > 0 {
                assert(c[k] == self.anc(i)[k - 1]);
            }
        }
        assert forall|k: int| 0 <= k < n implies self.hparent(#[trigger] c[k]) == Some(
            self.anc(i)[k],
        ) by {
            if k > 0 {
                let y = self.anc(i)[k - 1];
                assert(c[k] == y);
                self.lemma_anc_step(i, k - 1);
                self.lemma_at(y);
                assert(self.anc(y) == self.anc(i).skip(k));
                if self.hparent(y) is None {
                    assert(self.anc(y).len() == 0);
                } else {
                    assert(self.anc(y)[0] == self.hparent(y)->Some_0);
                }
            }
        }
        if n > 0 {
            let y = self.anc(i)[n - 1];
            assert(c[n] == y);
            self.lemma_anc_step(i, n - 1);
            self.lemma_at(y);
            assert(self.anc(y) =~= self.anc(i).skip(n));
        }
    }

    pub fn ancestors(&self, node_id: NodeId) -> (r: Vec<NodeId>)
        requires
            self.wf_struct(),
        ensures
            self.live(node_id.id()) ==> r@ == ids_of(self.light_anc(node_id.id())),
            !self.live(node_id.id()) ==> r@ == Seq::<NodeId>::empty(),
    {
        let ghost n = node_id.id();
        let ghost chain = if self.live(n) {
            seq![n] + self.light_anc(n)
        } else {
            Seq::<nat>::empty()
        };
        let ghost la = if self.live(n) {
            self.light_anc(n)
        } else {
            Seq::<nat>::empty()
        };
        proof {
            if self.live(n) {
                self.lemma_light_chain(n);
                self.lemma_light_anc_prefix(n);
            }
        }
        let mut result: Vec<NodeId> = Vec::new();
        let mut current: Option<NodeId> = match self.node_ref(node_id) {
            Some(x) => x.parent,
            None => None,
        };
        while current.is_some()
            invariant
                self.wf_struct(),
                la.len() < self.slots() || !self.live(n),
                result@.len() <= la.len(),
                result@ == ids_of(la.take(result@.len() as int)),
                opt_id(current) == if result@.len() < la.len() {
                    Some(la[result@.len() as int])
                } else {
                    None::<nat>
                },
                forall|k: int| 0 <= k < la.len() ==> self.live(#[trigger] la[k]),
                self.live(n) ==> la == self.light_anc(n) && chain == seq![n] + la,
                self.live(n) ==> forall|k: int|
                    0 <= k < la.len() ==> self.parent_of(#[trigger] chain[k]) == Some(la[k]),
                self.live(n) ==> self.parent_of(chain[la.len() as int]) is None,
                !self.live(n) ==> la.len() == 0,
            ensures
                current is None,
            decreases la.len() - result@.len(),
        {
            let pid = current.unwrap();
            let ghost k = result@.len() as int;
            proof {
                assert(la[k] < self.slots());
            }
            result.push(pid);
            proof {
                assert(la.take(k + 1) =~= la.take(k).push(la[k]));
                assert(ids_of(la.take(k + 1)) =~= ids_of(la.take(k)).push(pid));
            }
            // Defense in depth against a corrupted parent cycle.
            if result.len() > self.nodes.len() {
                break;
            }
            current = match self.node_ref(pid) {
                Some(x) => x.parent,
                None => None,
            };
            proof {
                assert(chain[k + 1] == la[k]);
            }
        }
        proof {
            assert(la.take(la.len() as int) =~= la);
        }
        result
    }

    /// Return the root of `node`'s local tree scope. This follows ordinary
    /// parent links only, so a shadow descendant resolves to its ShadowRoot and
    /// a light descendant resolves to its document or detached subtree root.
    pub fn tree_scope_root(&self, node: NodeId) -> (r: Option<NodeId>)
        requires
            self.wf_struct(),
        ensures
            self.live(node.id()) ==> opt_id(r) == Some(self.scope_root(node.id())),
            !self.live(node.id()) ==> r is None,
    {
        let ghost n = node.id();
        let ghost la = self.light_anc(n);
        let ghost chain = seq![n] + la;
        proof {
            if self.live(n) {
                self.lemma_light_chain(n);
            }
        }
        let mut current = node;
        let mut steps: usize = 0;
        while steps <= self.nodes.len()
            invariant
                self.wf_struct(),
                self.live(n) ==> steps <= la.len() && current.id() == chain[steps as int],
                !self.live(n) ==> current == node,
                n == node.id(),
                la == self.light_anc(n),
                chain == seq![n] + la,
            decreases self.slots() + 1 - steps,
        {
            proof {
                if self.live(n) {
                    self.lemma_light_chain(n);
                }
            }
            let current_node = match self.node_ref(current) {
                Some(x) => x,
                None => return None,
            };
            match current_node.parent {
                Some(parent) => {
                    proof {
                        assert(self.parent_of(current.id()) is Some);
                        assert(steps < la.len());
                        assert(chain[steps as int + 1] == la[steps as int]);
                        assert(self.parent_of(chain[steps as int]) == Some(la[steps as int]));
                    }
                    current = parent;
                },
                None => {
                    proof {
                        if steps < la.len() {
                            assert(self.parent_of(chain[steps as int]) == Some(la[steps as int]));
                        }
                        assert(steps == la.len());
                        if la.len() > 0 {
                            assert(chain[la.len() as int] == la.last());
                        }
                    }
                    return Some(current);
                },
            }
            steps = steps + 1;
        }
        proof {
            if self.live(n) {
                self.lemma_light_chain(n);
            }
        }
        None
    }

    pub fn containing_shadow_root(&self, node: NodeId) -> (r: Option<NodeId>)
        requires
            self.wf_struct(),
        ensures
            self.live(node.id()) ==> opt_id(r) == if self.is_shadow_root_node(
                self.scope_root(node.id()),
            ) {
                Some(self.scope_root(node.id()))
            } else {
                None::<nat>
            },
            !self.live(node.id()) ==> r is None,
    {
        let root = match self.tree_scope_root(node) {
            Some(root) => root,
            None => return None,
        };
        if self.is_shadow_root(root) {
            Some(root)
        } else {
            None
        }
    }

    /// Ordinary parent, or the host when `node` is a shadow root.
    fn host_including_parent(&self, node: NodeId) -> (r: Option<NodeId>)
        requires
            self.wf_struct(),
        ensures
            self.live(node.id()) ==> opt_id(r) == self.hparent(node.id()),
            !self.live(node.id()) ==> r is None,
    {
        let parent = match self.node_ref(node) {
            Some(x) => x.parent,
            None => None,
        };
        match parent {
            Some(p) => Some(p),
            None => {
                proof {
                    if !self.live(node.id()) && self.shadow_info(node.id()) is Some {
                        self.lemma_shadow_at(node.id());
                    }
                }
                match self.shadow_root_info(node) {
                    Some(info) => Some(info.host),
                    None => None,
                }
            },
        }
    }

    /// Return the topmost root after crossing ShadowRoot-to-host edges. This is
    /// the native counterpart of `getRootNode({ composed: true })`.
    pub fn shadow_including_root(&self, node: NodeId) -> (r: Option<NodeId>)
        requires
            self.wf_struct(),
        ensures
            self.live(node.id()) ==> opt_id(r) == Some(self.sroot(node.id())),
            !self.live(node.id()) ==> r is None,
    {
        let ghost n = node.id();
        let ghost an = self.anc(n);
        let ghost chain = seq![n] + an;
        proof {
            if self.live(n) {
                self.lemma_host_chain(n);
            }
        }
        let mut current = node;
        let mut steps: usize = 0;
        while steps <= self.nodes.len()
            invariant
                self.wf_struct(),
                self.live(n) ==> steps <= an.len() && current.id() == chain[steps as int],
                !self.live(n) ==> current == node,
                n == node.id(),
                an == self.anc(n),
                chain == seq![n] + an,
            decreases self.slots() + 1 - steps,
        {
            proof {
                if self.live(n) {
                    self.lemma_host_chain(n);
                }
            }
            if self.node_ref(current).is_none() {
                return None;
            }
            match self.host_including_parent(current) {
                Some(next) => {
                    proof {
                        assert(self.hparent(current.id()) is Some);
                        assert(steps < an.len());
                        assert(chain[steps as int + 1] == an[steps as int]);
                        assert(self.hparent(chain[steps as int]) == Some(an[steps as int]));
                    }
                    current = next;
                },
                None => {
                    proof {
                        if steps < an.len() {
                            assert(self.hparent(chain[steps as int]) == Some(an[steps as int]));
                        }
                        assert(steps == an.len());
                        if an.len() > 0 {
                            assert(chain[an.len() as int] == an.last());
                        }
                    }
                    return Some(current);
                },
            }
            steps = steps + 1;
        }
        proof {
            if self.live(n) {
                self.lemma_host_chain(n);
            }
        }
        None
    }

    /// Snapshot the direct children of `host`'s shadow root. Ordinary
    /// `children(host)` continues to return only light children.
    pub fn shadow_children(&self, host: NodeId) -> (r: Option<Vec<NodeId>>)
        requires
            self.wf_struct(),
        ensures
            self.hosted(host.id()) is None ==> r is None,
            self.hosted(host.id()) is Some ==> r is Some && r->Some_0@ == ids_of(
                self.kids(self.hosted(host.id())->Some_0),
            ),
    {
        let root = match self.shadow_root(host) {
            Some(root) => root,
            None => return None,
        };
        proof {
            self.lemma_host_at(host.id());
        }
        Some(self.children(root))
    }

    /// Whether inserting `child` under `parent` would make `child` a
    /// host-including inclusive ancestor of itself. A leaf that hosts no
    /// shadow root cannot be an ancestor of anything and is let through.
    pub(crate) fn would_create_host_including_cycle(&self, parent: NodeId, child: NodeId) -> (r:
        bool)
        requires
            self.wf_struct(),
            self.live(parent.id()),
            self.live(child.id()),
        ensures
            r == ((self.kids(child.id()).len() > 0 || self.hosted(child.id()) is Some) && (seq![
                parent.id(),
            ] + self.anc(parent.id())).contains(child.id())),
    {
        let ghost c = child.id();
        let ghost p = parent.id();
        let child_can_be_ancestor = match self.node_ref(child) {
            Some(x) => x.first_child.is_some(),
            None => false,
        } || self.shadow_root(child).is_some();
        proof {
            self.lemma_at(c);
        }
        if !child_can_be_ancestor {
            return false;
        }
        let ghost an = self.anc(p);
        let ghost chain = seq![p] + an;
        proof {
            self.lemma_host_chain(p);
        }
        let mut current: Option<NodeId> = Some(parent);
        let mut steps: usize = 0;
        while steps <= self.nodes.len()
            invariant
                self.wf_struct(),
                steps <= an.len() + 1,
                steps <= an.len() ==> current is Some && current->Some_0.id() == chain[steps as int],
                steps == an.len() + 1 ==> current is None,
                forall|k: int| 0 <= k < steps ==> chain[k] != c,
                an == self.anc(p),
                chain == seq![p] + an,
                self.live(p),
                p == parent.id(),
                c == child.id(),
                self.kids(c).len() > 0 || self.hosted(c) is Some,
            decreases self.slots() + 1 - steps,
        {
            proof {
                self.lemma_host_chain(p);
            }
            let node = match current {
                Some(node) => node,
                None => {
                    proof {
                        assert(!chain.contains(c));
                    }
                    return false;
                },
            };
            if node == child {
                proof {
                    assert(chain[steps as int] == c);
                }
                return true;
            }
            current = self.host_including_parent(node);
            proof {
                if (steps as int) < an.len() {
                    assert(chain[steps as int + 1] == an[steps as int]);
                    assert(self.hparent(chain[steps as int]) == Some(an[steps as int]));
                } else {
                    assert(self.hparent(chain[an.len() as int]) is None);
                }
            }
            steps = steps + 1;
        }
        proof {
            self.lemma_host_chain(p);
        }
        // A valid host-including chain cannot be longer than the arena. Refuse
        // mutation if pre-existing corruption ever violates that invariant.
        true
    }
}

} // verus!
