//! Stepping through a subtree in document order, as TreeWalker and
//! NodeIterator do.
use vstd::prelude::*;

use super::{DomTree, NodeId};
use super::model::{opt_id, last_of};
use super::walk::depth_budget;

verus! {

/// Climbing `chain` (a node, then its ancestors): the next sibling of the
/// first node that has one, stopping with nothing on reaching `root`.
pub open spec fn climb(t: DomTree, root: nat, chain: Seq<nat>) -> Option<nat>
    decreases chain.len(),
{
    if chain.len() == 0 {
        None
    } else if chain[0] == root {
        None
    } else {
        match opt_id(t.node(chain[0]).next_sibling) {
            Some(s) => Some(s),
            None => climb(t, root, chain.drop_first()),
        }
    }
}

/// The node after the subtree of `current`, in document order, without
/// leaving the subtree of `root`.
pub open spec fn after_subtree(t: DomTree, root: nat, current: nat) -> Option<nat> {
    if current == root || !t.live(current) {
        None
    } else {
        climb(t, root, seq![current] + t.light_anc(current))
    }
}

/// The node after `x` in document order within the subtree of `root`: its
/// first child, or else the node after its subtree.
pub open spec fn after_in_subtree(t: DomTree, root: nat, x: nat) -> Option<nat> {
    if !t.live(x) {
        None
    } else if t.kids(x).len() > 0 {
        Some(t.kids(x)[0])
    } else {
        after_subtree(t, root, x)
    }
}

/// The deepest last descendant of `x`, following last children for at
/// most `f` steps.
pub open spec fn last_desc(t: DomTree, x: nat, f: nat) -> nat
    decreases f,
{
    if f == 0 {
        x
    } else {
        match last_of(t.kids(x)) {
            Some(l) => last_desc(t, l, (f - 1) as nat),
            None => x,
        }
    }
}

/// The node before `current` in document order within the subtree of
/// `root`: its parent when it has no previous sibling, otherwise the
/// previous sibling's deepest last descendant.
pub open spec fn before_in_subtree(t: DomTree, root: nat, current: nat) -> Option<nat> {
    if current == root || !t.live(current) {
        None
    } else {
        match opt_id(t.node(current).prev_sibling) {
            None => t.parent_of(current),
            Some(p) => Some(last_desc(t, p, depth_budget(t, p))),
        }
    }
}

/// Where a successful climb stops: the first node of the chain with a next
/// sibling, every node before it having none.
proof fn lemma_climb_some(t: DomTree, root: nat, ch: Seq<nat>, s: nat) -> (k: int)
    requires
        climb(t, root, ch) == Some(s),
    ensures
        0 <= k < ch.len(),
        ch[k] != root,
        opt_id(t.node(ch[k]).next_sibling) == Some(s),
        forall|m: int| 0 <= m < k ==> #[trigger] ch[m] != root && opt_id(t.node(ch[m]).next_sibling) is None,
    decreases ch.len(),
{
    if opt_id(t.node(ch[0]).next_sibling) is Some {
        0
    } else {
        let k1 = lemma_climb_some(t, root, ch.drop_first(), s);
        assert forall|m: int| 0 <= m < k1 + 1 implies #[trigger] ch[m] != root && opt_id(
            t.node(ch[m]).next_sibling,
        ) is None by {
            if m > 0 {
                assert(ch[m] == ch.drop_first()[m - 1]);
            }
        }
        k1 + 1
    }
}

/// Following last children down a chain whose entries are each the last
/// child of the next one ends at the chain's first node, a leaf.
proof fn lemma_last_desc_chain(t: DomTree, ch: Seq<nat>, k: int, f: nat)
    requires
        0 <= k < ch.len(),
        k <= f,
        t.kids(ch[0]).len() == 0,
        forall|m: int| 0 <= m < k ==> last_of(t.kids(#[trigger] ch[m + 1])) == Some(ch[m]),
    ensures
        last_desc(t, ch[k], f) == ch[0],
    decreases k,
{
    if k > 0 {
        assert(last_of(t.kids(ch[k - 1 + 1])) == Some(ch[k - 1]));
        lemma_last_desc_chain(t, ch, k - 1, (f - 1) as nat);
    }
}

/// Depths along a parent chain drop by one per step.
proof fn lemma_chain_depth(t: DomTree, ch: Seq<nat>, k: int)
    requires
        0 <= k < ch.len(),
        forall|m: int| 0 <= m < k ==> t.anc(#[trigger] ch[m]).len() == t.anc(ch[m + 1]).len() + 1,
    ensures
        t.anc(ch[0]).len() == t.anc(ch[k]).len() + k,
    decreases k,
{
    if k > 0 {
        lemma_chain_depth(t, ch, k - 1);
        assert(t.anc(ch[k - 1]).len() == t.anc(ch[k - 1 + 1]).len() + 1);
    }
}

/// Stepping back undoes stepping forward: the node before the node after
/// `x` is `x`, unless the step forward reached `root` itself, which can
/// only happen from outside `root`'s subtree.
pub proof fn lemma_prev_undoes_next(t: DomTree, root: nat, x: nat)
    requires
        t.wf_struct(),
        after_in_subtree(t, root, x) is Some,
        after_in_subtree(t, root, x)->Some_0 != root,
    ensures
        before_in_subtree(t, root, after_in_subtree(t, root, x)->Some_0) == Some(x),
{
    let y = after_in_subtree(t, root, x)->Some_0;
    t.lemma_at(x);
    if t.kids(x).len() > 0 {
        t.lemma_kid_at(x, 0);
    } else {
        let la = t.light_anc(x);
        let ch = seq![x] + la;
        let k = lemma_climb_some(t, root, ch, y);
        t.lemma_light_chain(x);
        let a = ch[k];
        t.lemma_at(a);
        if k == la.len() {
            assert(t.parent_of(a) is None);
            assert(false);
        }
        let p = ch[k + 1];
        assert(p == la[k]);
        assert(t.parent_of(a) == Some(p));
        t.lemma_at(p);
        let ks = t.kids(p);
        assert(ks.contains(a));
        let j = ks.index_of(a);
        assert(t.kid_ok(p, j));
        assert(j + 1 < ks.len());
        t.lemma_kid_at(p, j + 1);
        assert(ks[j + 1] == y);
        assert(opt_id(t.node(y).prev_sibling) == Some(a));
        assert forall|m: int| 0 <= m < k implies last_of(t.kids(#[trigger] ch[m + 1])) == Some(ch[m])
            && t.anc(ch[m]).len() == t.anc(ch[m + 1]).len() + 1 by {
            let q = ch[m + 1];
            assert(q == la[m]);
            assert(t.parent_of(ch[m]) == Some(q));
            t.lemma_at(ch[m]);
            t.lemma_at(q);
            assert(t.kids(q).contains(ch[m]));
            let jm = t.kids(q).index_of(ch[m]);
            assert(t.kid_ok(q, jm));
            t.lemma_kid_at(q, jm);
            assert(jm == t.kids(q).len() - 1);
        }
        assert forall|m: int| 0 <= m < k implies t.anc(#[trigger] ch[m]).len() == t.anc(ch[m + 1]).len() + 1 by {
            assert(last_of(t.kids(ch[m + 1])) == Some(ch[m]));
        }
        lemma_chain_depth(t, ch, k);
        t.lemma_depth_bound(x);
        lemma_last_desc_chain(t, ch, k, depth_budget(t, a));
    }
}

/// Following last children down from `x` ends at a live leaf deeper than
/// `x`'s depth, and climbing from that leaf reaches what climbing from `x`
/// reaches, provided `root` lies above `x`.
proof fn lemma_last_desc_climb(t: DomTree, root: nat, x: nat, f: nat)
    requires
        t.wf_struct(),
        t.live(x),
        t.live(root),
        t.anc(root).len() < t.anc(x).len(),
        f == depth_budget(t, x),
    ensures
        t.live(last_desc(t, x, f)),
        t.kids(last_desc(t, x, f)).len() == 0,
        t.anc(root).len() < t.anc(last_desc(t, x, f)).len(),
        climb(t, root, seq![last_desc(t, x, f)] + t.light_anc(last_desc(t, x, f))) == climb(
            t,
            root,
            seq![x] + t.light_anc(x),
        ),
    decreases f,
{
    t.lemma_at(x);
    t.lemma_depth_bound(x);
    let ks = t.kids(x);
    if ks.len() > 0 {
        let l = ks.last();
        t.lemma_kid_at(x, ks.len() - 1);
        assert(l == ks[ks.len() - 1]);
        assert(t.anc(l) == seq![x] + t.anc(x));
        assert(depth_budget(t, l) == f - 1);
        assert(last_of(ks) == Some(l));
        assert(last_desc(t, x, f) == last_desc(t, l, (f - 1) as nat));
        lemma_last_desc_climb(t, root, l, (f - 1) as nat);
        t.lemma_light_anc_step(l);
        let cl = seq![l] + t.light_anc(l);
        assert(cl[0] == l);
        assert(l != root);
        assert(opt_id(t.node(l).next_sibling) is None);
        assert(cl.drop_first() =~= seq![x] + t.light_anc(x));
    }
}

/// Stepping forward undoes stepping back: within the subtree of `root`, the
/// node after the node before `d` is `d`. Together with
/// `lemma_prev_undoes_next`, a backward walk retraces the forward one.
pub proof fn lemma_next_undoes_prev(t: DomTree, root: nat, d: nat)
    requires
        t.wf_struct(),
        t.live(d),
        t.anc(d).contains(root),
        before_in_subtree(t, root, d) is Some,
    ensures
        after_in_subtree(t, root, before_in_subtree(t, root, d)->Some_0) == Some(d),
{
    t.lemma_at(d);
    let k = choose|k: int| 0 <= k < t.anc(d).len() && t.anc(d)[k] == root;
    t.lemma_anc_step(d, k);
    assert(t.anc(root).len() < t.anc(d).len());
    match opt_id(t.node(d).prev_sibling) {
        None => {
            let q = t.parent_of(d)->Some_0;
            t.lemma_at(q);
            let ks = t.kids(q);
            let j = ks.index_of(d);
            assert(t.kid_ok(q, j));
            assert(j == 0);
        },
        Some(p) => {
            let q = t.parent_of(d)->Some_0;
            t.lemma_at(q);
            let ks = t.kids(q);
            let j = ks.index_of(d);
            assert(t.kid_ok(q, j));
            assert(j > 0 && ks[j - 1] == p);
            t.lemma_kid_at(q, j - 1);
            t.lemma_kid_at(q, j);
            assert(t.anc(p) == t.anc(d));
            assert(opt_id(t.node(p).next_sibling) == Some(d));
            t.lemma_at(p);
            t.lemma_depth_bound(p);
            lemma_last_desc_climb(t, root, p, depth_budget(t, p));
            let c = last_desc(t, p, depth_budget(t, p));
            assert(c != root);
            let cp = seq![p] + t.light_anc(p);
            assert(cp[0] == p);
            assert(p != root);
            assert(climb(t, root, cp) == Some(d));
        },
    }
}

/// From `root` or a node below it, stepping forward never reaches `root`.
proof fn lemma_after_never_root(t: DomTree, root: nat, c: nat)
    requires
        t.wf_struct(),
        t.live(root),
        c == root || t.anc(c).contains(root),
    ensures
        after_in_subtree(t, root, c) != Some(root),
{
    t.lemma_anc_distinct(root);
    if !t.live(c) {
        return;
    }
    t.lemma_at(c);
    if t.kids(c).len() > 0 {
        t.lemma_kid_at(c, 0);
        let k0 = t.kids(c)[0];
        if k0 == root {
            assert(t.anc(root) == seq![c] + t.anc(c));
            if c == root {
                assert(t.anc(root)[0] == root);
            } else {
                let j = choose|j: int| 0 <= j < t.anc(c).len() && t.anc(c)[j] == root;
                assert(t.anc(root)[j + 1] == root);
            }
        }
    } else if c != root {
        let la = t.light_anc(c);
        let ch = seq![c] + la;
        if after_subtree(t, root, c) == Some(root) {
            let k = lemma_climb_some(t, root, ch, root);
            t.lemma_light_chain(c);
            t.lemma_light_anc_prefix(c);
            let a = ch[k];
            t.lemma_at(a);
            if k == la.len() {
                assert(t.parent_of(a) is None);
                assert(false);
            }
            let pp = ch[k + 1];
            assert(pp == la[k]);
            assert(t.parent_of(a) == Some(pp));
            t.lemma_at(pp);
            let ks = t.kids(pp);
            assert(ks.contains(a));
            let j = ks.index_of(a);
            assert(t.kid_ok(pp, j));
            t.lemma_kid_at(pp, j + 1);
            assert(ks[j + 1] == root);
            assert(t.anc(root) == seq![pp] + t.anc(pp));
            assert(pp == t.anc(c)[k]);
            let jr = choose|jr: int| 0 <= jr < t.anc(c).len() && t.anc(c)[jr] == root;
            if jr < k {
                assert(la[jr] == t.anc(c)[jr]);
                assert(ch[jr + 1] == root);
                assert(ch[jr + 1] != root);
            } else if jr == k {
                assert(t.anc(root)[0] == root);
            } else {
                t.lemma_anc_step(c, k);
                assert(t.anc(pp) == t.anc(c).skip(k + 1));
                assert(t.anc(pp)[jr - k - 1] == root);
                assert(t.anc(root)[jr - k] == root);
            }
        }
    }
}

/// Within the subtree of `root`, `c` is the node before `d` exactly when
/// `d` is the node after `c`, for `c` and `d` each `root` or below it: a
/// backward walk retraces the forward one.
pub proof fn lemma_prev_next_inverse(t: DomTree, root: nat, c: nat, d: nat)
    requires
        t.wf_struct(),
        t.live(root),
        t.live(d),
        c == root || t.anc(c).contains(root),
        d == root || t.anc(d).contains(root),
    ensures
        before_in_subtree(t, root, d) == Some(c) <==> after_in_subtree(t, root, c) == Some(d),
{
    if d == root {
        lemma_after_never_root(t, root, c);
    } else {
        t.lemma_anc_distinct(d);
        if before_in_subtree(t, root, d) == Some(c) {
            lemma_next_undoes_prev(t, root, d);
        }
        if after_in_subtree(t, root, c) == Some(d) {
            lemma_prev_undoes_next(t, root, c);
        }
    }
}

impl DomTree {
    fn climb_to_next_sibling(&self, root: NodeId, current: NodeId) -> (r: Option<NodeId>)
        requires
            self.wf_struct(),
        ensures
            opt_id(r) == after_subtree(*self, root.id(), current.id()),
    {
        let ghost c = current.id();
        let ghost la = self.light_anc(c);
        let ghost chain = seq![c] + la;
        if current.0 == root.0 {
            return None;
        }
        if self.node_ref(current).is_none() {
            return None;
        }
        proof {
            self.lemma_light_chain(c);
            assert(chain.skip(0) =~= chain);
        }
        let mut node_id = current;
        let mut steps: usize = 0;
        while steps <= self.nodes.len()
            invariant
                self.wf_struct(),
                self.live(c),
                c == current.id(),
                c != root.id(),
                la == self.light_anc(c),
                chain == seq![c] + la,
                steps <= la.len(),
                node_id.id() == chain[steps as int],
                climb(*self, root.id(), chain) == climb(*self, root.id(), chain.skip(steps as int)),
            decreases self.slots() + 1 - steps,
        {
            proof {
                self.lemma_light_chain(c);
                assert(chain.skip(steps as int)[0] == chain[steps as int]);
                assert(chain.skip(steps as int).drop_first() =~= chain.skip(steps + 1));
            }
            let ghost sk = chain.skip(steps as int);
            if node_id.0 == root.0 {
                proof {
                    assert(sk.len() > 0 && sk[0] == root.id());
                }
                return None;
            }
            let node = match self.node_ref(node_id) {
                Some(n) => n,
                None => {
                    return None;
                },
            };
            match node.next_sibling {
                Some(s) => {
                    proof {
                        assert(sk.len() > 0 && sk[0] == node_id.id() && sk[0] != root.id());
                        assert(opt_id(self.node(sk[0]).next_sibling) == Some(s.id()));
                        assert(climb(*self, root.id(), sk) == Some(s.id()));
                    }
                    return Some(s);
                },
                None => {},
            }
            match node.parent {
                Some(p) => {
                    proof {
                        assert(steps < la.len());
                        assert(chain[steps + 1] == la[steps as int]);
                    }
                    node_id = p;
                },
                None => {
                    proof {
                        assert(steps == la.len());
                        assert(sk.len() == 1 && sk[0] == node_id.id() && sk[0] != root.id());
                        assert(sk.drop_first().len() == 0);
                        assert(climb(*self, root.id(), sk.drop_first()) == None::<nat>);
                        assert(climb(*self, root.id(), sk) == None::<nat>);
                    }
                    return None;
                },
            }
            steps = steps + 1;
        }
        proof {
            self.lemma_light_chain(c);
        }
        None
    }

    /// The node after `current` in document order, without leaving the
    /// subtree of `root`.
    pub fn next_in_subtree(&self, root: NodeId, current: NodeId) -> (r: Option<NodeId>)
        requires
            self.wf_struct(),
        ensures
            opt_id(r) == after_in_subtree(*self, root.id(), current.id()),
    {
        match self.node_ref(current) {
            Some(n) => {
                proof {
                    self.lemma_at(current.id());
                }
                match n.first_child {
                    Some(child) => {
                        return Some(child);
                    },
                    None => {},
                }
            },
            None => {
                return None;
            },
        }
        self.climb_to_next_sibling(root, current)
    }

    /// The node after the whole subtree of `current`, in document order,
    /// without leaving the subtree of `root`.
    pub fn next_after_subtree(&self, root: NodeId, current: NodeId) -> (r: Option<NodeId>)
        requires
            self.wf_struct(),
        ensures
            opt_id(r) == after_subtree(*self, root.id(), current.id()),
    {
        self.climb_to_next_sibling(root, current)
    }

    /// The node before `current` in document order, without leaving the
    /// subtree of `root`; `root` itself has none.
    pub fn prev_in_subtree(&self, root: NodeId, current: NodeId) -> (r: Option<NodeId>)
        requires
            self.wf_struct(),
        ensures
            opt_id(r) == before_in_subtree(*self, root.id(), current.id()),
    {
        if current.0 == root.0 {
            return None;
        }
        let current_node = match self.node_ref(current) {
            Some(n) => n,
            None => {
                return None;
            },
        };
        let prev = match current_node.prev_sibling {
            Some(p) => p,
            None => {
                return current_node.parent;
            },
        };
        let ghost x0 = prev.id();
        proof {
            let c = current.id();
            self.lemma_at(c);
            match self.parent_of(c) {
                Some(q) => {
                    self.lemma_at(q);
                    let j = choose|j: int| 0 <= j < self.kids(q).len() && self.kids(q)[j] == c;
                    assert(self.kid_ok(q, j));
                    assert(self.kid_ok(q, j - 1));
                },
                None => {},
            }
            self.lemma_depth_bound(x0);
        }
        let mut node_id = prev;
        let mut steps: usize = 0;
        while steps <= self.nodes.len()
            invariant
                self.wf_struct(),
                self.live(node_id.id()),
                self.live(current.id()),
                current.id() != root.id(),
                opt_id(self.node(current.id()).prev_sibling) == Some(x0),
                steps + depth_budget(*self, node_id.id()) == depth_budget(*self, x0),
                last_desc(*self, x0, depth_budget(*self, x0)) == last_desc(
                    *self,
                    node_id.id(),
                    depth_budget(*self, node_id.id()),
                ),
                depth_budget(*self, x0) <= self.slots(),
            decreases self.slots() + 1 - steps,
        {
            let ghost x = node_id.id();
            proof {
                self.lemma_at(x);
                self.lemma_depth_bound(x);
            }
            let node = match self.node_ref(node_id) {
                Some(n) => n,
                None => {
                    return None;
                },
            };
            match node.last_child {
                Some(child) => {
                    proof {
                        let k = self.kids(x);
                        self.lemma_kid_at(x, k.len() - 1);
                        assert(child.id() == k.last());
                    }
                    node_id = child;
                },
                None => {
                    proof {
                        assert(self.kids(x).len() == 0);
                        assert(last_desc(*self, x, depth_budget(*self, x)) == x);
                    }
                    return Some(node_id);
                },
            }
            steps = steps + 1;
        }
        proof {
            self.lemma_depth_bound(node_id.id());
        }
        None
    }
}

} // verus!
