//! Document-order walks over the light tree.
use vstd::prelude::*;

use super::{DomTree, Node, NodeData, NodeId};
use super::model::ids_of;
use super::lemmas::lemma_distinct_below;
use crate::strutil::owned;

verus! {

/// Nodes of the light subtree of `i` in document order, `i` first, with `f`
/// levels of nesting left.
pub open spec fn pre_node(t: DomTree, i: nat, f: nat) -> Seq<nat>
    decreases f, 0nat, 0nat,
{
    if f == 0 || !t.live(i) {
        Seq::empty()
    } else {
        seq![i] + pre_list(t, t.kids(i), (f - 1) as nat)
    }
}

/// The light subtrees of a list of siblings, in document order.
pub open spec fn pre_list(t: DomTree, ks: Seq<nat>, f: nat) -> Seq<nat>
    decreases f, 1nat, ks.len(),
{
    if ks.len() == 0 {
        Seq::empty()
    } else {
        pre_node(t, ks[0], f) + pre_list(t, ks.drop_first(), f)
    }
}

/// Number of live slots in an arena.
pub open spec fn live_count(s: Seq<Option<Node>>) -> nat
    decreases s.len(),
{
    if s.len() == 0 {
        0
    } else {
        live_count(s.drop_last()) + if s.last() is Some {
            1nat
        } else {
            0nat
        }
    }
}

/// Nesting budget of node `i`: enough to reach every descendant.
pub open spec fn depth_budget(t: DomTree, i: nat) -> nat {
    (t.slots() - t.anc(i).len()) as nat
}

/// The light-tree descendants of `i` in document order, `i` excluded.
pub open spec fn descendants_of(t: DomTree, i: nat) -> Seq<nat> {
    if t.live(i) {
        pre_list(t, t.kids(i), (depth_budget(t, i) - 1) as nat)
    } else {
        Seq::empty()
    }
}

/// Text of the Text nodes of `i`'s light subtree, in document order.
pub open spec fn text_node(t: DomTree, i: nat, f: nat) -> Seq<char>
    decreases f, 0nat, 0nat,
{
    if f == 0 || !t.live(i) {
        Seq::empty()
    } else {
        match t.node(i).data {
            NodeData::Text { contents } => contents@,
            _ => text_list(t, t.kids(i), (f - 1) as nat),
        }
    }
}

pub open spec fn text_list(t: DomTree, ks: Seq<nat>, f: nat) -> Seq<char>
    decreases f, 1nat, ks.len(),
{
    if ks.len() == 0 {
        Seq::empty()
    } else {
        text_node(t, ks[0], f) + text_list(t, ks.drop_first(), f)
    }
}

/// Number of nodes the text walk visits below and including `i`.
pub open spec fn text_visits(t: DomTree, i: nat, f: nat) -> nat
    decreases f, 0nat, 0nat,
{
    if f == 0 || !t.live(i) {
        1
    } else {
        match t.node(i).data {
            NodeData::Text { .. } => 1,
            _ => 1 + text_visits_list(t, t.kids(i), (f - 1) as nat),
        }
    }
}

pub open spec fn text_visits_list(t: DomTree, ks: Seq<nat>, f: nat) -> nat
    decreases f, 1nat, ks.len(),
{
    if ks.len() == 0 {
        0
    } else {
        text_visits(t, ks[0], f) + text_visits_list(t, ks.drop_first(), f)
    }
}

/// `textContent`: the data of a Text, Comment or processing-instruction
/// node, otherwise the concatenated Text descendants.
pub open spec fn text_content_of(t: DomTree, i: nat) -> Seq<char> {
    if t.live(i) {
        match t.node(i).data {
            NodeData::Text { contents } => contents@,
            NodeData::Comment { contents } => contents@,
            NodeData::ProcessingInstruction { data, .. } => data@,
            _ => text_node(t, i, depth_budget(t, i)),
        }
    } else {
        Seq::empty()
    }
}

/// Nodes still to come from a stack of subtree roots whose top is its last
/// item.
pub open spec fn pending_nodes(t: DomTree, s: Seq<NodeId>) -> Seq<nat>
    decreases s.len(),
{
    if s.len() == 0 {
        Seq::empty()
    } else {
        pre_node(t, s.last().id(), depth_budget(t, s.last().id())) + pending_nodes(
            t,
            s.drop_last(),
        )
    }
}

pub open spec fn pending_chars(t: DomTree, s: Seq<NodeId>) -> Seq<char>
    decreases s.len(),
{
    if s.len() == 0 {
        Seq::empty()
    } else {
        text_node(t, s.last().id(), depth_budget(t, s.last().id())) + pending_chars(
            t,
            s.drop_last(),
        )
    }
}

pub open spec fn pending_text_visits(t: DomTree, s: Seq<NodeId>) -> nat
    decreases s.len(),
{
    if s.len() == 0 {
        0
    } else {
        text_visits(t, s.last().id(), depth_budget(t, s.last().id())) + pending_text_visits(
            t,
            s.drop_last(),
        )
    }
}

proof fn lemma_pending_push(t: DomTree, s: Seq<NodeId>, x: NodeId)
    ensures
        pending_nodes(t, s.push(x)) == pre_node(t, x.id(), depth_budget(t, x.id()))
            + pending_nodes(t, s),
        pending_chars(t, s.push(x)) == text_node(t, x.id(), depth_budget(t, x.id()))
            + pending_chars(t, s),
        pending_text_visits(t, s.push(x)) == text_visits(t, x.id(), depth_budget(t, x.id()))
            + pending_text_visits(t, s),
{
    assert(s.push(x).drop_last() =~= s);
}

/// `y` lies at or below `a` in the host-including tree.
pub open spec fn at_or_below(t: DomTree, a: nat, y: nat) -> bool {
    y == a || t.anc(y).contains(a)
}

/// Two inclusive ancestors of `y` with chains of the same length are the
/// same node.
proof fn lemma_same_depth(t: DomTree, y: nat, a: nat, b: nat)
    requires
        t.wf_struct(),
        t.live(y),
        at_or_below(t, a, y),
        at_or_below(t, b, y),
        t.anc(a).len() == t.anc(b).len(),
    ensures
        a == b,
{
    if a != y {
        let m = choose|m: int| 0 <= m < t.anc(y).len() && t.anc(y)[m] == a;
        t.lemma_anc_step(y, m);
    }
    if b != y {
        let m = choose|m: int| 0 <= m < t.anc(y).len() && t.anc(y)[m] == b;
        t.lemma_anc_step(y, m);
    }
    if a != y && b != y {
        let ma = choose|m: int| 0 <= m < t.anc(y).len() && t.anc(y)[m] == a;
        let mb = choose|m: int| 0 <= m < t.anc(y).len() && t.anc(y)[m] == b;
        assert(t.anc(y).skip(ma + 1).len() == t.anc(y).skip(mb + 1).len());
    }
}

/// The document-order walk lists each node of the light subtree once.
proof fn lemma_pre_node(t: DomTree, i: nat, f: nat)
    requires
        t.wf_struct(),
        t.live(i) ==> f == depth_budget(t, i),
    ensures
        pre_node(t, i, f).no_duplicates(),
        forall|k: int|
            0 <= k < pre_node(t, i, f).len() ==> t.live(#[trigger] pre_node(t, i, f)[k])
                && at_or_below(t, i, pre_node(t, i, f)[k]),
    decreases f, 0nat, 0nat,
{
    if f > 0 && t.live(i) {
        t.lemma_at(i);
        t.lemma_kids_bound(i);
        let ks = t.kids(i);
        let a = seq![i] + t.anc(i);
        assert forall|j: int| 0 <= j < ks.len() implies t.live(#[trigger] ks[j]) && t.anc(ks[j]) == a by {
            t.lemma_kid_at(i, j);
        }
        t.lemma_depth_bound(i);
        lemma_pre_list(t, ks, (f - 1) as nat, a);
        let rest = pre_list(t, ks, (f - 1) as nat);
        let s = pre_node(t, i, f);
        assert(s == seq![i] + rest);
        assert forall|k: int| 0 <= k < rest.len() implies at_or_below(t, i, #[trigger] rest[k]) && rest[k] != i by {
            let y = rest[k];
            let j = choose|j: int| 0 <= j < ks.len() && at_or_below(t, ks[j], y);
            if y == ks[j] {
                assert(t.anc(y)[0] == i);
            } else {
                let m = choose|m: int| 0 <= m < t.anc(y).len() && t.anc(y)[m] == ks[j];
                assert(t.live(y));
                t.lemma_anc_step(y, m);
                assert(t.anc(ks[j]) == a);
                assert(t.anc(y).skip(m + 1) == a);
                assert(a[0] == i);
                assert(t.anc(y).skip(m + 1)[0] == t.anc(y)[m + 1]);
                assert(t.anc(y)[m + 1] == i);
            }
            t.lemma_anc_distinct(y);
        }
        assert forall|k: int| 0 <= k < s.len() implies t.live(#[trigger] s[k]) && at_or_below(t, i, s[k]) by {
            if k > 0 {
                assert(s[k] == rest[k - 1]);
            }
        }
        assert forall|x: int, z: int| 0 <= x < s.len() && 0 <= z < s.len() && x != z implies s[x] != s[z] by {
            if x > 0 && z > 0 {
                assert(s[x] == rest[x - 1] && s[z] == rest[z - 1]);
            } else if x == 0 {
                assert(s[z] == rest[z - 1]);
            } else {
                assert(s[x] == rest[x - 1]);
            }
        }
    }
}

/// The walk over a list of distinct siblings lists each node of their
/// subtrees once.
proof fn lemma_pre_list(t: DomTree, ks: Seq<nat>, f: nat, a: Seq<nat>)
    requires
        t.wf_struct(),
        ks.no_duplicates(),
        forall|j: int| 0 <= j < ks.len() ==> t.live(#[trigger] ks[j]) && t.anc(ks[j]) == a,
        f == t.slots() - a.len(),
    ensures
        pre_list(t, ks, f).no_duplicates(),
        forall|k: int|
            0 <= k < pre_list(t, ks, f).len() ==> t.live(#[trigger] pre_list(t, ks, f)[k])
                && exists|j: int| 0 <= j < ks.len() && at_or_below(t, ks[j], pre_list(t, ks, f)[k]),
    decreases f, 1nat, ks.len(),
{
    if ks.len() > 0 {
        let k0 = ks[0];
        assert(t.live(k0) && t.anc(k0) == a);
        lemma_pre_node(t, k0, f);
        let tail = ks.drop_first();
        assert forall|j: int| 0 <= j < tail.len() implies t.live(#[trigger] tail[j]) && t.anc(tail[j]) == a by {
            assert(tail[j] == ks[j + 1]);
        }
        lemma_pre_list(t, tail, f, a);
        let p1 = pre_node(t, k0, f);
        let p2 = pre_list(t, tail, f);
        let s = pre_list(t, ks, f);
        assert(s == p1 + p2);
        assert forall|k: int| 0 <= k < s.len() implies t.live(#[trigger] s[k])
            && exists|j: int| 0 <= j < ks.len() && at_or_below(t, ks[j], s[k]) by {
            if k < p1.len() {
                assert(s[k] == p1[k]);
                assert(at_or_below(t, ks[0], s[k]));
            } else {
                assert(s[k] == p2[k - p1.len()]);
                let j = choose|j: int| 0 <= j < tail.len() && at_or_below(t, tail[j], p2[k - p1.len()]);
                assert(tail[j] == ks[j + 1]);
            }
        }
        assert forall|x: int, z: int| 0 <= x < s.len() && 0 <= z < s.len() && x != z implies s[x] != s[z] by {
            if x < p1.len() && z >= p1.len() {
                let y = s[x];
                assert(s[z] == p2[z - p1.len()]);
                if s[x] == s[z] {
                    let j = choose|j: int| 0 <= j < tail.len() && at_or_below(t, tail[j], p2[z - p1.len()]);
                    lemma_same_depth(t, y, k0, tail[j]);
                    assert(tail[j] == ks[j + 1]);
                }
            } else if z < p1.len() && x >= p1.len() {
                let y = s[z];
                assert(s[x] == p2[x - p1.len()]);
                if s[x] == s[z] {
                    let j = choose|j: int| 0 <= j < tail.len() && at_or_below(t, tail[j], p2[x - p1.len()]);
                    lemma_same_depth(t, y, k0, tail[j]);
                    assert(tail[j] == ks[j + 1]);
                }
            } else if x < p1.len() {
                assert(s[x] == p1[x] && s[z] == p1[z]);
            } else {
                assert(s[x] == p2[x - p1.len()] && s[z] == p2[z - p1.len()]);
            }
        }
    }
}

/// The text walk visits no more nodes than the document-order walk lists.
proof fn lemma_text_visits_node(t: DomTree, i: nat, f: nat)
    requires
        t.wf_struct(),
        t.live(i),
        f == depth_budget(t, i),
    ensures
        text_visits(t, i, f) <= pre_node(t, i, f).len(),
    decreases f, 0nat, 0nat,
{
    t.lemma_depth_bound(i);
    t.lemma_at(i);
    match t.node(i).data {
        NodeData::Text { .. } => {},
        _ => {
            t.lemma_kids_bound(i);
            let ks = t.kids(i);
            assert forall|j: int| 0 <= j < ks.len() implies t.live(#[trigger] ks[j]) && depth_budget(t, ks[j]) == (f - 1) as nat by {
                t.lemma_kid_at(i, j);
            }
            lemma_text_visits_list(t, ks, (f - 1) as nat);
        },
    }
}

proof fn lemma_text_visits_list(t: DomTree, ks: Seq<nat>, f: nat)
    requires
        t.wf_struct(),
        forall|j: int| 0 <= j < ks.len() ==> t.live(#[trigger] ks[j]) && depth_budget(t, ks[j]) == f,
    ensures
        text_visits_list(t, ks, f) <= pre_list(t, ks, f).len(),
    decreases f, 1nat, ks.len(),
{
    if ks.len() > 0 {
        assert(t.live(ks[0]) && depth_budget(t, ks[0]) == f);
        lemma_text_visits_node(t, ks[0], f);
        let tail = ks.drop_first();
        assert forall|j: int| 0 <= j < tail.len() implies t.live(#[trigger] tail[j]) && depth_budget(t, tail[j]) == f by {
            assert(tail[j] == ks[j + 1]);
        }
        lemma_text_visits_list(t, tail, f);
    }
}

/// The text walk of a well-formed tree never reaches its step cap.
pub(crate) proof fn lemma_text_visits_fit(t: DomTree, i: nat)
    requires
        t.wf_struct(),
    ensures
        text_visits(t, i, depth_budget(t, i)) <= t.slots(),
{
    t.lemma_at(t.doc());
    if t.live(i) {
        t.lemma_depth_bound(i);
        lemma_text_visits_node(t, i, depth_budget(t, i));
        lemma_pre_node(t, i, depth_budget(t, i));
        let s = pre_node(t, i, depth_budget(t, i));
        assert forall|k: int| 0 <= k < s.len() implies #[trigger] s[k] < t.slots() by {
            t.lemma_at(s[k]);
        }
        lemma_distinct_below(s, t.slots());
    }
}

/// A well-formed tree has no more descendants than slots.
pub(crate) proof fn lemma_descendants_fit(t: DomTree, i: nat)
    requires
        t.wf_struct(),
    ensures
        descendants_of(t, i).len() <= t.slots(),
        descendants_of(t, i).no_duplicates(),
        forall|k: int| 0 <= k < descendants_of(t, i).len() ==> t.live(#[trigger] descendants_of(t, i)[k]),
{
    if t.live(i) {
        t.lemma_depth_bound(i);
        lemma_pre_node(t, i, depth_budget(t, i));
        let s = pre_node(t, i, depth_budget(t, i));
        assert(s == seq![i] + descendants_of(t, i));
        assert forall|k: int| 0 <= k < s.len() implies #[trigger] s[k] < t.slots() by {
            t.lemma_at(s[k]);
        }
        lemma_distinct_below(s, t.slots());
        let d = descendants_of(t, i);
        assert forall|k: int| 0 <= k < d.len() implies t.live(#[trigger] d[k]) by {
            assert(d[k] == s[k + 1]);
        }
        assert forall|x: int, z: int| 0 <= x < d.len() && 0 <= z < d.len() && x != z implies d[x] != d[z] by {
            assert(d[x] == s[x + 1] && d[z] == s[z + 1]);
        }
    }
}

impl DomTree {
    /// Pushes the children `kids` of a node with budget `f + 1` onto the
    /// stack last-first, so that they pop in document order.
    fn push_kids(stack: &mut Vec<NodeId>, kids: &Vec<NodeId>, Ghost(t): Ghost<DomTree>, Ghost(f): Ghost<nat>)
        requires
            forall|j: int| 0 <= j < kids@.len() ==> depth_budget(t, #[trigger] kids@[j].id()) == f,
        ensures
            pending_nodes(t, final(stack)@) == pre_list(t, kids@.map_values(|x: NodeId| x.id()), f)
                + pending_nodes(t, old(stack)@),
            pending_chars(t, final(stack)@) == text_list(t, kids@.map_values(|x: NodeId| x.id()), f)
                + pending_chars(t, old(stack)@),
            pending_text_visits(t, final(stack)@) == text_visits_list(
                t,
                kids@.map_values(|x: NodeId| x.id()),
                f,
            ) + pending_text_visits(t, old(stack)@),
            final(stack)@ == old(stack)@ + kids@.reverse(),
    {
        let ghost ks = kids@.map_values(|x: NodeId| x.id());
        let ghost base = stack@;
        let mut k = kids.len();
        proof {
            assert(ks.skip(k as int) =~= Seq::<nat>::empty());
        }
        while k > 0
            invariant
                k <= kids@.len(),
                ks == kids@.map_values(|x: NodeId| x.id()),
                forall|j: int| 0 <= j < kids@.len() ==> depth_budget(t, #[trigger] kids@[j].id()) == f,
                pending_nodes(t, stack@) == pre_list(t, ks.skip(k as int), f) + pending_nodes(t, base),
                pending_chars(t, stack@) == text_list(t, ks.skip(k as int), f) + pending_chars(t, base),
                pending_text_visits(t, stack@) == text_visits_list(t, ks.skip(k as int), f)
                    + pending_text_visits(t, base),
                stack@ == base + kids@.skip(k as int).reverse(),
            decreases k,
        {
            k = k - 1;
            let ghost s0 = stack@;
            stack.push(kids[k]);
            proof {
                lemma_pending_push(t, s0, kids@[k as int]);
                assert(ks.skip(k as int).drop_first() =~= ks.skip(k + 1));
                assert(ks.skip(k as int)[0] == kids@[k as int].id());
                assert(pending_nodes(t, stack@) =~= pre_list(t, ks.skip(k as int), f) + pending_nodes(t, base));
                assert(pending_chars(t, stack@) =~= text_list(t, ks.skip(k as int), f) + pending_chars(t, base));
                assert(kids@.skip(k as int).reverse() =~= kids@.skip(k + 1).reverse().push(kids@[k as int]));
                assert(stack@ =~= base + kids@.skip(k as int).reverse());
            }
        }
        proof {
            assert(ks.skip(0) =~= ks);
            assert(kids@.skip(0) =~= kids@);
        }
    }

    /// The children of live `i`, with the facts the walks need about them.
    fn kids_of(&self, id: NodeId) -> (r: Vec<NodeId>)
        requires
            self.wf_struct(),
            self.live(id.id()),
        ensures
            r@.map_values(|x: NodeId| x.id()) == self.kids(id.id()),
            forall|j: int|
                0 <= j < r@.len() ==> depth_budget(*self, #[trigger] r@[j].id()) == (depth_budget(
                    *self,
                    id.id(),
                ) - 1) as nat,
            forall|j: int| 0 <= j < r@.len() ==> self.live(#[trigger] r@[j].id()),
            depth_budget(*self, id.id()) >= 1,
    {
        let r = self.children(id);
        proof {
            let i = id.id();
            self.lemma_kids_bound(i);
            self.lemma_depth_bound(i);
            assert(r@.map_values(|x: NodeId| x.id()) =~= self.kids(i)) by {
                assert forall|j: int| 0 <= j < r@.len() implies r@[j].id() == self.kids(i)[j] by {
                    self.lemma_at(self.kids(i)[j]);
                    assert(self.kids(i)[j] < 0x1_0000_0000);
                }
            }
            assert forall|j: int| 0 <= j < r@.len() implies depth_budget(*self, #[trigger] r@[j].id())
                == (depth_budget(*self, i) - 1) as nat && self.live(r@[j].id()) by {
                self.lemma_kid_at(i, j);
                assert(self.kids(i)[j] < 0x1_0000_0000);
            }
        }
        r
    }

    /// The light-tree descendants of `node_id` in document order. The walk
    /// stops once it has produced more nodes than the arena has slots, which
    /// a well-formed tree never reaches.
    pub fn descendants(&self, node_id: NodeId) -> (r: Vec<NodeId>)
        requires
            self.wf_struct(),
        ensures
            ids_of(descendants_of(*self, node_id.id())) == r@,
    {
        let ghost t = *self;
        let ghost full = descendants_of(t, node_id.id());
        let mut result: Vec<NodeId> = Vec::new();
        let mut stack: Vec<NodeId> = Vec::new();
        if self.node_ref(node_id).is_some() {
            let kids = self.kids_of(node_id);
            Self::push_kids(&mut stack, &kids, Ghost(t), Ghost((depth_budget(t, node_id.id()) - 1) as nat));
            proof {
                assert(pending_nodes(t, Seq::<NodeId>::empty()) == Seq::<nat>::empty());
                assert(pending_nodes(t, stack@) =~= full);
                assert forall|k: int| 0 <= k < stack@.len() implies t.live(#[trigger] stack@[k].id()) by {
                    assert(stack@[k] == kids@[kids@.len() - 1 - k]);
                }
            }
        } else {
            proof {
                assert(pending_nodes(t, stack@) =~= full);
            }
        }
        proof {
            assert(ids_of(full) =~= result@ + ids_of(pending_nodes(t, stack@)));
        }
        while stack.len() > 0
            invariant_except_break
                ids_of(full) == result@ + ids_of(pending_nodes(t, stack@)),
                forall|k: int| 0 <= k < stack@.len() ==> t.live(#[trigger] stack@[k].id()),
            invariant
                t == *self,
                t.wf_struct(),
                full == descendants_of(t, node_id.id()),
            ensures
                result@.len() <= full.len(),
                ids_of(full.take(result@.len() as int)) == result@,
                full.len() <= t.slots() ==> ids_of(full) == result@,
            decreases full.len() - result@.len(), stack@.len(),
        {
            let ghost s0 = stack@;
            let current = stack.pop().unwrap();
            let ghost c = current.id();
            let ghost rest = stack@;
            proof {
                assert(s0 == stack@.push(current));
                assert(t.live(s0[s0.len() - 1].id()));
                lemma_pending_push(t, stack@, current);
                t.lemma_at(c);
                t.lemma_depth_bound(c);
                assert(ids_of(pre_node(t, c, depth_budget(t, c))) =~= seq![current] + ids_of(
                    pre_list(t, t.kids(c), (depth_budget(t, c) - 1) as nat),
                ));
            }
            result.push(current);
            proof {
                assert(ids_of(full) =~= result@ + ids_of(pre_list(t, t.kids(c), (depth_budget(t, c) - 1) as nat))
                    + ids_of(pending_nodes(t, stack@)));
            }
            if result.len() > self.nodes.len() {
                proof {
                    assert(ids_of(full).len() == full.len());
                    assert(ids_of(full.take(result@.len() as int)) =~= ids_of(full).take(result@.len() as int));
                    assert(ids_of(full).take(result@.len() as int) =~= result@);
                }
                break;
            }
            let kids = self.kids_of(current);
            Self::push_kids(&mut stack, &kids, Ghost(t), Ghost((depth_budget(t, c) - 1) as nat));
            proof {
                assert(ids_of(full) =~= result@ + ids_of(pending_nodes(t, stack@)));
                assert forall|k: int| 0 <= k < stack@.len() implies t.live(#[trigger] stack@[k].id()) by {
                    if k < rest.len() {
                        assert(stack@[k] == s0[k]);
                    } else {
                        assert(stack@[k] == kids@[kids@.len() - 1 - (k - rest.len())]);
                    }
                }
            }
        }
        proof {
            assert(ids_of(full).len() == full.len());
            lemma_descendants_fit(t, node_id.id());
        }
        result
    }

    /// Appends the Text data of `node_id`'s light subtree to `buf`, in
    /// document order. The walk stops after `slots + 16` steps, which a
    /// well-formed tree never needs.
    fn collect_text_inner(&self, node_id: NodeId, buf: &mut String)
        requires
            self.wf_struct(),
        ensures
            exists|k: int|
                0 <= k <= text_node(*self, node_id.id(), depth_budget(*self, node_id.id())).len()
                    && final(buf)@ == old(buf)@ + text_node(
                    *self,
                    node_id.id(),
                    depth_budget(*self, node_id.id()),
                ).take(k),
            text_visits(*self, node_id.id(), depth_budget(*self, node_id.id())) <= self.slots()
                ==> final(buf)@ == old(buf)@ + text_node(
                *self,
                node_id.id(),
                depth_budget(*self, node_id.id()),
            ),
    {
        let ghost t = *self;
        let ghost full = text_node(t, node_id.id(), depth_budget(t, node_id.id()));
        let ghost total = text_visits(t, node_id.id(), depth_budget(t, node_id.id()));
        let ghost b0 = buf@;
        let max_steps = self.nodes.len().saturating_add(16);
        let mut steps: usize = 0;
        let mut stack: Vec<NodeId> = Vec::new();
        stack.push(node_id);
        proof {
            lemma_pending_push(t, Seq::empty(), node_id);
            assert(Seq::<NodeId>::empty().push(node_id) =~= stack@);
            assert(buf@ =~= b0 + Seq::<char>::empty());
            assert(full.take(full.len() as int) =~= full);
            assert(buf@.subrange(0, b0.len() as int) =~= b0);
        }
        while stack.len() > 0
            invariant_except_break
                buf@ + pending_chars(t, stack@) == b0 + full,
                steps + pending_text_visits(t, stack@) == total,
                steps <= max_steps,
                buf@.len() >= b0.len(),
                buf@.subrange(0, b0.len() as int) == b0,
            invariant
                t == *self,
                t.wf_struct(),
                max_steps == if t.slots() + 16 <= usize::MAX { (t.slots() + 16) as int } else { usize::MAX as int },
                full.take(full.len() as int) == full,
                pending_chars(t, Seq::<NodeId>::empty()) == Seq::<char>::empty(),
                t.slots() <= usize::MAX,
            ensures
                exists|k: int| 0 <= k <= full.len() && buf@ == b0 + full.take(k),
                total <= t.slots() ==> buf@ == b0 + full,
            decreases total - steps, stack@.len(),
        {
            let ghost s0 = stack@;
            let id = stack.pop().unwrap();
            let ghost i = id.id();
            proof {
                assert(s0 == stack@.push(id));
                lemma_pending_push(t, stack@, id);
            }
            if steps == max_steps {
                proof {
                    let k = (buf@.len() - b0.len()) as int;
                    assert(buf@ + pending_chars(t, s0) == b0 + full);
                    let x = b0 + full;
                    assert(buf@ + pending_chars(t, s0) == x);
                    assert(buf@.len() <= x.len());
                    assert(x.subrange(b0.len() as int, buf@.len() as int) =~= full.take(k));
                    assert(buf@.subrange(b0.len() as int, buf@.len() as int) =~= x.subrange(
                        b0.len() as int,
                        buf@.len() as int,
                    ));
                    assert(buf@ =~= buf@.subrange(0, b0.len() as int) + buf@.subrange(
                        b0.len() as int,
                        buf@.len() as int,
                    ));
                    assert(buf@ =~= b0 + full.take(k));
                    assert(text_visits(t, i, depth_budget(t, i)) >= 1);
                    assert(max_steps >= t.slots());
                }
                break;
            }
            steps = steps + 1;
            let node = match self.node_ref(id) {
                Some(n) => n,
                None => {
                    proof {
                        assert(buf@ + pending_chars(t, stack@) =~= b0 + full);
                    }
                    continue;
                },
            };
            proof {
                t.lemma_at(i);
                t.lemma_depth_bound(i);
            }
            let ghost bb = buf@;
            match &node.data {
                NodeData::Text { contents } => {
                    buf.append(contents.as_str());
                    proof {
                        assert(buf@ + pending_chars(t, stack@) =~= b0 + full);
                        assert(buf@.subrange(0, b0.len() as int) =~= bb.subrange(0, b0.len() as int));
                    }
                },
                _ => {
                    let kids = self.kids_of(id);
                    Self::push_kids(&mut stack, &kids, Ghost(t), Ghost((depth_budget(t, i) - 1) as nat));
                    proof {
                        assert(buf@ + pending_chars(t, stack@) =~= b0 + full);
                    }
                },
            }
        }
    }

    /// `textContent` of `node_id`: the data of a Text, Comment or
    /// processing-instruction node, otherwise its Text descendants
    /// concatenated in document order.
    pub fn text_content(&self, node_id: NodeId) -> (r: String)
        requires
            self.wf_struct(),
        ensures
            r@ == text_content_of(*self, node_id.id()),
    {
        match self.node_ref(node_id) {
            Some(n) => match &n.data {
                NodeData::Text { contents } => {
                    return contents.clone();
                },
                NodeData::Comment { contents } => {
                    return contents.clone();
                },
                NodeData::ProcessingInstruction { data, .. } => {
                    return data.clone();
                },
                _ => {},
            },
            None => {},
        }
        let mut result = String::new();
        self.collect_text_inner(node_id, &mut result);
        proof {
            let full = text_node(*self, node_id.id(), depth_budget(*self, node_id.id()));
            if self.live(node_id.id()) {
                assert(text_content_of(*self, node_id.id()) == full);
            } else {
                assert(full == Seq::<char>::empty());
            }
            let k = choose|k: int| 0 <= k <= full.len() && result@ == Seq::<char>::empty() + full.take(k);
            assert(result@ =~= full.take(k));
            lemma_text_visits_fit(*self, node_id.id());
            assert(result@ =~= full);
        }
        result
    }

    /// Number of live nodes, the document included.
    pub open(crate) spec fn node_count(&self) -> nat {
        live_count(self.nodes@)
    }

    /// Number of node slots, live and freed: an upper bound on the size of
    /// any subtree, for walkers that need one.
    pub(crate) fn node_slot_count(&self) -> (r: usize)
        ensures
            r == self.slots(),
    {
        self.nodes.len()
    }

    /// Number of live nodes, the document included.
    pub fn len(&self) -> (r: usize)
        ensures
            r == self.node_count(),
    {
        let mut count: usize = 0;
        let mut i: usize = 0;
        while i < self.nodes.len()
            invariant
                i <= self.nodes@.len(),
                count == live_count(self.nodes@.take(i as int)),
                count <= i,
            decreases self.nodes@.len() - i,
        {
            proof {
                assert(self.nodes@.take(i + 1).drop_last() =~= self.nodes@.take(i as int));
            }
            if self.nodes[i].is_some() {
                count = count + 1;
            }
            i = i + 1;
        }
        proof {
            assert(self.nodes@.take(i as int) =~= self.nodes@);
        }
        count
    }

    /// Whether the tree holds nothing but its document.
    pub fn is_empty(&self) -> (r: bool)
        ensures
            r == (self.node_count() <= 1),
    {
        self.len() <= 1
    }

    /// The descendants of `host`'s shadow tree, the shadow root itself
    /// excluded; `None` when `host` hosts no shadow root.
    pub fn shadow_descendants(&self, host: NodeId) -> (r: Option<Vec<NodeId>>)
        requires
            self.wf_struct(),
        ensures
            r is None <==> self.hosted(host.id()) is None,
            r is Some ==> r->Some_0@ == ids_of(descendants_of(*self, self.hosted(host.id())->Some_0)),
    {
        match self.shadow_root(host) {
            Some(root) => Some(self.descendants(root)),
            None => None,
        }
    }
}

} // verus!
