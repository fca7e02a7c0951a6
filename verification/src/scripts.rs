//! Which script elements have already started, so that each runs at most
//! once, and how that state follows DOM insertion and cloning.
use std::collections::HashSet;
use vstd::prelude::*;

use crate::node_order::{is_script, node_is_script};
use crate::tree::{DomTree, NodeData, NodeId};
use crate::tree::model::ids_of;

verus! {

broadcast use vstd::std_specs::hash::group_hash_axioms;

/// Children of `i`, none for a free slot.
pub open spec fn kid_list(t: DomTree, i: nat) -> Seq<nat> {
    if t.live(i) {
        t.kids(i)
    } else {
        Seq::empty()
    }
}

/// The template contents of live element `i`.
pub open spec fn contents_of(t: DomTree, i: nat) -> Option<nat> {
    if t.live(i) {
        match t.node(i).data {
            NodeData::Element { template_contents: Some(c), .. } => Some(c.id()),
            _ => None,
        }
    } else {
        None
    }
}

/// The children of `s` and of `c` matched by position, as far as the
/// shorter list goes.
pub open spec fn zip_kids(t: DomTree, s: nat, c: nat) -> Seq<(nat, nat)> {
    let a = kid_list(t, s);
    let b = kid_list(t, c);
    let m = if a.len() <= b.len() {
        a.len()
    } else {
        b.len()
    };
    Seq::new(m, |j: int| (a[j], b[j]))
}

/// The pairs met walking two trees side by side from `(s, c)` in document
/// order: the pair itself, then the pairs below their children matched by
/// position, then the pair below their template contents when both have
/// them; at most `f` levels deep.
pub open spec fn pair_walk(t: DomTree, s: nat, c: nat, f: nat) -> Seq<(nat, nat)>
    decreases f, 0nat, 0nat,
{
    if f == 0 {
        Seq::empty()
    } else {
        seq![(s, c)] + pair_list(t, zip_kids(t, s, c), (f - 1) as nat) + match (
            contents_of(t, s),
            contents_of(t, c),
        ) {
            (Some(a), Some(b)) => pair_walk(t, a, b, (f - 1) as nat),
            _ => Seq::empty(),
        }
    }
}

pub open spec fn pair_list(t: DomTree, ps: Seq<(nat, nat)>, f: nat) -> Seq<(nat, nat)>
    decreases f, 1nat, ps.len(),
{
    if ps.len() == 0 {
        Seq::empty()
    } else {
        pair_walk(t, ps[0].0, ps[0].1, f) + pair_list(t, ps.drop_first(), f)
    }
}

/// How many stack entries the walk from `(s, c)` pops.
pub open spec fn pair_visits(t: DomTree, s: nat, c: nat, f: nat) -> nat
    decreases f, 0nat, 0nat,
{
    if f == 0 {
        1
    } else {
        1 + pair_list_visits(t, zip_kids(t, s, c), (f - 1) as nat) + match (
            contents_of(t, s),
            contents_of(t, c),
        ) {
            (Some(a), Some(b)) => pair_visits(t, a, b, (f - 1) as nat),
            _ => 0,
        }
    }
}

pub open spec fn pair_list_visits(t: DomTree, ps: Seq<(nat, nat)>, f: nat) -> nat
    decreases f, 1nat, ps.len(),
{
    if ps.len() == 0 {
        0
    } else {
        pair_visits(t, ps[0].0, ps[0].1, f) + pair_list_visits(t, ps.drop_first(), f)
    }
}

/// Walks nest at most this deep: one level per arena slot, more than any
/// subtree of a tree whose template contents do not loop back.
pub open spec fn walk_depth(t: DomTree) -> nat {
    t.slots() + 1
}

/// Pairs still to come from a stack whose top is its last entry.
pub open spec fn pending(t: DomTree, st: Seq<(NodeId, NodeId, u64)>) -> Seq<(nat, nat)>
    decreases st.len(),
{
    if st.len() == 0 {
        Seq::empty()
    } else {
        let e = st.last();
        pair_walk(t, e.0.id(), e.1.id(), e.2 as nat) + pending(t, st.drop_last())
    }
}

pub open spec fn pending_visits(t: DomTree, st: Seq<(NodeId, NodeId, u64)>) -> nat
    decreases st.len(),
{
    if st.len() == 0 {
        0
    } else {
        let e = st.last();
        pair_visits(t, e.0.id(), e.1.id(), e.2 as nat) + pending_visits(t, st.drop_last())
    }
}

pub open spec fn pair_ids(s: Seq<(nat, nat)>) -> Seq<(NodeId, NodeId)> {
    s.map_values(|p: (nat, nat)| (NodeId(p.0 as u32), NodeId(p.1 as u32)))
}

proof fn lemma_pending_push(t: DomTree, st: Seq<(NodeId, NodeId, u64)>, e: (NodeId, NodeId, u64))
    ensures
        pending(t, st.push(e)) == pair_walk(t, e.0.id(), e.1.id(), e.2 as nat) + pending(t, st),
        pending_visits(t, st.push(e)) == pair_visits(t, e.0.id(), e.1.id(), e.2 as nat)
            + pending_visits(t, st),
{
    assert(st.push(e).drop_last() =~= st);
}

/// Pushes the pairs of `ks` and `kc` matched by position, last first, with
/// depth `f`.
fn push_zip(
    stack: &mut Vec<(NodeId, NodeId, u64)>,
    ks: &Vec<NodeId>,
    kc: &Vec<NodeId>,
    f: u64,
    Ghost(t): Ghost<DomTree>,
    Ghost(zs): Ghost<Seq<(nat, nat)>>,
)
    requires
        zs.len() <= ks@.len(),
        zs.len() <= kc@.len(),
        zs.len() == if ks@.len() <= kc@.len() {
            ks@.len()
        } else {
            kc@.len()
        },
        forall|j: int| 0 <= j < zs.len() ==> (#[trigger] zs[j]).0 == ks@[j].id() && zs[j].1 == kc@[j].id(),
    ensures
        pending(t, final(stack)@) == pair_list(t, zs, f as nat) + pending(t, old(stack)@),
        pending_visits(t, final(stack)@) == pair_list_visits(t, zs, f as nat) + pending_visits(
            t,
            old(stack)@,
        ),
{
    let ghost base = stack@;
    let m = if ks.len() <= kc.len() {
        ks.len()
    } else {
        kc.len()
    };
    let mut k = m;
    proof {
        assert(zs.skip(m as int) =~= Seq::<(nat, nat)>::empty());
    }
    while k > 0
        invariant
            k <= m,
            m == zs.len(),
            m <= ks@.len(),
            m <= kc@.len(),
            forall|j: int| 0 <= j < zs.len() ==> (#[trigger] zs[j]).0 == ks@[j].id() && zs[j].1 == kc@[j].id(),
            pending(t, stack@) == pair_list(t, zs.skip(k as int), f as nat) + pending(t, base),
            pending_visits(t, stack@) == pair_list_visits(t, zs.skip(k as int), f as nat)
                + pending_visits(t, base),
        decreases k,
    {
        k = k - 1;
        let ghost s0 = stack@;
        let e = (ks[k], kc[k], f);
        stack.push(e);
        proof {
            lemma_pending_push(t, s0, e);
            assert(zs.skip(k as int).drop_first() =~= zs.skip(k + 1));
            assert(zs.skip(k as int)[0] == zs[k as int]);
            assert(pending(t, stack@) =~= pair_list(t, zs.skip(k as int), f as nat) + pending(
                t,
                base,
            ));
        }
    }
    proof {
        assert(zs.skip(0) =~= zs);
    }
}

/// The template contents of `n`, when it is a live element that has them.
fn contents_at(dom: &DomTree, n: NodeId) -> (r: Option<NodeId>)
    requires
        dom.wf_struct(),
    ensures
        match r {
            Some(c) => contents_of(*dom, n.id()) == Some(c.id()),
            None => contents_of(*dom, n.id()) is None,
        },
{
    match dom.node_ref(n) {
        Some(nd) => match &nd.data {
            NodeData::Element { template_contents, .. } => *template_contents,
            _ => None,
        },
        None => None,
    }
}

/// The pairs met walking the trees under `s` and `c` side by side.
fn walk_pairs(dom: &DomTree, s: NodeId, c: NodeId) -> (r: Vec<(NodeId, NodeId)>)
    requires
        dom.wf_struct(),
    ensures
        r@ == pair_ids(pair_walk(*dom, s.id(), c.id(), walk_depth(*dom))),
{
    let ghost t = *dom;
    proof {
        reveal(DomTree::wf_arena);
    }
    let depth = dom.node_slot_count() as u64 + 1;
    let ghost full = pair_walk(t, s.id(), c.id(), walk_depth(t));
    let mut result: Vec<(NodeId, NodeId)> = Vec::new();
    let mut stack: Vec<(NodeId, NodeId, u64)> = Vec::new();
    proof {
        reveal(DomTree::wf_arena);
    }
    stack.push((s, c, depth));
    proof {
        lemma_pending_push(t, Seq::empty(), (s, c, depth));
        assert(pending(t, Seq::<(NodeId, NodeId, u64)>::empty()) == Seq::<(nat, nat)>::empty());
        assert(pending(t, stack@) =~= full);
        assert(pair_ids(full) =~= result@ + pair_ids(pending(t, stack@)));
    }
    while stack.len() > 0
        invariant
            t == *dom,
            t.wf_struct(),
            full == pair_walk(t, s.id(), c.id(), walk_depth(t)),
            pair_ids(full) == result@ + pair_ids(pending(t, stack@)),
            forall|k: int| 0 <= k < stack@.len() ==> (#[trigger] stack@[k]).0.id() < 0x1_0000_0000
                && stack@[k].1.id() < 0x1_0000_0000,
        decreases pending_visits(t, stack@),
    {
        let ghost s0 = stack@;
        let (a, b, f) = stack.pop().unwrap();
        let ghost rest = stack@;
        proof {
            assert(s0 == rest.push((a, b, f)));
            lemma_pending_push(t, rest, (a, b, f));
        }
        if f == 0 {
            proof {
                assert(pair_walk(t, a.id(), b.id(), 0) == Seq::<(nat, nat)>::empty());
                assert(pair_ids(pending(t, s0)) =~= pair_ids(pending(t, rest)));
            }
        } else {
            let g = f - 1;
            result.push((a, b));
            let ca = contents_at(dom, a);
            let cb = contents_at(dom, b);
            let ghost s1 = stack@;
            match (ca, cb) {
                (Some(x), Some(y)) => {
                    stack.push((x, y, g));
                    proof {
                        lemma_pending_push(t, s1, (x, y, g));
                    }
                },
                _ => {},
            }
            let ghost s2 = stack@;
            let ks = dom.children(a);
            let kc = dom.children(b);
            let ghost zs = zip_kids(t, a.id(), b.id());
            proof {
                assert forall|j: int| 0 <= j < zs.len() implies (#[trigger] zs[j]).0 == ks@[j].id()
                    && zs[j].1 == kc@[j].id() by {
                    t.lemma_kids_bound(a.id());
                    t.lemma_kids_bound(b.id());
                    t.lemma_at(kid_list(t, a.id())[j]);
                    t.lemma_at(kid_list(t, b.id())[j]);
                }
            }
            push_zip(&mut stack, &ks, &kc, g, Ghost(t), Ghost(zs));
            proof {
                let tail = match (contents_of(t, a.id()), contents_of(t, b.id())) {
                    (Some(x), Some(y)) => pair_walk(t, x, y, g as nat),
                    _ => Seq::<(nat, nat)>::empty(),
                };
                assert(pair_walk(t, a.id(), b.id(), f as nat) == seq![(a.id(), b.id())] + pair_list(
                    t,
                    zs,
                    g as nat,
                ) + tail);
                assert(pending(t, s2) == tail + pending(t, rest));
                assert(pair_ids(seq![(a.id(), b.id())]) =~= seq![(a, b)]);
                assert(pair_ids(full) =~= result@ + pair_ids(pending(t, stack@)));
                assert forall|k: int| 0 <= k < stack@.len() implies (#[trigger] stack@[k]).0.id()
                    < 0x1_0000_0000 && stack@[k].1.id() < 0x1_0000_0000 by {}
            }
        }
    }
    proof {
        assert(pair_ids(pending(t, stack@)) =~= Seq::<(NodeId, NodeId)>::empty());
        assert(result@ =~= pair_ids(full));
    }
    result
}

/// Every node a walk meets fits the 32-bit ids nodes are handed out as.
proof fn lemma_walk_fits(t: DomTree, s: nat, c: nat, f: nat)
    requires
        t.wf_struct(),
        s < 0x1_0000_0000,
        c < 0x1_0000_0000,
    ensures
        forall|k: int|
            0 <= k < pair_walk(t, s, c, f).len() ==> (#[trigger] pair_walk(t, s, c, f)[k]).0
                < 0x1_0000_0000 && pair_walk(t, s, c, f)[k].1 < 0x1_0000_0000,
    decreases f, 0nat, 0nat,
{
    if f > 0 {
        let zs = zip_kids(t, s, c);
        assert forall|j: int| 0 <= j < zs.len() implies (#[trigger] zs[j]).0 < 0x1_0000_0000
            && zs[j].1 < 0x1_0000_0000 by {
            t.lemma_kids_bound(s);
            t.lemma_kids_bound(c);
            t.lemma_at(kid_list(t, s)[j]);
            t.lemma_at(kid_list(t, c)[j]);
        }
        lemma_list_fits(t, zs, (f - 1) as nat);
        let head = seq![(s, c)];
        let mid = pair_list(t, zs, (f - 1) as nat);
        match (contents_of(t, s), contents_of(t, c)) {
            (Some(a), Some(b)) => {
                lemma_walk_fits(t, a, b, (f - 1) as nat);
                let tail = pair_walk(t, a, b, (f - 1) as nat);
                let w = pair_walk(t, s, c, f);
                assert(w == head + mid + tail);
                assert forall|k: int| 0 <= k < w.len() implies (#[trigger] w[k]).0 < 0x1_0000_0000
                    && w[k].1 < 0x1_0000_0000 by {
                    if k >= 1 + mid.len() {
                        assert(w[k] == tail[k - 1 - mid.len()]);
                    } else if k >= 1 {
                        assert(w[k] == mid[k - 1]);
                    }
                }
            },
            _ => {
                let w = pair_walk(t, s, c, f);
                assert(w == head + mid + Seq::<(nat, nat)>::empty());
                assert forall|k: int| 0 <= k < w.len() implies (#[trigger] w[k]).0 < 0x1_0000_0000
                    && w[k].1 < 0x1_0000_0000 by {
                    if k >= 1 {
                        assert(w[k] == mid[k - 1]);
                    }
                }
            },
        }
    }
}

proof fn lemma_list_fits(t: DomTree, ps: Seq<(nat, nat)>, f: nat)
    requires
        t.wf_struct(),
        forall|j: int| 0 <= j < ps.len() ==> (#[trigger] ps[j]).0 < 0x1_0000_0000 && ps[j].1
            < 0x1_0000_0000,
    ensures
        forall|k: int|
            0 <= k < pair_list(t, ps, f).len() ==> (#[trigger] pair_list(t, ps, f)[k]).0
                < 0x1_0000_0000 && pair_list(t, ps, f)[k].1 < 0x1_0000_0000,
    decreases f, 1nat, ps.len(),
{
    if ps.len() > 0 {
        assert(ps[0].0 < 0x1_0000_0000 && ps[0].1 < 0x1_0000_0000);
        lemma_walk_fits(t, ps[0].0, ps[0].1, f);
        let rest = ps.drop_first();
        assert forall|j: int| 0 <= j < rest.len() implies (#[trigger] rest[j]).0 < 0x1_0000_0000
            && rest[j].1 < 0x1_0000_0000 by {
            assert(rest[j] == ps[j + 1]);
        }
        lemma_list_fits(t, rest, f);
        let a = pair_walk(t, ps[0].0, ps[0].1, f);
        let b = pair_list(t, rest, f);
        let w = pair_list(t, ps, f);
        assert(w == a + b);
        assert forall|k: int| 0 <= k < w.len() implies (#[trigger] w[k]).0 < 0x1_0000_0000
            && w[k].1 < 0x1_0000_0000 by {
            if k >= a.len() {
                assert(w[k] == b[k - a.len()]);
            } else {
                assert(w[k] == a[k]);
            }
        }
    }
}

/// The first nodes of the pairs of `ps` that are script elements, in order.
pub open spec fn scripts_among(t: DomTree, ps: Seq<(nat, nat)>) -> Seq<nat>
    decreases ps.len(),
{
    if ps.len() == 0 {
        Seq::empty()
    } else {
        let r = scripts_among(t, ps.drop_last());
        if is_script(t, ps.last().0) {
            r.push(ps.last().0)
        } else {
            r
        }
    }
}

proof fn lemma_among_fits(t: DomTree, ps: Seq<(nat, nat)>)
    requires
        forall|j: int| 0 <= j < ps.len() ==> (#[trigger] ps[j]).0 < 0x1_0000_0000,
    ensures
        forall|k: int| 0 <= k < scripts_among(t, ps).len() ==> #[trigger] scripts_among(t, ps)[k]
            < 0x1_0000_0000,
    decreases ps.len(),
{
    if ps.len() > 0 {
        let d = ps.drop_last();
        assert forall|j: int| 0 <= j < d.len() implies (#[trigger] d[j]).0 < 0x1_0000_0000 by {
            assert(d[j] == ps[j]);
        }
        lemma_among_fits(t, d);
        assert(ps.last() == ps[ps.len() - 1]);
        let r = scripts_among(t, d);
        assert forall|k: int| 0 <= k < scripts_among(t, ps).len() implies #[trigger] scripts_among(
            t,
            ps,
        )[k] < 0x1_0000_0000 by {
            if k < r.len() {
                assert(scripts_among(t, ps)[k] == r[k]);
            }
        }
    }
}

proof fn lemma_copies_fit(ps: Seq<(nat, nat)>, started: Set<nat>)
    requires
        forall|j: int| 0 <= j < ps.len() ==> (#[trigger] ps[j]).1 < 0x1_0000_0000,
    ensures
        forall|k: int|
            0 <= k < copies_of_started(ps, started).len() ==> #[trigger] copies_of_started(
                ps,
                started,
            )[k] < 0x1_0000_0000,
    decreases ps.len(),
{
    if ps.len() > 0 {
        let d = ps.drop_last();
        assert forall|j: int| 0 <= j < d.len() implies (#[trigger] d[j]).1 < 0x1_0000_0000 by {
            assert(d[j] == ps[j]);
        }
        lemma_copies_fit(d, started);
        assert(ps.last() == ps[ps.len() - 1]);
        let r = copies_of_started(d, started);
        assert forall|k: int| 0 <= k < copies_of_started(ps, started).len() implies #[trigger] copies_of_started(
            ps,
            started,
        )[k] < 0x1_0000_0000 by {
            if k < r.len() {
                assert(copies_of_started(ps, started)[k] == r[k]);
            }
        }
    }
}

/// The script elements under `root`, `root` included, in document order,
/// with each template's contents after the template's children.
pub open spec fn scripts_in(t: DomTree, root: nat) -> Seq<nat> {
    scripts_among(t, pair_walk(t, root, root, walk_depth(t)))
}

/// The second nodes of the pairs of `ps` whose first node is in `started`.
pub open spec fn copies_of_started(ps: Seq<(nat, nat)>, started: Set<nat>) -> Seq<nat>
    decreases ps.len(),
{
    if ps.len() == 0 {
        Seq::empty()
    } else {
        let r = copies_of_started(ps.drop_last(), started);
        if started.contains(ps.last().0) {
            r.push(ps.last().1)
        } else {
            r
        }
    }
}

/// The script elements under `root`, `root` included, in document order;
/// a template's contents are searched too, after its children.
pub fn script_nodes_including_template_contents(dom: &DomTree, root: NodeId) -> (r: Vec<NodeId>)
    requires
        dom.wf_struct(),
    ensures
        r@ == ids_of(scripts_in(*dom, root.id())),
{
    let pairs = walk_pairs(dom, root, root);
    let ghost ps = pair_walk(*dom, root.id(), root.id(), walk_depth(*dom));
    let mut out: Vec<NodeId> = Vec::new();
    let mut i: usize = 0;
    proof {
        lemma_walk_fits(*dom, root.id(), root.id(), walk_depth(*dom));
        assert(ps.take(0) =~= Seq::<(nat, nat)>::empty());
        assert(ids_of(scripts_among(*dom, ps.take(0))) =~= Seq::<NodeId>::empty());
    }
    while i < pairs.len()
        invariant
            dom.wf_struct(),
            pairs@ == pair_ids(ps),
            i <= pairs@.len(),
            out@ == ids_of(scripts_among(*dom, ps.take(i as int))),
            forall|k: int| 0 <= k < ps.len() ==> (#[trigger] ps[k]).0 < 0x1_0000_0000 && ps[k].1
                < 0x1_0000_0000,
        decreases pairs@.len() - i,
    {
        let (a, _b) = pairs[i];
        proof {
            assert(ps.take(i + 1).drop_last() =~= ps.take(i as int));
            assert(ps.take(i + 1).last() == ps[i as int]);
            assert(a.id() == ps[i as int].0);
        }
        if node_is_script(dom, a) {
            out.push(a);
            proof {
                assert(out@ =~= ids_of(scripts_among(*dom, ps.take(i + 1))));
            }
        }
        i = i + 1;
    }
    proof {
        assert(ps.take(i as int) =~= ps);
    }
    out
}

/// Whether script `n` may start now: it is a script element that has not
/// started yet.
pub open spec fn may_start(t: DomTree, started: Set<nat>, n: nat) -> bool {
    is_script(t, n) && !started.contains(n)
}

/// The started set after script element `n` is claimed; anything that is
/// not a script element leaves it alone.
pub open spec fn after_claim(t: DomTree, started: Set<nat>, n: nat) -> Set<nat> {
    if is_script(t, n) {
        started.insert(n)
    } else {
        started
    }
}

/// A script starts at most once: once it has been claimed, claiming it
/// again is refused.
pub proof fn lemma_script_starts_once(t: DomTree, started: Set<nat>, n: nat)
    ensures
        !may_start(t, after_claim(t, started, n), n),
{
}

/// Script elements that have already started, by node index.
pub struct StartedScripts {
    ids: HashSet<u32>,
}

impl StartedScripts {
    pub closed spec fn view(&self) -> Set<nat> {
        self.ids@.map(|x: u32| x as nat)
    }

    pub fn new() -> (r: StartedScripts)
        ensures
            r@ == Set::<nat>::empty(),
    {
        let r = StartedScripts { ids: HashSet::new() };
        proof {
            assert(r@ =~= Set::<nat>::empty());
        }
        r
    }

    pub fn contains(&self, n: NodeId) -> (r: bool)
        ensures
            r == self@.contains(n.id()),
    {
        let r = self.ids.contains(&n.0);
        proof {
            if self@.contains(n.id()) {
                let x = choose|x: u32| self.ids@.contains(x) && x as nat == n.id();
                assert(x == n.0);
            }
            if r {
                assert(self@.contains(n.0 as nat));
            }
        }
        r
    }

    /// Adds `n`; whether it was not there before.
    pub fn insert(&mut self, n: NodeId) -> (r: bool)
        ensures
            r == !old(self)@.contains(n.id()),
            final(self)@ == old(self)@.insert(n.id()),
    {
        let ghost s0 = self.ids@;
        let r = self.ids.insert(n.0);
        proof {
            assert(self.ids@ == s0.insert(n.0));
            assert forall|y: nat| #[trigger] self@.contains(y) == old(self)@.insert(n.id()).contains(
                y,
            ) by {
                if self@.contains(y) {
                    let x = choose|x: u32| self.ids@.contains(x) && x as nat == y;
                    if x != n.0 {
                        assert(s0.contains(x));
                    }
                }
                if old(self)@.contains(y) {
                    let x = choose|x: u32| s0.contains(x) && x as nat == y;
                    assert(self.ids@.contains(x));
                }
                if y == n.id() {
                    assert(self.ids@.contains(n.0));
                }
            }
            assert(self@ =~= old(self)@.insert(n.id()));
            if old(self)@.contains(n.id()) {
                let x = choose|x: u32| s0.contains(x) && x as nat == n.id();
                assert(x == n.0);
            }
        }
        r
    }

    /// Adds every node of `v`.
    pub fn extend(&mut self, v: &Vec<NodeId>)
        ensures
            final(self)@ == old(self)@.union(ids_set(v@)),
    {
        let mut i: usize = 0;
        proof {
            assert(old(self)@.union(ids_set(v@.take(0))) =~= old(self)@);
        }
        while i < v.len()
            invariant
                i <= v@.len(),
                self@ == old(self)@.union(ids_set(v@.take(i as int))),
            decreases v@.len() - i,
        {
            self.insert(v[i]);
            proof {
                assert(v@.take(i + 1) =~= v@.take(i as int).push(v@[i as int]));
                let m = v@.take(i as int).map_values(|x: NodeId| x.id());
                assert(v@.take(i + 1).map_values(|x: NodeId| x.id()) =~= m.push(v@[i as int].id()));
                m.lemma_push_to_set_commute(v@[i as int].id());
            }
            i = i + 1;
        }
        proof {
            assert(v@.take(i as int) =~= v@);
        }
    }

    /// Records a script element as started, as parsing does for scripts
    /// that must not run again; whether `n` is a script element.
    pub fn mark_started(&mut self, dom: &DomTree, n: NodeId) -> (r: bool)
        requires
            dom.wf_struct(),
        ensures
            r == is_script(*dom, n.id()),
            final(self)@ == after_claim(*dom, old(self)@, n.id()),
    {
        if !node_is_script(dom, n) {
            return false;
        }
        self.insert(n);
        true
    }

    /// Claims a script element for execution: true only for a script
    /// element that has not started yet, which is then marked started.
    pub fn try_start(&mut self, dom: &DomTree, n: NodeId) -> (r: bool)
        requires
            dom.wf_struct(),
        ensures
            r == may_start(*dom, old(self)@, n.id()),
            final(self)@ == after_claim(*dom, old(self)@, n.id()),
    {
        if !node_is_script(dom, n) {
            return false;
        }
        self.insert(n)
    }

    /// Marks every script element under `root`, template contents
    /// included, as started.
    pub fn mark_script_subtree_started(&mut self, dom: &DomTree, root: NodeId)
        requires
            dom.wf_struct(),
        ensures
            final(self)@ == old(self)@.union(scripts_in(*dom, root.id()).to_set()),
    {
        let scripts = script_nodes_including_template_contents(dom, root);
        self.extend(&scripts);
        proof {
            let ps = pair_walk(*dom, root.id(), root.id(), walk_depth(*dom));
            lemma_walk_fits(*dom, root.id(), root.id(), walk_depth(*dom));
            lemma_among_fits(*dom, ps);
            lemma_ids_set(scripts_in(*dom, root.id()));
        }
    }

    /// After `cloned_root` was cloned from `source_root`, marks started the
    /// copy of every started script: the trees are walked side by side,
    /// children matched by position and template contents with template
    /// contents.
    pub fn propagate_script_start_state(&mut self, dom: &DomTree, source_root: NodeId, cloned_root: NodeId)
        requires
            dom.wf_struct(),
        ensures
            final(self)@ == old(self)@.union(
                copies_of_started(
                    pair_walk(*dom, source_root.id(), cloned_root.id(), walk_depth(*dom)),
                    old(self)@,
                ).to_set(),
            ),
    {
        let pairs = walk_pairs(dom, source_root, cloned_root);
        let ghost ps = pair_walk(*dom, source_root.id(), cloned_root.id(), walk_depth(*dom));
        let ghost s0 = self@;
        let mut additions: Vec<NodeId> = Vec::new();
        let mut i: usize = 0;
        proof {
            lemma_walk_fits(*dom, source_root.id(), cloned_root.id(), walk_depth(*dom));
            assert(ps.take(0) =~= Seq::<(nat, nat)>::empty());
            assert(ids_of(copies_of_started(ps.take(0), s0)) =~= Seq::<NodeId>::empty());
        }
        while i < pairs.len()
            invariant
                self@ == s0,
                pairs@ == pair_ids(ps),
                i <= pairs@.len(),
                additions@ == ids_of(copies_of_started(ps.take(i as int), s0)),
                forall|k: int| 0 <= k < ps.len() ==> (#[trigger] ps[k]).0 < 0x1_0000_0000 && ps[k].1
                    < 0x1_0000_0000,
            decreases pairs@.len() - i,
        {
            let (a, b) = pairs[i];
            proof {
                assert(ps.take(i + 1).drop_last() =~= ps.take(i as int));
                assert(ps.take(i + 1).last() == ps[i as int]);
                assert(a.id() == ps[i as int].0);
            }
            if self.contains(a) {
                additions.push(b);
                proof {
                    assert(b.id() == ps[i as int].1);
                    assert(additions@ =~= ids_of(copies_of_started(ps.take(i + 1), s0)));
                }
            }
            i = i + 1;
        }
        proof {
            assert(ps.take(i as int) =~= ps);
        }
        self.extend(&additions);
        proof {
            lemma_copies_fit(ps, s0);
            lemma_ids_set(copies_of_started(ps, s0));
        }
    }
}

/// The ids of the nodes of `v`, as a set.
pub open spec fn ids_set(v: Seq<NodeId>) -> Set<nat> {
    v.map_values(|x: NodeId| x.id()).to_set()
}

proof fn lemma_ids_set(s: Seq<nat>)
    requires
        forall|k: int| 0 <= k < s.len() ==> #[trigger] s[k] < 0x1_0000_0000,
    ensures
        ids_set(ids_of(s)) == s.to_set(),
{
    assert(ids_of(s).map_values(|x: NodeId| x.id()) =~= s);
}

} // verus!
