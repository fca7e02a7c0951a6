//! Sibling positions, ancestor chains and document order of DOM nodes.
use vstd::prelude::*;

use crate::cli::{ascii_lower, lower_char};
use crate::tree::{DomTree, NodeData, NodeId};
use crate::tree::model::{ids_of, opt_id, prev_in};

verus! {

/// Position of `n` among its parent's children; 0 for a node without a
/// parent and for a free slot.
pub open spec fn child_index(t: DomTree, n: nat) -> nat {
    if t.live(n) {
        match t.parent_of(n) {
            Some(p) => t.kids(p).index_of(n) as nat,
            None => 0,
        }
    } else {
        0
    }
}

/// `n` and its ordinary ancestors, the root first; just `n` for a free slot.
pub open spec fn root_first_chain(t: DomTree, n: nat) -> Seq<nat> {
    if t.live(n) {
        (seq![n] + t.light_anc(n)).reverse()
    } else {
        seq![n]
    }
}

/// Length of the longest common prefix of `x` and `y`, counted from `i`.
pub open spec fn common_from(x: Seq<nat>, y: Seq<nat>, i: nat) -> nat
    decreases x.len() - i,
{
    if i < x.len() && i < y.len() && x[i as int] == y[i as int] {
        common_from(x, y, i + 1)
    } else {
        i
    }
}

/// Document-order comparison: -1 when `a` comes first, 1 when `b` does, 0
/// for the same node. A node precedes its descendants; below the deepest
/// common ancestor the earlier sibling comes first. Nodes of different
/// trees are ordered by slot index.
pub open spec fn node_order(t: DomTree, a: nat, b: nat) -> int {
    if a == b {
        0
    } else {
        let aa = root_first_chain(t, a);
        let bb = root_first_chain(t, b);
        if aa[0] != bb[0] {
            if a < b {
                -1
            } else {
                1
            }
        } else {
            let i = common_from(aa, bb, 0);
            if i >= aa.len() {
                -1
            } else if i >= bb.len() {
                1
            } else if child_index(t, aa[i as int]) < child_index(t, bb[i as int]) {
                -1
            } else {
                1
            }
        }
    }
}

/// `n` is a live element whose local name is `script`, in any ASCII case.
pub open spec fn is_script(t: DomTree, n: nat) -> bool {
    t.live(n) && match t.node(n).data {
        NodeData::Element { name, .. } => ascii_lower(name.local@) == "script"@,
        _ => false,
    }
}

/// Index of `n` among its parent's children (0-based).
pub fn node_child_index(dom: &DomTree, n: NodeId) -> (r: usize)
    requires
        dom.wf_struct(),
    ensures
        r == child_index(*dom, n.id()),
{
    let cap = dom.nodes.len();
    let nd = match dom.node_ref(n) {
        Some(x) => x,
        None => {
            return 0;
        },
    };
    let ghost c = n.id();
    proof {
        dom.lemma_at(c);
    }
    let p = match nd.parent {
        Some(p) => p,
        None => {
            return 0;
        },
    };
    let ghost ks = dom.kids(p.id());
    let ghost j = ks.index_of(c);
    proof {
        dom.lemma_at(p.id());
        dom.lemma_kids_bound(p.id());
        assert(ks.contains(c));
        assert(ks[j] == c);
        dom.lemma_kid_at(p.id(), j);
    }
    let mut i: usize = 0;
    let mut cur = nd.prev_sibling;
    while cur.is_some()
        invariant
            dom.wf_struct(),
            dom.live(p.id()),
            ks == dom.kids(p.id()),
            ks.len() <= cap,
            cap == dom.slots(),
            0 <= j < ks.len(),
            0 <= i <= j,
            opt_id(cur) == prev_in(ks, j - i),
            child_index(*dom, c) == j,
        decreases j - i,
    {
        let q = cur.unwrap();
        proof {
            dom.lemma_kid_at(p.id(), j - i - 1);
            dom.lemma_at(ks[j - i - 1]);
            assert(q.id() == ks[j - i - 1]);
        }
        cur = match dom.node_ref(q) {
            Some(x) => x.prev_sibling,
            None => None,
        };
        i = i + 1;
    }
    i
}

/// The ancestor chain of `n`, from the root down to `n`.
pub fn node_ancestors_root_first(dom: &DomTree, n: NodeId) -> (r: Vec<NodeId>)
    requires
        dom.wf_struct(),
    ensures
        r@ == ids_of(root_first_chain(*dom, n.id())),
{
    let mut v: Vec<NodeId> = Vec::new();
    v.push(n);
    if dom.node_ref(n).is_none() {
        proof {
            assert(v@ =~= ids_of(seq![n.id()]));
        }
        return v;
    }
    let ghost c = n.id();
    let ghost chain = seq![c] + dom.light_anc(c);
    proof {
        dom.lemma_light_chain(c);
        dom.lemma_at(c);
        assert(v@ =~= ids_of(chain.take(1)));
    }
    let mut cur = n;
    let mut k: usize = 0;
    while k < dom.nodes.len()
        invariant
            dom.wf_struct(),
            dom.live(c),
            chain == seq![c] + dom.light_anc(c),
            k <= dom.light_anc(c).len(),
            cur.id() == chain[k as int],
            v@ == ids_of(chain.take(k + 1)),
            dom.light_anc(c).len() < dom.slots(),
        ensures
            v@ == ids_of(chain),
        decreases dom.slots() - k,
    {
        proof {
            dom.lemma_light_chain(c);
        }
        let next = match dom.node_ref(cur) {
            Some(x) => x.parent,
            None => None,
        };
        match next {
            Some(p) => {
                proof {
                    assert(k < dom.light_anc(c).len());
                    assert(p.id() == chain[k + 1]);
                    dom.lemma_at(chain[k + 1]);
                    assert(chain.take(k + 2) =~= chain.take(k + 1).push(chain[k + 1]));
                    assert(ids_of(chain.take(k + 2)) =~= ids_of(chain.take(k + 1)).push(p));
                }
                v.push(p);
                cur = p;
                k = k + 1;
            },
            None => {
                proof {
                    assert(k == dom.light_anc(c).len());
                    assert(chain.take(k + 1) =~= chain);
                }
                break;
            },
        }
    }
    proof {
        dom.lemma_light_chain(c);
    }
    let ghost before = v@;
    let out = reversed(&v);
    proof {
        assert(ids_of(chain.reverse()) =~= before.reverse());
    }
    out
}

/// `v` in reverse order.
fn reversed(v: &Vec<NodeId>) -> (r: Vec<NodeId>)
    ensures
        r@ == v@.reverse(),
{
    let mut out: Vec<NodeId> = Vec::new();
    let mut i: usize = v.len();
    while i > 0
        invariant
            i <= v@.len(),
            out@ == v@.subrange(i as int, v@.len() as int).reverse(),
        decreases i,
    {
        i = i - 1;
        proof {
            assert(v@.subrange(i as int, v@.len() as int).reverse() =~= v@.subrange(
                i + 1,
                v@.len() as int,
            ).reverse().push(v@[i as int]));
        }
        out.push(v[i]);
    }
    proof {
        assert(v@.subrange(0, v@.len() as int) =~= v@);
    }
    out
}

/// Document-order comparison of two nodes: -1 before, 1 after, 0 same.
pub fn compare_node_order(dom: &DomTree, a: NodeId, b: NodeId) -> (r: i32)
    requires
        dom.wf_struct(),
    ensures
        r == node_order(*dom, a.id(), b.id()),
{
    if a.0 == b.0 {
        return 0;
    }
    let aa = node_ancestors_root_first(dom, a);
    let bb = node_ancestors_root_first(dom, b);
    let ghost sa = root_first_chain(*dom, a.id());
    let ghost sb = root_first_chain(*dom, b.id());
    proof {
        lemma_chain_ids(*dom, a.id());
        lemma_chain_ids(*dom, b.id());
    }
    if aa[0].0 != bb[0].0 {
        return if a.0 < b.0 {
            -1
        } else {
            1
        };
    }
    let mut i: usize = 0;
    while i < aa.len() && i < bb.len() && aa[i].0 == bb[i].0
        invariant
            aa@ == ids_of(sa),
            bb@ == ids_of(sb),
            forall|m: int| 0 <= m < sa.len() ==> #[trigger] sa[m] < 0x1_0000_0000,
            forall|m: int| 0 <= m < sb.len() ==> #[trigger] sb[m] < 0x1_0000_0000,
            i <= aa@.len(),
            common_from(sa, sb, 0) == common_from(sa, sb, i as nat),
        decreases aa@.len() - i,
    {
        i = i + 1;
    }
    if i >= aa.len() {
        return -1;
    }
    if i >= bb.len() {
        return 1;
    }
    if node_child_index(dom, aa[i]) < node_child_index(dom, bb[i]) {
        -1
    } else {
        1
    }
}

/// The nodes of a chain fit the 32-bit ids they are handed out as.
proof fn lemma_chain_ids(t: DomTree, n: nat)
    requires
        t.wf_struct(),
        n < 0x1_0000_0000,
    ensures
        root_first_chain(t, n).len() > 0,
        forall|m: int|
            0 <= m < root_first_chain(t, n).len() ==> #[trigger] root_first_chain(t, n)[m]
                < 0x1_0000_0000,
{
    if t.live(n) {
        t.lemma_light_chain(n);
        let c = seq![n] + t.light_anc(n);
        assert forall|m: int| 0 <= m < c.len() implies #[trigger] c[m] < 0x1_0000_0000 by {
            t.lemma_at(c[m]);
        }
        assert forall|m: int| 0 <= m < c.reverse().len() implies #[trigger] c.reverse()[m]
            < 0x1_0000_0000 by {
            assert(c.reverse()[m] == c[c.len() - 1 - m]);
        }
    }
}

proof fn lemma_common(x: Seq<nat>, y: Seq<nat>, i: nat)
    requires
        i <= x.len(),
        i <= y.len(),
    ensures
        i <= common_from(x, y, i),
        common_from(x, y, i) <= x.len(),
        common_from(x, y, i) <= y.len(),
        common_from(x, y, i) == common_from(y, x, i),
        forall|m: int| i <= m < common_from(x, y, i) ==> x[m] == y[m],
        common_from(x, y, i) < x.len() && common_from(x, y, i) < y.len() ==> x[common_from(
            x,
            y,
            i,
        ) as int] != y[common_from(x, y, i) as int],
    decreases x.len() - i,
{
    if i < x.len() && i < y.len() && x[i as int] == y[i as int] {
        lemma_common(x, y, i + 1);
    }
}

/// Facts about the chain of a live node: it ends at the node, each entry
/// after the first is a child of the one before, and all are live.
proof fn lemma_root_first(t: DomTree, n: nat)
    requires
        t.wf_struct(),
        t.live(n),
    ensures
        root_first_chain(t, n).len() == t.light_anc(n).len() + 1,
        root_first_chain(t, n).last() == n,
        forall|k: int|
            0 <= k < root_first_chain(t, n).len() ==> t.live(#[trigger] root_first_chain(t, n)[k]),
        forall|k: int|
            1 <= k < root_first_chain(t, n).len() ==> t.parent_of(
                #[trigger] root_first_chain(t, n)[k],
            ) == Some(root_first_chain(t, n)[k - 1]),
{
    t.lemma_light_chain(n);
    let la = t.light_anc(n);
    let c = seq![n] + la;
    let ch = c.reverse();
    let len = la.len() as int;
    assert forall|k: int| 0 <= k < ch.len() implies t.live(#[trigger] ch[k]) by {
        assert(ch[k] == c[len - k]);
    }
    assert forall|k: int| 1 <= k < ch.len() implies t.parent_of(#[trigger] ch[k]) == Some(
        ch[k - 1],
    ) by {
        assert(ch[k] == c[len - k]);
        assert(ch[k - 1] == c[len - k + 1]);
        assert(c[len - k + 1] == la[len - k]);
    }
    assert(ch.last() == c[0]);
}

/// Document order is antisymmetric: comparing the other way round gives
/// the opposite answer, and only a node compared with itself gives 0.
pub proof fn lemma_node_order_antisymmetric(t: DomTree, a: nat, b: nat)
    requires
        t.wf_struct(),
    ensures
        node_order(t, a, b) == -node_order(t, b, a),
        node_order(t, a, b) == 0 <==> a == b,
{
    if a != b {
        let aa = root_first_chain(t, a);
        let bb = root_first_chain(t, b);
        if t.live(a) {
            lemma_root_first(t, a);
        }
        if t.live(b) {
            lemma_root_first(t, b);
        }
        if aa[0] == bb[0] {
            assert(t.live(a) && t.live(b));
            lemma_common(aa, bb, 0);
            lemma_common(bb, aa, 0);
            let i = common_from(aa, bb, 0);
            assert(i >= 1);
            if i >= aa.len() && i >= bb.len() {
                assert(aa =~= bb);
                assert(false);
            }
            if i < aa.len() && i < bb.len() {
                let x = aa[i as int];
                let y = bb[i as int];
                let p = aa[i - 1];
                assert(t.parent_of(x) == Some(p));
                assert(t.parent_of(y) == Some(p));
                t.lemma_at(x);
                t.lemma_at(y);
                let ks = t.kids(p);
                assert(ks.contains(x) && ks.contains(y));
                assert(ks[ks.index_of(x)] == x);
                assert(ks[ks.index_of(y)] == y);
                assert(child_index(t, x) != child_index(t, y));
            }
        }
    }
}

/// Whether `node_id` is a `script` element, its local name compared in
/// any ASCII case.
pub fn node_is_script(dom: &DomTree, node_id: NodeId) -> (r: bool)
    requires
        dom.wf_struct(),
    ensures
        r == is_script(*dom, node_id.id()),
{
    proof {
        reveal_strlit("script");
    }
    match dom.node_ref(node_id) {
        Some(nd) => match nd.as_element() {
            Some(name) => {
                let v = crate::strutil::chars_of(name.local.as_str());
                let target: Vec<char> = vec!['s', 'c', 'r', 'i', 'p', 't'];
                proof {
                    assert(target@ =~= "script"@);
                }
                if v.len() != target.len() {
                    proof {
                        assert(ascii_lower(v@).len() == v@.len());
                        assert(ascii_lower(v@) != "script"@);
                        assert(v@ == name.local@);
                    }
                    return false;
                }
                let mut i: usize = 0;
                proof {
                    assert(v@ == name.local@);
                    assert(is_script(*dom, node_id.id()) == (ascii_lower(v@) == target@));
                }
                while i < v.len()
                    invariant
                        is_script(*dom, node_id.id()) == (ascii_lower(v@) == target@),
                        v@.len() == target@.len(),
                        i <= v@.len(),
                        forall|m: int| 0 <= m < i ==> crate::cli::ascii_lower_char(#[trigger] v@[m]) == target@[m],
                    decreases v@.len() - i,
                {
                    if lower_char(v[i]) != target[i] {
                        proof {
                            assert(ascii_lower(v@)[i as int] != target@[i as int]);
                        }
                        return false;
                    }
                    i = i + 1;
                }
                proof {
                    assert(ascii_lower(v@) =~= target@);
                }
                true
            },
            None => false,
        },
        None => false,
    }
}

} // verus!
