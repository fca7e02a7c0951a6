//! What a deep clone is: the copy relation between a source subtree and
//! its clone, and the bookkeeping of the clone's work stack.
use vstd::prelude::*;

use super::{DomTree, NodeData, NodeId};
use super::copy::{has_contents, pushed, with_contents};
use super::model::ids_of;

verus! {

/// `s` reversed.
pub open spec fn rev(s: Seq<nat>) -> Seq<nat>
    decreases s.len(),
{
    if s.len() == 0 {
        Seq::empty()
    } else {
        rev(s.drop_first()).push(s[0])
    }
}

/// The source nodes queued for destination `c` on a work stack, bottom
/// first.
pub open spec fn queued_for(st: Seq<(NodeId, NodeId)>, c: nat) -> Seq<nat>
    decreases st.len(),
{
    if st.len() == 0 {
        Seq::empty()
    } else {
        let r = queued_for(st.drop_last(), c);
        if st.last().0.id() == c {
            r.push(st.last().1.id())
        } else {
            r
        }
    }
}

/// The template contents a payload points at.
pub open spec fn contents_id(d: NodeData) -> nat {
    d->Element_template_contents->Some_0.id()
}

/// `dst` copies `src`, except for the template contents it points at.
pub open spec fn copy_rel(src: NodeData, dst: NodeData) -> bool {
    if has_contents(src) {
        dst.same_as(with_contents(src, dst->Element_template_contents))
    } else {
        dst.same_as(src)
    }
}

/// The children of `s` in `t0`; none for a free slot.
pub open spec fn skids(t0: DomTree, s: nat) -> Seq<nat> {
    if t0.live(s) {
        t0.kids(s)
    } else {
        Seq::empty()
    }
}

/// `m` maps each node of `copies` to the node of `t0` it copies; the
/// copies in `contents` are template contents. Each copy is live, its
/// payload copies the source's (a contents copy is a fresh document), its
/// children copy the source's children in order, and the copy of a
/// template whose contents are live has contents of its own that copy
/// them.
pub open spec fn copy_witness(
    t0: DomTree,
    t: DomTree,
    m: Map<nat, nat>,
    copies: Set<nat>,
    contents: Set<nat>,
) -> bool {
    &&& forall|x: nat| #[trigger] copies.contains(x) ==> m.contains_key(x) && t0.live(m[x]) && t.live(x)
    &&& forall|x: nat| #[trigger] copies.contains(x) ==> t.kids(x).len() == t0.kids(m[x]).len()
    &&& forall|x: nat, j: int|
        copies.contains(x) && 0 <= j < t.kids(x).len() ==> copies.contains(#[trigger] t.kids(x)[j])
            && !contents.contains(t.kids(x)[j]) && m[t.kids(x)[j]] == t0.kids(m[x])[j]
    &&& forall|x: nat| #[trigger] contents.contains(x) ==> copies.contains(x) && t.node(x).data is Document
    &&& forall|x: nat|
        #[trigger] copies.contains(x) && !contents.contains(x) ==> copy_rel(t0.node(m[x]).data, t.node(x).data)
    &&& forall|x: nat|
        #[trigger] copies.contains(x) && !contents.contains(x) && has_contents(t0.node(m[x]).data)
            && t0.live(contents_id(t0.node(m[x]).data)) ==> (t.node(x).data->Element_template_contents matches Some(cc)
            && copies.contains(cc.id()) && contents.contains(cc.id()) && m[cc.id()] == contents_id(
            t0.node(m[x]).data,
        ))
}

/// Node `c` of `t` is a deep copy of node `s` of `t0`: some copy map
/// relates them, children to children and contents to contents, all the
/// way down, and every copy is a node that `base` did not have.
pub open spec fn deep_copy_of(t0: DomTree, base: DomTree, t: DomTree, s: nat, c: nat) -> bool {
    exists|m: Map<nat, nat>, copies: Set<nat>, contents: Set<nat>|
        #[trigger] copy_witness(t0, t, m, copies, contents) && copies.contains(c) && !contents.contains(c)
            && m[c] == s && forall|x: nat| copies.contains(x) ==> !base.live(x)
}

/// A deep copy stays one while its nodes keep their payloads and
/// children, and against any older base.
pub proof fn lemma_copy_kept(t0: DomTree, base: DomTree, base2: DomTree, t: DomTree, t2: DomTree, p: nat, s: nat, c: nat)
    requires
        deep_copy_of(t0, base, t, s, c),
        base.live(p),
        forall|x: nat| base2.live(x) ==> base.live(x),
        forall|x: nat|
            t.live(x) && x != p ==> #[trigger] t2.live(x) && t2.kids(x) == t.kids(x) && t2.node(x).data
                == t.node(x).data,
    ensures
        deep_copy_of(t0, base2, t2, s, c),
{
    let (m, copies, contents) = choose|m: Map<nat, nat>, copies: Set<nat>, contents: Set<nat>|
        #[trigger] copy_witness(t0, t, m, copies, contents) && copies.contains(c) && !contents.contains(c)
            && m[c] == s && forall|x: nat| copies.contains(x) ==> !base.live(x);
    assert(copy_witness(t0, t, m, copies, contents));
    assert forall|x: nat| #[trigger] copies.contains(x) implies t2.live(x) && t2.kids(x) == t.kids(x)
        && t2.node(x).data == t.node(x).data by {
        assert(copies.contains(x));
        assert(t.live(x));
        assert(!base.live(x));
        assert(x != p);
    }
    assert(copy_witness(t0, t2, m, copies, contents));
}

pub proof fn lemma_rev_len(s: Seq<nat>)
    ensures
        rev(s).len() == s.len(),
    decreases s.len(),
{
    if s.len() > 0 {
        lemma_rev_len(s.drop_first());
    }
}

/// Taking the next child off a reversed remainder.
pub proof fn lemma_rev_skip(s: Seq<nat>, k: int)
    requires
        0 <= k < s.len(),
    ensures
        rev(s.skip(k)).len() > 0,
        rev(s.skip(k)).last() == s[k],
        rev(s.skip(k)).drop_last() == rev(s.skip(k + 1)),
{
    assert(s.skip(k).drop_first() =~= s.skip(k + 1));
    assert(s.skip(k)[0] == s[k]);
}

pub proof fn lemma_queued_concat(a: Seq<(NodeId, NodeId)>, b: Seq<(NodeId, NodeId)>, c: nat)
    ensures
        queued_for(a + b, c) == queued_for(a, c) + queued_for(b, c),
    decreases b.len(),
{
    if b.len() == 0 {
        assert(a + b =~= a);
        assert(queued_for(a, c) + queued_for(b, c) =~= queued_for(a, c));
    } else {
        assert((a + b).drop_last() =~= a + b.drop_last());
        assert((a + b).last() == b.last());
        lemma_queued_concat(a, b.drop_last(), c);
        if b.last().0.id() == c {
            assert(queued_for(a, c) + queued_for(b, c) =~= (queued_for(a, c) + queued_for(
                b.drop_last(),
                c,
            )).push(b.last().1.id()));
        }
    }
}

/// The ids of `ks` read back as the `ks`, when they fit in 32 bits.
pub proof fn lemma_ids_back(ks: Seq<nat>)
    requires
        forall|i: int| 0 <= i < ks.len() ==> ks[i] < 0x1_0000_0000,
    ensures
        forall|i: int| 0 <= i < ks.len() ==> #[trigger] ids_of(ks)[i].id() == ks[i],
{
    assert forall|i: int| 0 <= i < ks.len() implies #[trigger] ids_of(ks)[i].id() == ks[i] by {
        assert(ids_of(ks)[i] == NodeId(ks[i] as u32));
    }
}

pub proof fn lemma_queued_pushed(d: NodeId, ks: Seq<nat>, c: nat)
    requires
        forall|i: int| 0 <= i < ks.len() ==> ks[i] < 0x1_0000_0000,
    ensures
        queued_for(pushed(d, ids_of(ks)), c) == if d.id() == c {
            rev(ks)
        } else {
            Seq::<nat>::empty()
        },
    decreases ks.len(),
{
    let p = pushed(d, ids_of(ks));
    if ks.len() > 0 {
        lemma_ids_back(ks);
        assert(p.drop_last() =~= pushed(d, ids_of(ks.drop_first())));
        assert(p.last() == (d, ids_of(ks)[0]));
        lemma_queued_pushed(d, ks.drop_first(), c);
    } else {
        assert(p.len() == 0);
    }
}

/// Queueing onto a stack leaves the entries of destinations other than
/// the new one as they were.
pub proof fn lemma_queued_other(st: Seq<(NodeId, NodeId)>, d: NodeId, ks: Seq<NodeId>, c: nat)
    requires
        d.id() != c,
    ensures
        queued_for(st + pushed(d, ks), c) == queued_for(st, c),
    decreases ks.len(),
{
    let p = pushed(d, ks);
    if ks.len() == 0 {
        assert(st + p =~= st);
    } else {
        assert((st + p).drop_last() =~= st + pushed(d, ks.drop_first()));
        assert((st + p).last() == (d, ks[0]));
        lemma_queued_other(st, d, ks.drop_first(), c);
    }
}

/// No entry of `st` names `c` as its destination.
pub proof fn lemma_queued_none(st: Seq<(NodeId, NodeId)>, c: nat)
    requires
        forall|k: int| 0 <= k < st.len() ==> (#[trigger] st[k]).0.id() != c,
    ensures
        queued_for(st, c) == Seq::<nat>::empty(),
    decreases st.len(),
{
    if st.len() > 0 {
        assert forall|k: int| 0 <= k < st.drop_last().len() implies (#[trigger] st.drop_last()[k]).0.id()
            != c by {
            assert(st.drop_last()[k] == st[k]);
        }
        lemma_queued_none(st.drop_last(), c);
    }
}

/// The copy so far: as in `copy_witness`, except that a copy may still
/// lack its last children.
pub open spec fn copy_partial(
    t0: DomTree,
    t: DomTree,
    m: Map<nat, nat>,
    copies: Set<nat>,
    contents: Set<nat>,
) -> bool {
    &&& forall|x: nat| #[trigger] copies.contains(x) ==> m.contains_key(x) && t0.live(m[x]) && t.live(x)
    &&& forall|x: nat| #[trigger] copies.contains(x) ==> t.kids(x).len() <= t0.kids(m[x]).len()
    &&& forall|x: nat, j: int|
        copies.contains(x) && 0 <= j < t.kids(x).len() ==> copies.contains(#[trigger] t.kids(x)[j])
            && !contents.contains(t.kids(x)[j]) && m[t.kids(x)[j]] == t0.kids(m[x])[j]
    &&& forall|x: nat| #[trigger] contents.contains(x) ==> copies.contains(x) && t.node(x).data is Document
    &&& forall|x: nat|
        #[trigger] copies.contains(x) && !contents.contains(x) ==> copy_rel(t0.node(m[x]).data, t.node(x).data)
    &&& forall|x: nat|
        #[trigger] copies.contains(x) && !contents.contains(x) && has_contents(t0.node(m[x]).data)
            && t0.live(contents_id(t0.node(m[x]).data)) ==> (t.node(x).data->Element_template_contents matches Some(cc)
            && copies.contains(cc.id()) && contents.contains(cc.id()) && m[cc.id()] == contents_id(
            t0.node(m[x]).data,
        ))
}

/// Each copy's missing children wait on the work stack, the next one on
/// top.
pub open spec fn queue_ok(t0: DomTree, t: DomTree, st: Seq<(NodeId, NodeId)>, m: Map<nat, nat>, copies: Set<nat>) -> bool {
    forall|x: nat|
        #[trigger] copies.contains(x) ==> queued_for(st, x) == rev(t0.kids(m[x]).skip(t.kids(x).len() as int))
}

/// With nothing left on the stack, a partial copy is complete.
pub proof fn lemma_copy_done(t0: DomTree, t: DomTree, m: Map<nat, nat>, copies: Set<nat>, contents: Set<nat>)
    requires
        copy_partial(t0, t, m, copies, contents),
        queue_ok(t0, t, Seq::empty(), m, copies),
    ensures
        copy_witness(t0, t, m, copies, contents),
{
    assert forall|x: nat| #[trigger] copies.contains(x) implies t.kids(x).len() == t0.kids(m[x]).len() by {
        let k = t.kids(x).len() as int;
        let ks = t0.kids(m[x]);
        assert(queued_for(Seq::<(NodeId, NodeId)>::empty(), x) == Seq::<nat>::empty());
        lemma_rev_len(ks.skip(k));
    }
}

} // verus!
