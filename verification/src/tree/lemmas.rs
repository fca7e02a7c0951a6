//! Facts that follow from well-formedness.
use vstd::prelude::*;

use super::DomTree;
use super::model::{prev_in, next_in};

verus! {

/// The naturals below `n` form a finite set of `n` elements.
pub(crate) proof fn lemma_nat_range(n: nat)
    ensures
        Set::new(|i: nat| i < n).finite(),
        Set::new(|i: nat| i < n).len() == n,
    decreases n,
{
    if n == 0 {
        assert(Set::new(|i: nat| i < n) =~= Set::<nat>::empty());
    } else {
        lemma_nat_range((n - 1) as nat);
        assert(Set::new(|i: nat| i < (n - 1) as nat).insert((n - 1) as nat) =~= Set::new(
            |i: nat| i < n,
        ));
    }
}

/// A duplicate-free sequence of naturals below `n` has at most `n` elements.
pub(crate) proof fn lemma_distinct_below(s: Seq<nat>, n: nat)
    requires
        s.no_duplicates(),
        forall|k: int| 0 <= k < s.len() ==> #[trigger] s[k] < n,
    ensures
        s.len() <= n,
{
    lemma_nat_range(n);
    s.unique_seq_to_set();
    assert(s.to_set().subset_of(Set::new(|i: nat| i < n)));
    vstd::set_lib::lemma_len_subset(s.to_set(), Set::new(|i: nat| i < n));
}

impl DomTree {
    /// The per-node conditions of well-formedness at a live node.
    pub(crate) proof fn lemma_at(&self, i: nat)
        requires
            self.wf_struct(),
            self.live(i),
        ensures
            self.kids_ok(i),
            self.parent_ok(i),
            self.anc_ok(i),
            self.node(i).id.0 == i,
            i < self.slots(),
            self.slots() <= 0x1_0000_0000,
    {
        reveal(DomTree::wf_links);
        reveal(DomTree::wf_anc);
        reveal(DomTree::wf_arena);
    }

    pub(crate) proof fn lemma_conn_at(&self, i: nat)
        requires
            self.wf_conn(),
            self.live(i),
        ensures
            self.conn_ok(i),
    {
        reveal(DomTree::wf_conn);
    }

    pub(crate) proof fn lemma_shadow_at(&self, r: nat)
        requires
            self.wf_struct(),
            self.shadow_info(r) is Some,
        ensures
            self.shadow_ok(r),
    {
        reveal(DomTree::wf_shadow);
    }

    pub(crate) proof fn lemma_host_at(&self, h: nat)
        requires
            self.wf_struct(),
            self.hosted(h) is Some,
        ensures
            self.host_ok(h),
            self.shadow_ok(self.hosted(h)->Some_0),
    {
        reveal(DomTree::wf_shadow);
    }

    /// Each host-including ancestor is live, and its own ancestor chain is the
    /// rest of the chain.
    pub(crate) proof fn lemma_anc_step(&self, i: nat, k: int)
        requires
            self.wf_struct(),
            self.live(i),
            0 <= k < self.anc(i).len(),
        ensures
            self.live(self.anc(i)[k]),
            self.anc(self.anc(i)[k]) == self.anc(i).skip(k + 1),
        decreases k,
    {
        self.lemma_at(i);
        let p = self.hparent(i)->Some_0;
        self.lemma_hparent_live(i);
        assert(self.anc(i) == seq![p] + self.anc(p));
        if k == 0 {
            assert(self.anc(p) =~= self.anc(i).skip(1));
        } else {
            self.lemma_anc_step(p, k - 1);
            assert(self.anc(i)[k] == self.anc(p)[k - 1]);
            assert(self.anc(p).skip(k) =~= self.anc(i).skip(k + 1));
        }
    }

    pub(crate) proof fn lemma_hparent_live(&self, i: nat)
        requires
            self.wf_struct(),
            self.live(i),
        ensures
            self.hparent(i) is Some ==> self.live(self.hparent(i)->Some_0),
            self.hparent(i) is Some ==> self.hparent(i)->Some_0 != i,
    {
        self.lemma_at(i);
        if self.parent_of(i) is None && self.shadow_info(i) is Some {
            self.lemma_shadow_at(i);
        }
        if self.hparent(i) is Some {
            let p = self.hparent(i)->Some_0;
            self.lemma_at(i);
            if p == i {
                assert(self.anc(i).len() == 1 + self.anc(i).len());
            }
        }
    }

    /// Ancestor chains are duplicate free and never contain the node itself.
    pub(crate) proof fn lemma_anc_distinct(&self, i: nat)
        requires
            self.wf_struct(),
            self.live(i),
        ensures
            self.anc(i).no_duplicates(),
            !self.anc(i).contains(i),
            forall|k: int| 0 <= k < self.anc(i).len() ==> self.live(#[trigger] self.anc(i)[k]),
    {
        assert forall|k: int| 0 <= k < self.anc(i).len() implies self.live(
            #[trigger] self.anc(i)[k],
        ) by {
            self.lemma_anc_step(i, k);
        }
        assert forall|a: int, b: int|
            0 <= a < self.anc(i).len() && 0 <= b < self.anc(i).len() && a != b implies self.anc(
            i,
        )[a] != self.anc(i)[b] by {
            self.lemma_anc_step(i, a);
            self.lemma_anc_step(i, b);
            if self.anc(i)[a] == self.anc(i)[b] {
                assert(self.anc(i).skip(a + 1).len() != self.anc(i).skip(b + 1).len());
            }
        }
        if self.anc(i).contains(i) {
            let k = choose|k: int| 0 <= k < self.anc(i).len() && self.anc(i)[k] == i;
            self.lemma_anc_step(i, k);
        }
    }

    /// The chain of a live node is shorter than the arena.
    pub(crate) proof fn lemma_depth_bound(&self, i: nat)
        requires
            self.wf_struct(),
            self.live(i),
        ensures
            self.anc(i).len() < self.slots(),
    {
        self.lemma_anc_distinct(i);
        let s = self.anc(i).push(i);
        assert forall|a: int, b: int| 0 <= a < s.len() && 0 <= b < s.len() && a != b implies s[a]
            != s[b] by {
            if a < self.anc(i).len() && b < self.anc(i).len() {
            } else if a == self.anc(i).len() {
                assert(self.anc(i).contains(s[b]) || b == a);
            } else {
                assert(self.anc(i).contains(s[a]));
            }
        }
        assert forall|k: int| 0 <= k < s.len() implies #[trigger] s[k] < self.slots() by {
            if k < self.anc(i).len() {
                assert(self.live(self.anc(i)[k]));
            }
        }
        lemma_distinct_below(s, self.slots());
    }

    /// Child lists are no longer than the arena.
    pub(crate) proof fn lemma_kids_bound(&self, p: nat)
        requires
            self.wf_struct(),
            self.live(p),
        ensures
            self.kids(p).len() <= self.slots(),
            forall|k: int| 0 <= k < self.kids(p).len() ==> self.live(#[trigger] self.kids(p)[k]),
    {
        self.lemma_at(p);
        assert forall|k: int| 0 <= k < self.kids(p).len() implies #[trigger] self.kids(p)[k]
            < self.slots() && self.live(self.kids(p)[k]) by {
            assert(self.kid_ok(p, k));
        }
        lemma_distinct_below(self.kids(p), self.slots());
    }

    /// A child's fields as seen from its position in the parent's list.
    pub(crate) proof fn lemma_kid_at(&self, p: nat, j: int)
        requires
            self.wf_struct(),
            self.live(p),
            0 <= j < self.kids(p).len(),
        ensures
            self.live(self.kids(p)[j]),
            self.parent_of(self.kids(p)[j]) == Some(p),
            super::model::opt_id(self.node(self.kids(p)[j]).prev_sibling) == prev_in(
                self.kids(p),
                j,
            ),
            super::model::opt_id(self.node(self.kids(p)[j]).next_sibling) == next_in(
                self.kids(p),
                j,
            ),
            self.anc(self.kids(p)[j]) == seq![p] + self.anc(p),
    {
        self.lemma_at(p);
        assert(self.kid_ok(p, j));
        let c = self.kids(p)[j];
        self.lemma_at(c);
    }

    /// Well-formedness depends only on the arena, registries, index and
    /// ghost state, not on the flags.
    pub(crate) proof fn lemma_wf_same_shape(&self, old: DomTree)
        requires
            old.wf(),
            self.nodes@ == old.nodes@,
            self.free_list@ == old.free_list@,
            self.document == old.document,
            self.id_index@ == old.id_index@,
            self.root_info@ == old.root_info@,
            self.hosted_root@ == old.hosted_root@,
            self.kids@ == old.kids@,
            self.anc@ == old.anc@,
        ensures
            self.wf(),
            self.id_map() == old.id_map(),
            forall|i: nat| #[trigger] self.keeps(old, i),
            forall|i: nat| self.live(i) == old.live(i),
            forall|r: nat| #[trigger] self.shadow_info(r) == old.shadow_info(r),
            forall|h: nat| #[trigger] self.hosted(h) == old.hosted(h),
            self.doc() == old.doc(),
    {
        reveal(DomTree::wf_arena);
        reveal(DomTree::wf_links);
        reveal(DomTree::wf_shadow);
        reveal(DomTree::wf_anc);
        reveal(DomTree::wf_ids);
        reveal(DomTree::wf_conn);
        assert forall|p: nat| #[trigger] self.live(p) implies self.kids_ok(p) by {
            assert(old.live(p));
            assert(old.kids_ok(p));
            assert forall|j: int| 0 <= j < self.kids(p).len() implies #[trigger] self.kid_ok(p, j) by {
                assert(old.kid_ok(p, j));
            }
        }
        assert forall|p: nat| #[trigger] self.live(p) implies self.parent_ok(p) by {
            assert(old.live(p));
            assert(old.parent_ok(p));
        }
        assert forall|p: nat| #[trigger] self.live(p) implies self.anc_ok(p) by {
            assert(old.live(p));
            assert(old.anc_ok(p));
        }
        assert forall|p: nat| #[trigger] self.live(p) implies self.conn_ok(p) by {
            assert(old.live(p));
            assert(old.conn_ok(p));
        }
        assert forall|r: nat| #[trigger] self.shadow_info(r) is Some implies self.shadow_ok(r) by {
            assert(old.shadow_info(r) is Some);
            assert(old.shadow_ok(r));
        }
        assert forall|r: nat| #[trigger] self.hosted(r) is Some implies self.host_ok(r) by {
            assert(old.hosted(r) is Some);
            assert(old.host_ok(r));
        }
        assert forall|i: nat| #[trigger] self.live(i) implies self.node(i).id.0 == i by {
            assert(old.live(i));
        }
        assert(self.id_map() =~= old.id_map());
    }

    /// Changing only `connected` bits keeps the structural invariants and
    /// every structural view.
    pub(crate) proof fn lemma_same_but_conn(&self, old: DomTree)
        requires
            old.wf_struct(),
            self.same_but_conn(old),
        ensures
            self.wf_struct(),
            forall|i: nat| #[trigger] self.live(i) == old.live(i),
            forall|i: nat| #[trigger] self.kids(i) == old.kids(i),
            forall|i: nat| #[trigger] self.anc(i) == old.anc(i),
            forall|i: nat| old.live(i) ==> #[trigger] self.parent_of(i) == old.parent_of(i),
            forall|i: nat| old.live(i) ==> #[trigger] self.hparent(i) == old.hparent(i),
            forall|i: nat| old.live(i) ==> #[trigger] self.node(i).data == old.node(i).data,
            forall|r: nat| #[trigger] self.shadow_info(r) == old.shadow_info(r),
            forall|h: nat| #[trigger] self.hosted(h) == old.hosted(h),
            self.doc() == old.doc(),
            self.id_map() == old.id_map(),
            self.slots() == old.slots(),
            self.quirks_flag() == old.quirks_flag(),
            self.declarative_flag() == old.declarative_flag(),
    {
        reveal(DomTree::wf_arena);
        reveal(DomTree::wf_links);
        reveal(DomTree::wf_shadow);
        reveal(DomTree::wf_anc);
        reveal(DomTree::wf_ids);
        assert forall|i: nat| #[trigger] self.live(i) == old.live(i) by {
            if i < self.nodes@.len() {
                assert(self.nodes@[i as int] is Some == old.nodes@[i as int] is Some);
            }
        }
        assert forall|p: nat| #[trigger] self.live(p) implies self.kids_ok(p) by {
            assert(old.live(p));
            assert(old.kids_ok(p));
            assert forall|j: int| 0 <= j < self.kids(p).len() implies #[trigger] self.kid_ok(p, j) by {
                assert(old.kid_ok(p, j));
                assert(old.live(self.kids(p)[j]));
            }
        }
        assert forall|p: nat| #[trigger] self.live(p) implies self.parent_ok(p) by {
            assert(old.live(p));
            assert(old.parent_ok(p));
            if old.parent_of(p) is Some {
                assert(old.live(old.parent_of(p)->Some_0));
            }
        }
        assert forall|p: nat| #[trigger] self.live(p) implies self.anc_ok(p) by {
            assert(old.live(p));
            assert(old.anc_ok(p));
        }
        assert forall|r: nat| #[trigger] self.shadow_info(r) is Some implies self.shadow_ok(r) by {
            assert(old.shadow_info(r) is Some);
            assert(old.shadow_ok(r));
            let h = old.shadow_info(r)->Some_0.host.0 as nat;
            assert(old.live(h));
            assert(old.live(r));
        }
        assert forall|r: nat| #[trigger] self.hosted(r) is Some implies self.host_ok(r) by {
            assert(old.hosted(r) is Some);
            assert(old.host_ok(r));
        }
        assert forall|i: nat| #[trigger] self.live(i) implies self.node(i).id.0 == i by {
            assert(old.live(i));
        }
        assert(self.live(self.doc()) == old.live(old.doc()));
        assert(self.id_map() =~= old.id_map());
    }

    /// A node whose host-including parent is `c` is one of `c`'s children or
    /// the shadow root `c` hosts.
    pub(crate) proof fn lemma_hchild(&self, u: nat, c: nat)
        requires
            self.wf_struct(),
            self.live(u),
            self.hparent(u) == Some(c),
        ensures
            self.kids(c).contains(u) || self.hosted(c) == Some(u),
            self.live(c),
            self.anc(u) == seq![c] + self.anc(c),
    {
        self.lemma_at(u);
        self.lemma_hparent_live(u);
        if self.parent_of(u) is None {
            self.lemma_shadow_at(u);
        }
    }

    /// If `c` is a strict ancestor of `y`, some node on the way from `y` up to
    /// `c` has `c` as its host-including parent.
    pub(crate) proof fn lemma_path_step(&self, c: nat, y: nat) -> (u: nat)
        requires
            self.wf_struct(),
            self.live(y),
            self.anc(y).contains(c),
        ensures
            self.live(u),
            self.hparent(u) == Some(c),
            u == y || self.anc(y).contains(u),
            self.in_hsub(u, y),
    {
        let k = choose|k: int| 0 <= k < self.anc(y).len() && self.anc(y)[k] == c;
        self.lemma_at(y);
        if k == 0 {
            y
        } else {
            let u = self.anc(y)[k - 1];
            self.lemma_anc_step(y, k - 1);
            self.lemma_at(u);
            assert(self.anc(u) == self.anc(y).skip(k));
            assert(self.anc(u)[0] == c);
            self.lemma_hparent_live(u);
            assert(self.anc(y).contains(u));
            u
        }
    }

    /// Host-including subtrees nest.
    pub(crate) proof fn lemma_hsub_trans(&self, c: nat, z: nat, y: nat)
        requires
            self.wf_struct(),
            self.live(y),
            self.live(z),
            self.in_hsub(c, z),
            self.in_hsub(z, y),
        ensures
            self.in_hsub(c, y),
    {
        if z != y && z != c {
            let k = choose|k: int| 0 <= k < self.anc(y).len() && self.anc(y)[k] == z;
            self.lemma_anc_step(y, k);
            let j = choose|j: int| 0 <= j < self.anc(z).len() && self.anc(z)[j] == c;
            assert(self.anc(y)[k + 1 + j] == c);
        }
    }

    /// Every node of a host-including subtree has the subtree root's
    /// shadow-including root.
    pub(crate) proof fn lemma_hsub_sroot(&self, c: nat, y: nat)
        requires
            self.wf_struct(),
            self.live(y),
            self.in_hsub(c, y),
        ensures
            self.sroot(y) == self.sroot(c),
            self.live(c),
            self.anc(c) == self.anc(y).skip(self.anc(y).len() - self.anc(c).len()),
            self.anc(c).len() <= self.anc(y).len(),
            y != c ==> self.anc(y)[self.anc(y).len() - self.anc(c).len() - 1] == c,
            y != c ==> self.anc(c).len() < self.anc(y).len(),
    {
        if y != c {
            let k = choose|k: int| 0 <= k < self.anc(y).len() && self.anc(y)[k] == c;
            self.lemma_anc_step(y, k);
            if self.anc(c).len() > 0 {
                assert(self.anc(y).last() == self.anc(c).last());
            }
        }
    }
}

} // verus!
