//! Removing subtrees and freeing their arena slots.
use vstd::prelude::*;

use super::{DomTree, Node, NodeId, ShadowRoot};
use super::link::{unlinked_node, cut_kids};
use crate::strutil::owned;
use super::model::{ids_of, opt_id};
use super::lemmas::lemma_nat_range;
use super::mutate::on_stack;

verus! {

/// `y` is the id of some node in `s`.
pub open spec fn listed(s: Seq<NodeId>, y: nat) -> bool {
    exists|k: int| 0 <= k < s.len() && #[trigger] s[k].id() == y
}

impl DomTree {
    /// Every live node of the shadow-including subtree of `node_id` (the
    /// ordinary subtree plus every shadow tree owned by a host in it), each
    /// once; empty for a free slot.
    pub(crate) fn inclusive_owned_subtrees(&self, node_id: NodeId) -> (r: Vec<NodeId>)
        requires
            self.wf_struct(),
        ensures
            !self.live(node_id.id()) ==> r@.len() == 0,
            r@.no_duplicates(),
            forall|y: nat| listed(r@, y) <==> (self.live(y) && self.in_hsub(node_id.id(), y)),
    {
        let ghost t0 = *self;
        let ghost c = node_id.id();
        let mut result: Vec<NodeId> = Vec::new();
        if self.node_ref(node_id).is_none() {
            proof {
                assert forall|y: nat| listed(result@, y) <==> (self.live(y) && self.in_hsub(c, y)) by {
                    if self.live(y) && self.in_hsub(c, y) {
                        self.lemma_at(y);
                        let k = choose|k: int| 0 <= k < self.anc(y).len() && self.anc(y)[k] == c;
                        self.lemma_anc_step(y, k);
                    }
                }
            }
            return result;
        }
        let n = self.nodes.len();
        let mut seen: Vec<bool> = vec![false; n];
        let mut stack: Vec<NodeId> = Vec::new();
        stack.push(node_id);
        let ghost mut seen_set: Set<nat> = Set::empty();
        proof {
            t0.lemma_at(c);
            lemma_nat_range(n as nat);
            assert(seen_set =~= Set::new(|i: nat| i < n && seen@[i as int]));
            assert forall|y: nat|
                #[trigger] t0.live(y) && t0.in_hsub(c, y) && !seen@[y as int] implies on_stack(
                stack@,
                y,
            ) || (y != c && !seen@[t0.hparent(y)->Some_0 as int]) by {
                if y == c {
                    assert(stack@[0].id() == c);
                } else {
                    t0.lemma_at(y);
                    t0.lemma_hparent_live(y);
                }
            }
        }
        while stack.len() > 0
            invariant
                t0 == *self,
                t0.wf_struct(),
                c == node_id.id(),
                t0.live(c),
                n == t0.slots(),
                seen@.len() == n,
                seen_set == Set::new(|i: nat| i < n && seen@[i as int]),
                seen_set.finite(),
                seen_set.len() <= n,
                result@.no_duplicates(),
                forall|y: nat| listed(result@, y) <==> (y < n && seen@[y as int]),
                forall|i: int|
                    0 <= i < n && #[trigger] seen@[i] ==> t0.live(i as nat) && t0.in_hsub(
                        c,
                        i as nat,
                    ),
                forall|k: int|
                    0 <= k < stack@.len() ==> {
                        let s = #[trigger] stack@[k].id();
                        (t0.live(s) && t0.in_hsub(c, s)) || s == c
                    },
                forall|y: nat|
                    #[trigger] t0.live(y) && t0.in_hsub(c, y) && !seen@[y as int] ==> on_stack(
                        stack@,
                        y,
                    ) || (y != c && !seen@[t0.hparent(y)->Some_0 as int]),
            decreases n - seen_set.len(), stack@.len(),
        {
            let ghost st = stack@;
            let current = stack.pop().unwrap();
            let ghost z = current.id();
            proof {
                assert(st == stack@.push(current));
            }
            let idx = current.0 as usize;
            let skip = if idx >= n || seen[idx] {
                true
            } else {
                match self.node_ref(current) {
                    Some(_) => false,
                    None => true,
                }
            };
            if skip {
                proof {
                    assert forall|y: nat|
                        #[trigger] t0.live(y) && t0.in_hsub(c, y) && !seen@[y as int] implies on_stack(
                        stack@,
                        y,
                    ) || (y != c && !seen@[t0.hparent(y)->Some_0 as int]) by {
                        if on_stack(st, y) {
                            let k = choose|k: int| 0 <= k < st.len() && #[trigger] st[k].id() == y;
                            if k < stack@.len() {
                                assert(stack@[k].id() == y);
                            } else {
                                t0.lemma_at(y);
                            }
                        }
                    }
                }
                continue;
            }
            let first = match self.node_ref(current) {
                Some(nd) => nd.first_child,
                None => None,
            };
            proof {
                assert(t0.live(z));
                assert(t0.in_hsub(c, z));
                t0.lemma_at(z);
            }
            let ghost seen0 = seen@;
            let ghost r0 = result@;
            seen.set(idx, true);
            result.push(current);
            proof {
                lemma_nat_range(n as nat);
                assert(!seen_set.contains(z));
                seen_set = seen_set.insert(z);
                assert(seen_set =~= Set::new(|i: nat| i < n && seen@[i as int]));
                assert(seen_set.subset_of(Set::new(|i: nat| i < n)));
                vstd::set_lib::lemma_len_subset(seen_set, Set::new(|i: nat| i < n));
                assert(!listed(r0, z));
                assert forall|a: int, b: int| 0 <= a < result@.len() && 0 <= b < result@.len() && a != b implies result@[a] != result@[b] by {
                    if a == r0.len() {
                        assert(!listed(r0, result@[b].id()) || b != a) by {
                            if b < r0.len() && result@[b] == result@[a] {
                                assert(r0[b].id() == z);
                            }
                        }
                    } else if b == r0.len() {
                        if a < r0.len() && result@[b] == result@[a] {
                            assert(r0[a].id() == z);
                        }
                    }
                }
                assert forall|y: nat| listed(result@, y) <==> (y < n && seen@[y as int]) by {
                    if listed(result@, y) {
                        let k = choose|k: int| 0 <= k < result@.len() && #[trigger] result@[k].id() == y;
                        if k < r0.len() {
                            assert(r0[k].id() == y);
                            assert(listed(r0, y));
                            assert(y < n && seen0[y as int]);
                            if y != z {
                                assert(seen@[y as int] == seen0[y as int]);
                            }
                        } else {
                            assert(y == z);
                        }
                    }
                    if y < n && seen@[y as int] {
                        if y == z {
                            assert(result@[r0.len() as int].id() == y);
                        } else {
                            assert(seen@[y as int] == seen0[y as int]);
                            assert(listed(r0, y));
                            let k = choose|k: int| 0 <= k < r0.len() && #[trigger] r0[k].id() == y;
                            assert(result@[k].id() == y);
                        }
                    }
                }
            }
            let ghost base0 = stack@;
            let hosted = self.shadow_root(current);
            match hosted {
                Some(r) => {
                    stack.push(r);
                },
                None => {},
            }
            let ghost base = stack@;
            let mut child = first;
            let mut cnt: usize = 0;
            proof {
                t0.lemma_kids_bound(z);
            }
            #[verifier::loop_isolation(false)]
            while cnt <= self.nodes.len() && child.is_some()
                invariant
                    cnt <= t0.kids(z).len(),
                    stack@ == base + ids_of(t0.kids(z).take(cnt as int)),
                    opt_id(child) == if cnt < t0.kids(z).len() {
                        Some(t0.kids(z)[cnt as int])
                    } else {
                        None::<nat>
                    },
                decreases t0.kids(z).len() - cnt,
            {
                let child_id = child.unwrap();
                proof {
                    t0.lemma_kid_at(z, cnt as int);
                }
                stack.push(child_id);
                proof {
                    assert(t0.kids(z).take(cnt + 1) =~= t0.kids(z).take(cnt as int).push(
                        t0.kids(z)[cnt as int],
                    ));
                    assert(ids_of(t0.kids(z).take(cnt + 1)) =~= ids_of(
                        t0.kids(z).take(cnt as int),
                    ).push(child_id));
                }
                child = match self.node_ref(child_id) {
                    Some(nd) => nd.next_sibling,
                    None => None,
                };
                cnt = cnt + 1;
            }
            proof {
                assert(cnt == t0.kids(z).len());
                assert(t0.kids(z).take(cnt as int) =~= t0.kids(z));
                assert forall|y: nat|
                    #[trigger] t0.live(y) && t0.in_hsub(c, y) && !seen@[y as int] && y != z implies on_stack(
                    st,
                    y,
                ) || (y != c && (!seen@[t0.hparent(y)->Some_0 as int] || t0.hparent(y) == Some(z))) by {
                    t0.lemma_at(y);
                    assert(seen0[y as int] == seen@[y as int]);
                    if y != c {
                        t0.lemma_hparent_live(y);
                        let p = t0.hparent(y)->Some_0;
                        t0.lemma_at(p);
                        if p != z {
                            assert(seen0[p as int] == seen@[p as int]);
                        }
                    }
                }
                t0.lemma_dfs_push(c, z, st, base0, base, stack@, seen@);
            }
        }
        proof {
            assert forall|y: nat| listed(result@, y) <==> (self.live(y) && self.in_hsub(c, y)) by {
                if self.live(y) && self.in_hsub(c, y) {
                    t0.lemma_dfs_reach(c, seen@, y);
                    t0.lemma_at(y);
                }
            }
        }
        result
    }

    /// `i` belongs to the subtree that `remove(c)` frees.
    pub open spec fn gone(&self, c: nat, i: nat) -> bool {
        self.live(i) && self.in_hsub(c, i)
    }

    /// The `id` attribute values of the nodes `remove(c)` frees.
    pub open spec fn removed_ids(&self, c: nat) -> Set<Seq<char>> {
        Set::new(
            |k: Seq<char>|
                exists|y: nat| #[trigger] self.gone(c, y) && self.node(y).attribute("id"@) == Some(k),
        )
    }

    /// `remove(c)` frees something: `c` is live and not the document.
    pub open spec fn removable(&self, c: nat) -> bool {
        self.live(c) && c != self.doc()
    }

    /// The arena after freeing the nodes listed in `l` from `t`, with the
    /// registry entries of freed roots and hosts dropped.
    pub open(crate) spec fn freed_from(&self, t: DomTree, l: Seq<NodeId>) -> bool {
        &&& self.nodes@.len() == t.nodes@.len()
        &&& forall|i: int|
            0 <= i < self.nodes@.len() ==> #[trigger] self.nodes@[i] == if listed(l, i as nat) {
                None
            } else {
                t.nodes@[i]
            }
        &&& self.root_info@.len() == t.root_info@.len()
        &&& forall|i: int|
            0 <= i < self.root_info@.len() ==> #[trigger] self.root_info@[i] == if listed(
                l,
                i as nat,
            ) {
                None
            } else {
                t.root_info@[i]
            }
        &&& self.hosted_root@.len() == t.hosted_root@.len()
        &&& forall|h: int|
            0 <= h < self.hosted_root@.len() ==> #[trigger] self.hosted_root@[h] == if listed(
                l,
                h as nat,
            ) || (t.hosted(h as nat) is Some && listed(l, t.hosted(h as nat)->Some_0)) {
                None
            } else {
                t.hosted_root@[h]
            }
        &&& self.free_list@ == t.free_list@ + l.map_values(|x: NodeId| x.0)
        &&& self.document == t.document
        &&& self.id_index@ == t.id_index@
        &&& self.kids@ == t.kids@
        &&& self.anc@ == t.anc@
        &&& self.quirks == t.quirks
        &&& self.allow_declarative_shadow_roots == t.allow_declarative_shadow_roots
    }

    /// Freeing the whole shadow-including subtree of a root keeps the tree
    /// well formed.
    #[verifier::rlimit(60)]
    pub(crate) proof fn lemma_freed(&self, t: DomTree, c: nat, l: Seq<NodeId>)
        requires
            t.wf(),
            t.live(c),
            c != t.doc(),
            t.parent_of(c) is None,
            l.no_duplicates(),
            forall|y: nat| listed(l, y) <==> t.gone(c, y),
            self.freed_from(t, l),
        ensures
            self.wf(),
            forall|i: nat| #[trigger] self.live(i) == (t.live(i) && !t.in_hsub(c, i)),
            forall|i: nat| #[trigger] self.live(i) ==> self.node(i) == t.node(i) && self.kids(i)
                == t.kids(i) && self.anc(i) == t.anc(i),
            forall|i: nat| #[trigger] self.shadow_info(i) == if t.gone(c, i) {
                None
            } else {
                t.shadow_info(i)
            },
            forall|h: nat| #[trigger] self.hosted(h) == if t.gone(c, h) || (t.hosted(h) is Some
                && t.gone(c, t.hosted(h)->Some_0)) {
                None
            } else {
                t.hosted(h)
            },
            self.id_map() == t.id_map(),
    {
        reveal(DomTree::wf_arena);
        reveal(DomTree::wf_links);
        reveal(DomTree::wf_shadow);
        reveal(DomTree::wf_anc);
        reveal(DomTree::wf_ids);
        reveal(DomTree::wf_conn);
        t.lemma_at(c);
        assert forall|i: nat| #[trigger] self.live(i) == (t.live(i) && !t.in_hsub(c, i)) by {
            if i < self.nodes@.len() {
                assert(self.nodes@[i as int] == if listed(l, i) { None } else { t.nodes@[i as int] });
            }
        }
        // A node outside the freed subtree has its host-including parent
        // outside it too.
        assert forall|y: nat| #[trigger] t.live(y) && !t.in_hsub(c, y) && t.hparent(y) is Some implies !t.in_hsub(c, t.hparent(y)->Some_0) by {
            t.lemma_at(y);
            let p = t.hparent(y)->Some_0;
            if t.in_hsub(c, p) {
                assert(t.anc(y)[0] == p);
                if p != c {
                    let k = choose|k: int| 0 <= k < t.anc(p).len() && t.anc(p)[k] == c;
                    assert(t.anc(y)[k + 1] == c);
                }
            }
        }
        // A node inside it, other than c, has its parent inside it.
        assert forall|y: nat| #[trigger] t.live(y) && t.in_hsub(c, y) && y != c implies t.hparent(y) is Some && t.in_hsub(c, t.hparent(y)->Some_0) by {
            t.lemma_at(y);
            t.lemma_hparent_live(y);
            let p = t.hparent(y)->Some_0;
            assert(t.anc(y) == seq![p] + t.anc(p));
            if p != c {
                let k = choose|k: int| 0 <= k < t.anc(y).len() && t.anc(y)[k] == c;
                assert(k > 0);
                assert(t.anc(p)[k - 1] == c);
            }
        }
        assert forall|i: nat| #[trigger] self.live(i) implies self.node(i) == t.node(i) && self.kids(i) == t.kids(i) && self.anc(i) == t.anc(i) by {
            assert(self.nodes@[i as int] == t.nodes@[i as int]);
        }
        assert forall|i: nat| #[trigger] self.shadow_info(i) == if t.gone(c, i) { None } else { t.shadow_info(i) } by {
            if i < self.root_info@.len() {
                assert(self.root_info@[i as int] == if listed(l, i) { None } else { t.root_info@[i as int] });
            }
        }
        assert forall|h: nat| #[trigger] self.hosted(h) == if t.gone(c, h) || (t.hosted(h) is Some && t.gone(c, t.hosted(h)->Some_0)) { None } else { t.hosted(h) } by {
            if h < self.hosted_root@.len() {
                assert(self.hosted_root@[h as int] == if listed(l, h) || (t.hosted(h) is Some && listed(l, t.hosted(h)->Some_0)) { None } else { t.hosted_root@[h as int] });
            }
        }
        // Links.
        assert forall|x: nat| #[trigger] self.live(x) implies self.kids_ok(x) by {
            assert(t.kids_ok(x));
            assert forall|j: int| 0 <= j < self.kids(x).len() implies #[trigger] self.kid_ok(x, j) by {
                assert(t.kid_ok(x, j));
                let k = t.kids(x)[j];
                t.lemma_at(k);
                assert(t.hparent(k) == Some(x));
                assert(k != c);
                assert(!t.in_hsub(c, k));
                assert(self.live(k));
            }
        }
        assert forall|y: nat| #[trigger] self.live(y) implies self.parent_ok(y) by {
            assert(t.parent_ok(y));
            t.lemma_at(y);
            if t.parent_of(y) is Some {
                let p = t.parent_of(y)->Some_0;
                assert(t.hparent(y) == Some(p));
                assert(self.live(p));
            }
        }
        // Shadow registry.
        assert forall|r: nat| #[trigger] self.shadow_info(r) is Some implies self.shadow_ok(r) by {
            assert(!t.gone(c, r));
            assert(t.shadow_ok(r));
            let h = t.shadow_info(r)->Some_0.host.0 as nat;
            t.lemma_at(r);
            assert(t.hparent(r) == Some(h));
            assert(!t.in_hsub(c, h)) by {
                if t.in_hsub(c, h) {
                    assert(t.anc(r)[0] == h);
                    if h != c {
                        let k = choose|k: int| 0 <= k < t.anc(h).len() && t.anc(h)[k] == c;
                        assert(t.anc(r)[k + 1] == c);
                    }
                }
            }
            assert(self.live(h));
            assert(self.hosted(h) == Some(r));
        }
        assert forall|h: nat| #[trigger] self.hosted(h) is Some implies self.host_ok(h) by {
            assert(t.host_ok(h));
            let r = t.hosted(h)->Some_0;
            assert(!t.gone(c, r));
        }
        // Ancestors.
        assert forall|i: nat| #[trigger] self.live(i) implies self.anc_ok(i) by {
            assert(t.anc_ok(i));
        }
        assert forall|i: nat| #[trigger] self.live(i) implies self.conn_ok(i) by {
            assert(t.conn_ok(i));
        }
        // Arena.
        assert forall|i: nat| #[trigger] self.live(i) implies self.node(i).id.0 == i by {}
        let fl = self.free_list@;
        let n0 = t.free_list@.len();
        assert forall|k: int| 0 <= k < fl.len() implies (#[trigger] fl[k] as nat) < self.nodes@.len() && !self.live(fl[k] as nat) by {
            if k < n0 {
                assert(fl[k] == t.free_list@[k]);
            } else {
                let x = l[k - n0];
                assert(fl[k] == x.0);
                assert(listed(l, x.id()));
                assert(t.gone(c, x.id()));
            }
        }
        assert(fl.no_duplicates()) by {
            assert forall|a: int, b: int| 0 <= a < fl.len() && 0 <= b < fl.len() && a != b implies fl[a] != fl[b] by {
                if a < n0 && b < n0 {
                    assert(fl[a] == t.free_list@[a] && fl[b] == t.free_list@[b]);
                } else if a >= n0 && b >= n0 {
                    assert(fl[a] == l[a - n0].0 && fl[b] == l[b - n0].0);
                    assert(l[a - n0] != l[b - n0]);
                } else if a < n0 {
                    assert(fl[a] == t.free_list@[a]);
                    let x = l[b - n0];
                    assert(fl[b] == x.0);
                    assert(listed(l, x.id()));
                    assert(!t.live(t.free_list@[a] as nat));
                } else {
                    assert(fl[b] == t.free_list@[b]);
                    let x = l[a - n0];
                    assert(fl[a] == x.0);
                    assert(listed(l, x.id()));
                    assert(!t.live(t.free_list@[b] as nat));
                }
            }
        }
        assert(!t.in_hsub(c, t.doc())) by {
            t.lemma_at(t.doc());
        }
        assert(self.id_map() =~= t.id_map());
    }

    /// `id` attribute values of the first `i` listed nodes.
    pub open(crate) spec fn listed_ids(&self, l: Seq<NodeId>, i: int) -> Set<Seq<char>> {
        Set::new(
            |k: Seq<char>|
                exists|j: int|
                    0 <= j < i && self.live(l[j].id()) && #[trigger] self.node(l[j].id()).attribute(
                        "id"@,
                    ) == Some(k),
        )
    }

    /// Drops from the id index the `id` values of the listed nodes.
    fn remove_listed_ids(&mut self, l: &Vec<NodeId>)
        requires
            old(self).wf(),
        ensures
            final(self).wf(),
            final(self).same_but_ids(*old(self)),
            final(self).id_map() == old(self).id_map().remove_keys(
                old(self).listed_ids(l@, l@.len() as int),
            ),
    {
        let ghost t = *self;
        let mut i: usize = 0;
        proof {
            assert(t.listed_ids(l@, 0) =~= Set::<Seq<char>>::empty());
            assert(t.id_map().remove_keys(Set::<Seq<char>>::empty()) =~= t.id_map());
        }
        while i < l.len()
            invariant
                i <= l@.len(),
                self.wf(),
                self.same_but_ids(t),
                self.id_map() == t.id_map().remove_keys(t.listed_ids(l@, i as int)),
            decreases l@.len() - i,
        {
            let id = l[i];
            let ghost before = self.id_map();
            let key: Option<String> = match self.node_ref(id) {
                Some(n) => match n.get_attribute("id") {
                    Some(v) => Some(owned(v)),
                    None => None,
                },
                None => None,
            };
            proof {
                reveal(DomTree::wf_arena);
                assert(self.live(id.id()) == t.live(id.id()));
                if t.live(id.id()) {
                    assert(self.node(id.id()) == t.node(id.id()));
                }
            }
            match key {
                Some(k) => {
                    self.id_index_remove(k.as_str());
                    proof {
                        assert(t.listed_ids(l@, i + 1) =~= t.listed_ids(l@, i as int).insert(k@));
                        assert(before.remove(k@) =~= t.id_map().remove_keys(t.listed_ids(l@, i + 1)));
                    }
                },
                None => {
                    proof {
                        assert(t.listed_ids(l@, i + 1) =~= t.listed_ids(l@, i as int));
                    }
                },
            }
            i = i + 1;
        }
    }

    /// Drops the registry entries of the listed nodes: a listed shadow root
    /// loses its entry and its host's, a listed host loses its entry and its
    /// root's.
    fn drop_listed_registry(&mut self, l: &Vec<NodeId>, Ghost(t): Ghost<DomTree>)
        requires
            t.wf(),
            *old(self) == t,
            forall|k: int| 0 <= k < l@.len() ==> t.live(#[trigger] l@[k].id()),
            l@.no_duplicates(),
        ensures
            final(self).nodes@ == t.nodes@,
            final(self).free_list@ == t.free_list@,
            final(self).document == t.document,
            final(self).id_index@ == t.id_index@,
            final(self).kids@ == t.kids@,
            final(self).anc@ == t.anc@,
            final(self).quirks == t.quirks,
            final(self).allow_declarative_shadow_roots == t.allow_declarative_shadow_roots,
            final(self).root_info@.len() == t.root_info@.len(),
            forall|i: int|
                0 <= i < final(self).root_info@.len() ==> #[trigger] final(self).root_info@[i] == if listed(
                    l@,
                    i as nat,
                ) || exists|j: int| 0 <= j < l@.len() && t.hosted(l@[j].id()) == Some(i as nat) {
                    None
                } else {
                    t.root_info@[i]
                },
            final(self).hosted_root@.len() == t.hosted_root@.len(),
            forall|h: int|
                0 <= h < final(self).hosted_root@.len() ==> #[trigger] final(self).hosted_root@[h] == if listed(
                    l@,
                    h as nat,
                ) || (t.hosted(h as nat) is Some && listed(l@, t.hosted(h as nat)->Some_0)) {
                    None
                } else {
                    t.hosted_root@[h]
                },
    {
        proof {
            reveal(DomTree::wf_arena);
            reveal(DomTree::wf_shadow);
        }
        let n = self.root_info.len();
        let mut k: usize = 0;
        while k < l.len()
            invariant
                t.wf(),
                forall|k: int| 0 <= k < l@.len() ==> t.live(#[trigger] l@[k].id()),
                l@.no_duplicates(),
                k <= l@.len(),
                n == t.root_info@.len(),
                n == t.nodes@.len(),
                n == t.hosted_root@.len(),
                self.nodes@ == t.nodes@,
                self.free_list@ == t.free_list@,
                self.document == t.document,
                self.id_index@ == t.id_index@,
                self.kids@ == t.kids@,
                self.anc@ == t.anc@,
                self.quirks == t.quirks,
                self.allow_declarative_shadow_roots == t.allow_declarative_shadow_roots,
                self.root_info@.len() == n,
                self.hosted_root@.len() == n,
                forall|i: int|
                    0 <= i < n ==> #[trigger] self.root_info@[i] == if listed(l@.take(k as int), i as nat)
                        || exists|j: int|
                        0 <= j < k && t.hosted(l@[j].id()) == Some(i as nat) {
                        None
                    } else {
                        t.root_info@[i]
                    },
                forall|h: int|
                    0 <= h < n ==> #[trigger] self.hosted_root@[h] == if listed(l@.take(k as int), h as nat)
                        || (t.hosted(h as nat) is Some && listed(l@.take(k as int), t.hosted(h as nat)->Some_0)) {
                        None
                    } else {
                        t.hosted_root@[h]
                    },
            decreases l@.len() - k,
        {
            let id = l[k];
            let i = id.0 as usize;
            let ghost pk = l@.take(k as int);
            let ghost pk1 = l@.take(k + 1);
            proof {
                assert(t.live(id.id()));
                assert(pk1 == pk.push(id));
                assert forall|y: nat| listed(pk1, y) <==> (listed(pk, y) || y == id.id()) by {
                    if listed(pk1, y) {
                        let j = choose|j: int| 0 <= j < pk1.len() && #[trigger] pk1[j].id() == y;
                        if j < pk.len() {
                            assert(pk[j] == pk1[j]);
                        }
                    }
                    if listed(pk, y) {
                        let j = choose|j: int| 0 <= j < pk.len() && #[trigger] pk[j].id() == y;
                        assert(pk1[j] == pk[j]);
                    }
                    if y == id.id() {
                        assert(pk1[k as int].id() == y);
                    }
                }
            }
            let ghost ri_c = self.root_info@;
            let ghost hr_c = self.hosted_root@;
            match self.root_info[i] {
                Some(info) => {
                    self.root_info.set(i, None);
                    let h = info.host.0 as usize;
                    if h < n {
                        let matches = match self.hosted_root[h] {
                            Some(x) => x.0 == id.0,
                            None => false,
                        };
                        if matches {
                            self.hosted_root.set(h, None);
                        }
                    }
                },
                None => {},
            }
            match self.hosted_root[i] {
                Some(r) => {
                    self.hosted_root.set(i, None);
                    let ri = r.0 as usize;
                    if ri < n {
                        self.root_info.set(ri, None);
                    }
                },
                None => {},
            }
            proof {
                reveal(DomTree::wf_shadow);
                reveal(DomTree::wf_arena);
                let ii = i as int;
                assert(!listed(pk, id.id())) by {
                    if listed(pk, id.id()) {
                        let j = choose|j: int| 0 <= j < pk.len() && #[trigger] pk[j].id() == id.id();
                        assert(l@[j] == pk[j]);
                        assert(l@[k as int] == id);
                        assert(l@[j].0 == l@[k as int].0);
                        assert(l@[j] == l@[k as int]);
                    }
                }
                assert forall|x: int| 0 <= x < n implies #[trigger] self.root_info@[x] == if listed(pk1, x as nat)
                    || exists|j: int| 0 <= j < k + 1 && t.hosted(l@[j].id()) == Some(x as nat) {
                    None
                } else {
                    t.root_info@[x]
                } by {
                    if exists|j: int| 0 <= j < k + 1 && t.hosted(l@[j].id()) == Some(x as nat) {
                        let j = choose|j: int| 0 <= j < k + 1 && t.hosted(l@[j].id()) == Some(x as nat);
                        if j < k {
                            assert(exists|j2: int| 0 <= j2 < k && t.hosted(l@[j2].id()) == Some(x as nat));
                        }
                    }
                    if t.hosted(id.id()) == Some(x as nat) {
                        assert(t.hosted(l@[k as int].id()) == Some(x as nat));
                    }
                    if exists|j: int| 0 <= j < k && t.hosted(l@[j].id()) == Some(x as nat) {
                        let j = choose|j: int| 0 <= j < k && t.hosted(l@[j].id()) == Some(x as nat);
                        assert(0 <= j < k + 1 && t.hosted(l@[j].id()) == Some(x as nat));
                    }
                }
                assert forall|h: int| 0 <= h < n implies #[trigger] self.hosted_root@[h] == if listed(pk1, h as nat)
                    || (t.hosted(h as nat) is Some && listed(pk1, t.hosted(h as nat)->Some_0)) {
                    None
                } else {
                    t.hosted_root@[h]
                } by {
                    if t.hosted(h as nat) == Some(id.id()) {
                        assert(t.host_ok(h as nat));
                        assert(t.shadow_info(id.id()) is Some);
                        assert(t.shadow_ok(id.id()));
                        if h != ii && hr_c[h] is Some {
                            assert(!listed(pk, h as nat));
                            if exists|j: int| 0 <= j < k && t.hosted(l@[j].id()) == Some(id.id()) {
                                let j = choose|j: int| 0 <= j < k && t.hosted(l@[j].id()) == Some(id.id());
                                assert(t.host_ok(l@[j].id()));
                                assert(l@[j].id() == h);
                                assert(pk[j] == l@[j]);
                                assert(listed(pk, h as nat));
                            }
                            assert(ri_c[ii] == t.root_info@[ii]);
                            assert(hr_c[h] == t.hosted_root@[h]);
                            assert(hr_c[h] == Some(id));
                        }
                    }
                    if t.shadow_info(id.id()) is Some && t.shadow_info(id.id())->Some_0.host.0 == h {
                        assert(t.shadow_ok(id.id()));
                    }
                }
            }
            k = k + 1;
        }
        proof {
            assert(l@.take(k as int) =~= l@);
        }
    }

    /// Frees the slots of the listed nodes.
    fn free_listed(&mut self, l: &Vec<NodeId>, Ghost(t): Ghost<DomTree>)
        requires
            old(self).nodes@ == t.nodes@,
            forall|k: int| 0 <= k < l@.len() ==> t.live(#[trigger] l@[k].id()),
            l@.no_duplicates(),
        ensures
            final(self).nodes@.len() == t.nodes@.len(),
            forall|i: int|
                0 <= i < final(self).nodes@.len() ==> #[trigger] final(self).nodes@[i] == if listed(
                    l@,
                    i as nat,
                ) {
                    None
                } else {
                    t.nodes@[i]
                },
            final(self).free_list@ == old(self).free_list@ + l@.map_values(|x: NodeId| x.0),
            final(self).root_info == old(self).root_info,
            final(self).hosted_root == old(self).hosted_root,
            final(self).document == old(self).document,
            final(self).id_index == old(self).id_index,
            final(self).kids == old(self).kids,
            final(self).anc == old(self).anc,
            final(self).quirks == old(self).quirks,
            final(self).allow_declarative_shadow_roots == old(self).allow_declarative_shadow_roots,
    {
        let ghost f0 = self.free_list@;
        let mut k: usize = 0;
        while k < l.len()
            invariant
                k <= l@.len(),
                forall|k: int| 0 <= k < l@.len() ==> t.live(#[trigger] l@[k].id()),
                l@.no_duplicates(),
                self.nodes@.len() == t.nodes@.len(),
                forall|i: int|
                    0 <= i < self.nodes@.len() ==> #[trigger] self.nodes@[i] == if listed(
                        l@.take(k as int),
                        i as nat,
                    ) {
                        None
                    } else {
                        t.nodes@[i]
                    },
                self.free_list@ == f0 + l@.take(k as int).map_values(|x: NodeId| x.0),
                self.root_info == old(self).root_info,
                self.hosted_root == old(self).hosted_root,
                self.document == old(self).document,
                self.id_index == old(self).id_index,
                self.kids == old(self).kids,
                self.anc == old(self).anc,
                self.quirks == old(self).quirks,
                self.allow_declarative_shadow_roots == old(self).allow_declarative_shadow_roots,
            decreases l@.len() - k,
        {
            let id = l[k];
            let i = id.0 as usize;
            let ghost pk = l@.take(k as int);
            let ghost pk1 = l@.take(k + 1);
            proof {
                assert(pk1 == pk.push(id));
                assert forall|y: nat| listed(pk1, y) <==> (listed(pk, y) || y == id.id()) by {
                    if listed(pk1, y) {
                        let j = choose|j: int| 0 <= j < pk1.len() && #[trigger] pk1[j].id() == y;
                        if j < pk.len() {
                            assert(pk[j] == pk1[j]);
                        }
                    }
                    if listed(pk, y) {
                        let j = choose|j: int| 0 <= j < pk.len() && #[trigger] pk[j].id() == y;
                        assert(pk1[j] == pk[j]);
                    }
                    if y == id.id() {
                        assert(pk1[k as int].id() == y);
                    }
                }
                assert(!listed(pk, id.id())) by {
                    if listed(pk, id.id()) {
                        let j = choose|j: int| 0 <= j < pk.len() && #[trigger] pk[j].id() == id.id();
                        assert(l@[j] == pk[j]);
                        assert(l@[j].0 == l@[k as int].0);
                        assert(l@[j] == l@[k as int]);
                    }
                }
                assert(t.live(id.id()));
                assert(self.nodes@[i as int] == t.nodes@[i as int]);
            }
            if i < self.nodes.len() && self.nodes[i].is_some() {
                self.nodes.set(i, None);
                self.free_list.push(id.0);
            }
            proof {
                assert(pk1.map_values(|x: NodeId| x.0) =~= pk.map_values(|x: NodeId| x.0).push(id.0));
                assert(self.free_list@ =~= f0 + pk1.map_values(|x: NodeId| x.0));
            }
            k = k + 1;
        }
        proof {
            assert(l@.take(k as int) =~= l@);
        }
    }

    /// `self` is `t` after `remove(c)`: the shadow-including subtree of `c`
    /// is freed, `c`'s old parent no longer lists it, the registry entries
    /// of freed roots and hosts are gone, and so are the id-index entries of
    /// the freed nodes' `id` values.
    pub open spec fn removed_from(&self, t: DomTree, c: nat) -> bool {
        &&& forall|i: nat| #[trigger] self.live(i) == (t.live(i) && !t.in_hsub(c, i))
        &&& forall|i: nat|
            #[trigger] self.live(i) ==> self.node(i) == unlinked_node(t, c, i) && self.kids(i)
                == cut_kids(t, c)[i]
        &&& forall|i: nat| #[trigger] self.shadow_info(i) == if t.gone(c, i) {
            None
        } else {
            t.shadow_info(i)
        }
        &&& forall|h: nat| #[trigger] self.hosted(h) == if t.gone(c, h) || (t.hosted(h) is Some
            && t.gone(c, t.hosted(h)->Some_0)) {
            None
        } else {
            t.hosted(h)
        }
        &&& self.id_map() == t.id_map().remove_keys(t.removed_ids(c))
        &&& self.doc() == t.doc()
        &&& self.quirks_flag() == t.quirks_flag()
        &&& self.declarative_flag() == t.declarative_flag()
    }

    /// Takes `node_id` out of its parent and frees it with its
    /// shadow-including subtree. The document and free slots are left
    /// alone.
    pub fn remove(&mut self, node_id: NodeId)
        requires
            old(self).wf(),
        ensures
            final(self).wf(),
            !old(self).removable(node_id.id()) ==> *final(self) == *old(self),
            old(self).removable(node_id.id()) ==> final(self).removed_from(*old(self), node_id.id()),
    {
        let ghost t0 = *self;
        let ghost c = node_id.id();
        if node_id.0 == self.document.0 {
            return;
        }
        let list = self.inclusive_owned_subtrees(node_id);
        if list.len() == 0 {
            proof {
                if t0.live(c) {
                    assert(t0.in_hsub(c, c));
                    assert(!listed(list@, c));
                }
            }
            return;
        }
        proof {
            let k0 = 0int;
            assert(listed(list@, list@[k0].id()));
            assert(t0.live(c)) by {
                if !t0.live(c) {
                    assert(list@.len() == 0);
                }
            }
            t0.lemma_at(c);
        }
        self.detach(node_id);
        let ghost t1 = *self;
        proof {
            if !t0.movable(c) {
                assert(t0.shadow_info(c) is Some);
                t0.lemma_shadow_at(c);
                assert(t1 == t0);
            }
            assert(t1.parent_of(c) is None);
            assert forall|y: nat| listed(list@, y) <==> t1.gone(c, y) by {
                if t0.movable(c) {
                    assert(t1.live(y) == t0.live(y));
                    if t0.live(y) {
                        assert(t1.in_hsub(c, y) == t0.in_hsub(c, y));
                    }
                }
            }
            assert forall|k: int| 0 <= k < list@.len() implies t1.live(#[trigger] list@[k].id()) by {
                assert(listed(list@, list@[k].id()));
            }
        }
        self.remove_listed_ids(&list);
        let ghost t2 = *self;
        proof {
            t2.lemma_same_but_ids(t1);
            assert forall|y: nat| listed(list@, y) <==> t2.gone(c, y) by {
                assert(t2.live(y) == t1.live(y));
                if t1.live(y) {
                    assert(t2.keeps(t1, y));
                }
            }
            assert forall|k: int| 0 <= k < list@.len() implies t2.live(#[trigger] list@[k].id()) by {
                assert(listed(list@, list@[k].id()));
            }
        }
        self.drop_listed_registry(&list, Ghost(t2));
        let ghost t3 = *self;
        self.free_listed(&list, Ghost(t3));
        proof {
            reveal(DomTree::wf_shadow);
            reveal(DomTree::wf_arena);
            t2.lemma_at(c);
            assert forall|i: int| 0 <= i < self.root_info@.len() implies #[trigger] self.root_info@[i] == if listed(list@, i as nat) {
                None
            } else {
                t2.root_info@[i]
            } by {
                if exists|j: int| 0 <= j < list@.len() && t2.hosted(list@[j].id()) == Some(i as nat) {
                    let j = choose|j: int| 0 <= j < list@.len() && t2.hosted(list@[j].id()) == Some(i as nat);
                    let h = list@[j].id();
                    assert(listed(list@, h));
                    assert(t2.gone(c, h));
                    t2.lemma_host_at(h);
                    let r = i as nat;
                    t2.lemma_at(r);
                    assert(t2.hparent(r) == Some(h));
                    assert(t2.anc(r)[0] == h);
                    if h != c {
                        let m = choose|m: int| 0 <= m < t2.anc(h).len() && t2.anc(h)[m] == c;
                        assert(t2.anc(r)[m + 1] == c);
                    }
                    assert(t2.gone(c, r));
                }
            }
            assert(self.freed_from(t2, list@));
            self.lemma_freed(t2, c, list@);
            // Relate the outcome back to the tree before the call.
            assert forall|i: nat| #[trigger] self.live(i) == (t0.live(i) && !t0.in_hsub(c, i)) by {
                assert(t2.live(i) == t1.live(i));
                if t0.movable(c) && t0.live(i) {
                    assert(t1.in_hsub(c, i) == t0.in_hsub(c, i));
                }
            }
            assert forall|i: nat| #[trigger] self.live(i) implies self.node(i) == unlinked_node(t0, c, i) && self.kids(i) == cut_kids(t0, c)[i] by {
                assert(t2.keeps(t1, i));
                if t0.movable(c) {
                    assert(t0.live(i));
                    assert(!t0.in_hsub(c, i));
                } else {
                    assert(t0.parent_of(c) is None);
                    assert(t0.node(c).prev_sibling is None && t0.node(c).next_sibling is None);
                }
            }
            assert forall|i: nat| #[trigger] t0.gone(c, i) == t2.gone(c, i) by {
                assert(listed(list@, i) <==> t2.gone(c, i));
            }
            assert forall|i: nat| #[trigger] self.shadow_info(i) == if t0.gone(c, i) { None } else { t0.shadow_info(i) } by {
                assert(t2.shadow_info(i) == t1.shadow_info(i));
                assert(t0.gone(c, i) == t2.gone(c, i));
            }
            assert forall|h: nat| #[trigger] self.hosted(h) == if t0.gone(c, h) || (t0.hosted(h) is Some && t0.gone(c, t0.hosted(h)->Some_0)) { None } else { t0.hosted(h) } by {
                assert(t2.hosted(h) == t1.hosted(h));
                assert(t0.gone(c, h) == t2.gone(c, h));
                if t0.hosted(h) is Some {
                    assert(t0.gone(c, t0.hosted(h)->Some_0) == t2.gone(c, t0.hosted(h)->Some_0));
                }
            }
            assert(t1.listed_ids(list@, list@.len() as int) =~= t0.removed_ids(c)) by {
                assert forall|k: Seq<char>| t1.listed_ids(list@, list@.len() as int).contains(k) == t0.removed_ids(c).contains(k) by {
                    if t1.listed_ids(list@, list@.len() as int).contains(k) {
                        let j = choose|j: int| 0 <= j < list@.len() && t1.live(list@[j].id()) && #[trigger] t1.node(list@[j].id()).attribute("id"@) == Some(k);
                        let y = list@[j].id();
                        assert(listed(list@, y));
                        assert(t0.gone(c, y));
                        assert(t1.node(y).data == t0.node(y).data);
                        assert(t0.node(y).attribute("id"@) == Some(k));
                    }
                    if t0.removed_ids(c).contains(k) {
                        let y = choose|y: nat| #[trigger] t0.gone(c, y) && t0.node(y).attribute("id"@) == Some(k);
                        assert(listed(list@, y));
                        let j = choose|j: int| 0 <= j < list@.len() && #[trigger] list@[j].id() == y;
                        assert(t1.node(y).data == t0.node(y).data);
                        assert(t1.node(list@[j].id()).attribute("id"@) == Some(k));
                    }
                }
            }
        }
    }
}

} // verus!
