//! Lookups by `id` attribute.
use vstd::prelude::*;

use super::{DomTree, NodeId};
use super::model::ids_of;
use super::walk::{descendants_of, lemma_descendants_fit};
use crate::strutil::{owned, str_eq};

verus! {

/// The first node of `s` whose `id` attribute is `id`.
pub open spec fn first_with_id(t: DomTree, s: Seq<nat>, id: Seq<char>) -> Option<nat>
    decreases s.len(),
{
    if s.len() == 0 {
        None
    } else if t.live(s[0]) && t.node(s[0]).attribute("id"@) == Some(id) {
        Some(s[0])
    } else {
        first_with_id(t, s.drop_first(), id)
    }
}

/// Some string of `ids` reads `key`.
pub open spec fn has_text(ids: Seq<String>, key: Seq<char>) -> bool {
    exists|j: int| 0 <= j < ids.len() && #[trigger] ids[j]@ == key
}

/// Some live node among `c` and the nodes of `s` has `id` value `key`.
pub open spec fn id_found(t: DomTree, c: nat, s: Seq<nat>, key: Seq<char>) -> bool {
    exists|y: nat|
        (y == c || s.contains(y)) && t.live(y) && #[trigger] t.node(y).attribute("id"@) == Some(
            key,
        )
}

impl DomTree {
    /// `n` is live and its tree scope is a shadow tree.
    pub open spec fn in_shadow_tree(&self, n: nat) -> bool {
        self.live(n) && self.is_shadow_root_node(self.scope_root(n))
    }

    /// `document.getElementById(id)`: the indexed node when it is not inside
    /// a shadow tree, otherwise the first light-tree descendant of the
    /// document, in document order, whose `id` attribute is `id`.
    pub open spec fn element_by_id(&self, id: Seq<char>) -> Option<nat> {
        if self.id_map().contains_key(id) && !self.in_shadow_tree(self.id_map()[id].id()) {
            Some(self.id_map()[id].id())
        } else {
            first_with_id(*self, descendants_of(*self, self.doc()), id)
        }
    }

    pub fn get_element_by_id(&self, id: &str) -> (r: Option<NodeId>)
        requires
            self.wf_struct(),
        ensures
            match r {
                Some(n) => self.element_by_id(id@) == Some(n.id()),
                None => self.element_by_id(id@) is None,
            },
    {
        match self.id_index_position(id) {
            Some(j) => {
                let node = self.id_index[j].1;
                proof {
                    self.lemma_id_map_lookup(j as int);
                }
                if self.containing_shadow_root(node).is_none() {
                    return Some(node);
                }
            },
            None => {
                proof {
                    assert(!self.id_map().contains_key(id@));
                }
            },
        }
        let all = self.descendants(self.document);
        let ghost s = descendants_of(*self, self.doc());
        proof {
            if self.id_map().contains_key(id@) {
                let x = self.id_map()[id@].id();
                assert(self.in_shadow_tree(x));
            }
            lemma_descendants_fit(*self, self.doc());
            assert(s.skip(0) =~= s);
        }
        let mut k: usize = 0;
        while k < all.len()
            invariant
                self.wf_struct(),
                self.element_by_id(id@) == first_with_id(*self, s, id@),
                all@ == ids_of(s),
                s == descendants_of(*self, self.doc()),
                forall|m: int| 0 <= m < s.len() ==> self.live(#[trigger] s[m]),
                k <= all@.len(),
                first_with_id(*self, s, id@) == first_with_id(*self, s.skip(k as int), id@),
            decreases all@.len() - k,
        {
            let n = all[k];
            proof {
                assert(self.live(s[k as int]));
                self.lemma_at(s[k as int]);
                assert(n.id() == s[k as int]);
                assert(s.skip(k as int).drop_first() =~= s.skip(k + 1));
                assert(s.skip(k as int)[0] == s[k as int]);
            }
            let found = match self.node_ref(n) {
                Some(nd) => match nd.get_attribute("id") {
                    Some(v) => str_eq(v, id),
                    None => false,
                },
                None => false,
            };
            if found {
                proof {
                    assert(first_with_id(*self, s.skip(k as int), id@) == Some(s[k as int]));
                }
                return Some(n);
            }
            k = k + 1;
        }
        proof {
            assert(s.skip(k as int).len() == 0);
        }
        None
    }

    /// `id` attribute values of `c` and its light-tree descendants.
    pub open spec fn light_ids(&self, c: nat) -> Set<Seq<char>> {
        Set::new(
            |k: Seq<char>|
                exists|y: nat|
                    (y == c || descendants_of(*self, c).contains(y)) && self.live(y) && #[trigger] self.node(
                        y,
                    ).attribute("id"@) == Some(k),
        )
    }

    /// Detaches `node_id` and drops the id-index entries of the `id` values
    /// found on it and its light-tree descendants, so that
    /// `get_element_by_id` no longer finds them through the index. The
    /// nodes themselves stay allocated.
    pub fn remove_child(&mut self, node_id: NodeId)
        requires
            old(self).wf(),
        ensures
            final(self).wf(),
            !old(self).movable(node_id.id()) ==> final(self).id_map() == old(self).id_map().remove_keys(
                old(self).light_ids(node_id.id()),
            ) && final(self).same_but_ids(*old(self)),
            old(self).movable(node_id.id()) ==> final(self).detached_from(
                *old(self),
                node_id.id(),
                true,
            ) && final(self).id_map() == old(self).id_map().remove_keys(
                old(self).light_ids(node_id.id()),
            ),
    {
        let ghost t0 = *self;
        let ghost c = node_id.id();
        let desc = self.descendants(node_id);
        let mut ids: Vec<String> = Vec::new();
        let ghost s = descendants_of(t0, c);
        proof {
            lemma_descendants_fit(t0, c);
        }
        match self.node_ref(node_id) {
            Some(nd) => match nd.get_attribute("id") {
                Some(v) => {
                    ids.push(owned(v));
                },
                None => {},
            },
            None => {},
        }
        let mut k: usize = 0;
        proof {
            assert(s.take(0) =~= Seq::<nat>::empty());
            assert forall|key: Seq<char>|
                #[trigger] has_text(ids@, key) <==> id_found(t0, c, s.take(0), key) by {
                if has_text(ids@, key) {
                    assert(ids@.len() == 1);
                    assert(ids@[0]@ == key);
                }
                if id_found(t0, c, s.take(0), key) {
                    let y = choose|y: nat|
                        (y == c || s.take(0).contains(y)) && t0.live(y) && #[trigger] t0.node(y).attribute(
                            "id"@,
                        ) == Some(key);
                    assert(y == c);
                    assert(ids@[0]@ == key);
                }
            }
        }
        while k < desc.len()
            invariant
                t0 == *self,
                t0.wf(),
                desc@ == ids_of(s),
                s == descendants_of(t0, c),
                forall|m: int| 0 <= m < s.len() ==> t0.live(#[trigger] s[m]),
                k <= desc@.len(),
                forall|key: Seq<char>|
                    #[trigger] has_text(ids@, key) <==> id_found(t0, c, s.take(k as int), key),
            decreases desc@.len() - k,
        {
            let n = desc[k];
            proof {
                assert(t0.live(s[k as int]));
                t0.lemma_at(s[k as int]);
                assert(n.id() == s[k as int]);
            }
            let ghost before = ids@;
            match self.node_ref(n) {
                Some(nd) => match nd.get_attribute("id") {
                    Some(v) => {
                        ids.push(owned(v));
                    },
                    None => {},
                },
                None => {},
            }
            proof {
                assert(s.take(k + 1) =~= s.take(k as int).push(s[k as int]));
                assert forall|key: Seq<char>|
                    #[trigger] has_text(ids@, key) <==> id_found(t0, c, s.take(k + 1), key) by {
                    if has_text(ids@, key) {
                        let j = choose|j: int| 0 <= j < ids@.len() && #[trigger] ids@[j]@ == key;
                        if j < before.len() {
                            assert(before[j]@ == key);
                            assert(has_text(before, key));
                            let y = choose|y: nat|
                                (y == c || s.take(k as int).contains(y)) && t0.live(y) && #[trigger] t0.node(
                                    y,
                                ).attribute("id"@) == Some(key);
                            if y != c {
                                let m = choose|m: int| 0 <= m < s.take(k as int).len() && #[trigger] s.take(k as int)[m] == y;
                                assert(s.take(k + 1)[m] == y);
                            }
                        } else {
                            assert(s.take(k + 1)[k as int] == s[k as int]);
                        }
                    }
                    if id_found(t0, c, s.take(k + 1), key) {
                        let y = choose|y: nat|
                            (y == c || s.take(k + 1).contains(y)) && t0.live(y) && #[trigger] t0.node(
                                y,
                            ).attribute("id"@) == Some(key);
                        if y == c || s.take(k as int).contains(y) {
                            assert(id_found(t0, c, s.take(k as int), key));
                            assert(has_text(before, key));
                            let j = choose|j: int| 0 <= j < before.len() && #[trigger] before[j]@ == key;
                            assert(ids@[j] == before[j]);
                        } else {
                            let m = choose|m: int| 0 <= m < s.take(k + 1).len() && #[trigger] s.take(k + 1)[m] == y;
                            if m < k {
                                assert(s.take(k as int)[m] == y);
                            }
                            assert(y == s[k as int]);
                            assert(ids@[ids@.len() - 1]@ == key);
                        }
                    }
                }
            }
            k = k + 1;
        }
        proof {
            assert(s.take(k as int) =~= s);
        }
        self.detach(node_id);
        let ghost t1 = *self;
        let mut i: usize = 0;
        proof {
            assert(t1.id_map() == t0.id_map()) by {
                if t0.movable(c) {
                } else {
                }
            }
            assert(t0.id_map().remove_keys(Set::<Seq<char>>::empty()) =~= t0.id_map());
        }
        while i < ids.len()
            invariant
                self.wf(),
                i <= ids@.len(),
                self.same_but_ids(t1),
                self.id_map() == t0.id_map().remove_keys(
                    Set::new(|key: Seq<char>| exists|j: int| 0 <= j < i && #[trigger] ids@[j]@ == key),
                ),
            decreases ids@.len() - i,
        {
            let ghost before = self.id_map();
            self.id_index_remove(ids[i].as_str());
            proof {
                let a = Set::new(|key: Seq<char>| exists|j: int| 0 <= j < i && #[trigger] ids@[j]@ == key);
                let b = Set::new(|key: Seq<char>| exists|j: int| 0 <= j < i + 1 && #[trigger] ids@[j]@ == key);
                assert(b =~= a.insert(ids@[i as int]@));
                assert(before.remove(ids@[i as int]@) =~= t0.id_map().remove_keys(b));
            }
            i = i + 1;
        }
        proof {
            let a = Set::new(|key: Seq<char>| exists|j: int| 0 <= j < i && #[trigger] ids@[j]@ == key);
            assert forall|key: Seq<char>| a.contains(key) == t0.light_ids(c).contains(key) by {
                assert(a.contains(key) == has_text(ids@, key));
                assert(has_text(ids@, key) == id_found(t0, c, s, key));
            }
            assert(a =~= t0.light_ids(c));
            if !t0.movable(c) {
                assert(t1 == t0);
            }
        }
    }
}

} // verus!
