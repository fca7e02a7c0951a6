//! Construction and node allocation.
use vstd::prelude::*;

use super::{Attribute, DomTree, Node, NodeData, NodeId, ShadowRoot};
use super::model::{data_id_value, first_id_value};
use crate::strutil::str_eq;

verus! {

impl DomTree {
    pub fn new() -> (t: DomTree)
        ensures
            t.wf(),
            t.slots() == 1,
            t.doc() == 0,
            t.live(0),
            t.node(0).data is Document,
            t.node(0).connected,
            t.kids(0) == Seq::<nat>::empty(),
            !t.quirks_flag(),
            !t.declarative_flag(),
            t.id_map() == Map::<Seq<char>, NodeId>::empty(),
    {
        let doc_node = Node {
            id: NodeId(0),
            connected: true,
            parent: None,
            first_child: None,
            last_child: None,
            prev_sibling: None,
            next_sibling: None,
            data: NodeData::Document,
        };
        let mut nodes: Vec<Option<Node>> = Vec::new();
        nodes.push(Some(doc_node));
        let mut root_info: Vec<Option<ShadowRoot>> = Vec::new();
        root_info.push(None);
        let mut hosted_root: Vec<Option<NodeId>> = Vec::new();
        hosted_root.push(None);
        let t = DomTree {
            nodes,
            free_list: Vec::new(),
            document: NodeId(0),
            id_index: Vec::new(),
            root_info,
            hosted_root,
            allow_declarative_shadow_roots: false,
            quirks: false,
            kids: Ghost(Map::empty().insert(0nat, Seq::empty())),
            anc: Ghost(Map::empty().insert(0nat, Seq::empty())),
        };
        proof {
            reveal(DomTree::wf_arena);
            reveal(DomTree::wf_links);
            reveal(DomTree::wf_shadow);
            reveal(DomTree::wf_anc);
            reveal(DomTree::wf_ids);
            reveal(DomTree::wf_conn);
            assert forall|p: nat| #[trigger] t.live(p) implies t.kids_ok(p) by {
                assert(p == 0);
            }
            assert forall|p: nat| #[trigger] t.live(p) implies t.parent_ok(p) by {
                assert(p == 0);
            }
            assert forall|p: nat| #[trigger] t.live(p) implies t.anc_ok(p) by {
                assert(p == 0);
            }
            assert forall|p: nat| #[trigger] t.live(p) implies t.conn_ok(p) by {
                assert(p == 0);
            }
            assert forall|r: nat| #[trigger] t.shadow_info(r) is Some implies t.shadow_ok(r) by {
            }
            assert forall|r: nat| #[trigger] t.hosted(r) is Some implies t.host_ok(r) by {
            }
            assert(t.id_map() =~= Map::<Seq<char>, NodeId>::empty());
        }
        t
    }

    /// Value of the first `id` attribute of a new element, copied.
    fn creation_id(data: &NodeData) -> (r: Option<String>)
        ensures
            match r {
                Some(v) => data_id_value(*data) == Some(v@),
                None => data_id_value(*data) is None,
            },
    {
        match data {
            NodeData::Element { attrs, .. } => {
                let mut i: usize = 0;
                proof {
                    assert(attrs@.skip(0) =~= attrs@);
                }
                while i < attrs.len()
                    invariant
                        0 <= i <= attrs@.len(),
                        first_id_value(attrs@) == first_id_value(attrs@.skip(i as int)),
                        data_id_value(*data) == first_id_value(attrs@),
                    decreases attrs@.len() - i,
                {
                    proof {
                        assert(attrs@.skip(i as int).drop_first() =~= attrs@.skip(i + 1));
                    }
                    if str_eq(attrs[i].name.local.as_str(), "id") {
                        let v = attrs[i].value.clone();
                        proof {
                            assert(v@ == attrs@[i as int].value@);
                            assert(attrs@.skip(i as int)[0] == attrs@[i as int]);
                            assert(first_id_value(attrs@.skip(i as int)) == Some(
                                attrs@[i as int].value@,
                            ));
                        }
                        return Some(v);
                    }
                    i = i + 1;
                }
                None
            },
            _ => None,
        }
    }

    /// Position of `key` in the id index.
    pub(crate) fn id_index_position(&self, key: &str) -> (r: Option<usize>)
        ensures
            match r {
                Some(j) => j < self.id_index@.len() && self.id_index@[j as int].0@ == key@,
                None => forall|j: int|
                    0 <= j < self.id_index@.len() ==> self.id_index@[j].0@ != key@,
            },
    {
        let mut j: usize = 0;
        while j < self.id_index.len()
            invariant
                j <= self.id_index@.len(),
                forall|k: int| 0 <= k < j ==> self.id_index@[k].0@ != key@,
            decreases self.id_index@.len() - j,
        {
            if str_eq(self.id_index[j].0.as_str(), key) {
                return Some(j);
            }
            j = j + 1;
        }
        None
    }

    pub(crate) proof fn lemma_id_map_lookup(&self, j: int)
        requires
            self.wf_ids(),
            0 <= j < self.id_index@.len(),
        ensures
            self.id_map().contains_key(self.id_index@[j].0@),
            self.id_map()[self.id_index@[j].0@] == self.id_index@[j].1,
    {
        reveal(DomTree::wf_ids);
        let k = self.id_index@[j].0@;
        let c = choose|i: int| 0 <= i < self.id_index@.len() && self.id_index@[i].0@ == k;
        assert(c == j);
    }

    /// Allocates a detached node holding `data`, reusing a freed slot when one
    /// exists. An element with an `id` attribute enters the id index unless
    /// that id is already indexed: the first element created with an id wins.
    pub fn new_node(&mut self, data: NodeData) -> (id: NodeId)
        requires
            old(self).wf(),
            old(self).can_alloc(),
        ensures
            final(self).wf(),
            !old(self).live(id.id()),
            final(self).live(id.id()),
            final(self).node(id.id()) == (Node {
                id,
                connected: false,
                parent: None,
                first_child: None,
                last_child: None,
                prev_sibling: None,
                next_sibling: None,
                data,
            }),
            final(self).kids(id.id()) == Seq::<nat>::empty(),
            final(self).anc(id.id()) == Seq::<nat>::empty(),
            id.id() == old(self).next_slot(),
            old(self).free_count() > 0 ==> final(self).slots() == old(self).slots(),
            old(self).free_count() == 0 ==> final(self).slots() == old(self).slots() + 1
                && id.id() == old(self).slots(),
            forall|i: nat| i != id.id() ==> final(self).live(i) == old(self).live(i),
            forall|i: nat| #[trigger] final(self).keeps(*old(self), i),
            final(self).same_registry(*old(self)),
            final(self).id_map() == match data_id_value(data) {
                Some(v) => if old(self).id_map().contains_key(v) {
                    old(self).id_map()
                } else {
                    old(self).id_map().insert(v, id)
                },
                None => old(self).id_map(),
            },
    {
        let ghost old_t = *self;
        proof {
            reveal(DomTree::wf_arena);
            reveal(DomTree::wf_links);
            reveal(DomTree::wf_shadow);
            reveal(DomTree::wf_anc);
            reveal(DomTree::wf_ids);
            reveal(DomTree::wf_conn);
        }
        let idx: u32 = if self.free_list.len() > 0 {
            let slot = self.free_list.pop().unwrap();
            proof {
                assert(old_t.free_list@[old_t.free_list@.len() - 1] == slot);
            }
            slot
        } else {
            let idx = self.nodes.len() as u32;
            self.nodes.push(None);
            self.root_info.push(None);
            self.hosted_root.push(None);
            idx
        };
        let id = NodeId(idx);
        let id_val = Self::creation_id(&data);
        if let Some(v) = id_val {
            match self.id_index_position(v.as_str()) {
                Some(_) => {},
                None => {
                    self.id_index.push((v, id));
                },
            }
        }
        let node = Node {
            id,
            connected: false,
            parent: None,
            first_child: None,
            last_child: None,
            prev_sibling: None,
            next_sibling: None,
            data,
        };
        self.nodes.set(idx as usize, Some(node));
        proof {
            let n = idx as nat;
            self.kids@ = self.kids@.insert(n, Seq::empty());
            self.anc@ = self.anc@.insert(n, Seq::empty());
        }
        proof {
            let n = idx as nat;
            assert forall|i: nat| i != n implies self.live(i) == old_t.live(i) by {}
            assert forall|i: nat| #[trigger] self.keeps(old_t, i) by {}
            assert(!old_t.live(n));
            assert forall|r: nat| #[trigger] self.shadow_info(r) == old_t.shadow_info(r) by {}
            assert forall|r: nat| #[trigger] self.hosted(r) == old_t.hosted(r) by {}
            assert(old_t.shadow_info(n) is None) by {
                if old_t.shadow_info(n) is Some {
                    assert(old_t.shadow_ok(n));
                }
            }
            assert(old_t.hosted(n) is None) by {
                if old_t.hosted(n) is Some {
                    assert(old_t.host_ok(n));
                    let r = old_t.hosted(n)->Some_0;
                    assert(old_t.shadow_ok(r));
                }
            }
            // arena
            assert forall|k: int| 0 <= k < self.free_list@.len() implies (
            #[trigger] self.free_list@[k] as nat) < self.nodes@.len() && !self.live(
                self.free_list@[k] as nat,
            ) by {
                assert(self.free_list@[k] == old_t.free_list@[k]);
                if old_t.free_list@.len() > 0 {
                    assert(old_t.free_list@[k] != old_t.free_list@[old_t.free_list@.len() - 1]);
                }
            }
            assert(self.free_list@.no_duplicates());
            // links
            assert forall|p: nat| #[trigger] self.live(p) implies self.kids_ok(p) by {
                if p != n {
                    assert(old_t.live(p));
                    assert(old_t.kids_ok(p));
                    assert forall|j: int| 0 <= j < self.kids(p).len() implies #[trigger] self.kid_ok(
                        p,
                        j,
                    ) by {
                        assert(old_t.kid_ok(p, j));
                    }
                }
            }
            assert forall|c: nat| #[trigger] self.live(c) implies self.parent_ok(c) by {
                if c != n {
                    assert(old_t.live(c));
                    assert(old_t.parent_ok(c));
                }
            }
            assert forall|r: nat| #[trigger] self.shadow_info(r) is Some implies self.shadow_ok(
                r,
            ) by {
                assert(old_t.shadow_ok(r));
            }
            assert forall|h: nat| #[trigger] self.hosted(h) is Some implies self.host_ok(h) by {
                assert(old_t.host_ok(h));
            }
            assert forall|i: nat| #[trigger] self.live(i) implies self.anc_ok(i) by {
                if i != n {
                    assert(old_t.live(i));
                    assert(old_t.anc_ok(i));
                    old_t.lemma_hparent_live(i);
                }
            }
            assert forall|i: nat| #[trigger] self.live(i) implies self.conn_ok(i) by {
                if i != n {
                    assert(old_t.live(i));
                    assert(old_t.conn_ok(i));
                }
            }
            assert(self.wf_ids()) by {
                if self.id_index@.len() > old_t.id_index@.len() {
                    assert forall|a: int, b: int|
                        0 <= a < self.id_index@.len() && 0 <= b < self.id_index@.len() && a
                            != b implies #[trigger] self.id_index@[a].0@
                        != #[trigger] self.id_index@[b].0@ by {
                        if a < old_t.id_index@.len() && b < old_t.id_index@.len() {
                            assert(old_t.id_index@[a] == self.id_index@[a]);
                            assert(old_t.id_index@[b] == self.id_index@[b]);
                        } else if a < old_t.id_index@.len() {
                            assert(old_t.id_index@[a] == self.id_index@[a]);
                        } else {
                            assert(old_t.id_index@[b] == self.id_index@[b]);
                        }
                    }
                }
            }
            assert(self.nodes@.len() == self.root_info@.len());
            assert(self.nodes@.len() == self.hosted_root@.len());
            assert(self.nodes@.len() <= 0x1_0000_0000);
            assert forall|i: nat| #[trigger] self.live(i) implies self.node(i).id.0 == i by {
                if i != n {
                    assert(old_t.live(i));
                }
            }
            assert(self.wf_arena());
            assert(self.wf_links());
            assert(self.wf_shadow());
            assert(self.wf_doc());
            assert(self.wf_anc());
            assert(self.wf_conn());
            // id map
            match data_id_value(data) {
                Some(v) => {
                    if old_t.id_map().contains_key(v) {
                        assert(self.id_index@ == old_t.id_index@);
                        assert(self.id_map() =~= old_t.id_map());
                    } else {
                        let m = old_t.id_index@.len() as int;
                        assert(self.id_index@ == old_t.id_index@.push(self.id_index@[m]));
                        assert(self.id_map() =~= old_t.id_map().insert(v, id)) by {
                            assert forall|k: Seq<char>| #[trigger]
                                self.id_map().contains_key(k) == old_t.id_map().insert(
                                    v,
                                    id,
                                ).contains_key(k) by {
                                if k == v {
                                    assert(self.id_index@[m].0@ == k);
                                    assert(self.id_map().contains_key(k));
                                } else if self.id_map().contains_key(k) {
                                    let j = choose|j: int|
                                        0 <= j < self.id_index@.len() && self.id_index@[j].0@ == k;
                                    assert(j != m);
                                    assert(old_t.id_index@[j].0@ == k);
                                    assert(old_t.id_map().contains_key(k));
                                } else if old_t.id_map().contains_key(k) {
                                    let j = choose|j: int|
                                        0 <= j < old_t.id_index@.len() && old_t.id_index@[j].0@
                                            == k;
                                    assert(self.id_index@[j].0@ == k);
                                }
                            }
                            assert forall|k: Seq<char>| #[trigger]
                                self.id_map().contains_key(k) implies self.id_map()[k]
                                == old_t.id_map().insert(v, id)[k] by {
                                if k == v {
                                    self.lemma_id_map_lookup(m);
                                } else {
                                    let j = choose|j: int|
                                        0 <= j < self.id_index@.len() && self.id_index@[j].0@ == k;
                                    self.lemma_id_map_lookup(j);
                                    old_t.lemma_id_map_lookup(j);
                                }
                            }
                        }
                    }
                },
                None => {
                    assert(self.id_index@ == old_t.id_index@);
                    assert(self.id_map() =~= old_t.id_map());
                },
            }
        }
        id
    }

    /// Everything but the id index agrees with `old`.
    pub open(crate) spec fn same_but_ids(&self, old: DomTree) -> bool {
        &&& self.nodes@ == old.nodes@
        &&& self.free_list@ == old.free_list@
        &&& self.document == old.document
        &&& self.root_info@ == old.root_info@
        &&& self.hosted_root@ == old.hosted_root@
        &&& self.kids@ == old.kids@
        &&& self.anc@ == old.anc@
        &&& self.quirks == old.quirks
        &&& self.allow_declarative_shadow_roots == old.allow_declarative_shadow_roots
    }

    /// A tree that differs only in a well-formed id index is well formed.
    pub(crate) proof fn lemma_same_but_ids(&self, old: DomTree)
        requires
            old.wf(),
            self.same_but_ids(old),
            self.wf_ids(),
        ensures
            self.wf(),
            forall|i: nat| #[trigger] self.keeps(old, i),
            forall|i: nat| #[trigger] self.live(i) == old.live(i),
            self.same_registry(old),
    {
        reveal(DomTree::wf_arena);
        reveal(DomTree::wf_links);
        reveal(DomTree::wf_shadow);
        reveal(DomTree::wf_anc);
        reveal(DomTree::wf_conn);
        assert forall|p: nat| #[trigger] self.live(p) implies self.kids_ok(p) by {
            assert(old.live(p));
            assert(old.kids_ok(p));
            assert forall|j: int| 0 <= j < self.kids(p).len() implies #[trigger] self.kid_ok(p, j) by {
                assert(old.kid_ok(p, j));
            }
        }
        assert forall|p: nat| #[trigger] self.live(p) implies self.parent_ok(p) by {
            assert(old.live(p));
            assert(old.parent_ok(p));
        }
        assert forall|p: nat| #[trigger] self.live(p) implies self.anc_ok(p) by {
            assert(old.live(p));
            assert(old.anc_ok(p));
        }
        assert forall|p: nat| #[trigger] self.live(p) implies self.conn_ok(p) by {
            assert(old.live(p));
            assert(old.conn_ok(p));
        }
        assert forall|r: nat| #[trigger] self.shadow_info(r) is Some implies self.shadow_ok(r) by {
            assert(old.shadow_ok(r));
        }
        assert forall|r: nat| #[trigger] self.hosted(r) is Some implies self.host_ok(r) by {
            assert(old.host_ok(r));
        }
        assert forall|i: nat| #[trigger] self.live(i) implies self.node(i).id.0 == i by {
            assert(old.live(i));
        }
        assert forall|r: nat| #[trigger] self.shadow_info(r) == old.shadow_info(r) by {}
        assert forall|r: nat| #[trigger] self.hosted(r) == old.hosted(r) by {}
    }

    /// Drops `key` from the id index.
    pub(crate) fn id_index_remove(&mut self, key: &str)
        requires
            old(self).wf(),
        ensures
            final(self).wf(),
            final(self).same_but_ids(*old(self)),
            final(self).id_map() == old(self).id_map().remove(key@),
    {
        let ghost t = *self;
        match self.id_index_position(key) {
            Some(j) => {
                self.id_index.remove(j);
                proof {
                    reveal(DomTree::wf_ids);
                    let s0 = t.id_index@;
                    let s1 = self.id_index@;
                    assert forall|a: int, b: int|
                        0 <= a < s1.len() && 0 <= b < s1.len() && a != b implies #[trigger] s1[a].0@
                        != #[trigger] s1[b].0@ by {
                        let aa = if a < j { a } else { a + 1 };
                        let bb = if b < j { b } else { b + 1 };
                        assert(s1[a] == s0[aa] && s1[b] == s0[bb]);
                    }
                    assert forall|k: Seq<char>| #[trigger] self.id_map().contains_key(k) == t.id_map().remove(key@).contains_key(k) by {
                        if self.id_map().contains_key(k) {
                            let a = choose|a: int| 0 <= a < s1.len() && s1[a].0@ == k;
                            let aa = if a < j { a } else { a + 1 };
                            assert(s1[a] == s0[aa]);
                        }
                        if t.id_map().contains_key(k) && k != key@ {
                            let a = choose|a: int| 0 <= a < s0.len() && s0[a].0@ == k;
                            assert(a != j);
                            let a2 = if a < j { a } else { a - 1 };
                            assert(s1[a2] == s0[a]);
                        }
                    }
                    assert forall|k: Seq<char>| #[trigger] self.id_map().contains_key(k) implies self.id_map()[k] == t.id_map().remove(key@)[k] by {
                        let a = choose|a: int| 0 <= a < s1.len() && s1[a].0@ == k;
                        let aa = if a < j { a } else { a + 1 };
                        assert(s1[a] == s0[aa]);
                        self.lemma_id_map_lookup(a);
                        t.lemma_id_map_lookup(aa);
                    }
                    assert(self.id_map() =~= t.id_map().remove(key@));
                    self.lemma_same_but_ids(t);
                }
            },
            None => {
                proof {
                    assert forall|k: Seq<char>| #[trigger] t.id_map().contains_key(k) implies k != key@ by {}
                    assert(t.id_map().remove(key@) =~= t.id_map());
                }
            },
        }
    }

    /// Points `key` at `node` in the id index, replacing any entry.
    pub(crate) fn id_index_set(&mut self, key: &str, node: NodeId)
        requires
            old(self).wf(),
        ensures
            final(self).wf(),
            final(self).same_but_ids(*old(self)),
            final(self).id_map() == old(self).id_map().insert(key@, node),
    {
        let ghost t = *self;
        match self.id_index_position(key) {
            Some(j) => {
                let (k0, _) = self.id_index.remove(j);
                self.id_index.insert(j, (k0, node));
                proof {
                    reveal(DomTree::wf_ids);
                    let s0 = t.id_index@;
                    let s1 = self.id_index@;
                    assert(s1 =~= s0.update(j as int, (k0, node)));
                    assert forall|a: int, b: int|
                        0 <= a < s1.len() && 0 <= b < s1.len() && a != b implies #[trigger] s1[a].0@
                        != #[trigger] s1[b].0@ by {
                        assert(s1[a].0 == s0[a].0 && s1[b].0 == s0[b].0);
                    }
                    assert forall|k: Seq<char>| #[trigger] self.id_map().contains_key(k) == t.id_map().insert(key@, node).contains_key(k) by {
                        if self.id_map().contains_key(k) {
                            let a = choose|a: int| 0 <= a < s1.len() && s1[a].0@ == k;
                            assert(s1[a].0 == s0[a].0);
                        }
                        if t.id_map().contains_key(k) {
                            let a = choose|a: int| 0 <= a < s0.len() && s0[a].0@ == k;
                            assert(s1[a].0 == s0[a].0);
                        }
                        if k == key@ {
                            assert(s1[j as int].0@ == k);
                        }
                    }
                    assert forall|k: Seq<char>| #[trigger] self.id_map().contains_key(k) implies self.id_map()[k] == t.id_map().insert(key@, node)[k] by {
                        let a = choose|a: int| 0 <= a < s1.len() && s1[a].0@ == k;
                        assert(s1[a].0 == s0[a].0);
                        self.lemma_id_map_lookup(a);
                        if k != key@ {
                            t.lemma_id_map_lookup(a);
                        } else {
                            assert(a == j) by {
                                if a != j {
                                    assert(s1[j as int].0@ == key@);
                                }
                            }
                        }
                    }
                    assert(self.id_map() =~= t.id_map().insert(key@, node));
                    self.lemma_same_but_ids(t);
                }
            },
            None => {
                self.id_index.push((crate::strutil::owned(key), node));
                proof {
                    reveal(DomTree::wf_ids);
                    let s0 = t.id_index@;
                    let s1 = self.id_index@;
                    assert forall|a: int, b: int|
                        0 <= a < s1.len() && 0 <= b < s1.len() && a != b implies #[trigger] s1[a].0@
                        != #[trigger] s1[b].0@ by {
                        if a < s0.len() && b < s0.len() {
                            assert(s1[a] == s0[a] && s1[b] == s0[b]);
                        } else if a < s0.len() {
                            assert(s1[a] == s0[a]);
                        } else if b < s0.len() {
                            assert(s1[b] == s0[b]);
                        }
                    }
                    assert forall|k: Seq<char>| #[trigger] self.id_map().contains_key(k) == t.id_map().insert(key@, node).contains_key(k) by {
                        if self.id_map().contains_key(k) {
                            let a = choose|a: int| 0 <= a < s1.len() && s1[a].0@ == k;
                            if a < s0.len() {
                                assert(s1[a] == s0[a]);
                            }
                        }
                        if t.id_map().contains_key(k) {
                            let a = choose|a: int| 0 <= a < s0.len() && s0[a].0@ == k;
                            assert(s1[a] == s0[a]);
                        }
                        if k == key@ {
                            assert(s1[s0.len() as int].0@ == k);
                        }
                    }
                    assert forall|k: Seq<char>| #[trigger] self.id_map().contains_key(k) implies self.id_map()[k] == t.id_map().insert(key@, node)[k] by {
                        let a = choose|a: int| 0 <= a < s1.len() && s1[a].0@ == k;
                        self.lemma_id_map_lookup(a);
                        if a < s0.len() {
                            assert(s1[a] == s0[a]);
                            t.lemma_id_map_lookup(a);
                        }
                    }
                    assert(self.id_map() =~= t.id_map().insert(key@, node));
                    self.lemma_same_but_ids(t);
                }
            },
        }
    }

    /// Keeps the id index in step with an element's `id` attribute: drops
    /// the old value's entry and points the new value at `node_id`.
    pub fn update_id_index(&mut self, node_id: NodeId, old_id: Option<&str>, new_id: Option<&str>)
        requires
            old(self).wf(),
        ensures
            final(self).wf(),
            final(self).same_but_ids(*old(self)),
            final(self).id_map() == match new_id {
                Some(n) => (match old_id {
                    Some(o) => old(self).id_map().remove(o@),
                    None => old(self).id_map(),
                }).insert(n@, node_id),
                None => match old_id {
                    Some(o) => old(self).id_map().remove(o@),
                    None => old(self).id_map(),
                },
            },
    {
        match old_id {
            Some(o) => {
                self.id_index_remove(o);
            },
            None => {},
        }
        match new_id {
            Some(n) => {
                self.id_index_set(n, node_id);
            },
            None => {},
        }
    }
}

impl Default for DomTree {
    /// A tree holding only its document node.
    fn default() -> (t: DomTree)
        ensures
            t.wf(),
            t.slots() == 1,
            t.doc() == 0,
            t.live(0),
            t.node(0).data is Document,
            t.kids(0) == Seq::<nat>::empty(),
            t.id_map() == Map::<Seq<char>, NodeId>::empty(),
    {
        DomTree::new()
    }
}

} // verus!
