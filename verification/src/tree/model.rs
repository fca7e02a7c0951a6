//! The abstract view of a `DomTree` and its well-formedness predicate.
use vstd::prelude::*;

use super::{Attribute, DomTree, Node, NodeData, NodeId, ShadowRoot};

verus! {

pub open spec fn opt_id(o: Option<NodeId>) -> Option<nat> {
    match o {
        Some(x) => Some(x.0 as nat),
        None => None,
    }
}

pub open spec fn first_of(s: Seq<nat>) -> Option<nat> {
    if s.len() > 0 {
        Some(s[0])
    } else {
        None
    }
}

pub open spec fn last_of(s: Seq<nat>) -> Option<nat> {
    if s.len() > 0 {
        Some(s.last())
    } else {
        None
    }
}

pub open spec fn prev_in(s: Seq<nat>, j: int) -> Option<nat> {
    if j > 0 {
        Some(s[j - 1])
    } else {
        None
    }
}

pub open spec fn next_in(s: Seq<nat>, j: int) -> Option<nat> {
    if j + 1 < s.len() {
        Some(s[j + 1])
    } else {
        None
    }
}

/// Node ids of a sequence of arena indices.
pub open spec fn ids_of(s: Seq<nat>) -> Seq<NodeId> {
    s.map_values(|i: nat| NodeId(i as u32))
}

/// `s` with its occurrence of `x` taken out.
pub open spec fn without(s: Seq<nat>, x: nat) -> Seq<nat> {
    if s.contains(x) {
        s.remove(s.index_of(x))
    } else {
        s
    }
}

/// Value of the first attribute whose local name is `id`.
pub open spec fn first_id_value(attrs: Seq<Attribute>) -> Option<Seq<char>>
    decreases attrs.len(),
{
    if attrs.len() == 0 {
        None
    } else if attrs[0].name.local@ == "id"@ {
        Some(attrs[0].value@)
    } else {
        first_id_value(attrs.drop_first())
    }
}

/// The id an element carries when it is created, if any.
pub open spec fn data_id_value(d: NodeData) -> Option<Seq<char>> {
    match d {
        NodeData::Element { attrs, .. } => first_id_value(attrs@),
        _ => None,
    }
}

impl DomTree {
    /// Number of arena slots, live or free.
    pub open(crate) spec fn slots(&self) -> nat {
        self.nodes@.len()
    }

    pub open(crate) spec fn live(&self, i: nat) -> bool {
        i < self.nodes@.len() && self.nodes@[i as int] is Some
    }

    pub open(crate) spec fn node(&self, i: nat) -> Node {
        self.nodes@[i as int]->Some_0
    }

    /// Ordered children of live node `i`.
    pub open(crate) spec fn kids(&self, i: nat) -> Seq<nat> {
        self.kids@[i]
    }

    /// Host-including ancestors of live node `i`, nearest first.
    pub open(crate) spec fn anc(&self, i: nat) -> Seq<nat> {
        self.anc@[i]
    }

    pub open(crate) spec fn doc(&self) -> nat {
        self.document.0 as nat
    }

    pub open(crate) spec fn shadow_info(&self, r: nat) -> Option<ShadowRoot> {
        if r < self.root_info@.len() {
            self.root_info@[r as int]
        } else {
            None
        }
    }

    pub open(crate) spec fn hosted(&self, h: nat) -> Option<nat> {
        if h < self.hosted_root@.len() {
            opt_id(self.hosted_root@[h as int])
        } else {
            None
        }
    }

    pub open(crate) spec fn quirks_flag(&self) -> bool {
        self.quirks
    }

    pub open(crate) spec fn declarative_flag(&self) -> bool {
        self.allow_declarative_shadow_roots
    }

    /// The id index as a map from id text to node.
    pub open(crate) spec fn id_map(&self) -> Map<Seq<char>, NodeId> {
        Map::new(
            |k: Seq<char>| exists|j: int| 0 <= j < self.id_index@.len() && self.id_index@[j].0@ == k,
            |k: Seq<char>|
                self.id_index@[choose|j: int|
                    0 <= j < self.id_index@.len() && self.id_index@[j].0@ == k].1,
        )
    }

    pub open spec fn parent_of(&self, i: nat) -> Option<nat> {
        opt_id(self.node(i).parent)
    }

    pub open spec fn is_shadow_root_node(&self, i: nat) -> bool {
        self.shadow_info(i) is Some
    }

    /// Ordinary parent, or the host for a shadow root.
    pub open spec fn hparent(&self, i: nat) -> Option<nat> {
        match self.parent_of(i) {
            Some(p) => Some(p),
            None => match self.shadow_info(i) {
                Some(info) => Some(info.host.0 as nat),
                None => None,
            },
        }
    }

    /// The topmost node reached by following parents and shadow-root hosts.
    pub open spec fn sroot(&self, i: nat) -> nat {
        if self.anc(i).len() == 0 {
            i
        } else {
            self.anc(i).last()
        }
    }

    /// `y` lies in the shadow-including inclusive subtree of `c`.
    pub open spec fn in_hsub(&self, c: nat, y: nat) -> bool {
        y == c || self.anc(y).contains(c)
    }

    pub open spec fn is_element(&self, i: nat) -> bool {
        self.node(i).data is Element
    }

    pub open spec fn is_text(&self, i: nat) -> bool {
        self.node(i).data is Text
    }

    pub open(crate) spec fn kid_ok(&self, p: nat, j: int) -> bool {
        let c = self.kids(p)[j];
        &&& self.live(c)
        &&& self.parent_of(c) == Some(p)
        &&& opt_id(self.node(c).prev_sibling) == prev_in(self.kids(p), j)
        &&& opt_id(self.node(c).next_sibling) == next_in(self.kids(p), j)
    }

    pub open(crate) spec fn kids_ok(&self, p: nat) -> bool {
        &&& self.kids@.dom().contains(p)
        &&& self.kids(p).no_duplicates()
        &&& opt_id(self.node(p).first_child) == first_of(self.kids(p))
        &&& opt_id(self.node(p).last_child) == last_of(self.kids(p))
        &&& forall|j: int| 0 <= j < self.kids(p).len() ==> #[trigger] self.kid_ok(p, j)
    }

    pub open(crate) spec fn parent_ok(&self, c: nat) -> bool {
        match self.parent_of(c) {
            Some(p) => self.live(p) && self.kids(p).contains(c),
            None => self.node(c).prev_sibling is None && self.node(c).next_sibling is None,
        }
    }

    pub open(crate) spec fn shadow_ok(&self, r: nat) -> bool {
        let info = self.shadow_info(r)->Some_0;
        let h = info.host.0 as nat;
        &&& self.live(r)
        &&& info.id.0 == r
        &&& self.live(h)
        &&& self.is_element(h)
        &&& self.hosted(h) == Some(r)
        &&& self.parent_of(r) is None
        &&& r != self.doc()
    }

    pub open(crate) spec fn host_ok(&self, h: nat) -> bool {
        let r = self.hosted(h)->Some_0;
        &&& self.shadow_info(r) is Some
        &&& self.shadow_info(r)->Some_0.host.0 == h
    }

    pub open(crate) spec fn anc_ok(&self, i: nat) -> bool {
        &&& self.anc@.dom().contains(i)
        &&& match self.hparent(i) {
            None => self.anc(i) == Seq::<nat>::empty(),
            Some(p) => self.anc(i) == seq![p] + self.anc(p),
        }
    }

    pub open(crate) spec fn conn_ok(&self, i: nat) -> bool {
        self.node(i).connected == (self.sroot(i) == self.doc())
    }

    #[verifier::opaque]
    pub open(crate) spec fn wf_arena(&self) -> bool {
        &&& self.nodes@.len() == self.root_info@.len()
        &&& self.nodes@.len() == self.hosted_root@.len()
        &&& self.nodes@.len() <= 0x1_0000_0000
        &&& forall|i: nat| #[trigger] self.live(i) ==> self.node(i).id.0 == i
        &&& forall|k: int|
            0 <= k < self.free_list@.len() ==> (#[trigger] self.free_list@[k] as nat)
                < self.nodes@.len() && !self.live(self.free_list@[k] as nat)
        &&& self.free_list@.no_duplicates()
    }

    #[verifier::opaque]
    pub open(crate) spec fn wf_links(&self) -> bool {
        &&& forall|p: nat| #[trigger] self.live(p) ==> self.kids_ok(p)
        &&& forall|c: nat| #[trigger] self.live(c) ==> self.parent_ok(c)
    }

    #[verifier::opaque]
    pub open(crate) spec fn wf_shadow(&self) -> bool {
        &&& forall|r: nat| #[trigger] self.shadow_info(r) is Some ==> self.shadow_ok(r)
        &&& forall|h: nat| #[trigger] self.hosted(h) is Some ==> self.host_ok(h)
    }

    pub open(crate) spec fn wf_doc(&self) -> bool {
        &&& self.live(self.doc())
        &&& self.parent_of(self.doc()) is None
        &&& self.shadow_info(self.doc()) is None
    }

    #[verifier::opaque]
    pub open(crate) spec fn wf_anc(&self) -> bool {
        forall|i: nat| #[trigger] self.live(i) ==> self.anc_ok(i)
    }

    #[verifier::opaque]
    pub open(crate) spec fn wf_ids(&self) -> bool {
        forall|a: int, b: int|
            0 <= a < self.id_index@.len() && 0 <= b < self.id_index@.len() && a != b
                ==> #[trigger] self.id_index@[a].0@ != #[trigger] self.id_index@[b].0@
    }

    #[verifier::opaque]
    pub open(crate) spec fn wf_conn(&self) -> bool {
        forall|i: nat| #[trigger] self.live(i) ==> self.conn_ok(i)
    }

    /// Every structural invariant except the connectivity bits.
    pub open(crate) spec fn wf_struct(&self) -> bool {
        &&& self.wf_arena()
        &&& self.wf_links()
        &&& self.wf_shadow()
        &&& self.wf_doc()
        &&& self.wf_anc()
        &&& self.wf_ids()
    }

    /// The tree is well formed: links agree with the child lists, the
    /// host-including parent relation is acyclic, shadow registries agree in
    /// both directions, and each `connected` bit says whether the node's
    /// shadow-including root is the document.
    pub open(crate) spec fn wf(&self) -> bool {
        self.wf_struct() && self.wf_conn()
    }

    /// Number of freed slots waiting for reuse.
    pub open(crate) spec fn free_count(&self) -> nat {
        self.free_list@.len()
    }

    /// The slot the next new node takes: the most recently freed slot, or a
    /// new one past the end of the arena.
    pub open(crate) spec fn next_slot(&self) -> nat {
        if self.free_list@.len() > 0 {
            self.free_list@.last() as nat
        } else {
            self.nodes@.len()
        }
    }

    /// Ordinary (light-tree) ancestors reached within `fuel` parent steps.
    pub open(crate) spec fn lanc_fuel(&self, i: nat, fuel: nat) -> Seq<nat>
        decreases fuel,
    {
        if fuel == 0 {
            Seq::empty()
        } else {
            match self.parent_of(i) {
                None => Seq::empty(),
                Some(p) => seq![p] + self.lanc_fuel(p, (fuel - 1) as nat),
            }
        }
    }

    /// Ordinary ancestors of live node `i`, nearest first; a shadow root ends
    /// the chain.
    pub open(crate) spec fn light_anc(&self, i: nat) -> Seq<nat> {
        self.lanc_fuel(i, self.anc(i).len())
    }

    /// The root of `i`'s own tree scope: its document, detached subtree root
    /// or shadow root.
    pub open(crate) spec fn scope_root(&self, i: nat) -> nat {
        if self.light_anc(i).len() == 0 {
            i
        } else {
            self.light_anc(i).last()
        }
    }

    /// `self` differs from `old` at most in the `connected` bits.
    pub open(crate) spec fn same_but_conn(&self, old: DomTree) -> bool {
        &&& self.nodes@.len() == old.nodes@.len()
        &&& forall|i: int|
            0 <= i < self.nodes@.len() ==> (#[trigger] self.nodes@[i] is Some) == (
            old.nodes@[i] is Some)
        &&& forall|i: nat|
            #[trigger] old.live(i) ==> self.node(i) == (Node {
                connected: self.node(i).connected,
                ..old.node(i)
            })
        &&& self.free_list@ == old.free_list@
        &&& self.document == old.document
        &&& self.id_index@ == old.id_index@
        &&& self.root_info@ == old.root_info@
        &&& self.hosted_root@ == old.hosted_root@
        &&& self.kids@ == old.kids@
        &&& self.anc@ == old.anc@
        &&& self.quirks == old.quirks
        &&& self.allow_declarative_shadow_roots == old.allow_declarative_shadow_roots
    }

    /// The `connected` bit of every node in the shadow-including subtree of
    /// `c` is `v`; every other node keeps its bit from `old`.
    pub open(crate) spec fn conn_set(&self, old: DomTree, c: nat, v: bool) -> bool {
        &&& self.same_but_conn(old)
        &&& forall|i: nat|
            #[trigger] old.live(i) ==> self.node(i).connected == if old.in_hsub(c, i) {
                v
            } else {
                old.node(i).connected
            }
    }

    /// A node may be created without running out of 32-bit ids.
    pub open(crate) spec fn can_alloc(&self) -> bool {
        self.free_list@.len() > 0 || self.nodes@.len() < 0x1_0000_0000
    }

    /// Live node `i` of `old` is still live here with the same fields,
    /// children and ancestors.
    pub open(crate) spec fn keeps(&self, old: DomTree, i: nat) -> bool {
        old.live(i) ==> {
            &&& self.live(i)
            &&& self.node(i) == old.node(i)
            &&& self.kids(i) == old.kids(i)
            &&& self.anc(i) == old.anc(i)
        }
    }

    /// Shadow registries, document and flags agree with `old`.
    pub open(crate) spec fn same_registry(&self, old: DomTree) -> bool {
        &&& self.doc() == old.doc()
        &&& forall|r: nat| #[trigger] self.shadow_info(r) == old.shadow_info(r)
        &&& forall|h: nat| #[trigger] self.hosted(h) == old.hosted(h)
        &&& self.quirks_flag() == old.quirks_flag()
        &&& self.declarative_flag() == old.declarative_flag()
    }
}

} // verus!
