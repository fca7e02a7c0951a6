//! HTML slot assignment over shadow trees.
use vstd::prelude::*;

use super::{DomTree, NodeData, NodeId};
use super::model::{ids_of, opt_id};
use super::walk::{descendants_of, lemma_descendants_fit};
use crate::strutil::{owned, str_eq};

verus! {

/// `n` is a live element named `slot` in the HTML namespace.
pub open spec fn is_html_slot(t: DomTree, n: nat) -> bool {
    t.live(n) && match t.node(n).data {
        NodeData::Element { name, .. } => name.ns@ == "http://www.w3.org/1999/xhtml"@
            && name.local@ == "slot"@,
        _ => false,
    }
}

/// The `name` attribute of a slot, empty when absent.
pub open spec fn slot_name(t: DomTree, n: nat) -> Seq<char> {
    match t.node(n).attribute("name"@) {
        Some(v) => v,
        None => Seq::empty(),
    }
}

/// The slot name a light child asks for: an element's `slot` attribute
/// (empty when absent), the empty name for a text node, and none for any
/// other kind of node.
pub open spec fn slot_key(t: DomTree, n: nat) -> Option<Seq<char>> {
    match t.node(n).data {
        NodeData::Element { .. } => Some(
            match t.node(n).attribute("slot"@) {
                Some(v) => v,
                None => Seq::empty(),
            },
        ),
        NodeData::Text { .. } => Some(Seq::empty()),
        _ => None,
    }
}

/// The first HTML slot of `s` whose name is `name`.
pub open spec fn first_slot_named(t: DomTree, s: Seq<nat>, name: Seq<char>) -> Option<nat>
    decreases s.len(),
{
    if s.len() == 0 {
        None
    } else if is_html_slot(t, s[0]) && slot_name(t, s[0]) == name {
        Some(s[0])
    } else {
        first_slot_named(t, s.drop_first(), name)
    }
}

/// An HTML slot named `name` comes in `s` before `slot` does.
pub open spec fn slot_before(t: DomTree, s: Seq<nat>, slot: nat, name: Seq<char>) -> bool
    decreases s.len(),
{
    if s.len() == 0 {
        false
    } else if s[0] == slot {
        false
    } else if is_html_slot(t, s[0]) && slot_name(t, s[0]) == name {
        true
    } else {
        slot_before(t, s.drop_first(), slot, name)
    }
}

/// The nodes of `s`, in order, whose slot key is `name`.
pub open spec fn keyed_by(t: DomTree, s: Seq<nat>, name: Seq<char>) -> Seq<nat>
    decreases s.len(),
{
    if s.len() == 0 {
        Seq::empty()
    } else {
        let r = keyed_by(t, s.drop_last(), name);
        if slot_key(t, s.last()) == Some(name) {
            r.push(s.last())
        } else {
            r
        }
    }
}

impl DomTree {
    /// The slot that light child `n` is assigned to: the first same-name
    /// HTML slot, in shadow-tree order, of its parent's shadow root.
    pub open spec fn slot_of(&self, n: nat) -> Option<nat> {
        if !self.live(n) {
            None
        } else {
            match (self.parent_of(n), slot_key(*self, n)) {
                (Some(p), Some(name)) => match self.hosted(p) {
                    Some(r) => first_slot_named(*self, descendants_of(*self, r), name),
                    None => None,
                },
                _ => None,
            }
        }
    }

    /// The light children of the host assigned to HTML slot `slot`; empty
    /// when an earlier slot of the same name wins; none when `slot` is not
    /// an HTML slot inside a shadow tree.
    pub open spec fn slot_assignment(&self, slot: nat) -> Option<Seq<nat>> {
        if !is_html_slot(*self, slot) || !self.is_shadow_root_node(self.scope_root(slot)) {
            None
        } else {
            let root = self.scope_root(slot);
            let name = slot_name(*self, slot);
            if slot_before(*self, descendants_of(*self, root), slot, name) {
                Some(Seq::empty())
            } else {
                Some(keyed_by(*self, self.kids(self.shadow_info(root)->Some_0.host.id()), name))
            }
        }
    }

    /// What a slot renders: its assigned nodes, or its own children when
    /// nothing is assigned.
    pub open spec fn slot_rendering(&self, slot: nat) -> Option<Seq<nat>> {
        match self.slot_assignment(slot) {
            Some(a) => Some(
                if a.len() == 0 {
                    self.kids(slot)
                } else {
                    a
                },
            ),
            None => None,
        }
    }

    pub fn is_html_slot_element(&self, node: NodeId) -> (r: bool)
        requires
            self.wf_struct(),
        ensures
            r == is_html_slot(*self, node.id()),
    {
        match self.node_ref(node) {
            Some(n) => match n.as_element() {
                Some(name) => str_eq(name.ns.as_str(), "http://www.w3.org/1999/xhtml") && str_eq(
                    name.local.as_str(),
                    "slot",
                ),
                None => false,
            },
            None => false,
        }
    }

    /// Whether live node `n` is an HTML slot named `name`.
    fn is_slot_named(&self, n: NodeId, name: &str) -> (r: bool)
        requires
            self.wf_struct(),
        ensures
            r == (is_html_slot(*self, n.id()) && slot_name(*self, n.id()) == name@),
    {
        if !self.is_html_slot_element(n) {
            return false;
        }
        match self.node_ref(n) {
            Some(nd) => match nd.get_attribute("name") {
                Some(v) => str_eq(v, name),
                None => {
                    proof {
                        reveal_strlit("");
                        assert(""@ =~= Seq::<char>::empty());
                    }
                    str_eq("", name)
                },
            },
            None => false,
        }
    }

    /// Whether live node `n` asks for the slot named `name`.
    fn has_slot_key(&self, n: NodeId, name: &str) -> (r: bool)
        requires
            self.wf_struct(),
            self.live(n.id()),
        ensures
            r == (slot_key(*self, n.id()) == Some(name@)),
    {
        proof {
            reveal_strlit("");
            assert(""@ =~= Seq::<char>::empty());
        }
        match self.node_ref(n) {
            Some(nd) => {
                if nd.is_element() {
                    match nd.get_attribute("slot") {
                        Some(v) => str_eq(v, name),
                        None => str_eq("", name),
                    }
                } else if nd.is_text() {
                    str_eq("", name)
                } else {
                    false
                }
            },
            None => false,
        }
    }

    /// The first HTML slot named `name` among the light descendants of `root`.
    fn first_slot_in(&self, root: NodeId, name: &str) -> (r: Option<NodeId>)
        requires
            self.wf_struct(),
        ensures
            opt_id(r) == first_slot_named(*self, descendants_of(*self, root.id()), name@),
    {
        let all = self.descendants(root);
        let ghost s = descendants_of(*self, root.id());
        proof {
            lemma_descendants_fit(*self, root.id());
            assert(s.skip(0) =~= s);
        }
        let mut k: usize = 0;
        while k < all.len()
            invariant
                self.wf_struct(),
                all@ == ids_of(s),
                s == descendants_of(*self, root.id()),
                forall|m: int| 0 <= m < s.len() ==> self.live(#[trigger] s[m]),
                k <= all@.len(),
                first_slot_named(*self, s, name@) == first_slot_named(
                    *self,
                    s.skip(k as int),
                    name@,
                ),
            decreases all@.len() - k,
        {
            let n = all[k];
            proof {
                assert(self.live(s[k as int]));
                self.lemma_at(s[k as int]);
                assert(n.id() == s[k as int]);
                assert(s.skip(k as int).drop_first() =~= s.skip(k + 1));
                assert(s.skip(k as int)[0] == s[k as int]);
            }
            if self.is_slot_named(n, name) {
                return Some(n);
            }
            k = k + 1;
        }
        proof {
            assert(s.skip(k as int).len() == 0);
        }
        None
    }

    /// Whether an HTML slot named `name` precedes `slot` among the light
    /// descendants of `root`.
    fn same_name_slot_before(&self, root: NodeId, slot: NodeId, name: &str) -> (r: bool)
        requires
            self.wf_struct(),
        ensures
            r == slot_before(*self, descendants_of(*self, root.id()), slot.id(), name@),
    {
        let all = self.descendants(root);
        let ghost s = descendants_of(*self, root.id());
        proof {
            lemma_descendants_fit(*self, root.id());
            assert(s.skip(0) =~= s);
        }
        let mut k: usize = 0;
        while k < all.len()
            invariant
                self.wf_struct(),
                all@ == ids_of(s),
                s == descendants_of(*self, root.id()),
                forall|m: int| 0 <= m < s.len() ==> self.live(#[trigger] s[m]),
                k <= all@.len(),
                slot_before(*self, s, slot.id(), name@) == slot_before(
                    *self,
                    s.skip(k as int),
                    slot.id(),
                    name@,
                ),
            decreases all@.len() - k,
        {
            let n = all[k];
            proof {
                assert(self.live(s[k as int]));
                self.lemma_at(s[k as int]);
                assert(n.id() == s[k as int]);
                assert(s.skip(k as int).drop_first() =~= s.skip(k + 1));
                assert(s.skip(k as int)[0] == s[k as int]);
            }
            if n.0 == slot.0 {
                return false;
            }
            if self.is_slot_named(n, name) {
                return true;
            }
            k = k + 1;
        }
        proof {
            assert(s.skip(k as int).len() == 0);
        }
        false
    }

    /// The first slot to which `node` is assigned: `node` must be a light
    /// child of a shadow host, and the first HTML slot of the host's shadow
    /// tree whose name equals the node's slot key wins.
    pub fn assigned_slot(&self, node: NodeId) -> (r: Option<NodeId>)
        requires
            self.wf_struct(),
        ensures
            opt_id(r) == self.slot_of(node.id()),
    {
        let nd = match self.node_ref(node) {
            Some(n) => n,
            None => {
                return None;
            },
        };
        let parent = match nd.parent {
            Some(p) => p,
            None => {
                return None;
            },
        };
        let name: String = if nd.is_element() {
            match nd.get_attribute("slot") {
                Some(v) => owned(v),
                None => String::new(),
            }
        } else if nd.is_text() {
            String::new()
        } else {
            return None;
        };
        let root = match self.shadow_root(parent) {
            Some(r) => r,
            None => {
                return None;
            },
        };
        self.first_slot_in(root, name.as_str())
    }

    /// Nodes directly assigned to an HTML slot. `None` when `slot` is not an
    /// HTML slot inside a shadow tree; empty when an earlier slot of the
    /// same name wins or no light child asks for this one.
    pub fn assigned_nodes(&self, slot: NodeId) -> (r: Option<Vec<NodeId>>)
        requires
            self.wf_struct(),
        ensures
            match self.slot_assignment(slot.id()) {
                Some(s) => r is Some && r->Some_0@ == ids_of(s),
                None => r is None,
            },
    {
        if !self.is_html_slot_element(slot) {
            return None;
        }
        let root = match self.containing_shadow_root(slot) {
            Some(r) => r,
            None => {
                return None;
            },
        };
        let host = match self.shadow_root_info(root) {
            Some(info) => info.host,
            None => {
                return None;
            },
        };
        let nd = match self.node_ref(slot) {
            Some(n) => n,
            None => {
                return None;
            },
        };
        proof {
            reveal_strlit("");
        }
        let name: &str = match nd.get_attribute("name") {
            Some(v) => v,
            None => "",
        };
        proof {
            assert(""@ =~= Seq::<char>::empty());
            assert(name@ == slot_name(*self, slot.id()));
            assert(root.id() == self.scope_root(slot.id()));
            assert(self.is_shadow_root_node(root.id()));
        }
        if self.same_name_slot_before(root, slot, name) {
            return Some(Vec::new());
        }
        let ghost h = host.id();
        proof {
            reveal(DomTree::wf_shadow);
            assert(self.shadow_ok(root.id()));
        }
        let kids = self.children(host);
        let ghost ks = self.kids(h);
        let mut out: Vec<NodeId> = Vec::new();
        let mut k: usize = 0;
        proof {
            self.lemma_at(h);
            assert(ks.take(0) =~= Seq::<nat>::empty());
            assert(ids_of(keyed_by(*self, ks.take(0), name@)) =~= Seq::<NodeId>::empty());
        }
        while k < kids.len()
            invariant
                self.wf_struct(),
                self.live(h),
                ks == self.kids(h),
                kids@ == ids_of(ks),
                k <= kids@.len(),
                out@ == ids_of(keyed_by(*self, ks.take(k as int), name@)),
            decreases kids@.len() - k,
        {
            let c = kids[k];
            proof {
                self.lemma_kid_at(h, k as int);
                self.lemma_at(ks[k as int]);
                assert(c.id() == ks[k as int]);
                assert(ks.take(k + 1).drop_last() =~= ks.take(k as int));
                assert(ks.take(k + 1).last() == ks[k as int]);
            }
            if self.has_slot_key(c, name) {
                out.push(c);
                proof {
                    assert(out@ =~= ids_of(keyed_by(*self, ks.take(k + 1), name@)));
                }
            }
            k = k + 1;
        }
        proof {
            assert(ks.take(k as int) =~= ks);
        }
        Some(out)
    }

    /// Flattened children of an HTML slot: its assigned nodes, or its own
    /// children when none are assigned.
    pub fn slot_rendered_children(&self, slot: NodeId) -> (r: Option<Vec<NodeId>>)
        requires
            self.wf_struct(),
        ensures
            match self.slot_rendering(slot.id()) {
                Some(s) => r is Some && r->Some_0@ == ids_of(s),
                None => r is None,
            },
    {
        let assigned = match self.assigned_nodes(slot) {
            Some(a) => a,
            None => {
                return None;
            },
        };
        if assigned.len() == 0 {
            Some(self.children(slot))
        } else {
            Some(assigned)
        }
    }
}

} // verus!
