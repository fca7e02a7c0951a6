//! The queue of retained-style invalidations between rendering
//! opportunities.
//!
//! Animation frameworks rewrite the same inline style many times before the
//! next frame. Rendering observes attribute state only at flush boundaries,
//! so repeated writes to one node's attribute keep the first old value and
//! the final new value; repeated animation or resource triggers are queued
//! once. A bounded number of style-damaging entries keeps adversarial churn
//! from growing the queue without limit; when it is full the caller drops
//! the retained render instead.
use vstd::prelude::*;

use crate::cli::{ascii_lower, lower_char};
use crate::mutation_impact::{attr_of, parse_u32, parsed_u32, split_once, split_point, text_of};
use crate::strutil::{chars_of, str_eq};
use crate::tree::{DomTree, NodeData, NodeId};

verus! {

/// Cap on queued entries that damage style (a resource trigger aside).
pub const MAX_PENDING_STYLE_MUTATIONS: usize = 4096;

/// A write to, or the removal of, an attribute that style may depend on.
/// `old_value` and `new_value` are `None` where the value is not kept (for
/// inline `style`) or absent.
pub struct AttributeStyleMutation {
    pub node: NodeId,
    pub name: String,
    pub old_value: Option<String>,
    pub new_value: Option<String>,
}

/// A change to the shape of the tree.
pub enum TreeStyleMutation {
    Insert { node: NodeId, old_parent: Option<NodeId>, new_parent: NodeId },
    Remove { node: NodeId, old_parent: NodeId },
    Text { node: NodeId, parent: Option<NodeId> },
}

/// One retained-style invalidation.
pub enum StyleMutation {
    Attribute(AttributeStyleMutation),
    Tree(TreeStyleMutation),
    Animation { node: NodeId },
    WaapiAnimation { node: NodeId },
    /// Resource-dependent geometry (image sizes, font metrics) changed.
    Resource,
}

/// Queued entry `q` is a write to the same node and attribute name, names
/// compared without regard to ASCII case.
pub open spec fn same_attribute(q: StyleMutation, next: AttributeStyleMutation) -> bool {
    q matches StyleMutation::Attribute(c) && c.node == next.node && ascii_lower(c.name@)
        == ascii_lower(next.name@)
}

pub open spec fn has_resource(s: Seq<StyleMutation>) -> bool {
    exists|j: int| 0 <= j < s.len() && s[j] is Resource
}

pub open spec fn has_animation(s: Seq<StyleMutation>, n: NodeId) -> bool {
    exists|j: int| 0 <= j < s.len() && ((#[trigger] s[j]) matches StyleMutation::Animation { node } && node == n)
}

pub open spec fn has_waapi_animation(s: Seq<StyleMutation>, n: NodeId) -> bool {
    exists|j: int|
        0 <= j < s.len() && ((#[trigger] s[j]) matches StyleMutation::WaapiAnimation { node } && node == n)
}

/// `k` is the first queued write to the attribute that `next` writes.
pub open spec fn first_same_attribute(
    s: Seq<StyleMutation>,
    next: AttributeStyleMutation,
    k: int,
) -> bool {
    &&& 0 <= k < s.len()
    &&& same_attribute(s[k], next)
    &&& forall|j: int| 0 <= j < k ==> !same_attribute(#[trigger] s[j], next)
}

/// Entries that count toward the cap: all but a queued resource trigger.
pub open spec fn damage_len(s: Seq<StyleMutation>) -> int {
    s.len() - if has_resource(s) {
        1int
    } else {
        0int
    }
}

/// The mutation is already covered by what is queued.
pub open spec fn coalesces(s: Seq<StyleMutation>, m: StyleMutation) -> bool {
    match m {
        StyleMutation::Resource => has_resource(s),
        StyleMutation::Animation { node } => has_animation(s, node),
        StyleMutation::WaapiAnimation { node } => has_waapi_animation(s, node),
        StyleMutation::Attribute(next) => exists|j: int| 0 <= j < s.len() && same_attribute(
            #[trigger] s[j],
            next,
        ),
        StyleMutation::Tree(_) => false,
    }
}

pub(crate) fn names_match(a: &str, b: &str) -> (r: bool)
    ensures
        r == (ascii_lower(a@) == ascii_lower(b@)),
{
    let x = chars_of(a);
    let y = chars_of(b);
    if x.len() != y.len() {
        proof {
            if ascii_lower(a@) == ascii_lower(b@) {
                assert(ascii_lower(a@).len() == a@.len());
            }
        }
        return false;
    }
    let mut i: usize = 0;
    while i < x.len()
        invariant
            x@ == a@,
            y@ == b@,
            x@.len() == y@.len(),
            i <= x@.len(),
            forall|k: int| 0 <= k < i ==> ascii_lower(a@)[k] == ascii_lower(b@)[k],
        decreases x@.len() - i,
    {
        if lower_char(x[i]) != lower_char(y[i]) {
            proof {
                assert(ascii_lower(a@)[i as int] != ascii_lower(b@)[i as int]);
            }
            return false;
        }
        i = i + 1;
    }
    proof {
        assert(ascii_lower(a@) =~= ascii_lower(b@));
    }
    true
}

fn find_resource(s: &Vec<StyleMutation>) -> (r: bool)
    ensures
        r == has_resource(s@),
{
    let mut i: usize = 0;
    while i < s.len()
        invariant
            i <= s@.len(),
            forall|j: int| 0 <= j < i ==> !(s@[j] is Resource),
        decreases s@.len() - i,
    {
        if let StyleMutation::Resource = &s[i] {
            return true;
        }
        i = i + 1;
    }
    false
}

fn find_animation(s: &Vec<StyleMutation>, n: NodeId, waapi: bool) -> (r: bool)
    ensures
        !waapi ==> r == has_animation(s@, n),
        waapi ==> r == has_waapi_animation(s@, n),
{
    let mut i: usize = 0;
    while i < s.len()
        invariant
            i <= s@.len(),
            forall|j: int|
                0 <= j < i ==> !waapi ==> !((#[trigger] s@[j]) matches StyleMutation::Animation { node } && node == n),
            forall|j: int|
                0 <= j < i ==> waapi ==> !((#[trigger] s@[j]) matches StyleMutation::WaapiAnimation { node } && node == n),
        decreases s@.len() - i,
    {
        match &s[i] {
            StyleMutation::Animation { node } => {
                if !waapi && node.0 == n.0 {
                    return true;
                }
            },
            StyleMutation::WaapiAnimation { node } => {
                if waapi && node.0 == n.0 {
                    return true;
                }
            },
            _ => {},
        }
        i = i + 1;
    }
    false
}

fn find_attribute(s: &Vec<StyleMutation>, next: &AttributeStyleMutation) -> (r: Option<usize>)
    ensures
        match r {
            Some(k) => first_same_attribute(s@, *next, k as int),
            None => forall|j: int| 0 <= j < s@.len() ==> !same_attribute(#[trigger] s@[j], *next),
        },
{
    let mut i: usize = 0;
    while i < s.len()
        invariant
            i <= s@.len(),
            forall|j: int| 0 <= j < i ==> !same_attribute(#[trigger] s@[j], *next),
        decreases s@.len() - i,
    {
        match &s[i] {
            StyleMutation::Attribute(c) => {
                if c.node.0 == next.node.0 && names_match(c.name.as_str(), next.name.as_str()) {
                    return Some(i);
                }
            },
            _ => {},
        }
        i = i + 1;
    }
    None
}

/// Queues one invalidation. Returns `false`, leaving the queue as it was,
/// when the queue of style-damaging entries is full and the mutation is
/// neither covered by a queued one nor a resource trigger; the caller then
/// drops the retained render.
pub fn queue_retained_style_mutation(pending: &mut Vec<StyleMutation>, mutation: StyleMutation) -> (r: bool)
    ensures
        coalesces(old(pending)@, mutation) ==> r,
        !coalesces(old(pending)@, mutation) ==> (r <==> (mutation is Resource || damage_len(
            old(pending)@,
        ) < MAX_PENDING_STYLE_MUTATIONS)),
        !coalesces(old(pending)@, mutation) && r ==> final(pending)@ == old(pending)@.push(
            mutation,
        ),
        !r ==> final(pending)@ == old(pending)@,
        coalesces(old(pending)@, mutation) && !(mutation is Attribute) ==> final(pending)@ == old(
            pending,
        )@,
        mutation matches StyleMutation::Attribute(next) ==> coalesces(old(pending)@, mutation)
            ==> exists|k: int|
            first_same_attribute(old(pending)@, next, k) && final(pending)@ == old(pending)@.update(
                k,
                StyleMutation::Attribute(
                    AttributeStyleMutation {
                        new_value: next.new_value,
                        ..old(pending)@[k]->Attribute_0
                    },
                ),
            ),
{
    let has_res = find_resource(pending);
    match mutation {
        StyleMutation::Resource => {
            if has_res {
                return true;
            }
            pending.push(StyleMutation::Resource);
            return true;
        },
        StyleMutation::Animation { node } => {
            if find_animation(pending, node, false) {
                return true;
            }
            let len = pending.len();
            if len - if has_res { 1 } else { 0 } >= MAX_PENDING_STYLE_MUTATIONS {
                return false;
            }
            pending.push(StyleMutation::Animation { node });
            true
        },
        StyleMutation::WaapiAnimation { node } => {
            if find_animation(pending, node, true) {
                return true;
            }
            let len = pending.len();
            if len - if has_res { 1 } else { 0 } >= MAX_PENDING_STYLE_MUTATIONS {
                return false;
            }
            pending.push(StyleMutation::WaapiAnimation { node });
            true
        },
        StyleMutation::Attribute(next) => {
            match find_attribute(pending, &next) {
                Some(k) => {
                    let ghost s0 = pending@;
                    let current = pending.remove(k);
                    let current = match current {
                        StyleMutation::Attribute(c) => c,
                        _ => {
                            proof {
                                assert(false);
                            }
                            return true;
                        },
                    };
                    let updated = AttributeStyleMutation {
                        node: current.node,
                        name: current.name,
                        old_value: current.old_value,
                        new_value: next.new_value,
                    };
                    pending.insert(k, StyleMutation::Attribute(updated));
                    proof {
                        assert(pending@ =~= s0.update(
                            k as int,
                            StyleMutation::Attribute(
                                AttributeStyleMutation {
                                    new_value: next.new_value,
                                    ..s0[k as int]->Attribute_0
                                },
                            ),
                        ));
                    }
                    true
                },
                None => {
                    let len = pending.len();
                    if len - if has_res { 1 } else { 0 } >= MAX_PENDING_STYLE_MUTATIONS {
                        return false;
                    }
                    pending.push(StyleMutation::Attribute(next));
                    true
                },
            }
        },
        StyleMutation::Tree(t) => {
            let len = pending.len();
            if len - if has_res { 1 } else { 0 } >= MAX_PENDING_STYLE_MUTATIONS {
                return false;
            }
            pending.push(StyleMutation::Tree(t));
            true
        },
    }
}

/// Node `n` lies in a shadow tree: its tree scope's root is a shadow root.
pub open spec fn in_shadow_tree(t: DomTree, n: nat) -> bool {
    t.live(n) && t.is_shadow_root_node(t.scope_root(n))
}

/// `name` is `style` in any ASCII case: inline style, whose values the
/// selector engine does not need.
pub open spec fn is_style_name(name: Seq<char>) -> bool {
    ascii_lower(name) == "style"@
}

/// `m` records a write (`value` is `Some`) or removal of attribute `name` of
/// node `n`, keeping the old and new values unless the attribute is inline
/// style.
pub open spec fn attribute_record(
    t: DomTree,
    m: AttributeStyleMutation,
    n: u32,
    name: Seq<char>,
    value: Option<Seq<char>>,
) -> bool {
    &&& m.node == NodeId(n)
    &&& m.name@ == name
    &&& is_style_name(name) ==> m.old_value is None && m.new_value is None
    &&& !is_style_name(name) ==> match m.old_value {
        Some(v) => attr_of(t, n as nat, name) == Some(v@),
        None => attr_of(t, n as nat, name) is None,
    }
    &&& !is_style_name(name) ==> match m.new_value {
        Some(v) => value == Some(v@),
        None => value is None,
    }
}

/// The retained-style invalidation that DOM command `cmd` with arguments
/// `arg1` and `arg2` describes, before the command runs; `None` when the
/// retained render cannot describe it and must be rebuilt. `full_attribute`
/// is the render engine's verdict that a change of the attribute the command
/// names (for `set_attribute` the name before the NUL of `arg2`, for
/// `remove_attribute` `arg2`) needs a full restyle.
pub fn retained_style_mutation(
    dom: &DomTree,
    cmd: &str,
    arg1: &str,
    arg2: &str,
    full_attribute: bool,
) -> (r: Option<StyleMutation>)
    requires
        dom.wf(),
    ensures
        parsed_u32(arg1@) is None ==> r is None,
        parsed_u32(arg1@) matches Some(n) ==> {
            let t = *dom;
            let a2 = arg2@;
            if in_shadow_tree(t, n as nat) {
                r is None
            } else if cmd@ == "set_attribute"@ {
                match split_once(a2, '\0') {
                    None => r is None,
                    Some((name, value)) => if full_attribute {
                        r is None
                    } else {
                        r matches Some(StyleMutation::Attribute(m)) && attribute_record(
                            t,
                            m,
                            n,
                            name,
                            Some(value),
                        )
                    },
                }
            } else if cmd@ == "remove_attribute"@ {
                if full_attribute {
                    r is None
                } else {
                    r matches Some(StyleMutation::Attribute(m)) && attribute_record(t, m, n, a2, None)
                }
            } else if cmd@ == "append_child"@ {
                match parsed_u32(a2) {
                    None => r is None,
                    Some(c) => if !t.live(n as nat) || !t.live(c as nat) {
                        r is None
                    } else {
                        r == Some(
                            StyleMutation::Tree(
                                TreeStyleMutation::Insert {
                                    node: NodeId(c),
                                    old_parent: t.node(c as nat).parent,
                                    new_parent: NodeId(n),
                                },
                            ),
                        )
                    },
                }
            } else if cmd@ == "remove_child"@ {
                if !t.live(n as nat) || t.node(n as nat).parent is None {
                    r is None
                } else {
                    r == Some(
                        StyleMutation::Tree(
                            TreeStyleMutation::Remove {
                                node: NodeId(n),
                                old_parent: t.node(n as nat).parent->Some_0,
                            },
                        ),
                    )
                }
            } else if cmd@ == "insert_before"@ {
                match parsed_u32(a2) {
                    None => r is None,
                    Some(refn) => if !t.live(refn as nat) || t.node(refn as nat).parent is None {
                        r is None
                    } else {
                        let p = t.node(refn as nat).parent->Some_0;
                        if in_shadow_tree(t, p.0 as nat) || !t.live(n as nat) {
                            r is None
                        } else {
                            r == Some(
                                StyleMutation::Tree(
                                    TreeStyleMutation::Insert {
                                        node: NodeId(n),
                                        old_parent: t.node(n as nat).parent,
                                        new_parent: p,
                                    },
                                ),
                            )
                        }
                    },
                }
            } else if cmd@ == "set_text_content"@ {
                if t.live(n as nat) && t.node(n as nat).data is Text {
                    r == Some(
                        StyleMutation::Tree(
                            TreeStyleMutation::Text { node: NodeId(n), parent: t.node(n as nat).parent },
                        ),
                    )
                } else {
                    r is None
                }
            } else {
                r is None
            }
        },
{
    let c1 = chars_of(arg1);
    let n = match parse_u32(&c1) {
        Some(v) => v,
        None => {
            return None;
        },
    };
    let node = NodeId(n);
    if dom.containing_shadow_root(node).is_some() {
        return None;
    }
    let c2 = chars_of(arg2);
    if str_eq(cmd, "set_attribute") || str_eq(cmd, "remove_attribute") {
        let set = str_eq(cmd, "set_attribute");
        let (name, value) = if set {
            let k = match split_point(&c2, '\0') {
                Some(k) => k,
                None => {
                    return None;
                },
            };
            let len = c2.len();
            let name = text_of(&c2, 0, k);
            let value = text_of(&c2, k + 1, len);
            proof {
                assert(c2@.take(k as int) =~= c2@.subrange(0, k as int));
                assert(c2@.skip(k + 1) =~= c2@.subrange(k + 1, c2@.len() as int));
            }
            (name, Some(value))
        } else {
            proof {
                assert(c2@.subrange(0, c2@.len() as int) =~= c2@);
            }
            (text_of(&c2, 0, c2.len()), None)
        };
        if full_attribute {
            return None;
        }
        let keeps = !names_match(name.as_str(), "style");
        proof {
            reveal_strlit("style");
            assert(ascii_lower("style"@) =~= "style"@);
        }
        let old_value = if keeps {
            dom.attr_at(node, name.as_str())
        } else {
            None
        };
        let new_value = if keeps {
            value
        } else {
            None
        };
        return Some(
            StyleMutation::Attribute(AttributeStyleMutation { node, name, old_value, new_value }),
        );
    }
    if str_eq(cmd, "append_child") {
        let c = match parse_u32(&c2) {
            Some(v) => NodeId(v),
            None => {
                return None;
            },
        };
        if dom.node_ref(node).is_none() {
            return None;
        }
        let old_parent = match dom.node_ref(c) {
            Some(x) => x.parent,
            None => {
                return None;
            },
        };
        return Some(
            StyleMutation::Tree(TreeStyleMutation::Insert { node: c, old_parent, new_parent: node }),
        );
    }
    if str_eq(cmd, "remove_child") {
        let old_parent = match dom.node_ref(node) {
            Some(x) => match x.parent {
                Some(p) => p,
                None => {
                    return None;
                },
            },
            None => {
                return None;
            },
        };
        return Some(StyleMutation::Tree(TreeStyleMutation::Remove { node, old_parent }));
    }
    if str_eq(cmd, "insert_before") {
        let refn = match parse_u32(&c2) {
            Some(v) => NodeId(v),
            None => {
                return None;
            },
        };
        let new_parent = match dom.node_ref(refn) {
            Some(x) => match x.parent {
                Some(p) => p,
                None => {
                    return None;
                },
            },
            None => {
                return None;
            },
        };
        if dom.containing_shadow_root(new_parent).is_some() {
            return None;
        }
        let old_parent = match dom.node_ref(node) {
            Some(x) => x.parent,
            None => {
                return None;
            },
        };
        return Some(StyleMutation::Tree(TreeStyleMutation::Insert { node, old_parent, new_parent }));
    }
    if str_eq(cmd, "set_text_content") {
        return match dom.node_ref(node) {
            Some(x) => match &x.data {
                NodeData::Text { .. } => Some(
                    StyleMutation::Tree(TreeStyleMutation::Text { node, parent: x.parent }),
                ),
                _ => None,
            },
            None => None,
        };
    }
    None
}

} // verus!
