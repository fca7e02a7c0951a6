//! Whether a DOM command can make the retained document layout stale.
//!
//! Construction in detached subtrees, and writes that leave an attribute at
//! its current value, change nothing on screen. A command matters when it
//! reaches a connected node and actually changes something there.
use vstd::prelude::*;

use crate::glob::find_from;
use crate::strutil::{chars_of, str_eq, string_from_range};
use crate::tree::{DomTree, NodeData, NodeId};
use crate::tree::model::opt_id;
use crate::tree::node::{ns_local_is, value_where};

verus! {

/// What a DOM command does to the rendered document.
#[derive(Clone, Copy, Debug, PartialEq, Eq, Structural)]
pub struct RenderMutationImpact {
    /// The command reaches a node of the document's shadow-including tree.
    pub connected: bool,
    /// The command changes the node it reaches.
    pub actual_change: bool,
}

pub open spec fn no_impact() -> RenderMutationImpact {
    RenderMutationImpact { connected: false, actual_change: false }
}

pub open spec fn is_digit(c: char) -> bool {
    '0' <= c && c <= '9'
}

pub open spec fn digit_value(c: char) -> nat {
    (c as int - '0' as int) as nat
}

pub open spec fn all_digits(s: Seq<char>) -> bool {
    forall|i: int| 0 <= i < s.len() ==> is_digit(#[trigger] s[i])
}

/// The number written in decimal by the digits `s`.
pub open spec fn decimal(s: Seq<char>) -> nat
    decreases s.len(),
{
    if s.len() == 0 {
        0
    } else {
        decimal(s.drop_last()) * 10 + digit_value(s.last())
    }
}

/// `str::parse::<u32>`: an optional `+`, then one or more decimal digits
/// whose value fits in 32 bits.
pub open spec fn parsed_u32(s: Seq<char>) -> Option<u32> {
    let d = if s.len() > 0 && s[0] == '+' {
        s.drop_first()
    } else {
        s
    };
    if d.len() > 0 && all_digits(d) && decimal(d) <= u32::MAX {
        Some(decimal(d) as u32)
    } else {
        None
    }
}

/// `str::split_once(c)`: the text before and after the first `c`.
pub open spec fn split_once(s: Seq<char>, c: char) -> Option<(Seq<char>, Seq<char>)> {
    match find_from(s, seq![c], 0) {
        Some(i) => Some((s.take(i as int), s.skip(i + 1 as int))),
        None => None,
    }
}

/// `splitn(3, '\0')` with each missing part read as empty.
pub open spec fn three_parts(s: Seq<char>) -> (Seq<char>, Seq<char>, Seq<char>) {
    match split_once(s, '\0') {
        None => (s, Seq::empty(), Seq::empty()),
        Some((a, rest)) => match split_once(rest, '\0') {
            None => (a, rest, Seq::empty()),
            Some((b, c)) => (a, b, c),
        },
    }
}

/// The local part of a qualified name: what follows its first `:`.
pub open spec fn local_part(q: Seq<char>) -> Seq<char> {
    match split_once(q, ':') {
        Some((_, l)) => l,
        None => q,
    }
}

/// `n` is live and in the document's shadow-including tree.
pub open spec fn conn(t: DomTree, n: nat) -> bool {
    t.live(n) && t.sroot(n) == t.doc()
}

/// Attribute `name` of live node `n`.
pub open spec fn attr_of(t: DomTree, n: nat, name: Seq<char>) -> Option<Seq<char>> {
    if t.live(n) {
        t.node(n).attribute(name)
    } else {
        None
    }
}

/// Attribute (`ns`, `local`) of live node `n`.
pub open spec fn attr_ns_of(t: DomTree, n: nat, ns: Seq<char>, local: Seq<char>) -> Option<
    Seq<char>,
> {
    if t.live(n) {
        match t.node(n).attrs_of() {
            Some(a) => value_where(a, ns_local_is(ns, local)),
            None => None,
        }
    } else {
        None
    }
}

/// Whether `set_text_content(n, text)` changes live node `n`: character
/// data changes when its data differs; any other node keeps its children
/// only when they are a single text node with the same text, or none when
/// the text is empty.
pub open spec fn text_changes(t: DomTree, n: nat, text: Seq<char>) -> bool {
    if !t.live(n) {
        false
    } else {
        match t.node(n).data {
            NodeData::Text { contents } => contents@ != text,
            NodeData::Comment { contents } => contents@ != text,
            NodeData::ProcessingInstruction { data, .. } => data@ != text,
            _ => {
                let k = t.kids(n);
                if k.len() == 0 {
                    text.len() > 0
                } else if k.len() == 1 {
                    match t.node(k[0]).data {
                        NodeData::Text { contents } => contents@ != text,
                        _ => true,
                    }
                } else {
                    true
                }
            },
        }
    }
}

/// The impact of DOM command `cmd` with arguments `a1` and `a2` on tree `t`.
pub open spec fn render_impact(t: DomTree, cmd: Seq<char>, a1: Seq<char>, a2: Seq<char>) -> RenderMutationImpact {
    let one = parsed_u32(a1);
    let two = parsed_u32(a2);
    if cmd == "set_attribute"@ {
        match (one, split_once(a2, '\0')) {
            (Some(n), Some((name, value))) => RenderMutationImpact {
                connected: conn(t, n as nat),
                actual_change: attr_of(t, n as nat, name) != Some(value),
            },
            _ => no_impact(),
        }
    } else if cmd == "set_attribute_ns"@ {
        match one {
            Some(n) => {
                let (ns, q, value) = three_parts(a2);
                RenderMutationImpact {
                    connected: conn(t, n as nat),
                    actual_change: attr_ns_of(t, n as nat, ns, local_part(q)) != Some(value),
                }
            },
            None => no_impact(),
        }
    } else if cmd == "remove_attribute"@ {
        match one {
            Some(n) => RenderMutationImpact {
                connected: conn(t, n as nat),
                actual_change: attr_of(t, n as nat, a2) is Some,
            },
            None => no_impact(),
        }
    } else if cmd == "remove_attribute_ns"@ {
        match one {
            Some(n) => {
                let (ns, local) = match split_once(a2, '\0') {
                    Some(p) => p,
                    None => (Seq::<char>::empty(), a2),
                };
                RenderMutationImpact {
                    connected: conn(t, n as nat),
                    actual_change: attr_ns_of(t, n as nat, ns, local) is Some,
                }
            },
            None => no_impact(),
        }
    } else if cmd == "append_child"@ {
        match (one, two) {
            (Some(p), Some(c)) => if !t.live(p as nat) || !t.live(c as nat) {
                no_impact()
            } else {
                let k = t.kids(p as nat);
                let already_last = t.parent_of(c as nat) == Some(p as nat) && k.len() > 0
                    && k.last() == c as nat;
                RenderMutationImpact {
                    connected: conn(t, p as nat) || conn(t, c as nat),
                    actual_change: !already_last,
                }
            },
            _ => no_impact(),
        }
    } else if cmd == "remove_child"@ {
        match one {
            Some(c) => RenderMutationImpact {
                connected: conn(t, c as nat),
                actual_change: t.live(c as nat) && t.parent_of(c as nat) is Some,
            },
            None => no_impact(),
        }
    } else if cmd == "insert_before"@ {
        match (one, two) {
            (Some(m), Some(r)) => if !t.live(m as nat) || !t.live(r as nat) || t.parent_of(
                r as nat,
            ) is None {
                no_impact()
            } else {
                let rp = t.parent_of(r as nat)->Some_0;
                RenderMutationImpact {
                    connected: conn(t, rp) || conn(t, m as nat),
                    actual_change: m != r && opt_id(t.node(r as nat).prev_sibling) != Some(
                        m as nat,
                    ),
                }
            },
            _ => no_impact(),
        }
    } else if cmd == "set_inner_html"@ || cmd == "set_inner_html_context"@ {
        match one {
            Some(n) => RenderMutationImpact {
                connected: conn(t, n as nat),
                actual_change: t.live(n as nat),
            },
            None => no_impact(),
        }
    } else if cmd == "set_text_content"@ {
        match one {
            Some(n) => RenderMutationImpact {
                connected: conn(t, n as nat),
                actual_change: text_changes(t, n as nat, a2),
            },
            None => no_impact(),
        }
    } else {
        no_impact()
    }
}

proof fn lemma_decimal_prefix(d: Seq<char>, k: int)
    requires
        0 <= k <= d.len(),
    ensures
        decimal(d.take(k)) <= decimal(d),
    decreases d.len(),
{
    if k < d.len() {
        assert(d.drop_last().take(k) =~= d.take(k));
        lemma_decimal_prefix(d.drop_last(), k);
    } else {
        assert(d.take(k) =~= d);
    }
}

/// `str::parse::<u32>` over the chars of `s`.
pub fn parse_u32(s: &Vec<char>) -> (r: Option<u32>)
    ensures
        r == parsed_u32(s@),
{
    let n = s.len();
    let start: usize = if n > 0 && s[0] == '+' {
        1
    } else {
        0
    };
    let ghost d = if s@.len() > 0 && s@[0] == '+' {
        s@.drop_first()
    } else {
        s@
    };
    proof {
        assert(d =~= s@.skip(start as int));
        assert(d.take(0) =~= Seq::<char>::empty());
    }
    if start == n {
        return None;
    }
    let mut acc: u64 = 0;
    let mut i: usize = start;
    while i < n
        invariant
            n == s@.len(),
            start <= i <= n,
            d == s@.skip(start as int),
            d == if s@.len() > 0 && s@[0] == '+' {
                s@.drop_first()
            } else {
                s@
            },
            d.len() > 0,
            all_digits(d.take(i - start)),
            acc == decimal(d.take(i - start)),
            acc <= u32::MAX,
        decreases n - i,
    {
        let c = s[i];
        proof {
            assert(d[i - start] == c);
        }
        if c < '0' || c > '9' {
            proof {
                assert(!is_digit(d[i - start]));
            }
            return None;
        }
        let dv: u64 = (c as u32 - '0' as u32) as u64;
        proof {
            let t = d.take(i - start + 1);
            assert(t.drop_last() =~= d.take(i - start));
            assert(t.last() == c);
            assert(dv == digit_value(c));
        }
        acc = acc * 10 + dv;
        i = i + 1;
        if acc > 0xffff_ffff {
            proof {
                if all_digits(d) {
                    lemma_decimal_prefix(d, i - start);
                }
            }
            return None;
        }
    }
    proof {
        assert(d.take(i - start) =~= d);
    }
    Some(acc as u32)
}

/// `str::split_once(c)` over chars: the position of the first `c`.
pub(crate) fn split_point(s: &Vec<char>, c: char) -> (r: Option<usize>)
    ensures
        match find_from(s@, seq![c], 0) {
            Some(i) => r == Some(i as usize) && i < s@.len(),
            None => r is None,
        },
{
    let ghost part = seq![c];
    let mut i: usize = 0;
    while i < s.len()
        invariant
            i <= s@.len(),
            part == seq![c],
            find_from(s@, part, 0) == find_from(s@, part, i as nat),
        decreases s@.len() - i,
    {
        proof {
            if s@[i as int] == c {
                assert(s@.subrange(i as int, i + 1) =~= part);
            } else {
                assert(s@.subrange(i as int, i + 1)[0] != part[0]);
            }
        }
        if s[i] == c {
            return Some(i);
        }
        i = i + 1;
    }
    None
}

/// The chars `v[from..to]` as a string.
pub(crate) fn text_of(v: &Vec<char>, from: usize, to: usize) -> (r: String)
    requires
        from <= to <= v@.len(),
    ensures
        r@ == v@.subrange(from as int, to as int),
{
    string_from_range(v, from, to)
}

impl DomTree {
    /// Attribute `name` of node `n`, when `n` is live.
    pub(crate) fn attr_at(&self, n: NodeId, name: &str) -> (r: Option<String>)
        requires
            self.wf(),
        ensures
            match r {
                Some(v) => attr_of(*self, n.id(), name@) == Some(v@),
                None => attr_of(*self, n.id(), name@) is None,
            },
    {
        match self.node_ref(n) {
            Some(nd) => match nd.get_attribute(name) {
                Some(v) => Some(crate::strutil::owned(v)),
                None => None,
            },
            None => None,
        }
    }

    /// Attribute (`ns`, `local`) of node `n`, when `n` is live.
    fn attr_ns_at(&self, n: NodeId, ns: &str, local: &str) -> (r: Option<String>)
        requires
            self.wf(),
        ensures
            match r {
                Some(v) => attr_ns_of(*self, n.id(), ns@, local@) == Some(v@),
                None => attr_ns_of(*self, n.id(), ns@, local@) is None,
            },
    {
        match self.node_ref(n) {
            Some(nd) => match nd.get_attribute_ns(ns, local) {
                Some(v) => Some(crate::strutil::owned(v)),
                None => None,
            },
            None => None,
        }
    }

    /// Whether `set_text_content(n, text)` would change node `n`.
    fn text_would_change(&self, n: NodeId, text: &str) -> (r: bool)
        requires
            self.wf(),
        ensures
            r == text_changes(*self, n.id(), text@),
    {
        let nd = match self.node_ref(n) {
            Some(nd) => nd,
            None => {
                return false;
            },
        };
        match &nd.data {
            NodeData::Text { contents } => !str_eq(contents.as_str(), text),
            NodeData::Comment { contents } => !str_eq(contents.as_str(), text),
            NodeData::ProcessingInstruction { data, .. } => !str_eq(data.as_str(), text),
            _ => {
                let kids = self.children(n);
                if kids.len() == 0 {
                    let tc = chars_of(text);
                    tc.len() > 0
                } else if kids.len() == 1 {
                    proof {
                        self.lemma_kid_at(n.id(), 0);
                        self.lemma_at(self.kids(n.id())[0]);
                        assert(kids@[0].id() == self.kids(n.id())[0]);
                    }
                    match self.node_ref(kids[0]) {
                        Some(child) => match &child.data {
                            NodeData::Text { contents } => !str_eq(contents.as_str(), text),
                            _ => true,
                        },
                        None => true,
                    }
                } else {
                    true
                }
            },
        }
    }

    /// Classifies DOM command `cmd` with arguments `arg1` and `arg2` by
    /// whether it reaches the connected document and whether it changes
    /// anything there.
    pub fn render_mutation_impact(&self, cmd: &str, arg1: &str, arg2: &str) -> (r:
        RenderMutationImpact)
        requires
            self.wf(),
        ensures
            r == render_impact(*self, cmd@, arg1@, arg2@),
    {
        let c1 = chars_of(arg1);
        let c2 = chars_of(arg2);
        let one = parse_u32(&c1);
        let two = parse_u32(&c2);
        let none = RenderMutationImpact { connected: false, actual_change: false };
        if str_eq(cmd, "set_attribute") {
            let n = match one {
                Some(v) => NodeId::new(v),
                None => {
                    return none;
                },
            };
            let k = match split_point(&c2, '\0') {
                Some(k) => k,
                None => {
                    return none;
                },
            };
            let len = c2.len();
            assert(k < len);
            let name = text_of(&c2, 0, k);
            let value = text_of(&c2, k + 1, len);
            proof {
                assert(c2@.take(k as int) =~= c2@.subrange(0, k as int));
                assert(c2@.skip(k + 1) =~= c2@.subrange(k + 1, c2@.len() as int));
            }
            let old = self.attr_at(n, name.as_str());
            let changed = match old {
                Some(o) => !str_eq(o.as_str(), value.as_str()),
                None => true,
            };
            RenderMutationImpact { connected: self.is_connected(n), actual_change: changed }
        } else if str_eq(cmd, "set_attribute_ns") {
            let n = match one {
                Some(v) => NodeId::new(v),
                None => {
                    return none;
                },
            };
            let len = c2.len();
            let (ns, q, value) = match split_point(&c2, '\0') {
                None => {
                    proof {
                        assert(c2@.subrange(0, len as int) =~= c2@);
                    }
                    (text_of(&c2, 0, len), String::new(), String::new())
                },
                Some(k) => {
                    let rest: Vec<char> = {
                        let mut v: Vec<char> = Vec::new();
                        let mut j = k + 1;
                        while j < len
                            invariant
                                len == c2@.len(),
                                k < len,
                                k + 1 <= j <= len,
                                v@ == c2@.subrange(k + 1, j as int),
                            decreases len - j,
                        {
                            proof {
                                assert(c2@.subrange(k + 1, j + 1) =~= c2@.subrange(
                                    k + 1,
                                    j as int,
                                ).push(c2@[j as int]));
                            }
                            v.push(c2[j]);
                            j = j + 1;
                        }
                        v
                    };
                    proof {
                        assert(c2@.take(k as int) =~= c2@.subrange(0, k as int));
                        assert(rest@ =~= c2@.skip(k + 1));
                    }
                    let a = text_of(&c2, 0, k);
                    match split_point(&rest, '\0') {
                        None => {
                            proof {
                                assert(rest@.subrange(0, rest@.len() as int) =~= rest@);
                            }
                            (a, text_of(&rest, 0, rest.len()), String::new())
                        },
                        Some(m) => {
                            proof {
                                assert(rest@.take(m as int) =~= rest@.subrange(0, m as int));
                                assert(rest@.skip(m + 1) =~= rest@.subrange(
                                    m + 1,
                                    rest@.len() as int,
                                ));
                            }
                            (a, text_of(&rest, 0, m), text_of(&rest, m + 1, rest.len()))
                        },
                    }
                },
            };
            let qc = chars_of(q.as_str());
            let local = match split_point(&qc, ':') {
                Some(k) => {
                    proof {
                        assert(qc@.skip(k + 1) =~= qc@.subrange(k + 1, qc@.len() as int));
                    }
                    text_of(&qc, k + 1, qc.len())
                },
                None => {
                    proof {
                        assert(qc@.subrange(0, qc@.len() as int) =~= qc@);
                    }
                    text_of(&qc, 0, qc.len())
                },
            };
            let old = self.attr_ns_at(n, ns.as_str(), local.as_str());
            let changed = match old {
                Some(o) => !str_eq(o.as_str(), value.as_str()),
                None => true,
            };
            RenderMutationImpact { connected: self.is_connected(n), actual_change: changed }
        } else if str_eq(cmd, "remove_attribute") {
            let n = match one {
                Some(v) => NodeId::new(v),
                None => {
                    return none;
                },
            };
            let existed = self.attr_at(n, arg2).is_some();
            RenderMutationImpact { connected: self.is_connected(n), actual_change: existed }
        } else if str_eq(cmd, "remove_attribute_ns") {
            let n = match one {
                Some(v) => NodeId::new(v),
                None => {
                    return none;
                },
            };
            let (ns, local) = match split_point(&c2, '\0') {
                Some(k) => {
                    proof {
                        assert(c2@.take(k as int) =~= c2@.subrange(0, k as int));
                        assert(c2@.skip(k + 1) =~= c2@.subrange(k + 1, c2@.len() as int));
                    }
                    let len = c2.len();
                    assert(k < len);
                    (text_of(&c2, 0, k), text_of(&c2, k + 1, len))
                },
                None => {
                    proof {
                        assert(c2@.subrange(0, c2@.len() as int) =~= c2@);
                    }
                    (String::new(), text_of(&c2, 0, c2.len()))
                },
            };
            let existed = self.attr_ns_at(n, ns.as_str(), local.as_str()).is_some();
            RenderMutationImpact { connected: self.is_connected(n), actual_change: existed }
        } else if str_eq(cmd, "append_child") {
            let (p, c) = match (one, two) {
                (Some(a), Some(b)) => (NodeId::new(a), NodeId::new(b)),
                _ => {
                    return none;
                },
            };
            let child_parent = match (self.node_ref(p), self.node_ref(c)) {
                (Some(_), Some(cn)) => cn.parent,
                _ => {
                    return none;
                },
            };
            let kids = self.children(p);
            let already_last = match child_parent {
                Some(q) => q.0 == p.0 && kids.len() > 0 && kids[kids.len() - 1].0 == c.0,
                None => false,
            };
            proof {
                let k = self.kids(p.id());
                if k.len() > 0 {
                    self.lemma_kid_at(p.id(), k.len() - 1);
                    self.lemma_at(k.last());
                    assert(kids@[kids@.len() - 1].id() == k.last());
                }
            }
            RenderMutationImpact {
                connected: self.is_connected(p) || self.is_connected(c),
                actual_change: !already_last,
            }
        } else if str_eq(cmd, "remove_child") {
            let c = match one {
                Some(v) => NodeId::new(v),
                None => {
                    return none;
                },
            };
            let has_parent = match self.node_ref(c) {
                Some(cn) => cn.parent.is_some(),
                None => false,
            };
            RenderMutationImpact { connected: self.is_connected(c), actual_change: has_parent }
        } else if str_eq(cmd, "insert_before") {
            let (m, r) = match (one, two) {
                (Some(a), Some(b)) => (NodeId::new(a), NodeId::new(b)),
                _ => {
                    return none;
                },
            };
            if self.node_ref(m).is_none() {
                return none;
            }
            let (rp, before) = match self.node_ref(r) {
                Some(rn) => match rn.parent {
                    Some(q) => (q, rn.prev_sibling),
                    None => {
                        return none;
                    },
                },
                None => {
                    return none;
                },
            };
            let already_before = match before {
                Some(b) => b.0 == m.0,
                None => false,
            };
            let new_was_connected = self.is_connected(m);
            RenderMutationImpact {
                connected: self.is_connected(rp) || new_was_connected,
                actual_change: m.0 != r.0 && !already_before,
            }
        } else if str_eq(cmd, "set_inner_html") || str_eq(cmd, "set_inner_html_context") {
            let n = match one {
                Some(v) => NodeId::new(v),
                None => {
                    return none;
                },
            };
            RenderMutationImpact {
                connected: self.is_connected(n),
                actual_change: self.node_ref(n).is_some(),
            }
        } else if str_eq(cmd, "set_text_content") {
            let n = match one {
                Some(v) => NodeId::new(v),
                None => {
                    return none;
                },
            };
            RenderMutationImpact {
                connected: self.is_connected(n),
                actual_change: self.text_would_change(n, arg2),
            }
        } else {
            none
        }
    }
}

} // verus!
