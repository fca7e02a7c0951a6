//! DOM commands that only read the tree.
use vstd::prelude::*;

use super::{arg_node, id_or_none, raw_ids, texts_view, DocumentInfo, DomAnswer, DomReply};
use crate::fragment::xhtml;
use crate::glob::find_from;
use crate::mutation_impact::{parse_u32, parsed_u32, split_once, split_point};
use crate::node_order::{child_index, compare_node_order, node_child_index, node_order};
use crate::strutil::{chars_of, owned, push_char, str_eq, string_from_range};
use crate::tree::{Attribute, DomTree, NodeData, NodeId};
use crate::tree::ids::first_with_id;
use crate::tree::model::{ids_of, opt_id};
use crate::tree::nav::{after_in_subtree, after_subtree, before_in_subtree};
use crate::tree::node::{ns_local_is, qname_text, value_where};
use crate::tree::walk::{descendants_of, lemma_descendants_fit, text_content_of};

verus! {

pub open spec fn ascii_upper_char(c: char) -> char {
    if 'a' <= c && c <= 'z' {
        (((c as u8) - 32) as u8) as char
    } else {
        c
    }
}

/// `str::to_ascii_uppercase`.
pub open spec fn ascii_upper(s: Seq<char>) -> Seq<char> {
    s.map_values(|c: char| ascii_upper_char(c))
}

/// The DOM `nodeType` code of a node; 0 for a free slot.
pub open spec fn node_type_code(t: DomTree, n: nat) -> int {
    if t.live(n) {
        match t.node(n).data {
            NodeData::Document => 9,
            NodeData::Element { .. } => 1,
            NodeData::Text { .. } => 3,
            NodeData::Comment { .. } => 8,
            NodeData::Doctype { .. } => 10,
            NodeData::ProcessingInstruction { .. } => 7,
        }
    } else {
        0
    }
}

/// The DOM `nodeName` of a node; empty for a free slot.
pub open spec fn node_name_text(t: DomTree, n: nat) -> Seq<char> {
    if t.live(n) {
        match t.node(n).data {
            NodeData::Document => "#document"@,
            NodeData::Element { name, .. } => ascii_upper(name.local@),
            NodeData::Text { .. } => "#text"@,
            NodeData::Comment { .. } => "#comment"@,
            NodeData::Doctype { name, .. } => name@,
            NodeData::ProcessingInstruction { target, .. } => target@,
        }
    } else {
        Seq::empty()
    }
}

/// The `tagName` of an element: upper-cased in the HTML namespace, the
/// qualified name elsewhere; empty for any other node.
pub open spec fn tag_name_text(t: DomTree, n: nat) -> Seq<char> {
    if t.live(n) {
        match t.node(n).data {
            NodeData::Element { name, .. } => if name.ns@ == xhtml() {
                ascii_upper(name.local@)
            } else {
                qname_text(name)
            },
            _ => Seq::empty(),
        }
    } else {
        Seq::empty()
    }
}

pub open spec fn local_name_text(t: DomTree, n: nat) -> Seq<char> {
    if t.live(n) {
        match t.node(n).data {
            NodeData::Element { name, .. } => name.local@,
            _ => Seq::empty(),
        }
    } else {
        Seq::empty()
    }
}

pub open spec fn namespace_text(t: DomTree, n: nat) -> Seq<char> {
    if t.live(n) {
        match t.node(n).data {
            NodeData::Element { name, .. } => name.ns@,
            _ => Seq::empty(),
        }
    } else {
        Seq::empty()
    }
}

pub open spec fn pi_target_text(t: DomTree, n: nat) -> Seq<char> {
    if t.live(n) {
        match t.node(n).data {
            NodeData::ProcessingInstruction { target, .. } => target@,
            _ => Seq::empty(),
        }
    } else {
        Seq::empty()
    }
}

pub open spec fn doctype_name_text(t: DomTree, n: nat) -> Seq<char> {
    if t.live(n) {
        match t.node(n).data {
            NodeData::Doctype { name, .. } => name@,
            _ => Seq::empty(),
        }
    } else {
        Seq::empty()
    }
}

pub open spec fn doctype_public_text(t: DomTree, n: nat) -> Seq<char> {
    if t.live(n) {
        match t.node(n).data {
            NodeData::Doctype { public_id, .. } => public_id@,
            _ => Seq::empty(),
        }
    } else {
        Seq::empty()
    }
}

/// The children of `n` as ids; none for a free slot.
pub open spec fn child_ids(t: DomTree, n: nat) -> Seq<NodeId> {
    if t.live(n) {
        ids_of(t.kids(n))
    } else {
        Seq::empty()
    }
}

/// The raw ids of the elements among `s`, in order.
pub open spec fn element_ids(t: DomTree, s: Seq<NodeId>) -> Seq<u32>
    decreases s.len(),
{
    if s.len() == 0 {
        Seq::empty()
    } else {
        let r = element_ids(t, s.drop_last());
        if t.live(s.last().id()) && t.is_element(s.last().id()) {
            r.push(s.last().0)
        } else {
            r
        }
    }
}

/// The first node of `s` that is an element with local name `html`.
pub open spec fn first_html(t: DomTree, s: Seq<NodeId>) -> Option<NodeId>
    decreases s.len(),
{
    if s.len() == 0 {
        None
    } else if t.live(s[0].id()) && t.node(s[0].id()).data is Element && t.node(
        s[0].id(),
    ).data->Element_name.local@ == "html"@ {
        Some(s[0])
    } else {
        first_html(t, s.drop_first())
    }
}

/// The first node of `s` that is a doctype.
pub open spec fn first_doctype(t: DomTree, s: Seq<NodeId>) -> Option<NodeId>
    decreases s.len(),
{
    if s.len() == 0 {
        None
    } else if t.live(s[0].id()) && t.node(s[0].id()).data is Doctype {
        Some(s[0])
    } else {
        first_doctype(t, s.drop_first())
    }
}

/// The first node of `s` that is an element with local name `title`.
pub open spec fn first_title(t: DomTree, s: Seq<NodeId>) -> Option<NodeId>
    decreases s.len(),
{
    if s.len() == 0 {
        None
    } else if t.live(s[0].id()) && t.node(s[0].id()).data is Element && t.node(
        s[0].id(),
    ).data->Element_name.local@ == "title"@ {
        Some(s[0])
    } else {
        first_title(t, s.drop_first())
    }
}

/// The whitespace `document.title` strips and collapses.
pub open spec fn title_ws(c: char) -> bool {
    c == '\t' || c == '\n' || c == '\x0C' || c == '\r' || c == ' '
}

/// `s` with leading and trailing whitespace dropped and each run of
/// whitespace between words turned into one space.
pub open spec fn collapsed(s: Seq<char>) -> Seq<char>
    decreases s.len(),
{
    if s.len() == 0 {
        Seq::empty()
    } else {
        let c = s.last();
        let before = s.drop_last();
        if title_ws(c) {
            collapsed(before)
        } else if before.len() > 0 && title_ws(before.last()) && collapsed(before).len() > 0 {
            collapsed(before) + seq![' ', c]
        } else {
            collapsed(before).push(c)
        }
    }
}

/// `document.title`: the collapsed text of the document's first `title`
/// element, in document order.
pub open spec fn title_text(t: DomTree) -> Seq<char> {
    match first_title(t, ids_of(descendants_of(t, t.doc()))) {
        Some(x) => collapsed(text_content_of(t, x.id())),
        None => Seq::empty(),
    }
}

/// Reply to `get_element_by_id`: the node `getElementById` finds when it
/// lies in the document, otherwise the first element of the document, in
/// document order, whose `id` attribute is `id`.
pub open spec fn element_by_id_answer(t: DomTree, id: Seq<char>) -> int {
    match t.element_by_id(id) {
        Some(e) if ids_of(t.light_anc(e)).contains(NodeId(t.doc() as u32)) && t.live(e) => e as int,
        _ => id_or_none(first_with_id(t, descendants_of(t, t.doc()), id)),
    }
}

/// The namespace and local name packed in a `get_attribute_ns` argument.
pub open spec fn ns_and_local(a: Seq<char>) -> (Seq<char>, Seq<char>) {
    match split_once(a, '\0') {
        Some(p) => p,
        None => (Seq::empty(), a),
    }
}

pub open spec fn attribute_ns_of(t: DomTree, n: nat, a: Seq<char>) -> Option<Seq<char>> {
    if t.live(n) {
        match t.node(n).attrs_of() {
            Some(attrs) => value_where(attrs, ns_local_is(ns_and_local(a).0, ns_and_local(a).1)),
            None => None,
        }
    } else {
        None
    }
}

pub open spec fn attribute_of(t: DomTree, n: nat, name: Seq<char>) -> Option<Seq<char>> {
    if t.live(n) {
        t.node(n).attribute(name)
    } else {
        None
    }
}

pub open spec fn attribute_names_of(t: DomTree, n: nat) -> Seq<Seq<char>> {
    if t.live(n) {
        match t.node(n).attrs_of() {
            Some(a) => a.map_values(|x: Attribute| qname_text(x.name)),
            None => Seq::empty(),
        }
    } else {
        Seq::empty()
    }
}

/// The topmost node reached from `n` by parent links.
pub open spec fn root_of(t: DomTree, n: nat) -> nat {
    if t.live(n) {
        t.scope_root(n)
    } else {
        n
    }
}

/// Reply to a command that only reads the tree or the page; `None` for
/// any other command.
pub open spec fn query_answer(
    t: DomTree,
    page: DocumentInfo,
    cmd: Seq<char>,
    a1: Seq<char>,
    a2: Seq<char>,
) -> Option<DomAnswer> {
    let n = arg_node(a1);
    let m = arg_node(a2);
    if cmd == "document_node_id"@ {
        Some(DomAnswer::Int(t.doc() as int))
    } else if cmd == "document_title"@ {
        Some(DomAnswer::Text(title_text(t)))
    } else if cmd == "document_url"@ {
        Some(DomAnswer::Text(page.url@))
    } else if cmd == "document_referrer"@ {
        Some(DomAnswer::Text(page.referrer@))
    } else if cmd == "document_encoding"@ {
        Some(DomAnswer::Text(page.encoding@))
    } else if cmd == "document_element"@ {
        Some(
            DomAnswer::Int(
                match first_html(t, child_ids(t, t.doc())) {
                    Some(x) => x.0 as int,
                    None => -1,
                },
            ),
        )
    } else if cmd == "document_doctype"@ {
        Some(
            match first_doctype(t, child_ids(t, t.doc())) {
                Some(x) => DomAnswer::Doctype(
                    t.node(x.id()).data->Doctype_name@,
                    t.node(x.id()).data->Doctype_public_id@,
                    t.node(x.id()).data->Doctype_system_id@,
                    x.0,
                ),
                None => DomAnswer::Null,
            },
        )
    } else if cmd == "get_element_by_id"@ {
        Some(DomAnswer::Int(element_by_id_answer(t, a1)))
    } else if cmd == "node_type"@ {
        Some(DomAnswer::Int(node_type_code(t, n)))
    } else if cmd == "node_name"@ {
        Some(DomAnswer::Text(node_name_text(t, n)))
    } else if cmd == "text_content"@ {
        Some(DomAnswer::Text(text_content_of(t, n)))
    } else if cmd == "parent_node"@ {
        Some(DomAnswer::Int(id_or_none(if t.live(n) { opt_id(t.node(n).parent) } else { None })))
    } else if cmd == "first_child"@ {
        Some(DomAnswer::Int(id_or_none(if t.live(n) { opt_id(t.node(n).first_child) } else { None })))
    } else if cmd == "last_child"@ {
        Some(DomAnswer::Int(id_or_none(if t.live(n) { opt_id(t.node(n).last_child) } else { None })))
    } else if cmd == "next_sibling"@ {
        Some(DomAnswer::Int(id_or_none(if t.live(n) { opt_id(t.node(n).next_sibling) } else { None })))
    } else if cmd == "prev_sibling"@ {
        Some(DomAnswer::Int(id_or_none(if t.live(n) { opt_id(t.node(n).prev_sibling) } else { None })))
    } else if cmd == "next_in_subtree"@ {
        Some(DomAnswer::Int(id_or_none(after_in_subtree(t, n, m))))
    } else if cmd == "prev_in_subtree"@ {
        Some(DomAnswer::Int(id_or_none(before_in_subtree(t, n, m))))
    } else if cmd == "next_after_subtree"@ {
        Some(DomAnswer::Int(id_or_none(after_subtree(t, n, m))))
    } else if cmd == "child_nodes"@ {
        Some(DomAnswer::Ids(raw_ids(child_ids(t, n))))
    } else if cmd == "tag_name"@ {
        Some(DomAnswer::Text(tag_name_text(t, n)))
    } else if cmd == "local_name"@ {
        Some(DomAnswer::Text(local_name_text(t, n)))
    } else if cmd == "namespace_uri"@ {
        Some(DomAnswer::Text(namespace_text(t, n)))
    } else if cmd == "get_attribute"@ {
        Some(DomAnswer::OptText(attribute_of(t, n, a2)))
    } else if cmd == "attribute_names"@ {
        Some(DomAnswer::Names(attribute_names_of(t, n)))
    } else if cmd == "get_attribute_ns"@ {
        Some(DomAnswer::OptText(attribute_ns_of(t, n, a2)))
    } else if cmd == "pi_target"@ {
        Some(DomAnswer::Text(pi_target_text(t, n)))
    } else if cmd == "doctype_name"@ {
        Some(DomAnswer::Text(doctype_name_text(t, n)))
    } else if cmd == "doctype_public_id"@ {
        Some(DomAnswer::Text(doctype_public_text(t, n)))
    } else if cmd == "element_children"@ {
        Some(DomAnswer::Ids(element_ids(t, child_ids(t, n))))
    } else if cmd == "has_child_nodes"@ {
        Some(DomAnswer::Bool(t.live(n) && t.node(n).first_child is Some))
    } else if cmd == "contains"@ {
        Some(DomAnswer::Bool(ids_of(descendants_of(t, n)).contains(NodeId(m as u32))))
    } else if cmd == "is_connected"@ {
        Some(DomAnswer::Bool(t.live(n) && t.sroot(n) == t.doc()))
    } else if cmd == "node_index"@ {
        Some(DomAnswer::Int(child_index(t, n) as int))
    } else if cmd == "compare_order"@ {
        Some(DomAnswer::Int(node_order(t, n, m)))
    } else if cmd == "node_root"@ {
        Some(DomAnswer::Int(root_of(t, n) as int))
    } else {
        None
    }
}

pub open spec fn opt_reply_view(r: Option<DomReply>) -> Option<DomAnswer> {
    match r {
        Some(x) => Some(x@),
        None => None,
    }
}

fn upper_char(c: char) -> (r: char)
    ensures
        r == ascii_upper_char(c),
{
    if 'a' <= c && c <= 'z' {
        ((c as u8) - 32) as char
    } else {
        c
    }
}

/// `str::to_ascii_uppercase`.
pub fn to_ascii_upper(s: &str) -> (r: String)
    ensures
        r@ == ascii_upper(s@),
{
    let v = chars_of(s);
    let mut r = String::new();
    let mut i: usize = 0;
    while i < v.len()
        invariant
            i <= v@.len(),
            v@ == s@,
            r@ == ascii_upper(v@.take(i as int)),
        decreases v@.len() - i,
    {
        push_char(&mut r, upper_char(v[i]));
        proof {
            assert(ascii_upper(v@.take(i + 1)) =~= ascii_upper(v@.take(i as int)).push(
                ascii_upper_char(v@[i as int]),
            ));
        }
        i = i + 1;
    }
    proof {
        assert(v@.take(i as int) =~= v@);
    }
    r
}

/// The node a node argument names.
pub fn node_arg(a: &str) -> (r: NodeId)
    ensures
        r.id() == arg_node(a@),
{
    let v = chars_of(a);
    match parse_u32(&v) {
        Some(x) => NodeId(x),
        None => NodeId(0),
    }
}

/// `str::parse::<u32>`.
pub fn parse_arg(a: &str) -> (r: Option<u32>)
    ensures
        r == parsed_u32(a@),
{
    let v = chars_of(a);
    parse_u32(&v)
}

fn id_reply(o: Option<NodeId>) -> (r: i64)
    ensures
        r == id_or_none(opt_id(o)),
{
    match o {
        Some(x) => x.0 as i64,
        None => -1,
    }
}

fn raw_id_list(v: &Vec<NodeId>) -> (r: Vec<u32>)
    ensures
        r@ == raw_ids(v@),
{
    let mut r: Vec<u32> = Vec::new();
    let mut i: usize = 0;
    while i < v.len()
        invariant
            i <= v@.len(),
            r@ == raw_ids(v@.take(i as int)),
        decreases v@.len() - i,
    {
        r.push(v[i].0);
        proof {
            assert(raw_ids(v@.take(i + 1)) =~= raw_ids(v@.take(i as int)).push(v@[i as int].0));
        }
        i = i + 1;
    }
    proof {
        assert(v@.take(i as int) =~= v@);
    }
    r
}

fn is_title_ws(c: char) -> (r: bool)
    ensures
        r == title_ws(c),
{
    c == '\t' || c == '\n' || c == '\x0C' || c == '\r' || c == ' '
}

/// Splits `s` at the whitespace `document.title` knows and joins the
/// non-empty pieces with single spaces.
pub fn collapse_ws(s: &str) -> (r: String)
    ensures
        r@ == collapsed(s@),
{
    let v = chars_of(s);
    let mut r = String::new();
    let mut i: usize = 0;
    while i < v.len()
        invariant
            v@ == s@,
            i <= v@.len(),
            r@ == collapsed(v@.take(i as int)),
        decreases v@.len() - i,
    {
        let c = v[i];
        let ghost before = v@.take(i as int);
        let ghost r0 = r@;
        proof {
            reveal_strlit("");
            assert(v@.take(i + 1).drop_last() =~= before);
            assert(v@.take(i + 1).last() == c);
            assert(v@.take(i + 1).len() > 0);
            if i > 0 {
                assert(before.last() == v@[i - 1]);
            }
        }
        if !is_title_ws(c) {
            if i > 0 && is_title_ws(v[i - 1]) && !str_eq(r.as_str(), "") {
                push_char(&mut r, ' ');
                push_char(&mut r, c);
                proof {
                    assert(r0.len() == 0 ==> r0 =~= ""@);
                    assert(r0.len() > 0);
                    assert(r@ =~= collapsed(before) + seq![' ', c]);
                    assert(r@ == collapsed(v@.take(i + 1)));
                }
            } else {
                proof {
                    assert(r0.len() == 0 ==> r0 =~= ""@);
                }
                push_char(&mut r, c);
                proof {
                    assert(r@ == collapsed(v@.take(i + 1)));
                }
            }
        } else {
            proof {
                assert(r@ == collapsed(v@.take(i + 1)));
            }
        }
        i = i + 1;
    }
    proof {
        assert(v@.take(i as int) =~= v@);
    }
    r
}

impl DomTree {
    fn child_id_list(&self, n: NodeId) -> (r: Vec<NodeId>)
        requires
            self.wf(),
        ensures
            r@ == child_ids(*self, n.id()),
    {
        self.children(n)
    }

    fn element_id_list(&self, v: &Vec<NodeId>) -> (r: Vec<u32>)
        requires
            self.wf(),
        ensures
            r@ == element_ids(*self, v@),
    {
        let mut r: Vec<u32> = Vec::new();
        let mut i: usize = 0;
        while i < v.len()
            invariant
                self.wf(),
                i <= v@.len(),
                r@ == element_ids(*self, v@.take(i as int)),
            decreases v@.len() - i,
        {
            let x = v[i];
            let is_el = match self.node_ref(x) {
                Some(nd) => nd.is_element(),
                None => false,
            };
            if is_el {
                r.push(x.0);
            }
            proof {
                assert(v@.take(i + 1).drop_last() =~= v@.take(i as int));
            }
            i = i + 1;
        }
        proof {
            assert(v@.take(i as int) =~= v@);
        }
        r
    }

    fn first_html_in(&self, v: &Vec<NodeId>) -> (r: Option<NodeId>)
        requires
            self.wf(),
        ensures
            r == first_html(*self, v@),
    {
        let mut i: usize = 0;
        proof {
            assert(v@.skip(0) =~= v@);
        }
        while i < v.len()
            invariant
                self.wf(),
                i <= v@.len(),
                first_html(*self, v@) == first_html(*self, v@.skip(i as int)),
            decreases v@.len() - i,
        {
            let x = v[i];
            proof {
                assert(v@.skip(i as int)[0] == x);
                assert(v@.skip(i as int).drop_first() =~= v@.skip(i + 1));
            }
            let hit = match self.node_ref(x) {
                Some(nd) => match &nd.data {
                    NodeData::Element { name, .. } => str_eq(name.local.as_str(), "html"),
                    _ => false,
                },
                None => false,
            };
            if hit {
                return Some(x);
            }
            i = i + 1;
        }
        None
    }

    fn first_doctype_in(&self, v: &Vec<NodeId>) -> (r: Option<NodeId>)
        requires
            self.wf(),
        ensures
            r == first_doctype(*self, v@),
    {
        let mut i: usize = 0;
        proof {
            assert(v@.skip(0) =~= v@);
        }
        while i < v.len()
            invariant
                self.wf(),
                i <= v@.len(),
                first_doctype(*self, v@) == first_doctype(*self, v@.skip(i as int)),
            decreases v@.len() - i,
        {
            let x = v[i];
            proof {
                assert(v@.skip(i as int)[0] == x);
                assert(v@.skip(i as int).drop_first() =~= v@.skip(i + 1));
            }
            let hit = match self.node_ref(x) {
                Some(nd) => match &nd.data {
                    NodeData::Doctype { .. } => true,
                    _ => false,
                },
                None => false,
            };
            if hit {
                return Some(x);
            }
            i = i + 1;
        }
        None
    }
}


/// `str::split_once(c)`.
pub(crate) fn split_text(s: &str, c: char) -> (r: Option<(String, String)>)
    ensures
        match split_once(s@, c) {
            Some((a, b)) => r matches Some(p) && p.0@ == a && p.1@ == b,
            None => r is None,
        },
{
    let v = chars_of(s);
    match split_point(&v, c) {
        Some(k) => {
            proof {
                match find_from(v@, seq![c], 0) {
                    Some(i) => assert(k < v@.len()),
                    None => {},
                }
            }
            let len = v.len();
            assert(k < len);
            let a = string_from_range(&v, 0, k);
            let b = string_from_range(&v, k + 1, len);
            proof {
                assert(v@.subrange(0, k as int) =~= v@.take(k as int));
                assert(v@.subrange(k + 1, v@.len() as int) =~= v@.skip(k + 1));
            }
            Some((a, b))
        },
        None => None,
    }
}

/// The namespace and local name packed in `a`.
fn ns_local_args(a: &str) -> (r: (String, String))
    ensures
        (r.0@, r.1@) == ns_and_local(a@),
{
    match split_text(a, '\0') {
        Some(p) => p,
        None => (String::new(), owned(a)),
    }
}

impl DomTree {
    fn node_type_reply(&self, n: NodeId) -> (r: i64)
        requires
            self.wf(),
        ensures
            r == node_type_code(*self, n.id()),
    {
        match self.node_ref(n) {
            Some(nd) => match &nd.data {
                NodeData::Document => 9,
                NodeData::Element { .. } => 1,
                NodeData::Text { .. } => 3,
                NodeData::Comment { .. } => 8,
                NodeData::Doctype { .. } => 10,
                NodeData::ProcessingInstruction { .. } => 7,
            },
            None => 0,
        }
    }

    fn node_name_reply(&self, n: NodeId) -> (r: String)
        requires
            self.wf(),
        ensures
            r@ == node_name_text(*self, n.id()),
    {
        proof {
            reveal_strlit("#document");
            reveal_strlit("#text");
            reveal_strlit("#comment");
        }
        match self.node_ref(n) {
            Some(nd) => match &nd.data {
                NodeData::Document => owned("#document"),
                NodeData::Element { name, .. } => to_ascii_upper(name.local.as_str()),
                NodeData::Text { .. } => owned("#text"),
                NodeData::Comment { .. } => owned("#comment"),
                NodeData::Doctype { name, .. } => owned(name.as_str()),
                NodeData::ProcessingInstruction { target, .. } => owned(target.as_str()),
            },
            None => String::new(),
        }
    }

    fn tag_name_reply(&self, n: NodeId) -> (r: String)
        requires
            self.wf(),
        ensures
            r@ == tag_name_text(*self, n.id()),
    {
        match self.node_ref(n) {
            Some(nd) => match &nd.data {
                NodeData::Element { name, .. } => {
                    if str_eq(name.ns.as_str(), "http://www.w3.org/1999/xhtml") {
                        to_ascii_upper(name.local.as_str())
                    } else {
                        let a = Attribute { name: name.duplicate(), value: String::new() };
                        a.qualified_name()
                    }
                },
                _ => String::new(),
            },
            None => String::new(),
        }
    }

    fn element_text_reply(&self, n: NodeId, ns: bool) -> (r: String)
        requires
            self.wf(),
        ensures
            !ns ==> r@ == local_name_text(*self, n.id()),
            ns ==> r@ == namespace_text(*self, n.id()),
    {
        match self.node_ref(n) {
            Some(nd) => match &nd.data {
                NodeData::Element { name, .. } => if ns {
                    owned(name.ns.as_str())
                } else {
                    owned(name.local.as_str())
                },
                _ => String::new(),
            },
            None => String::new(),
        }
    }

    /// 0: processing-instruction target, 1: doctype name, 2: doctype
    /// public id.
    fn special_text_reply(&self, n: NodeId, which: u8) -> (r: String)
        requires
            self.wf(),
        ensures
            which == 0 ==> r@ == pi_target_text(*self, n.id()),
            which == 1 ==> r@ == doctype_name_text(*self, n.id()),
            which == 2 ==> r@ == doctype_public_text(*self, n.id()),
    {
        match self.node_ref(n) {
            Some(nd) => match &nd.data {
                NodeData::ProcessingInstruction { target, .. } => if which == 0 {
                    owned(target.as_str())
                } else {
                    String::new()
                },
                NodeData::Doctype { name, public_id, .. } => if which == 1 {
                    owned(name.as_str())
                } else if which == 2 {
                    owned(public_id.as_str())
                } else {
                    String::new()
                },
                _ => String::new(),
            },
            None => String::new(),
        }
    }

    /// 0: parent, 1: first child, 2: last child, 3: next sibling, 4:
    /// previous sibling.
    fn link_reply(&self, n: NodeId, which: u8) -> (r: i64)
        requires
            self.wf(),
        ensures
            which == 0 ==> r == id_or_none(if self.live(n.id()) { opt_id(self.node(n.id()).parent) } else { None }),
            which == 1 ==> r == id_or_none(if self.live(n.id()) { opt_id(self.node(n.id()).first_child) } else { None }),
            which == 2 ==> r == id_or_none(if self.live(n.id()) { opt_id(self.node(n.id()).last_child) } else { None }),
            which == 3 ==> r == id_or_none(if self.live(n.id()) { opt_id(self.node(n.id()).next_sibling) } else { None }),
            which == 4 ==> r == id_or_none(if self.live(n.id()) { opt_id(self.node(n.id()).prev_sibling) } else { None }),
    {
        match self.node_ref(n) {
            Some(nd) => {
                let o = if which == 0 {
                    nd.parent
                } else if which == 1 {
                    nd.first_child
                } else if which == 2 {
                    nd.last_child
                } else if which == 3 {
                    nd.next_sibling
                } else {
                    nd.prev_sibling
                };
                id_reply(o)
            },
            None => -1,
        }
    }

    fn attribute_reply(&self, n: NodeId, name: &str) -> (r: Option<String>)
        requires
            self.wf(),
        ensures
            super::opt_text_view(r) == attribute_of(*self, n.id(), name@),
    {
        match self.node_ref(n) {
            Some(nd) => match nd.get_attribute(name) {
                Some(v) => Some(owned(v)),
                None => None,
            },
            None => None,
        }
    }

    fn attribute_ns_reply(&self, n: NodeId, a: &str) -> (r: Option<String>)
        requires
            self.wf(),
        ensures
            super::opt_text_view(r) == attribute_ns_of(*self, n.id(), a@),
    {
        let (ns, local) = ns_local_args(a);
        match self.node_ref(n) {
            Some(nd) => match nd.get_attribute_ns(ns.as_str(), local.as_str()) {
                Some(v) => Some(owned(v)),
                None => None,
            },
            None => None,
        }
    }

    fn attribute_names_reply(&self, n: NodeId) -> (r: Vec<String>)
        requires
            self.wf(),
        ensures
            texts_view(r@) == attribute_names_of(*self, n.id()),
    {
        let mut r: Vec<String> = Vec::new();
        match self.node_ref(n) {
            Some(nd) => match nd.attrs() {
                Some(attrs) => {
                    let ghost a = attrs@;
                    let mut i: usize = 0;
                    while i < attrs.len()
                        invariant
                            i <= a.len(),
                            attrs@ == a,
                            texts_view(r@) == a.take(i as int).map_values(|x: Attribute| qname_text(x.name)),
                        decreases a.len() - i,
                    {
                        let q = attrs[i].qualified_name();
                        let ghost r0 = r@;
                        r.push(q);
                        proof {
                            assert(texts_view(r@) =~= texts_view(r0).push(q@));
                            assert(a.take(i + 1).map_values(|x: Attribute| qname_text(x.name))
                                =~= a.take(i as int).map_values(|x: Attribute| qname_text(x.name)).push(
                                qname_text(a[i as int].name),
                            ));
                        }
                        i = i + 1;
                    }
                    proof {
                        assert(a.take(i as int) =~= a);
                    }
                    r
                },
                None => {
                    proof {
                        assert(texts_view(r@) =~= Seq::<Seq<char>>::empty());
                    }
                    r
                },
            },
            None => {
                proof {
                    assert(texts_view(r@) =~= Seq::<Seq<char>>::empty());
                }
                r
            },
        }
    }

    fn has_child_nodes_reply(&self, n: NodeId) -> (r: bool)
        requires
            self.wf(),
        ensures
            r == (self.live(n.id()) && self.node(n.id()).first_child is Some),
    {
        match self.node_ref(n) {
            Some(nd) => nd.first_child.is_some(),
            None => false,
        }
    }

    fn contains_reply(&self, n: NodeId, other: NodeId) -> (r: bool)
        requires
            self.wf(),
        ensures
            r == ids_of(descendants_of(*self, n.id())).contains(other),
    {
        let v = self.descendants(n);
        let mut i: usize = 0;
        while i < v.len()
            invariant
                i <= v@.len(),
                v@ == ids_of(descendants_of(*self, n.id())),
                forall|k: int| 0 <= k < i ==> v@[k] != other,
            decreases v@.len() - i,
        {
            if v[i] == other {
                proof {
                    assert(v@[i as int] == other);
                }
                return true;
            }
            i = i + 1;
        }
        false
    }

    fn index_reply(&self, n: NodeId) -> (r: i64)
        requires
            self.wf(),
        ensures
            r == child_index(*self, n.id()),
    {
        proof {
            if self.live(n.id()) {
                self.lemma_at(n.id());
                match self.parent_of(n.id()) {
                    Some(p) => {
                        self.lemma_at(p);
                        self.lemma_kids_bound(p);
                    },
                    None => {},
                }
            }
        }
        let k = node_child_index(self, n);
        k as i64
    }

    fn root_reply(&self, n: NodeId) -> (r: i64)
        requires
            self.wf(),
        ensures
            r == root_of(*self, n.id()),
    {
        match self.tree_scope_root(n) {
            Some(x) => x.0 as i64,
            None => n.0 as i64,
        }
    }

    fn element_by_id_reply(&self, id: &str) -> (r: i64)
        requires
            self.wf(),
        ensures
            r == element_by_id_answer(*self, id@),
    {
        let doc = self.document();
        proof {
            assert(doc.0 as nat == self.doc());
            assert((doc.0 as nat) as u32 == doc.0);
            assert(NodeId(self.doc() as u32) == doc);
        }
        match self.get_element_by_id(id) {
            Some(e) => {
                let anc = self.ancestors(e);
                let mut i: usize = 0;
                while i < anc.len()
                    invariant
                        i <= anc@.len(),
                        self.live(e.id()) ==> anc@ == ids_of(self.light_anc(e.id())),
                        !self.live(e.id()) ==> anc@ == Seq::<NodeId>::empty(),
                        doc == NodeId(self.doc() as u32),
                        self.element_by_id(id@) == Some(e.id()),
                        forall|k: int| 0 <= k < i ==> anc@[k] != doc,
                    decreases anc@.len() - i,
                {
                    if anc[i] == doc {
                        proof {
                            assert(anc@[i as int] == doc);
                            assert(self.live(e.id()));
                            assert(ids_of(self.light_anc(e.id()))[i as int] == NodeId(self.doc() as u32));
                            assert(ids_of(self.light_anc(e.id())).contains(NodeId(self.doc() as u32)));
                        }
                        return e.0 as i64;
                    }
                    i = i + 1;
                }
                proof {
                    if self.live(e.id()) {
                        assert(!ids_of(self.light_anc(e.id())).contains(NodeId(self.doc() as u32)));
                    }
                }
            },
            None => {},
        }
        self.first_with_id_reply(id)
    }

    fn first_with_id_reply(&self, id: &str) -> (r: i64)
        requires
            self.wf(),
        ensures
            r == id_or_none(first_with_id(*self, descendants_of(*self, self.doc()), id@)),
    {
        let all = self.descendants(self.document());
        let ghost s = descendants_of(*self, self.doc());
        proof {
            lemma_descendants_fit(*self, self.doc());
            assert(s.skip(0) =~= s);
        }
        let mut k: usize = 0;
        while k < all.len()
            invariant
                self.wf(),
                all@ == ids_of(s),
                s == descendants_of(*self, self.doc()),
                forall|m: int| 0 <= m < s.len() ==> self.live(#[trigger] s[m]),
                k <= all@.len(),
                first_with_id(*self, s, id@) == first_with_id(*self, s.skip(k as int), id@),
            decreases all@.len() - k,
        {
            let n = all[k];
            proof {
                assert(self.live(s[k as int]));
                self.lemma_at(s[k as int]);
                assert(n.id() == s[k as int]);
                assert(s.skip(k as int).drop_first() =~= s.skip(k + 1));
                assert(s.skip(k as int)[0] == s[k as int]);
            }
            let found = match self.node_ref(n) {
                Some(nd) => match nd.get_attribute("id") {
                    Some(v) => str_eq(v, id),
                    None => false,
                },
                None => false,
            };
            if found {
                return n.0 as i64;
            }
            k = k + 1;
        }
        proof {
            assert(s.skip(k as int).len() == 0);
        }
        -1
    }

    fn first_title_in(&self, v: &Vec<NodeId>) -> (r: Option<NodeId>)
        requires
            self.wf(),
        ensures
            r == first_title(*self, v@),
    {
        let mut i: usize = 0;
        proof {
            assert(v@.skip(0) =~= v@);
        }
        while i < v.len()
            invariant
                self.wf(),
                i <= v@.len(),
                first_title(*self, v@) == first_title(*self, v@.skip(i as int)),
            decreases v@.len() - i,
        {
            let x = v[i];
            proof {
                assert(v@.skip(i as int)[0] == x);
                assert(v@.skip(i as int).drop_first() =~= v@.skip(i + 1));
            }
            let hit = match self.node_ref(x) {
                Some(nd) => match &nd.data {
                    NodeData::Element { name, .. } => str_eq(name.local.as_str(), "title"),
                    _ => false,
                },
                None => false,
            };
            if hit {
                return Some(x);
            }
            i = i + 1;
        }
        None
    }

    fn title_reply(&self) -> (r: String)
        requires
            self.wf(),
        ensures
            r@ == title_text(*self),
    {
        let all = self.descendants(self.document());
        match self.first_title_in(&all) {
            Some(x) => {
                let text = self.text_content(x);
                collapse_ws(text.as_str())
            },
            None => String::new(),
        }
    }

    proof fn lemma_first_doctype(&self, s: Seq<NodeId>)
        ensures
            first_doctype(*self, s) matches Some(x) ==> self.live(x.id()) && self.node(x.id()).data is Doctype,
        decreases s.len(),
    {
        if s.len() > 0 {
            self.lemma_first_doctype(s.drop_first());
        }
    }

    fn doctype_reply(&self) -> (r: DomReply)
        requires
            self.wf(),
        ensures
            r@ == match first_doctype(*self, child_ids(*self, self.doc())) {
                Some(x) => DomAnswer::Doctype(
                    self.node(x.id()).data->Doctype_name@,
                    self.node(x.id()).data->Doctype_public_id@,
                    self.node(x.id()).data->Doctype_system_id@,
                    x.0,
                ),
                None => DomAnswer::Null,
            },
    {
        let kids = self.child_id_list(self.document());
        proof {
            self.lemma_first_doctype(kids@);
        }
        match self.first_doctype_in(&kids) {
            Some(x) => match self.node_ref(x) {
                Some(nd) => match &nd.data {
                    NodeData::Doctype { name, public_id, system_id } => DomReply::Doctype {
                        name: owned(name.as_str()),
                        public_id: owned(public_id.as_str()),
                        system_id: owned(system_id.as_str()),
                        node_id: x.0,
                    },
                    _ => DomReply::Null,
                },
                None => DomReply::Null,
            },
            None => DomReply::Null,
        }
    }
}

impl DomTree {
    /// Answers a DOM command that only reads the tree or the page; `None`
    /// when `cmd` is not such a command.
    #[verifier::rlimit(40)]
    pub fn dom_query(&self, page: &DocumentInfo, cmd: &str, arg1: &str, arg2: &str) -> (r: Option<
        DomReply,
    >)
        requires
            self.wf(),
        ensures
            opt_reply_view(r) == query_answer(*self, *page, cmd@, arg1@, arg2@),
    {
        let n = node_arg(arg1);
        let m = node_arg(arg2);
        if str_eq(cmd, "document_node_id") {
            Some(DomReply::Int(self.document().0 as i64))
        } else if str_eq(cmd, "document_title") {
            Some(DomReply::Text(self.title_reply()))
        } else if str_eq(cmd, "document_url") {
            Some(DomReply::Text(owned(page.url.as_str())))
        } else if str_eq(cmd, "document_referrer") {
            Some(DomReply::Text(owned(page.referrer.as_str())))
        } else if str_eq(cmd, "document_encoding") {
            Some(DomReply::Text(owned(page.encoding.as_str())))
        } else if str_eq(cmd, "document_element") {
            let kids = self.child_id_list(self.document());
            Some(
                DomReply::Int(
                    match self.first_html_in(&kids) {
                        Some(x) => x.0 as i64,
                        None => -1,
                    },
                ),
            )
        } else if str_eq(cmd, "document_doctype") {
            Some(self.doctype_reply())
        } else if str_eq(cmd, "get_element_by_id") {
            Some(DomReply::Int(self.element_by_id_reply(arg1)))
        } else if str_eq(cmd, "node_type") {
            Some(DomReply::Int(self.node_type_reply(n)))
        } else if str_eq(cmd, "node_name") {
            Some(DomReply::Text(self.node_name_reply(n)))
        } else if str_eq(cmd, "text_content") {
            Some(DomReply::Text(self.text_content(n)))
        } else if str_eq(cmd, "parent_node") {
            Some(DomReply::Int(self.link_reply(n, 0)))
        } else if str_eq(cmd, "first_child") {
            Some(DomReply::Int(self.link_reply(n, 1)))
        } else if str_eq(cmd, "last_child") {
            Some(DomReply::Int(self.link_reply(n, 2)))
        } else if str_eq(cmd, "next_sibling") {
            Some(DomReply::Int(self.link_reply(n, 3)))
        } else if str_eq(cmd, "prev_sibling") {
            Some(DomReply::Int(self.link_reply(n, 4)))
        } else if str_eq(cmd, "next_in_subtree") {
            Some(DomReply::Int(id_reply(self.next_in_subtree(n, m))))
        } else if str_eq(cmd, "prev_in_subtree") {
            Some(DomReply::Int(id_reply(self.prev_in_subtree(n, m))))
        } else if str_eq(cmd, "next_after_subtree") {
            Some(DomReply::Int(id_reply(self.next_after_subtree(n, m))))
        } else if str_eq(cmd, "child_nodes") {
            let kids = self.child_id_list(n);
            Some(DomReply::Ids(raw_id_list(&kids)))
        } else if str_eq(cmd, "tag_name") {
            Some(DomReply::Text(self.tag_name_reply(n)))
        } else if str_eq(cmd, "local_name") {
            Some(DomReply::Text(self.element_text_reply(n, false)))
        } else if str_eq(cmd, "namespace_uri") {
            Some(DomReply::Text(self.element_text_reply(n, true)))
        } else if str_eq(cmd, "get_attribute") {
            Some(DomReply::OptText(self.attribute_reply(n, arg2)))
        } else if str_eq(cmd, "attribute_names") {
            Some(DomReply::Names(self.attribute_names_reply(n)))
        } else if str_eq(cmd, "get_attribute_ns") {
            Some(DomReply::OptText(self.attribute_ns_reply(n, arg2)))
        } else if str_eq(cmd, "pi_target") {
            Some(DomReply::Text(self.special_text_reply(n, 0)))
        } else if str_eq(cmd, "doctype_name") {
            Some(DomReply::Text(self.special_text_reply(n, 1)))
        } else if str_eq(cmd, "doctype_public_id") {
            Some(DomReply::Text(self.special_text_reply(n, 2)))
        } else if str_eq(cmd, "element_children") {
            let kids = self.child_id_list(n);
            Some(DomReply::Ids(self.element_id_list(&kids)))
        } else if str_eq(cmd, "has_child_nodes") {
            Some(DomReply::Bool(self.has_child_nodes_reply(n)))
        } else if str_eq(cmd, "contains") {
            Some(DomReply::Bool(self.contains_reply(n, m)))
        } else if str_eq(cmd, "is_connected") {
            Some(DomReply::Bool(self.is_connected(n)))
        } else if str_eq(cmd, "node_index") {
            Some(DomReply::Int(self.index_reply(n)))
        } else if str_eq(cmd, "compare_order") {
            Some(DomReply::Int(compare_node_order(self, n, m) as i64))
        } else if str_eq(cmd, "node_root") {
            Some(DomReply::Int(self.root_reply(n)))
        } else {
            None
        }
    }
}

} // verus!
