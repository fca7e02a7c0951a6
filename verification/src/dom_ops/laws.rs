//! What the DOM readings answer, stated over the tree itself.
use vstd::prelude::*;

use super::read::query_answer;
use super::{arg_node, DocumentInfo, DomAnswer};
use crate::tree::{DomTree, NodeData};

verus! {


/// `nodeType` answers the DOM constant of the node's kind: 1 for an
/// element, 3 for text, 7 for a processing instruction, 8 for a comment,
/// 9 for a document and 10 for a doctype; so nodes of different kinds never
/// share a code.
pub proof fn lemma_node_type_constants(t: DomTree, page: DocumentInfo, a1: Seq<char>, a2: Seq<char>)
    requires
        t.live(arg_node(a1)),
    ensures
        ({
            let code = match t.node(arg_node(a1)).data {
                NodeData::Element { .. } => 1int,
                NodeData::Text { .. } => 3int,
                NodeData::ProcessingInstruction { .. } => 7int,
                NodeData::Comment { .. } => 8int,
                NodeData::Document => 9int,
                NodeData::Doctype { .. } => 10int,
            };
            query_answer(t, page, "node_type"@, a1, a2) == Some(DomAnswer::Int(code))
        }),
{
    reveal_strlit("document_node_id");
    assert("document_node_id"@ =~= seq!['d', 'o', 'c', 'u', 'm', 'e', 'n', 't', '_', 'n', 'o', 'd', 'e', '_', 'i', 'd']);
    reveal_strlit("document_title");
    assert("document_title"@ =~= seq!['d', 'o', 'c', 'u', 'm', 'e', 'n', 't', '_', 't', 'i', 't', 'l', 'e']);
    reveal_strlit("document_url");
    assert("document_url"@ =~= seq!['d', 'o', 'c', 'u', 'm', 'e', 'n', 't', '_', 'u', 'r', 'l']);
    reveal_strlit("document_referrer");
    assert("document_referrer"@ =~= seq!['d', 'o', 'c', 'u', 'm', 'e', 'n', 't', '_', 'r', 'e', 'f', 'e', 'r', 'r', 'e', 'r']);
    reveal_strlit("document_encoding");
    assert("document_encoding"@ =~= seq!['d', 'o', 'c', 'u', 'm', 'e', 'n', 't', '_', 'e', 'n', 'c', 'o', 'd', 'i', 'n', 'g']);
    reveal_strlit("document_element");
    assert("document_element"@ =~= seq!['d', 'o', 'c', 'u', 'm', 'e', 'n', 't', '_', 'e', 'l', 'e', 'm', 'e', 'n', 't']);
    reveal_strlit("document_doctype");
    assert("document_doctype"@ =~= seq!['d', 'o', 'c', 'u', 'm', 'e', 'n', 't', '_', 'd', 'o', 'c', 't', 'y', 'p', 'e']);
    reveal_strlit("get_element_by_id");
    assert("get_element_by_id"@ =~= seq!['g', 'e', 't', '_', 'e', 'l', 'e', 'm', 'e', 'n', 't', '_', 'b', 'y', '_', 'i', 'd']);
    reveal_strlit("node_type");
    assert("node_type"@ =~= seq!['n', 'o', 'd', 'e', '_', 't', 'y', 'p', 'e']);
    reveal_strlit("node_name");
    assert("node_name"@ =~= seq!['n', 'o', 'd', 'e', '_', 'n', 'a', 'm', 'e']);
    reveal_strlit("text_content");
    assert("text_content"@ =~= seq!['t', 'e', 'x', 't', '_', 'c', 'o', 'n', 't', 'e', 'n', 't']);
    reveal_strlit("parent_node");
    assert("parent_node"@ =~= seq!['p', 'a', 'r', 'e', 'n', 't', '_', 'n', 'o', 'd', 'e']);
    reveal_strlit("first_child");
    assert("first_child"@ =~= seq!['f', 'i', 'r', 's', 't', '_', 'c', 'h', 'i', 'l', 'd']);
    reveal_strlit("last_child");
    assert("last_child"@ =~= seq!['l', 'a', 's', 't', '_', 'c', 'h', 'i', 'l', 'd']);
    reveal_strlit("next_sibling");
    assert("next_sibling"@ =~= seq!['n', 'e', 'x', 't', '_', 's', 'i', 'b', 'l', 'i', 'n', 'g']);
    reveal_strlit("prev_sibling");
    assert("prev_sibling"@ =~= seq!['p', 'r', 'e', 'v', '_', 's', 'i', 'b', 'l', 'i', 'n', 'g']);
}

/// The child links of a node with children: `first_child` answers its first
/// child and `last_child` its last, the child whose parent is that node and
/// that has no next sibling; the two differ when it has two or more
/// children. A node without children answers -1 to both.
pub proof fn lemma_child_links(t: DomTree, page: DocumentInfo, a1: Seq<char>, a2: Seq<char>)
    requires
        t.wf(),
        t.live(arg_node(a1)),
    ensures
        ({
            let n = arg_node(a1);
            let ks = t.kids(n);
            &&& ks.len() == 0 ==> query_answer(t, page, "first_child"@, a1, a2) == Some(
                DomAnswer::Int(-1),
            ) && query_answer(t, page, "last_child"@, a1, a2) == Some(DomAnswer::Int(-1))
            &&& ks.len() > 0 ==> {
                &&& query_answer(t, page, "first_child"@, a1, a2) == Some(
                    DomAnswer::Int(ks[0] as int),
                )
                &&& query_answer(t, page, "last_child"@, a1, a2) == Some(
                    DomAnswer::Int(ks[ks.len() - 1] as int),
                )
                &&& t.parent_of(ks[ks.len() - 1]) == Some(n)
                &&& t.node(ks[ks.len() - 1]).next_sibling is None
                &&& t.parent_of(ks[0]) == Some(n)
                &&& t.node(ks[0]).prev_sibling is None
            }
            &&& ks.len() >= 2 ==> query_answer(t, page, "first_child"@, a1, a2) != query_answer(
                t,
                page,
                "last_child"@,
                a1,
                a2,
            )
        }),
{
    reveal_strlit("document_node_id");
    assert("document_node_id"@ =~= seq!['d', 'o', 'c', 'u', 'm', 'e', 'n', 't', '_', 'n', 'o', 'd', 'e', '_', 'i', 'd']);
    reveal_strlit("document_title");
    assert("document_title"@ =~= seq!['d', 'o', 'c', 'u', 'm', 'e', 'n', 't', '_', 't', 'i', 't', 'l', 'e']);
    reveal_strlit("document_url");
    assert("document_url"@ =~= seq!['d', 'o', 'c', 'u', 'm', 'e', 'n', 't', '_', 'u', 'r', 'l']);
    reveal_strlit("document_referrer");
    assert("document_referrer"@ =~= seq!['d', 'o', 'c', 'u', 'm', 'e', 'n', 't', '_', 'r', 'e', 'f', 'e', 'r', 'r', 'e', 'r']);
    reveal_strlit("document_encoding");
    assert("document_encoding"@ =~= seq!['d', 'o', 'c', 'u', 'm', 'e', 'n', 't', '_', 'e', 'n', 'c', 'o', 'd', 'i', 'n', 'g']);
    reveal_strlit("document_element");
    assert("document_element"@ =~= seq!['d', 'o', 'c', 'u', 'm', 'e', 'n', 't', '_', 'e', 'l', 'e', 'm', 'e', 'n', 't']);
    reveal_strlit("document_doctype");
    assert("document_doctype"@ =~= seq!['d', 'o', 'c', 'u', 'm', 'e', 'n', 't', '_', 'd', 'o', 'c', 't', 'y', 'p', 'e']);
    reveal_strlit("get_element_by_id");
    assert("get_element_by_id"@ =~= seq!['g', 'e', 't', '_', 'e', 'l', 'e', 'm', 'e', 'n', 't', '_', 'b', 'y', '_', 'i', 'd']);
    reveal_strlit("node_type");
    assert("node_type"@ =~= seq!['n', 'o', 'd', 'e', '_', 't', 'y', 'p', 'e']);
    reveal_strlit("node_name");
    assert("node_name"@ =~= seq!['n', 'o', 'd', 'e', '_', 'n', 'a', 'm', 'e']);
    reveal_strlit("text_content");
    assert("text_content"@ =~= seq!['t', 'e', 'x', 't', '_', 'c', 'o', 'n', 't', 'e', 'n', 't']);
    reveal_strlit("parent_node");
    assert("parent_node"@ =~= seq!['p', 'a', 'r', 'e', 'n', 't', '_', 'n', 'o', 'd', 'e']);
    reveal_strlit("first_child");
    assert("first_child"@ =~= seq!['f', 'i', 'r', 's', 't', '_', 'c', 'h', 'i', 'l', 'd']);
    reveal_strlit("last_child");
    assert("last_child"@ =~= seq!['l', 'a', 's', 't', '_', 'c', 'h', 'i', 'l', 'd']);
    reveal_strlit("next_sibling");
    assert("next_sibling"@ =~= seq!['n', 'e', 'x', 't', '_', 's', 'i', 'b', 'l', 'i', 'n', 'g']);
    reveal_strlit("prev_sibling");
    assert("prev_sibling"@ =~= seq!['p', 'r', 'e', 'v', '_', 's', 'i', 'b', 'l', 'i', 'n', 'g']);
    let n = arg_node(a1);
    t.lemma_at(n);
    let ks = t.kids(n);
    assert(crate::tree::model::opt_id(t.node(n).first_child) == crate::tree::model::first_of(ks));
    assert(crate::tree::model::opt_id(t.node(n).last_child) == crate::tree::model::last_of(ks));
    assert(query_answer(t, page, "first_child"@, a1, a2) == Some(DomAnswer::Int(super::id_or_none(crate::tree::model::opt_id(t.node(n).first_child)))));
    assert(query_answer(t, page, "last_child"@, a1, a2) == Some(DomAnswer::Int(super::id_or_none(crate::tree::model::opt_id(t.node(n).last_child)))));
    if ks.len() > 0 {
        t.lemma_kid_at(n, 0);
        t.lemma_kid_at(n, ks.len() - 1);
        t.lemma_kids_bound(n);
    }
}

/// `parentNode` answers the node's parent, a node whose children include
/// it, or -1; `nextSibling` and `previousSibling` answer the children
/// right after and right before it in that parent's child list, or -1 at
/// either end.
pub proof fn lemma_parent_and_sibling_links(t: DomTree, page: DocumentInfo, a1: Seq<char>, a2: Seq<char>)
    requires
        t.wf(),
        t.live(arg_node(a1)),
    ensures
        ({
            let n = arg_node(a1);
            match t.parent_of(n) {
                None => query_answer(t, page, "parent_node"@, a1, a2) == Some(DomAnswer::Int(-1))
                    && query_answer(t, page, "next_sibling"@, a1, a2) == Some(DomAnswer::Int(-1))
                    && query_answer(t, page, "prev_sibling"@, a1, a2) == Some(DomAnswer::Int(-1)),
                Some(p) => {
                    let ks = t.kids(p);
                    let j = ks.index_of(n);
                    &&& 0 <= j < ks.len() && ks[j] == n
                    &&& query_answer(t, page, "parent_node"@, a1, a2) == Some(DomAnswer::Int(p as int))
                    &&& query_answer(t, page, "next_sibling"@, a1, a2) == Some(
                        DomAnswer::Int(if j + 1 < ks.len() { ks[j + 1] as int } else { -1 }),
                    )
                    &&& query_answer(t, page, "prev_sibling"@, a1, a2) == Some(
                        DomAnswer::Int(if j > 0 { ks[j - 1] as int } else { -1 }),
                    )
                },
            }
        }),
{
    reveal_strlit("document_node_id");
    assert("document_node_id"@ =~= seq!['d', 'o', 'c', 'u', 'm', 'e', 'n', 't', '_', 'n', 'o', 'd', 'e', '_', 'i', 'd']);
    reveal_strlit("document_title");
    assert("document_title"@ =~= seq!['d', 'o', 'c', 'u', 'm', 'e', 'n', 't', '_', 't', 'i', 't', 'l', 'e']);
    reveal_strlit("document_url");
    assert("document_url"@ =~= seq!['d', 'o', 'c', 'u', 'm', 'e', 'n', 't', '_', 'u', 'r', 'l']);
    reveal_strlit("document_referrer");
    assert("document_referrer"@ =~= seq!['d', 'o', 'c', 'u', 'm', 'e', 'n', 't', '_', 'r', 'e', 'f', 'e', 'r', 'r', 'e', 'r']);
    reveal_strlit("document_encoding");
    assert("document_encoding"@ =~= seq!['d', 'o', 'c', 'u', 'm', 'e', 'n', 't', '_', 'e', 'n', 'c', 'o', 'd', 'i', 'n', 'g']);
    reveal_strlit("document_element");
    assert("document_element"@ =~= seq!['d', 'o', 'c', 'u', 'm', 'e', 'n', 't', '_', 'e', 'l', 'e', 'm', 'e', 'n', 't']);
    reveal_strlit("document_doctype");
    assert("document_doctype"@ =~= seq!['d', 'o', 'c', 'u', 'm', 'e', 'n', 't', '_', 'd', 'o', 'c', 't', 'y', 'p', 'e']);
    reveal_strlit("get_element_by_id");
    assert("get_element_by_id"@ =~= seq!['g', 'e', 't', '_', 'e', 'l', 'e', 'm', 'e', 'n', 't', '_', 'b', 'y', '_', 'i', 'd']);
    reveal_strlit("node_type");
    assert("node_type"@ =~= seq!['n', 'o', 'd', 'e', '_', 't', 'y', 'p', 'e']);
    reveal_strlit("node_name");
    assert("node_name"@ =~= seq!['n', 'o', 'd', 'e', '_', 'n', 'a', 'm', 'e']);
    reveal_strlit("text_content");
    assert("text_content"@ =~= seq!['t', 'e', 'x', 't', '_', 'c', 'o', 'n', 't', 'e', 'n', 't']);
    reveal_strlit("parent_node");
    assert("parent_node"@ =~= seq!['p', 'a', 'r', 'e', 'n', 't', '_', 'n', 'o', 'd', 'e']);
    reveal_strlit("first_child");
    assert("first_child"@ =~= seq!['f', 'i', 'r', 's', 't', '_', 'c', 'h', 'i', 'l', 'd']);
    reveal_strlit("last_child");
    assert("last_child"@ =~= seq!['l', 'a', 's', 't', '_', 'c', 'h', 'i', 'l', 'd']);
    reveal_strlit("next_sibling");
    assert("next_sibling"@ =~= seq!['n', 'e', 'x', 't', '_', 's', 'i', 'b', 'l', 'i', 'n', 'g']);
    reveal_strlit("prev_sibling");
    assert("prev_sibling"@ =~= seq!['p', 'r', 'e', 'v', '_', 's', 'i', 'b', 'l', 'i', 'n', 'g']);

    let n = arg_node(a1);
    t.lemma_at(n);
    match t.parent_of(n) {
        None => {},
        Some(p) => {
            t.lemma_at(p);
            let ks = t.kids(p);
            assert(ks.contains(n));
            let j = ks.index_of(n);
            assert(t.kid_ok(p, j));
        },
    }
}

/// `nodeName` answers `#document`, `#text` and `#comment` for those kinds,
/// and an element's local name in ASCII upper case.
pub proof fn lemma_node_names(t: DomTree, page: DocumentInfo, a1: Seq<char>, a2: Seq<char>)
    requires
        t.live(arg_node(a1)),
    ensures
        ({
            let d = t.node(arg_node(a1)).data;
            let q = query_answer(t, page, "node_name"@, a1, a2);
            &&& d is Document ==> q == Some(DomAnswer::Text("#document"@))
            &&& d is Text ==> q == Some(DomAnswer::Text("#text"@))
            &&& d is Comment ==> q == Some(DomAnswer::Text("#comment"@))
            &&& d matches NodeData::Element { name, .. } ==> (q matches Some(DomAnswer::Text(s))
                && s.len() == name.local@.len() && forall|k: int|
                0 <= k < s.len() ==> #[trigger] s[k] == if 'a' <= name.local@[k] <= 'z' {
                    (((name.local@[k] as u8) - 32) as u8) as char
                } else {
                    name.local@[k]
                })
        }),
{
    reveal_strlit("document_node_id");
    assert("document_node_id"@ =~= seq!['d', 'o', 'c', 'u', 'm', 'e', 'n', 't', '_', 'n', 'o', 'd', 'e', '_', 'i', 'd']);
    reveal_strlit("document_title");
    assert("document_title"@ =~= seq!['d', 'o', 'c', 'u', 'm', 'e', 'n', 't', '_', 't', 'i', 't', 'l', 'e']);
    reveal_strlit("document_url");
    assert("document_url"@ =~= seq!['d', 'o', 'c', 'u', 'm', 'e', 'n', 't', '_', 'u', 'r', 'l']);
    reveal_strlit("document_referrer");
    assert("document_referrer"@ =~= seq!['d', 'o', 'c', 'u', 'm', 'e', 'n', 't', '_', 'r', 'e', 'f', 'e', 'r', 'r', 'e', 'r']);
    reveal_strlit("document_encoding");
    assert("document_encoding"@ =~= seq!['d', 'o', 'c', 'u', 'm', 'e', 'n', 't', '_', 'e', 'n', 'c', 'o', 'd', 'i', 'n', 'g']);
    reveal_strlit("document_element");
    assert("document_element"@ =~= seq!['d', 'o', 'c', 'u', 'm', 'e', 'n', 't', '_', 'e', 'l', 'e', 'm', 'e', 'n', 't']);
    reveal_strlit("document_doctype");
    assert("document_doctype"@ =~= seq!['d', 'o', 'c', 'u', 'm', 'e', 'n', 't', '_', 'd', 'o', 'c', 't', 'y', 'p', 'e']);
    reveal_strlit("get_element_by_id");
    assert("get_element_by_id"@ =~= seq!['g', 'e', 't', '_', 'e', 'l', 'e', 'm', 'e', 'n', 't', '_', 'b', 'y', '_', 'i', 'd']);
    reveal_strlit("node_type");
    assert("node_type"@ =~= seq!['n', 'o', 'd', 'e', '_', 't', 'y', 'p', 'e']);
    reveal_strlit("node_name");
    assert("node_name"@ =~= seq!['n', 'o', 'd', 'e', '_', 'n', 'a', 'm', 'e']);
    reveal_strlit("text_content");
    assert("text_content"@ =~= seq!['t', 'e', 'x', 't', '_', 'c', 'o', 'n', 't', 'e', 'n', 't']);
    reveal_strlit("parent_node");
    assert("parent_node"@ =~= seq!['p', 'a', 'r', 'e', 'n', 't', '_', 'n', 'o', 'd', 'e']);
    reveal_strlit("first_child");
    assert("first_child"@ =~= seq!['f', 'i', 'r', 's', 't', '_', 'c', 'h', 'i', 'l', 'd']);
    reveal_strlit("last_child");
    assert("last_child"@ =~= seq!['l', 'a', 's', 't', '_', 'c', 'h', 'i', 'l', 'd']);
    reveal_strlit("next_sibling");
    assert("next_sibling"@ =~= seq!['n', 'e', 'x', 't', '_', 's', 'i', 'b', 'l', 'i', 'n', 'g']);
    reveal_strlit("prev_sibling");
    assert("prev_sibling"@ =~= seq!['p', 'r', 'e', 'v', '_', 's', 'i', 'b', 'l', 'i', 'n', 'g']);

    let d = t.node(arg_node(a1)).data;
    if d is Element {
        let name = d->Element_name.local@;
        let q = query_answer(t, page, "node_name"@, a1, a2);
        assert(q == Some(DomAnswer::Text(crate::dom_ops::read::ascii_upper(name))));
    }
}

/// `textContent` of a text or comment node is its own text.
pub proof fn lemma_text_content_of_character_data(
    t: DomTree,
    page: DocumentInfo,
    a1: Seq<char>,
    a2: Seq<char>,
)
    requires
        t.live(arg_node(a1)),
    ensures
        ({
            let d = t.node(arg_node(a1)).data;
            let q = query_answer(t, page, "text_content"@, a1, a2);
            &&& d matches NodeData::Text { contents } ==> q == Some(DomAnswer::Text(contents@))
            &&& d matches NodeData::Comment { contents } ==> q == Some(DomAnswer::Text(contents@))
        }),
{
    reveal_strlit("document_node_id");
    assert("document_node_id"@ =~= seq!['d', 'o', 'c', 'u', 'm', 'e', 'n', 't', '_', 'n', 'o', 'd', 'e', '_', 'i', 'd']);
    reveal_strlit("document_title");
    assert("document_title"@ =~= seq!['d', 'o', 'c', 'u', 'm', 'e', 'n', 't', '_', 't', 'i', 't', 'l', 'e']);
    reveal_strlit("document_url");
    assert("document_url"@ =~= seq!['d', 'o', 'c', 'u', 'm', 'e', 'n', 't', '_', 'u', 'r', 'l']);
    reveal_strlit("document_referrer");
    assert("document_referrer"@ =~= seq!['d', 'o', 'c', 'u', 'm', 'e', 'n', 't', '_', 'r', 'e', 'f', 'e', 'r', 'r', 'e', 'r']);
    reveal_strlit("document_encoding");
    assert("document_encoding"@ =~= seq!['d', 'o', 'c', 'u', 'm', 'e', 'n', 't', '_', 'e', 'n', 'c', 'o', 'd', 'i', 'n', 'g']);
    reveal_strlit("document_element");
    assert("document_element"@ =~= seq!['d', 'o', 'c', 'u', 'm', 'e', 'n', 't', '_', 'e', 'l', 'e', 'm', 'e', 'n', 't']);
    reveal_strlit("document_doctype");
    assert("document_doctype"@ =~= seq!['d', 'o', 'c', 'u', 'm', 'e', 'n', 't', '_', 'd', 'o', 'c', 't', 'y', 'p', 'e']);
    reveal_strlit("get_element_by_id");
    assert("get_element_by_id"@ =~= seq!['g', 'e', 't', '_', 'e', 'l', 'e', 'm', 'e', 'n', 't', '_', 'b', 'y', '_', 'i', 'd']);
    reveal_strlit("node_type");
    assert("node_type"@ =~= seq!['n', 'o', 'd', 'e', '_', 't', 'y', 'p', 'e']);
    reveal_strlit("node_name");
    assert("node_name"@ =~= seq!['n', 'o', 'd', 'e', '_', 'n', 'a', 'm', 'e']);
    reveal_strlit("text_content");
    assert("text_content"@ =~= seq!['t', 'e', 'x', 't', '_', 'c', 'o', 'n', 't', 'e', 'n', 't']);
    reveal_strlit("parent_node");
    assert("parent_node"@ =~= seq!['p', 'a', 'r', 'e', 'n', 't', '_', 'n', 'o', 'd', 'e']);
    reveal_strlit("first_child");
    assert("first_child"@ =~= seq!['f', 'i', 'r', 's', 't', '_', 'c', 'h', 'i', 'l', 'd']);
    reveal_strlit("last_child");
    assert("last_child"@ =~= seq!['l', 'a', 's', 't', '_', 'c', 'h', 'i', 'l', 'd']);
    reveal_strlit("next_sibling");
    assert("next_sibling"@ =~= seq!['n', 'e', 'x', 't', '_', 's', 'i', 'b', 'l', 'i', 'n', 'g']);
    reveal_strlit("prev_sibling");
    assert("prev_sibling"@ =~= seq!['p', 'r', 'e', 'v', '_', 's', 'i', 'b', 'l', 'i', 'n', 'g']);

}

/// `childNodes` lists the node's children in order, and `hasChildNodes`
/// says whether there is any.
pub proof fn lemma_child_list(t: DomTree, page: DocumentInfo, a1: Seq<char>, a2: Seq<char>)
    requires
        t.wf(),
        t.live(arg_node(a1)),
    ensures
        ({
            let n = arg_node(a1);
            let ks = t.kids(n);
            &&& query_answer(t, page, "child_nodes"@, a1, a2) matches Some(DomAnswer::Ids(v))
                && v.len() == ks.len() && forall|k: int| 0 <= k < ks.len() ==> #[trigger] v[k] as nat == ks[k]
            &&& query_answer(t, page, "has_child_nodes"@, a1, a2) == Some(DomAnswer::Bool(ks.len() > 0))
        }),
{
    reveal_strlit("document_node_id");
    assert("document_node_id"@ =~= seq!['d', 'o', 'c', 'u', 'm', 'e', 'n', 't', '_', 'n', 'o', 'd', 'e', '_', 'i', 'd']);
    reveal_strlit("document_title");
    assert("document_title"@ =~= seq!['d', 'o', 'c', 'u', 'm', 'e', 'n', 't', '_', 't', 'i', 't', 'l', 'e']);
    reveal_strlit("document_url");
    assert("document_url"@ =~= seq!['d', 'o', 'c', 'u', 'm', 'e', 'n', 't', '_', 'u', 'r', 'l']);
    reveal_strlit("document_referrer");
    assert("document_referrer"@ =~= seq!['d', 'o', 'c', 'u', 'm', 'e', 'n', 't', '_', 'r', 'e', 'f', 'e', 'r', 'r', 'e', 'r']);
    reveal_strlit("document_encoding");
    assert("document_encoding"@ =~= seq!['d', 'o', 'c', 'u', 'm', 'e', 'n', 't', '_', 'e', 'n', 'c', 'o', 'd', 'i', 'n', 'g']);
    reveal_strlit("document_element");
    assert("document_element"@ =~= seq!['d', 'o', 'c', 'u', 'm', 'e', 'n', 't', '_', 'e', 'l', 'e', 'm', 'e', 'n', 't']);
    reveal_strlit("document_doctype");
    assert("document_doctype"@ =~= seq!['d', 'o', 'c', 'u', 'm', 'e', 'n', 't', '_', 'd', 'o', 'c', 't', 'y', 'p', 'e']);
    reveal_strlit("get_element_by_id");
    assert("get_element_by_id"@ =~= seq!['g', 'e', 't', '_', 'e', 'l', 'e', 'm', 'e', 'n', 't', '_', 'b', 'y', '_', 'i', 'd']);
    reveal_strlit("node_type");
    assert("node_type"@ =~= seq!['n', 'o', 'd', 'e', '_', 't', 'y', 'p', 'e']);
    reveal_strlit("node_name");
    assert("node_name"@ =~= seq!['n', 'o', 'd', 'e', '_', 'n', 'a', 'm', 'e']);
    reveal_strlit("text_content");
    assert("text_content"@ =~= seq!['t', 'e', 'x', 't', '_', 'c', 'o', 'n', 't', 'e', 'n', 't']);
    reveal_strlit("parent_node");
    assert("parent_node"@ =~= seq!['p', 'a', 'r', 'e', 'n', 't', '_', 'n', 'o', 'd', 'e']);
    reveal_strlit("first_child");
    assert("first_child"@ =~= seq!['f', 'i', 'r', 's', 't', '_', 'c', 'h', 'i', 'l', 'd']);
    reveal_strlit("last_child");
    assert("last_child"@ =~= seq!['l', 'a', 's', 't', '_', 'c', 'h', 'i', 'l', 'd']);
    reveal_strlit("next_sibling");
    assert("next_sibling"@ =~= seq!['n', 'e', 'x', 't', '_', 's', 'i', 'b', 'l', 'i', 'n', 'g']);
    reveal_strlit("prev_sibling");
    assert("prev_sibling"@ =~= seq!['p', 'r', 'e', 'v', '_', 's', 'i', 'b', 'l', 'i', 'n', 'g']);
    reveal_strlit("next_in_subtree");
    assert("next_in_subtree"@ =~= seq!['n', 'e', 'x', 't', '_', 'i', 'n', '_', 's', 'u', 'b', 't', 'r', 'e', 'e']);
    reveal_strlit("prev_in_subtree");
    assert("prev_in_subtree"@ =~= seq!['p', 'r', 'e', 'v', '_', 'i', 'n', '_', 's', 'u', 'b', 't', 'r', 'e', 'e']);
    reveal_strlit("next_after_subtree");
    assert("next_after_subtree"@ =~= seq!['n', 'e', 'x', 't', '_', 'a', 'f', 't', 'e', 'r', '_', 's', 'u', 'b', 't', 'r', 'e', 'e']);
    reveal_strlit("child_nodes");
    assert("child_nodes"@ =~= seq!['c', 'h', 'i', 'l', 'd', '_', 'n', 'o', 'd', 'e', 's']);
    reveal_strlit("tag_name");
    assert("tag_name"@ =~= seq!['t', 'a', 'g', '_', 'n', 'a', 'm', 'e']);
    reveal_strlit("local_name");
    assert("local_name"@ =~= seq!['l', 'o', 'c', 'a', 'l', '_', 'n', 'a', 'm', 'e']);
    reveal_strlit("namespace_uri");
    assert("namespace_uri"@ =~= seq!['n', 'a', 'm', 'e', 's', 'p', 'a', 'c', 'e', '_', 'u', 'r', 'i']);
    reveal_strlit("get_attribute");
    assert("get_attribute"@ =~= seq!['g', 'e', 't', '_', 'a', 't', 't', 'r', 'i', 'b', 'u', 't', 'e']);
    reveal_strlit("attribute_names");
    assert("attribute_names"@ =~= seq!['a', 't', 't', 'r', 'i', 'b', 'u', 't', 'e', '_', 'n', 'a', 'm', 'e', 's']);
    reveal_strlit("get_attribute_ns");
    assert("get_attribute_ns"@ =~= seq!['g', 'e', 't', '_', 'a', 't', 't', 'r', 'i', 'b', 'u', 't', 'e', '_', 'n', 's']);
    reveal_strlit("pi_target");
    assert("pi_target"@ =~= seq!['p', 'i', '_', 't', 'a', 'r', 'g', 'e', 't']);
    reveal_strlit("doctype_name");
    assert("doctype_name"@ =~= seq!['d', 'o', 'c', 't', 'y', 'p', 'e', '_', 'n', 'a', 'm', 'e']);
    reveal_strlit("doctype_public_id");
    assert("doctype_public_id"@ =~= seq!['d', 'o', 'c', 't', 'y', 'p', 'e', '_', 'p', 'u', 'b', 'l', 'i', 'c', '_', 'i', 'd']);
    reveal_strlit("element_children");
    assert("element_children"@ =~= seq!['e', 'l', 'e', 'm', 'e', 'n', 't', '_', 'c', 'h', 'i', 'l', 'd', 'r', 'e', 'n']);
    reveal_strlit("has_child_nodes");
    assert("has_child_nodes"@ =~= seq!['h', 'a', 's', '_', 'c', 'h', 'i', 'l', 'd', '_', 'n', 'o', 'd', 'e', 's']);
    let n = arg_node(a1);
    t.lemma_at(n);
    t.lemma_kids_bound(n);
    let ks = t.kids(n);
    if let Some(DomAnswer::Ids(v)) = query_answer(t, page, "child_nodes"@, a1, a2) {
        assert forall|k: int| 0 <= k < ks.len() implies #[trigger] v[k] as nat == ks[k] by {
            t.lemma_kid_at(n, k);
            t.lemma_at(ks[k]);
        }
    }
    if ks.len() > 0 {
        t.lemma_kid_at(n, 0);
    }
}

/// Within the subtree of the node named by `a1`, the `prev_in_subtree` reading
/// of node `d` answers `c` exactly when the `next_in_subtree` reading of `c`
/// answers `d`, for `c` and `d` each that node or below it.
pub proof fn lemma_subtree_walk_readings(
    t: DomTree,
    page: DocumentInfo,
    a1: Seq<char>,
    ca: Seq<char>,
    da: Seq<char>,
)
    requires
        t.wf(),
        t.live(arg_node(a1)),
        t.live(arg_node(da)),
        arg_node(ca) == arg_node(a1) || t.anc(arg_node(ca)).contains(arg_node(a1)),
        arg_node(da) == arg_node(a1) || t.anc(arg_node(da)).contains(arg_node(a1)),
    ensures
        query_answer(t, page, "prev_in_subtree"@, a1, da) == Some(DomAnswer::Int(arg_node(ca) as int))
            <==> query_answer(t, page, "next_in_subtree"@, a1, ca) == Some(
            DomAnswer::Int(arg_node(da) as int),
        ),
{
    reveal_strlit("document_node_id");
    assert("document_node_id"@ =~= seq!['d', 'o', 'c', 'u', 'm', 'e', 'n', 't', '_', 'n', 'o', 'd', 'e', '_', 'i', 'd']);
    reveal_strlit("document_title");
    assert("document_title"@ =~= seq!['d', 'o', 'c', 'u', 'm', 'e', 'n', 't', '_', 't', 'i', 't', 'l', 'e']);
    reveal_strlit("document_url");
    assert("document_url"@ =~= seq!['d', 'o', 'c', 'u', 'm', 'e', 'n', 't', '_', 'u', 'r', 'l']);
    reveal_strlit("document_referrer");
    assert("document_referrer"@ =~= seq!['d', 'o', 'c', 'u', 'm', 'e', 'n', 't', '_', 'r', 'e', 'f', 'e', 'r', 'r', 'e', 'r']);
    reveal_strlit("document_encoding");
    assert("document_encoding"@ =~= seq!['d', 'o', 'c', 'u', 'm', 'e', 'n', 't', '_', 'e', 'n', 'c', 'o', 'd', 'i', 'n', 'g']);
    reveal_strlit("document_element");
    assert("document_element"@ =~= seq!['d', 'o', 'c', 'u', 'm', 'e', 'n', 't', '_', 'e', 'l', 'e', 'm', 'e', 'n', 't']);
    reveal_strlit("document_doctype");
    assert("document_doctype"@ =~= seq!['d', 'o', 'c', 'u', 'm', 'e', 'n', 't', '_', 'd', 'o', 'c', 't', 'y', 'p', 'e']);
    reveal_strlit("get_element_by_id");
    assert("get_element_by_id"@ =~= seq!['g', 'e', 't', '_', 'e', 'l', 'e', 'm', 'e', 'n', 't', '_', 'b', 'y', '_', 'i', 'd']);
    reveal_strlit("node_type");
    assert("node_type"@ =~= seq!['n', 'o', 'd', 'e', '_', 't', 'y', 'p', 'e']);
    reveal_strlit("node_name");
    assert("node_name"@ =~= seq!['n', 'o', 'd', 'e', '_', 'n', 'a', 'm', 'e']);
    reveal_strlit("text_content");
    assert("text_content"@ =~= seq!['t', 'e', 'x', 't', '_', 'c', 'o', 'n', 't', 'e', 'n', 't']);
    reveal_strlit("parent_node");
    assert("parent_node"@ =~= seq!['p', 'a', 'r', 'e', 'n', 't', '_', 'n', 'o', 'd', 'e']);
    reveal_strlit("first_child");
    assert("first_child"@ =~= seq!['f', 'i', 'r', 's', 't', '_', 'c', 'h', 'i', 'l', 'd']);
    reveal_strlit("last_child");
    assert("last_child"@ =~= seq!['l', 'a', 's', 't', '_', 'c', 'h', 'i', 'l', 'd']);
    reveal_strlit("next_sibling");
    assert("next_sibling"@ =~= seq!['n', 'e', 'x', 't', '_', 's', 'i', 'b', 'l', 'i', 'n', 'g']);
    reveal_strlit("prev_sibling");
    assert("prev_sibling"@ =~= seq!['p', 'r', 'e', 'v', '_', 's', 'i', 'b', 'l', 'i', 'n', 'g']);
    reveal_strlit("next_in_subtree");
    assert("next_in_subtree"@ =~= seq!['n', 'e', 'x', 't', '_', 'i', 'n', '_', 's', 'u', 'b', 't', 'r', 'e', 'e']);
    reveal_strlit("prev_in_subtree");
    assert("prev_in_subtree"@ =~= seq!['p', 'r', 'e', 'v', '_', 'i', 'n', '_', 's', 'u', 'b', 't', 'r', 'e', 'e']);
    reveal_strlit("next_after_subtree");
    assert("next_after_subtree"@ =~= seq!['n', 'e', 'x', 't', '_', 'a', 'f', 't', 'e', 'r', '_', 's', 'u', 'b', 't', 'r', 'e', 'e']);
    reveal_strlit("child_nodes");
    assert("child_nodes"@ =~= seq!['c', 'h', 'i', 'l', 'd', '_', 'n', 'o', 'd', 'e', 's']);
    reveal_strlit("tag_name");
    assert("tag_name"@ =~= seq!['t', 'a', 'g', '_', 'n', 'a', 'm', 'e']);
    reveal_strlit("local_name");
    assert("local_name"@ =~= seq!['l', 'o', 'c', 'a', 'l', '_', 'n', 'a', 'm', 'e']);
    reveal_strlit("namespace_uri");
    assert("namespace_uri"@ =~= seq!['n', 'a', 'm', 'e', 's', 'p', 'a', 'c', 'e', '_', 'u', 'r', 'i']);
    reveal_strlit("get_attribute");
    assert("get_attribute"@ =~= seq!['g', 'e', 't', '_', 'a', 't', 't', 'r', 'i', 'b', 'u', 't', 'e']);
    reveal_strlit("attribute_names");
    assert("attribute_names"@ =~= seq!['a', 't', 't', 'r', 'i', 'b', 'u', 't', 'e', '_', 'n', 'a', 'm', 'e', 's']);
    reveal_strlit("get_attribute_ns");
    assert("get_attribute_ns"@ =~= seq!['g', 'e', 't', '_', 'a', 't', 't', 'r', 'i', 'b', 'u', 't', 'e', '_', 'n', 's']);
    reveal_strlit("pi_target");
    assert("pi_target"@ =~= seq!['p', 'i', '_', 't', 'a', 'r', 'g', 'e', 't']);
    reveal_strlit("doctype_name");
    assert("doctype_name"@ =~= seq!['d', 'o', 'c', 't', 'y', 'p', 'e', '_', 'n', 'a', 'm', 'e']);
    reveal_strlit("doctype_public_id");
    assert("doctype_public_id"@ =~= seq!['d', 'o', 'c', 't', 'y', 'p', 'e', '_', 'p', 'u', 'b', 'l', 'i', 'c', '_', 'i', 'd']);
    reveal_strlit("element_children");
    assert("element_children"@ =~= seq!['e', 'l', 'e', 'm', 'e', 'n', 't', '_', 'c', 'h', 'i', 'l', 'd', 'r', 'e', 'n']);
    reveal_strlit("has_child_nodes");
    assert("has_child_nodes"@ =~= seq!['h', 'a', 's', '_', 'c', 'h', 'i', 'l', 'd', '_', 'n', 'o', 'd', 'e', 's']);
    crate::tree::nav::lemma_prev_next_inverse(t, arg_node(a1), arg_node(ca), arg_node(da));
}

} // verus!
