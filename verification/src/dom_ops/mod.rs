//! The DOM command channel: each command names a DOM reading or mutation,
//! with up to two text arguments, and gets a reply that the host writes out
//! as JSON text.
//!
//! Node arguments are decimal node ids; one that does not parse as a `u32`
//! names node 0 (the document) for readings, and makes the structural
//! mutations refuse. Selector matching and HTML parsing or serialisation
//! are not handled here (`DomReply::NotHandled`).
use vstd::prelude::*;

use crate::mutation_impact::parsed_u32;
use crate::tree::{DomTree, NodeId};

pub mod read;
pub mod write;
pub mod dispatch;
pub mod laws;



verus! {

/// What a DOM command answers.
#[derive(Debug)]
pub enum DomReply {
    /// JSON `null`.
    Null,
    /// A node id (-1 for none), a node type code, an index or an order.
    Int(i64),
    Bool(bool),
    /// A JSON string.
    Text(String),
    /// A JSON string, or `null`.
    OptText(Option<String>),
    /// A JSON array of node ids.
    Ids(Vec<u32>),
    /// A JSON array of strings.
    Names(Vec<String>),
    /// A doctype node: its name, public id, system id and node id.
    Doctype { name: String, public_id: String, system_id: String, node_id: u32 },
    /// A command that needs the selector engine or the HTML parser or
    /// serialiser.
    NotHandled,
}

/// The mathematical value of a `DomReply`.
pub enum DomAnswer {
    Null,
    Int(int),
    Bool(bool),
    Text(Seq<char>),
    OptText(Option<Seq<char>>),
    Ids(Seq<u32>),
    Names(Seq<Seq<char>>),
    Doctype(Seq<char>, Seq<char>, Seq<char>, u32),
    NotHandled,
}

pub open spec fn opt_text_view(o: Option<String>) -> Option<Seq<char>> {
    match o {
        Some(s) => Some(s@),
        None => None,
    }
}

pub open spec fn texts_view(v: Seq<String>) -> Seq<Seq<char>> {
    v.map_values(|s: String| s@)
}

impl View for DomReply {
    type V = DomAnswer;

    open spec fn view(&self) -> DomAnswer {
        match self {
            DomReply::Null => DomAnswer::Null,
            DomReply::Int(x) => DomAnswer::Int(*x as int),
            DomReply::Bool(b) => DomAnswer::Bool(*b),
            DomReply::Text(s) => DomAnswer::Text(s@),
            DomReply::OptText(o) => DomAnswer::OptText(opt_text_view(*o)),
            DomReply::Ids(v) => DomAnswer::Ids(v@),
            DomReply::Names(v) => DomAnswer::Names(texts_view(v@)),
            DomReply::Doctype { name, public_id, system_id, node_id } => DomAnswer::Doctype(
                name@,
                public_id@,
                system_id@,
                *node_id,
            ),
            DomReply::NotHandled => DomAnswer::NotHandled,
        }
    }
}

/// Page facts the DOM commands read besides the tree itself.
pub struct DocumentInfo {
    pub url: String,
    pub referrer: String,
    pub encoding: String,
}

/// The node a node argument names: its decimal value, or node 0 when it
/// does not parse.
pub open spec fn arg_node(a: Seq<char>) -> nat {
    match parsed_u32(a) {
        Some(v) => v as nat,
        None => 0,
    }
}

/// A node id as the reply writes it, -1 for none.
pub open spec fn id_or_none(o: Option<nat>) -> int {
    match o {
        Some(x) => x as int,
        None => -1,
    }
}

/// The raw values of node ids.
pub open spec fn raw_ids(s: Seq<NodeId>) -> Seq<u32> {
    s.map_values(|x: NodeId| x.0)
}

} // verus!
