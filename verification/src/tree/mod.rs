//! Arena-backed DOM tree.
//!
//! Nodes live in a slot vector and are linked through parent / first-child /
//! last-child / sibling indices. Shadow roots are ordinary arena nodes whose
//! host edge is kept in a separate registry, so light-tree walks never cross
//! into a shadow tree. Ghost state records, for each live node, the ordered
//! list of its children and its chain of host-including ancestors; the
//! well-formedness predicate ties the links to that ghost state.
use vstd::prelude::*;

pub mod model;
pub mod lemmas;
pub mod query;
pub mod arena;
pub mod node;
pub mod mutate;
pub mod link;
pub mod shadow;
pub mod walk;
pub mod free;
pub mod ids;
pub mod data;
pub mod nav;
pub mod slots;
pub mod copy;
pub mod copy_law;

verus! {

/// Index of a node slot in a `DomTree` arena.
#[derive(Clone, Copy, Debug, PartialEq, Eq, Hash, Structural)]
pub struct NodeId(pub u32);

impl NodeId {
    pub fn new(val: u32) -> (r: NodeId)
        ensures
            r.0 == val,
    {
        NodeId(val)
    }

    pub fn index(self) -> (r: usize)
        ensures
            r == self.0,
    {
        self.0 as usize
    }

    pub fn raw(self) -> (r: u32)
        ensures
            r == self.0,
    {
        self.0
    }

    pub open spec fn id(self) -> nat {
        self.0 as nat
    }
}

/// The encapsulation mode recorded by a native shadow root.
#[derive(Clone, Copy, Debug, PartialEq, Eq, Hash, Structural)]
pub enum ShadowRootMode {
    Open,
    Closed,
}

/// Stable metadata for a shadow-root node in this tree.
///
/// A shadow root owns an ordinary child list, but is not an ordinary child of
/// its host. The separate host edge keeps `parentNode`-style walks scoped to
/// one tree while still allowing composed-tree operations to cross explicitly.
#[derive(Clone, Copy, Debug, PartialEq, Eq, Hash, Structural)]
pub struct ShadowRoot {
    pub id: NodeId,
    pub host: NodeId,
    pub mode: ShadowRootMode,
}

#[derive(Clone, Copy, Debug, PartialEq, Eq, Structural)]
pub enum AttachShadowError {
    HostIsNotElement,
    HostAlreadyHasShadowRoot,
    InvalidShadowRoot,
}

/// The description that `AttachShadowError::message` gives for each error.
pub open spec fn attach_shadow_error_text(e: AttachShadowError) -> Seq<char> {
    match e {
        AttachShadowError::HostIsNotElement => "shadow host is not an element"@,
        AttachShadowError::HostAlreadyHasShadowRoot => "shadow host already has a shadow root"@,
        AttachShadowError::InvalidShadowRoot => "shadow root is not a detached fragment node"@,
    }
}

impl AttachShadowError {
    /// Human-readable description of the error.
    pub fn message(&self) -> (s: &'static str)
        ensures
            s@ == attach_shadow_error_text(*self),
    {
        match self {
            AttachShadowError::HostIsNotElement => "shadow host is not an element",
            AttachShadowError::HostAlreadyHasShadowRoot => "shadow host already has a shadow root",
            AttachShadowError::InvalidShadowRoot => "shadow root is not a detached fragment node",
        }
    }
}

/// A qualified element or attribute name: optional prefix, namespace URL and
/// local name, each held as plain text.
#[derive(Clone, Debug, PartialEq, Eq)]
pub struct QualName {
    pub prefix: Option<String>,
    pub ns: String,
    pub local: String,
}

#[derive(Clone, Debug, PartialEq, Eq)]
pub struct Attribute {
    pub name: QualName,
    pub value: String,
}

#[derive(Clone, Debug)]
pub enum NodeData {
    Document,
    Doctype { name: String, public_id: String, system_id: String },
    Element {
        name: QualName,
        attrs: Vec<Attribute>,
        template_contents: Option<NodeId>,
        mathml_annotation_xml_integration_point: bool,
    },
    Text { contents: String },
    Comment { contents: String },
    ProcessingInstruction { target: String, data: String },
}

#[derive(Clone, Debug)]
pub struct Node {
    pub id: NodeId,
    /// Shadow-including document connectivity, maintained incrementally on
    /// insertion/removal so hot DOM mutation paths do not walk every ancestor.
    pub connected: bool,
    pub parent: Option<NodeId>,
    pub first_child: Option<NodeId>,
    pub last_child: Option<NodeId>,
    pub prev_sibling: Option<NodeId>,
    pub next_sibling: Option<NodeId>,
    pub data: NodeData,
}

pub struct DomTree {
    pub(crate) nodes: Vec<Option<Node>>,
    pub(crate) free_list: Vec<u32>,
    pub(crate) document: NodeId,
    /// Best-effort id-attribute index: each key at most once.
    pub(crate) id_index: Vec<(String, NodeId)>,
    /// `root_info[r]` is the registry entry of shadow root `r`.
    pub(crate) root_info: Vec<Option<ShadowRoot>>,
    /// `hosted_root[h]` is the shadow root hosted by `h`.
    pub(crate) hosted_root: Vec<Option<NodeId>>,
    /// Full-document HTML parsing enables declarative shadow roots. Fragment
    /// parsing (including innerHTML) deliberately leaves this false.
    pub(crate) allow_declarative_shadow_roots: bool,
    /// Whether the document was parsed in (full) quirks mode.
    pub(crate) quirks: bool,
    /// Ordered children of every live node.
    pub(crate) kids: Ghost<Map<nat, Seq<nat>>>,
    /// Host-including ancestors of every live node, nearest first.
    pub(crate) anc: Ghost<Map<nat, Seq<nat>>>,
}

} // verus!
