//! Node payloads: names, attributes and copies.
use vstd::prelude::*;

use super::{Attribute, Node, NodeData, NodeId, QualName};
use crate::strutil::{chars_of, concat_str, owned, push_char, str_eq, string_from_range};

verus! {

pub open spec fn opt_str_eq(a: Option<String>, b: Option<String>) -> bool {
    match (a, b) {
        (Some(x), Some(y)) => x@ == y@,
        (None, None) => true,
        _ => false,
    }
}

impl QualName {
    pub open spec fn same_as(self, o: QualName) -> bool {
        opt_str_eq(self.prefix, o.prefix) && self.ns@ == o.ns@ && self.local@ == o.local@
    }

    pub fn duplicate(&self) -> (r: QualName)
        ensures
            r.same_as(*self),
    {
        let prefix = match &self.prefix {
            Some(p) => Some(p.clone()),
            None => None,
        };
        QualName { prefix, ns: self.ns.clone(), local: self.local.clone() }
    }
}

impl Attribute {
    pub open spec fn same_as(self, o: Attribute) -> bool {
        self.name.same_as(o.name) && self.value@ == o.value@
    }

    pub fn duplicate(&self) -> (r: Attribute)
        ensures
            r.same_as(*self),
    {
        Attribute { name: self.name.duplicate(), value: self.value.clone() }
    }
}

pub open spec fn same_attrs(a: Seq<Attribute>, b: Seq<Attribute>) -> bool {
    a.len() == b.len() && forall|i: int| 0 <= i < a.len() ==> #[trigger] a[i].same_as(b[i])
}

/// Copies of each attribute, in order.
pub fn duplicate_attrs(attrs: &Vec<Attribute>) -> (r: Vec<Attribute>)
    ensures
        same_attrs(r@, attrs@),
{
    let mut r: Vec<Attribute> = Vec::new();
    let mut i: usize = 0;
    while i < attrs.len()
        invariant
            i <= attrs@.len(),
            r@.len() == i,
            forall|k: int| 0 <= k < i ==> #[trigger] r@[k].same_as(attrs@[k]),
        decreases attrs@.len() - i,
    {
        r.push(attrs[i].duplicate());
        i = i + 1;
    }
    r
}

impl NodeData {
    /// The same variant with the same text in every field.
    pub open spec fn same_as(self, o: NodeData) -> bool {
        match (self, o) {
            (NodeData::Document, NodeData::Document) => true,
            (
                NodeData::Doctype { name: a1, public_id: a2, system_id: a3 },
                NodeData::Doctype { name: b1, public_id: b2, system_id: b3 },
            ) => a1@ == b1@ && a2@ == b2@ && a3@ == b3@,
            (
                NodeData::Element {
                    name: a1,
                    attrs: a2,
                    template_contents: a3,
                    mathml_annotation_xml_integration_point: a4,
                },
                NodeData::Element {
                    name: b1,
                    attrs: b2,
                    template_contents: b3,
                    mathml_annotation_xml_integration_point: b4,
                },
            ) => a1.same_as(b1) && same_attrs(a2@, b2@) && a3 == b3 && a4 == b4,
            (NodeData::Text { contents: a }, NodeData::Text { contents: b }) => a@ == b@,
            (NodeData::Comment { contents: a }, NodeData::Comment { contents: b }) => a@ == b@,
            (
                NodeData::ProcessingInstruction { target: a1, data: a2 },
                NodeData::ProcessingInstruction { target: b1, data: b2 },
            ) => a1@ == b1@ && a2@ == b2@,
            _ => false,
        }
    }

    pub fn duplicate(&self) -> (r: NodeData)
        ensures
            r.same_as(*self),
    {
        match self {
            NodeData::Document => NodeData::Document,
            NodeData::Doctype { name, public_id, system_id } => NodeData::Doctype {
                name: name.clone(),
                public_id: public_id.clone(),
                system_id: system_id.clone(),
            },
            NodeData::Element {
                name,
                attrs,
                template_contents,
                mathml_annotation_xml_integration_point,
            } => NodeData::Element {
                name: name.duplicate(),
                attrs: duplicate_attrs(attrs),
                template_contents: *template_contents,
                mathml_annotation_xml_integration_point: *mathml_annotation_xml_integration_point,
            },
            NodeData::Text { contents } => NodeData::Text { contents: contents.clone() },
            NodeData::Comment { contents } => NodeData::Comment { contents: contents.clone() },
            NodeData::ProcessingInstruction { target, data } => NodeData::ProcessingInstruction {
                target: target.clone(),
                data: data.clone(),
            },
        }
    }
}

impl Node {
    /// Equal links and flags, and data with the same content.
    pub open spec fn same_as(self, o: Node) -> bool {
        &&& self.id == o.id
        &&& self.connected == o.connected
        &&& self.parent == o.parent
        &&& self.first_child == o.first_child
        &&& self.last_child == o.last_child
        &&& self.prev_sibling == o.prev_sibling
        &&& self.next_sibling == o.next_sibling
        &&& self.data.same_as(o.data)
    }

    pub fn duplicate(&self) -> (r: Node)
        ensures
            r.same_as(*self),
    {
        Node {
            id: self.id,
            connected: self.connected,
            parent: self.parent,
            first_child: self.first_child,
            last_child: self.last_child,
            prev_sibling: self.prev_sibling,
            next_sibling: self.next_sibling,
            data: self.data.duplicate(),
        }
    }

    pub fn is_document(&self) -> (r: bool)
        ensures
            r == self.data is Document,
    {
        match self.data {
            NodeData::Document => true,
            _ => false,
        }
    }

    pub fn is_element(&self) -> (r: bool)
        ensures
            r == self.data is Element,
    {
        match self.data {
            NodeData::Element { .. } => true,
            _ => false,
        }
    }

    pub fn is_text(&self) -> (r: bool)
        ensures
            r == self.data is Text,
    {
        match self.data {
            NodeData::Text { .. } => true,
            _ => false,
        }
    }
}

/// `prefix:local`, or `local` without a prefix.
pub open spec fn qname_text(n: QualName) -> Seq<char> {
    match n.prefix {
        Some(p) => p@ + seq![':'] + n.local@,
        None => n.local@,
    }
}

/// Index of the first attribute satisfying `p`, or -1.
pub open spec fn first_where(s: Seq<Attribute>, p: spec_fn(Attribute) -> bool) -> int
    decreases s.len(),
{
    if s.len() == 0 {
        -1
    } else if p(s[0]) {
        0
    } else {
        let r = first_where(s.drop_first(), p);
        if r < 0 {
            -1
        } else {
            r + 1
        }
    }
}

/// `first_where` agrees with a scan that found its first match at `i`, or
/// none among the first `i` attributes.
pub proof fn lemma_first_where(s: Seq<Attribute>, p: spec_fn(Attribute) -> bool, i: int)
    requires
        0 <= i <= s.len(),
        forall|j: int| 0 <= j < i ==> !p(#[trigger] s[j]),
    ensures
        i < s.len() && p(s[i]) ==> first_where(s, p) == i,
        i == s.len() ==> first_where(s, p) == -1,
        first_where(s, p) == -1 || (0 <= first_where(s, p) < s.len() && p(s[first_where(s, p)])),
    decreases s.len(),
{
    if s.len() > 0 {
        if i > 0 {
            assert forall|j: int| 0 <= j < i - 1 implies !p(#[trigger] s.drop_first()[j]) by {
                assert(s.drop_first()[j] == s[j + 1]);
            }
            lemma_first_where(s.drop_first(), p, i - 1);
        } else {
            lemma_first_where(s.drop_first(), p, 0);
        }
    }
}

/// Attributes matched by their qualified name.
pub open spec fn qname_is(name: Seq<char>) -> spec_fn(Attribute) -> bool {
    |a: Attribute| qname_text(a.name) == name
}

/// Attributes matched by namespace and local name.
pub open spec fn ns_local_is(ns: Seq<char>, local: Seq<char>) -> spec_fn(Attribute) -> bool {
    |a: Attribute| a.name.ns@ == ns && a.name.local@ == local
}

/// Value of the first attribute satisfying `p`.
pub open spec fn value_where(s: Seq<Attribute>, p: spec_fn(Attribute) -> bool) -> Option<Seq<char>> {
    if first_where(s, p) >= 0 {
        Some(s[first_where(s, p)].value@)
    } else {
        None
    }
}

/// The attributes of `s` not satisfying `p`, in order.
pub open spec fn keep_where_not(s: Seq<Attribute>, p: spec_fn(Attribute) -> bool) -> Seq<Attribute>
    decreases s.len(),
{
    if s.len() == 0 {
        Seq::empty()
    } else if p(s.last()) {
        keep_where_not(s.drop_last(), p)
    } else {
        keep_where_not(s.drop_last(), p).push(s.last())
    }
}

/// `f` is `o` after `Node::set_attribute_ns(ns, q, value)`.
pub open spec fn ns_attr_set(o: Node, f: Node, ns: Seq<char>, q: Seq<char>, value: Seq<char>) -> bool {
    &&& f.same_but_attrs(o)
    &&& match o.attrs_of() {
        None => f == o,
        Some(a) => {
            let c = first_colon(q);
            let local = if c >= 0 { q.skip(c + 1) } else { q };
            let k = first_where(a, ns_local_is(ns, local));
            let b = f.attrs_of()->Some_0;
            &&& f.attrs_of() is Some
            &&& k >= 0 ==> b.len() == a.len() && (forall|j: int|
                0 <= j < a.len() && j != k ==> #[trigger] b[j] == a[j]) && b[k].name.ns
                == a[k].name.ns && b[k].name.local == a[k].name.local && b[k].value@ == value
                && (c >= 0 ==> b[k].name.prefix is Some && b[k].name.prefix->Some_0@ == q.take(c))
                && (c < 0 ==> b[k].name.prefix is None)
            &&& k < 0 ==> b.len() == a.len() + 1 && b.drop_last() == a && b.last().name.ns@ == ns
                && b.last().name.local@ == local && b.last().value@ == value && (c >= 0
                ==> b.last().name.prefix is Some && b.last().name.prefix->Some_0@ == q.take(c))
                && (c < 0 ==> b.last().name.prefix is None)
        },
    }
}

/// Index of the first `:` in `q`, or -1.
pub open spec fn first_colon(q: Seq<char>) -> int
    decreases q.len(),
{
    if q.len() == 0 {
        -1
    } else if q[0] == ':' {
        0
    } else if first_colon(q.drop_first()) < 0 {
        -1
    } else {
        first_colon(q.drop_first()) + 1
    }
}

proof fn lemma_first_colon(q: Seq<char>, i: int)
    requires
        0 <= i <= q.len(),
        forall|j: int| 0 <= j < i ==> q[j] != ':',
    ensures
        i < q.len() && q[i] == ':' ==> first_colon(q) == i,
        i == q.len() ==> first_colon(q) == -1,
    decreases q.len(),
{
    if q.len() > 0 && i > 0 {
        assert forall|j: int| 0 <= j < i - 1 implies q.drop_first()[j] != ':' by {
            assert(q.drop_first()[j] == q[j + 1]);
        }
        lemma_first_colon(q.drop_first(), i - 1);
    }
}

impl Attribute {
    /// `prefix:local`, or the local name alone.
    pub fn qualified_name(&self) -> (r: String)
        ensures
            r@ == qname_text(self.name),
    {
        match &self.name.prefix {
            Some(prefix) => {
                let mut head = owned(prefix.as_str());
                push_char(&mut head, ':');
                concat_str(head.as_str(), self.name.local.as_str())
            },
            None => owned(self.name.local.as_str()),
        }
    }

    /// Whether `name` is this attribute's qualified name.
    pub fn qualified_name_eq(&self, name: &str) -> (r: bool)
        ensures
            r == (name@ == qname_text(self.name)),
    {
        let q = self.qualified_name();
        str_eq(name, q.as_str())
    }
}

impl Node {
    /// The attributes of an element.
    pub open spec fn attrs_of(self) -> Option<Seq<Attribute>> {
        match self.data {
            NodeData::Element { attrs, .. } => Some(attrs@),
            _ => None,
        }
    }

    /// Value of the first attribute with qualified name `name`.
    pub open spec fn attribute(self, name: Seq<char>) -> Option<Seq<char>> {
        match self.attrs_of() {
            Some(a) => value_where(a, qname_is(name)),
            None => None,
        }
    }

    pub fn as_element(&self) -> (r: Option<&QualName>)
        ensures
            match self.data {
                NodeData::Element { name, .. } => r == Some(&name),
                _ => r is None,
            },
    {
        match &self.data {
            NodeData::Element { name, .. } => Some(name),
            _ => None,
        }
    }

    pub fn attrs(&self) -> (r: Option<&[Attribute]>)
        ensures
            match self.attrs_of() {
                Some(a) => r is Some && r->Some_0@ == a,
                None => r is None,
            },
    {
        match &self.data {
            NodeData::Element { attrs, .. } => Some(attrs.as_slice()),
            _ => None,
        }
    }

    pub fn text_content_of_text_node(&self) -> (r: Option<&str>)
        ensures
            match self.data {
                NodeData::Text { contents } => r is Some && r->Some_0@ == contents@,
                _ => r is None,
            },
    {
        match &self.data {
            NodeData::Text { contents } => Some(contents.as_str()),
            _ => None,
        }
    }

    fn find_attr(attrs: &Vec<Attribute>, name: &str) -> (r: Option<usize>)
        ensures
            match r {
                Some(k) => k == first_where(attrs@, qname_is(name@)) && k < attrs@.len(),
                None => first_where(attrs@, qname_is(name@)) == -1,
            },
    {
        let mut i: usize = 0;
        while i < attrs.len()
            invariant
                i <= attrs@.len(),
                forall|j: int| 0 <= j < i ==> !qname_is(name@)(#[trigger] attrs@[j]),
            decreases attrs@.len() - i,
        {
            if attrs[i].qualified_name_eq(name) {
                proof {
                    lemma_first_where(attrs@, qname_is(name@), i as int);
                }
                return Some(i);
            }
            i = i + 1;
        }
        proof {
            lemma_first_where(attrs@, qname_is(name@), i as int);
        }
        None
    }

    fn find_attr_ns(attrs: &Vec<Attribute>, ns: &str, local: &str) -> (r: Option<usize>)
        ensures
            match r {
                Some(k) => k == first_where(attrs@, ns_local_is(ns@, local@)) && k < attrs@.len(),
                None => first_where(attrs@, ns_local_is(ns@, local@)) == -1,
            },
    {
        let mut i: usize = 0;
        while i < attrs.len()
            invariant
                i <= attrs@.len(),
                forall|j: int| 0 <= j < i ==> !ns_local_is(ns@, local@)(#[trigger] attrs@[j]),
            decreases attrs@.len() - i,
        {
            if str_eq(attrs[i].name.ns.as_str(), ns) && str_eq(attrs[i].name.local.as_str(), local) {
                proof {
                    lemma_first_where(attrs@, ns_local_is(ns@, local@), i as int);
                }
                return Some(i);
            }
            i = i + 1;
        }
        proof {
            lemma_first_where(attrs@, ns_local_is(ns@, local@), i as int);
        }
        None
    }

    /// Value of the first attribute whose qualified name is `name`.
    pub fn get_attribute(&self, name: &str) -> (r: Option<&str>)
        ensures
            match r {
                Some(v) => self.attribute(name@) == Some(v@),
                None => self.attribute(name@) is None,
            },
    {
        match &self.data {
            NodeData::Element { attrs, .. } => match Self::find_attr(attrs, name) {
                Some(k) => Some(attrs[k].value.as_str()),
                None => None,
            },
            _ => None,
        }
    }

    /// Value of the first attribute in namespace `ns` with local name
    /// `local`.
    pub fn get_attribute_ns(&self, ns: &str, local: &str) -> (r: Option<&str>)
        ensures
            match r {
                Some(v) => self.attrs_of() is Some && value_where(
                    self.attrs_of()->Some_0,
                    ns_local_is(ns@, local@),
                ) == Some(v@),
                None => self.attrs_of() is None || value_where(
                    self.attrs_of()->Some_0,
                    ns_local_is(ns@, local@),
                ) is None,
            },
    {
        match &self.data {
            NodeData::Element { attrs, .. } => match Self::find_attr_ns(attrs, ns, local) {
                Some(k) => Some(attrs[k].value.as_str()),
                None => None,
            },
            _ => None,
        }
    }

    /// Sets the first attribute whose qualified name is `name`, or appends
    /// an unprefixed one in no namespace. Not an element: no change.
    pub fn set_attribute(&mut self, name: &str, value: String)
        ensures
            final(self).same_but_attrs(*old(self)),
            match old(self).attrs_of() {
                None => *final(self) == *old(self),
                Some(a) => {
                    let k = first_where(a, qname_is(name@));
                    let b = final(self).attrs_of()->Some_0;
                    &&& final(self).attrs_of() is Some
                    &&& k >= 0 ==> b == a.update(k, Attribute { value, ..a[k] })
                    &&& k < 0 ==> b.len() == a.len() + 1 && b.drop_last() == a
                        && b.last().name.prefix is None && b.last().name.ns@ == Seq::<char>::empty()
                        && b.last().name.local@ == name@ && b.last().value == value
                },
            },
    {
        match &mut self.data {
            NodeData::Element { attrs, .. } => {
                match Self::find_attr(attrs, name) {
                    Some(k) => {
                        let mut a = attrs.remove(k);
                        a.value = value;
                        attrs.insert(k, a);
                    },
                    None => {
                        attrs.push(
                            Attribute {
                                name: QualName { prefix: None, ns: String::new(), local: owned(name) },
                                value,
                            },
                        );
                    },
                }
            },
            _ => {},
        }
    }

    /// The element's attributes are all that changed.
    pub open spec fn same_but_attrs(self, o: Node) -> bool {
        &&& self.id == o.id
        &&& self.connected == o.connected
        &&& self.parent == o.parent
        &&& self.first_child == o.first_child
        &&& self.last_child == o.last_child
        &&& self.prev_sibling == o.prev_sibling
        &&& self.next_sibling == o.next_sibling
        &&& match (self.data, o.data) {
            (
                NodeData::Element {
                    name: n1,
                    template_contents: t1,
                    mathml_annotation_xml_integration_point: m1,
                    ..
                },
                NodeData::Element {
                    name: n2,
                    template_contents: t2,
                    mathml_annotation_xml_integration_point: m2,
                    ..
                },
            ) => n1 == n2 && t1 == t2 && m1 == m2,
            (d1, d2) => d1 == d2,
        }
    }

    /// Sets the attribute in namespace `ns` named by `qualified`: the text
    /// before its first `:` is the prefix, the rest the local name. An
    /// existing attribute with that namespace and local name keeps its place
    /// and takes the new prefix and value; otherwise one is appended.
    pub fn set_attribute_ns(&mut self, ns: &str, qualified: &str, value: String)
        ensures
            final(self).same_but_attrs(*old(self)),
            match old(self).attrs_of() {
                None => *final(self) == *old(self),
                Some(a) => {
                    let q = qualified@;
                    let c = first_colon(q);
                    let local = if c >= 0 { q.skip(c + 1) } else { q };
                    let k = first_where(a, ns_local_is(ns@, local));
                    let b = final(self).attrs_of()->Some_0;
                    &&& final(self).attrs_of() is Some
                    &&& k >= 0 ==> b.len() == a.len() && (forall|j: int|
                        0 <= j < a.len() && j != k ==> #[trigger] b[j] == a[j]) && b[k].name.ns
                        == a[k].name.ns && b[k].name.local == a[k].name.local && b[k].value
                        == value && (c >= 0 ==> b[k].name.prefix is Some
                        && b[k].name.prefix->Some_0@ == q.take(c)) && (c < 0
                        ==> b[k].name.prefix is None)
                    &&& k < 0 ==> b.len() == a.len() + 1 && b.drop_last() == a && b.last().name.ns@
                        == ns@ && b.last().name.local@ == local && b.last().value == value && (c
                        >= 0 ==> b.last().name.prefix is Some && b.last().name.prefix->Some_0@
                        == q.take(c)) && (c < 0 ==> b.last().name.prefix is None)
                },
            },
    {
        let qc = chars_of(qualified);
        let mut i: usize = 0;
        while i < qc.len() && qc[i] != ':'
            invariant
                i <= qc@.len(),
                qc@ == qualified@,
                forall|j: int| 0 <= j < i ==> qc@[j] != ':',
            decreases qc@.len() - i,
        {
            i = i + 1;
        }
        proof {
            lemma_first_colon(qc@, i as int);
        }
        let (prefix, local) = if i < qc.len() {
            (Some(string_from_range(&qc, 0, i)), string_from_range(&qc, i + 1, qc.len()))
        } else {
            (None, owned(qualified))
        };
        proof {
            if i < qc@.len() {
                assert(qc@.subrange(0, i as int) =~= qc@.take(i as int));
                assert(qc@.subrange(i + 1, qc@.len() as int) =~= qc@.skip(i + 1));
            }
        }
        match &mut self.data {
            NodeData::Element { attrs, .. } => {
                match Self::find_attr_ns(attrs, ns, local.as_str()) {
                    Some(k) => {
                        let mut a = attrs.remove(k);
                        a.name.prefix = prefix;
                        a.value = value;
                        attrs.insert(k, a);
                    },
                    None => {
                        attrs.push(
                            Attribute { name: QualName { prefix, ns: owned(ns), local }, value },
                        );
                    },
                }
            },
            _ => {},
        }
    }

    /// Drops every attribute in namespace `ns` with local name `local`.
    pub fn remove_attribute_ns(&mut self, ns: &str, local: &str)
        ensures
            final(self).same_but_attrs(*old(self)),
            match old(self).attrs_of() {
                None => *final(self) == *old(self),
                Some(a) => final(self).attrs_of() == Some(
                    keep_where_not(a, ns_local_is(ns@, local@)),
                ),
            },
    {
        match &mut self.data {
            NodeData::Element { attrs, .. } => {
                let mut kept: Vec<Attribute> = Vec::new();
                let ghost a0 = attrs@;
                let n = attrs.len();
                let mut i: usize = 0;
                while i < n
                    invariant
                        i <= n,
                        n == a0.len(),
                        attrs@ == a0.skip(i as int),
                        kept@ == keep_where_not(a0.take(i as int), ns_local_is(ns@, local@)),
                    decreases n - i,
                {
                    let a = attrs.remove(0);
                    proof {
                        assert(a == a0[i as int]);
                        assert(a0.take(i + 1).drop_last() =~= a0.take(i as int));
                        assert(a0.take(i + 1).last() == a0[i as int]);
                        assert(a0.skip(i as int).remove(0) =~= a0.skip(i + 1));
                    }
                    if !(str_eq(a.name.ns.as_str(), ns) && str_eq(a.name.local.as_str(), local)) {
                        kept.push(a);
                    }
                    i = i + 1;
                }
                proof {
                    assert(a0.take(n as int) =~= a0);
                }
                *attrs = kept;
            },
            _ => {},
        }
    }

    /// Drops every attribute whose qualified name is `name`.
    pub fn remove_attribute(&mut self, name: &str)
        ensures
            final(self).same_but_attrs(*old(self)),
            match old(self).attrs_of() {
                None => *final(self) == *old(self),
                Some(a) => final(self).attrs_of() == Some(keep_where_not(a, qname_is(name@))),
            },
    {
        match &mut self.data {
            NodeData::Element { attrs, .. } => {
                let mut kept: Vec<Attribute> = Vec::new();
                let ghost a0 = attrs@;
                let n = attrs.len();
                let mut i: usize = 0;
                while i < n
                    invariant
                        i <= n,
                        n == a0.len(),
                        attrs@ == a0.skip(i as int),
                        kept@ == keep_where_not(a0.take(i as int), qname_is(name@)),
                    decreases n - i,
                {
                    let a = attrs.remove(0);
                    proof {
                        assert(a == a0[i as int]);
                        assert(a0.take(i + 1).drop_last() =~= a0.take(i as int));
                        assert(a0.take(i + 1).last() == a0[i as int]);
                        assert(a0.skip(i as int).remove(0) =~= a0.skip(i + 1));
                    }
                    if !a.qualified_name_eq(name) {
                        kept.push(a);
                    }
                    i = i + 1;
                }
                proof {
                    assert(a0.take(n as int) =~= a0);
                }
                *attrs = kept;
            },
            _ => {},
        }
    }

    /// Replaces the character data of a Text, Comment or
    /// processing-instruction node; any other node is left alone.
    pub fn set_character_data(&mut self, text: &str)
        ensures
            *final(self) == (Node { data: final(self).data, ..*old(self) }),
            match old(self).data {
                NodeData::Text { .. } => final(self).data matches NodeData::Text { contents } && contents@ == text@,
                NodeData::Comment { .. } => final(self).data matches NodeData::Comment { contents } && contents@ == text@,
                NodeData::ProcessingInstruction { target, .. } => final(self).data matches NodeData::ProcessingInstruction { target: t, data } && t == target && data@ == text@,
                _ => *final(self) == *old(self),
            },
    {
        match &mut self.data {
            NodeData::Text { contents } => {
                *contents = owned(text);
            },
            NodeData::Comment { contents } => {
                *contents = owned(text);
            },
            NodeData::ProcessingInstruction { data, .. } => {
                *data = owned(text);
            },
            _ => {},
        }
    }
}

} // verus!
