//! Readable text of a DOM subtree, as `--dump text` prints it.
//!
//! Text nodes contribute their trimmed contents; block-level elements are
//! surrounded by newlines; `script`, `style` and the boilerplate elements
//! `nav`, `header`, `footer` and `aside` are skipped with everything inside
//! them. The walk is iterative over an explicit work stack so that deeply
//! nested pages cannot overflow the call stack, and it stops after
//! `MAX_NODES` visits.
use vstd::prelude::*;

use crate::strutil::{push_char, str_eq, trim_owned, trimmed};
use crate::tree::{DomTree, NodeData, NodeId};
use crate::tree::model::ids_of;

verus! {

/// Cap on the number of nodes the walk visits.
pub const MAX_NODES: usize = 5000000;

/// Elements whose whole subtree is left out.
pub open spec fn skipped_tag(tag: Seq<char>) -> bool {
    tag == "script"@ || tag == "style"@ || tag == "nav"@ || tag == "header"@ || tag == "footer"@
        || tag == "aside"@
}

/// Elements that start and end on a line of their own.
pub open spec fn block_tag(tag: Seq<char>) -> bool {
    tag == "div"@ || tag == "p"@ || tag == "h1"@ || tag == "h2"@ || tag == "h3"@ || tag == "h4"@
        || tag == "h5"@ || tag == "h6"@ || tag == "li"@ || tag == "tr"@ || tag == "br"@ || tag
        == "hr"@ || tag == "blockquote"@ || tag == "pre"@ || tag == "section"@ || tag
        == "article"@ || tag == "header"@ || tag == "footer"@ || tag == "nav"@ || tag == "main"@
        || tag == "aside"@ || tag == "figure"@ || tag == "figcaption"@ || tag == "table"@ || tag
        == "thead"@ || tag == "tbody"@ || tag == "tfoot"@ || tag == "dl"@ || tag == "dt"@ || tag
        == "dd"@ || tag == "ul"@ || tag == "ol"@
}

/// Readable text of node `i`, with `f` levels of nesting left to explore.
pub open spec fn rt_node(t: DomTree, i: nat, f: nat) -> Seq<char>
    decreases f, 0nat, 0nat,
{
    if f == 0 || !t.live(i) {
        Seq::empty()
    } else {
        match t.node(i).data {
            NodeData::Text { contents } => trimmed(contents@),
            NodeData::Element { name, .. } => if skipped_tag(name.local@) {
                Seq::empty()
            } else if block_tag(name.local@) {
                seq!['\n'] + rt_list(t, t.kids(i), (f - 1) as nat) + seq!['\n']
            } else {
                rt_list(t, t.kids(i), (f - 1) as nat)
            },
            _ => rt_list(t, t.kids(i), (f - 1) as nat),
        }
    }
}

/// Readable text of a list of siblings, in order.
pub open spec fn rt_list(t: DomTree, ks: Seq<nat>, f: nat) -> Seq<char>
    decreases f, 1nat, ks.len(),
{
    if ks.len() == 0 {
        Seq::empty()
    } else {
        rt_node(t, ks[0], f) + rt_list(t, ks.drop_first(), f)
    }
}

/// Number of nodes the walk visits below and including `i`.
pub open spec fn cnt_node(t: DomTree, i: nat, f: nat) -> nat
    decreases f, 0nat, 0nat,
{
    if f == 0 || !t.live(i) {
        1
    } else {
        match t.node(i).data {
            NodeData::Text { .. } => 1,
            NodeData::Element { name, .. } => if skipped_tag(name.local@) {
                1
            } else {
                1 + cnt_list(t, t.kids(i), (f - 1) as nat)
            },
            _ => 1 + cnt_list(t, t.kids(i), (f - 1) as nat),
        }
    }
}

pub open spec fn cnt_list(t: DomTree, ks: Seq<nat>, f: nat) -> nat
    decreases f, 1nat, ks.len(),
{
    if ks.len() == 0 {
        0
    } else {
        cnt_node(t, ks[0], f) + cnt_list(t, ks.drop_first(), f)
    }
}

/// Nesting budget of node `i`: enough to reach every descendant.
pub open spec fn budget(t: DomTree, i: nat) -> nat {
    (t.slots() - t.anc(i).len()) as nat
}

/// The readable text of the subtree rooted at `i`.
pub open spec fn readable_text(t: DomTree, i: nat) -> Seq<char> {
    rt_node(t, i, budget(t, i))
}

/// The number of nodes the walk over `i`'s subtree visits.
pub open spec fn readable_visits(t: DomTree, i: nat) -> nat {
    cnt_node(t, i, budget(t, i))
}

/// One item of the walk's work stack.
pub enum Work {
    Visit(NodeId),
    Newline,
}

pub open spec fn item_text(t: DomTree, w: Work) -> Seq<char> {
    match w {
        Work::Visit(id) => readable_text(t, id.id()),
        Work::Newline => seq!['\n'],
    }
}

pub open spec fn item_visits(t: DomTree, w: Work) -> nat {
    match w {
        Work::Visit(id) => readable_visits(t, id.id()),
        Work::Newline => 0,
    }
}

/// Text still to come from a work stack whose top is its last item.
pub open spec fn pending_text(t: DomTree, s: Seq<Work>) -> Seq<char>
    decreases s.len(),
{
    if s.len() == 0 {
        Seq::empty()
    } else {
        item_text(t, s.last()) + pending_text(t, s.drop_last())
    }
}

pub open spec fn pending_visits(t: DomTree, s: Seq<Work>) -> nat
    decreases s.len(),
{
    if s.len() == 0 {
        0
    } else {
        item_visits(t, s.last()) + pending_visits(t, s.drop_last())
    }
}

/// Work items for the nodes `v`, last first, so that the first node ends on
/// top of the stack.
pub open spec fn visits_last_first(v: Seq<NodeId>) -> Seq<Work> {
    Seq::new(v.len(), |j: int| Work::Visit(v[v.len() - 1 - j]))
}

/// The text the walk appends from a work stack `stack` (top last) after
/// `visited` visits: each visit counts, and the walk stops at the visit that
/// would exceed `MAX_NODES`.
pub open spec fn walk_text(t: DomTree, stack: Seq<Work>, visited: nat) -> Seq<char>
    decreases MAX_NODES + 1 - visited, stack.len(),
{
    if stack.len() == 0 || visited > MAX_NODES {
        Seq::empty()
    } else {
        let rest = stack.drop_last();
        match stack.last() {
            Work::Newline => seq!['\n'] + walk_text(t, rest, visited),
            Work::Visit(id) => {
                let i = id.id();
                if visited + 1 > MAX_NODES {
                    Seq::empty()
                } else if !t.live(i) {
                    walk_text(t, rest, visited + 1)
                } else {
                    let kids = visits_last_first(ids_of(t.kids(i)));
                    match t.node(i).data {
                        NodeData::Text { contents } => trimmed(contents@) + walk_text(
                            t,
                            rest,
                            visited + 1,
                        ),
                        NodeData::Element { name, .. } => if skipped_tag(name.local@) {
                            walk_text(t, rest, visited + 1)
                        } else if block_tag(name.local@) {
                            seq!['\n'] + walk_text(t, rest.push(Work::Newline) + kids, visited + 1)
                        } else {
                            walk_text(t, rest + kids, visited + 1)
                        },
                        _ => walk_text(t, rest + kids, visited + 1),
                    }
                }
            },
        }
    }
}

/// The text of the walk over the subtree rooted at `i`, within its visit cap.
pub open spec fn capped_readable_text(t: DomTree, i: NodeId) -> Seq<char> {
    walk_text(t, seq![Work::Visit(i)], 0)
}

/// The readable text of a block element (`div`, `p`, headings, list items,
/// table rows and sections, definition lists, ...) starts and ends with a
/// newline, so it stands on lines of its own.
pub proof fn lemma_block_elements_on_own_lines(t: DomTree, i: nat)
    requires
        t.wf_struct(),
        t.live(i),
        t.node(i).data is Element,
        ({
            let name = t.node(i).data->Element_name.local@;
            name == "div"@ || name == "p"@ || name == "h1"@ || name == "h2"@ || name == "h3"@ || name == "h4"@ || name == "h5"@ || name == "h6"@ || name == "li"@ || name == "tr"@ || name == "br"@ || name == "hr"@ || name == "blockquote"@ || name == "pre"@ || name == "section"@ || name == "article"@ || name == "main"@ || name == "figure"@ || name == "figcaption"@ || name == "table"@ || name == "thead"@ || name == "tbody"@ || name == "tfoot"@ || name == "dl"@ || name == "dt"@ || name == "dd"@ || name == "ul"@ || name == "ol"@
        }),
    ensures
        readable_text(t, i).len() >= 2,
        readable_text(t, i)[0] == '\n',
        readable_text(t, i)[readable_text(t, i).len() - 1] == '\n',
{
    reveal_strlit("div");
    assert("div"@ =~= seq!['d', 'i', 'v']);
    reveal_strlit("p");
    assert("p"@ =~= seq!['p']);
    reveal_strlit("h1");
    assert("h1"@ =~= seq!['h', '1']);
    reveal_strlit("h2");
    assert("h2"@ =~= seq!['h', '2']);
    reveal_strlit("h3");
    assert("h3"@ =~= seq!['h', '3']);
    reveal_strlit("h4");
    assert("h4"@ =~= seq!['h', '4']);
    reveal_strlit("h5");
    assert("h5"@ =~= seq!['h', '5']);
    reveal_strlit("h6");
    assert("h6"@ =~= seq!['h', '6']);
    reveal_strlit("li");
    assert("li"@ =~= seq!['l', 'i']);
    reveal_strlit("tr");
    assert("tr"@ =~= seq!['t', 'r']);
    reveal_strlit("br");
    assert("br"@ =~= seq!['b', 'r']);
    reveal_strlit("hr");
    assert("hr"@ =~= seq!['h', 'r']);
    reveal_strlit("blockquote");
    assert("blockquote"@ =~= seq!['b', 'l', 'o', 'c', 'k', 'q', 'u', 'o', 't', 'e']);
    reveal_strlit("pre");
    assert("pre"@ =~= seq!['p', 'r', 'e']);
    reveal_strlit("section");
    assert("section"@ =~= seq!['s', 'e', 'c', 't', 'i', 'o', 'n']);
    reveal_strlit("article");
    assert("article"@ =~= seq!['a', 'r', 't', 'i', 'c', 'l', 'e']);
    reveal_strlit("main");
    assert("main"@ =~= seq!['m', 'a', 'i', 'n']);
    reveal_strlit("figure");
    assert("figure"@ =~= seq!['f', 'i', 'g', 'u', 'r', 'e']);
    reveal_strlit("figcaption");
    assert("figcaption"@ =~= seq!['f', 'i', 'g', 'c', 'a', 'p', 't', 'i', 'o', 'n']);
    reveal_strlit("table");
    assert("table"@ =~= seq!['t', 'a', 'b', 'l', 'e']);
    reveal_strlit("thead");
    assert("thead"@ =~= seq!['t', 'h', 'e', 'a', 'd']);
    reveal_strlit("tbody");
    assert("tbody"@ =~= seq!['t', 'b', 'o', 'd', 'y']);
    reveal_strlit("tfoot");
    assert("tfoot"@ =~= seq!['t', 'f', 'o', 'o', 't']);
    reveal_strlit("dl");
    assert("dl"@ =~= seq!['d', 'l']);
    reveal_strlit("dt");
    assert("dt"@ =~= seq!['d', 't']);
    reveal_strlit("dd");
    assert("dd"@ =~= seq!['d', 'd']);
    reveal_strlit("ul");
    assert("ul"@ =~= seq!['u', 'l']);
    reveal_strlit("ol");
    assert("ol"@ =~= seq!['o', 'l']);
    reveal_strlit("script");
    assert("script"@ =~= seq!['s', 'c', 'r', 'i', 'p', 't']);
    reveal_strlit("style");
    assert("style"@ =~= seq!['s', 't', 'y', 'l', 'e']);
    reveal_strlit("nav");
    assert("nav"@ =~= seq!['n', 'a', 'v']);
    reveal_strlit("header");
    assert("header"@ =~= seq!['h', 'e', 'a', 'd', 'e', 'r']);
    reveal_strlit("footer");
    assert("footer"@ =~= seq!['f', 'o', 'o', 't', 'e', 'r']);
    reveal_strlit("aside");
    assert("aside"@ =~= seq!['a', 's', 'i', 'd', 'e']);
    t.lemma_depth_bound(i);
    assert(budget(t, i) >= 1);
}

/// Scripts, styles and the boilerplate elements `nav`, `header`, `footer`
/// and `aside` contribute no readable text at all, whatever they contain.
pub proof fn lemma_boilerplate_is_skipped(t: DomTree, i: nat)
    requires
        t.wf_struct(),
        t.live(i),
        t.node(i).data is Element,
        ({
            let name = t.node(i).data->Element_name.local@;
            name == "script"@ || name == "style"@ || name == "nav"@ || name == "header"@ || name == "footer"@ || name == "aside"@
        }),
    ensures
        readable_text(t, i) == Seq::<char>::empty(),
{
    t.lemma_depth_bound(i);
}

/// A text node's readable text is its contents with surrounding whitespace
/// trimmed off.
pub proof fn lemma_text_is_trimmed(t: DomTree, i: nat)
    requires
        t.wf_struct(),
        t.live(i),
        t.node(i).data is Text,
    ensures
        readable_text(t, i) == trimmed(t.node(i).data->Text_contents@),
{
    t.lemma_depth_bound(i);
}

/// Whether `tag` names a skipped element.
fn is_skipped(tag: &str) -> (r: bool)
    ensures
        r == skipped_tag(tag@),
{
    str_eq(tag, "script") || str_eq(tag, "style") || str_eq(tag, "nav") || str_eq(tag, "header")
        || str_eq(tag, "footer") || str_eq(tag, "aside")
}

/// Whether `tag` names a block element.
fn is_block(tag: &str) -> (r: bool)
    ensures
        r == block_tag(tag@),
{
    str_eq(tag, "div") || str_eq(tag, "p") || str_eq(tag, "h1") || str_eq(tag, "h2") || str_eq(
        tag,
        "h3",
    ) || str_eq(tag, "h4") || str_eq(tag, "h5") || str_eq(tag, "h6") || str_eq(tag, "li")
        || str_eq(tag, "tr") || str_eq(tag, "br") || str_eq(tag, "hr") || str_eq(tag, "blockquote")
        || str_eq(tag, "pre") || str_eq(tag, "section") || str_eq(tag, "article") || str_eq(
        tag,
        "header",
    ) || str_eq(tag, "footer") || str_eq(tag, "nav") || str_eq(tag, "main") || str_eq(tag, "aside")
        || str_eq(tag, "figure") || str_eq(tag, "figcaption") || str_eq(tag, "table") || str_eq(
        tag,
        "thead",
    ) || str_eq(tag, "tbody") || str_eq(tag, "tfoot") || str_eq(tag, "dl") || str_eq(tag, "dt")
        || str_eq(tag, "dd") || str_eq(tag, "ul") || str_eq(tag, "ol")
}

proof fn lemma_pending_push(t: DomTree, s: Seq<Work>, w: Work)
    ensures
        pending_text(t, s.push(w)) == item_text(t, w) + pending_text(t, s),
        pending_visits(t, s.push(w)) == item_visits(t, w) + pending_visits(t, s),
{
    assert(s.push(w).drop_last() =~= s);
}

/// Pushes the children `kids[..k]` onto the stack last-first, so that they
/// are visited in document order.
fn push_children(stack: &mut Vec<Work>, kids: &Vec<NodeId>, Ghost(t): Ghost<DomTree>, Ghost(f): Ghost<nat>)
    requires
        forall|j: int| 0 <= j < kids@.len() ==> budget(t, #[trigger] kids@[j].id()) == f,
    ensures
        pending_text(t, final(stack)@) == rt_list(t, kids@.map_values(|x: NodeId| x.id()), f)
            + pending_text(t, old(stack)@),
        pending_visits(t, final(stack)@) == cnt_list(t, kids@.map_values(|x: NodeId| x.id()), f)
            + pending_visits(t, old(stack)@),
        final(stack)@.len() >= old(stack)@.len(),
        final(stack)@ == old(stack)@ + visits_last_first(kids@),
{
    let ghost ks = kids@.map_values(|x: NodeId| x.id());
    let ghost base = stack@;
    let mut k = kids.len();
    proof {
        assert(ks.skip(k as int) =~= Seq::<nat>::empty());
    }
    while k > 0
        invariant
            k <= kids@.len(),
            ks == kids@.map_values(|x: NodeId| x.id()),
            forall|j: int| 0 <= j < kids@.len() ==> budget(t, #[trigger] kids@[j].id()) == f,
            pending_text(t, stack@) == rt_list(t, ks.skip(k as int), f) + pending_text(t, base),
            pending_visits(t, stack@) == cnt_list(t, ks.skip(k as int), f) + pending_visits(
                t,
                base,
            ),
            stack@.len() >= base.len(),
            stack@ == base + visits_last_first(kids@.skip(k as int)),
        decreases k,
    {
        k = k - 1;
        let ghost s0 = stack@;
        stack.push(Work::Visit(kids[k]));
        proof {
            lemma_pending_push(t, s0, Work::Visit(kids@[k as int]));
            assert(ks.skip(k as int).drop_first() =~= ks.skip(k + 1));
            assert(ks.skip(k as int)[0] == kids@[k as int].id());
            assert(budget(t, kids@[k as int].id()) == f);
            assert(pending_text(t, stack@) =~= rt_list(t, ks.skip(k as int), f) + pending_text(
                t,
                base,
            ));
            assert(stack@ =~= base + visits_last_first(kids@.skip(k as int)));
        }
    }
    proof {
        assert(ks.skip(0) =~= ks);
        assert(kids@.skip(0) =~= kids@);
    }
}

/// The readable text of the subtree rooted at `node_id`: the text of the
/// walk's first `MAX_NODES` visits. It is always a prefix of
/// `readable_text`, and all of it when the walk needs at most `MAX_NODES`
/// visits.
pub fn extract_readable_text(dom: &DomTree, node_id: NodeId) -> (r: String)
    requires
        dom.wf_struct(),
    ensures
        r@.len() <= readable_text(*dom, node_id.id()).len(),
        r@ == readable_text(*dom, node_id.id()).take(r@.len() as int),
        readable_visits(*dom, node_id.id()) <= MAX_NODES ==> r@ == readable_text(
            *dom,
            node_id.id(),
        ),
        r@ == capped_readable_text(*dom, node_id),
{
    let ghost t = *dom;
    let ghost root = node_id.id();
    let mut result = String::new();
    let mut stack: Vec<Work> = Vec::new();
    stack.push(Work::Visit(node_id));
    let mut visited: usize = 0;
    proof {
        lemma_pending_push(t, Seq::empty(), Work::Visit(node_id));
        assert(Seq::<Work>::empty().push(Work::Visit(node_id)) =~= stack@);
        assert(result@ =~= Seq::<char>::empty());
    }
    while stack.len() > 0
        invariant_except_break
            result@ + pending_text(t, stack@) == readable_text(t, root),
            visited + pending_visits(t, stack@) == readable_visits(t, root),
            visited <= MAX_NODES,
            result@ + walk_text(t, stack@, visited as nat) == capped_readable_text(t, node_id),
        invariant
            t == *dom,
            t.wf_struct(),
        ensures
            result@ == capped_readable_text(t, node_id),
            result@.len() <= readable_text(t, root).len(),
            result@ == readable_text(t, root).take(result@.len() as int),
            readable_visits(t, root) <= MAX_NODES ==> result@ == readable_text(t, root),
        decreases readable_visits(t, root) - visited, stack@.len(),
    {
        let ghost s0 = stack@;
        let work = stack.pop().unwrap();
        proof {
            assert(s0 == stack@.push(work));
            lemma_pending_push(t, stack@, work);
        }
        let id = match work {
            Work::Newline => {
                let ghost r0 = result@;
                push_char(&mut result, '\n');
                proof {
                    assert(result@ + pending_text(t, stack@) =~= r0 + pending_text(t, s0));
                }
                continue;
            },
            Work::Visit(id) => id,
        };
        let ghost i = id.id();
        visited = visited + 1;
        if visited > MAX_NODES {
            proof {
                assert(result@ + pending_text(t, s0) == readable_text(t, root));
                assert(result@ =~= readable_text(t, root).take(result@.len() as int));
            }
            break;
        }
        let node = match dom.node_ref(id) {
            Some(n) => n,
            None => {
                proof {
                    assert(result@ + pending_text(t, stack@) =~= readable_text(t, root));
                }
                continue;
            },
        };
        proof {
            t.lemma_at(i);
            t.lemma_depth_bound(i);
            assert(budget(t, i) >= 1);
        }
        let ghost f = budget(t, i);
        let ghost r0 = result@;
        let ghost st = stack@;
        match &node.data {
            NodeData::Text { contents } => {
                let trimmed_text = trim_owned(contents.as_str());
                if !trimmed_text.as_str().is_empty() {
                    result.append(trimmed_text.as_str());
                }
                proof {
                    assert(result@ =~= r0 + trimmed(contents@));
                    assert(result@ + pending_text(t, stack@) =~= readable_text(t, root));
                }
            },
            NodeData::Element { name, .. } => {
                let tag = name.local.as_str();
                if is_skipped(tag) {
                    proof {
                        assert(result@ + pending_text(t, stack@) =~= readable_text(t, root));
                    }
                    continue;
                }
                let kids = dom.children(id);
                proof {
                    t.lemma_kids_bound(i);
                    assert(kids@.map_values(|x: NodeId| x.id()) =~= t.kids(i)) by {
                        assert forall|j: int| 0 <= j < kids@.len() implies kids@[j].id() == t.kids(i)[j] by {
                            assert(t.kids(i)[j] < 0x1_0000_0000);
                        }
                    }
                    assert forall|j: int| 0 <= j < kids@.len() implies budget(t, #[trigger] kids@[j].id()) == (f - 1) as nat by {
                        t.lemma_kid_at(i, j);
                        assert(t.kids(i)[j] < 0x1_0000_0000);
                    }
                }
                if is_block(tag) {
                    push_char(&mut result, '\n');
                    let ghost s1 = stack@;
                    stack.push(Work::Newline);
                    proof {
                        lemma_pending_push(t, s1, Work::Newline);
                    }
                }
                push_children(&mut stack, &kids, Ghost(t), Ghost((f - 1) as nat));
                proof {
                    assert(result@ + pending_text(t, stack@) =~= readable_text(t, root));
                }
            },
            _ => {
                let kids = dom.children(id);
                proof {
                    t.lemma_kids_bound(i);
                    assert(kids@.map_values(|x: NodeId| x.id()) =~= t.kids(i)) by {
                        assert forall|j: int| 0 <= j < kids@.len() implies kids@[j].id() == t.kids(i)[j] by {
                            assert(t.kids(i)[j] < 0x1_0000_0000);
                        }
                    }
                    assert forall|j: int| 0 <= j < kids@.len() implies budget(t, #[trigger] kids@[j].id()) == (f - 1) as nat by {
                        t.lemma_kid_at(i, j);
                        assert(t.kids(i)[j] < 0x1_0000_0000);
                    }
                }
                push_children(&mut stack, &kids, Ghost(t), Ghost((f - 1) as nat));
                proof {
                    assert(result@ + pending_text(t, stack@) =~= readable_text(t, root));
                }
            },
        }
    }
    result
}

} // verus!
