//! Sub-resource URLs and URL lists for the command-line fetcher.
use vstd::prelude::*;

use crate::cli::{ascii_lower, first_token, link_kind_from_rel, rel_kind};
use crate::mutation_impact::attr_of;
use crate::strutil::{chars_of, owned, str_eq, string_from_range, trim_bounds, trimmed};
use crate::tree::{DomTree, NodeData, NodeId};
use crate::tree::model::ids_of;
use crate::tree::walk::{descendants_of, lemma_descendants_fit};

verus! {

/// The serialization of the URL that `url` makes of `raw` joined onto the
/// URL `base`, or `None` when `url` refuses `base` or the join.
pub uninterp spec fn url_joined(base: Seq<char>, raw: Seq<char>) -> Option<Seq<char>>;

/// Joins `raw` onto the URL `base`.
///
/// Calls `url::Url::parse` on `base`, then `Url::join` with `raw`, and
/// serializes the joined URL. The contract claims only that the result is
/// `None` exactly when either call fails and is otherwise a function of the
/// two texts (`url_joined`); what the joined URL is, RFC 3986 resolution as
/// the `url` crate implements it, is left to that crate.
#[verifier::external_body]
pub(crate) fn join_url(base: &str, raw: &str) -> (r: Option<String>)
    ensures
        match r {
            Some(s) => url_joined(base@, raw@) == Some(s@),
            None => url_joined(base@, raw@) is None,
        },
{
    match url::Url::parse(base) {
        Ok(b) => match b.join(raw) {
            Ok(j) => Some(j.to_string()),
            Err(_) => None,
        },
        Err(_) => None,
    }
}

pub open spec fn starts_with(s: Seq<char>, p: Seq<char>) -> bool {
    p.len() <= s.len() && s.take(p.len() as int) == p
}

/// The absolute URL of a `src`, `href` or `data` attribute value `raw` on a
/// page at `base`: nothing for a blank value; the trimmed value itself when
/// it is already an `http(s)` URL, when there is no base, or when joining
/// fails; otherwise the value joined onto the base.
pub open spec fn asset_url(raw: Seq<char>, base: Option<Seq<char>>) -> Option<Seq<char>> {
    let t = trimmed(raw);
    if t.len() == 0 {
        None
    } else if starts_with(t, "http://"@) || starts_with(t, "https://"@) {
        Some(t)
    } else {
        match base {
            Some(b) => match url_joined(b, t) {
                Some(j) => Some(j),
                None => Some(t),
            },
            None => Some(t),
        }
    }
}

/// Whether `v[from..to]` starts with the chars of `p`.
fn range_starts_with(v: &Vec<char>, from: usize, to: usize, p: &Vec<char>) -> (r: bool)
    requires
        from <= to <= v@.len(),
    ensures
        r == starts_with(v@.subrange(from as int, to as int), p@),
{
    let ghost s = v@.subrange(from as int, to as int);
    if p.len() > to - from {
        return false;
    }
    let mut k: usize = 0;
    while k < p.len()
        invariant
            from <= to <= v@.len(),
            s == v@.subrange(from as int, to as int),
            p@.len() <= to - from,
            k <= p@.len(),
            forall|m: int| 0 <= m < k ==> s[m] == p@[m],
        decreases p@.len() - k,
    {
        if v[from + k] != p[k] {
            proof {
                assert(s.take(p@.len() as int)[k as int] != p@[k as int]);
            }
            return false;
        }
        k = k + 1;
    }
    proof {
        assert(s.take(p@.len() as int) =~= p@);
    }
    true
}

/// Resolves a raw `src`/`href`/`data` attribute value against the page's
/// URL, when there is one.
pub fn resolve_asset_url(raw: &str, base_url: Option<&str>) -> (r: Option<String>)
    ensures
        match r {
            Some(s) => asset_url(raw@, match base_url {
                Some(b) => Some(b@),
                None => None,
            }) == Some(s@),
            None => asset_url(raw@, match base_url {
                Some(b) => Some(b@),
                None => None,
            }) is None,
        },
{
    let v = chars_of(raw);
    let (i, j) = trim_bounds(&v);
    if i == j {
        return None;
    }
    let t = string_from_range(&v, i, j);
    let http: Vec<char> = vec!['h', 't', 't', 'p', ':', '/', '/'];
    let https: Vec<char> = vec!['h', 't', 't', 'p', 's', ':', '/', '/'];
    proof {
        reveal_strlit("http://");
        reveal_strlit("https://");
        assert(http@ =~= "http://"@);
        assert(https@ =~= "https://"@);
    }
    if range_starts_with(&v, i, j, &http) || range_starts_with(&v, i, j, &https) {
        return Some(t);
    }
    match base_url {
        Some(base) => match join_url(base, t.as_str()) {
            Some(joined) => Some(joined),
            None => Some(t),
        },
        None => Some(t),
    }
}

/// The lines of `s`, split at each `\n`; the text after the last one is a
/// line too, empty when `s` ends with `\n`.
pub open spec fn split_lines(s: Seq<char>) -> Seq<Seq<char>>
    decreases s.len(),
{
    if s.len() == 0 {
        seq![Seq::empty()]
    } else {
        let r = split_lines(s.drop_last());
        if s.last() == '\n' {
            r.push(Seq::empty())
        } else {
            r.update(r.len() - 1, r.last().push(s.last()))
        }
    }
}

/// A trimmed line names a URL unless it is blank or a `#` comment.
pub open spec fn names_url(line: Seq<char>) -> bool {
    line.len() > 0 && line[0] != '#'
}

/// The trimmed lines of `ls` that name URLs, in order.
pub open spec fn url_lines(ls: Seq<Seq<char>>) -> Seq<Seq<char>>
    decreases ls.len(),
{
    if ls.len() == 0 {
        Seq::empty()
    } else {
        let r = url_lines(ls.drop_last());
        if names_url(trimmed(ls.last())) {
            r.push(trimmed(ls.last()))
        } else {
            r
        }
    }
}

/// The URLs listed in a newline-delimited text: each line trimmed, blank
/// lines and `#` comments dropped.
pub fn urls_from_text(content: &str) -> (r: Vec<String>)
    ensures
        r@.map_values(|x: String| x@) == url_lines(split_lines(content@)),
{
    let v = chars_of(content);
    let n = v.len();
    let mut out: Vec<String> = Vec::new();
    let mut cur: Vec<char> = Vec::new();
    let ghost mut done: Seq<Seq<char>> = Seq::empty();
    let mut k: usize = 0;
    proof {
        assert(v@.take(0) =~= Seq::<char>::empty());
        assert(split_lines(v@.take(0)) =~= done.push(cur@));
        assert(out@.map_values(|x: String| x@) =~= url_lines(done));
    }
    while k < n
        invariant
            n == v@.len(),
            v@ == content@,
            k <= n,
            split_lines(v@.take(k as int)) == done.push(cur@),
            out@.map_values(|x: String| x@) == url_lines(done),
        decreases n - k,
    {
        let c = v[k];
        proof {
            assert(v@.take(k + 1).drop_last() =~= v@.take(k as int));
            assert(v@.take(k + 1).last() == c);
        }
        if c == '\n' {
            let ghost line = cur@;
            take_line(&mut out, &cur, Ghost(done));
            proof {
                assert(done.push(line).drop_last() =~= done);
                done = done.push(line);
            }
            cur = Vec::new();
            proof {
                assert(split_lines(v@.take(k + 1)) =~= done.push(cur@));
            }
        } else {
            cur.push(c);
            proof {
                assert(split_lines(v@.take(k + 1)) =~= done.push(cur@));
            }
        }
        k = k + 1;
    }
    let ghost line = cur@;
    take_line(&mut out, &cur, Ghost(done));
    proof {
        assert(v@.take(n as int) =~= v@);
        assert(done.push(line).drop_last() =~= done);
    }
    out
}

/// Appends the trimmed `line` to `out` when it names a URL.
fn take_line(out: &mut Vec<String>, line: &Vec<char>, Ghost(done): Ghost<Seq<Seq<char>>>)
    requires
        old(out)@.map_values(|x: String| x@) == url_lines(done),
    ensures
        final(out)@.map_values(|x: String| x@) == url_lines(done.push(line@)),
{
    proof {
        assert(done.push(line@).drop_last() =~= done);
    }
    let (i, j) = trim_bounds(line);
    if i < j && line[i] != '#' {
        let s = string_from_range(line, i, j);
        let ghost before = out@;
        out.push(s);
        proof {
            assert(out@.map_values(|x: String| x@) =~= before.map_values(|x: String| x@).push(s@));
        }
    }
}

/// Element `n` is matched by the selector `tag[attr]`: a live element with
/// local name `tag` that carries attribute `attr`.
pub open spec fn selects(t: DomTree, n: nat, tag: Seq<char>, attr: Seq<char>) -> bool {
    &&& t.live(n)
    &&& t.node(n).data is Element
    &&& t.node(n).data->Element_name.local@ == tag
    &&& attr_of(t, n, attr) is Some
}

/// The asset kind of element `n` found by a selector of kind `kind`: a
/// `link` gets the kind its `rel` names.
pub open spec fn asset_kind(t: DomTree, n: nat, kind: Seq<char>) -> Seq<char> {
    if kind == "link"@ {
        let rel = match attr_of(t, n, "rel"@) {
            Some(v) => v,
            None => Seq::empty(),
        };
        rel_kind(ascii_lower(first_token(rel)))
    } else {
        kind
    }
}

/// The (URL, kind) records of the nodes of `ns` that `tag[attr]` selects
/// and whose attribute resolves to a URL, in order.
pub open spec fn records_for(
    t: DomTree,
    ns: Seq<nat>,
    tag: Seq<char>,
    attr: Seq<char>,
    kind: Seq<char>,
    base: Option<Seq<char>>,
) -> Seq<(Seq<char>, Seq<char>)>
    decreases ns.len(),
{
    if ns.len() == 0 {
        Seq::empty()
    } else {
        let prev = records_for(t, ns.drop_last(), tag, attr, kind, base);
        let n = ns.last();
        if selects(t, n, tag, attr) {
            match asset_url(attr_of(t, n, attr)->Some_0, base) {
                Some(u) => prev.push((u, asset_kind(t, n, kind))),
                None => prev,
            }
        } else {
            prev
        }
    }
}

/// Every asset of the document: for each selector in turn, the records of
/// the matching elements in document order.
pub open spec fn document_assets(t: DomTree, base: Option<Seq<char>>) -> Seq<(Seq<char>, Seq<char>)> {
    let ds = descendants_of(t, t.doc());
    records_for(t, ds, "script"@, "src"@, "script"@, base) + records_for(
        t,
        ds,
        "link"@,
        "href"@,
        "link"@,
        base,
    ) + records_for(t, ds, "img"@, "src"@, "image"@, base) + records_for(
        t,
        ds,
        "iframe"@,
        "src"@,
        "iframe"@,
        base,
    ) + records_for(t, ds, "source"@, "src"@, "media"@, base) + records_for(
        t,
        ds,
        "video"@,
        "src"@,
        "video"@,
        base,
    ) + records_for(t, ds, "audio"@, "src"@, "audio"@, base) + records_for(
        t,
        ds,
        "embed"@,
        "src"@,
        "embed"@,
        base,
    ) + records_for(t, ds, "object"@, "data"@, "object"@, base)
}

pub open spec fn pairs_view(v: Seq<(String, String)>) -> Seq<(Seq<char>, Seq<char>)> {
    v.map_values(|p: (String, String)| (p.0@, p.1@))
}

fn collect_for(
    dom: &DomTree,
    nodes: &Vec<NodeId>,
    tag: &str,
    attr: &str,
    kind: &str,
    base_url: Option<&str>,
    out: &mut Vec<(String, String)>,
)
    requires
        dom.wf(),
        forall|k: int| 0 <= k < nodes@.len() ==> (#[trigger] nodes@[k]).id() < 0x1_0000_0000,
    ensures
        pairs_view(final(out)@) == pairs_view(old(out)@) + records_for(
            *dom,
            nodes@.map_values(|x: NodeId| x.id()),
            tag@,
            attr@,
            kind@,
            match base_url {
                Some(b) => Some(b@),
                None => None,
            },
        ),
{
    let ghost base = match base_url {
        Some(b) => Some(b@),
        None => None::<Seq<char>>,
    };
    let ghost ns = nodes@.map_values(|x: NodeId| x.id());
    let ghost o0 = pairs_view(out@);
    let mut i: usize = 0;
    proof {
        assert(ns.take(0) =~= Seq::<nat>::empty());
        assert(pairs_view(out@) =~= o0 + Seq::<(Seq<char>, Seq<char>)>::empty());
    }
    while i < nodes.len()
        invariant
            dom.wf(),
            i <= nodes@.len(),
            ns == nodes@.map_values(|x: NodeId| x.id()),
            base == match base_url {
                Some(b) => Some(b@),
                None => None::<Seq<char>>,
            },
            pairs_view(out@) == o0 + records_for(*dom, ns.take(i as int), tag@, attr@, kind@, base),
        decreases nodes@.len() - i,
    {
        let n = nodes[i];
        let ghost ni = n.id();
        proof {
            assert(ns.take(i + 1).drop_last() =~= ns.take(i as int));
            assert(ns.take(i + 1).last() == ni);
        }
        let ghost prev = records_for(*dom, ns.take(i as int), tag@, attr@, kind@, base);
        let is_tag = match dom.node_ref(n) {
            Some(nd) => match &nd.data {
                NodeData::Element { name, .. } => str_eq(name.local.as_str(), tag),
                _ => false,
            },
            None => false,
        };
        if is_tag {
            match dom.attr_at(n, attr) {
                Some(raw) => match resolve_asset_url(raw.as_str(), base_url) {
                    Some(u) => {
                        let k = if str_eq(kind, "link") {
                            let rel = match dom.attr_at(n, "rel") {
                                Some(v) => v,
                                None => String::new(),
                            };
                            proof {
                                reveal_strlit("");
                                assert(rel@.len() == 0 ==> rel@ =~= ""@);
                            }
                            owned(link_kind_from_rel(rel.as_str()))
                        } else {
                            owned(kind)
                        };
                        let ghost ov = out@;
                        out.push((u, k));
                        proof {
                            assert(pairs_view(out@) =~= pairs_view(ov).push((u@, k@)));
                            assert(k@ == asset_kind(*dom, ni, kind@));
                        }
                    },
                    None => {},
                },
                None => {},
            }
        }
        i = i + 1;
    }
    proof {
        assert(ns.take(i as int) =~= ns);
    }
}

/// The (URL, kind) records `--dump assets` prints, one per line as JSON:
/// scripts, links, images, frames, media sources, videos, audio, embeds
/// and objects, each selector's matches in document order, with URLs
/// resolved against `base_url`. Selectors are matched by local name and
/// attribute presence.
pub fn asset_records(dom: &DomTree, base_url: Option<&str>) -> (r: Vec<(String, String)>)
    requires
        dom.wf(),
    ensures
        pairs_view(r@) == document_assets(
            *dom,
            match base_url {
                Some(b) => Some(b@),
                None => None,
            },
        ),
{
    let all = dom.descendants(dom.document());
    proof {
        lemma_descendants_fit(*dom, dom.doc());
        let ds = descendants_of(*dom, dom.doc());
        assert forall|k: int| 0 <= k < all@.len() implies (#[trigger] all@[k]).id() < 0x1_0000_0000 by {
            dom.lemma_at(ds[k]);
        }
        assert(all@.map_values(|x: NodeId| x.id()) =~= ds) by {
            assert forall|k: int| 0 <= k < ds.len() implies all@[k].id() == ds[k] by {
                dom.lemma_at(ds[k]);
            }
        }
    }
    let mut out: Vec<(String, String)> = Vec::new();
    proof {
        assert(pairs_view(out@) =~= Seq::<(Seq<char>, Seq<char>)>::empty());
    }
    collect_for(dom, &all, "script", "src", "script", base_url, &mut out);
    collect_for(dom, &all, "link", "href", "link", base_url, &mut out);
    collect_for(dom, &all, "img", "src", "image", base_url, &mut out);
    collect_for(dom, &all, "iframe", "src", "iframe", base_url, &mut out);
    collect_for(dom, &all, "source", "src", "media", base_url, &mut out);
    collect_for(dom, &all, "video", "src", "video", base_url, &mut out);
    collect_for(dom, &all, "audio", "src", "audio", base_url, &mut out);
    collect_for(dom, &all, "embed", "src", "embed", base_url, &mut out);
    collect_for(dom, &all, "object", "data", "object", base_url, &mut out);
    proof {
        let ds = descendants_of(*dom, dom.doc());
        assert(pairs_view(out@) =~= document_assets(
            *dom,
            match base_url {
                Some(b) => Some(b@),
                None => None,
            },
        ));
    }
    out
}

} // verus!
