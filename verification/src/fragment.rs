//! The context element and markup of a fragment-parsing command.
use vstd::prelude::*;

use crate::mutation_impact::{split_once, split_point};
use crate::strutil::{owned, string_from_range, chars_of};
use crate::tree::QualName;

verus! {

/// The HTML namespace.
pub open spec fn xhtml() -> Seq<char> {
    "http://www.w3.org/1999/xhtml"@
}

/// `s` cut like `splitn(3, '\0')`: the text before the first NUL, then,
/// when there are NULs, the text up to the next one, then the rest.
pub open spec fn nul_parts(s: Seq<char>) -> (Seq<char>, Option<Seq<char>>, Option<Seq<char>>) {
    match split_once(s, '\0') {
        None => (s, None, None),
        Some((a, rest)) => match split_once(rest, '\0') {
            None => (a, Some(rest), None),
            Some((b, c)) => (a, Some(b), Some(c)),
        },
    }
}

/// The context element's namespace, qualified name and the markup that a
/// command argument names: `namespace\0qualified\0html`, the older
/// `local\0html` in the HTML namespace, or bare markup parsed in `<body>`.
pub open spec fn fragment_parts(arg: Seq<char>) -> (Seq<char>, Seq<char>, Seq<char>) {
    let (first, second, third) = nul_parts(arg);
    match (second, third) {
        (Some(q), Some(h)) => (first, q, h),
        (Some(h), None) => (xhtml(), first, h),
        _ => (xhtml(), "body"@, first),
    }
}

/// The prefix and local name of a qualified name: split at its first `:`
/// when both sides are non-empty; otherwise no prefix, and `body` for an
/// empty name.
pub open spec fn prefix_and_local(q: Seq<char>) -> (Option<Seq<char>>, Seq<char>) {
    match split_once(q, ':') {
        Some((p, l)) => if p.len() > 0 && l.len() > 0 {
            (Some(p), l)
        } else if q.len() == 0 {
            (None, "body"@)
        } else {
            (None, q)
        },
        None => if q.len() == 0 {
            (None, "body"@)
        } else {
            (None, q)
        },
    }
}

/// Splits `v` at its first `c`, like `str::split_once`.
fn split_vec(v: &Vec<char>, c: char) -> (r: Option<(Vec<char>, Vec<char>)>)
    ensures
        match split_once(v@, c) {
            Some((a, b)) => r matches Some(p) && p.0@ == a && p.1@ == b,
            None => r is None,
        },
{
    match split_point(v, c) {
        None => None,
        Some(k) => {
            let mut a: Vec<char> = Vec::new();
            let mut b: Vec<char> = Vec::new();
            let mut i: usize = 0;
            while i < v.len()
                invariant
                    k < v@.len(),
                    i <= v@.len(),
                    a@ == v@.take(if i <= k { i as int } else { k as int }),
                    i > k ==> b@ == v@.subrange(k + 1, i as int),
                    i <= k ==> b@.len() == 0,
                decreases v@.len() - i,
            {
                if i < k {
                    a.push(v[i]);
                    proof {
                        assert(v@.take(i + 1) =~= v@.take(i as int).push(v@[i as int]));
                    }
                } else if i > k {
                    b.push(v[i]);
                    proof {
                        assert(v@.subrange(k + 1, i + 1) =~= v@.subrange(k + 1, i as int).push(
                            v@[i as int],
                        ));
                    }
                } else {
                    proof {
                        assert(v@.subrange(k + 1, k + 1) =~= Seq::<char>::empty());
                    }
                }
                i = i + 1;
            }
            proof {
                assert(v@.subrange(k + 1, v@.len() as int) =~= v@.skip(k + 1));
            }
            Some((a, b))
        },
    }
}

/// The context element and the markup of a fragment-parsing argument.
pub fn fragment_context_and_html(arg: &str) -> (r: (QualName, String))
    ensures
        ({
            let (ns, q, html) = fragment_parts(arg@);
            let (prefix, local) = prefix_and_local(q);
            &&& r.0.ns@ == ns
            &&& r.0.local@ == local
            &&& match prefix {
                Some(p) => r.0.prefix matches Some(x) && x@ == p,
                None => r.0.prefix is None,
            }
            &&& r.1@ == html
        }),
{
    proof {
        reveal_strlit("body");
        reveal_strlit("http://www.w3.org/1999/xhtml");
    }
    let v = chars_of(arg);
    let (namespace, qualified, html): (Vec<char>, Vec<char>, Vec<char>) = match split_vec(&v, '\0') {
        None => (chars_of("http://www.w3.org/1999/xhtml"), chars_of("body"), v),
        Some((first, rest)) => match split_vec(&rest, '\0') {
            None => (chars_of("http://www.w3.org/1999/xhtml"), first, rest),
            Some((second, third)) => (first, second, third),
        },
    };
    let ns = string_from_range(&namespace, 0, namespace.len());
    let html_text = string_from_range(&html, 0, html.len());
    proof {
        assert(namespace@.subrange(0, namespace@.len() as int) =~= namespace@);
        assert(html@.subrange(0, html@.len() as int) =~= html@);
    }
    let name = match split_vec(&qualified, ':') {
        Some((p, l)) => {
            if p.len() > 0 && l.len() > 0 {
                proof {
                    assert(p@.subrange(0, p@.len() as int) =~= p@);
                    assert(l@.subrange(0, l@.len() as int) =~= l@);
                }
                QualName {
                    prefix: Some(string_from_range(&p, 0, p.len())),
                    ns,
                    local: string_from_range(&l, 0, l.len()),
                }
            } else if qualified.len() == 0 {
                QualName { prefix: None, ns, local: owned("body") }
            } else {
                proof {
                    assert(qualified@.subrange(0, qualified@.len() as int) =~= qualified@);
                }
                QualName { prefix: None, ns, local: string_from_range(&qualified, 0, qualified.len()) }
            }
        },
        None => {
            if qualified.len() == 0 {
                QualName { prefix: None, ns, local: owned("body") }
            } else {
                proof {
                    assert(qualified@.subrange(0, qualified@.len() as int) =~= qualified@);
                }
                QualName { prefix: None, ns, local: string_from_range(&qualified, 0, qualified.len()) }
            }
        },
    };
    (name, html_text)
}

} // verus!
