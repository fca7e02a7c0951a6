//! URL patterns with `*` wildcards, as the blocked-URL list uses them.
//!
//! The pattern is cut at each `*`; the non-empty pieces are then looked up
//! left to right, each at its leftmost occurrence in what the previous one
//! left over. The first piece must start the URL unless the pattern starts
//! with `*`, and what is left at the end must be empty unless the pattern
//! ends with `*`.
use vstd::prelude::*;

use crate::strutil::chars_of;

verus! {

/// The pieces of `p` between its `*` characters, empty pieces included.
pub open spec fn pieces(p: Seq<char>) -> Seq<Seq<char>>
    decreases p.len(),
{
    if p.len() == 0 {
        seq![Seq::empty()]
    } else {
        let r = pieces(p.drop_last());
        if p.last() == '*' {
            r.push(Seq::empty())
        } else {
            r.update(r.len() - 1, r.last().push(p.last()))
        }
    }
}

/// `part` occurs in `s` at position `i`.
pub open spec fn occurs_at(s: Seq<char>, part: Seq<char>, i: int) -> bool {
    0 <= i && i + part.len() <= s.len() && s.subrange(i, i + part.len()) == part
}

/// The leftmost position, from `i` on, at which `part` occurs in `s`.
pub open spec fn find_from(s: Seq<char>, part: Seq<char>, i: nat) -> Option<nat>
    decreases s.len() + 1 - i,
{
    if i + part.len() > s.len() {
        None
    } else if occurs_at(s, part, i as int) {
        Some(i)
    } else {
        find_from(s, part, i + 1)
    }
}

proof fn lemma_find_from(s: Seq<char>, part: Seq<char>, i: nat)
    ensures
        match find_from(s, part, i) {
            Some(k) => i <= k && occurs_at(s, part, k as int),
            None => true,
        },
    decreases s.len() + 1 - i,
{
    if i + part.len() <= s.len() && !occurs_at(s, part, i as int) {
        lemma_find_from(s, part, i + 1);
    }
}

/// What is left of `rem` after the pieces of `parts` are found in turn;
/// none when one is missing, or when the first non-empty piece does not
/// start `rem` while `anchored`.
pub open spec fn match_pieces(parts: Seq<Seq<char>>, rem: Seq<char>, anchored: bool) -> Option<
    Seq<char>,
>
    decreases parts.len(),
{
    if parts.len() == 0 {
        Some(rem)
    } else if parts[0].len() == 0 {
        match_pieces(parts.drop_first(), rem, anchored)
    } else {
        match find_from(rem, parts[0], 0) {
            None => None,
            Some(i) => if anchored && i != 0 {
                None
            } else {
                match_pieces(parts.drop_first(), rem.skip((i + parts[0].len()) as int), false)
            },
        }
    }
}

/// `url` matches the wildcard pattern `p`.
pub open spec fn glob_matches(p: Seq<char>, url: Seq<char>) -> bool {
    if p == seq!['*'] {
        true
    } else {
        let starts_star = p.len() > 0 && p[0] == '*';
        let ends_star = p.len() > 0 && p.last() == '*';
        match match_pieces(pieces(p), url, !starts_star) {
            None => false,
            Some(r) => ends_star || r.len() == 0,
        }
    }
}

/// Splits `p` at its `*` characters.
fn split_stars(p: &Vec<char>) -> (r: Vec<Vec<char>>)
    ensures
        r@.len() == pieces(p@).len(),
        forall|j: int| 0 <= j < r@.len() ==> #[trigger] r@[j]@ == pieces(p@)[j],
{
    let mut out: Vec<Vec<char>> = Vec::new();
    let mut cur: Vec<char> = Vec::new();
    let mut k: usize = 0;
    proof {
        assert(p@.take(0) =~= Seq::<char>::empty());
    }
    while k < p.len()
        invariant
            k <= p@.len(),
            out@.len() + 1 == pieces(p@.take(k as int)).len(),
            forall|j: int| 0 <= j < out@.len() ==> #[trigger] out@[j]@ == pieces(p@.take(k as int))[j],
            cur@ == pieces(p@.take(k as int)).last(),
        decreases p@.len() - k,
    {
        let c = p[k];
        proof {
            assert(p@.take(k + 1).drop_last() =~= p@.take(k as int));
            assert(p@.take(k + 1).last() == c);
        }
        if c == '*' {
            out.push(cur);
            cur = Vec::new();
        } else {
            cur.push(c);
        }
        k = k + 1;
    }
    proof {
        assert(p@.take(k as int) =~= p@);
    }
    out.push(cur);
    out
}

/// Whether `part` occurs in `s` at position `i`.
fn occurs_here(s: &Vec<char>, part: &Vec<char>, i: usize) -> (r: bool)
    requires
        i + part@.len() <= s@.len(),
    ensures
        r == occurs_at(s@, part@, i as int),
{
    let n = s.len();
    let mut j: usize = 0;
    while j < part.len()
        invariant
            n == s@.len(),
            i + part@.len() <= s@.len(),
            j <= part@.len(),
            forall|m: int| 0 <= m < j ==> s@[i + m] == part@[m],
        decreases part@.len() - j,
    {
        assert(i + j < s@.len());
        if s[i + j] != part[j] {
            proof {
                assert(s@.subrange(i as int, i + part@.len())[j as int] != part@[j as int]);
            }
            return false;
        }
        j = j + 1;
    }
    proof {
        assert(s@.subrange(i as int, i + part@.len()) =~= part@);
    }
    true
}

/// The leftmost position, from `from` on, at which `part` occurs in `s`.
pub(crate) fn find_part(s: &Vec<char>, part: &Vec<char>, from: usize) -> (r: Option<usize>)
    requires
        from <= s@.len(),
        part@.len() > 0,
    ensures
        match find_from(s@.skip(from as int), part@, 0) {
            Some(i) => from + i + part@.len() <= s@.len() && r == Some((from + i) as usize),
            None => r is None,
        },
{
    proof {
        lemma_find_from(s@.skip(from as int), part@, 0);
    }
    let ghost rest = s@.skip(from as int);
    if part.len() > s.len() {
        return None;
    }
    let n = s.len();
    let last = n - part.len();
    let mut i: usize = from;
    while i <= last
        invariant
            from <= i,
            i <= s@.len(),
            part@.len() > 0,
            n == s@.len(),
            last + part@.len() == n,
            rest == s@.skip(from as int),
            find_from(rest, part@, 0) == find_from(rest, part@, (i - from) as nat),
        decreases s@.len() - i,
    {
        proof {
            assert(rest.subrange(i - from, i - from + part@.len()) =~= s@.subrange(
                i as int,
                i + part@.len(),
            ));
        }
        if occurs_here(s, part, i) {
            return Some(i);
        }
        i = i + 1;
    }
    proof {
        assert((i - from) + part@.len() > rest.len());
    }
    None
}

/// Whether `url` matches the pattern, where `*` stands for any run of
/// characters.
pub fn glob_match(pattern: &str, url: &str) -> (r: bool)
    ensures
        r == glob_matches(pattern@, url@),
{
    let p = chars_of(pattern);
    let u = chars_of(url);
    if p.len() == 1 && p[0] == '*' {
        proof {
            assert(p@ =~= seq!['*']);
        }
        return true;
    }
    proof {
        if p@ == seq!['*'] {
            assert(p@.len() == 1 && p@[0] == '*');
        }
    }
    let starts_star = p.len() > 0 && p[0] == '*';
    let ends_star = p.len() > 0 && p[p.len() - 1] == '*';
    let parts = split_stars(&p);
    let ghost ps = pieces(p@);
    let ulen = u.len();
    let mut off: usize = 0;
    let mut anchored = !starts_star;
    let mut j: usize = 0;
    proof {
        assert(ps.skip(0) =~= ps);
        assert(u@.skip(0) =~= u@);
    }
    while j < parts.len()
        invariant
            ps == pieces(p@),
            p@ == pattern@,
            u@ == url@,
            p@ != seq!['*'],
            starts_star == (p@.len() > 0 && p@[0] == '*'),
            ends_star == (p@.len() > 0 && p@.last() == '*'),
            parts@.len() == ps.len(),
            forall|m: int| 0 <= m < parts@.len() ==> #[trigger] parts@[m]@ == ps[m],
            j <= parts@.len(),
            ulen == u@.len(),
            off <= u@.len(),
            match_pieces(ps, u@, !starts_star) == match_pieces(ps.skip(j as int), u@.skip(off as int), anchored),
        decreases parts@.len() - j,
    {
        let part = &parts[j];
        proof {
            assert(ps.skip(j as int)[0] == ps[j as int]);
            assert(ps.skip(j as int).drop_first() =~= ps.skip(j + 1));
            assert(part@ == ps[j as int]);
        }
        if part.len() > 0 {
            proof {
                assert(ps.skip(j as int)[0].len() > 0);
            }
            match find_part(&u, part, off) {
                None => {
                    proof {
                        assert(match_pieces(ps.skip(j as int), u@.skip(off as int), anchored) is None);
                    }
                    return false;
                },
                Some(i) => {
                    if anchored && i != off {
                        proof {
                            match find_from(u@.skip(off as int), part@, 0) {
                                Some(x) => {
                                    assert(x != 0);
                                },
                                None => {},
                            }
                            assert(match_pieces(ps.skip(j as int), u@.skip(off as int), anchored) is None);
                        }
                        return false;
                    }
                    proof {
                        let k = (i - off) as int;
                        match find_from(u@.skip(off as int), part@, 0) {
                            Some(x) => {
                                assert(x == k);
                            },
                            None => {
                                assert(false);
                            },
                        }
                        assert(u@.skip(off as int).skip(k + part@.len()) =~= u@.skip(
                            i + part@.len(),
                        ));
                    }
                    off = i + part.len();
                    anchored = false;
                },
            }
        }
        j = j + 1;
    }
    proof {
        assert(ps.skip(j as int).len() == 0);
        assert(u@.skip(off as int).len() == u@.len() - off);
    }
    ends_star || off == u.len()
}

} // verus!
