//! Decisions of a script-initiated fetch: which URLs the page may not
//! reach, when a CORS preflight is due, which headers a request hop
//! carries, how a redirect moves the request on, and when a cross-origin
//! response may not be read.
//!
//! The host sends the requests and reads the responses; these functions
//! decide from plain values what it does next.
use vstd::prelude::*;

use crate::assets::{join_url, url_joined};
use crate::cli::{ascii_lower, lower_char};
use crate::fetch_policy::{
    cors_allows, cors_response_allows, lowercased, request_origin, to_lowercase, url_error_text,
    url_origin, FetchCredentials, FetchUrlError,
};
use crate::glob::{find_from, find_part, glob_match, glob_matches};
use crate::strutil::{chars_of, concat_str, owned, str_eq};

verus! {

/// How many redirects a scripted fetch follows.
pub const FETCH_REDIRECT_LIMIT: usize = 10;

/// How many fetched URLs a page records for the asset dump.
pub const MAX_FETCHED_URLS: usize = 4096;

/// `part` occurs somewhere in `s`.
pub open spec fn contains_text(s: Seq<char>, part: Seq<char>) -> bool {
    find_from(s, part, 0) is Some
}

/// A blocked-URL pattern catches `url`: it is `*`, occurs in `url`, or
/// matches it with `*` as a wildcard.
pub open spec fn pattern_blocks(p: Seq<char>, url: Seq<char>) -> bool {
    p == "*"@ || contains_text(url, p) || glob_matches(p, url)
}

pub open spec fn blocked_by(patterns: Seq<String>, url: Seq<char>) -> bool {
    exists|i: int| 0 <= i < patterns.len() && pattern_blocks(#[trigger] patterns[i]@, url)
}

/// `str::contains`.
fn contains_str(s: &str, part: &str) -> (r: bool)
    ensures
        r == contains_text(s@, part@),
{
    let sv = chars_of(s);
    let pv = chars_of(part);
    if pv.len() == 0 {
        proof {
            assert(s@.subrange(0, 0) =~= part@);
        }
        return true;
    }
    proof {
        assert(sv@.skip(0) =~= sv@);
    }
    find_part(&sv, &pv, 0).is_some()
}

/// Whether the page's blocked-URL patterns refuse a fetch of `url`.
pub fn url_blocked(patterns: &Vec<String>, url: &str) -> (r: bool)
    ensures
        r == blocked_by(patterns@, url@),
{
    let mut i: usize = 0;
    while i < patterns.len()
        invariant
            i <= patterns@.len(),
            forall|k: int| 0 <= k < i ==> !pattern_blocks(#[trigger] patterns@[k]@, url@),
        decreases patterns@.len() - i,
    {
        let p = patterns[i].as_str();
        if str_eq(p, "*") || contains_str(url, p) || glob_match(p, url) {
            proof {
                assert(pattern_blocks(patterns@[i as int]@, url@));
            }
            return true;
        }
        i = i + 1;
    }
    false
}

/// Records a URL the page fetched, keeping at most `MAX_FETCHED_URLS`.
pub fn record_fetched_url(urls: &mut Vec<String>, url: &str)
    ensures
        old(urls)@.len() < MAX_FETCHED_URLS ==> final(urls)@.len() == old(urls)@.len() + 1
            && final(urls)@.drop_last() == old(urls)@ && final(urls)@.last()@ == url@,
        old(urls)@.len() >= MAX_FETCHED_URLS ==> final(urls)@ == old(urls)@,
{
    if urls.len() < MAX_FETCHED_URLS {
        urls.push(owned(url));
        proof {
            assert(urls@.drop_last() =~= old(urls)@);
        }
    }
}

/// The origin text of a URL, empty when it does not parse.
pub open spec fn origin_or_empty(url: Seq<char>) -> Seq<char> {
    match url_origin(url) {
        Some(o) => o,
        None => Seq::empty(),
    }
}

/// The page origin a fetch goes out under: the one the page gave, or the
/// request's own origin when it gave none.
pub open spec fn fetch_page_origin(origin: Seq<char>, url: Seq<char>) -> Seq<char> {
    if origin.len() == 0 {
        origin_or_empty(url)
    } else {
        origin
    }
}

/// The page origin of a fetch and whether its first request is
/// cross-origin.
pub fn page_origin_for(origin: &str, url: &str) -> (r: (String, bool))
    ensures
        r.0@ == fetch_page_origin(origin@, url@),
        r.1 == (r.0@.len() > 0 && origin_or_empty(url@) != r.0@),
{
    proof {
        reveal_strlit("");
    }
    let initial = match request_origin(url) {
        Some(o) => o,
        None => String::new(),
    };
    let page = if str_eq(origin, "") {
        owned(initial.as_str())
    } else {
        proof {
            assert(origin@.len() == 0 ==> origin@ =~= ""@);
        }
        owned(origin)
    };
    let cross = !str_eq(page.as_str(), "") && !str_eq(initial.as_str(), page.as_str());
    proof {
        assert(page@.len() == 0 ==> page@ =~= ""@);
    }
    (page, cross)
}

/// The request header that marks an iframe navigation.
pub open spec fn frame_marker() -> Seq<char> {
    "__obscura-frame-navigation"@
}

pub open spec fn pair_view(p: (String, String)) -> (Seq<char>, Seq<char>) {
    (p.0@, p.1@)
}

pub open spec fn pairs_view(s: Seq<(String, String)>) -> Seq<(Seq<char>, Seq<char>)> {
    s.map_values(|p: (String, String)| pair_view(p))
}

/// The headers of `s` not named `name`, in order.
pub open spec fn without_header(s: Seq<(Seq<char>, Seq<char>)>, name: Seq<char>) -> Seq<(Seq<char>, Seq<char>)>
    decreases s.len(),
{
    if s.len() == 0 {
        Seq::empty()
    } else if s.last().0 == name {
        without_header(s.drop_last(), name)
    } else {
        without_header(s.drop_last(), name).push(s.last())
    }
}

/// The value of the first header of `s` named `name`.
pub open spec fn header_value(s: Seq<(Seq<char>, Seq<char>)>, name: Seq<char>) -> Option<Seq<char>>
    decreases s.len(),
{
    if s.len() == 0 {
        None
    } else if s[0].0 == name {
        Some(s[0].1)
    } else {
        header_value(s.drop_first(), name)
    }
}

/// Takes the iframe-navigation marker out of the page's headers; whether
/// it was set to `1`.
pub fn take_frame_marker(headers: &mut Vec<(String, String)>) -> (r: bool)
    ensures
        pairs_view(final(headers)@) == without_header(pairs_view(old(headers)@), frame_marker()),
        r == (header_value(pairs_view(old(headers)@), frame_marker()) == Some("1"@)),
{
    let ghost h0 = pairs_view(headers@);
    let mut kept: Vec<(String, String)> = Vec::new();
    let mut found: Option<bool> = None;
    let n = headers.len();
    let mut i: usize = 0;
    proof {
        reveal_strlit("1");
        assert(h0.skip(0) =~= h0);
    }
    while i < n
        invariant
            n == h0.len(),
            i <= n,
            h0 == pairs_view(old(headers)@),
            headers@ == old(headers)@,
            pairs_view(kept@) == without_header(h0.take(i as int), frame_marker()),
            found is None ==> header_value(h0, frame_marker()) == header_value(h0.skip(i as int), frame_marker()),
            found matches Some(b) ==> b == (header_value(h0, frame_marker()) == Some("1"@)),
        decreases n - i,
    {
        let is_marker = str_eq(headers[i].0.as_str(), "__obscura-frame-navigation");
        proof {
            assert(h0[i as int] == pair_view(headers@[i as int]));
            assert(h0.take(i + 1).drop_last() =~= h0.take(i as int));
            assert(h0.take(i + 1).last() == h0[i as int]);
            assert(h0.skip(i as int)[0] == h0[i as int]);
            assert(h0.skip(i as int).drop_first() =~= h0.skip(i + 1));
        }
        if is_marker {
            if found.is_none() {
                found = Some(str_eq(headers[i].1.as_str(), "1"));
            }
        } else {
            let k = owned(headers[i].0.as_str());
            let v = owned(headers[i].1.as_str());
            let ghost k0 = kept@;
            kept.push((k, v));
            proof {
                assert(pairs_view(kept@) =~= pairs_view(k0).push(h0[i as int]));
            }
        }
        i = i + 1;
    }
    proof {
        assert(h0.take(n as int) =~= h0);
        assert(h0.skip(n as int).len() == 0);
    }
    *headers = kept;
    match found {
        Some(b) => b,
        None => false,
    }
}

/// The credentials mode of a fetch: an iframe navigation always sends
/// credentials, any other fetch uses the mode the page asked for.
pub fn fetch_credentials(frame_navigation: bool, credentials: &str) -> (r: FetchCredentials)
    ensures
        r == if frame_navigation {
            FetchCredentials::Include
        } else {
            FetchCredentials::parsed(credentials@)
        },
{
    if frame_navigation {
        FetchCredentials::Include
    } else {
        FetchCredentials::parse(credentials)
    }
}

pub open spec fn safelisted_method(m: Seq<char>) -> bool {
    m == "GET"@ || m == "HEAD"@ || m == "POST"@
}

/// A request header name (lower-cased) that needs no preflight.
pub open spec fn safelisted_header(lower: Seq<char>) -> bool {
    lower == "accept"@ || lower == "accept-language"@ || lower == "content-language"@ || lower
        == "content-type"@
}

pub open spec fn preflight_needed(
    cross: bool,
    mode: Seq<char>,
    method: Seq<char>,
    headers: Seq<(Seq<char>, Seq<char>)>,
) -> bool {
    &&& cross
    &&& mode == "cors"@
    &&& (!safelisted_method(method) || exists|i: int|
        0 <= i < headers.len() && !safelisted_header(lowercased(#[trigger] headers[i].0)))
}

/// A cross-origin `cors` request made with GET, HEAD or POST whose headers
/// are only `Accept`, `Accept-Language`, `Content-Language` and
/// `Content-Type`, in any case, is sent without a preflight; a same-origin
/// or non-`cors` request never has one.
pub proof fn lemma_simple_requests_skip_preflight(
    cross: bool,
    mode: Seq<char>,
    method: Seq<char>,
    headers: Seq<(Seq<char>, Seq<char>)>,
)
    ensures
        (method == "GET"@ || method == "HEAD"@ || method == "POST"@) && (forall|i: int|
            0 <= i < headers.len() ==> {
                let l = lowercased(#[trigger] headers[i].0);
                l == "accept"@ || l == "accept-language"@ || l == "content-language"@ || l
                    == "content-type"@
            }) ==> !preflight_needed(cross, mode, method, headers),
        !cross || mode != "cors"@ ==> !preflight_needed(cross, mode, method, headers),
{
}

/// A cross-origin `cors` request with a method other than GET, HEAD and
/// POST always needs a preflight, whatever its headers.
pub proof fn lemma_other_methods_need_preflight(
    mode: Seq<char>,
    method: Seq<char>,
    headers: Seq<(Seq<char>, Seq<char>)>,
)
    requires
        mode == "cors"@,
        method != "GET"@ && method != "HEAD"@ && method != "POST"@,
    ensures
        preflight_needed(true, mode, method, headers),
{
}

/// Whether a cross-origin `cors` request needs an `OPTIONS` preflight: its
/// method (as parsed for sending) is not GET, HEAD or POST, or it carries
/// a header outside the CORS safelist.
pub fn needs_cors_preflight(
    is_cross_origin: bool,
    mode: &str,
    method: &str,
    headers: &Vec<(String, String)>,
) -> (r: bool)
    ensures
        r == preflight_needed(is_cross_origin, mode@, method@, pairs_view(headers@)),
{
    if !is_cross_origin || !str_eq(mode, "cors") {
        return false;
    }
    if !(str_eq(method, "GET") || str_eq(method, "HEAD") || str_eq(method, "POST")) {
        return true;
    }
    let ghost h = pairs_view(headers@);
    let mut i: usize = 0;
    while i < headers.len()
        invariant
            i <= headers@.len(),
            h == pairs_view(headers@),
            is_cross_origin,
            mode@ == "cors"@,
            forall|k: int| 0 <= k < i ==> safelisted_header(lowercased(#[trigger] h[k].0)),
        decreases headers@.len() - i,
    {
        let kl = to_lowercase(headers[i].0.as_str());
        proof {
            assert(h[i as int].0 == headers@[i as int].0@);
        }
        if !(str_eq(kl.as_str(), "accept") || str_eq(kl.as_str(), "accept-language") || str_eq(
            kl.as_str(),
            "content-language",
        ) || str_eq(kl.as_str(), "content-type")) {
            proof {
                assert(!safelisted_header(lowercased(h[i as int].0)));
            }
            return true;
        }
        i = i + 1;
    }
    false
}

/// The message of a refused preflight.
pub fn preflight_error(page_origin: &str, allowed_origin: &str) -> (r: String)
    ensures
        r@ == "CORS preflight: Origin '"@ + page_origin@ + "' not allowed by Access-Control-Allow-Origin '"@
            + allowed_origin@ + "'"@,
{
    let a = concat_str("CORS preflight: Origin '", page_origin);
    let b = concat_str(a.as_str(), "' not allowed by Access-Control-Allow-Origin '");
    let c = concat_str(b.as_str(), allowed_origin);
    concat_str(c.as_str(), "'")
}

/// A request to `url` leaves the page's origin: the URL parses and its
/// origin differs.
pub open spec fn cross_origin_to(page_origin: Seq<char>, url: Seq<char>) -> bool {
    match url_origin(url) {
        Some(o) => o != page_origin,
        None => false,
    }
}

/// Whether a request to `url` goes cross-origin from `page_origin`.
pub fn is_cross_origin_to(page_origin: &str, url: &str) -> (r: bool)
    ensures
        r == cross_origin_to(page_origin@, url@),
{
    match request_origin(url) {
        Some(o) => !str_eq(o.as_str(), page_origin),
        None => false,
    }
}

/// Why a cross-origin response to a `cors` request may not be read, or
/// `None` when it may. A missing response header reads as empty.
pub open spec fn cors_block(
    credentials: FetchCredentials,
    page_origin: Seq<char>,
    final_url: Seq<char>,
    mode: Seq<char>,
    allowed: Seq<char>,
    allow_credentials: Seq<char>,
) -> Option<Seq<char>> {
    if cross_origin_to(page_origin, final_url) && mode == "cors"@ && !cors_allows(
        credentials,
        page_origin,
        allowed,
        allow_credentials,
    ) {
        Some(
            if credentials == FetchCredentials::Include {
                "CORS error: credentialed request requires Access-Control-Allow-Origin '"@
                    + page_origin + "' and Access-Control-Allow-Credentials 'true'"@
            } else {
                "CORS error: Origin '"@ + page_origin + "' not in Access-Control-Allow-Origin '"@
                    + allowed + "'"@
            },
        )
    } else {
        None
    }
}

pub fn cors_block_error(
    credentials: FetchCredentials,
    page_origin: &str,
    final_url: &str,
    mode: &str,
    allowed_origin: &str,
    allow_credentials: &str,
) -> (r: Option<String>)
    ensures
        match r {
            Some(s) => cors_block(credentials, page_origin@, final_url@, mode@, allowed_origin@, allow_credentials@)
                == Some(s@),
            None => cors_block(credentials, page_origin@, final_url@, mode@, allowed_origin@, allow_credentials@) is None,
        },
{
    if !is_cross_origin_to(page_origin, final_url) || !str_eq(mode, "cors") || cors_response_allows(
        credentials,
        page_origin,
        allowed_origin,
        allow_credentials,
    ) {
        return None;
    }
    if credentials == FetchCredentials::Include {
        let a = concat_str(
            "CORS error: credentialed request requires Access-Control-Allow-Origin '",
            page_origin,
        );
        Some(concat_str(a.as_str(), "' and Access-Control-Allow-Credentials 'true'"))
    } else {
        let a = concat_str("CORS error: Origin '", page_origin);
        let b = concat_str(a.as_str(), "' not in Access-Control-Allow-Origin '");
        let c = concat_str(b.as_str(), allowed_origin);
        Some(concat_str(c.as_str(), "'"))
    }
}

/// Some header of `h` is named `name`, ASCII case aside.
pub open spec fn has_header_ci(h: Seq<(Seq<char>, Seq<char>)>, name: Seq<char>) -> bool {
    exists|i: int| 0 <= i < h.len() && ascii_lower(#[trigger] h[i].0) == ascii_lower(name)
}

/// The one header `(name, value)` when `c` holds, else none.
pub open spec fn when(c: bool, name: Seq<char>, value: Seq<char>) -> Seq<(Seq<char>, Seq<char>)> {
    if c {
        seq![(name, value)]
    } else {
        Seq::empty()
    }
}

pub open spec fn navigation_accept() -> Seq<char> {
    "text/html,application/xhtml+xml,application/xml;q=0.9,image/avif,image/webp,image/apng,*/*;q=0.8,application/signed-exchange;v=b3;q=0.7"@
}

/// The headers an iframe navigation adds.
pub open spec fn navigation_headers(cross: bool) -> Seq<(Seq<char>, Seq<char>)> {
    seq![
        ("Accept"@, navigation_accept()),
        ("Sec-Fetch-Dest"@, "iframe"@),
        ("Sec-Fetch-Mode"@, "navigate"@),
        ("Sec-Fetch-Site"@, if cross { "cross-site"@ } else { "same-origin"@ }),
        ("Upgrade-Insecure-Requests"@, "1"@),
    ]
}

/// Identity and policy headers of one request hop to `url`, in the order
/// they are set, followed by the page's own headers.
pub open spec fn hop_header_list(
    page_origin: Seq<char>,
    url: Seq<char>,
    frame_navigation: bool,
    credentials: FetchCredentials,
    cookie: Seq<char>,
    custom: Seq<(Seq<char>, Seq<char>)>,
    user_agent: Seq<char>,
    sec_ch_ua: Seq<char>,
    sec_ch_ua_platform: Seq<char>,
) -> Seq<(Seq<char>, Seq<char>)> {
    let cross = cross_origin_to(page_origin, url);
    when(cross && !frame_navigation, "Origin"@, page_origin)
        + when(!frame_navigation, "Sec-Fetch-Storage-Access"@, "active"@)
        + when(credentials.permits(page_origin, url) && cookie.len() > 0, "Cookie"@, cookie)
        + when(!has_header_ci(custom, "user-agent"@) && user_agent.len() > 0, "User-Agent"@, user_agent)
        + when(!has_header_ci(custom, "sec-ch-ua"@) && sec_ch_ua.len() > 0, "Sec-CH-UA"@, sec_ch_ua)
        + when(!has_header_ci(custom, "sec-ch-ua-mobile"@), "Sec-CH-UA-Mobile"@, "?0"@)
        + when(
        !has_header_ci(custom, "sec-ch-ua-platform"@) && sec_ch_ua_platform.len() > 0,
        "Sec-CH-UA-Platform"@,
        sec_ch_ua_platform,
    ) + if frame_navigation {
        navigation_headers(cross)
    } else {
        Seq::empty()
    } + custom
}

/// `str::eq_ignore_ascii_case`.
fn eq_ignore_case(a: &str, b: &str) -> (r: bool)
    ensures
        r == (ascii_lower(a@) == ascii_lower(b@)),
{
    let av = chars_of(a);
    let bv = chars_of(b);
    if av.len() != bv.len() {
        proof {
            assert(ascii_lower(a@).len() != ascii_lower(b@).len());
        }
        return false;
    }
    let mut i: usize = 0;
    while i < av.len()
        invariant
            av@ == a@,
            bv@ == b@,
            av@.len() == bv@.len(),
            i <= av@.len(),
            forall|k: int| 0 <= k < i ==> ascii_lower(a@)[k] == ascii_lower(b@)[k],
        decreases av@.len() - i,
    {
        if lower_char(av[i]) != lower_char(bv[i]) {
            proof {
                assert(ascii_lower(a@)[i as int] != ascii_lower(b@)[i as int]);
            }
            return false;
        }
        i = i + 1;
    }
    proof {
        assert(ascii_lower(a@) =~= ascii_lower(b@));
    }
    true
}

fn has_header(custom: &Vec<(String, String)>, name: &str) -> (r: bool)
    ensures
        r == has_header_ci(pairs_view(custom@), name@),
{
    let ghost h = pairs_view(custom@);
    let mut i: usize = 0;
    while i < custom.len()
        invariant
            i <= custom@.len(),
            h == pairs_view(custom@),
            forall|k: int| 0 <= k < i ==> ascii_lower(#[trigger] h[k].0) != ascii_lower(name@),
        decreases custom@.len() - i,
    {
        if eq_ignore_case(custom[i].0.as_str(), name) {
            proof {
                assert(h[i as int].0 == custom@[i as int].0@);
            }
            return true;
        }
        i = i + 1;
    }
    false
}

fn push_header(v: &mut Vec<(String, String)>, name: &str, value: &str)
    ensures
        pairs_view(final(v)@) == pairs_view(old(v)@).push((name@, value@)),
{
    v.push((owned(name), owned(value)));
    proof {
        assert(pairs_view(v@) =~= pairs_view(old(v)@).push((name@, value@)));
    }
}

fn push_when(v: &mut Vec<(String, String)>, c: bool, name: &str, value: &str)
    ensures
        pairs_view(final(v)@) == pairs_view(old(v)@) + when(c, name@, value@),
{
    if c {
        push_header(v, name, value);
    }
    proof {
        assert(pairs_view(v@) =~= pairs_view(old(v)@) + when(c, name@, value@));
    }
}

/// The headers of a hop that come before the navigation headers.
fn identity_headers(
    page_origin: &str,
    url: &str,
    cross: bool,
    frame_navigation: bool,
    credentials: FetchCredentials,
    cookie: &str,
    custom: &Vec<(String, String)>,
    user_agent: &str,
    sec_ch_ua: &str,
    sec_ch_ua_platform: &str,
) -> (r: Vec<(String, String)>)
    requires
        cross == cross_origin_to(page_origin@, url@),
    ensures
        pairs_view(r@) == when(cross && !frame_navigation, "Origin"@, page_origin@) + when(
            !frame_navigation,
            "Sec-Fetch-Storage-Access"@,
            "active"@,
        ) + when(credentials.permits(page_origin@, url@) && cookie@.len() > 0, "Cookie"@, cookie@)
            + when(
            !has_header_ci(pairs_view(custom@), "user-agent"@) && user_agent@.len() > 0,
            "User-Agent"@,
            user_agent@,
        ) + when(
            !has_header_ci(pairs_view(custom@), "sec-ch-ua"@) && sec_ch_ua@.len() > 0,
            "Sec-CH-UA"@,
            sec_ch_ua@,
        ) + when(!has_header_ci(pairs_view(custom@), "sec-ch-ua-mobile"@), "Sec-CH-UA-Mobile"@, "?0"@)
            + when(
            !has_header_ci(pairs_view(custom@), "sec-ch-ua-platform"@) && sec_ch_ua_platform@.len() > 0,
            "Sec-CH-UA-Platform"@,
            sec_ch_ua_platform@,
        ),
{
    proof {
        reveal_strlit("");
        assert(cookie@.len() == 0 ==> cookie@ =~= ""@);
        assert(user_agent@.len() == 0 ==> user_agent@ =~= ""@);
        assert(sec_ch_ua@.len() == 0 ==> sec_ch_ua@ =~= ""@);
        assert(sec_ch_ua_platform@.len() == 0 ==> sec_ch_ua_platform@ =~= ""@);
    }
    let mut r: Vec<(String, String)> = Vec::new();
    proof {
        assert(pairs_view(r@) =~= Seq::<(Seq<char>, Seq<char>)>::empty());
    }
    push_when(&mut r, cross && !frame_navigation, "Origin", page_origin);
    push_when(&mut r, !frame_navigation, "Sec-Fetch-Storage-Access", "active");
    let send_cookie = credentials.allows(page_origin, url) && !str_eq(cookie, "");
    push_when(&mut r, send_cookie, "Cookie", cookie);
    let ua = !has_header(custom, "user-agent") && !str_eq(user_agent, "");
    push_when(&mut r, ua, "User-Agent", user_agent);
    let ch = !has_header(custom, "sec-ch-ua") && !str_eq(sec_ch_ua, "");
    push_when(&mut r, ch, "Sec-CH-UA", sec_ch_ua);
    let mobile = !has_header(custom, "sec-ch-ua-mobile");
    push_when(&mut r, mobile, "Sec-CH-UA-Mobile", "?0");
    let platform = !has_header(custom, "sec-ch-ua-platform") && !str_eq(sec_ch_ua_platform, "");
    push_when(&mut r, platform, "Sec-CH-UA-Platform", sec_ch_ua_platform);
    proof {
        assert(Seq::<(Seq<char>, Seq<char>)>::empty() + when(cross && !frame_navigation, "Origin"@, page_origin@)
            =~= when(cross && !frame_navigation, "Origin"@, page_origin@));
    }
    r
}

/// The headers of one request hop of a scripted fetch to `url`: `Origin`
/// on a cross-origin hop, `Sec-Fetch-Storage-Access`, the cookie header
/// when the credentials mode lets cookies go to `url`, the context's
/// identity headers the page did not set itself, the navigation headers
/// of an iframe load, then the page's own headers.
pub fn hop_headers(
    page_origin: &str,
    url: &str,
    frame_navigation: bool,
    credentials: FetchCredentials,
    cookie: &str,
    custom: &Vec<(String, String)>,
    user_agent: &str,
    sec_ch_ua: &str,
    sec_ch_ua_platform: &str,
) -> (r: Vec<(String, String)>)
    ensures
        pairs_view(r@) == hop_header_list(
            page_origin@,
            url@,
            frame_navigation,
            credentials,
            cookie@,
            pairs_view(custom@),
            user_agent@,
            sec_ch_ua@,
            sec_ch_ua_platform@,
        ),
{
    proof {
        reveal_strlit("");
    }
    let cross = is_cross_origin_to(page_origin, url);
    let ghost c = pairs_view(custom@);
    let mut r = identity_headers(page_origin, url, cross, frame_navigation, credentials, cookie, custom, user_agent, sec_ch_ua, sec_ch_ua_platform);
    push_navigation(&mut r, cross, frame_navigation);
    append_pairs(&mut r, custom);
    r
}

fn push_navigation(r: &mut Vec<(String, String)>, cross: bool, frame_navigation: bool)
    ensures
        pairs_view(final(r)@) == pairs_view(old(r)@) + if frame_navigation {
            navigation_headers(cross)
        } else {
            Seq::empty()
        },
{
    let ghost s = pairs_view(r@);
    if frame_navigation {
        push_header(
            r,
            "Accept",
            "text/html,application/xhtml+xml,application/xml;q=0.9,image/avif,image/webp,image/apng,*/*;q=0.8,application/signed-exchange;v=b3;q=0.7",
        );
        push_header(r, "Sec-Fetch-Dest", "iframe");
        push_header(r, "Sec-Fetch-Mode", "navigate");
        push_header(r, "Sec-Fetch-Site", if cross { "cross-site" } else { "same-origin" });
        push_header(r, "Upgrade-Insecure-Requests", "1");
        proof {
            assert(pairs_view(r@) =~= s + navigation_headers(cross));
        }
    } else {
        proof {
            assert(pairs_view(r@) =~= s + Seq::<(Seq<char>, Seq<char>)>::empty());
        }
    }
}

fn append_pairs(r: &mut Vec<(String, String)>, custom: &Vec<(String, String)>)
    ensures
        pairs_view(final(r)@) == pairs_view(old(r)@) + pairs_view(custom@),
{
    let ghost c = pairs_view(custom@);
    let ghost s = pairs_view(r@);
    proof {
        assert(s + c.take(0) =~= s);
    }
    let mut i: usize = 0;
    while i < custom.len()
        invariant
            i <= custom@.len(),
            c == pairs_view(custom@),
            pairs_view(r@) == s + c.take(i as int),
        decreases custom@.len() - i,
    {
        push_header(r, custom[i].0.as_str(), custom[i].1.as_str());
        proof {
            assert(c[i as int] == pair_view(custom@[i as int]));
            assert(s + c.take(i + 1) =~= (s + c.take(i as int)).push(c[i as int]));
        }
        i = i + 1;
    }
    proof {
        assert(c.take(i as int) =~= c);
    }
}

/// A redirect status: 300 to 399.
pub open spec fn is_redirect_status(status: u16) -> bool {
    300 <= status <= 399
}

/// A redirect status that turns the next request into a GET without a
/// body.
pub open spec fn downgrades(status: u16) -> bool {
    status == 301 || status == 302 || status == 303
}

/// 301, 302 and 303 redirects turn the next request into a GET without a
/// body; 307 and 308 keep the method and the body. Every 3xx status is a
/// redirect to follow, and no status outside 300..=399 is.
pub proof fn lemma_redirect_method_rules(status: u16)
    ensures
        status == 301 || status == 302 || status == 303 ==> downgrades(status),
        status == 307 || status == 308 ==> !downgrades(status),
        downgrades(status) ==> is_redirect_status(status),
        300 <= status <= 399 <==> is_redirect_status(status),
{
}

/// Where a scripted fetch stands between request hops.
pub struct FetchHop {
    pub url: String,
    pub method: String,
    pub body: String,
    pub redirects_followed: usize,
}

/// What a response to a hop leads to.
pub enum HopStep {
    /// The response is the fetch's result.
    Finish,
    /// The response redirects to this URL, which the fetch policy must
    /// check before it is followed.
    Check(String),
}

/// What a checked redirect target leads to.
pub enum HopAction {
    /// The fetch ends, blocked, at `url`.
    Block { url: String, error: String },
    /// The next hop is ready to send.
    Send,
}

impl FetchHop {
    pub fn new(url: &str, method: &str, body: &str) -> (r: FetchHop)
        ensures
            r.url@ == url@,
            r.method@ == method@,
            r.body@ == body@,
            r.redirects_followed == 0,
    {
        FetchHop { url: owned(url), method: owned(method), body: owned(body), redirects_followed: 0 }
    }

    /// Reads a response to the current hop: a redirect with a `Location`
    /// that resolves against the hop's URL asks for a check of the target;
    /// anything else finishes the fetch.
    pub fn on_response(&self, status: u16, location: Option<&str>) -> (r: HopStep)
        ensures
            !is_redirect_status(status) || location is None ==> r is Finish,
            is_redirect_status(status) && location is Some ==> match url_joined(
                self.url@,
                location->Some_0@,
            ) {
                Some(n) => r matches HopStep::Check(x) && x@ == n,
                None => r is Finish,
            },
    {
        if status < 300 || status > 399 {
            return HopStep::Finish;
        }
        match location {
            None => HopStep::Finish,
            Some(l) => match join_url(self.url.as_str(), l) {
                Some(n) => HopStep::Check(n),
                None => HopStep::Finish,
            },
        }
    }

    /// Moves on to the checked redirect target `next` of a response with
    /// `status`: a refused target, or one redirect too many, blocks the
    /// fetch; otherwise the next hop goes to `next`, as a GET without a
    /// body after a 301, 302 or 303.
    pub fn on_checked(&mut self, status: u16, next: &str, check: &Result<(), FetchUrlError>) -> (r:
        HopAction)
        ensures
            check matches Err(e) ==> r matches HopAction::Block { url, error } && url@ == next@
                && error@ == "Redirect to forbidden URL blocked: "@ + url_error_text(*e),
            check matches Err(e) ==> *final(self) == *old(self),
            check is Ok && old(self).redirects_followed + 1 > FETCH_REDIRECT_LIMIT ==> (r matches HopAction::Block {
                url,
                error,
            } && url@ == next@ && error@ == "Too many redirects (>10)"@),
            check is Ok && old(self).redirects_followed + 1 > FETCH_REDIRECT_LIMIT ==> *final(self) == *old(self),
            check is Ok && old(self).redirects_followed + 1 <= FETCH_REDIRECT_LIMIT ==> {
                &&& r is Send
                &&& final(self).redirects_followed == old(self).redirects_followed + 1
                &&& final(self).url@ == next@
                &&& downgrades(status) ==> final(self).method@ == "GET"@ && final(self).body@ == Seq::<char>::empty()
                &&& !downgrades(status) ==> final(self).method@ == old(self).method@ && final(self).body@ == old(self).body@
                &&& (status == 301 || status == 302 || status == 303) ==> final(self).method@ == "GET"@
                    && final(self).body@.len() == 0
                &&& (status == 307 || status == 308) ==> final(self).method@ == old(self).method@
                    && final(self).body@ == old(self).body@
            },
            check is Ok ==> (r is Send <==> old(self).redirects_followed < 10),
    {
        match check {
            Err(e) => {
                let m = e.message();
                return HopAction::Block {
                    url: owned(next),
                    error: concat_str("Redirect to forbidden URL blocked: ", m.as_str()),
                };
            },
            Ok(()) => {},
        }
        if self.redirects_followed >= FETCH_REDIRECT_LIMIT {
            return HopAction::Block { url: owned(next), error: owned("Too many redirects (>10)") };
        }
        self.redirects_followed = self.redirects_followed + 1;
        if status == 301 || status == 302 || status == 303 {
            self.method = owned("GET");
            self.body = String::new();
        }
        self.url = owned(next);
        HopAction::Send
    }
}

/// The text and the origin of URL `raw` without its fragment, as the
/// `url` crate parses and serializes it; `None` when it does not parse.
pub uninterp spec fn url_without_fragment(raw: Seq<char>) -> Option<(Seq<char>, Seq<char>)>;

/// Calls `url::Url::parse` on `raw`, then `Url::set_fragment(None)`, and
/// returns the serialized URL with `Origin::ascii_serialization` of its
/// origin. The contract claims only that the result is `None` exactly when
/// parsing fails and is otherwise a function of `raw`
/// (`url_without_fragment`).
#[verifier::external_body]
fn defragment(raw: &str) -> (r: Option<(String, String)>)
    ensures
        match r {
            Some(p) => url_without_fragment(raw@) == Some((p.0@, p.1@)),
            None => url_without_fragment(raw@) is None,
        },
{
    match url::Url::parse(raw) {
        Ok(mut u) => {
            u.set_fragment(None);
            let origin = u.origin().ascii_serialization();
            Some((u.to_string(), origin))
        },
        Err(_) => None,
    }
}

/// Index of the first header of `h` named `name`, or -1.
pub open spec fn first_named(h: Seq<(Seq<char>, Seq<char>)>, name: Seq<char>) -> int
    decreases h.len(),
{
    if h.len() == 0 {
        -1
    } else if h[0].0 == name {
        0
    } else if first_named(h.drop_first(), name) < 0 {
        -1
    } else {
        first_named(h.drop_first(), name) + 1
    }
}

proof fn lemma_first_named(h: Seq<(Seq<char>, Seq<char>)>, name: Seq<char>, i: int)
    requires
        0 <= i <= h.len(),
        forall|k: int| 0 <= k < i ==> (#[trigger] h[k]).0 != name,
    ensures
        i < h.len() && h[i].0 == name ==> first_named(h, name) == i,
        i == h.len() ==> first_named(h, name) == -1,
    decreases h.len(),
{
    if h.len() > 0 && i > 0 {
        assert forall|k: int| 0 <= k < i - 1 implies (#[trigger] h.drop_first()[k]).0 != name by {
            assert(h.drop_first()[k] == h[k + 1]);
        }
        lemma_first_named(h.drop_first(), name, i - 1);
    }
}

/// `h` with header `name` set to `value`: the first entry with that name
/// takes the value, or a new entry is added last.
pub open spec fn set_header(h: Seq<(Seq<char>, Seq<char>)>, name: Seq<char>, value: Seq<char>) -> Seq<
    (Seq<char>, Seq<char>),
> {
    let i = first_named(h, name);
    if i >= 0 {
        h.update(i, (name, value))
    } else {
        h.push((name, value))
    }
}

/// `h` with each header of `custom`, its name lower-cased, set in turn.
pub open spec fn set_all_lowercased(
    h: Seq<(Seq<char>, Seq<char>)>,
    custom: Seq<(Seq<char>, Seq<char>)>,
) -> Seq<(Seq<char>, Seq<char>)>
    decreases custom.len(),
{
    if custom.len() == 0 {
        h
    } else {
        set_header(
            set_all_lowercased(h, custom.drop_last()),
            lowercased(custom.last().0),
            custom.last().1,
        )
    }
}

/// The `Referer` a hop to a URL with origin `current_origin` carries: the
/// document URL without fragment when it is same-origin, the page origin
/// otherwise; none when the document URL does not parse or the chosen
/// text is empty.
pub open spec fn referer_for(document_url: Seq<char>, current_origin: Seq<char>, page_origin: Seq<char>) -> Option<
    Seq<char>,
> {
    match url_without_fragment(document_url) {
        Some((text, origin)) => {
            let r = if origin == current_origin {
                text
            } else {
                page_origin
            };
            if r.len() > 0 {
                Some(r)
            } else {
                None
            }
        },
        None => None,
    }
}

/// The request headers of one stealth-transport hop to a URL whose
/// origin is `current_origin`, in the order they are first set.
pub open spec fn stealth_header_list(
    page_origin: Seq<char>,
    current_origin: Seq<char>,
    mode: Seq<char>,
    method: Seq<char>,
    frame_navigation: bool,
    custom: Seq<(Seq<char>, Seq<char>)>,
    document_url: Seq<char>,
) -> Seq<(Seq<char>, Seq<char>)> {
    let cross = current_origin != page_origin;
    let fetch_mode = if mode.len() == 0 {
        "cors"@
    } else {
        mode
    };
    let accept = if frame_navigation {
        navigation_accept()
    } else {
        match header_value(custom, "accept"@) {
            Some(v) => v,
            None => "*/*"@,
        }
    };
    let dest = if frame_navigation {
        "iframe"@
    } else if fetch_mode == "no-cors"@ {
        "script"@
    } else {
        "empty"@
    };
    let base = seq![
        ("accept"@, accept),
        ("sec-fetch-dest"@, dest),
        ("sec-fetch-mode"@, if frame_navigation { "navigate"@ } else { fetch_mode }),
        ("sec-fetch-site"@, if cross { "cross-site"@ } else { "same-origin"@ }),
    ] + when(!frame_navigation, "sec-fetch-storage-access"@, "active"@) + when(
        !frame_navigation && ((!cross && method != "GET"@ && method != "HEAD"@) || cross),
        "origin"@,
        page_origin,
    ) + when(frame_navigation, "upgrade-insecure-requests"@, "1"@);
    let with_custom = set_all_lowercased(base, custom);
    match referer_for(document_url, current_origin, page_origin) {
        Some(r) => set_header(with_custom, "referer"@, r),
        None => with_custom,
    }
}

fn set_header_in(v: &mut Vec<(String, String)>, name: String, value: String)
    ensures
        pairs_view(final(v)@) == set_header(pairs_view(old(v)@), name@, value@),
{
    let ghost h = pairs_view(v@);
    let ghost nm = name@;
    let ghost vl = value@;
    let mut i: usize = 0;
    while i < v.len()
        invariant
            i <= v@.len(),
            h == pairs_view(v@),
            v@ == old(v)@,
            nm == name@,
            vl == value@,
            forall|k: int| 0 <= k < i ==> (#[trigger] h[k]).0 != nm,
        decreases v@.len() - i,
    {
        if str_eq(v[i].0.as_str(), name.as_str()) {
            proof {
                assert(h[i as int].0 == nm);
                lemma_first_named(h, nm, i as int);
            }
            let ghost pr = (name, value);
            let ghost w0 = v@;
            v.set(i, (name, value));
            proof {
                assert(v@ == w0.update(i as int, pr));
                assert(pair_view(pr) == (nm, vl));
                assert forall|k: int| 0 <= k < h.len() implies #[trigger] pairs_view(v@)[k] == h.update(
                    i as int,
                    (nm, vl),
                )[k] by {
                    if k != i {
                        assert(v@[k] == w0[k]);
                    }
                }
                assert(pairs_view(v@) =~= h.update(i as int, (nm, vl)));
            }
            return;
        }
        proof {
            assert(h[i as int].0 != nm);
        }
        i = i + 1;
    }
    proof {
        lemma_first_named(h, nm, i as int);
    }
    v.push((name, value));
    proof {
        assert(pairs_view(v@) =~= h.push((nm, vl)));
    }
}

fn header_lookup(custom: &Vec<(String, String)>, name: &str) -> (r: Option<String>)
    ensures
        match r {
            Some(v) => header_value(pairs_view(custom@), name@) == Some(v@),
            None => header_value(pairs_view(custom@), name@) is None,
        },
{
    let ghost h = pairs_view(custom@);
    let mut i: usize = 0;
    proof {
        assert(h.skip(0) =~= h);
    }
    while i < custom.len()
        invariant
            i <= custom@.len(),
            h == pairs_view(custom@),
            header_value(h, name@) == header_value(h.skip(i as int), name@),
        decreases custom@.len() - i,
    {
        proof {
            assert(h[i as int] == pair_view(custom@[i as int]));
            assert(h.skip(i as int)[0] == h[i as int]);
            assert(h.skip(i as int).drop_first() =~= h.skip(i + 1));
        }
        if str_eq(custom[i].0.as_str(), name) {
            return Some(owned(custom[i].1.as_str()));
        }
        i = i + 1;
    }
    None
}

/// The headers of one request hop over the stealth transport to
/// `current_url`: the fetch metadata headers, `Origin` on a cross-origin
/// or state-changing hop, the page's own headers under lower-cased names
/// (overriding), and the `Referer`. `None` when `current_url` does not
/// parse.
pub fn stealth_hop_headers(
    page_origin: &str,
    current_url: &str,
    mode: &str,
    method: &str,
    frame_navigation: bool,
    custom: &Vec<(String, String)>,
    document_url: &str,
) -> (r: Option<Vec<(String, String)>>)
    ensures
        match url_origin(current_url@) {
            None => r is None,
            Some(o) => r matches Some(v) && pairs_view(v@) == stealth_header_list(
                page_origin@,
                o,
                mode@,
                method@,
                frame_navigation,
                pairs_view(custom@),
                document_url@,
            ),
        },
{
    let current_origin = match request_origin(current_url) {
        Some(o) => o,
        None => {
            return None;
        },
    };
    proof {
        reveal_strlit("");
    }
    let cross = !str_eq(current_origin.as_str(), page_origin);
    let fetch_mode = if str_eq(mode, "") {
        owned("cors")
    } else {
        proof {
            assert(mode@.len() == 0 ==> mode@ =~= ""@);
        }
        owned(mode)
    };
    let accept = if frame_navigation {
        owned(
            "text/html,application/xhtml+xml,application/xml;q=0.9,image/avif,image/webp,image/apng,*/*;q=0.8,application/signed-exchange;v=b3;q=0.7",
        )
    } else {
        match header_lookup(custom, "accept") {
            Some(v) => v,
            None => owned("*/*"),
        }
    };
    let dest = if frame_navigation {
        "iframe"
    } else if str_eq(fetch_mode.as_str(), "no-cors") {
        "script"
    } else {
        "empty"
    };
    let mut r: Vec<(String, String)> = Vec::new();
    proof {
        assert(pairs_view(r@) =~= Seq::<(Seq<char>, Seq<char>)>::empty());
    }
    push_header(&mut r, "accept", accept.as_str());
    push_header(&mut r, "sec-fetch-dest", dest);
    push_header(&mut r, "sec-fetch-mode", if frame_navigation { "navigate" } else { fetch_mode.as_str() });
    push_header(&mut r, "sec-fetch-site", if cross { "cross-site" } else { "same-origin" });
    let ghost four = pairs_view(r@);
    push_when(&mut r, !frame_navigation, "sec-fetch-storage-access", "active");
    let unsafe_method = !str_eq(method, "GET") && !str_eq(method, "HEAD");
    push_when(&mut r, !frame_navigation && ((!cross && unsafe_method) || cross), "origin", page_origin);
    push_when(&mut r, frame_navigation, "upgrade-insecure-requests", "1");
    let ghost base = pairs_view(r@);
    let ghost c = pairs_view(custom@);
    proof {
        assert(four =~= seq![
            ("accept"@, accept@),
            ("sec-fetch-dest"@, dest@),
            ("sec-fetch-mode"@, if frame_navigation { "navigate"@ } else { fetch_mode@ }),
            ("sec-fetch-site"@, if cross { "cross-site"@ } else { "same-origin"@ }),
        ]);
        assert(c.take(0) =~= Seq::<(Seq<char>, Seq<char>)>::empty());
    }
    let mut i: usize = 0;
    while i < custom.len()
        invariant
            i <= custom@.len(),
            c == pairs_view(custom@),
            pairs_view(r@) == set_all_lowercased(base, c.take(i as int)),
        decreases custom@.len() - i,
    {
        let k = to_lowercase(custom[i].0.as_str());
        let v = owned(custom[i].1.as_str());
        set_header_in(&mut r, k, v);
        proof {
            assert(c[i as int] == pair_view(custom@[i as int]));
            assert(c.take(i + 1).drop_last() =~= c.take(i as int));
            assert(c.take(i + 1).last() == c[i as int]);
        }
        i = i + 1;
    }
    proof {
        assert(c.take(i as int) =~= c);
        let o = current_origin@;
        let spec_mode = if mode@.len() == 0 { "cors"@ } else { mode@ };
        assert(fetch_mode@ == spec_mode);
        assert(cross == (o != page_origin@));
        assert(base == seq![
            ("accept"@, accept@),
            ("sec-fetch-dest"@, dest@),
            ("sec-fetch-mode"@, if frame_navigation { "navigate"@ } else { fetch_mode@ }),
            ("sec-fetch-site"@, if cross { "cross-site"@ } else { "same-origin"@ }),
        ] + when(!frame_navigation, "sec-fetch-storage-access"@, "active"@) + when(
            !frame_navigation && ((!cross && method@ != "GET"@ && method@ != "HEAD"@) || cross),
            "origin"@,
            page_origin@,
        ) + when(frame_navigation, "upgrade-insecure-requests"@, "1"@));
        let spec_accept = if frame_navigation {
            navigation_accept()
        } else {
            match header_value(c, "accept"@) {
                Some(v) => v,
                None => "*/*"@,
            }
        };
        assert(accept@ == spec_accept);
        let spec_dest = if frame_navigation {
            "iframe"@
        } else if spec_mode == "no-cors"@ {
            "script"@
        } else {
            "empty"@
        };
        assert(dest@ == spec_dest);
    }
    let ghost wc = pairs_view(r@);
    match defragment(document_url) {
        Some((text, origin)) => {
            let chosen = if str_eq(origin.as_str(), current_origin.as_str()) {
                text
            } else {
                owned(page_origin)
            };
            proof {
                assert(chosen@.len() == 0 ==> chosen@ =~= ""@);
            }
            if !str_eq(chosen.as_str(), "") {
                let ghost ch = chosen@;
                set_header_in(&mut r, owned("referer"), chosen);
                proof {
                    assert(referer_for(document_url@, current_origin@, page_origin@) == Some(ch));
                }
            } else {
                proof {
                    assert(referer_for(document_url@, current_origin@, page_origin@) is None);
                }
            }
        },
        None => {},
    }
    proof {
        assert(pairs_view(r@) == match referer_for(document_url@, current_origin@, page_origin@) {
            Some(x) => set_header(wc, "referer"@, x),
            None => wc,
        });
    }
    Some(r)
}

} // verus!
