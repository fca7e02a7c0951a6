//! Same-origin and CORS decisions for script-initiated fetches, and the
//! small classifications the JS host makes from command names and script
//! types.
use vstd::prelude::*;

use crate::cli::{ascii_lower, lower_char};
use crate::origin_storage::utf8_len;
use crate::strutil::{chars_of, concat_str, owned, push_char, str_eq};

verus! {

/// The ASCII serialization of the origin of `raw` as `url` parses it, or
/// `None` when `url` refuses `raw`.
pub uninterp spec fn url_origin(raw: Seq<char>) -> Option<Seq<char>>;

/// The origin of a request URL.
///
/// Calls `url::Url::parse`, then `Url::origin` and
/// `Origin::ascii_serialization` on the parsed value. The contract claims
/// only that the result is `None` exactly when parsing fails, and that it is
/// a function of the URL text (`url_origin`); what the serialization is
/// (scheme, host, non-default port, or `null` for opaque origins) is left to
/// the `url` crate.
#[verifier::external_body]
pub fn request_origin(request_url: &str) -> (r: Option<String>)
    ensures
        match r {
            Some(s) => url_origin(request_url@) == Some(s@),
            None => url_origin(request_url@) is None,
        },
{
    match url::Url::parse(request_url) {
        Ok(url) => Some(url.origin().ascii_serialization()),
        Err(_) => None,
    }
}

/// The origin text of `raw`, with `null` for a URL that does not parse.
pub open spec fn origin_or_null(raw: Seq<char>) -> Seq<char> {
    match url_origin(raw) {
        Some(o) => o,
        None => "null"@,
    }
}

/// The origin under which localStorage keeps a document's data.
pub fn local_storage_origin(raw_url: &str) -> (r: String)
    ensures
        r@ == origin_or_null(raw_url@),
{
    match request_origin(raw_url) {
        Some(o) => o,
        None => owned("null"),
    }
}

/// Serializes an origin the way `location.origin` does: `null` for a URL
/// that does not parse or whose origin is opaque.
pub fn origin_of(url: &str) -> (r: String)
    ensures
        r@ == origin_or_null(url@),
{
    match request_origin(url) {
        Some(o) => o,
        None => owned("null"),
    }
}

/// The `credentials` mode of a fetch request.
#[derive(Clone, Copy, Debug, PartialEq, Eq, Structural)]
pub enum FetchCredentials {
    Omit,
    SameOrigin,
    Include,
}

impl FetchCredentials {
    pub open spec fn parsed(value: Seq<char>) -> FetchCredentials {
        if value == "omit"@ {
            FetchCredentials::Omit
        } else if value == "include"@ {
            FetchCredentials::Include
        } else {
            FetchCredentials::SameOrigin
        }
    }

    /// `omit` and `include` are recognised; anything else is `same-origin`.
    pub fn parse(value: &str) -> (r: FetchCredentials)
        ensures
            r == FetchCredentials::parsed(value@),
    {
        if str_eq(value, "omit") {
            FetchCredentials::Omit
        } else if str_eq(value, "include") {
            FetchCredentials::Include
        } else {
            FetchCredentials::SameOrigin
        }
    }

    /// Whether cookies go with a request to `request_url` from a page whose
    /// origin is `page_origin`.
    pub open spec fn permits(self, page_origin: Seq<char>, request_url: Seq<char>) -> bool {
        match self {
            FetchCredentials::Omit => false,
            FetchCredentials::Include => true,
            FetchCredentials::SameOrigin => url_origin(request_url) == Some(page_origin),
        }
    }

    pub fn allows(self, page_origin: &str, request_url: &str) -> (r: bool)
        ensures
            r == self.permits(page_origin@, request_url@),
    {
        match self {
            FetchCredentials::Omit => false,
            FetchCredentials::Include => true,
            FetchCredentials::SameOrigin => match request_origin(request_url) {
                Some(origin) => str_eq(origin.as_str(), page_origin),
                None => false,
            },
        }
    }
}

/// What the credentials modes do: `omit` never sends cookies, `include`
/// always does, `same-origin` only to the page's own origin; any value but
/// `omit` and `include` reads as `same-origin`.
pub proof fn lemma_credentials_modes(value: Seq<char>, page_origin: Seq<char>, request_url: Seq<char>)
    ensures
        value == "omit"@ ==> !FetchCredentials::parsed(value).permits(page_origin, request_url),
        value == "include"@ ==> FetchCredentials::parsed(value).permits(page_origin, request_url),
        value != "omit"@ && value != "include"@ ==> (FetchCredentials::parsed(value).permits(
            page_origin,
            request_url,
        ) <==> url_origin(request_url) == Some(page_origin)),
{
    reveal_strlit("omit");
    reveal_strlit("include");
    assert("omit"@ =~= seq!['o', 'm', 'i', 't']);
    assert("include"@ =~= seq!['i', 'n', 'c', 'l', 'u', 'd', 'e']);
}

/// A cross-origin response may be read when the server names the page's
/// origin, or for a request without credentials when it answers `*`; with
/// credentials, a wildcard never suffices and the server must also answer
/// `Access-Control-Allow-Credentials: true`. Any other allowed origin
/// refuses the read.
pub proof fn lemma_cors_read_rules(
    credentials: FetchCredentials,
    page_origin: Seq<char>,
    allowed_origin: Seq<char>,
    allow_credentials: Seq<char>,
)
    ensures
        credentials != FetchCredentials::Include && (allowed_origin == "*"@ || allowed_origin
            == page_origin) ==> cors_allows(credentials, page_origin, allowed_origin, allow_credentials),
        credentials == FetchCredentials::Include && allowed_origin == "*"@ && page_origin != "*"@
            ==> !cors_allows(credentials, page_origin, allowed_origin, allow_credentials),
        credentials == FetchCredentials::Include && allow_credentials != "true"@ ==> !cors_allows(
            credentials,
            page_origin,
            allowed_origin,
            allow_credentials,
        ),
        credentials == FetchCredentials::Include && allowed_origin == page_origin
            && allow_credentials == "true"@ ==> cors_allows(
            credentials,
            page_origin,
            allowed_origin,
            allow_credentials,
        ),
        allowed_origin != page_origin && allowed_origin != "*"@ ==> !cors_allows(
            credentials,
            page_origin,
            allowed_origin,
            allow_credentials,
        ),
{
}

/// Whether a cross-origin response may be read: a credentialed request needs
/// the exact page origin and `Access-Control-Allow-Credentials: true`; any
/// other request accepts `*` or the exact origin.
pub open spec fn cors_allows(
    credentials: FetchCredentials,
    page_origin: Seq<char>,
    allowed_origin: Seq<char>,
    allow_credentials: Seq<char>,
) -> bool {
    if credentials == FetchCredentials::Include {
        allowed_origin == page_origin && allow_credentials == "true"@
    } else {
        allowed_origin == "*"@ || allowed_origin == page_origin
    }
}

pub fn cors_response_allows(
    credentials: FetchCredentials,
    page_origin: &str,
    allowed_origin: &str,
    allow_credentials: &str,
) -> (r: bool)
    ensures
        r == cors_allows(credentials, page_origin@, allowed_origin@, allow_credentials@),
{
    if credentials == FetchCredentials::Include {
        str_eq(allowed_origin, page_origin) && str_eq(allow_credentials, "true")
    } else {
        str_eq(allowed_origin, "*") || str_eq(allowed_origin, page_origin)
    }
}

/// DOM commands that change what a rendered page looks like.
pub open spec fn render_mutation(cmd: Seq<char>) -> bool {
    cmd == "set_attribute"@ || cmd == "remove_attribute"@ || cmd == "set_attribute_ns"@ || cmd
        == "remove_attribute_ns"@ || cmd == "append_child"@ || cmd == "remove_child"@ || cmd
        == "insert_before"@ || cmd == "set_inner_html"@ || cmd == "set_inner_html_context"@ || cmd
        == "set_text_content"@
}

pub fn is_render_mutation_command(cmd: &str) -> (r: bool)
    ensures
        r == render_mutation(cmd@),
{
    str_eq(cmd, "set_attribute") || str_eq(cmd, "remove_attribute") || str_eq(
        cmd,
        "set_attribute_ns",
    ) || str_eq(cmd, "remove_attribute_ns") || str_eq(cmd, "append_child") || str_eq(
        cmd,
        "remove_child",
    ) || str_eq(cmd, "insert_before") || str_eq(cmd, "set_inner_html") || str_eq(
        cmd,
        "set_inner_html_context",
    ) || str_eq(cmd, "set_text_content")
}

/// A `<script>` element as listed from a frame document.
pub struct DocumentScript {
    pub src: String,
    pub type_attribute: String,
    pub text: String,
}

/// The JavaScript MIME type essences that the HTML standard lists.
pub open spec fn javascript_mime_type(t: Seq<char>) -> bool {
    t == "application/ecmascript"@
        || t == "application/javascript"@
        || t == "application/x-ecmascript"@
        || t == "application/x-javascript"@
        || t == "text/ecmascript"@
        || t == "text/javascript"@
        || t == "text/javascript1.0"@
        || t == "text/javascript1.1"@
        || t == "text/javascript1.2"@
        || t == "text/javascript1.3"@
        || t == "text/javascript1.4"@
        || t == "text/javascript1.5"@
        || t == "text/jscript"@
        || t == "text/livescript"@
        || t == "text/x-ecmascript"@
        || t == "text/x-javascript"@
}

/// Whether `t` is one of the JavaScript MIME types.
pub fn is_javascript_mime_type(t: &str) -> (r: bool)
    ensures
        r == javascript_mime_type(t@),
{
    str_eq(t, "application/ecmascript")
        || str_eq(t, "application/javascript")
        || str_eq(t, "application/x-ecmascript")
        || str_eq(t, "application/x-javascript")
        || str_eq(t, "text/ecmascript")
        || str_eq(t, "text/javascript")
        || str_eq(t, "text/javascript1.0")
        || str_eq(t, "text/javascript1.1")
        || str_eq(t, "text/javascript1.2")
        || str_eq(t, "text/javascript1.3")
        || str_eq(t, "text/javascript1.4")
        || str_eq(t, "text/javascript1.5")
        || str_eq(t, "text/jscript")
        || str_eq(t, "text/livescript")
        || str_eq(t, "text/x-ecmascript")
        || str_eq(t, "text/x-javascript")
}

impl DocumentScript {
    /// An empty type, or a JavaScript MIME type, marks a classic script.
    pub open spec fn classic(type_attribute: Seq<char>) -> bool {
        type_attribute.len() == 0 || javascript_mime_type(type_attribute)
    }

    pub fn is_classic(&self) -> (r: bool)
        ensures
            r == DocumentScript::classic(self.type_attribute@),
    {
        let t = self.type_attribute.as_str();
        t.is_empty() || is_javascript_mime_type(t)
    }
}

/// The lower-case form that `str::to_lowercase` gives of `s`.
pub uninterp spec fn lowercased(s: Seq<char>) -> Seq<char>;

/// Lower-cases `s` by calling `str::to_lowercase`. The contract claims only
/// that the result is a function of `s` (`lowercased`); the Unicode case
/// mapping itself is left to the standard library.
#[verifier::external_body]
pub(crate) fn to_lowercase(s: &str) -> (r: String)
    ensures
        r@ == lowercased(s@),
{
    s.to_lowercase()
}

/// The host of a request URL, as the `url` crate parses it, with the
/// verdict of the private-address check on an IP host.
pub enum FetchHost {
    Ipv4 { address: String, forbidden: bool },
    Ipv6 { address: String, forbidden: bool },
    Domain(String),
}

/// Why a scripted fetch target was refused.
#[derive(Debug)]
pub enum FetchUrlError {
    ForbiddenScheme(String),
    PrivateIpv4(String),
    PrivateIpv6(String),
    LocalhostDomain(String),
}

/// The message the JavaScript side reports for a refused fetch target.
pub open spec fn url_error_text(e: FetchUrlError) -> Seq<char> {
    match e {
        FetchUrlError::ForbiddenScheme(s) => "Forbidden URL scheme '"@ + s@
            + "' - only http, https, and file are allowed"@,
        FetchUrlError::PrivateIpv4(a) => "Access to private/internal IP address "@ + a@
            + " is not allowed"@,
        FetchUrlError::PrivateIpv6(a) => "Access to private/internal IPv6 address "@ + a@
            + " is not allowed"@,
        FetchUrlError::LocalhostDomain(d) => "Access to localhost domain '"@ + d@
            + "' is not allowed"@,
    }
}

impl FetchUrlError {
    /// The message the JavaScript side reports.
    pub fn message(&self) -> (r: String)
        ensures
            r@ == url_error_text(*self),
    {
        match self {
            FetchUrlError::ForbiddenScheme(s) => {
                let a = concat_str("Forbidden URL scheme '", s.as_str());
                concat_str(a.as_str(), "' - only http, https, and file are allowed")
            },
            FetchUrlError::PrivateIpv4(ip) => {
                let a = concat_str("Access to private/internal IP address ", ip.as_str());
                concat_str(a.as_str(), " is not allowed")
            },
            FetchUrlError::PrivateIpv6(ip) => {
                let a = concat_str("Access to private/internal IPv6 address ", ip.as_str());
                concat_str(a.as_str(), " is not allowed")
            },
            FetchUrlError::LocalhostDomain(d) => {
                let a = concat_str("Access to localhost domain '", d.as_str());
                concat_str(a.as_str(), "' is not allowed")
            },
        }
    }
}

pub open spec fn ends_with(s: Seq<char>, suffix: Seq<char>) -> bool {
    suffix.len() <= s.len() && s.skip(s.len() - suffix.len()) == suffix
}

/// A (lower-cased) domain that names this machine.
pub open spec fn local_name(d: Seq<char>) -> bool {
    d == "localhost"@ || ends_with(d, ".localhost"@) || d == "127.0.0.1"@ || d == "::1"@
}

pub open spec fn fetchable_scheme(scheme: Seq<char>) -> bool {
    scheme == "http"@ || scheme == "https"@ || scheme == "file"@
}

fn ends_with_str(s: &str, suffix: &str) -> (r: bool)
    ensures
        r == ends_with(s@, suffix@),
{
    let a = chars_of(s);
    let b = chars_of(suffix);
    if b.len() > a.len() {
        return false;
    }
    let n = a.len();
    let off = n - b.len();
    let mut i: usize = 0;
    while i < b.len()
        invariant
            a@ == s@,
            b@ == suffix@,
            n == a@.len(),
            off + b@.len() == a@.len(),
            i <= b@.len(),
            forall|k: int| 0 <= k < i ==> a@[off + k] == b@[k],
        decreases b@.len() - i,
    {
        if a[off + i] != b[i] {
            proof {
                assert(a@.skip(off as int)[i as int] != b@[i as int]);
            }
            return false;
        }
        i = i + 1;
    }
    proof {
        assert(a@.skip(off as int) =~= b@);
    }
    true
}

/// The scheme of `raw` as `url` parses it, with its host: a kind tag (`4`
/// for an IPv4 address, `6` for an IPv6 address, `0` for a domain) and the
/// host's text; `None` when `url` refuses `raw`.
pub uninterp spec fn url_scheme_and_host(raw: Seq<char>) -> Option<(Seq<char>, Option<(u8, Seq<char>)>)>;

/// Calls `url::Url::parse`, then `Url::scheme` and `Url::host`, telling the
/// host's variants apart and writing IP addresses with their `Display`
/// (IPv6 without brackets). The contract claims only that the result is
/// `None` exactly when parsing fails and is a function of the URL text
/// (`url_scheme_and_host`); the URL grammar is the `url` crate's.
#[verifier::external_body]
fn parse_scheme_and_host(raw: &str) -> (r: Option<(String, Option<(u8, String)>)>)
    ensures
        match r {
            Some((s, h)) => url_scheme_and_host(raw@) == Some(
                (
                    s@,
                    match h {
                        Some((k, x)) => Some((k, x@)),
                        None => None,
                    },
                ),
            ),
            None => url_scheme_and_host(raw@) is None,
        },
        r matches Some((_, Some((k, _)))) ==> k == 0 || k == 4 || k == 6,
{
    match url::Url::parse(raw) {
        Ok(u) => Some((u.scheme().to_string(), match u.host() {
            Some(url::Host::Ipv4(a)) => Some((4u8, a.to_string())),
            Some(url::Host::Ipv6(a)) => Some((6u8, a.to_string())),
            Some(url::Host::Domain(d)) => Some((0u8, d.to_string())),
            None => None,
        })),
        Err(_) => None,
    }
}

/// The host of a parsed request URL.
pub enum UrlHost {
    Ipv4(String),
    Ipv6(String),
    Domain(String),
}

/// The parts of a request URL that `validate_fetch_url` judges.
pub struct FetchTarget {
    pub scheme: String,
    pub host: Option<UrlHost>,
}

/// The view of a `UrlHost` as the kind tag and text of `url_scheme_and_host`.
pub open spec fn url_host_view(h: UrlHost) -> (u8, Seq<char>) {
    match h {
        UrlHost::Ipv4(a) => (4u8, a@),
        UrlHost::Ipv6(a) => (6u8, a@),
        UrlHost::Domain(d) => (0u8, d@),
    }
}

/// Parses a request URL into the scheme and host that `validate_fetch_url`
/// judges; `None` when the URL does not parse. The caller asks the network
/// policy whether an IP host is private before building the `FetchHost`.
pub fn fetch_target(raw: &str) -> (r: Option<FetchTarget>)
    ensures
        match r {
            None => url_scheme_and_host(raw@) is None,
            Some(t) => url_scheme_and_host(raw@) == Some(
                (
                    t.scheme@,
                    match t.host {
                        Some(h) => Some(url_host_view(h)),
                        None => None,
                    },
                ),
            ),
        },
{
    match parse_scheme_and_host(raw) {
        None => None,
        Some((scheme, host)) => {
            let h = match host {
                None => None,
                Some((k, text)) => {
                    if k == 4 {
                        Some(UrlHost::Ipv4(text))
                    } else if k == 6 {
                        Some(UrlHost::Ipv6(text))
                    } else {
                        Some(UrlHost::Domain(text))
                    }
                },
            };
            Some(FetchTarget { scheme, host: h })
        },
    }
}

/// Checks the target of a scripted fetch: only `http`, `https` and `file`
/// URLs are fetched, and unless the target is a file, the context opted in
/// to private networks, or the environment did, a private IP address or a
/// localhost name is refused.
pub fn validate_fetch_url(
    scheme: &str,
    host: Option<&FetchHost>,
    allow_private_network: bool,
    env_allows_private_network: bool,
) -> (r: Result<(), FetchUrlError>)
    ensures
        !fetchable_scheme(scheme@) ==> (r matches Err(FetchUrlError::ForbiddenScheme(s)) && s@
            == scheme@),
        fetchable_scheme(scheme@) && (scheme@ == "file"@ || allow_private_network
            || env_allows_private_network) ==> r is Ok,
        fetchable_scheme(scheme@) && !(scheme@ == "file"@ || allow_private_network
            || env_allows_private_network) ==> match host {
            None => r is Ok,
            Some(FetchHost::Ipv4 { address, forbidden }) => if *forbidden {
                r matches Err(FetchUrlError::PrivateIpv4(a)) && a@ == address@
            } else {
                r is Ok
            },
            Some(FetchHost::Ipv6 { address, forbidden }) => if *forbidden {
                r matches Err(FetchUrlError::PrivateIpv6(a)) && a@ == address@
            } else {
                r is Ok
            },
            Some(FetchHost::Domain(d)) => if local_name(lowercased(d@)) {
                r matches Err(FetchUrlError::LocalhostDomain(x)) && x@ == d@
            } else {
                r is Ok
            },
        },
{
    if !str_eq(scheme, "http") && !str_eq(scheme, "https") && !str_eq(scheme, "file") {
        return Err(FetchUrlError::ForbiddenScheme(owned(scheme)));
    }
    if str_eq(scheme, "file") || allow_private_network || env_allows_private_network {
        return Ok(());
    }
    match host {
        None => Ok(()),
        Some(FetchHost::Ipv4 { address, forbidden }) => {
            if *forbidden {
                Err(FetchUrlError::PrivateIpv4(owned(address.as_str())))
            } else {
                Ok(())
            }
        },
        Some(FetchHost::Ipv6 { address, forbidden }) => {
            if *forbidden {
                Err(FetchUrlError::PrivateIpv6(owned(address.as_str())))
            } else {
                Ok(())
            }
        },
        Some(FetchHost::Domain(domain)) => {
            let lower = to_lowercase(domain.as_str());
            let l = lower.as_str();
            if str_eq(l, "localhost") || ends_with_str(l, ".localhost") || str_eq(l, "127.0.0.1")
                || str_eq(l, "::1") {
                Err(FetchUrlError::LocalhostDomain(owned(domain.as_str())))
            } else {
                Ok(())
            }
        },
    }
}

/// The serialization of the host that `url::Host::parse` makes of `input`,
/// and whether it is an IPv4 address; `None` when the parse fails.
pub uninterp spec fn parsed_host(input: Seq<char>) -> Option<(Seq<char>, bool)>;

/// Parses a host by calling `url::Host::parse` and serializes the result
/// with its `Display`, telling the IPv4 variant apart. The contract claims
/// only that the result is `None` exactly when parsing fails and is a
/// function of the input (`parsed_host`); IDNA processing and IP address
/// forms are the `url` crate's.
#[verifier::external_body]
fn parse_host(input: &str) -> (r: Option<(String, bool)>)
    ensures
        match r {
            Some(p) => parsed_host(input@) == Some((p.0@, p.1)),
            None => parsed_host(input@) is None,
        },
{
    match url::Host::parse(input) {
        Ok(url::Host::Ipv4(a)) => Some((url::Host::<String>::Ipv4(a).to_string(), true)),
        Ok(h) => Some((h.to_string(), false)),
        Err(_) => None,
    }
}

/// The registrable domain (public suffix plus one label) of `name`, as the
/// public suffix list compiled into `psl` gives it.
pub uninterp spec fn registrable_domain(name: Seq<char>) -> Option<Seq<char>>;

/// Calls `psl::domain_str`. The contract claims only that the result is a
/// function of `name` (`registrable_domain`); the suffix list is the `psl`
/// crate's.
#[verifier::external_body]
fn registrable(name: &str) -> (r: Option<String>)
    ensures
        match r {
            Some(d) => registrable_domain(name@) == Some(d@),
            None => registrable_domain(name@) is None,
        },
{
    match psl::domain_str(name) {
        Some(d) => Some(d.to_string()),
        None => None,
    }
}

/// `str::to_ascii_lowercase`.
fn ascii_lowercase(s: &str) -> (r: String)
    ensures
        r@ == ascii_lower(s@),
{
    let v = chars_of(s);
    let mut out = String::new();
    let mut i: usize = 0;
    while i < v.len()
        invariant
            i <= v@.len(),
            v@ == s@,
            out@ == ascii_lower(v@.take(i as int)),
        decreases v@.len() - i,
    {
        let c = lower_char(v[i]);
        push_char(&mut out, c);
        proof {
            assert(v@.take(i + 1) =~= v@.take(i as int).push(v@[i as int]));
            assert(ascii_lower(v@.take(i + 1)) =~= ascii_lower(v@.take(i as int)).push(c));
        }
        i = i + 1;
    }
    proof {
        assert(v@.take(i as int) =~= v@);
    }
    out
}

/// What `document.domain = input` may set the effective domain to, from a
/// document whose current host is `current`: the canonical host itself
/// when it is the current one; otherwise, for hosts that are not IP
/// addresses, a parent domain of the current host that is not shorter
/// than its registrable domain; otherwise nothing (the empty string).
pub open spec fn domain_candidate(current: Seq<char>, current_is_ip: bool, input: Seq<char>) -> Seq<char> {
    match parsed_host(input) {
        None => Seq::empty(),
        Some((host, is_ipv4)) => {
            let canonical = ascii_lower(host);
            let cur = ascii_lower(current);
            if canonical == cur {
                canonical
            } else if current_is_ip || is_ipv4 || !ends_with(cur, seq!['.'] + canonical) {
                Seq::empty()
            } else {
                match registrable_domain(cur) {
                    Some(r) => if utf8_len(canonical) >= utf8_len(r) {
                        canonical
                    } else {
                        Seq::empty()
                    },
                    None => Seq::empty(),
                }
            }
        },
    }
}

/// The effective domain `document.domain = input` may set, or the empty
/// string when the assignment is refused. `current_is_ip_address` says
/// whether the current host parses as an IP address.
pub fn op_document_domain_candidate(current: &str, current_is_ip_address: bool, input: &str) -> (r: String)
    ensures
        r@ == domain_candidate(current@, current_is_ip_address, input@),
{
    proof {
        reveal_strlit("");
        reveal_strlit(".");
    }
    let (host, is_ipv4) = match parse_host(input) {
        Some(p) => p,
        None => {
            return owned("");
        },
    };
    let canonical = ascii_lowercase(host.as_str());
    let cur = ascii_lowercase(current);
    if str_eq(canonical.as_str(), cur.as_str()) {
        return canonical;
    }
    let dotted = concat_str(".", canonical.as_str());
    proof {
        assert("."@ + canonical@ =~= seq!['.'] + canonical@);
    }
    if current_is_ip_address || is_ipv4 || !ends_with_str(cur.as_str(), dotted.as_str()) {
        return owned("");
    }
    match registrable(cur.as_str()) {
        Some(reg) => {
            if canonical.as_str().as_bytes().len() >= reg.as_str().as_bytes().len() {
                canonical
            } else {
                owned("")
            }
        },
        None => owned(""),
    }
}

} // verus!
