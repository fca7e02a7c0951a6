//! Decisions the command-line front end makes from its parsed arguments:
//! log filtering, proxy precedence, worker validation, V8 flag handling and
//! the classification of `<link rel>` values.
use vstd::prelude::*;

use crate::origin_storage::utf8_len;
use crate::strutil::{
    chars_of, concat_str, is_whitespace, owned, push_char, str_eq, trim_owned, trimmed,
};

verus! {

/// `std::path::PathBuf`, carried through as an opaque value.
#[verifier::external_type_specification]
#[verifier::external_body]
pub struct ExPathBuf(std::path::PathBuf);

/// Log filter directive: `--verbose` wins over `--quiet`, default is `warn`.
pub open spec fn log_filter(verbose: bool, quiet: bool) -> Seq<char> {
    if verbose {
        "debug"@
    } else if quiet {
        "off"@
    } else {
        "warn"@
    }
}

pub fn select_log_filter(verbose: bool, quiet: bool) -> (r: &'static str)
    ensures
        r@ == log_filter(verbose, quiet),
{
    if verbose {
        "debug"
    } else if quiet {
        "off"
    } else {
        "warn"
    }
}

/// The subcommand, with the one flag that log selection reads from it.
#[derive(Clone, Copy, Debug, PartialEq, Eq, Structural)]
pub enum Command {
    Profiles,
    Serve { quiet: bool },
    Fetch { quiet: bool },
    Scrape { quiet: bool },
    Mcp,
}

/// A subcommand that was given `--quiet`.
pub open spec fn quiet_command(cmd: Option<Command>) -> bool {
    match cmd {
        Some(Command::Fetch { quiet }) => quiet,
        Some(Command::Scrape { quiet }) => quiet,
        Some(Command::Serve { quiet }) => quiet,
        _ => false,
    }
}

pub fn is_quiet_command(cmd: &Option<Command>) -> (r: bool)
    ensures
        r == quiet_command(*cmd),
{
    match cmd {
        Some(Command::Fetch { quiet }) => *quiet,
        Some(Command::Scrape { quiet }) => *quiet,
        Some(Command::Serve { quiet }) => *quiet,
        _ => false,
    }
}

/// A subcommand's own `--proxy` takes precedence over the global one.
pub fn merge_proxy(global_proxy: Option<String>, command_proxy: Option<String>) -> (r: Option<
    String,
>)
    ensures
        r == if command_proxy is Some {
            command_proxy
        } else {
            global_proxy
        },
{
    match command_proxy {
        Some(p) => Some(p),
        None => global_proxy,
    }
}

/// Why `serve` options were refused.
#[derive(Clone, Copy, Debug, PartialEq, Eq, Structural)]
pub enum ServeWorkersError {
    /// A profile workbench directory is only supported with one worker.
    WorkbenchNeedsSingleWorker,
}

/// The description that `ServeWorkersError::message` gives for each error.
pub open spec fn serve_workers_error_text(e: ServeWorkersError) -> Seq<char> {
    match e {
        ServeWorkersError::WorkbenchNeedsSingleWorker => "--profile-workbench-dir needs --workers 1"@,
    }
}

impl ServeWorkersError {
    pub fn message(&self) -> (s: &'static str)
        ensures
            s@ == serve_workers_error_text(*self),
    {
        match self {
            ServeWorkersError::WorkbenchNeedsSingleWorker => "--profile-workbench-dir needs --workers 1",
        }
    }
}

pub fn validate_serve_workers(
    workers: u16,
    profile_workbench_dir: &Option<std::path::PathBuf>,
) -> (r: Result<(), ServeWorkersError>)
    ensures
        r is Err <==> (workers > 1 && profile_workbench_dir is Some),
        r is Err ==> r == Err::<(), ServeWorkersError>(
            ServeWorkersError::WorkbenchNeedsSingleWorker,
        ),
{
    if workers > 1 && profile_workbench_dir.is_some() {
        return Err(ServeWorkersError::WorkbenchNeedsSingleWorker);
    }
    Ok(())
}

/// Where the load balancer sends an accepted connection.
#[derive(Clone, Copy, Debug, PartialEq, Eq, Structural)]
pub enum ServeRoute {
    /// A `GET` of a `/json` endpoint: answered by the chosen worker directly,
    /// or with `502 Bad Gateway` when that worker cannot be reached.
    Json,
    /// Anything else: proxied to the chosen worker.
    Proxy,
}

/// `pat` occurs in `s` at index `i`.
pub open spec fn bytes_at(s: Seq<u8>, pat: Seq<u8>, i: int) -> bool {
    0 <= i && i + pat.len() <= s.len() && s.subrange(i, i + pat.len()) == pat
}

/// `pat` occurs somewhere in `s`.
pub open spec fn bytes_contain(s: Seq<u8>, pat: Seq<u8>) -> bool {
    exists|i: int| bytes_at(s, pat, i)
}

fn bytes_at_exec(s: &[u8], pat: &[u8], i: usize) -> (r: bool)
    requires
        i + pat@.len() <= s@.len(),
    ensures
        r == bytes_at(s@, pat@, i as int),
{
    let n: usize = s.len();
    let mut k: usize = 0;
    while k < pat.len()
        invariant
            n == s@.len(),
            i + pat@.len() <= s@.len(),
            k <= pat@.len(),
            forall|m: int| 0 <= m < k ==> s@[i + m] == pat@[m],
        decreases pat@.len() - k,
    {
        assert(i + k < n);
        if s[i + k] != pat[k] {
            proof {
                assert(s@.subrange(i as int, i + pat@.len())[k as int] != pat@[k as int]);
            }
            return false;
        }
        k = k + 1;
    }
    proof {
        assert(s@.subrange(i as int, i + pat@.len()) =~= pat@);
    }
    true
}

/// Whether `pat` occurs in `s`.
pub fn contains_bytes(s: &[u8], pat: &[u8]) -> (r: bool)
    ensures
        r == bytes_contain(s@, pat@),
{
    if pat.len() > s.len() {
        proof {
            assert forall|i: int| !bytes_at(s@, pat@, i) by {}
        }
        return false;
    }
    let last = s.len() - pat.len();
    let mut i: usize = 0;
    loop
        invariant
            last + pat@.len() == s@.len(),
            i <= last,
            forall|j: int| 0 <= j < i ==> !bytes_at(s@, pat@, j),
        decreases last - i,
    {
        if bytes_at_exec(s, pat, i) {
            return true;
        }
        if i == last {
            proof {
                assert forall|j: int| !bytes_at(s@, pat@, j) by {
                    if 0 <= j < i {
                    }
                }
            }
            return false;
        }
        i = i + 1;
    }
}

/// The route of a connection whose first bytes are `peek`.
pub open spec fn route_of(peek: Seq<u8>) -> ServeRoute {
    if peek.len() >= 4 && peek.subrange(0, 4) == seq![71u8, 69u8, 84u8, 32u8] && bytes_contain(
        peek,
        seq![47u8, 106u8, 115u8, 111u8, 110u8],
    ) {
        ServeRoute::Json
    } else {
        ServeRoute::Proxy
    }
}

/// One step of the round-robin load balancer of `serve --workers N`:
/// workers listen on `port + 1 ..= port + workers`. Given the rotation
/// counter `next` and the first bytes the client sent, returns the worker
/// port, the next counter and the route.
pub fn route_connection(port: u16, workers: u16, next: u16, peek: &[u8]) -> (r: (
    u16,
    u16,
    ServeRoute,
))
    requires
        workers > 0,
        port + workers <= u16::MAX,
    ensures
        r.0 == port + 1 + next % workers,
        r.1 == (if next == u16::MAX {
            0
        } else {
            next + 1
        }),
        r.2 == route_of(peek@),
{
    let worker_port = port + 1 + next % workers;
    let following = next.wrapping_add(1);
    let get: [u8; 4] = [71u8, 69u8, 84u8, 32u8];
    let json: [u8; 5] = [47u8, 106u8, 115u8, 111u8, 110u8];
    let starts = peek.len() >= 4 && bytes_at_exec(peek, get.as_slice(), 0);
    proof {
        assert(get@ =~= seq![71u8, 69u8, 84u8, 32u8]);
        assert(json@ =~= seq![47u8, 106u8, 115u8, 111u8, 110u8]);
    }
    let route = if starts && contains_bytes(peek, json.as_slice()) {
        ServeRoute::Json
    } else {
        ServeRoute::Proxy
    };
    (worker_port, following, route)
}

/// Most bytes an exit-IP lookup may answer with.
pub const EXIT_IP_LIMIT: usize = 128;

/// The text of an exit-IP lookup's answer to parse as an IP address: the
/// body trimmed of whitespace, or `None` when the body is longer than
/// `EXIT_IP_LIMIT` bytes. Parsing the address is left to the caller.
pub fn exit_ip_text(body: &str) -> (r: Option<String>)
    ensures
        utf8_len(body@) > EXIT_IP_LIMIT ==> r is None,
        utf8_len(body@) <= EXIT_IP_LIMIT ==> (r matches Some(t) && t@ == trimmed(body@)),
{
    if body.as_bytes().len() > EXIT_IP_LIMIT {
        return None;
    }
    Some(trim_owned(body))
}

/// The flags handed to V8 for a raw `--v8-flags` value: `None` when the flag
/// is absent, empty or only whitespace, the trimmed text otherwise.
pub open spec fn normalized_v8_flags(raw: Option<Seq<char>>) -> Option<Seq<char>> {
    match raw {
        None => None,
        Some(s) => if trimmed(s).len() == 0 {
            None
        } else {
            Some(trimmed(s))
        },
    }
}

pub open spec fn opt_str_view(raw: Option<&str>) -> Option<Seq<char>> {
    match raw {
        Some(s) => Some(s@),
        None => None,
    }
}

pub open spec fn opt_string_view(o: Option<String>) -> Option<Seq<char>> {
    match o {
        Some(s) => Some(s@),
        None => None,
    }
}

pub fn normalize_v8_flags(raw: Option<&str>) -> (r: Option<String>)
    ensures
        opt_string_view(r) == normalized_v8_flags(opt_str_view(raw)),
{
    match raw {
        None => None,
        Some(s) => {
            let t = trim_owned(s);
            if t.as_str().is_empty() {
                None
            } else {
                Some(t)
            }
        },
    }
}

/// V8 flags applied at startup before any the user passes: a 4 GB old
/// space, a small young generation and size-oriented code generation.
pub const DEFAULT_V8_FLAGS: &'static str = "--max-old-space-size=4096 --max-semi-space-size=4 --optimize-for-size";

/// The defaults, followed by a space and the user's normalized flags when
/// there are any; V8 lets later flags win.
pub open spec fn effective_flags(user: Option<Seq<char>>) -> Seq<char> {
    match normalized_v8_flags(user) {
        Some(u) => DEFAULT_V8_FLAGS@ + seq![' '] + u,
        None => DEFAULT_V8_FLAGS@,
    }
}

pub fn effective_v8_flags(user: Option<&str>) -> (r: String)
    ensures
        r@ == effective_flags(opt_str_view(user)),
{
    match normalize_v8_flags(user) {
        Some(u) => {
            let mut r = owned(DEFAULT_V8_FLAGS);
            push_char(&mut r, ' ');
            let r2 = concat_str(r.as_str(), u.as_str());
            r2
        },
        None => owned(DEFAULT_V8_FLAGS),
    }
}

/// The whitespace `split_ascii_whitespace` splits on.
pub open spec fn is_ascii_ws(c: char) -> bool {
    c == ' ' || c == '\t' || c == '\n' || c == '\x0C' || c == '\r'
}

pub open spec fn skip_ascii_ws(s: Seq<char>) -> Seq<char>
    decreases s.len(),
{
    if s.len() > 0 && is_ascii_ws(s[0]) {
        skip_ascii_ws(s.drop_first())
    } else {
        s
    }
}

pub open spec fn take_token(s: Seq<char>) -> Seq<char>
    decreases s.len(),
{
    if s.len() == 0 || is_ascii_ws(s[0]) {
        Seq::empty()
    } else {
        seq![s[0]] + take_token(s.drop_first())
    }
}

/// The first ASCII-whitespace-separated token of `s`, or empty.
pub open spec fn first_token(s: Seq<char>) -> Seq<char> {
    take_token(skip_ascii_ws(s))
}

pub open spec fn ascii_lower_char(c: char) -> char {
    if 'A' <= c && c <= 'Z' {
        (((c as u8) + 32) as u8) as char
    } else {
        c
    }
}

pub open spec fn ascii_lower(s: Seq<char>) -> Seq<char> {
    s.map_values(|c: char| ascii_lower_char(c))
}

/// Asset kind for a lower-cased `rel` token.
pub open spec fn rel_kind(t: Seq<char>) -> Seq<char> {
    if t == "stylesheet"@ {
        "stylesheet"@
    } else if t == "icon"@ || t == "shortcut"@ {
        "icon"@
    } else if t == "manifest"@ {
        "manifest"@
    } else if t == "preload"@ {
        "preload"@
    } else if t == "prefetch"@ {
        "prefetch"@
    } else if t == "modulepreload"@ {
        "modulepreload"@
    } else if t == "dns-prefetch"@ {
        "dns-prefetch"@
    } else if t == "preconnect"@ {
        "preconnect"@
    } else if t == "alternate"@ {
        "alternate"@
    } else {
        "link"@
    }
}

fn is_ascii_space(c: char) -> (r: bool)
    ensures
        r == is_ascii_ws(c),
{
    c == ' ' || c == '\t' || c == '\n' || c == '\x0C' || c == '\r'
}

pub(crate) fn lower_char(c: char) -> (r: char)
    ensures
        r == ascii_lower_char(c),
{
    if 'A' <= c && c <= 'Z' {
        ((c as u8) + 32) as char
    } else {
        c
    }
}

/// The lower-cased first token of `rel`.
fn first_rel_token(rel: &str) -> (r: String)
    ensures
        r@ == ascii_lower(first_token(rel@)),
{
    let v = chars_of(rel);
    let n = v.len();
    let mut i: usize = 0;
    proof {
        assert(v@.subrange(0, n as int) =~= v@);
    }
    while i < n && is_ascii_space(v[i])
        invariant
            i <= n == v@.len(),
            skip_ascii_ws(v@) == skip_ascii_ws(v@.subrange(i as int, n as int)),
        decreases n - i,
    {
        proof {
            assert(v@.subrange(i as int, n as int).drop_first() =~= v@.subrange(i + 1, n as int));
        }
        i = i + 1;
    }
    let ghost rest = v@.subrange(i as int, n as int);
    proof {
        if i == n {
            assert(rest.len() == 0);
        }
        assert(skip_ascii_ws(v@) == rest);
    }
    let mut out = String::new();
    let mut j: usize = i;
    proof {
        assert(v@.subrange(i as int, i as int) =~= Seq::<char>::empty());
        assert(ascii_lower(Seq::<char>::empty()) =~= Seq::<char>::empty());
    }
    while j < n && !is_ascii_space(v[j])
        invariant
            i <= j <= n == v@.len(),
            rest == v@.subrange(i as int, n as int),
            forall|k: int| i <= k < j ==> !is_ascii_ws(#[trigger] v@[k]),
            take_token(rest) == v@.subrange(i as int, j as int) + take_token(
                v@.subrange(j as int, n as int),
            ),
            out@ == ascii_lower(v@.subrange(i as int, j as int)),
        decreases n - j,
    {
        let c = lower_char(v[j]);
        push_char(&mut out, c);
        proof {
            let tail = v@.subrange(j as int, n as int);
            assert(tail.drop_first() =~= v@.subrange(j + 1, n as int));
            assert(v@.subrange(i as int, j + 1) =~= v@.subrange(i as int, j as int).push(
                v@[j as int],
            ));
            assert(v@.subrange(i as int, j as int) + take_token(tail) =~= v@.subrange(
                i as int,
                j + 1,
            ) + take_token(v@.subrange(j + 1, n as int)));
            assert(ascii_lower(v@.subrange(i as int, j + 1)) =~= ascii_lower(
                v@.subrange(i as int, j as int),
            ).push(c));
        }
        j = j + 1;
    }
    proof {
        assert(take_token(v@.subrange(j as int, n as int)) =~= Seq::<char>::empty());
        assert(take_token(rest) =~= v@.subrange(i as int, j as int));
    }
    out
}

/// Map a `<link>` element's `rel` attribute to an asset kind; an unknown or
/// missing value gives the generic `link`.
pub fn link_kind_from_rel(rel: &str) -> (r: &'static str)
    ensures
        r@ == rel_kind(ascii_lower(first_token(rel@))),
{
    let tok = first_rel_token(rel);
    let t = tok.as_str();
    if str_eq(t, "stylesheet") {
        "stylesheet"
    } else if str_eq(t, "icon") || str_eq(t, "shortcut") {
        "icon"
    } else if str_eq(t, "manifest") {
        "manifest"
    } else if str_eq(t, "preload") {
        "preload"
    } else if str_eq(t, "prefetch") {
        "prefetch"
    } else if str_eq(t, "modulepreload") {
        "modulepreload"
    } else if str_eq(t, "dns-prefetch") {
        "dns-prefetch"
    } else if str_eq(t, "preconnect") {
        "preconnect"
    } else if str_eq(t, "alternate") {
        "alternate"
    } else {
        "link"
    }
}

/// How many times `fetch` lets the page settle after navigation: one
/// pass, plus one more when an evaluation runs before a capture, dump or
/// selector wait, or, for an evaluation at the capture boundary, plus one
/// for a controlled scroll.
pub open spec fn settle_pass_count(
    eval_at_capture_boundary: bool,
    controlled_scroll: bool,
    has_eval: bool,
    has_screenshot: bool,
    has_selector: bool,
    dump_specified: bool,
) -> u64 {
    if eval_at_capture_boundary {
        if controlled_scroll {
            2
        } else {
            1
        }
    } else if has_eval && (has_screenshot || has_selector || dump_specified) {
        2
    } else {
        1
    }
}

pub fn settle_passes(
    eval_at_capture_boundary: bool,
    controlled_scroll: bool,
    has_eval: bool,
    has_screenshot: bool,
    has_selector: bool,
    dump_specified: bool,
) -> (r: u64)
    ensures
        r == settle_pass_count(
            eval_at_capture_boundary,
            controlled_scroll,
            has_eval,
            has_screenshot,
            has_selector,
            dump_specified,
        ),
{
    if eval_at_capture_boundary {
        if controlled_scroll {
            2
        } else {
            1
        }
    } else if has_eval && (has_screenshot || has_selector || dump_specified) {
        2
    } else {
        1
    }
}

pub open spec fn sat(x: int) -> u64 {
    if x > u64::MAX {
        u64::MAX
    } else {
        x as u64
    }
}

/// The process-level deadline of one `fetch`, in seconds: the navigation
/// timeout, every settle pass and ten seconds of grace, each sum and
/// product saturating at `u64::MAX`.
pub fn hard_deadline_secs(timeout_secs: u64, wait_secs: u64, settle_passes: u64) -> (r: u64)
    ensures
        r == sat(sat(timeout_secs + sat(wait_secs * settle_passes)) + 10),
{
    let settle = match wait_secs.checked_mul(settle_passes) {
        Some(v) => v,
        None => u64::MAX,
    };
    let navigation = match timeout_secs.checked_add(settle) {
        Some(v) => v,
        None => u64::MAX,
    };
    match navigation.checked_add(10) {
        Some(v) => v,
        None => u64::MAX,
    }
}

/// A bare `--eval` (no `--dump`, `--selector` or `--screenshot`) prints
/// the expression's value instead of reading the page afterwards.
pub fn eval_answers_directly(dump_specified: bool, has_selector: bool, has_screenshot: bool) -> (r:
    bool)
    ensures
        r == (!dump_specified && !has_selector && !has_screenshot),
{
    !dump_specified && !has_selector && !has_screenshot
}

/// How long a scrape worker may take to answer one command: the
/// per-worker timeout, but never more than thirty seconds.
pub fn worker_read_timeout_secs(timeout_secs: u64) -> (r: u64)
    ensures
        r == if timeout_secs < 30 { timeout_secs } else { 30 },
{
    if timeout_secs < 30 {
        timeout_secs
    } else {
        30
    }
}

} // verus!
