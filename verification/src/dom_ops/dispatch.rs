//! The single entry point of the DOM command channel.
use vstd::prelude::*;

use super::{DocumentInfo, DomAnswer, DomReply};
use super::read::query_answer;
use super::write::{is_update_cmd, update_answer};
use crate::mutation_impact::{render_impact, RenderMutationImpact};
use crate::scripts::StartedScripts;
use crate::strutil::str_eq;
use crate::tree::DomTree;

verus! {

/// Commands that need the selector engine or the HTML parser or
/// serialiser.
pub open spec fn needs_html_engine(cmd: Seq<char>) -> bool {
    ||| cmd == "query_selector"@
    ||| cmd == "query_selector_all"@
    ||| cmd == "query_selector_scoped"@
    ||| cmd == "query_selector_all_scoped"@
    ||| cmd == "matches_selector"@
    ||| cmd == "inner_html"@
    ||| cmd == "outer_html"@
    ||| cmd == "set_inner_html"@
    ||| cmd == "set_inner_html_context"@
    ||| cmd == "set_fragment_html_executable"@
}

/// What a DOM command answers and does: a reading leaves everything as it
/// was, a command that changes the tree does what `update_answer` says,
/// and an unknown command answers `null`.
pub open spec fn dom_answer(
    t0: DomTree,
    t1: DomTree,
    s0: Set<nat>,
    s1: Set<nat>,
    page: DocumentInfo,
    cmd: Seq<char>,
    a1: Seq<char>,
    a2: Seq<char>,
    r: DomAnswer,
) -> bool {
    match query_answer(t0, page, cmd, a1, a2) {
        Some(x) => r == x && t1 == t0 && s1 == s0,
        None => if needs_html_engine(cmd) {
            r == DomAnswer::NotHandled && t1 == t0 && s1 == s0
        } else if is_update_cmd(cmd) {
            update_answer(t0, t1, s0, s1, cmd, a1, a2, Some(r))
        } else {
            r == DomAnswer::Null && t1 == t0 && s1 == s0
        },
    }
}

fn needs_engine(cmd: &str) -> (r: bool)
    ensures
        r == needs_html_engine(cmd@),
{
    str_eq(cmd, "query_selector") || str_eq(cmd, "query_selector_all")
        || str_eq(cmd, "query_selector_scoped") || str_eq(cmd, "query_selector_all_scoped") || str_eq(
        cmd,
        "matches_selector",
    ) || str_eq(cmd, "inner_html") || str_eq(cmd, "outer_html") || str_eq(cmd, "set_inner_html")
        || str_eq(cmd, "set_inner_html_context") || str_eq(cmd, "set_fragment_html_executable")
}

/// Runs DOM command `cmd` with its two arguments against the page's tree.
/// Also returns how the command bears on the rendered document, judged
/// on the tree before the command: the host drops its cached layout when
/// the command reaches a connected node and changes it.
pub fn op_dom_inner(
    dom: &mut DomTree,
    started: &mut StartedScripts,
    page: &DocumentInfo,
    cmd: &str,
    arg1: &str,
    arg2: &str,
) -> (r: (RenderMutationImpact, DomReply))
    requires
        old(dom).wf(),
    ensures
        final(dom).wf(),
        r.0 == render_impact(*old(dom), cmd@, arg1@, arg2@),
        dom_answer(
            *old(dom),
            *final(dom),
            old(started)@,
            final(started)@,
            *page,
            cmd@,
            arg1@,
            arg2@,
            r.1@,
        ),
{
    let impact = dom.render_mutation_impact(cmd, arg1, arg2);
    match dom.dom_query(page, cmd, arg1, arg2) {
        Some(x) => {
            return (impact, x);
        },
        None => {},
    }
    if needs_engine(cmd) {
        return (impact, DomReply::NotHandled);
    }
    match dom.dom_update(started, cmd, arg1, arg2) {
        Some(x) => (impact, x),
        None => (impact, DomReply::Null),
    }
}

/// The DOM command channel over the runtime's document, which may be absent
/// (before a page loads or after it is torn down). With no document every
/// command answers `null`, reaches nothing rendered and changes nothing;
/// otherwise the command runs as `op_dom_inner` runs it.
pub fn op_dom(
    dom: &mut Option<DomTree>,
    started: &mut StartedScripts,
    page: &DocumentInfo,
    cmd: &str,
    arg1: &str,
    arg2: &str,
) -> (r: (RenderMutationImpact, DomReply))
    requires
        (*old(dom)) matches Some(t) ==> t.wf(),
    ensures
        (*old(dom)) is None ==> *final(dom) == *old(dom) && final(started)@ == old(started)@ && r.0
            == (RenderMutationImpact { connected: false, actual_change: false }) && r.1@
            == DomAnswer::Null,
        (*old(dom)) matches Some(t0) ==> ((*final(dom)) matches Some(t1) && t1.wf() && r.0
            == render_impact(t0, cmd@, arg1@, arg2@) && dom_answer(
            t0,
            t1,
            old(started)@,
            final(started)@,
            *page,
            cmd@,
            arg1@,
            arg2@,
            r.1@,
        )),
{
    match dom {
        Some(tree) => op_dom_inner(tree, started, page, cmd, arg1, arg2),
        None => (RenderMutationImpact { connected: false, actual_change: false }, DomReply::Null),
    }
}

} // verus!
