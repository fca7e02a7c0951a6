//! Decisions of the image metadata loader that runs behind `img` elements.
//!
//! The host resolves the image's selected source and consults the resource
//! cache and the table of requests in flight; it fetches and decodes the
//! image. This module decides what a load request does with that state, and
//! what a finished fetch does to the cache.
use vstd::prelude::*;

use crate::cli::ascii_lower;
use crate::mutation_impact::attr_of;
use crate::scripted_fetch::{blocked_by, url_blocked};
use crate::strutil::{str_eq, trim_owned, trimmed};
use crate::style_queue::names_match;
use crate::tree::{DomTree, NodeData, NodeId};

verus! {

/// What a metadata request for an image node does next.
pub enum ImageLoadStep {
    /// The node is not a live `img` element: answer `stale`.
    Stale,
    /// The image has no selected source: answer `error`.
    Error,
    /// The cache already knows the source: answer from it.
    Cached,
    /// No request for the source is in flight: this request fetches it,
    /// unless the page's blocked-URL patterns refuse it, and then wakes the
    /// requests that waited for it.
    Lead { url: String, blocked: bool },
    /// Another request already fetches the source: wait for it and answer
    /// from the cache it leaves.
    Follow { url: String },
}

/// What a finished fetch does to the resource cache.
#[derive(Clone, Copy, Debug, PartialEq, Eq, Structural)]
pub enum ImageOutcome {
    /// Store the decoded image.
    Seed,
    /// Record the source as missing.
    Missing,
    /// The document changed meanwhile: leave the cache alone.
    Ignore,
}

/// Node `n` is a live element with local name `img`.
pub open spec fn is_live_img(t: DomTree, n: nat) -> bool {
    &&& t.live(n)
    &&& t.node(n).data is Element
    &&& t.node(n).data->Element_name.local@ == "img"@
}

/// The step for a request about `node`, given the page's blocked-URL
/// patterns, the image's selected source with whether the cache knows it,
/// and whether a request for that source is already in flight.
pub fn image_load_step(
    dom: &DomTree,
    node: NodeId,
    blocked: &Vec<String>,
    selected: Option<(String, bool)>,
    in_flight: bool,
) -> (r: ImageLoadStep)
    requires
        dom.wf_struct(),
    ensures
        !is_live_img(*dom, node.id()) ==> r is Stale,
        is_live_img(*dom, node.id()) && selected is None ==> r is Error,
        is_live_img(*dom, node.id()) && selected is Some ==> {
            let (u, known) = selected->Some_0;
            &&& known ==> r is Cached
            &&& !known && in_flight ==> (r matches ImageLoadStep::Follow { url } && url@ == u@)
            &&& !known && !in_flight ==> (r matches ImageLoadStep::Lead { url, blocked: b }
                && url@ == u@ && b == blocked_by(blocked@, u@))
        },
{
    let is_img = match dom.node_ref(node) {
        Some(n) => match &n.data {
            NodeData::Element { name, .. } => str_eq(name.local.as_str(), "img"),
            _ => false,
        },
        None => false,
    };
    if !is_img {
        return ImageLoadStep::Stale;
    }
    match selected {
        None => ImageLoadStep::Error,
        Some((url, known)) => {
            if known {
                ImageLoadStep::Cached
            } else if in_flight {
                ImageLoadStep::Follow { url }
            } else {
                let b = url_blocked(blocked, url.as_str());
                ImageLoadStep::Lead { url, blocked: b }
            }
        },
    }
}

/// The outcome of a fetch that answered with `status` (`None`: no response,
/// blocked or failed), whether the body decoded to an image with
/// dimensions, and whether the document is still the one the fetch was for.
pub fn image_response_outcome(
    status: Option<u16>,
    has_dimensions: bool,
    same_generation: bool,
) -> (r: ImageOutcome)
    ensures
        !same_generation ==> r == ImageOutcome::Ignore,
        same_generation ==> (r == ImageOutcome::Seed <==> (status matches Some(s) && 200 <= s
            < 300 && has_dimensions)),
        same_generation ==> r != ImageOutcome::Ignore,
{
    if !same_generation {
        return ImageOutcome::Ignore;
    }
    match status {
        Some(s) => {
            if 200 <= s && s < 300 && has_dimensions {
                ImageOutcome::Seed
            } else {
                ImageOutcome::Missing
            }
        },
        None => ImageOutcome::Missing,
    }
}

/// The request an image element's `crossorigin` attribute asks for. Requests
/// with different profiles never share a response.
#[derive(Clone, Copy, Debug, PartialEq, Eq, Structural)]
pub enum ImageRequestProfile {
    /// `crossorigin="use-credentials"`: CORS with credentials.
    CorsInclude,
    /// Any other `crossorigin` value: CORS, credentials for the same origin.
    CorsSameOrigin,
    /// No `crossorigin`: a no-CORS request with credentials.
    NoCorsInclude,
}

/// The profile for node `n`, from its `crossorigin` attribute trimmed and
/// ASCII-lower-cased.
pub open spec fn request_profile(t: DomTree, n: nat) -> ImageRequestProfile {
    match attr_of(t, n, "crossorigin"@) {
        None => ImageRequestProfile::NoCorsInclude,
        Some(v) => if ascii_lower(trimmed(v)) == "use-credentials"@ {
            ImageRequestProfile::CorsInclude
        } else {
            ImageRequestProfile::CorsSameOrigin
        },
    }
}

/// The request profile of image element `node_id`.
pub fn image_request_profile(dom: &DomTree, node_id: NodeId) -> (r: ImageRequestProfile)
    requires
        dom.wf(),
    ensures
        r == request_profile(*dom, node_id.id()),
{
    match dom.attr_at(node_id, "crossorigin") {
        None => ImageRequestProfile::NoCorsInclude,
        Some(v) => {
            let t = trim_owned(v.as_str());
            proof {
                reveal_strlit("use-credentials");
                assert(ascii_lower("use-credentials"@) =~= "use-credentials"@);
            }
            if names_match(t.as_str(), "use-credentials") {
                ImageRequestProfile::CorsInclude
            } else {
                ImageRequestProfile::CorsSameOrigin
            }
        },
    }
}

} // verus!
