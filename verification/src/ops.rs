//! Plain records exchanged between the JavaScript host and the protocol
//! layer.
use vstd::prelude::*;

verus! {

/// How the protocol layer resolved an intercepted request.
#[derive(Debug)]
pub enum InterceptResolution {
    Continue {
        url: Option<String>,
        method: Option<String>,
        headers: Option<Vec<(String, String)>>,
        body: Option<String>,
    },
    Fulfill { status: u16, headers: Vec<(String, String)>, body: String },
    Fail { reason: String },
}

/// A response body kept for `Network.getResponseBody`.
#[derive(Debug, Clone)]
pub struct StoredNetworkResponseBody {
    pub body: String,
    pub base64_encoded: bool,
}

/// A frame document waiting to be given a realm.
pub struct PendingFrame {
    pub frame_id: u32,
    /// The iframe node in the parent realm, used only to re-measure the
    /// owner box before the child realm starts.
    pub owner_nid: u32,
    pub url: String,
    pub html: String,
    pub viewport_width: u64,
    pub viewport_height: u64,
    /// The frame that holds this one; 0 when the page does.
    pub parent_frame_id: u32,
}

/// One `postMessage` in flight between two realms.
pub struct PendingFrameMessage {
    /// Where it is going; 0 is the page's realm.
    pub target_frame_id: u32,
    /// Where it came from, so the receiver can reply through `event.source`.
    pub source_frame_id: u32,
    /// The sender's origin, for `event.origin`.
    pub origin: String,
    /// The payload, JSON encoded.
    pub data_json: String,
}

} // verus!
