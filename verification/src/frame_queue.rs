//! Bounded queues of frame documents and cross-realm messages waiting for
//! the host.
//!
//! Script can hand documents and messages over faster than the host drains
//! them, and these buffers live outside the JavaScript heap, so each queue
//! is capped: over the cap the newest item is refused and the earlier ones
//! kept.
use vstd::prelude::*;

use crate::ops::{PendingFrame, PendingFrameMessage};
use crate::origin_storage::utf8_len;
use crate::strutil::owned;

verus! {

/// At most this many frame documents wait for a realm.
pub const MAX_PENDING_FRAME_DOCUMENTS: usize = 64;

/// At most this many bytes of frame URLs and markup wait for a realm.
pub const MAX_PENDING_FRAME_BYTES: usize = 33554432;

/// `x`, or `usize::MAX` when it does not fit.
pub open spec fn sat(x: int) -> int {
    if x > usize::MAX {
        usize::MAX as int
    } else {
        x
    }
}

/// What a frame document costs the queue: its URL and markup bytes.
pub open spec fn frame_cost(url: Seq<char>, html: Seq<char>) -> int {
    sat((utf8_len(url) + utf8_len(html)) as int)
}

/// Position of the first queued frame with id `id`.
pub open spec fn frame_index(frames: Seq<PendingFrame>, id: u64) -> Option<int>
    decreases frames.len(),
{
    if frames.len() == 0 {
        None
    } else {
        match frame_index(frames.drop_last(), id) {
            Some(i) => Some(i),
            None => if frames.last().frame_id as u64 == id {
                Some(frames.len() - 1)
            } else {
                None
            },
        }
    }
}

/// The frame documents and messages waiting for the host.
pub struct FrameQueues {
    frames: Vec<PendingFrame>,
    frame_bytes: usize,
    last_frame_id: u32,
    messages: Vec<PendingFrameMessage>,
    message_bytes: usize,
}

impl FrameQueues {
    pub closed spec fn frames(&self) -> Seq<PendingFrame> {
        self.frames@
    }

    /// Bytes charged to the frame queue.
    pub closed spec fn frame_bytes(&self) -> int {
        self.frame_bytes as int
    }

    /// The last frame id handed out; 0 before the first.
    pub closed spec fn last_frame_id(&self) -> u32 {
        self.last_frame_id
    }

    pub closed spec fn messages(&self) -> Seq<PendingFrameMessage> {
        self.messages@
    }

    /// Bytes charged to the message queue.
    pub closed spec fn message_bytes(&self) -> int {
        self.message_bytes as int
    }

    /// The frame queue is within its caps, and every queued frame has an id
    /// that was handed out.
    pub closed spec fn wf(&self) -> bool {
        &&& self.frames@.len() <= MAX_PENDING_FRAME_DOCUMENTS
        &&& self.frame_bytes <= MAX_PENDING_FRAME_BYTES
        &&& forall|i: int|
            0 <= i < self.frames@.len() ==> 1 <= (#[trigger] self.frames@[i]).frame_id
                <= self.last_frame_id
    }

    pub fn new() -> (r: FrameQueues)
        ensures
            r.wf(),
            r.frames().len() == 0,
            r.frame_bytes() == 0,
            r.last_frame_id() == 0,
            r.messages().len() == 0,
            r.message_bytes() == 0,
    {
        FrameQueues {
            frames: Vec::new(),
            frame_bytes: 0,
            last_frame_id: 0,
            messages: Vec::new(),
            message_bytes: 0,
        }
    }

    /// Queues a fetched frame document for the host and returns the id the
    /// frame will have; 0 when the queue is full or frame ids ran out.
    pub fn frame_document_ready(
        &mut self,
        parent_frame_id: u32,
        url: &str,
        html: &str,
        viewport_width: u64,
        viewport_height: u64,
        owner_nid: u64,
    ) -> (r: u32)
        requires
            old(self).wf(),
        ensures
            final(self).wf(),
            final(self).messages() == old(self).messages(),
            final(self).message_bytes() == old(self).message_bytes(),
            ({
                let refused = old(self).frames().len() >= MAX_PENDING_FRAME_DOCUMENTS || sat(
                    old(self).frame_bytes() + frame_cost(url@, html@),
                ) > MAX_PENDING_FRAME_BYTES || old(self).last_frame_id() == u32::MAX;
                &&& refused ==> r == 0 && *final(self) == *old(self)
                &&& !refused ==> {
                    let f = final(self).frames().last();
                    &&& r == old(self).last_frame_id() + 1
                    &&& final(self).last_frame_id() == r
                    &&& forall|i: int| 0 <= i < old(self).frames().len()
                        ==> (#[trigger] old(self).frames()[i]).frame_id < r
                    &&& final(self).frame_bytes() == old(self).frame_bytes() + frame_cost(url@, html@)
                    &&& final(self).frames().len() == old(self).frames().len() + 1
                    &&& final(self).frames().drop_last() == old(self).frames()
                    &&& f.frame_id == r
                    &&& f.owner_nid == if owner_nid > u32::MAX as u64 {
                        u32::MAX
                    } else {
                        owner_nid as u32
                    }
                    &&& f.url@ == url@
                    &&& f.html@ == html@
                    &&& f.viewport_width == viewport_width
                    &&& f.viewport_height == viewport_height
                    &&& f.parent_frame_id == parent_frame_id
                }
            }),
    {
        let bytes = url.as_bytes().len().saturating_add(html.as_bytes().len());
        if self.frames.len() >= MAX_PENDING_FRAME_DOCUMENTS || self.frame_bytes.saturating_add(bytes)
            > MAX_PENDING_FRAME_BYTES {
            return 0;
        }
        let frame_id = match self.last_frame_id.checked_add(1) {
            Some(id) => id,
            None => {
                return 0;
            },
        };
        let owner: u32 = if owner_nid > 0xffff_ffffu64 {
            0xffff_ffff
        } else {
            owner_nid as u32
        };
        let ghost f0 = self.frames@;
        proof {
            assert forall|i: int| 0 <= i < f0.len() implies (#[trigger] f0[i]).frame_id < frame_id by {}
        }
        self.last_frame_id = frame_id;
        self.frame_bytes = self.frame_bytes + bytes;
        self.frames.push(
            PendingFrame {
                frame_id,
                owner_nid: owner,
                url: owned(url),
                html: owned(html),
                viewport_width,
                viewport_height,
                parent_frame_id,
            },
        );
        proof {
            assert(self.frames@.drop_last() =~= f0);
            assert forall|i: int| 0 <= i < self.frames@.len() implies 1 <= (
            #[trigger] self.frames@[i]).frame_id <= self.last_frame_id by {
                if i < f0.len() {
                    assert(self.frames@[i] == f0[i]);
                }
            }
        }
        frame_id
    }

    /// Replaces the markup of a queued frame document, as `document.write`
    /// on a provisional frame does; false, changing nothing, when no frame
    /// has id `frame_id` or the new markup would take the queue over its
    /// byte cap.
    pub fn frame_document_write(&mut self, frame_id: u64, html: &str) -> (r: bool)
        requires
            old(self).wf(),
        ensures
            final(self).wf(),
            final(self).messages() == old(self).messages(),
            final(self).message_bytes() == old(self).message_bytes(),
            final(self).last_frame_id() == old(self).last_frame_id(),
            match frame_index(old(self).frames(), frame_id) {
                None => !r && *final(self) == *old(self),
                Some(i) => {
                    let f = old(self).frames()[i];
                    let rest = (if old(self).frame_bytes() - frame_cost(f.url@, f.html@) < 0 {
                        0
                    } else {
                        old(self).frame_bytes() - frame_cost(f.url@, f.html@)
                    });
                    let total = sat(rest + frame_cost(f.url@, html@));
                    &&& r == (total <= MAX_PENDING_FRAME_BYTES)
                    &&& !r ==> *final(self) == *old(self)
                    &&& r ==> {
                        &&& final(self).frame_bytes() == total
                        &&& final(self).frames().len() == old(self).frames().len()
                        &&& forall|j: int| 0 <= j < old(self).frames().len() && j != i
                            ==> #[trigger] final(self).frames()[j] == old(self).frames()[j]
                        &&& final(self).frames()[i].html@ == html@
                        &&& final(self).frames()[i].url@ == f.url@
                        &&& final(self).frames()[i].frame_id == f.frame_id
                        &&& final(self).frames()[i].owner_nid == f.owner_nid
                        &&& final(self).frames()[i].parent_frame_id == f.parent_frame_id
                        &&& final(self).frames()[i].viewport_width == f.viewport_width
                        &&& final(self).frames()[i].viewport_height == f.viewport_height
                    }
                },
            },
    {
        let mut k: usize = 0;
        let ghost fs = self.frames@;
        while k < self.frames.len()
            invariant
                k <= self.frames@.len(),
                fs == self.frames@,
                frame_index(fs.take(k as int), frame_id) is None,
            ensures
                k <= self.frames@.len(),
                fs == self.frames@,
                frame_index(fs.take(k as int), frame_id) is None,
                k < self.frames@.len() ==> fs[k as int].frame_id as u64 == frame_id,
            decreases self.frames@.len() - k,
        {
            proof {
                assert(fs.take(k + 1).drop_last() =~= fs.take(k as int));
            }
            if self.frames[k].frame_id as u64 == frame_id {
                break;
            }
            k = k + 1;
        }
        proof {
            lemma_frame_index_prefix(fs, frame_id, k as int);
        }
        if k == self.frames.len() {
            return false;
        }
        let url_len = self.frames[k].url.as_str().as_bytes().len();
        let old_html_len = self.frames[k].html.as_str().as_bytes().len();
        let old_bytes = url_len.saturating_add(old_html_len);
        let new_bytes = url_len.saturating_add(html.as_bytes().len());
        let total_without_frame = self.frame_bytes.saturating_sub(old_bytes);
        let total = total_without_frame.saturating_add(new_bytes);
        if total > MAX_PENDING_FRAME_BYTES {
            return false;
        }
        let old_frame = self.frames.remove(k);
        let updated = PendingFrame {
            frame_id: old_frame.frame_id,
            owner_nid: old_frame.owner_nid,
            url: old_frame.url,
            html: owned(html),
            viewport_width: old_frame.viewport_width,
            viewport_height: old_frame.viewport_height,
            parent_frame_id: old_frame.parent_frame_id,
        };
        self.frames.insert(k, updated);
        self.frame_bytes = total;
        proof {
            assert forall|j: int| 0 <= j < fs.len() && j != k implies #[trigger] self.frames@[j]
                == fs[j] by {}
            assert forall|i: int| 0 <= i < self.frames@.len() implies 1 <= (
            #[trigger] self.frames@[i]).frame_id <= self.last_frame_id by {
                if i != k {
                    assert(self.frames@[i] == fs[i]);
                } else {
                    assert(fs[i].frame_id == self.frames@[i].frame_id);
                }
            }
        }
        true
    }

    /// Queues one `postMessage` for another realm; false when the message
    /// is dropped because the queue already holds `entry_limit` messages or
    /// its bytes would pass `byte_limit`. The newest message is the one
    /// dropped, so earlier traffic survives.
    pub fn post_frame_message(
        &mut self,
        target_frame_id: u32,
        source_frame_id: u32,
        origin: &str,
        data_json: &str,
        entry_limit: usize,
        byte_limit: usize,
    ) -> (r: bool)
        requires
            old(self).wf(),
        ensures
            final(self).wf(),
            final(self).frames() == old(self).frames(),
            final(self).frame_bytes() == old(self).frame_bytes(),
            final(self).last_frame_id() == old(self).last_frame_id(),
            r == (old(self).messages().len() < entry_limit && sat(
                old(self).message_bytes() + utf8_len(data_json@) as int,
            ) <= byte_limit),
            !r ==> *final(self) == *old(self),
            r ==> {
                let m = final(self).messages().last();
                &&& final(self).message_bytes() == sat(old(self).message_bytes() + utf8_len(data_json@) as int)
                &&& final(self).messages().len() == old(self).messages().len() + 1
                &&& final(self).messages().len() <= entry_limit
                &&& final(self).message_bytes() <= byte_limit
                &&& final(self).messages().drop_last() == old(self).messages()
                &&& m.target_frame_id == target_frame_id
                &&& m.source_frame_id == source_frame_id
                &&& m.origin@ == origin@
                &&& m.data_json@ == data_json@
            },
    {
        let len = data_json.as_bytes().len();
        if self.messages.len() >= entry_limit || self.message_bytes.saturating_add(len) > byte_limit {
            return false;
        }
        let ghost m0 = self.messages@;
        self.message_bytes = self.message_bytes.saturating_add(len);
        self.messages.push(
            PendingFrameMessage {
                target_frame_id,
                source_frame_id,
                origin: owned(origin),
                data_json: owned(data_json),
            },
        );
        proof {
            assert(self.messages@.drop_last() =~= m0);
        }
        true
    }
}

proof fn lemma_frame_index_prefix(fs: Seq<PendingFrame>, id: u64, k: int)
    requires
        0 <= k <= fs.len(),
        frame_index(fs.take(k), id) is None,
        k < fs.len() ==> fs[k].frame_id as u64 == id,
    ensures
        k < fs.len() ==> frame_index(fs, id) == Some(k),
        k == fs.len() ==> frame_index(fs, id) is None,
    decreases fs.len(),
{
    if k == fs.len() {
        assert(fs.take(k) =~= fs);
    } else if k < fs.len() - 1 {
        assert(fs.drop_last().take(k) =~= fs.take(k));
        lemma_frame_index_prefix(fs.drop_last(), id, k);
    } else {
        assert(fs.drop_last() =~= fs.take(k));
    }
}

} // verus!
