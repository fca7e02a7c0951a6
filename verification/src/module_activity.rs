//! Observable network activity of ES-module graphs.
//!
//! The page lifecycle needs to tell a genuinely idle page from one whose
//! module graph is still being fetched in short event-loop slices. A
//! loader-owned counter of in-flight loads, plus the time of the last load
//! event, gives that signal without counting unrelated fetches as
//! render-blocking. Times are readings of a monotonic clock supplied by the
//! caller.
use vstd::prelude::*;

use crate::strutil::{chars_of, owned, str_eq};

verus! {

pub struct ModuleLoadActivity {
    pending: usize,
    last_activity: Option<u64>,
}

/// Ends one load when dropped in the host; here it is handed to
/// [`ModuleLoadActivity::end`].
pub struct ModuleLoadGuard {
    started: u64,
}

impl ModuleLoadActivity {
    /// Number of loads in flight.
    pub closed spec fn pending(&self) -> nat {
        self.pending as nat
    }

    /// Time of the most recent start or end of a load.
    pub closed spec fn last_activity(&self) -> Option<u64> {
        self.last_activity
    }

    pub fn new() -> (r: ModuleLoadActivity)
        ensures
            r.pending() == 0,
            r.last_activity() is None,
    {
        ModuleLoadActivity { pending: 0, last_activity: None }
    }

    /// Records the start of a load at `now`.
    pub fn begin(&mut self, now: u64) -> (g: ModuleLoadGuard)
        requires
            old(self).pending() < usize::MAX,
        ensures
            final(self).pending() == old(self).pending() + 1,
            final(self).last_activity() == Some(now),
            (final(self).pending(), final(self).last_activity()) == after_event(
                (old(self).pending(), old(self).last_activity()),
                LoadEvent::Begin(now),
            ),
    {
        self.pending = self.pending + 1;
        self.last_activity = Some(now);
        ModuleLoadGuard { started: now }
    }

    /// Records the end of a load at `now`.
    pub fn end(&mut self, guard: ModuleLoadGuard, now: u64)
        requires
            old(self).pending() > 0,
        ensures
            final(self).pending() == old(self).pending() - 1,
            final(self).last_activity() == Some(now),
            (final(self).pending(), final(self).last_activity()) == after_event(
                (old(self).pending(), old(self).last_activity()),
                LoadEvent::End(now),
            ),
    {
        self.pending = self.pending - 1;
        self.last_activity = Some(now);
    }

    /// A load is in flight, or the last load event was at most `grace`
    /// before `now` (a reading earlier than the event counts as no time).
    pub open spec fn busy(&self, now: u64, grace: u64) -> bool {
        self.pending() != 0 || match self.last_activity() {
            Some(last) => (if now >= last {
                now - last
            } else {
                0
            }) <= grace,
            None => false,
        }
    }

    pub fn is_pending_or_recent(&self, now: u64, grace: u64) -> (r: bool)
        ensures
            r == self.busy(now, grace),
    {
        if self.pending != 0 {
            return true;
        }
        match self.last_activity {
            Some(last) => {
                let elapsed = if now >= last {
                    now - last
                } else {
                    0
                };
                elapsed <= grace
            },
            None => false,
        }
    }
}

/// A start (`begin`) or an end (`end`, when its guard is handed back) of a
/// module load, at a clock reading.
pub enum LoadEvent {
    Begin(u64),
    End(u64),
}

/// The loads in flight and the last activity time after one event, as the
/// contracts of `begin` and `end` give them.
pub open spec fn after_event(a: (nat, Option<u64>), e: LoadEvent) -> (nat, Option<u64>) {
    match e {
        LoadEvent::Begin(t) => (a.0 + 1, Some(t)),
        LoadEvent::End(t) => ((a.0 - 1) as nat, Some(t)),
    }
}

/// The state after a sequence of events, first to last.
pub open spec fn after_events(a: (nat, Option<u64>), es: Seq<LoadEvent>) -> (nat, Option<u64>)
    decreases es.len(),
{
    if es.len() == 0 {
        a
    } else {
        after_events(after_event(a, es[0]), es.skip(1))
    }
}

/// Number of starts in `es`.
pub open spec fn begins(es: Seq<LoadEvent>) -> nat
    decreases es.len(),
{
    if es.len() == 0 {
        0
    } else {
        (if es[0] is Begin {
            1nat
        } else {
            0nat
        }) + begins(es.skip(1))
    }
}

/// Number of ends in `es`.
pub open spec fn ends(es: Seq<LoadEvent>) -> nat
    decreases es.len(),
{
    if es.len() == 0 {
        0
    } else {
        (if es[0] is End {
            1nat
        } else {
            0nat
        }) + ends(es.skip(1))
    }
}

/// Every end hands back a guard that a start before it gave out: no prefix
/// of `es`, counted from `live` loads in flight, ends more loads than it has.
pub open spec fn guards_match(live: nat, es: Seq<LoadEvent>) -> bool {
    forall|k: int| 0 <= k <= es.len() ==> #[trigger] ends(es.take(k)) <= live + begins(es.take(k))
}

/// The loads in flight always equal the guards still held: starting from
/// `live` loads, after any sequence of starts and ends whose every end
/// hands back a held guard, `live` plus the starts minus the ends are in
/// flight; and after at least one event the last activity is the time of
/// the last event.
pub proof fn lemma_pending_counts_guards(live: nat, last: Option<u64>, es: Seq<LoadEvent>)
    requires
        guards_match(live, es),
    ensures
        after_events((live, last), es).0 == live + begins(es) - ends(es),
        es.len() > 0 ==> after_events((live, last), es).1 == Some(
            match es.last() {
                LoadEvent::Begin(t) => t,
                LoadEvent::End(t) => t,
            },
        ),
    decreases es.len(),
{
    if es.len() > 0 {
        let e = es[0];
        let a1 = after_event((live, last), e);
        let rest = es.skip(1);
        assert(es.take(1) =~= seq![e]);
        assert(seq![e].skip(1) =~= Seq::<LoadEvent>::empty());
        assert(ends(es.take(1)) <= live + begins(es.take(1)));
        assert(ends(seq![e]) == (if e is End {
            1nat
        } else {
            0nat
        }) + ends(Seq::<LoadEvent>::empty()));
        assert(begins(seq![e]) == (if e is Begin {
            1nat
        } else {
            0nat
        }) + begins(Seq::<LoadEvent>::empty()));
        assert(begins(es) == (if e is Begin {
            1nat
        } else {
            0nat
        }) + begins(rest));
        assert(ends(es) == (if e is End {
            1nat
        } else {
            0nat
        }) + ends(rest));
        assert forall|k: int| 0 <= k <= rest.len() implies #[trigger] ends(rest.take(k)) <= a1.0
            + begins(rest.take(k)) by {
            assert(ends(es.take(k + 1)) <= live + begins(es.take(k + 1)));
            assert(es.take(k + 1).skip(1) =~= rest.take(k));
            assert(es.take(k + 1)[0] == e);
        }
        lemma_pending_counts_guards(a1.0, a1.1, rest);
        assert(rest.take(rest.len() as int) =~= rest);
        assert(ends(rest) <= a1.0 + begins(rest));
        if rest.len() > 0 {
            assert(rest.last() == es.last());
        }
    }
}

/// What a module specifier is resolved against.
pub enum ModuleBase {
    /// The root of a graph, a `<script type=module src>` URL: resolved as
    /// a resource URL against the document, without the import map.
    Root,
    /// Resolved through the import map against this URL.
    Against(String),
}

/// A referrer that stands for the document itself: empty, an internal
/// `<...>` name, or `about:blank`.
pub open spec fn document_referrer(referrer: Seq<char>) -> bool {
    referrer.len() == 0 || referrer[0] == '<' || referrer == "about:blank"@
}

/// The base for resolving a specifier imported from `referrer` in a page
/// whose document URL is `base_url`; the referrer `.` marks a graph root.
pub fn module_resolution_base(referrer: &str, base_url: &str) -> (r: ModuleBase)
    ensures
        referrer@ == "."@ ==> r is Root,
        referrer@ != "."@ && document_referrer(referrer@) ==> (r matches ModuleBase::Against(b) && b@
            == base_url@),
        referrer@ != "."@ && !document_referrer(referrer@) ==> (r matches ModuleBase::Against(b) && b@
            == referrer@),
{
    if str_eq(referrer, ".") {
        return ModuleBase::Root;
    }
    let v = chars_of(referrer);
    proof {
        reveal_strlit("");
    }
    if v.len() == 0 || v[0] == '<' || str_eq(referrer, "about:blank") {
        ModuleBase::Against(owned(base_url))
    } else {
        ModuleBase::Against(owned(referrer))
    }
}

/// A module response is used only with a 2xx status.
pub fn module_status_ok(status: u16) -> (r: bool)
    ensures
        r == (200 <= status <= 299),
{
    200 <= status && status <= 299
}

/// Records the URL a module fetch ended at when a redirect moved it away
/// from the requested one.
pub fn note_final_specifier(loaded: &mut Vec<String>, requested: &str, found: &str)
    ensures
        requested@ == found@ ==> final(loaded)@ == old(loaded)@,
        requested@ != found@ ==> final(loaded)@.len() == old(loaded)@.len() + 1
            && final(loaded)@.drop_last() == old(loaded)@ && final(loaded)@.last()@ == found@,
{
    if !str_eq(requested, found) {
        loaded.push(owned(found));
        proof {
            assert(loaded@.drop_last() =~= old(loaded)@);
        }
    }
}

} // verus!
