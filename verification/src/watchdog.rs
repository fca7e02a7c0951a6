//! Decisions of the shared command watchdog.
//!
//! One long-lived worker bounds every in-flight V8 command with a deadline.
//! Each armed command owns a slot keyed by a monotonic generation; the worker
//! removes every slot whose deadline has passed, flags its command as fired,
//! and then sleeps until the nearest remaining deadline. This module holds the
//! armed slots, the fired flags and those decisions; the caller supplies the
//! monotonic clock reading (`now`) and performs the termination and the
//! waiting.
use std::collections::HashMap;
use std::collections::HashSet;
use vstd::prelude::*;

verus! {

broadcast use vstd::std_specs::hash::group_hash_axioms;

/// The armed slots (generation to deadline) and the fired flags of the
/// commands the worker terminated and whose handles were not yet disarmed.
pub struct WatchdogState {
    armed: HashMap<u64, u64>,
    fired: HashSet<u64>,
    generation: u64,
}

/// Handle to an armed command; pass it to [`disarm`].
#[derive(Debug, PartialEq, Eq, Structural)]
pub struct Armed {
    pub gen: u64,
}

/// What one turn of the worker decided.
pub struct WatchdogTick {
    /// Generations whose commands must be terminated now.
    pub expired: Vec<u64>,
    /// How long to sleep before the nearest remaining deadline; `None` to
    /// sleep until the next arm or disarm.
    pub wait: Option<u64>,
}

impl WatchdogState {
    /// Generation to deadline for every armed command.
    pub closed spec fn view(&self) -> Map<u64, u64> {
        self.armed@
    }

    /// Generations whose commands the worker terminated, until disarmed.
    pub closed spec fn fired(&self) -> Set<u64> {
        self.fired@
    }

    /// The last generation handed out.
    pub closed spec fn generation(&self) -> u64 {
        self.generation
    }

    /// Every generation in use was handed out, and a slot is either armed
    /// or fired, never both.
    pub closed spec fn wf(&self) -> bool {
        &&& forall|g: u64| #[trigger] self.armed@.contains_key(g) ==> 1 <= g <= self.generation
        &&& forall|g: u64| #[trigger] self.fired@.contains(g) ==> 1 <= g <= self.generation
        &&& forall|g: u64| self.armed@.contains_key(g) ==> !(#[trigger] self.fired@.contains(g))
    }

    pub fn new() -> (r: WatchdogState)
        ensures
            r.wf(),
            r.view() == Map::<u64, u64>::empty(),
            r.fired() == Set::<u64>::empty(),
            r.generation() == 0,
    {
        WatchdogState { armed: HashMap::new(), fired: HashSet::new(), generation: 0 }
    }

    /// A generation above the last one handed out is neither armed nor fired.
    pub proof fn lemma_fresh(&self, g: u64)
        requires
            self.wf(),
            g > self.generation(),
        ensures
            !self.view().contains_key(g),
            !self.fired().contains(g),
    {
    }
}

/// Arms the watchdog for a command started at `now` with `budget` to run.
pub fn arm(state: &mut WatchdogState, now: u64, budget: u64) -> (r: Armed)
    requires
        old(state).wf(),
        old(state).generation() < u64::MAX,
        now + budget <= u64::MAX,
    ensures
        final(state).wf(),
        r.gen == old(state).generation() + 1,
        final(state).generation() == r.gen,
        !old(state).view().contains_key(r.gen),
        !old(state).fired().contains(r.gen),
        final(state).view() == old(state).view().insert(r.gen, (now + budget) as u64),
        final(state).fired() == old(state).fired(),
        (final(state).view(), final(state).fired(), final(state).generation())
            == after_watchdog_call(
            (old(state).view(), old(state).fired(), old(state).generation()),
            WatchdogCall::Arm { now, budget },
        ),
{
    state.generation = state.generation + 1;
    let gen = state.generation;
    state.armed.insert(gen, now + budget);
    Armed { gen }
}

/// Disarms a command. Returns whether the watchdog had already fired for
/// it, in which case the caller clears V8's termination flag before the
/// next command runs.
pub fn disarm(state: &mut WatchdogState, armed: Armed) -> (r: bool)
    requires
        old(state).wf(),
    ensures
        final(state).wf(),
        final(state).generation() == old(state).generation(),
        r == old(state).fired().contains(armed.gen),
        final(state).view() == old(state).view().remove(armed.gen),
        final(state).fired() == old(state).fired().remove(armed.gen),
        (final(state).view(), final(state).fired(), final(state).generation())
            == after_watchdog_call(
            (old(state).view(), old(state).fired(), old(state).generation()),
            WatchdogCall::Disarm { gen: armed.gen },
        ),
{
    state.armed.remove(&armed.gen);
    let r = state.fired.remove(&armed.gen);
    r
}

/// The slots of `m` still armed after a tick at `now`.
pub open spec fn tick_armed(m: Map<u64, u64>, now: u64) -> Map<u64, u64> {
    Map::new(|g: u64| m.contains_key(g) && m[g] > now, |g: u64| m[g])
}

/// The fired flags after a tick at `now`: those of `f` and every slot of
/// `m` whose deadline has passed.
pub open spec fn tick_fired(f: Set<u64>, m: Map<u64, u64>, now: u64) -> Set<u64> {
    f.union(Set::new(|g: u64| due(m, g, now)))
}

/// The values among the first `k` entries of `s`.
pub open spec fn first_of(s: Seq<u64>, k: int) -> Set<u64> {
    Set::new(|x: u64| exists|j: int| 0 <= j < k && s[j] == x)
}

/// Slot `g` of `m` is armed and due at `now`.
pub open spec fn due(m: Map<u64, u64>, g: u64, now: u64) -> bool {
    m.contains_key(g) && m[g] <= now
}

/// `w` is the time from `now` to the nearest deadline of an armed slot.
pub open spec fn is_next_wait(m: Map<u64, u64>, now: u64, w: u64) -> bool {
    &&& exists|g: u64| #[trigger] m.contains_key(g) && m[g] - now == w
    &&& forall|g: u64| #[trigger] m.contains_key(g) ==> m[g] - now >= w
}

/// A tick at or after an armed command's deadline terminates it, flags it
/// as fired, and no later tick terminates it again; its `disarm` then
/// reports that it fired.
pub proof fn lemma_fires_once(
    m: Map<u64, u64>,
    f: Set<u64>,
    g: u64,
    now: u64,
    later: u64,
)
    requires
        m.contains_key(g),
        m[g] <= now,
    ensures
        due(m, g, now),
        tick_fired(f, m, now).contains(g),
        !due(tick_armed(m, now), g, later),
        tick_fired(tick_fired(f, m, now), tick_armed(m, now), later).contains(g),
{
}

/// A tick before an armed command's deadline neither terminates it nor
/// changes its deadline; once disarmed, no tick terminates it.
pub proof fn lemma_tick_spares_pending(m: Map<u64, u64>, f: Set<u64>, g: u64, now: u64, later: u64)
    requires
        m.contains_key(g),
        now < m[g],
    ensures
        !due(m, g, now),
        tick_armed(m, now).contains_key(g),
        tick_armed(m, now)[g] == m[g],
        tick_fired(f, m, now).contains(g) == f.contains(g),
        !due(tick_armed(m, now).remove(g), g, later),
{
}

/// One call on the watchdog.
pub enum WatchdogCall {
    Arm { now: u64, budget: u64 },
    Disarm { gen: u64 },
    Tick { now: u64 },
}

/// Armed slots, fired flags and last generation, as one tuple.
pub type WatchdogModel = (Map<u64, u64>, Set<u64>, u64);

/// The model after one call, as the contracts of `arm`, `disarm` and
/// `watchdog_loop` give it.
pub open spec fn after_watchdog_call(s: WatchdogModel, c: WatchdogCall) -> WatchdogModel {
    match c {
        WatchdogCall::Arm { now, budget } => (
            s.0.insert((s.2 + 1) as u64, (now + budget) as u64),
            s.1,
            (s.2 + 1) as u64,
        ),
        WatchdogCall::Disarm { gen } => (s.0.remove(gen), s.1.remove(gen), s.2),
        WatchdogCall::Tick { now } => (tick_armed(s.0, now), tick_fired(s.1, s.0, now), s.2),
    }
}

/// The model after a sequence of calls, first to last.
pub open spec fn after_watchdog_calls(s: WatchdogModel, cs: Seq<WatchdogCall>) -> WatchdogModel
    decreases cs.len(),
{
    if cs.len() == 0 {
        s
    } else {
        after_watchdog_calls(after_watchdog_call(s, cs[0]), cs.skip(1))
    }
}

/// How many ticks of `cs` terminate the command of generation `g`.
pub open spec fn terminations(s: WatchdogModel, cs: Seq<WatchdogCall>, g: u64) -> nat
    decreases cs.len(),
{
    if cs.len() == 0 {
        0
    } else {
        (if cs[0] matches WatchdogCall::Tick { now } && due(s.0, g, now) {
            1nat
        } else {
            0nat
        }) + terminations(after_watchdog_call(s, cs[0]), cs.skip(1), g)
    }
}

/// Some tick of `cs` happens at or after `deadline`.
pub open spec fn tick_reaches(cs: Seq<WatchdogCall>, deadline: u64) -> bool {
    exists|i: int|
        0 <= i < cs.len() && ((#[trigger] cs[i]) matches WatchdogCall::Tick { now } && now >= deadline)
}

/// An armed command that is not disarmed is terminated exactly once if some
/// tick comes at or after its deadline, and never otherwise; its fired flag
/// is then set, so the later `disarm` reports it. A command already
/// terminated is not terminated again and keeps its flag.
pub proof fn lemma_terminated_at_most_once(s: WatchdogModel, cs: Seq<WatchdogCall>, g: u64)
    requires
        1 <= g <= s.2,
        s.2 + cs.len() < u64::MAX,
        forall|i: int| 0 <= i < cs.len() ==> !((#[trigger] cs[i]) matches WatchdogCall::Disarm {
            gen,
        } && gen == g),
        s.0.contains_key(g) != s.1.contains(g),
    ensures
        s.0.contains_key(g) ==> terminations(s, cs, g) == if tick_reaches(cs, s.0[g]) {
            1nat
        } else {
            0nat
        },
        !s.0.contains_key(g) ==> terminations(s, cs, g) == 0,
        after_watchdog_calls(s, cs).1.contains(g) == (!s.0.contains_key(g) || tick_reaches(
            cs,
            s.0[g],
        )),
    decreases cs.len(),
{
    if cs.len() > 0 {
        let c = cs[0];
        let s1 = after_watchdog_call(s, c);
        let rest = cs.skip(1);
        assert forall|i: int| 0 <= i < rest.len() implies !((#[trigger] rest[i]) matches WatchdogCall::Disarm {
            gen,
        } && gen == g) by {
            assert(rest[i] == cs[i + 1]);
        }
        assert(1 <= g <= s1.2);
        assert(s1.0.contains_key(g) != s1.1.contains(g));
        lemma_terminated_at_most_once(s1, rest, g);
        if s.0.contains_key(g) {
            let d = s.0[g];
            assert(tick_reaches(cs, d) == ((c matches WatchdogCall::Tick { now } && now >= d)
                || tick_reaches(rest, d))) by {
                if tick_reaches(rest, d) {
                    let i = choose|i: int|
                        0 <= i < rest.len() && ((#[trigger] rest[i]) matches WatchdogCall::Tick {
                            now,
                        } && now >= d);
                    assert(cs[i + 1] == rest[i]);
                }
                if c matches WatchdogCall::Tick { now } && now >= d {
                    assert(cs[0] == c);
                }
                if tick_reaches(cs, d) {
                    let i = choose|i: int|
                        0 <= i < cs.len() && ((#[trigger] cs[i]) matches WatchdogCall::Tick {
                            now,
                        } && now >= d);
                    if i > 0 {
                        assert(rest[i - 1] == cs[i]);
                    }
                }
            }
            if !(c matches WatchdogCall::Tick { now } && now >= d) {
                assert(s1.0.contains_key(g) && s1.0[g] == d);
            }
        }
    }
}

/// Generations only grow: after any calls (without running past the last
/// generation) the last generation handed out is at least what it was, so
/// the generation each later `arm` returns, one above it, is greater than
/// that of every earlier `arm`.
pub proof fn lemma_generations_grow(s: WatchdogModel, cs: Seq<WatchdogCall>)
    requires
        s.2 + cs.len() < u64::MAX,
    ensures
        s.2 <= after_watchdog_calls(s, cs).2 <= s.2 + cs.len(),
    decreases cs.len(),
{
    if cs.len() > 0 {
        lemma_generations_grow(after_watchdog_call(s, cs[0]), cs.skip(1));
    }
}

/// A generation that is not armed is never terminated by later calls: new
/// arms take higher generations.
pub proof fn lemma_unarmed_never_fires(s: WatchdogModel, cs: Seq<WatchdogCall>, g: u64)
    requires
        g <= s.2,
        s.2 + cs.len() < u64::MAX,
        !s.0.contains_key(g),
    ensures
        terminations(s, cs, g) == 0,
    decreases cs.len(),
{
    if cs.len() > 0 {
        let s1 = after_watchdog_call(s, cs[0]);
        assert(!s1.0.contains_key(g));
        lemma_unarmed_never_fires(s1, cs.skip(1), g);
    }
}

/// A command disarmed (call `k`) before any tick reached its deadline is
/// never terminated.
pub proof fn lemma_disarmed_never_fires(s: WatchdogModel, cs: Seq<WatchdogCall>, g: u64, k: int)
    requires
        g <= s.2,
        s.2 + cs.len() < u64::MAX,
        s.0.contains_key(g),
        0 <= k < cs.len(),
        cs[k] == (WatchdogCall::Disarm { gen: g }),
        forall|i: int| 0 <= i < k ==> !((#[trigger] cs[i]) matches WatchdogCall::Tick { now } && now >= s.0[g]),
    ensures
        terminations(s, cs, g) == 0,
    decreases k,
{
    let s1 = after_watchdog_call(s, cs[0]);
    let rest = cs.skip(1);
    if k == 0 || !s1.0.contains_key(g) {
        lemma_unarmed_never_fires(s1, rest, g);
    } else {
        assert(s1.0[g] == s.0[g]);
        assert forall|i: int| 0 <= i < k - 1 implies !((#[trigger] rest[i]) matches WatchdogCall::Tick {
            now,
        } && now >= s1.0[g]) by {
            assert(rest[i] == cs[i + 1]);
        }
        assert(rest[k - 1] == cs[k]);
        lemma_disarmed_never_fires(s1, rest, g, k - 1);
    }
}

/// One turn of the worker at clock reading `now`: remove every slot whose
/// deadline has passed and flag it as fired, then say how long to sleep.
pub fn watchdog_loop(state: &mut WatchdogState, now: u64) -> (r: WatchdogTick)
    requires
        old(state).wf(),
    ensures
        final(state).wf(),
        final(state).generation() == old(state).generation(),
        final(state).view() == tick_armed(old(state).view(), now),
        final(state).fired() == tick_fired(old(state).fired(), old(state).view(), now),
        r.expired@.no_duplicates(),
        forall|g: u64| r.expired@.contains(g) <==> due(old(state).view(), g, now),
        r.wait is None <==> final(state).view().dom().is_empty(),
        r.wait matches Some(w) ==> is_next_wait(final(state).view(), now, w),
        (final(state).view(), final(state).fired(), final(state).generation())
            == after_watchdog_call(
            (old(state).view(), old(state).fired(), old(state).generation()),
            WatchdogCall::Tick { now },
        ),
{
    let ghost m0 = state.armed@;
    let ghost f0 = state.fired@;
    let mut expired: Vec<u64> = Vec::new();
    let mut wait: Option<u64> = None;
    let ghost mut done: Set<u64> = Set::empty();
    for pair in it: state.armed.iter()
        invariant
            m0 == state.armed@,
            m0.dom().finite(),
            it.seq().no_duplicates(),
            it.seq().len() == m0.dom().len(),
            forall|i: int|
                0 <= i < it.seq().len() ==> m0.contains_key(*(#[trigger] it.seq()[i]).0)
                    && m0[*it.seq()[i].0] == *it.seq()[i].1,
            forall|k: u64| #[trigger] m0.contains_key(k) ==> it.seq().contains((&k, &m0[k])),
            forall|g: u64|
                #[trigger] done.contains(g) <==> exists|j: int|
                    0 <= j < it.index() && *(#[trigger] it.seq()[j]).0 == g,
            it.index() == it.seq().len() ==> done == m0.dom(),
            done.subset_of(m0.dom()),
            expired@.no_duplicates(),
            forall|g: u64| expired@.contains(g) <==> done.contains(g) && m0[g] <= now,
            wait is None <==> forall|g: u64| #[trigger] done.contains(g) ==> m0[g] <= now,
            wait matches Some(w) ==> (exists|g: u64|
                #[trigger] done.contains(g) && m0[g] > now && m0[g] - now == w) && (forall|g: u64|
                #[trigger] done.contains(g) && m0[g] > now ==> m0[g] - now >= w),
    {
        let (gr, dr) = pair;
        let g: u64 = *gr;
        let d: u64 = *dr;
        let ghost idx = it.index();
        proof {
            assert(it.seq()[idx] == (gr, dr));
            assert(m0.contains_key(g) && m0[g] == d);
            assert(!done.contains(g)) by {
                if done.contains(g) {
                    let j = choose|j: int| 0 <= j < idx && *(#[trigger] it.seq()[j]).0 == g;
                    assert(it.seq()[j] == it.seq()[idx]);
                }
            }
            assert(!expired@.contains(g));
        }
        let ghost e0 = expired@;
        let ghost w0 = wait;
        if d <= now {
            expired.push(g);
        } else {
            let dd: u64 = d - now;
            match wait {
                Some(w) => {
                    if dd < w {
                        wait = Some(dd);
                    }
                },
                None => {
                    wait = Some(dd);
                },
            }
        }
        proof {
            let d0 = done;
            let nd = d0.insert(g);
            assert forall|x: u64| #[trigger] nd.contains(x) <==> exists|j: int|
                0 <= j < idx + 1 && *(#[trigger] it.seq()[j]).0 == x by {
                if exists|j: int| 0 <= j < idx + 1 && *(#[trigger] it.seq()[j]).0 == x {
                    let j = choose|j: int| 0 <= j < idx + 1 && *(#[trigger] it.seq()[j]).0 == x;
                    if j < idx {
                        assert(d0.contains(x));
                    }
                }
            }
            if idx + 1 == it.seq().len() {
                assert forall|x: u64| nd.contains(x) <==> m0.dom().contains(x) by {
                    if m0.contains_key(x) {
                        assert(it.seq().contains((&x, &m0[x])));
                        let j = choose|j: int| 0 <= j < it.seq().len() && it.seq()[j] == (&x, &m0[x]);
                        assert(*it.seq()[j].0 == x);
                    }
                }
                assert(nd =~= m0.dom());
            }
            assert forall|x: u64| expired@.contains(x) <==> nd.contains(x) && m0[x] <= now by {
                if d <= now {
                    assert(expired@ == e0.push(g));
                    if expired@.contains(x) {
                        let k = choose|k: int| 0 <= k < expired@.len() && expired@[k] == x;
                        if k < e0.len() {
                            assert(e0[k] == x);
                            assert(e0.contains(x));
                        }
                    }
                    if nd.contains(x) && m0[x] <= now && x != g {
                        assert(d0.contains(x));
                        assert(e0.contains(x));
                        let k = choose|k: int| 0 <= k < e0.len() && e0[k] == x;
                        assert(expired@[k] == x);
                    }
                    if x == g {
                        assert(expired@[e0.len() as int] == x);
                    }
                } else {
                    if x != g {
                        assert(nd.contains(x) == d0.contains(x));
                    }
                }
            }
            if wait is None {
                assert(d <= now && w0 is None);
                assert forall|x: u64| #[trigger] nd.contains(x) implies m0[x] <= now by {
                    if x != g {
                        assert(d0.contains(x));
                    }
                }
            } else {
                let w = wait->Some_0;
                if w0 is None && d > now {
                    assert(w == d - now);
                    assert(nd.contains(g) && m0[g] > now && m0[g] - now == w);
                    assert forall|x: u64| #[trigger] nd.contains(x) && m0[x] > now implies m0[x] - now
                        >= w by {
                        if x != g {
                            assert(d0.contains(x));
                        }
                    }
                } else {
                    let w00 = w0->Some_0;
                    let x0 = choose|x: u64|
                        #[trigger] d0.contains(x) && m0[x] > now && m0[x] - now == w00;
                    if w == w00 {
                        assert(nd.contains(x0) && m0[x0] > now && m0[x0] - now == w);
                    } else {
                        assert(nd.contains(g) && m0[g] > now && m0[g] - now == w);
                    }
                    assert forall|x: u64| #[trigger] nd.contains(x) && m0[x] > now implies m0[x] - now
                        >= w by {
                        if x != g {
                            assert(d0.contains(x));
                        }
                    }
                }
                assert(exists|x: u64| #[trigger] nd.contains(x) && m0[x] > now && m0[x] - now == w);
                assert(!(forall|x: u64| #[trigger] nd.contains(x) ==> m0[x] <= now));
            }
            assert(nd.subset_of(m0.dom()));
            done = nd;
        }
    }
    proof {
        assert(done == m0.dom());
        assert forall|g: u64| expired@.contains(g) <==> due(m0, g, now) by {
            assert(expired@.contains(g) <==> done.contains(g) && m0[g] <= now);
            assert(done.contains(g) <==> m0.dom().contains(g));
        }
    }
    let mut k: usize = 0;
    while k < expired.len()
        invariant
            k <= expired@.len(),
            expired@.no_duplicates(),
            forall|g: u64| expired@.contains(g) <==> due(m0, g, now),
            state.generation == old(state).generation,
            m0 == old(state).armed@,
            f0 == old(state).fired@,
            old(state).wf(),
            state.armed@ == m0.remove_keys(first_of(expired@, k as int)),
            state.fired@ == f0.union(first_of(expired@, k as int)),
        decreases expired@.len() - k,
    {
        let g = expired[k];
        let ghost a0 = state.armed@;
        let ghost fs0 = state.fired@;
        state.armed.remove(&g);
        state.fired.insert(g);
        proof {
            assert(state.armed@ == a0.remove(g));
            assert(state.fired@ == fs0.insert(g));
            assert forall|x: u64| #[trigger] first_of(expired@, k + 1).contains(x) <==> first_of(
                expired@,
                k as int,
            ).insert(g).contains(x) by {
                if first_of(expired@, k + 1).contains(x) && x != g {
                    let j = choose|j: int| 0 <= j < k + 1 && expired@[j] == x;
                    assert(j < k);
                }
                if x == g {
                    assert(expired@[k as int] == x);
                }
            }
            assert(first_of(expired@, k + 1) =~= first_of(expired@, k as int).insert(g));
            assert(state.armed@ =~= m0.remove_keys(first_of(expired@, k + 1)));
            assert(state.fired@ =~= f0.union(first_of(expired@, k + 1)));
        }
        k = k + 1;
    }
    proof {
        assert forall|g: u64| first_of(expired@, k as int).contains(g) <==> due(m0, g, now) by {
            if expired@.contains(g) {
                let j = choose|j: int| 0 <= j < expired@.len() && expired@[j] == g;
                assert(first_of(expired@, k as int).contains(g));
            }
        }
        assert(state.armed@ =~= tick_armed(m0, now));
        assert(state.fired@ =~= tick_fired(f0, m0, now));
        let m1 = tick_armed(m0, now);
        if wait is None {
            assert forall|g: u64| !m1.dom().contains(g) by {
                if m1.contains_key(g) {
                    assert(done.contains(g));
                }
            }
            assert(m1.dom() =~= Set::<u64>::empty());
        } else {
            let w = wait->Some_0;
            let gj = choose|g: u64| #[trigger] done.contains(g) && m0[g] > now && m0[g] - now == w;
            assert(m1.contains_key(gj) && m1[gj] - now == w);
            assert forall|g: u64| #[trigger] m1.contains_key(g) implies m1[g] - now >= w by {
                assert(done.contains(g));
            }
            assert(!m1.dom().is_empty()) by {
                assert(m1.dom().contains(gj));
            }
        }
        assert forall|g: u64| #[trigger] state.armed@.contains_key(g) implies 1 <= g
            <= state.generation by {
            assert(m0.contains_key(g));
        }
        assert forall|g: u64| #[trigger] state.fired@.contains(g) implies 1 <= g
            <= state.generation by {
            if !f0.contains(g) {
                assert(due(m0, g, now));
            }
        }
        assert forall|g: u64| state.armed@.contains_key(g) implies !(
        #[trigger] state.fired@.contains(g)) by {
            assert(m0.contains_key(g));
        }
    }
    WatchdogTick { expired, wait }
}

} // verus!
