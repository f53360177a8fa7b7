//! Limit on failed logins.
//!
//! Points of time are nanoseconds on a clock that never goes back.

use crate::table::{marked, Table};
use vstd::prelude::*;
use vstd::string::*;

verus! {

/// How many failures lock an address out.
pub const MAX_ATTEMPTS: u32 = 5;

/// How long failures count together: 60 seconds.
pub const ATTEMPT_WINDOW: u64 = 60_000_000_000;

/// How long an address is locked out: 30 seconds.
pub const LOCKOUT_DURATION: u64 = 30_000_000_000;

/// The failures of an address.
#[derive(Clone, Copy, Debug, PartialEq, Eq, Structural)]
pub struct LoginAttempt {
    pub failure_count: u32,
    pub window_start: u64,
    pub lockout_until: Option<u64>,
}

impl View for LoginAttempt {
    type V = LoginAttempt;

    open spec fn view(&self) -> LoginAttempt {
        *self
    }
}

impl LoginAttempt {
    /// Whether the address is locked out.
    pub open spec fn is_locked(self, now: u64) -> bool {
        match self.lockout_until {
            Some(until) => now < until,
            None => false,
        }
    }

    /// Whether the window of the failures is still open.
    pub open spec fn in_window(self, now: u64) -> bool {
        now <= self.window_start + ATTEMPT_WINDOW
    }

    /// Whether the failures still matter.
    pub open spec fn is_live(self, now: u64) -> bool {
        self.is_locked(now) || self.in_window(now)
    }

    /// The start of a new window.
    pub open spec fn fresh(now: u64) -> LoginAttempt {
        LoginAttempt { failure_count: 0, window_start: now, lockout_until: None }
    }

    /// The failures after one more.
    pub open spec fn failed(self, now: u64) -> LoginAttempt {
        let base = if self.in_window(now) {
            self
        } else {
            LoginAttempt::fresh(now)
        };
        LoginAttempt {
            failure_count: (base.failure_count + 1) as u32,
            window_start: base.window_start,
            lockout_until: if base.failure_count + 1 >= MAX_ATTEMPTS {
                Some((now + LOCKOUT_DURATION) as u64)
            } else {
                base.lockout_until
            },
        }
    }

    fn locked(self, now: u64) -> (locked: bool)
        ensures
            locked == self.is_locked(now),
    {
        match self.lockout_until {
            Some(until) => now < until,
            None => false,
        }
    }

    fn window_open(self, now: u64) -> (open_window: bool)
        ensures
            open_window == self.in_window(now),
    {
        now <= self.window_start || now - self.window_start <= ATTEMPT_WINDOW
    }
}

/// The addresses whose failures still matter.
pub open spec fn live_attempts(store: Map<Seq<char>, LoginAttempt>, now: u64) -> Set<Seq<char>> {
    Set::new(|ip: Seq<char>| store.dom().contains(ip) && store[ip].is_live(now))
}

/// The failures that still matter.
pub open spec fn pruned(store: Map<Seq<char>, LoginAttempt>, now: u64) -> Map<
    Seq<char>,
    LoginAttempt,
> {
    store.restrict(live_attempts(store, now))
}

/// Whether an address is locked out.
pub open spec fn is_limited(store: Map<Seq<char>, LoginAttempt>, ip: Seq<char>, now: u64) -> bool {
    store.dom().contains(ip) && store[ip].is_locked(now)
}

/// The failures after an address was checked: what does not matter any more is forgotten, and so
/// is a lockout of the address that has ended.
pub open spec fn checked(store: Map<Seq<char>, LoginAttempt>, ip: Seq<char>, now: u64) -> Map<
    Seq<char>,
    LoginAttempt,
> {
    let kept = pruned(store, now);
    if kept.dom().contains(ip) && !kept[ip].is_locked(now) {
        kept.insert(ip, LoginAttempt { lockout_until: None, ..kept[ip] })
    } else {
        kept
    }
}

/// The failures of an address that matter at `now`.
pub open spec fn attempt_of(store: Map<Seq<char>, LoginAttempt>, ip: Seq<char>, now: u64) -> LoginAttempt {
    if pruned(store, now).dom().contains(ip) {
        store[ip]
    } else {
        LoginAttempt::fresh(now)
    }
}

/// The failures after one more of an address.
pub open spec fn with_failure(store: Map<Seq<char>, LoginAttempt>, ip: Seq<char>, now: u64) -> Map<
    Seq<char>,
    LoginAttempt,
> {
    pruned(store, now).insert(ip, attempt_of(store, ip, now).failed(now))
}

/// Forgets failures that do not matter any more.
pub fn prune_limiter(store: &mut Table<LoginAttempt>, now: u64)
    requires
        old(store).wf(),
    ensures
        final(store).wf(),
        final(store)@ == pruned(old(store)@, now),
{
    let ghost before = store@;
    let ghost ips = store.keys();
    let mut marks: Vec<bool> = Vec::new();
    proof {
        store.lemma_keys();
    }
    while marks.len() < store.len()
        invariant
            store.wf(),
            ips == store.keys(),
            store@ == before,
            marks@.len() <= ips.len(),
            forall|i: int|
                0 <= i < marks@.len() ==> #[trigger] marks@[i] == before[ips[i]].is_live(now),
        decreases ips.len() - marks@.len(),
    {
        let entry = *store.value_at(marks.len());
        marks.push(entry.locked(now) || entry.window_open(now));
    }
    store.retain_marked(&marks);
    proof {
        assert forall|ip: Seq<char>| before.dom().contains(ip) implies (marked(
            ips,
            marks@,
        ).contains(ip) == live_attempts(before, now).contains(ip)) by {
            let i = ips.index_of(ip);
            assert(ips.contains(ip));
            assert(ips[i] == ip);
            if before[ip].is_live(now) {
                assert(marks@[i]);
            }
        }
        assert(store@ =~= pruned(before, now));
    }
}

/// Whether an address is locked out. What does not matter any more is forgotten.
pub fn is_rate_limited(ip: &str, limiter: &mut Table<LoginAttempt>, now: u64) -> (limited: bool)
    requires
        old(limiter).wf(),
    ensures
        final(limiter).wf(),
        limited == is_limited(old(limiter)@, ip@, now),
        final(limiter)@ == checked(old(limiter)@, ip@, now),
{
    prune_limiter(limiter, now);
    let ghost kept = limiter@;
    match limiter.get_mut(ip) {
        Some(entry) => {
            if entry.locked(now) {
                assert(kept.insert(ip@, kept[ip@]) =~= kept);
                return true;
            }
            entry.lockout_until = None;
        },
        None => {},
    }
    false
}

/// Counts a failure of an address; the fifth within a window locks it out.
pub fn record_failure(ip: &str, limiter: &mut Table<LoginAttempt>, now: u64)
    requires
        old(limiter).wf(),
        now <= u64::MAX - LOCKOUT_DURATION,
        attempt_of(old(limiter)@, ip@, now).failure_count < u32::MAX,
    ensures
        final(limiter).wf(),
        final(limiter)@ == with_failure(old(limiter)@, ip@, now),
{
    prune_limiter(limiter, now);
    let mut entry = match limiter.get(ip) {
        Some(entry) => *entry,
        None => LoginAttempt { failure_count: 0, window_start: now, lockout_until: None },
    };
    if !entry.window_open(now) {
        entry = LoginAttempt { failure_count: 0, window_start: now, lockout_until: None };
    }
    entry.failure_count += 1;
    if entry.failure_count >= MAX_ATTEMPTS {
        entry.lockout_until = Some(now + LOCKOUT_DURATION);
    }
    limiter.insert(ip.to_owned(), entry);
}

/// Forgets the failures of an address.
pub fn reset_failures(ip: &str, limiter: &mut Table<LoginAttempt>)
    requires
        old(limiter).wf(),
    ensures
        final(limiter).wf(),
        final(limiter)@ == old(limiter)@.remove(ip@),
{
    limiter.remove(ip);
}

// ---------------------------------------------------------------------------------------------
// Laws
// ---------------------------------------------------------------------------------------------

/// A failed login at `now`: the address is checked, and the failure is counted.
pub open spec fn attempted(store: Map<Seq<char>, LoginAttempt>, ip: Seq<char>, now: u64) -> Map<
    Seq<char>,
    LoginAttempt,
> {
    with_failure(checked(store, ip, now), ip, now)
}

/// The failures after failed logins at some times.
pub open spec fn attempts(store: Map<Seq<char>, LoginAttempt>, ip: Seq<char>, times: Seq<u64>) -> Map<
    Seq<char>,
    LoginAttempt,
>
    decreases times.len(),
{
    if times.len() == 0 {
        store
    } else {
        attempted(attempts(store, ip, times.drop_last()), ip, times.last())
    }
}

/// Whether the times are in order and fall into one window.
pub open spec fn in_one_window(times: Seq<u64>) -> bool {
    &&& forall|i: int, j: int|
        0 <= i <= j < times.len() ==> #[trigger] times[i] <= #[trigger] times[j]
    &&& forall|i: int| 0 <= i < times.len() ==> #[trigger] times[i] <= times[0] + ATTEMPT_WINDOW
}

proof fn lemma_attempts_count(
    store: Map<Seq<char>, LoginAttempt>,
    ip: Seq<char>,
    times: Seq<u64>,
)
    requires
        0 < times.len() <= MAX_ATTEMPTS,
        in_one_window(times),
        times.last() <= u64::MAX - LOCKOUT_DURATION,
        !pruned(store, times[0]).dom().contains(ip),
    ensures
        attempts(store, ip, times).dom().contains(ip),
        attempts(store, ip, times)[ip] == (LoginAttempt {
            failure_count: times.len() as u32,
            window_start: times[0],
            lockout_until: if times.len() == MAX_ATTEMPTS {
                Some((times.last() + LOCKOUT_DURATION) as u64)
            } else {
                None
            },
        }),
    decreases times.len(),
{
    let rest = times.drop_last();
    let now = times.last();
    if rest.len() > 0 {
        assert(in_one_window(rest)) by {
            assert forall|i: int, j: int| 0 <= i <= j < rest.len() implies #[trigger] rest[i]
                <= #[trigger] rest[j] by {
                assert(times[i] <= times[j]);
            }
            assert forall|i: int| 0 <= i < rest.len() implies #[trigger] rest[i] <= rest[0]
                + ATTEMPT_WINDOW by {
                assert(times[i] <= times[0] + ATTEMPT_WINDOW);
            }
        }
        assert(times[rest.len() - 1] <= times[times.len() - 1]);
        lemma_attempts_count(store, ip, rest);
        let held = attempts(store, ip, rest);
        assert(held[ip].in_window(now));
        let seen = checked(held, ip, now);
        assert(seen.dom().contains(ip) && seen[ip] == held[ip]);
        assert(pruned(seen, now).dom().contains(ip));
        assert(attempt_of(seen, ip, now) == held[ip]);
        assert(attempts(store, ip, times)[ip] == held[ip].failed(now));
        assert(times[0] == rest[0]);
    } else {
        assert(rest =~= seq![]);
        assert(attempts(store, ip, rest) == store);
        let seen = checked(store, ip, now);
        assert(!pruned(seen, now).dom().contains(ip));
        assert(attempts(store, ip, times)[ip] == LoginAttempt::fresh(now).failed(now));
    }
}

/// Five failed logins of an address within one window lock it out, not before the fifth, and for
/// 30 seconds.
pub proof fn law_five_failures_lock_out(
    store: Map<Seq<char>, LoginAttempt>,
    ip: Seq<char>,
    times: Seq<u64>,
    now: u64,
)
    requires
        0 < times.len() <= MAX_ATTEMPTS,
        in_one_window(times),
        times.last() <= u64::MAX - LOCKOUT_DURATION,
        !pruned(store, times[0]).dom().contains(ip),
    ensures
        is_limited(attempts(store, ip, times), ip, now) <==> times.len() == MAX_ATTEMPTS && now
            < times.last() + LOCKOUT_DURATION,
{
    lemma_attempts_count(store, ip, times);
}

/// A successful login clears an address.
pub proof fn law_success_clears_failures(
    store: Map<Seq<char>, LoginAttempt>,
    ip: Seq<char>,
    now: u64,
)
    ensures
        !is_limited(store.remove(ip), ip, now),
{
}

/// Neither a check nor a failure of one address changes whether another is locked out, then or
/// later; a check does not change it for the address itself.
pub proof fn law_addresses_are_independent(
    store: Map<Seq<char>, LoginAttempt>,
    ip: Seq<char>,
    other: Seq<char>,
    now: u64,
    later: u64,
)
    requires
        now <= later,
    ensures
        is_limited(checked(store, ip, now), other, later) == is_limited(store, other, later),
        other != ip ==> is_limited(with_failure(store, ip, now), other, later) == is_limited(
            store,
            other,
            later,
        ),
{
}

/// A lockout ends by itself.
pub proof fn law_lockout_ends(store: Map<Seq<char>, LoginAttempt>, ip: Seq<char>, now: u64)
    requires
        store.dom().contains(ip),
        store[ip].lockout_until is Some,
        now >= store[ip].lockout_until->0,
    ensures
        !is_limited(store, ip, now),
        checked(store, ip, now).dom().contains(ip) ==> checked(
            store,
            ip,
            now,
        )[ip].lockout_until is None,
{
}

/// What a failure counts for: within the window of earlier ones it is one more, and else the first
/// of a new window. From the fifth on it locks the address out for 30 seconds; before that a
/// lockout stays as it is. Other addresses are not touched, unless they do not matter any more.
pub proof fn law_failures_count(
    store: Map<Seq<char>, LoginAttempt>,
    ip: Seq<char>,
    other: Seq<char>,
    now: u64,
)
    requires
        now <= u64::MAX - LOCKOUT_DURATION,
        store.dom().contains(ip) ==> store[ip].failure_count < u32::MAX,
    ensures
        ({
            let after = with_failure(store, ip, now);
            let within = store.dom().contains(ip) && now <= store[ip].window_start
                + 60_000_000_000;
            let count: int = if within {
                store[ip].failure_count + 1
            } else {
                1
            };
            &&& after.dom().contains(ip)
            &&& after[ip].failure_count == count
            &&& within ==> after[ip].window_start == store[ip].window_start
            &&& !within ==> after[ip].window_start == now
            &&& count >= 5 ==> after[ip].lockout_until == Some((now + 30_000_000_000) as u64)
            &&& count < 5 && within ==> after[ip].lockout_until == store[ip].lockout_until
            &&& count < 5 && !within ==> after[ip].lockout_until is None
            &&& other != ip && after.dom().contains(other) ==> store.dom().contains(other)
                && after[other] == store[other]
        }),
{
}

/// Failures are remembered while the address is locked out or their window is open, and no longer;
/// a check removes no more, and clears a lockout of the address that has ended.
pub proof fn law_failures_are_remembered(
    store: Map<Seq<char>, LoginAttempt>,
    ip: Seq<char>,
    other: Seq<char>,
    now: u64,
)
    requires
        store.dom().contains(other),
    ensures
        ({
            let entry = store[other];
            let locked = match entry.lockout_until {
                Some(until) => now < until,
                None => false,
            };
            let open_window = now <= entry.window_start + 60_000_000_000;
            &&& pruned(store, now).dom().contains(other) <==> locked || open_window
            &&& pruned(store, now).dom().contains(other) ==> pruned(store, now)[other] == entry
            &&& checked(store, ip, now).dom().contains(other) <==> locked || open_window
            &&& (locked || other != ip) && checked(store, ip, now).dom().contains(other)
                ==> checked(store, ip, now)[other] == entry
            &&& !locked && other == ip && open_window ==> {
                let cleared = checked(store, ip, now)[ip];
                &&& cleared.lockout_until is None
                &&& cleared.failure_count == entry.failure_count
                &&& cleared.window_start == entry.window_start
            }
            &&& is_limited(store, other, now) <==> locked
        }),
{
}

} // verus!
