//! Dashboard sessions.
//!
//! Points of time are nanoseconds on a clock that never goes back.

use crate::table::Table;
use vstd::prelude::*;
use vstd::string::*;

verus! {

/// How long a session lasts: one hour.
pub const SESSION_SECONDS: u64 = 3600;

/// How long a session lasts, in nanoseconds.
pub const SESSION_NANOS: u64 = 3_600_000_000_000;

/// Whether a token stands for a session that has not ended.
pub open spec fn is_open(sessions: Map<Seq<char>, u64>, token: Option<Seq<char>>, now: u64) -> bool {
    match token {
        Some(token) => sessions.dom().contains(token) && now < sessions[token],
        None => false,
    }
}

/// The sessions without that of a token.
pub open spec fn without(sessions: Map<Seq<char>, u64>, token: Option<Seq<char>>) -> Map<
    Seq<char>,
    u64,
> {
    match token {
        Some(token) => sessions.remove(token),
        None => sessions,
    }
}

/// The sessions after a token was checked: one that has ended is forgotten.
pub open spec fn after_check(sessions: Map<Seq<char>, u64>, token: Option<Seq<char>>, now: u64) -> Map<
    Seq<char>,
    u64,
> {
    if is_open(sessions, token, now) {
        sessions
    } else {
        without(sessions, token)
    }
}

/// The text of an optional token.
pub open spec fn token_text(token: Option<&str>) -> Option<Seq<char>> {
    match token {
        Some(token) => Some(token@),
        None => None,
    }
}

/// The open sessions, by their tokens.
pub struct Sessions {
    expiries: Table<u64>,
}

impl View for Sessions {
    type V = Map<Seq<char>, u64>;

    closed spec fn view(&self) -> Map<Seq<char>, u64> {
        self.expiries@
    }
}

impl Sessions {
    /// The table is in order.
    pub closed spec fn wf(self) -> bool {
        self.expiries.wf()
    }

    /// No sessions.
    pub fn new() -> (sessions: Sessions)
        ensures
            sessions.wf(),
            sessions@ == Map::<Seq<char>, u64>::empty(),
    {
        Sessions { expiries: Table::new() }
    }

    /// Starts a session at `now`.
    pub fn start(&mut self, token: String, now: u64)
        requires
            old(self).wf(),
            now <= u64::MAX - SESSION_NANOS,
        ensures
            final(self).wf(),
            final(self)@ == old(self)@.insert(token@, (now + SESSION_NANOS) as u64),
    {
        self.expiries.insert(token, now + SESSION_NANOS);
    }

    /// Ends the session of a token, if there is one.
    pub fn revoke(&mut self, token: Option<&str>)
        requires
            old(self).wf(),
        ensures
            final(self).wf(),
            final(self)@ == without(old(self)@, token_text(token)),
    {
        match token {
            Some(token) => {
                self.expiries.remove(token);
            },
            None => {},
        }
    }

    /// Whether a token stands for a session that has not ended; one that has is forgotten.
    pub fn is_authenticated(&mut self, token: Option<&str>, now: u64) -> (authenticated: bool)
        requires
            old(self).wf(),
        ensures
            final(self).wf(),
            authenticated == is_open(old(self)@, token_text(token), now),
            final(self)@ == after_check(old(self)@, token_text(token), now),
    {
        let token = match token {
            Some(token) => token,
            None => {
                return false;
            },
        };
        match self.expiries.get(token) {
            Some(expiry) => {
                if now < *expiry {
                    return true;
                }
            },
            None => {},
        }
        self.expiries.remove(token);
        false
    }
}

// ---------------------------------------------------------------------------------------------
// Laws
// ---------------------------------------------------------------------------------------------

/// A session is open from its start for one hour, and not after.
pub proof fn law_session_lasts_an_hour(
    sessions: Map<Seq<char>, u64>,
    token: Seq<char>,
    start: u64,
    now: u64,
)
    requires
        start <= u64::MAX - SESSION_NANOS,
    ensures
        is_open(
            sessions.insert(token, (start + SESSION_NANOS) as u64),
            Some(token),
            now,
        ) <==> now < start + SESSION_NANOS,
{
}

/// A session that was ended is not open.
pub proof fn law_revoked_session_is_closed(
    sessions: Map<Seq<char>, u64>,
    token: Seq<char>,
    now: u64,
)
    ensures
        !is_open(without(sessions, Some(token)), Some(token), now),
{
}

/// A check changes neither its own answer nor that for other tokens, then or later.
pub proof fn law_check_keeps_sessions(
    sessions: Map<Seq<char>, u64>,
    token: Option<Seq<char>>,
    other: Option<Seq<char>>,
    now: u64,
    later: u64,
)
    requires
        now <= later,
    ensures
        is_open(after_check(sessions, token, now), other, later) == is_open(
            sessions,
            other,
            later,
        ),
{
}

/// A text that may be missing is read as it is.
pub proof fn law_optional_tokens(token: &str)
    ensures
        token_text(Some(token)) == Some(token@),
        token_text(None) is None,
{
}

} // verus!
