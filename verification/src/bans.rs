//! Bans, strikes and the schedule of ban durations.

use crate::clock::Timestamp;
use crate::table::Table;
use crate::text::{push_signed, signed_decimal};
use vstd::prelude::*;
use vstd::string::*;

verus! {

/// A ban, as a mathematical value.
pub struct BanView {
    pub ip: Seq<char>,
    pub strike_count: nat,
    pub condition: Seq<char>,
    pub expires_at: Option<Timestamp>,
    pub duration_label: Seq<char>,
}

/// A ban of an address. Without an end it is permanent.
#[derive(Debug)]
pub struct BanRecord {
    pub ip: String,
    pub strike_count: usize,
    pub condition: String,
    pub expires_at: Option<Timestamp>,
    pub duration_label: String,
}

impl View for BanRecord {
    type V = BanView;

    open spec fn view(&self) -> BanView {
        BanView {
            ip: self.ip@,
            strike_count: self.strike_count as nat,
            condition: self.condition@,
            expires_at: self.expires_at,
            duration_label: self.duration_label@,
        }
    }
}

impl Clone for BanRecord {
    fn clone(&self) -> (copy: Self)
        ensures
            copy@ == self@,
    {
        BanRecord {
            ip: self.ip.clone(),
            strike_count: self.strike_count,
            condition: self.condition.clone(),
            expires_at: self.expires_at,
            duration_label: self.duration_label.clone(),
        }
    }
}

impl BanView {
    /// Whether the ban has an end, and it has come.
    pub open spec fn has_expired(self, now: Timestamp) -> bool {
        match self.expires_at {
            Some(end) => !now.is_before(end),
            None => false,
        }
    }
}

/// How often an address was banned, and when last.
#[derive(Clone, Copy, Debug)]
pub struct StrikeRecord {
    pub count: usize,
    pub last_seen: Timestamp,
}

impl View for StrikeRecord {
    type V = StrikeRecord;

    open spec fn view(&self) -> StrikeRecord {
        *self
    }
}

/// Whether a strike is remembered: the address is banned, or was banned at or after `cutoff`.
pub open spec fn strike_stays(
    ip: Seq<char>,
    record: StrikeRecord,
    banned: Set<Seq<char>>,
    cutoff: Timestamp,
) -> bool {
    banned.contains(ip) || !record.last_seen.is_before(cutoff)
}

/// Whether a strike is remembered.
pub fn should_retain_strike(
    ip: &str,
    record: &StrikeRecord,
    banned_ips: &Table<BanRecord>,
    cutoff: Timestamp,
) -> (stays: bool)
    requires
        banned_ips.wf(),
    ensures
        stays == strike_stays(ip@, *record, banned_ips@.dom(), cutoff),
{
    banned_ips.contains_key(ip) || !record.last_seen.before(cutoff)
}

/// The whole minutes, toward zero, of a number of seconds.
pub open spec fn whole_minutes(seconds: int) -> int {
    if seconds < 0 {
        -((-seconds) / 60)
    } else {
        seconds / 60
    }
}

/// A ban duration as text: minutes below one hour, else whole hours.
pub open spec fn duration_text(seconds: int) -> Seq<char> {
    let minutes = whole_minutes(seconds);
    if minutes < 60 {
        signed_decimal(minutes) + "m"@
    } else {
        signed_decimal(minutes / 60) + "h"@
    }
}

/// The text of a ban duration in seconds.
pub fn format_ban_duration(seconds: i64) -> (text: String)
    requires
        seconds > i64::MIN,
    ensures
        text@ == duration_text(seconds as int),
{
    let minutes: i64 = if seconds < 0 {
        -((-seconds) / 60)
    } else {
        seconds / 60
    };
    let mut text = String::new();
    if minutes < 60 {
        push_signed(&mut text, minutes);
        text.append("m");
    } else {
        push_signed(&mut text, minutes / 60);
        text.append("h");
    }
    assert(text@ =~= duration_text(seconds as int));
    text
}

} // verus!
