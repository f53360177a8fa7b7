//! A whole pass of the engine over a log entry or a tick: what is to be done in turn.
//!
//! The engine cannot compute rates or run commands itself. A pass names one thing at a time that it
//! needs; with the answer it goes on.

use crate::bans::{BanRecord, BanView};
use crate::clock::Timestamp;
use crate::engine::{DetectionEngine, DueMoments, DueSamples, Observation};
use crate::events::{Event, EventView, OccurrenceView};
use crate::runs::{run, EntryView, Step};
use crate::state::{EngineView, GlobalFigures, IpFigures, MomentsView};
use crate::table::{in_order, lists};
use vstd::prelude::*;

verus! {

// ---------------------------------------------------------------------------------------------
// Model
// ---------------------------------------------------------------------------------------------

/// What a pass needs next, as a mathematical value.
pub enum PassView {
    /// All traffic is to be judged, and then an address.
    JudgeAll(Seq<char>, Timestamp),
    /// An address is to be judged.
    JudgeAddress(Seq<char>, Timestamp),
    /// The address of a ban is to be blocked. The figures led to the ban.
    Block(BanView, IpFigures, Timestamp),
    /// The baselines are to be recalculated.
    Recalculate(Timestamp),
    /// Nothing.
    Done,
}

/// An answer to a pass, as a mathematical value.
pub enum PassAnswerView {
    All(GlobalFigures),
    Address(IpFigures),
    Blocked(bool),
    Moments(MomentsView),
}

/// What a pass needs at its end: a recalculation, where one is due.
pub open spec fn last_need(state: EngineView, now: Timestamp) -> PassView {
    if state.global_baseline.is_due(now) {
        PassView::Recalculate(now)
    } else {
        PassView::Done
    }
}

/// An alert on all traffic.
pub open spec fn alert_event(state: EngineView, figures: GlobalFigures) -> EventView {
    EventView {
        what: OccurrenceView::GlobalAlert,
        rate: figures.rate,
        baseline: state.global_baseline.current.mean.value,
    }
}

/// A ban that is put in force.
pub open spec fn ban_event(state: EngineView, ban: BanView, figures: IpFigures) -> EventView {
    EventView {
        what: OccurrenceView::Ban(ban),
        rate: figures.rate,
        baseline: state.baseline_of(ban.ip).current.mean.value,
    }
}

/// A recalculation that led to a state.
pub open spec fn recalculation_event(after: EngineView) -> EventView {
    let stats = after.global_baseline.current;
    EventView {
        what: OccurrenceView::Recalculated(stats.hour_slot),
        rate: stats.mean.value,
        baseline: stats.mean.value,
    }
}

/// Whether an answer is one to what a pass needs.
pub open spec fn answers(need: PassView, answer: PassAnswerView) -> bool {
    match need {
        PassView::JudgeAll(_, _) => answer is All,
        PassView::JudgeAddress(_, _) => answer is Address,
        PassView::Block(_, _, _) => answer is Blocked,
        PassView::Recalculate(_) => answer is Moments,
        PassView::Done => false,
    }
}

/// The state after an answer, what is needed next, and what has happened: all traffic is judged,
/// then the address; where that leads to a ban, the address is blocked, and the ban is in force if
/// that succeeded; then the baselines are recalculated, if that is due.
pub open spec fn advanced(state: EngineView, need: PassView, answer: PassAnswerView) -> (
    EngineView,
    PassView,
    Option<EventView>,
) {
    match (need, answer) {
        (PassView::JudgeAll(ip, now), PassAnswerView::All(figures)) => (
            state.global_judged(now, figures),
            PassView::JudgeAddress(ip, now),
            if state.raises_alert(now, figures) {
                Some(alert_event(state, figures))
            } else {
                None
            },
        ),
        (PassView::JudgeAddress(ip, now), PassAnswerView::Address(figures)) => {
            let after = state.ip_judged(ip, now, figures);
            (
                after,
                if state.raises_ban(ip, figures) {
                    PassView::Block(
                        state.next_ban(ip, now, figures.condition()),
                        figures,
                        now,
                    )
                } else {
                    last_need(after, now)
                },
                None,
            )
        },
        (PassView::Block(ban, figures, now), PassAnswerView::Blocked(blocked)) => {
            let after = if blocked {
                state.with_ban(ban)
            } else {
                state
            };
            (
                after,
                last_need(after, now),
                if blocked {
                    Some(ban_event(state, ban, figures))
                } else {
                    None
                },
            )
        },
        (PassView::Recalculate(now), PassAnswerView::Moments(moments)) => {
            let after = state.recalculated(now, moments);
            (after, PassView::Done, Some(recalculation_event(after)))
        },
        _ => (state, need, None),
    }
}

// ---------------------------------------------------------------------------------------------
// Data
// ---------------------------------------------------------------------------------------------

/// What a pass needs next.
#[must_use]
pub enum PassStep {
    /// The figures of all traffic, by which it is judged.
    JudgeAll(Observation),
    /// The figures of the address, by which it is judged.
    JudgeAddress(Observation),
    /// The address of the ban is to be blocked. The figures led to the ban.
    Block(BanRecord, IpFigures, Timestamp),
    /// Mean and standard deviation of the samples.
    Recalculate(DueSamples, Timestamp),
    /// Nothing.
    Done,
}

/// An answer to a pass.
pub enum PassAnswer {
    /// The figures of all traffic.
    All(GlobalFigures),
    /// The figures of the address.
    Address(IpFigures),
    /// Whether the address was blocked.
    Blocked(bool),
    /// Mean and standard deviation of the samples.
    Moments(DueMoments),
}

impl View for PassStep {
    type V = PassView;

    open spec fn view(&self) -> PassView {
        match self {
            PassStep::JudgeAll(seen) => PassView::JudgeAll(seen.ip@, seen.now),
            PassStep::JudgeAddress(seen) => PassView::JudgeAddress(seen.ip@, seen.now),
            PassStep::Block(ban, figures, now) => PassView::Block(ban@, *figures, *now),
            PassStep::Recalculate(_, now) => PassView::Recalculate(*now),
            PassStep::Done => PassView::Done,
        }
    }
}

impl View for PassAnswer {
    type V = PassAnswerView;

    open spec fn view(&self) -> PassAnswerView {
        match self {
            PassAnswer::All(figures) => PassAnswerView::All(*figures),
            PassAnswer::Address(figures) => PassAnswerView::Address(*figures),
            PassAnswer::Blocked(blocked) => PassAnswerView::Blocked(*blocked),
            PassAnswer::Moments(moments) => PassAnswerView::Moments(moments@),
        }
    }
}

impl PassStep {
    /// Whether the step hands out what the state shows, at a time on the calendar.
    pub open spec fn fits(self, state: EngineView) -> bool {
        match self {
            PassStep::JudgeAll(seen) => seen.shows(state, seen.ip@, seen.now)
                && seen.now.is_valid(),
            PassStep::JudgeAddress(seen) => seen.shows(state, seen.ip@, seen.now)
                && seen.now.is_valid(),
            PassStep::Block(ban, _, now) => now.is_valid() && (ban.expires_at matches Some(end)
                ==> end.is_valid()),
            PassStep::Recalculate(samples, now) => now.is_valid() && state.global_baseline.is_due(
                now,
            ) && samples.are_of(state, now),
            PassStep::Done => true,
        }
    }

    /// Whether an answer can be taken: it is one to this step, a ban that it leads to can be
    /// counted and dated, and it has the moments of every address.
    pub open spec fn takes(self, state: EngineView, answer: PassAnswer) -> bool {
        &&& answers(self@, answer@)
        &&& self matches PassStep::JudgeAddress(seen) ==> (state.raises_ban(
            seen.ip@,
            answer->Address_0,
        ) ==> state.can_ban(seen.ip@, seen.now))
        &&& self matches PassStep::Recalculate(samples, _) ==> {
            let moments = answer->Moments_0;
            &&& moments.ips.wf()
            &&& forall|i: int|
                0 <= i < samples.ips@.len() ==> moments.ips@.dom().contains(
                    (#[trigger] samples.ips@[i]).0@,
                )
        }
    }
}

impl DetectionEngine {
    /// The last step of a pass: a recalculation, where one is due.
    pub(crate) fn finish_pass(&self, now: Timestamp) -> (step: PassStep)
        requires
            self.wf(),
            now.is_valid(),
        ensures
            step@ == last_need(self@, now),
            step.fits(self@),
    {
        match self.due_samples(now) {
            Some(samples) => PassStep::Recalculate(samples, now),
            None => PassStep::Done,
        }
    }

    /// Goes on with a pass: takes the answer to a step, and gives the next step and what has
    /// happened.
    pub fn advance(&mut self, step: PassStep, answer: PassAnswer) -> (next: (
        PassStep,
        Option<Event>,
    ))
        requires
            old(self).wf(),
            step.fits(old(self)@),
            step.takes(old(self)@, answer),
        ensures
            final(self).wf(),
            next.0.fits(final(self)@),
            ({
                let (state, need, event) = advanced(old(self)@, step@, answer@);
                &&& final(self)@ == state
                &&& next.0@ == need
                &&& match next.1 {
                    Some(happened) => event == Some(happened@),
                    None => event is None,
                }
            }),
    {
        match (step, answer) {
            (PassStep::JudgeAll(seen), PassAnswer::All(figures)) => {
                let event = self.detect_global(seen.now, figures);
                (PassStep::JudgeAddress(seen), event)
            },
            (PassStep::JudgeAddress(seen), PassAnswer::Address(figures)) => {
                match self.detect_ip(seen.ip.as_str(), seen.now, figures) {
                    Some(ban) => (PassStep::Block(ban, figures, seen.now), None),
                    None => (self.finish_pass(seen.now), None),
                }
            },
            (PassStep::Block(ban, figures, now), PassAnswer::Blocked(blocked)) => {
                let event = self.confirm_ban(ban, blocked, figures);
                (self.finish_pass(now), event)
            },
            (PassStep::Recalculate(samples, now), PassAnswer::Moments(moments)) => {
                proof {
                    self.lemma_wf();
                    let ips = in_order(self@.ip_baselines.dom());
                    assert forall|ip: Seq<char>| #[trigger]
                        self@.active_baselines().contains(
                            ip,
                        ) implies moments.ips@.dom().contains(ip) by {
                        assert(ips.contains(ip));
                        let i = ips.index_of(ip);
                        assert(ips[i] == ip);
                        assert(samples.ips@[i].0@ == ip);
                    }
                }
                let event = self.maybe_recalculate(now, &moments);
                (PassStep::Done, event)
            },
            (step, _) => (step, None),
        }
    }
}

// ---------------------------------------------------------------------------------------------
// Laws
// ---------------------------------------------------------------------------------------------

/// The answers to what a pass may need.
pub struct Answers {
    pub all: GlobalFigures,
    pub address: IpFigures,
    pub blocked: bool,
    pub moments: MomentsView,
}

impl Answers {
    /// The answer to what a pass needs.
    pub open spec fn to(self, need: PassView) -> PassAnswerView {
        match need {
            PassView::JudgeAll(_, _) => PassAnswerView::All(self.all),
            PassView::JudgeAddress(_, _) => PassAnswerView::Address(self.address),
            PassView::Block(_, _, _) => PassAnswerView::Blocked(self.blocked),
            _ => PassAnswerView::Moments(self.moments),
        }
    }
}

/// How many steps a pass may still take.
pub open spec fn steps_left(need: PassView) -> nat {
    match need {
        PassView::JudgeAll(_, _) => 4,
        PassView::JudgeAddress(_, _) => 3,
        PassView::Block(_, _, _) => 2,
        PassView::Recalculate(_) => 1,
        PassView::Done => 0,
    }
}

/// The state after the rest of a pass, and what has happened in it.
pub open spec fn finished(state: EngineView, need: PassView, given: Answers) -> (
    EngineView,
    Seq<EventView>,
)
    decreases steps_left(need),
{
    if need is Done {
        (state, seq![])
    } else {
        let (after, next, event) = advanced(state, need, given.to(need));
        let (end, events) = finished(after, next, given);
        match event {
            Some(event) => (end, seq![event] + events),
            None => (end, events),
        }
    }
}

/// The steps of a pass over a log entry.
pub open spec fn entry_steps(state: EngineView, entry: EntryView, given: Answers) -> Seq<Step> {
    let judged = state.observed(entry.ip, entry.time, entry.status).global_judged(
        entry.time,
        given.all,
    );
    let ban = judged.next_ban(entry.ip, entry.time, given.address.condition());
    let opening = seq![
        Step::Entry(entry),
        Step::GlobalJudged(entry.time, given.all),
        Step::IpJudged(entry.ip, entry.time, given.address),
    ];
    let banned = if judged.raises_ban(entry.ip, given.address) && given.blocked {
        opening.push(Step::Banned(ban))
    } else {
        opening
    };
    banned.push(Step::Recalculated(entry.time, given.moments))
}

proof fn lemma_run_push(state: EngineView, steps: Seq<Step>, step: Step)
    ensures
        run(state, steps.push(step)) == step.taken(run(state, steps)),
{
    assert(steps.push(step).drop_last() =~= steps);
}

/// A pass over a log entry takes the entry in, judges all traffic, judges the address, puts the ban
/// that this leads to in force if the address was blocked, and recalculates the baselines if that
/// is due, in this order. An alert, a ban in force and a recalculation are reported, in this order.
pub proof fn law_entry_pass(state: EngineView, entry: EntryView, given: Answers)
    ensures
        ({
            let seen = state.observed(entry.ip, entry.time, entry.status);
            let judged = seen.global_judged(entry.time, given.all);
            let struck = judged.ip_judged(entry.ip, entry.time, given.address);
            let ban = judged.next_ban(entry.ip, entry.time, given.address.condition());
            let in_force = judged.raises_ban(entry.ip, given.address) && given.blocked;
            let banned = if in_force {
                struck.with_ban(ban)
            } else {
                struck
            };
            let end = banned.recalculated(entry.time, given.moments);
            let alerts = if seen.raises_alert(entry.time, given.all) {
                seq![alert_event(seen, given.all)]
            } else {
                seq![]
            };
            let bans = if in_force {
                seq![ban_event(struck, ban, given.address)]
            } else {
                seq![]
            };
            let recalculations = if banned.global_baseline.is_due(entry.time) {
                seq![recalculation_event(end)]
            } else {
                seq![]
            };
            let pass = finished(seen, PassView::JudgeAll(entry.ip, entry.time), given);
            &&& pass.0 == end
            &&& pass.1 == alerts + bans + recalculations
            &&& end == run(state, entry_steps(state, entry, given))
        }),
{
    lemma_pass_end(state, entry, given);
    lemma_pass_is_run(state, entry, given);
}

proof fn lemma_last_need(state: EngineView, now: Timestamp, given: Answers)
    ensures
        ({
            let end = state.recalculated(now, given.moments);
            let pass = finished(state, last_need(state, now), given);
            &&& pass.0 == end
            &&& pass.1 == if state.global_baseline.is_due(now) {
                seq![recalculation_event(end)]
            } else {
                seq![]
            }
        }),
{
    let need = last_need(state, now);
    if state.global_baseline.is_due(now) {
        let end = state.recalculated(now, given.moments);
        assert(finished(end, PassView::Done, given) == (end, Seq::<EventView>::empty()));
        let pass = finished(state, need, given);
        assert(pass.1 =~= seq![recalculation_event(end)]);
    }
}

proof fn lemma_address_pass(
    state: EngineView,
    ip: Seq<char>,
    now: Timestamp,
    given: Answers,
)
    ensures
        ({
            let struck = state.ip_judged(ip, now, given.address);
            let ban = state.next_ban(ip, now, given.address.condition());
            let in_force = state.raises_ban(ip, given.address) && given.blocked;
            let banned = if in_force {
                struck.with_ban(ban)
            } else {
                struck
            };
            let rest = finished(banned, last_need(banned, now), given);
            let bans = if in_force {
                seq![ban_event(struck, ban, given.address)]
            } else {
                seq![]
            };
            finished(state, PassView::JudgeAddress(ip, now), given) == (rest.0, bans + rest.1)
        }),
{
    let struck = state.ip_judged(ip, now, given.address);
    let ban = state.next_ban(ip, now, given.address.condition());
    let need = PassView::Block(ban, given.address, now);
    let pass = finished(state, PassView::JudgeAddress(ip, now), given);
    if state.raises_ban(ip, given.address) {
        assert(pass == finished(struck, need, given));
        let banned = if given.blocked {
            struck.with_ban(ban)
        } else {
            struck
        };
        let rest = finished(banned, last_need(banned, now), given);
        if given.blocked {
            assert(pass == (rest.0, seq![ban_event(struck, ban, given.address)] + rest.1));
        } else {
            assert(pass == rest);
            assert(Seq::<EventView>::empty() + rest.1 =~= rest.1);
        }
    } else {
        let rest = finished(struck, last_need(struck, now), given);
        assert(pass == rest);
        assert(Seq::<EventView>::empty() + rest.1 =~= rest.1);
    }
}

proof fn lemma_pass_end(state: EngineView, entry: EntryView, given: Answers)
    ensures
        ({
            let seen = state.observed(entry.ip, entry.time, entry.status);
            let judged = seen.global_judged(entry.time, given.all);
            let struck = judged.ip_judged(entry.ip, entry.time, given.address);
            let ban = judged.next_ban(entry.ip, entry.time, given.address.condition());
            let in_force = judged.raises_ban(entry.ip, given.address) && given.blocked;
            let banned = if in_force {
                struck.with_ban(ban)
            } else {
                struck
            };
            let end = banned.recalculated(entry.time, given.moments);
            let alerts = if seen.raises_alert(entry.time, given.all) {
                seq![alert_event(seen, given.all)]
            } else {
                seq![]
            };
            let bans = if in_force {
                seq![ban_event(struck, ban, given.address)]
            } else {
                seq![]
            };
            let recalculations = if banned.global_baseline.is_due(entry.time) {
                seq![recalculation_event(end)]
            } else {
                seq![]
            };
            let pass = finished(seen, PassView::JudgeAll(entry.ip, entry.time), given);
            &&& pass.0 == end
            &&& pass.1 == alerts + bans + recalculations
        }),
{
    let seen = state.observed(entry.ip, entry.time, entry.status);
    let judged = seen.global_judged(entry.time, given.all);
    let struck = judged.ip_judged(entry.ip, entry.time, given.address);
    let ban = judged.next_ban(entry.ip, entry.time, given.address.condition());
    let in_force = judged.raises_ban(entry.ip, given.address) && given.blocked;
    let banned = if in_force {
        struck.with_ban(ban)
    } else {
        struck
    };
    lemma_address_pass(judged, entry.ip, entry.time, given);
    lemma_last_need(banned, entry.time, given);
    let tail = finished(judged, PassView::JudgeAddress(entry.ip, entry.time), given);
    let pass = finished(seen, PassView::JudgeAll(entry.ip, entry.time), given);
    let bans: Seq<EventView> = if in_force {
        seq![ban_event(struck, ban, given.address)]
    } else {
        seq![]
    };
    let rest = finished(banned, last_need(banned, entry.time), given);
    if seen.raises_alert(entry.time, given.all) {
        let alert = seq![alert_event(seen, given.all)];
        assert(pass == (tail.0, alert + tail.1));
        assert(alert + (bans + rest.1) =~= alert + bans + rest.1);
    } else {
        assert(pass == tail);
        assert(bans + rest.1 =~= Seq::<EventView>::empty() + bans + rest.1);
    }
}

proof fn lemma_pass_is_run(state: EngineView, entry: EntryView, given: Answers)
    ensures
        ({
            let seen = state.observed(entry.ip, entry.time, entry.status);
            let judged = seen.global_judged(entry.time, given.all);
            let struck = judged.ip_judged(entry.ip, entry.time, given.address);
            let ban = judged.next_ban(entry.ip, entry.time, given.address.condition());
            let banned = if judged.raises_ban(entry.ip, given.address) && given.blocked {
                struck.with_ban(ban)
            } else {
                struck
            };
            run(state, entry_steps(state, entry, given)) == banned.recalculated(
                entry.time,
                given.moments,
            )
        }),
{
    let judged = state.observed(entry.ip, entry.time, entry.status).global_judged(
        entry.time,
        given.all,
    );
    let ban = judged.next_ban(entry.ip, entry.time, given.address.condition());
    let none = Seq::<Step>::empty();
    let one = none.push(Step::Entry(entry));
    let two = one.push(Step::GlobalJudged(entry.time, given.all));
    let three = two.push(Step::IpJudged(entry.ip, entry.time, given.address));
    assert(run(state, none) == state);
    lemma_run_push(state, none, Step::Entry(entry));
    lemma_run_push(state, one, Step::GlobalJudged(entry.time, given.all));
    lemma_run_push(state, two, Step::IpJudged(entry.ip, entry.time, given.address));
    assert(three =~= seq![
        Step::Entry(entry),
        Step::GlobalJudged(entry.time, given.all),
        Step::IpJudged(entry.ip, entry.time, given.address),
    ]);
    let four = if judged.raises_ban(entry.ip, given.address) && given.blocked {
        three.push(Step::Banned(ban))
    } else {
        three
    };
    lemma_run_push(state, three, Step::Banned(ban));
    lemma_run_push(state, four, Step::Recalculated(entry.time, given.moments));
    assert(entry_steps(state, entry, given) == four.push(
        Step::Recalculated(entry.time, given.moments),
    ));
}

/// A pass over a tick takes the tick in, and then recalculates the baselines if that is due, which
/// alone is reported.
pub proof fn law_tick_pass(state: EngineView, now: Timestamp, given: Answers)
    ensures
        ({
            let ticked = state.ticked(now);
            let end = ticked.recalculated(now, given.moments);
            let pass = finished(ticked, last_need(ticked, now), given);
            &&& pass.0 == end
            &&& pass.1 == if ticked.global_baseline.is_due(now) {
                seq![recalculation_event(end)]
            } else {
                seq![]
            }
        }),
{
    lemma_last_need(state.ticked(now), now, given);
}

/// The state after attempts to end some bans, each with its outcome.
pub open spec fn unbanned(state: EngineView, bans: Seq<BanView>, outcomes: Seq<bool>) -> EngineView
    decreases bans.len(),
{
    if bans.len() == 0 {
        state
    } else {
        let before = unbanned(state, bans.drop_last(), outcomes);
        if outcomes[bans.len() - 1] {
            before.without_ban(bans.last().ip)
        } else {
            before
        }
    }
}

/// Whether the ban of an address was ended.
pub open spec fn was_ended(bans: Seq<BanView>, outcomes: Seq<bool>, ip: Seq<char>) -> bool {
    exists|i: int| 0 <= i < bans.len() && (#[trigger] bans[i]).ip == ip && outcomes[i]
}

/// After a check for expired bans, an address is banned if and only if it was, and its ban has not
/// expired or could not be ended; the other bans and all else are as before.
pub proof fn law_unban_pass(
    state: EngineView,
    now: Timestamp,
    outcomes: Seq<bool>,
    ip: Seq<char>,
)
    requires
        lists(in_order(state.bans.dom()), state.bans.dom()),
        forall|k: Seq<char>| #[trigger] state.bans.dom().contains(k) ==> state.bans[k].ip == k,
    ensures
        ({
            let after = unbanned(state, state.expired(now), outcomes);
            &&& after == (EngineView { bans: after.bans, ..state })
            &&& after.is_banned(ip) <==> state.is_banned(ip) && !was_ended(
                state.expired(now),
                outcomes,
                ip,
            )
            &&& was_ended(state.expired(now), outcomes, ip) ==> state.is_banned(ip)
                && state.bans[ip].has_expired(now)
            &&& after.is_banned(ip) ==> after.bans[ip] == state.bans[ip]
        }),
{
    let over = state.expired(now);
    lemma_unbanned(state, over, outcomes, ip);
    if was_ended(over, outcomes, ip) {
        let i = choose|i: int| 0 <= i < over.len() && (#[trigger] over[i]).ip == ip && outcomes[i];
        let ips = in_order(state.bans.dom());
        let expired = |k: Seq<char>| state.bans[k].has_expired(now);
        let kept = ips.filter(expired);
        ips.lemma_filter_pred(expired, i);
        ips.lemma_filter_contains_rev(expired, kept[i]);
        assert(ips.contains(kept[i]));
        assert(state.bans.dom().contains(kept[i]));
        assert(over[i] == state.bans[kept[i]]);
    }
}

proof fn lemma_unbanned(
    state: EngineView,
    bans: Seq<BanView>,
    outcomes: Seq<bool>,
    ip: Seq<char>,
)
    ensures
        ({
            let after = unbanned(state, bans, outcomes);
            &&& after == (EngineView { bans: after.bans, ..state })
            &&& after.is_banned(ip) <==> state.is_banned(ip) && !was_ended(bans, outcomes, ip)
            &&& after.is_banned(ip) ==> after.bans[ip] == state.bans[ip]
        }),
    decreases bans.len(),
{
    if bans.len() > 0 {
        let rest = bans.drop_last();
        lemma_unbanned(state, rest, outcomes, ip);
        if was_ended(rest, outcomes, ip) {
            let i = choose|i: int|
                0 <= i < rest.len() && (#[trigger] rest[i]).ip == ip && outcomes[i];
            assert(bans[i] == rest[i]);
        }
        if was_ended(bans, outcomes, ip) {
            let i = choose|i: int|
                0 <= i < bans.len() && (#[trigger] bans[i]).ip == ip && outcomes[i];
            if i < rest.len() {
                assert(rest[i] == bans[i]);
            }
        }
        if bans.last().ip == ip && outcomes[bans.len() - 1] {
            assert(bans[bans.len() - 1].ip == ip);
        }
    }
}

} // verus!
