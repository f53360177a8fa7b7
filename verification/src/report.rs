//! Texts of the audit trail and figures of the host.

use crate::baseline::last_n;
use crate::clock::{rfc3339_text, to_rfc3339, Timestamp};
use crate::text::{
    chars_of, decimal, is_white, law_lines, law_words, lines, parse_u64, parsed_u64, push_decimal,
    push_two_digits, split_lines, split_words, text_of, texts, two_digits, views, words,
};
use vstd::prelude::*;
use vstd::string::*;

verus! {

/// How many lines of the audit trail are shown.
pub const AUDIT_TAIL: usize = 12;

// ---------------------------------------------------------------------------------------------
// Durations
// ---------------------------------------------------------------------------------------------

/// A duration as hours, minutes and seconds; a negative one counts as none.
pub open spec fn clock_text(seconds: int) -> Seq<char> {
    let total = if seconds < 0 {
        0
    } else {
        seconds
    };
    decimal((total / 3600) as nat) + ":"@ + two_digits((total % 3600 / 60) as nat) + ":"@
        + two_digits((total % 60) as nat)
}

/// The text of a duration in seconds.
pub fn format_duration(seconds: i64) -> (text: String)
    ensures
        text@ == clock_text(seconds as int),
{
    let total: u64 = if seconds < 0 {
        0
    } else {
        seconds as u64
    };
    let mut text = String::new();
    push_decimal(&mut text, total / 3600);
    text.append(":");
    push_two_digits(&mut text, total % 3600 / 60);
    text.append(":");
    push_two_digits(&mut text, total % 60);
    assert(text@ =~= clock_text(seconds as int));
    text
}

// ---------------------------------------------------------------------------------------------
// Audit trail
// ---------------------------------------------------------------------------------------------

/// One event of the audit trail. The rates are given as text.
#[derive(Debug)]
pub struct AuditRecord {
    pub time: Timestamp,
    pub action: String,
    pub ip_address: String,
    pub condition: String,
    pub rate: String,
    pub baseline: String,
    pub duration: String,
}

/// A line of the audit trail.
pub open spec fn audit_row(
    time: Timestamp,
    action: Seq<char>,
    ip_address: Seq<char>,
    condition: Seq<char>,
    rate: Seq<char>,
    baseline: Seq<char>,
    duration: Seq<char>,
) -> Seq<char> {
    "["@ + rfc3339_text(time.seconds, time.nanos) + "] "@ + action + " "@ + ip_address + " | "@
        + condition + " | "@ + rate + " | "@ + baseline + " | "@ + duration + "\n"@
}

/// The line of an event.
pub open spec fn audit_text(record: AuditRecord) -> Seq<char> {
    audit_row(
        record.time,
        record.action@,
        record.ip_address@,
        record.condition@,
        record.rate@,
        record.baseline@,
        record.duration@,
    )
}

/// The line of an event.
pub fn audit_line(record: &AuditRecord) -> (line: String)
    requires
        record.time.is_valid(),
    ensures
        line@ == audit_text(*record),
{
    let mut line = "[".to_owned();
    line.append(to_rfc3339(record.time).as_str());
    line.append("] ");
    line.append(record.action.as_str());
    line.append(" ");
    line.append(record.ip_address.as_str());
    line.append(" | ");
    line.append(record.condition.as_str());
    line.append(" | ");
    line.append(record.rate.as_str());
    line.append(" | ");
    line.append(record.baseline.as_str());
    line.append(" | ");
    line.append(record.duration.as_str());
    line.append("\n");
    line
}

/// The last lines of the audit trail.
pub fn tail_audit(raw: &str) -> (tail: Vec<String>)
    ensures
        texts(tail@) == last_n(lines(raw@), AUDIT_TAIL as nat),
{
    let chars = chars_of(raw);
    let rows = split_lines(chars.as_slice());
    let start: usize = if rows.len() > AUDIT_TAIL {
        rows.len() - AUDIT_TAIL
    } else {
        0
    };
    let mut tail: Vec<String> = Vec::new();
    let mut i: usize = start;
    while i < rows.len()
        invariant
            start <= i <= rows@.len(),
            texts(tail@) == views(rows@).subrange(start as int, i as int),
        decreases rows@.len() - i,
    {
        let ghost before = tail@;
        tail.push(text_of(rows[i].as_slice()));
        assert(texts(tail@) =~= texts(before).push(views(rows@)[i as int]));
        assert(views(rows@).subrange(start as int, i + 1) =~= views(rows@).subrange(
            start as int,
            i as int,
        ).push(views(rows@)[i as int]));
        i += 1;
    }
    assert(views(rows@).subrange(start as int, i as int) =~= last_n(
        views(rows@),
        AUDIT_TAIL as nat,
    ));
    tail
}

// ---------------------------------------------------------------------------------------------
// Processor and memory
// ---------------------------------------------------------------------------------------------

/// Ticks of the processor since the start of the host.
#[derive(Clone, Copy, Debug, PartialEq, Eq, Structural)]
pub struct CpuSample {
    pub idle: u64,
    pub total: u64,
}

/// The numbers among some words.
pub open spec fn numbers(parts: Seq<Seq<char>>) -> Seq<u64>
    decreases parts.len(),
{
    if parts.len() == 0 {
        seq![]
    } else {
        match parsed_u64(parts.last()) {
            Some(number) => numbers(parts.drop_last()).push(number),
            None => numbers(parts.drop_last()),
        }
    }
}

/// The sum of some numbers.
pub open spec fn sum(values: Seq<u64>) -> nat
    decreases values.len(),
{
    if values.len() == 0 {
        0
    } else {
        sum(values.drop_last()) + values.last() as nat
    }
}

/// The tick counts that the first line of the processor statistics holds, behind its label.
pub open spec fn tick_counts(raw: Seq<char>) -> Seq<u64> {
    if lines(raw).len() == 0 {
        seq![]
    } else {
        let parts = words(lines(raw)[0]);
        if parts.len() == 0 {
            seq![]
        } else {
            numbers(parts.drop_first())
        }
    }
}

/// The ticks that a text of processor statistics tells: those spent idle are the fourth count
/// and, where it is given, the fifth. Fewer than four counts tell nothing.
pub open spec fn cpu_sample(raw: Seq<char>) -> Option<CpuSample> {
    let counts = tick_counts(raw);
    if counts.len() < 4 {
        None
    } else {
        let waiting = if counts.len() > 4 {
            counts[4] as int
        } else {
            0
        };
        Some(CpuSample { idle: (counts[3] + waiting) as u64, total: sum(counts) as u64 })
    }
}

proof fn lemma_sum_bounds(values: Seq<u64>, k: int)
    requires
        0 <= k <= values.len(),
    ensures
        sum(values.take(k)) <= sum(values),
        k > 0 ==> sum(values.take(k)) == sum(values.take(k - 1)) + values[k - 1],
    decreases values.len() - k,
{
    if k > 0 {
        assert(values.take(k).drop_last() =~= values.take(k - 1));
    }
    if k < values.len() {
        lemma_sum_bounds(values, k + 1);
        assert(values.take(k + 1).drop_last() =~= values.take(k));
    } else {
        assert(values.take(k) =~= values);
    }
}

/// Reads the tick counts of processor statistics.
fn read_ticks(raw: &str) -> (counts: Vec<u64>)
    ensures
        counts@ == tick_counts(raw@),
{
    let chars = chars_of(raw);
    let rows = split_lines(chars.as_slice());
    assert(views(rows@).len() == rows@.len());
    let mut counts: Vec<u64> = Vec::new();
    if rows.len() == 0 {
        return counts;
    }
    assert(views(rows@)[0] == rows@[0]@);
    let parts = split_words(rows[0].as_slice());
    let ghost all = views(parts@);
    assert(all.len() == parts@.len());
    if parts.len() == 0 {
        return counts;
    }
    let ghost rest = all.drop_first();
    let mut i: usize = 1;
    assert(rest.take(0) =~= seq![]);
    while i < parts.len()
        invariant
            1 <= i <= parts@.len(),
            all == views(parts@),
            rest == all.drop_first(),
            counts@ == numbers(rest.take(i - 1)),
        decreases parts@.len() - i,
    {
        assert(rest.take(i as int).drop_last() =~= rest.take(i - 1));
        assert(rest.take(i as int).last() == parts@[i as int]@);
        match parse_u64(parts[i].as_slice()) {
            Some(number) => {
                counts.push(number);
            },
            None => {},
        }
        i += 1;
    }
    assert(rest.take(i - 1) =~= rest);
    counts
}

/// Whether the ticks of processor statistics can be added up, where they are.
pub open spec fn ticks_fit(raw: Seq<char>) -> bool {
    tick_counts(raw).len() >= 4 ==> sum(tick_counts(raw)) <= u64::MAX
}

/// Whether the ticks of processor statistics can be added up.
pub fn cpu_sample_fits(raw: &str) -> (fits: bool)
    ensures
        fits == ticks_fit(raw@),
{
    let counts = read_ticks(raw);
    if counts.len() < 4 {
        return true;
    }
    let mut total: u64 = 0;
    let mut i: usize = 0;
    assert(counts@.take(0) =~= seq![]);
    while i < counts.len()
        invariant
            i <= counts@.len(),
            counts@ == tick_counts(raw@),
            counts@.len() >= 4,
            total == sum(counts@.take(i as int)),
        decreases counts@.len() - i,
    {
        proof {
            lemma_sum_bounds(counts@, i + 1);
        }
        if counts[i] > u64::MAX - total {
            return false;
        }
        total += counts[i];
        i += 1;
    }
    assert(counts@.take(i as int) =~= counts@);
    true
}

/// Reads processor statistics.
pub fn read_cpu_sample(raw: &str) -> (sample: Option<CpuSample>)
    requires
        ticks_fit(raw@),
    ensures
        sample == cpu_sample(raw@),
{
    let counts = read_ticks(raw);
    if counts.len() < 4 {
        return None;
    }
    let mut total: u64 = 0;
    let mut i: usize = 0;
    assert(counts@.take(0) =~= seq![]);
    while i < counts.len()
        invariant
            i <= counts@.len(),
            sum(counts@) <= u64::MAX,
            total == sum(counts@.take(i as int)),
        decreases counts@.len() - i,
    {
        proof {
            lemma_sum_bounds(counts@, i + 1);
        }
        total += counts[i];
        i += 1;
    }
    assert(counts@.take(i as int) =~= counts@);
    proof {
        lemma_sum_bounds(counts@, 4);
        if counts@.len() > 4 {
            lemma_sum_bounds(counts@, 5);
        }
    }
    let idle: u64 = if counts.len() > 4 {
        counts[3] + counts[4]
    } else {
        counts[3]
    };
    Some(CpuSample { idle, total })
}

/// A share of processor time: busy ticks out of all.
#[derive(Clone, Copy, Debug, PartialEq, Eq, Structural)]
pub struct CpuShare {
    pub busy: u64,
    pub total: u64,
}

/// Measures processor load between readings.
#[derive(Clone, Copy, Debug)]
pub struct CpuMeter {
    pub last: Option<CpuSample>,
}

/// `a - b`, or zero where that is negative.
pub open spec fn excess(a: u64, b: u64) -> u64 {
    if a >= b {
        (a - b) as u64
    } else {
        0
    }
}

/// The share of busy ticks between two readings; none where no time has passed.
pub open spec fn share_between(previous: CpuSample, current: CpuSample) -> Option<CpuShare> {
    let total = excess(current.total, previous.total);
    if total == 0 {
        None
    } else {
        Some(CpuShare { busy: excess(total, excess(current.idle, previous.idle)), total })
    }
}

impl CpuMeter {
    /// A meter without a reading.
    pub fn new() -> (meter: CpuMeter)
        ensures
            meter.last is None,
    {
        CpuMeter { last: None }
    }

    /// Takes a reading, and gives the share of busy ticks since the last one. A reading that
    /// failed changes nothing.
    pub fn cpu_percent(&mut self, current: Option<CpuSample>) -> (share: Option<CpuShare>)
        ensures
            final(self).last == if current is Some {
                current
            } else {
                old(self).last
            },
            share == if current is Some && old(self).last is Some {
                share_between(old(self).last->0, current->0)
            } else {
                None
            },
    {
        let current = match current {
            Some(current) => current,
            None => {
                return None;
            },
        };
        let previous = self.last;
        self.last = Some(current);
        let previous = match previous {
            Some(previous) => previous,
            None => {
                return None;
            },
        };
        let total = current.total.saturating_sub(previous.total);
        let idle = current.idle.saturating_sub(previous.idle);
        if total == 0 {
            return None;
        }
        Some(CpuShare { busy: total.saturating_sub(idle), total })
    }
}

/// The share of busy ticks is a proper one.
pub proof fn law_share_is_proper(previous: CpuSample, current: CpuSample)
    ensures
        share_between(previous, current) matches Some(share) ==> share.busy <= share.total
            && share.total > 0,
{
}

/// The second word of the memory statistics of a process, which is the number of its resident
/// pages.
pub fn resident_pages(raw: &str) -> (pages: Option<String>)
    ensures
        match pages {
            Some(pages) => words(raw@).len() >= 2 && pages@ == words(raw@)[1],
            None => words(raw@).len() < 2,
        },
{
    let chars = chars_of(raw);
    let parts = split_words(chars.as_slice());
    assert(views(parts@).len() == parts@.len());
    if parts.len() < 2 {
        return None;
    }
    assert(views(parts@)[1] == parts@[1]@);
    Some(text_of(parts[1].as_slice()))
}

// ---------------------------------------------------------------------------------------------
// Laws
// ---------------------------------------------------------------------------------------------

/// A duration is written by its hours, its minutes and its seconds, the last two with two digits; a
/// negative one as none.
pub proof fn law_durations_are_split(hours: nat, minutes: nat, seconds: nat, below: int)
    requires
        minutes < 60,
        seconds < 60,
        below < 0,
    ensures
        clock_text((3600 * hours + 60 * minutes + seconds) as int) == decimal(hours) + ":"@ + two_digits(
            minutes,
        ) + ":"@ + two_digits(seconds),
        clock_text(below) == clock_text(0),
{
    let total = 3600 * hours + 60 * minutes + seconds;
    assert(total / 3600 == hours);
    assert(total % 3600 == 60 * minutes + seconds);
    assert((60 * minutes + seconds) / 60 == minutes);
    assert(total % 60 == seconds) by {
        assert(total == 60 * (60 * hours + minutes) + seconds);
    }
}

/// The numbers among some words are read in order, and other words are passed over.
pub proof fn law_numbers_among_words(parts: Seq<Seq<char>>, part: Seq<char>)
    ensures
        numbers(Seq::empty()) == Seq::<u64>::empty(),
        parsed_u64(part) matches Some(number) ==> numbers(parts.push(part)) == numbers(parts).push(
            number,
        ),
        parsed_u64(part) is None ==> numbers(parts.push(part)) == numbers(parts),
        forall|values: Seq<u64>, value: u64| #[trigger]
            sum(values.push(value)) == sum(values) + value,
        sum(Seq::empty()) == 0,
{
    assert(parts.push(part).drop_last() =~= parts);
    assert forall|values: Seq<u64>, value: u64| #[trigger]
        sum(values.push(value)) == sum(values) + value by {
        assert(values.push(value).drop_last() =~= values);
    }
}

/// The processor statistics are those of the first line behind its label, whatever lines follow:
/// all ticks are the sum of its counts, and the idle ones are the fourth and, where it is given,
/// the fifth. Fewer than four counts tell nothing.
pub proof fn law_processor_statistics(label: Seq<char>, rest: Seq<char>, more: Seq<char>)
    requires
        label.len() > 0,
        forall|i: int| 0 <= i < label.len() ==> !is_white(#[trigger] label[i]),
        !rest.contains('\n'),
        rest.len() == 0 || rest.last() != '\r',
    ensures
        ({
            let line = label.push(' ') + rest;
            let raw = line.push('\n') + more;
            let counts = numbers(words(rest));
            &&& counts.len() < 4 ==> cpu_sample(raw) is None && cpu_sample(line) is None
            &&& counts.len() >= 4 && sum(counts) <= u64::MAX ==> {
                &&& cpu_sample(raw) is Some && cpu_sample(line) == cpu_sample(raw)
                &&& cpu_sample(raw)->0.total == sum(counts)
                &&& counts.len() == 4 ==> cpu_sample(raw)->0.idle == counts[3]
                &&& counts.len() > 4 ==> cpu_sample(raw)->0.idle == counts[3] + counts[4]
            }
        }),
        cpu_sample(Seq::empty()) is None,
{
    let line = label.push(' ') + rest;
    let counts = numbers(words(rest));
    assert(!line.contains('\n')) by {
        if line.contains('\n') {
            let i = line.index_of('\n');
            if i < label.len() {
                assert(label[i] == '\n');
                assert(!is_white(label[i]));
            } else if i > label.len() {
                assert(rest[i - label.len() - 1] == '\n');
                assert(rest.contains('\n'));
            }
        }
    }
    assert(line.last() != '\r') by {
        if rest.len() > 0 {
            assert(line.last() == rest.last());
        }
    }
    law_lines(line, more);
    law_words(label, ' ', rest);
    assert(words(line) == seq![label] + words(rest));
    assert(words(line).drop_first() =~= words(rest));
    let raw = line.push('\n') + more;
    assert(lines(raw)[0] == line);
    assert(lines(line)[0] == line);
    if counts.len() >= 4 {
        lemma_sum_bounds(counts, 4);
        if counts.len() > 4 {
            lemma_sum_bounds(counts, 5);
        }
    }
}

/// The busy ticks between two readings are those that were not idle.
pub proof fn law_busy_and_idle_add_up(previous: CpuSample, current: CpuSample)
    requires
        previous.total < current.total,
        previous.idle <= current.idle,
        current.idle - previous.idle <= current.total - previous.total,
    ensures
        share_between(previous, current) is Some,
        share_between(previous, current)->0.total == current.total - previous.total,
        share_between(previous, current)->0.busy + (current.idle - previous.idle) == current.total
            - previous.total,
{
}

/// Where no time has passed there is no share, more idle time than time is no busy time, and idle
/// time that went back counts as none.
pub proof fn law_odd_readings(previous: CpuSample, current: CpuSample)
    ensures
        current.total <= previous.total ==> share_between(previous, current) is None,
        current.total > previous.total ==> share_between(previous, current) is Some,
        current.total > previous.total && current.idle - previous.idle > current.total
            - previous.total ==> share_between(previous, current)->0.busy == 0,
        current.total > previous.total && current.idle <= previous.idle ==> share_between(
            previous,
            current,
        )->0.busy == current.total - previous.total,
{
}

} // verus!
