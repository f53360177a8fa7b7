//! Sliding windows of request times.

use crate::clock::Timestamp;
use std::collections::VecDeque;
use vstd::prelude::*;

verus! {

/// `items` without those at its front that lie before `cutoff`.
pub open spec fn popped(items: Seq<Timestamp>, cutoff: Timestamp) -> Seq<Timestamp>
    decreases items.len(),
{
    if items.len() > 0 && items[0].is_before(cutoff) {
        popped(items.drop_first(), cutoff)
    } else {
        items
    }
}

/// Whether a point lies in the second that starts at `mark`.
pub open spec fn in_second(time: Timestamp, mark: Timestamp) -> bool {
    !time.is_before(mark) && time.is_before(mark.shifted(1))
}

/// How many points lie in the second that starts at `mark`.
pub open spec fn count_in(items: Seq<Timestamp>, mark: Timestamp) -> nat {
    items.filter(|time: Timestamp| in_second(time, mark)).len()
}

/// Removes the points before `cutoff` from the front of a window.
pub fn pop_older_than(items: &mut VecDeque<Timestamp>, cutoff: Timestamp)
    ensures
        final(items)@ == popped(old(items)@, cutoff),
{
    let ghost all = items@;
    while items.len() > 0 && items[0].before(cutoff)
        invariant
            popped(items@, cutoff) == popped(all, cutoff),
        decreases items@.len(),
    {
        let ghost held = items@;
        items.pop_front();
        assert(items@ =~= held.drop_first());
    }
}

/// Counts the points in the second that starts at `second_mark`.
pub fn count_second(requests: &VecDeque<Timestamp>, second_mark: Timestamp) -> (count: usize)
    requires
        second_mark.is_valid(),
    ensures
        count == count_in(requests@, second_mark),
        count <= requests@.len(),
{
    let next_mark = second_mark.shift(1);
    let ghost within = |time: Timestamp| in_second(time, second_mark);
    let mut count: usize = 0;
    let mut i: usize = 0;
    assert(requests@.take(0).filter(within) =~= seq![]);
    while i < requests.len()
        invariant
            i <= requests@.len(),
            count <= i,
            within == (|time: Timestamp| in_second(time, second_mark)),
            next_mark == second_mark.shifted(1),
            count == requests@.take(i as int).filter(within).len(),
        decreases requests@.len() - i,
    {
        let time = requests[i];
        proof {
            assert(requests@.take(i + 1) =~= requests@.take(i as int).push(time));
            requests@.take(i as int).lemma_filter_push(time, within);
        }
        if !time.before(second_mark) && time.before(next_mark) {
            count += 1;
        }
        i += 1;
    }
    assert(requests@.take(i as int) =~= requests@);
    count
}

/// Whether the points stand in the order of time.
pub open spec fn in_time_order(items: Seq<Timestamp>) -> bool {
    forall|i: int, j: int|
        0 <= i < j < items.len() ==> !(#[trigger] items[j]).is_before(#[trigger] items[i])
}

/// Removing from the front leaves a tail of the window, and its first point is not too old.
pub proof fn lemma_popped(items: Seq<Timestamp>, cutoff: Timestamp)
    ensures
        popped(items, cutoff).len() <= items.len(),
        popped(items, cutoff) == items.skip(items.len() - popped(items, cutoff).len()),
        popped(items, cutoff).len() > 0 ==> !popped(items, cutoff)[0].is_before(cutoff),
        forall|i: int|
            0 <= i < items.len() - popped(items, cutoff).len() ==> (#[trigger] items[i]).is_before(
                cutoff,
            ),
    decreases items.len(),
{
    if items.len() > 0 && items[0].is_before(cutoff) {
        let rest = items.drop_first();
        lemma_popped(rest, cutoff);
        assert(popped(items, cutoff) =~= items.skip(items.len() - popped(items, cutoff).len()));
        assert forall|i: int| 0 <= i < items.len() - popped(items, cutoff).len() implies (
        #[trigger] items[i]).is_before(cutoff) by {
            if i > 0 {
                assert(items[i] == rest[i - 1]);
            }
        }
    } else {
        assert(items.skip(0) =~= items);
    }
}

/// From a window in the order of time, exactly the points before the cutoff are removed.
pub proof fn law_window_holds_recent(items: Seq<Timestamp>, cutoff: Timestamp)
    requires
        in_time_order(items),
    ensures
        forall|i: int|
            0 <= i < popped(items, cutoff).len() ==> !(#[trigger] popped(items, cutoff)[i]).is_before(
                cutoff,
            ),
        forall|i: int|
            0 <= i < items.len() && !(#[trigger] items[i]).is_before(cutoff) ==> popped(
                items,
                cutoff,
            ).contains(items[i]),
        in_time_order(popped(items, cutoff)),
{
    lemma_popped(items, cutoff);
    let kept = popped(items, cutoff);
    let start = items.len() - kept.len();
    assert forall|i: int| 0 <= i < kept.len() implies !(#[trigger] kept[i]).is_before(cutoff) by {
        if i > 0 {
            assert(!items[start + i].is_before(items[start + 0]));
            assert(kept[i] == items[start + i] && kept[0] == items[start + 0]);
        }
    }
    assert forall|i: int| 0 <= i < items.len() && !(#[trigger] items[i]).is_before(
        cutoff,
    ) implies kept.contains(items[i]) by {
        assert(kept[i - start] == items[i]);
    }
    assert forall|i: int, j: int| 0 <= i < j < kept.len() implies !(
    #[trigger] kept[j]).is_before(#[trigger] kept[i]) by {
        assert(kept[i] == items[start + i] && kept[j] == items[start + j]);
    }
}

/// Whether `a` is made of points of `b`, in their order.
pub open spec fn is_part(a: Seq<Timestamp>, b: Seq<Timestamp>) -> bool
    decreases b.len(),
{
    if a.len() == 0 {
        true
    } else if b.len() == 0 {
        false
    } else if a[0] == b[0] {
        is_part(a.drop_first(), b.drop_first())
    } else {
        is_part(a, b.drop_first())
    }
}

/// A part is no longer than the whole.
pub proof fn lemma_part_len(a: Seq<Timestamp>, b: Seq<Timestamp>)
    requires
        is_part(a, b),
    ensures
        a.len() <= b.len(),
    decreases b.len(),
{
    if a.len() > 0 {
        if a[0] == b[0] {
            lemma_part_len(a.drop_first(), b.drop_first());
        } else {
            lemma_part_len(a, b.drop_first());
        }
    }
}

proof fn lemma_part_tail(a: Seq<Timestamp>, b: Seq<Timestamp>)
    requires
        is_part(a, b),
        a.len() > 0,
    ensures
        is_part(a.drop_first(), b.drop_first()),
        is_part(a.drop_first(), b),
    decreases b.len(),
{
    let rest = b.drop_first();
    let tail = a.drop_first();
    if a[0] != b[0] {
        lemma_part_tail(a, rest);
    }
    if tail.len() > 0 && tail[0] == b[0] {
        lemma_part_tail(tail, rest);
    }
}

/// A part stays one when a point is added to the whole, or to both.
pub proof fn lemma_part_push(a: Seq<Timestamp>, b: Seq<Timestamp>, time: Timestamp)
    requires
        is_part(a, b),
    ensures
        is_part(a, b.push(time)),
        is_part(a.push(time), b.push(time)),
    decreases b.len(),
{
    let whole = b.push(time);
    let part = a.push(time);
    if b.len() == 0 {
        assert(part.drop_first() =~= seq![]);
        assert(whole[0] == time && part[0] == time);
        assert(is_part(part.drop_first(), whole.drop_first()));
    } else {
        assert(whole.drop_first() =~= b.drop_first().push(time));
        if a.len() > 0 {
            assert(part.drop_first() =~= a.drop_first().push(time));
            assert(part[0] == a[0] && whole[0] == b[0]);
            if a[0] == b[0] {
                lemma_part_push(a.drop_first(), b.drop_first(), time);
            } else {
                lemma_part_push(a, b.drop_first(), time);
            }
        } else {
            lemma_part_push(a, b.drop_first(), time);
            assert(part.drop_first() =~= seq![]);
            assert(part[0] == time);
            assert(is_part(part.drop_first(), whole.drop_first()));
        }
    }
}

/// A part stays one when both lose what lies before a cutoff.
pub proof fn lemma_part_popped(a: Seq<Timestamp>, b: Seq<Timestamp>, cutoff: Timestamp)
    requires
        is_part(a, b),
    ensures
        is_part(popped(a, cutoff), popped(b, cutoff)),
    decreases a.len() + b.len(),
{
    if a.len() > 0 {
        if b[0].is_before(cutoff) {
            if a[0] == b[0] {
                lemma_part_popped(a.drop_first(), b.drop_first(), cutoff);
            } else {
                lemma_part_popped(a, b.drop_first(), cutoff);
            }
        } else if a[0].is_before(cutoff) {
            lemma_part_tail(a, b);
            lemma_part_popped(a.drop_first(), b, cutoff);
        }
    }
}

} // verus!
