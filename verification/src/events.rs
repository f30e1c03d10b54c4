//! Delivery of topology events to the subscribers of a graph.

use crate::topology_pub::{EventView, TopologyEvent};
use std::sync::mpsc::{Receiver, Sender};
use vstd::prelude::*;

verus! {

/// `std::sync::mpsc::Sender`, the sending end of a channel.
#[verifier::external_type_specification]
#[verifier::external_body]
#[verifier::reject_recursive_types(T)]
pub struct ExSender<T>(std::sync::mpsc::Sender<T>);

/// `std::sync::mpsc::Receiver`, the receiving end of a channel.
#[verifier::external_type_specification]
#[verifier::external_body]
#[verifier::reject_recursive_types(T)]
pub struct ExReceiver<T>(std::sync::mpsc::Receiver<T>);

/// The events that were sent through `tx`, oldest first.
pub uninterp spec fn events_sent(tx: Sender<TopologyEvent>) -> Seq<EventView>;

/// The channel that `tx` sends into.
pub uninterp spec fn sends_into(tx: Sender<TopologyEvent>) -> int;

/// The channel that `rx` receives from.
pub uninterp spec fn receives_from(rx: Receiver<TopologyEvent>) -> int;

/// The receiver of `channel` is dropped, earlier or later.
pub uninterp spec fn hung_up(channel: int) -> bool;

/// Calls `std::sync::mpsc::channel`, which makes a new channel and returns its two ends. Nothing
/// has been sent through the sender yet, and the receiver receives from the channel that the
/// sender sends into.
#[verifier::external_body]
fn open_channel() -> (r: (Sender<TopologyEvent>, Receiver<TopologyEvent>))
    ensures
        events_sent(r.0) == Seq::<EventView>::empty(),
        sends_into(r.0) == receives_from(r.1),
{
    std::sync::mpsc::channel()
}

/// Calls `std::sync::mpsc::Sender::send`. On success the event has been sent; on failure it has
/// not. The sender stays on its channel. A send fails only if the receiver was dropped. Whether it
/// was dropped by now depends on other threads, so of a receiver that is dropped at some time the
/// contract leaves the outcome open.
#[verifier::external_body]
fn send(tx: &mut Sender<TopologyEvent>, event: TopologyEvent) -> (sent: bool)
    ensures
        events_sent(*final(tx)) == if sent {
            events_sent(*old(tx)).push(event@)
        } else {
            events_sent(*old(tx))
        },
        sends_into(*final(tx)) == sends_into(*old(tx)),
        !sent ==> hung_up(sends_into(*old(tx))),
{
    tx.send(event).is_ok()
}

/// A subscriber: the channel on which it listens and the events that were sent to it.
#[verifier::ext_equal]
pub struct SubscriberView {
    pub channel: int,
    pub sent: Seq<EventView>,
}

/// The subscribers behind a list of senders.
pub open spec fn subscriber_views(senders: Seq<Sender<TopologyEvent>>) -> Seq<SubscriberView> {
    Seq::new(
        senders.len(),
        |i: int|
            SubscriberView { channel: sends_into(senders[i]), sent: events_sent(senders[i]) },
    )
}

/// The elements of `s` whose flag in `keep` is set, in their order.
pub open spec fn flagged<A>(s: Seq<A>, keep: Seq<bool>) -> Seq<A>
    decreases s.len(),
{
    if s.len() == 0 {
        Seq::empty()
    } else {
        let front = flagged(s.drop_last(), keep);
        if keep[s.len() - 1] {
            front.push(s.last())
        } else {
            front
        }
    }
}

/// `subscriber` after `event` was sent to it.
pub open spec fn told(subscriber: SubscriberView, event: EventView) -> SubscriberView {
    SubscriberView { sent: subscriber.sent.push(event), ..subscriber }
}

/// `event` was sent to every subscriber, and reached those whose flag in `reached` is set: they
/// remain, in their order. The others are gone; each of them has dropped its receiver.
pub open spec fn published_to(
    before: Seq<SubscriberView>,
    event: EventView,
    reached: Seq<bool>,
    after: Seq<SubscriberView>,
) -> bool {
    &&& reached.len() == before.len()
    &&& after == flagged(Seq::new(before.len(), |i: int| told(before[i], event)), reached)
    &&& forall|i: int|
        0 <= i < before.len() && !reached[i] ==> hung_up((#[trigger] before[i]).channel)
}

/// `event` was sent to every subscriber, and exactly those that it reached remain: all but some that
/// have dropped their receivers.
pub open spec fn published(
    before: Seq<SubscriberView>,
    event: EventView,
    after: Seq<SubscriberView>,
) -> bool {
    exists|reached: Seq<bool>| published_to(before, event, reached, after)
}

proof fn lemma_flagged_prefix<A>(s: Seq<A>, keep: Seq<bool>, n: int)
    requires
        0 <= n < s.len(),
    ensures
        flagged(s.take(n + 1), keep) == if keep[n] {
            flagged(s.take(n), keep).push(s[n])
        } else {
            flagged(s.take(n), keep)
        },
{
    assert(s.take(n + 1).drop_last() =~= s.take(n));
}

proof fn lemma_flagged_maps(
    senders: Seq<Sender<TopologyEvent>>,
    views: Seq<SubscriberView>,
    keep: Seq<bool>,
)
    requires
        views.len() == senders.len(),
        keep.len() == senders.len(),
        forall|i: int|
            0 <= i < senders.len() && keep[i] ==> #[trigger] views[i] == subscriber_views(
                senders,
            )[i],
    ensures
        subscriber_views(flagged(senders, keep)) == flagged(views, keep),
    decreases senders.len(),
{
    if senders.len() > 0 {
        let n = senders.len() - 1;
        let kept = keep.take(n);
        assert forall|i: int| 0 <= i < n && kept[i] implies #[trigger] views.drop_last()[i]
            == subscriber_views(senders.drop_last())[i] by {
            assert(views[i] == subscriber_views(senders)[i]);
        }
        lemma_flagged_maps(senders.drop_last(), views.drop_last(), kept);
        lemma_flags_beyond(senders.drop_last(), keep, kept);
        lemma_flags_beyond(views.drop_last(), keep, kept);
        if keep[n] {
            assert(views[n] == subscriber_views(senders)[n]);
        }
        assert(subscriber_views(flagged(senders, keep)) =~= flagged(views, keep));
    } else {
        assert(subscriber_views(flagged(senders, keep)) =~= flagged(views, keep));
    }
}

/// Only the flags of the elements themselves count.
proof fn lemma_flags_beyond<A>(s: Seq<A>, keep: Seq<bool>, other: Seq<bool>)
    requires
        s.len() <= keep.len(),
        s.len() <= other.len(),
        forall|i: int| 0 <= i < s.len() ==> #[trigger] keep[i] == other[i],
    ensures
        flagged(s, keep) == flagged(s, other),
    decreases s.len(),
{
    if s.len() > 0 {
        lemma_flags_beyond(s.drop_last(), keep, other);
    }
}

/// Opens a channel for a new subscriber.
pub(crate) fn subscribe(subscribers: &mut Vec<Sender<TopologyEvent>>) -> (rx: Receiver<
    TopologyEvent,
>)
    ensures
        subscriber_views(final(subscribers)@) == subscriber_views(old(subscribers)@).push(
            (SubscriberView { channel: receives_from(rx), sent: Seq::empty() }),
        ),
{
    let (tx, rx) = open_channel();
    subscribers.push(tx);
    assert(subscriber_views(subscribers@) =~= subscriber_views(old(subscribers)@).push(
        (SubscriberView { channel: receives_from(rx), sent: Seq::empty() }),
    ));
    rx
}

/// Keeps the subscribers that were reached, in their order, and drops the others.
pub fn keep_reached(subscribers: &mut Vec<Sender<TopologyEvent>>, reached: &[bool])
    requires
        reached@.len() == old(subscribers)@.len(),
    ensures
        final(subscribers)@ == flagged(old(subscribers)@, reached@),
{
    let ghost all = subscribers@;
    let mut i: usize = 0;
    let mut seen: usize = 0;
    assert(all.take(0) =~= Seq::empty());
    while seen < reached.len()
        invariant
            i <= seen <= all.len(),
            reached@.len() == all.len(),
            subscribers@.len() - i == all.len() - seen,
            subscribers@.take(i as int) == flagged(all.take(seen as int), reached@),
            forall|k: int|
                0 <= k < all.len() - seen ==> #[trigger] subscribers@[k + i] == all[k + seen],
        decreases all.len() - seen,
    {
        let ghost before = subscribers@;
        proof {
            lemma_flagged_prefix(all, reached@, seen as int);
            assert(before[0 + i] == all[0 + seen]);
        }
        if reached[seen] {
            assert(subscribers@.take(i + 1) =~= subscribers@.take(i as int).push(
                all[seen as int],
            ));
            assert forall|k: int| 0 <= k < all.len() - (seen + 1) implies #[trigger] subscribers@[k
                + (i + 1)] == all[k + (seen + 1)] by {
                assert(before[(k + 1) + i] == all[(k + 1) + seen]);
            }
            i = i + 1;
        } else {
            let _ = subscribers.remove(i);
            assert(subscribers@.take(i as int) =~= before.take(i as int));
            assert forall|k: int| 0 <= k < all.len() - (seen + 1) implies #[trigger] subscribers@[k
                + i] == all[k + (seen + 1)] by {
                assert(before[(k + 1) + i] == all[(k + 1) + seen]);
            }
        }
        seen = seen + 1;
    }
    assert(subscribers@.take(i as int) =~= subscribers@);
    assert(all.take(seen as int) =~= all);
}

/// Sends `event` to every subscriber and drops those that it could not reach.
pub(crate) fn publish(subscribers: &mut Vec<Sender<TopologyEvent>>, event: &TopologyEvent)
    ensures
        published(
            subscriber_views(old(subscribers)@),
            event@,
            subscriber_views(final(subscribers)@),
        ),
{
    let ghost before = subscriber_views(subscribers@);
    let mut reached: Vec<bool> = Vec::new();
    let mut i: usize = 0;
    while i < subscribers.len()
        invariant
            i <= subscribers@.len(),
            reached@.len() == i,
            before.len() == subscribers@.len(),
            forall|k: int|
                0 <= k < i && reached@[k] ==> #[trigger] subscriber_views(subscribers@)[k] == told(
                    before[k],
                    event@,
                ),
            forall|k: int|
                0 <= k < i && !reached@[k] ==> hung_up((#[trigger] before[k]).channel),
            forall|k: int|
                i <= k < before.len() ==> #[trigger] subscriber_views(subscribers@)[k] == before[k],
        decreases subscribers@.len() - i,
    {
        let ghost was = subscribers@;
        assert(subscriber_views(was)[i as int] == before[i as int]);
        let sent = send(&mut subscribers[i], event.clone());
        reached.push(sent);
        assert forall|k: int| 0 <= k < before.len() && k != i implies #[trigger] subscriber_views(
            subscribers@,
        )[k] == subscriber_views(was)[k] by {
            assert(subscribers@[k] == was[k]);
        }
        i = i + 1;
    }
    let ghost after_sends = subscribers@;
    let ghost all_told = Seq::new(before.len(), |k: int| told(before[k], event@));
    keep_reached(subscribers, reached.as_slice());
    proof {
        lemma_flagged_maps(after_sends, all_told, reached@);
        assert(published_to(before, event@, reached@, subscriber_views(subscribers@)));
    }
}

/// A subscriber that remains after an event was one before and was told of the event.
pub proof fn lemma_remaining_were_told(
    before: Seq<SubscriberView>,
    event: EventView,
    after: Seq<SubscriberView>,
    i: int,
)
    requires
        published(before, event, after),
        0 <= i < after.len(),
    ensures
        exists|k: int| 0 <= k < before.len() && after[i] == told(#[trigger] before[k], event),
{
    let reached = choose|reached: Seq<bool>| published_to(before, event, reached, after);
    let all_told = Seq::new(before.len(), |k: int| told(before[k], event));
    let k = lemma_flagged_origin(all_told, reached, i);
    assert(after[i] == told(before[k], event));
}

proof fn lemma_flagged_origin<A>(s: Seq<A>, keep: Seq<bool>, i: int) -> (k: int)
    requires
        0 <= i < flagged(s, keep).len(),
    ensures
        0 <= k < s.len(),
        keep[k],
        flagged(s, keep)[i] == s[k],
    decreases s.len(),
{
    let n = s.len() - 1;
    if keep[n] && i == flagged(s, keep).len() - 1 {
        n
    } else {
        lemma_flagged_origin(s.drop_last(), keep, i)
    }
}

/// A subscriber that never drops its receiver is told of an event and remains.
pub proof fn lemma_live_subscriber_is_told(
    before: Seq<SubscriberView>,
    event: EventView,
    after: Seq<SubscriberView>,
    i: int,
)
    requires
        published(before, event, after),
        0 <= i < before.len(),
    ensures
        !hung_up(before[i].channel) ==> after.contains(told(before[i], event)),
{
    if !hung_up(before[i].channel) {
        let reached = choose|reached: Seq<bool>| published_to(before, event, reached, after);
        let all_told = Seq::new(before.len(), |k: int| told(before[k], event));
        lemma_flagged_kept(all_told, reached, i);
    }
}

proof fn lemma_flagged_kept<A>(s: Seq<A>, keep: Seq<bool>, i: int)
    requires
        0 <= i < s.len(),
        keep[i],
    ensures
        flagged(s, keep).contains(s[i]),
    decreases s.len(),
{
    let front = flagged(s.drop_last(), keep);
    if i < s.len() - 1 {
        lemma_flagged_kept(s.drop_last(), keep, i);
        let k = choose|k: int| 0 <= k < front.len() && front[k] == s.drop_last()[i];
        assert(flagged(s, keep)[k] == s[i]);
    } else {
        assert(flagged(s, keep)[front.len() as int] == s[i]);
    }
}

/// With no subscribers, publishing an event leaves none.
pub proof fn lemma_nobody_listens(event: EventView, after: Seq<SubscriberView>)
    requires
        published(Seq::empty(), event, after),
    ensures
        after == Seq::<SubscriberView>::empty(),
{
    let reached = choose|reached: Seq<bool>| published_to(Seq::empty(), event, reached, after);
    assert(Seq::new(
        Seq::<SubscriberView>::empty().len(),
        |i: int| told(Seq::<SubscriberView>::empty()[i], event),
    ) =~= Seq::empty());
}

/// An event goes to the subscribers as they are listed; those that remain are still in that order,
/// and of each the events that were sent to it before, followed by this one, were sent. Only
/// subscribers that drop their receivers are missing.
pub proof fn lemma_event_reaches_all_who_listen(
    before: Seq<SubscriberView>,
    event: EventView,
    after: Seq<SubscriberView>,
) -> (at: Seq<int>)
    requires
        published(before, event, after),
    ensures
        at.len() == after.len(),
        forall|i: int| 0 <= i < at.len() ==> 0 <= #[trigger] at[i] < before.len(),
        forall|i: int, j: int| 0 <= i < j < at.len() ==> #[trigger] at[i] < #[trigger] at[j],
        forall|i: int|
            0 <= i < at.len() ==> {
                &&& after[i].channel == before[#[trigger] at[i]].channel
                &&& after[i].sent == before[at[i]].sent.push(event)
            },
        forall|k: int|
            0 <= k < before.len() && !at.contains(k) ==> hung_up((#[trigger] before[k]).channel),
{
    let reached = choose|reached: Seq<bool>| published_to(before, event, reached, after);
    let all_told = Seq::new(before.len(), |k: int| told(before[k], event));
    let at = lemma_flagged_positions(all_told, reached);
    assert forall|i: int| 0 <= i < at.len() implies {
        &&& after[i].channel == before[#[trigger] at[i]].channel
        &&& after[i].sent == before[at[i]].sent.push(event)
    } by {
        assert(after[i] == all_told[at[i]]);
    }
    assert forall|k: int| 0 <= k < before.len() && !at.contains(k) implies hung_up(
        (#[trigger] before[k]).channel,
    ) by {
        assert(!reached[k]);
    }
    at
}

/// What remains of a list are the elements whose flags are set: `at` says where they came from.
pub proof fn lemma_flagged_positions<A>(s: Seq<A>, keep: Seq<bool>) -> (at: Seq<int>)
    requires
        keep.len() >= s.len(),
    ensures
        at.len() == flagged(s, keep).len(),
        forall|i: int| 0 <= i < at.len() ==> 0 <= #[trigger] at[i] < s.len(),
        forall|i: int| 0 <= i < at.len() ==> flagged(s, keep)[i] == s[#[trigger] at[i]],
        forall|i: int, j: int| 0 <= i < j < at.len() ==> #[trigger] at[i] < #[trigger] at[j],
        forall|k: int| #[trigger] at.contains(k) <==> 0 <= k < s.len() && keep[k],
    decreases s.len(),
{
    if s.len() == 0 {
        Seq::empty()
    } else {
        let n = s.len() - 1;
        let front = lemma_flagged_positions(s.drop_last(), keep);
        if keep[n] {
            let at = front.push(n);
            assert forall|k: int| #[trigger] at.contains(k) <==> 0 <= k < s.len() && keep[k] by {
                if at.contains(k) {
                    let i = choose|i: int| 0 <= i < at.len() && at[i] == k;
                    if i < front.len() {
                        assert(front[i] == k);
                        assert(front.contains(k));
                    }
                }
                if 0 <= k < n && keep[k] {
                    assert(front.contains(k));
                    let i = choose|i: int| 0 <= i < front.len() && front[i] == k;
                    assert(at[i] == k);
                }
                if k == n {
                    assert(at[front.len() as int] == k);
                }
            }
            at
        } else {
            front
        }
    }
}

/// A list of senders shows a subscriber for each: its channel, and what was sent to it.
pub proof fn lemma_senders_show_their_subscribers(senders: Seq<Sender<TopologyEvent>>)
    ensures
        subscriber_views(senders).len() == senders.len(),
        forall|i: int|
            0 <= i < senders.len() ==> {
                &&& (#[trigger] subscriber_views(senders)[i]).channel == sends_into(senders[i])
                &&& subscriber_views(senders)[i].sent == events_sent(senders[i])
            },
{
}

} // verus!
