//! What holds of the redirector as a whole, whatever the clock does.

use vstd::prelude::*;

use crate::addr::{IpAddr, SocketAddr};
use crate::connections::{
    aged, connection_key, distinct, lapsed, last_used, lemma_aged, lemma_keys_are_distinct,
    lemma_lookup, lemma_put, lookup, put, recorded, recorded_over, released, undecided, used,
    ConnectionKey, Entries, StateView,
};
use crate::dispatch::{DispatchView, EffectView};
use crate::event::{NetworkAddress, SocketAddress, WinDivertEvent};
use crate::header::{connection_id, parses, transport};
use crate::listeners::{answering, registered, wildcard, ListenerKey};
use crate::process::{ActionView, ConnectionAction, ProcessView};
use crate::protocol::{ConnectionId, ParseError, TransportProtocol};
use crate::redirector::{
    conf_changed, event_handled, found_packet_handled, inbound_resolved, observed_connection,
    packet_handled, packet_injected, passes_through, row_taken_in, rows_of, socket_handled,
    table_read, table_taken_in, table_views, unseen_packet_handled, ConfChangeError, Event,
    InboundView, Knowledge, RedirectorView, StepView, TableEntryView,
};
use crate::renewal::{lemma_renewing_keeps_connection, regular};

verus! {

/// An entry either expires or stays what it is.
pub proof fn lemma_expiry_changes_no_entry(
    before: Entries,
    kept: Entries,
    now: int,
    key: ConnectionKey,
)
    requires
        aged(before, kept, now),
    ensures
        lookup(kept, key) is None || (lookup(kept, key) == lookup(before, key) && last_used(
            kept,
            key,
        ) == last_used(before, key)),
    decreases before.len(),
{
    let expired = choose|expired: int|
        {
            &&& 0 <= expired <= before.len()
            &&& kept == #[trigger] before.skip(expired)
            &&& forall|i: int|
                0 <= i < before.len() ==> (i < expired <==> lapsed((#[trigger] before[i]).2, now))
        };
    if kept.len() > 0 {
        let init = before.drop_last();
        assert(kept.last() == before.last());
        assert forall|i: int| 0 <= i < init.len() implies #[trigger] init[i] == before[i] by {}
        assert(kept.drop_last() =~= init.skip(expired));
        assert(aged(init, kept.drop_last(), now));
        lemma_expiry_changes_no_entry(init, kept.drop_last(), now, key);
    }
}

/// An entry is what is found under its key.
proof fn lemma_found(entries: Entries, i: int)
    requires
        distinct(entries),
        0 <= i < entries.len(),
    ensures
        lookup(entries, entries[i].0) == Some(entries[i].1),
        last_used(entries, entries[i].0) == Some(entries[i].2),
{
    let key = entries[i].0;
    lemma_lookup(entries, key);
    let entry = (key, lookup(entries, key)->0, last_used(entries, key)->0);
    let j = choose|j: int| 0 <= j < entries.len() && entries[j] == entry;
    if i < j {
        assert(entries[i].0 != entries[j].0);
    } else if j < i {
        assert(entries[j].0 != entries[i].0);
    }
}

/// A connection is remembered for ten minutes after its last use, and no
/// longer.
pub proof fn lemma_connection_is_remembered_for_ten_minutes(
    before: Entries,
    kept: Entries,
    now: int,
    key: ConnectionKey,
)
    requires
        aged(before, kept, now),
        distinct(before),
        lookup(before, key) is Some,
    ensures
        lookup(kept, key) is Some <==> now - last_used(before, key)->0 <= 600 * 1_000_000_000,
        lookup(kept, key) is Some ==> lookup(kept, key) == lookup(before, key) && last_used(
            kept,
            key,
        ) == last_used(before, key),
{
    let expired = choose|expired: int|
        {
            &&& 0 <= expired <= before.len()
            &&& kept == #[trigger] before.skip(expired)
            &&& forall|i: int|
                0 <= i < before.len() ==> (i < expired <==> lapsed((#[trigger] before[i]).2, now))
        };
    lemma_expiry_changes_no_entry(before, kept, now, key);
    lemma_aged(before, kept, now);
    lemma_lookup(before, key);
    let entry = (key, lookup(before, key)->0, last_used(before, key)->0);
    let i = choose|i: int| 0 <= i < before.len() && before[i] == entry;
    if expired <= i {
        assert(kept[i - expired] == before[i]);
        lemma_found(kept, i - expired);
    } else if lookup(kept, key) is Some {
        lemma_lookup(kept, key);
        let left = (key, lookup(kept, key)->0, last_used(kept, key)->0);
        let j = choose|j: int| 0 <= j < kept.len() && kept[j] == left;
        assert(kept[j] == before[j + expired]);
        assert(before[i].0 != before[j + expired].0);
    }
}

/// An entry expires only after every entry that was used less recently.
pub proof fn lemma_least_recently_used_expires_first(
    before: Entries,
    kept: Entries,
    now: int,
    older: int,
    newer: int,
)
    requires
        aged(before, kept, now),
        distinct(before),
        0 <= older < newer < before.len(),
        kept.contains(before[older]),
    ensures
        kept.contains(before[newer]),
{
    let expired = choose|expired: int|
        0 <= expired <= before.len() && kept == #[trigger] before.skip(expired);
    let i = choose|i: int| 0 <= i < kept.len() && kept[i] == before[older];
    assert(kept[i] == before[i + expired]);
    assert(i + expired == older) by {
        if i + expired < older {
            assert(before[i + expired].0 != before[older].0);
        } else if older < i + expired {
            assert(before[older].0 != before[i + expired].0);
        }
    }
    assert(kept[newer - expired] == before[newer]);
}

/// Using an entry makes it the one that expires last, and touches no other.
pub proof fn lemma_use_touches_one_entry(
    before: Entries,
    after: Entries,
    key: ConnectionKey,
    found: Option<StateView>,
    value: StateView,
    other: ConnectionKey,
)
    requires
        used(before, after, key, found, value),
    ensures
        found is Some ==> found == lookup(before, key) && after.last().0 == key && lookup(
            after,
            key,
        ) == Some(value),
        found is None ==> lookup(after, key) is None && exists|now: int| #[trigger]
            aged(before, after, now),
        other != key ==> lookup(after, other) is None || lookup(after, other) == lookup(
            before,
            other,
        ),
{
    let (kept, now) = choose|kept: Entries, now: int|
        {
            &&& #[trigger] aged(before, kept, now)
            &&& found == lookup(kept, key)
            &&& after == match found {
                Some(_) => put(kept, key, value, now),
                None => kept,
            }
        };
    lemma_expiry_changes_no_entry(before, kept, now, key);
    lemma_expiry_changes_no_entry(before, kept, now, other);
    lemma_put(kept, key, value, now, other);
}

/// Where a use finds its entry, it renews it, and every other entry is kept if
/// and only if it was used in the ten minutes before.
pub proof fn lemma_use_keeps_what_is_recent(
    before: Entries,
    after: Entries,
    key: ConnectionKey,
    found: Option<StateView>,
    value: StateView,
    other: ConnectionKey,
)
    requires
        used(before, after, key, found, value),
        distinct(before),
        found is Some,
        other != key,
        lookup(before, other) is Some,
    ensures
        last_used(after, key) matches Some(now) && last_used(before, key)->0 <= now
            <= last_used(before, key)->0 + 600 * 1_000_000_000,
        lookup(after, other) is Some <==> last_used(after, key)->0 - last_used(before, other)->0
            <= 600 * 1_000_000_000,
{
    let (kept, now) = choose|kept: Entries, now: int|
        {
            &&& #[trigger] aged(before, kept, now)
            &&& found == lookup(kept, key)
            &&& after == match found {
                Some(_) => put(kept, key, value, now),
                None => kept,
            }
        };
    lemma_expiry_changes_no_entry(before, kept, now, key);
    lemma_connection_is_remembered_for_ten_minutes(before, kept, now, key);
    lemma_connection_is_remembered_for_ten_minutes(before, kept, now, other);
    lemma_put(kept, key, value, now, other);
    lemma_lookup(before, key);
    let entry = (key, lookup(before, key)->0, last_used(before, key)->0);
    let i = choose|i: int| 0 <= i < before.len() && before[i] == entry;
    assert(before[i].2 <= now);
}

/// Once it is recorded what is done with a direction, that is what is known of
/// it. The other direction, unless it is the same or has expired, is forwarded.
/// No other entry is touched.
pub proof fn lemma_recording_is_remembered(
    before: Entries,
    after: Entries,
    id: ConnectionId,
    action: ActionView,
    sent: Seq<DispatchView>,
    other: ConnectionKey,
)
    requires
        recorded(before, after, id, action, sent),
    ensures
        lookup(after, connection_key(id)) == Some(StateView::Known(action)),
        after.last().0 == connection_key(id),
        id.reversed() != id ==> (lookup(after, connection_key(id.reversed())) matches Some(state)
            ==> state == StateView::Known(ActionView::Forward)),
        other != connection_key(id) && other != connection_key(id.reversed()) ==> lookup(
            after,
            other,
        ) is None || lookup(after, other) == lookup(before, other),
{
    let key = connection_key(id);
    let reverse = connection_key(id.reversed());
    let forward = StateView::Known(ActionView::Forward);
    let (first, earlier, second, now) = choose|
        first: Entries,
        earlier: int,
        second: Entries,
        now: int,
    | #[trigger]
        recorded_over(before, first, earlier, second, now, after, id, action, sent);
    let between = put(first, reverse, forward, earlier);
    lemma_keys_are_distinct(id, id.reversed());
    lemma_expiry_changes_no_entry(before, first, earlier, other);
    lemma_put(first, reverse, forward, earlier, other);
    lemma_expiry_changes_no_entry(between, second, now, other);
    lemma_expiry_changes_no_entry(between, second, now, reverse);
    lemma_put(second, key, StateView::Known(action), now, other);
    lemma_put(second, key, StateView::Known(action), now, reverse);
}

/// Whether there is an entry under `key` that has not expired at the instant
/// `now`.
pub open spec fn is_fresh(entries: Entries, key: ConnectionKey, now: int) -> bool {
    lookup(entries, key) is Some && now - last_used(entries, key)->0 <= 600 * 1_000_000_000
}

/// Recording releases the packets that wait in either direction; those of the
/// other direction first, which are forwarded, and each direction in the order
/// in which its packets came. Of a direction whose last use is no more than ten
/// minutes ago, all are released. Where it is longer ago, none are of the
/// direction itself, and all or none are of the other.
pub proof fn lemma_recording_releases_what_waits(
    before: Entries,
    after: Entries,
    id: ConnectionId,
    action: ActionView,
    sent: Seq<DispatchView>,
)
    requires
        recorded(before, after, id, action, sent),
        distinct(before),
        id.reversed() != id,
    ensures
        exists|first: Option<StateView>, second: Option<StateView>|
            {
                let now = last_used(after, connection_key(id))->0;
                &&& sent == #[trigger] released(first, ActionView::Forward) + #[trigger] released(
                    second,
                    action,
                )
                &&& first is None || first == lookup(before, connection_key(id.reversed()))
                &&& is_fresh(before, connection_key(id.reversed()), now) ==> first is Some
                &&& second is None || second == lookup(before, connection_key(id))
                &&& is_fresh(before, connection_key(id), now) <==> second is Some
            },
{
    let key = connection_key(id);
    let reverse = connection_key(id.reversed());
    let forward = StateView::Known(ActionView::Forward);
    let (first, earlier, second, now) = choose|
        first: Entries,
        earlier: int,
        second: Entries,
        now: int,
    | #[trigger]
        recorded_over(before, first, earlier, second, now, after, id, action, sent);
    let between = put(first, reverse, forward, earlier);
    lemma_keys_are_distinct(id, id.reversed());
    lemma_aged(before, first, earlier);
    assert(earlier <= now) by {
        assert(between[between.len() - 1].2 == earlier);
    }
    lemma_put(first, reverse, forward, earlier, key);
    lemma_put(second, key, StateView::Known(action), now, key);
    lemma_expiry_changes_no_entry(before, first, earlier, reverse);
    lemma_expiry_changes_no_entry(before, first, earlier, key);
    lemma_expiry_changes_no_entry(between, second, now, key);
    if lookup(before, reverse) is Some {
        lemma_connection_is_remembered_for_ten_minutes(before, first, earlier, reverse);
    }
    if lookup(before, key) is Some {
        lemma_connection_is_remembered_for_ten_minutes(before, first, earlier, key);
        if lookup(first, key) is Some {
            lemma_connection_is_remembered_for_ten_minutes(between, second, now, key);
        }
    }
    assert(sent == released(lookup(first, reverse), ActionView::Forward) + released(
        lookup(second, key),
        action,
    ));
}

/// What a packet leaves where its direction was `found`.
spec fn left_by(found: Option<StateView>, address: NetworkAddress, data: Seq<u8>) -> StateView {
    match found {
        Some(state) => state.with_packet(address, data),
        None => StateView::Known(ActionView::Forward),
    }
}

/// Whether a packet waits as the last one of its direction.
pub open spec fn waits_last(entries: Entries, address: NetworkAddress, data: Seq<u8>) -> bool {
    lookup(entries, connection_key(connection_id(data))) matches Some(StateView::Unknown(packets))
        && packets.len() > 0 && packets.last() == (address, data)
}

/// Whether a packet is the last one of those that are dispatched.
pub open spec fn dispatched_last(
    sent: Seq<DispatchView>,
    address: NetworkAddress,
    data: Seq<u8>,
) -> bool {
    sent.len() > 0 && sent.last().address == address && sent.last().data == data
}

/// No packet is lost: one that is whole is dispatched, or waits, or is put to
/// the configuration, and in each case as it came.
pub proof fn lemma_no_packet_is_lost<C>(
    before: RedirectorView<C>,
    after: RedirectorView<C>,
    address: NetworkAddress,
    data: Seq<u8>,
    step: StepView,
)
    requires
        packet_handled(before, after, address, data, step),
        transport(data) is Ok,
    ensures
        match step {
            StepView::Process(sent) => dispatched_last(sent, address, data) || (sent.len() == 0
                && waits_last(after.entries, address, data)),
            StepView::Judge(inbound) => inbound.address == address && inbound.data == data,
            _ => false,
        },
{
    if !passes_through(data) {
        let key = connection_key(connection_id(data));
        let (found, between) = choose|found: Option<StateView>, between: Entries| #[trigger]
            found_packet_handled(
                before.entries,
                found,
                between,
                after.entries,
                before.listeners,
                address,
                data,
                step,
            );
        let value = left_by(found, address, data);
        lemma_use_touches_one_entry(before.entries, between, key, found, value, key);
        match found {
            Some(StateView::Known(_)) => {},
            Some(StateView::Unknown(packets)) => {
                assert(packets.push((address, data)).last() == (address, data));
            },
            None => {
                if address.outbound {
                    let packets = seq![(address, data)];
                    let (kept, now) = choose|kept: Entries, now: int|
                        #[trigger] aged(between, kept, now) && after.entries == put(
                            kept,
                            key,
                            StateView::Unknown(packets),
                            now,
                        );
                    lemma_put(kept, key, StateView::Unknown(packets), now, key);
                    assert(packets.last() == (address, data));
                }
            },
        }
    }
}

/// The verdict on a process that listens decides about the packet that was put
/// to the configuration, which is dispatched after those that waited, and about
/// those that follow it.
pub proof fn lemma_verdict_decides(
    before: Entries,
    after: Entries,
    inbound: InboundView,
    intercept: bool,
    sent: Seq<DispatchView>,
)
    requires
        inbound_resolved(before, after, inbound, intercept, sent),
    ensures
        dispatched_last(sent, inbound.address, inbound.data),
        sent.last().action == ConnectionAction::of_verdict(inbound.process_info, intercept),
        lookup(after, connection_key(connection_id(inbound.data))) == Some(
            StateView::Known(ConnectionAction::of_verdict(inbound.process_info, intercept)),
        ),
{
    let id = connection_id(inbound.data);
    let action = ConnectionAction::of_verdict(inbound.process_info, intercept);
    let earlier = choose|earlier: Seq<DispatchView>|
        {
            &&& #[trigger] recorded(before, after, id, action, earlier)
            &&& sent == earlier.push(
                DispatchView { address: inbound.address, data: inbound.data, action },
            )
        };
    lemma_recording_is_remembered(before, after, id, action, earlier, connection_key(id));
}

/// Whether the packets under `key` are intercepted on behalf of a process.
pub open spec fn intercepts(
    entries: Entries,
    key: ConnectionKey,
    process_info: ProcessView,
) -> bool {
    lookup(entries, key) == Some(StateView::Known(ActionView::Intercept(process_info)))
}

/// Nothing is intercepted that was not decided upon: recording what is done
/// with a direction makes that direction intercepted only where this is what
/// is recorded.
pub proof fn lemma_recording_intercepts_one_direction(
    before: Entries,
    after: Entries,
    id: ConnectionId,
    action: ActionView,
    sent: Seq<DispatchView>,
    key: ConnectionKey,
    process_info: ProcessView,
)
    requires
        recorded(before, after, id, action, sent),
        intercepts(after, key, process_info),
    ensures
        intercepts(before, key, process_info) || (key == connection_key(id) && action
            == ActionView::Intercept(process_info)),
{
    lemma_recording_is_remembered(before, after, id, action, sent, key);
    lemma_keys_are_distinct(id, id.reversed());
}

/// Handling a packet makes no direction intercepted that was not so before, and
/// dispatches a packet to be intercepted only where its direction is.
pub proof fn lemma_packets_start_no_interception<C>(
    before: RedirectorView<C>,
    after: RedirectorView<C>,
    address: NetworkAddress,
    data: Seq<u8>,
    step: StepView,
    key: ConnectionKey,
    process_info: ProcessView,
    i: int,
)
    requires
        packet_handled(before, after, address, data, step),
    ensures
        intercepts(after.entries, key, process_info) ==> intercepts(
            before.entries,
            key,
            process_info,
        ),
        step matches StepView::Process(sent) ==> 0 <= i < sent.len() ==> sent[i].action
            == ActionView::Intercept(process_info) ==> sent[i].data == data && intercepts(
            before.entries,
            connection_key(connection_id(data)),
            process_info,
        ),
{
    if transport(data) is Ok && !passes_through(data) {
        let own = connection_key(connection_id(data));
        let (found, between) = choose|found: Option<StateView>, between: Entries| #[trigger]
            found_packet_handled(
                before.entries,
                found,
                between,
                after.entries,
                before.listeners,
                address,
                data,
                step,
            );
        let value = left_by(found, address, data);
        lemma_use_touches_one_entry(before.entries, between, own, found, value, key);
        if found is None {
            let id = connection_id(data);
            if address.outbound {
                let state = StateView::Unknown(seq![(address, data)]);
                let (kept, now) = choose|kept: Entries, now: int|
                    #[trigger] aged(between, kept, now) && after.entries == put(
                        kept,
                        own,
                        state,
                        now,
                    );
                lemma_expiry_changes_no_entry(between, kept, now, key);
                lemma_put(kept, own, state, now, key);
            } else if answering(before.listeners, id.dst, id.proto) is None {
                let sent = choose|sent: Seq<DispatchView>|
                    {
                        &&& #[trigger] recorded(
                            between,
                            after.entries,
                            id,
                            ActionView::Forward,
                            sent,
                        )
                        &&& step == StepView::Process(
                            sent.push(DispatchView { address, data, action: ActionView::Forward }),
                        )
                    };
                if intercepts(after.entries, key, process_info) {
                    lemma_recording_intercepts_one_direction(
                        between,
                        after.entries,
                        id,
                        ActionView::Forward,
                        sent,
                        key,
                        process_info,
                    );
                }
                lemma_recorded_forward_releases_forward(between, after.entries, id, sent);
            }
        }
    }
}

proof fn lemma_recorded_forward_releases_forward(
    before: Entries,
    after: Entries,
    id: ConnectionId,
    sent: Seq<DispatchView>,
)
    requires
        recorded(before, after, id, ActionView::Forward, sent),
    ensures
        forall|i: int| 0 <= i < sent.len() ==> (#[trigger] sent[i]).action == ActionView::Forward,
{
}

/// Operations on sockets make no direction intercepted by themselves, and
/// dispatch nothing.
pub proof fn lemma_sockets_start_no_interception<C>(
    before: RedirectorView<C>,
    after: RedirectorView<C>,
    address: SocketAddress,
    step: StepView,
    key: ConnectionKey,
    process_info: ProcessView,
)
    requires
        socket_handled(before, after, address, step),
    ensures
        intercepts(after.entries, key, process_info) ==> intercepts(
            before.entries,
            key,
            process_info,
        ),
        step matches StepView::Process(sent) ==> sent.len() == 0,
        !(step is Judge),
        !(step is Fail),
{
    if let Some(id) = observed_connection(before.frontend, address) {
        if after.entries != before.entries {
            let own = connection_key(id);
            let (found, value) = choose|found: Option<StateView>, value: StateView|
                {
                    &&& #[trigger] used(before.entries, after.entries, own, found, value)
                    &&& found matches Some(state) ==> value == state || value == state.emptied()
                };
            lemma_use_touches_one_entry(before.entries, after.entries, own, found, value, key);
        }
    }
}

/// What was just decided is what happens to the next packet of the connection.
/// The one exception is that more than ten minutes have passed, so that
/// everything has expired in between.
pub proof fn lemma_decision_applies_to_next_packet<C>(
    entries: Entries,
    id: ConnectionId,
    action: ActionView,
    sent: Seq<DispatchView>,
    before: RedirectorView<C>,
    after: RedirectorView<C>,
    address: NetworkAddress,
    data: Seq<u8>,
    step: StepView,
)
    requires
        recorded(entries, before.entries, id, action, sent),
        packet_handled(before, after, address, data, step),
        transport(data) is Ok,
        !passes_through(data),
        connection_id(data) == id,
    ensures
        step == StepView::Process(seq![DispatchView { address, data, action }]) || exists|now: int|
            {
                &&& #[trigger] aged(before.entries, Seq::empty(), now)
                &&& now - last_used(before.entries, connection_key(id))->0 > 600 * 1_000_000_000
                &&& unseen_packet_handled(
                    Seq::empty(),
                    after.entries,
                    before.listeners,
                    address,
                    data,
                    step,
                )
            },
{
    let key = connection_key(id);
    lemma_recording_is_remembered(entries, before.entries, id, action, sent, key);
    let (found, between) = choose|found: Option<StateView>, between: Entries| #[trigger]
        found_packet_handled(
            before.entries,
            found,
            between,
            after.entries,
            before.listeners,
            address,
            data,
            step,
        );
    let value = left_by(found, address, data);
    lemma_use_touches_one_entry(before.entries, between, key, found, value, key);
    if found is None {
        let now = choose|now: int| #[trigger] aged(before.entries, between, now);
        let expired = choose|expired: int|
            0 <= expired <= before.entries.len() && between == #[trigger] before.entries.skip(
                expired,
            );
        if between.len() > 0 {
            assert(between.last() == before.entries.last());
        }
        assert(between =~= Seq::empty());
        assert(aged(before.entries, Seq::empty(), now));
        assert(lapsed(before.entries[before.entries.len() - 1].2, now));
    }
}

/// The next packet of the other direction is forwarded, unless that direction
/// has expired.
pub proof fn lemma_other_direction_is_forwarded<C>(
    entries: Entries,
    id: ConnectionId,
    action: ActionView,
    sent: Seq<DispatchView>,
    before: RedirectorView<C>,
    after: RedirectorView<C>,
    address: NetworkAddress,
    data: Seq<u8>,
    step: StepView,
)
    requires
        recorded(entries, before.entries, id, action, sent),
        packet_handled(before, after, address, data, step),
        transport(data) is Ok,
        !passes_through(data),
        connection_id(data) == id.reversed(),
        id.reversed() != id,
    ensures
        step == StepView::Process(
            seq![DispatchView { address, data, action: ActionView::Forward }],
        ) || exists|kept: Entries, now: int|
            {
                &&& #[trigger] aged(before.entries, kept, now)
                &&& lookup(kept, connection_key(id.reversed())) is None
                &&& unseen_packet_handled(
                    kept,
                    after.entries,
                    before.listeners,
                    address,
                    data,
                    step,
                )
            },
{
    let key = connection_key(id.reversed());
    lemma_recording_is_remembered(entries, before.entries, id, action, sent, key);
    let (found, between) = choose|found: Option<StateView>, between: Entries| #[trigger]
        found_packet_handled(
            before.entries,
            found,
            between,
            after.entries,
            before.listeners,
            address,
            data,
            step,
        );
    let value = left_by(found, address, data);
    lemma_use_touches_one_entry(before.entries, between, key, found, value, key);
}

/// Once a process listens on a socket, a packet from outside for that socket
/// whose direction is not known is put to the configuration on behalf of this
/// very process.
pub proof fn lemma_listener_receives(
    entries: Entries,
    after: Entries,
    listeners: Map<ListenerKey, ProcessView>,
    socket: SocketAddr,
    process_info: ProcessView,
    address: NetworkAddress,
    data: Seq<u8>,
    step: StepView,
)
    requires
        unseen_packet_handled(
            entries,
            after,
            listeners.insert((registered(socket), connection_id(data).proto), process_info),
            address,
            data,
            step,
        ),
        !address.outbound,
        connection_id(data).dst == registered(socket) || (registered(socket) == wildcard(
            connection_id(data).dst,
        ) && !listeners.contains_key((connection_id(data).dst, connection_id(data).proto))),
    ensures
        step == StepView::Judge(InboundView { address, data, process_info }),
        after == entries,
{
}

/// Once a socket is closed, no packet waits for it, and nobody listens on it.
/// What is then known of its connection was known before.
pub proof fn lemma_close_leaves_nothing<C>(
    before: RedirectorView<C>,
    after: RedirectorView<C>,
    address: SocketAddress,
    step: StepView,
    id: ConnectionId,
)
    requires
        socket_handled(before, after, address, step),
        address.event == WinDivertEvent::SocketClose,
        observed_connection(before.frontend, address) == Some(id),
    ensures
        !after.listeners.contains_key((registered(id.src), id.proto)),
        lookup(after.entries, connection_key(id)) matches Some(StateView::Unknown(packets))
            ==> packets.len() == 0,
        lookup(after.entries, connection_key(id)) matches Some(StateView::Known(action)) ==> lookup(
            before.entries,
            connection_key(id),
        ) == Some(StateView::Known(action)),
{
    let key = connection_key(id);
    let (found, value) = choose|found: Option<StateView>, value: StateView|
        {
            &&& #[trigger] used(before.entries, after.entries, key, found, value)
            &&& found matches Some(state) ==> value == state.emptied()
        };
    lemma_use_touches_one_entry(before.entries, after.entries, key, found, value, key);
}

/// The connection of a row of the table of sockets.
pub open spec fn row_connection(row: TableEntryView) -> ConnectionId {
    ConnectionId {
        proto: TransportProtocol::numbered(row.protocol)->Ok_0,
        src: row.local_addr,
        dst: row.remote_addr,
    }
}

/// Whether a row of the table says that the packets under `key` are
/// intercepted.
pub open spec fn row_intercepts(
    row: TableEntryView,
    key: ConnectionKey,
    process_info: ProcessView,
) -> bool {
    &&& TransportProtocol::numbered(row.protocol) is Ok
    &&& !row.remote_addr.spec_ip().unspecified()
    &&& row.intercept
    &&& row.process_info == process_info
    &&& connection_key(row_connection(row)) == key
}

/// Whether a row of the table says that a process listens.
pub open spec fn row_listens(
    row: TableEntryView,
    key: ListenerKey,
    process_info: ProcessView,
) -> bool {
    &&& TransportProtocol::numbered(row.protocol) == Ok::<_, ParseError>(key.1)
    &&& row.remote_addr.spec_ip().unspecified()
    &&& row.process_info == process_info
    &&& registered(row.local_addr) == key.0
}

proof fn lemma_table_is_the_source(
    before: Knowledge,
    table: Seq<TableEntryView>,
    after: Knowledge,
    key: ConnectionKey,
    process_info: ProcessView,
)
    requires
        table_taken_in(before, table, after),
        intercepts(after.entries, key, process_info),
        !intercepts(before.entries, key, process_info),
    ensures
        exists|i: int|
            0 <= i < table.len() && row_intercepts(#[trigger] table[i], key, process_info),
    decreases table.len(),
{
    if table.len() > 0 {
        let between = choose|between: Knowledge|
            {
                &&& table_taken_in(before, table.drop_last(), between)
                &&& #[trigger] row_taken_in(between, table.last(), after)
            };
        let row = table.last();
        if intercepts(between.entries, key, process_info) {
            lemma_table_is_the_source(before, table.drop_last(), between, key, process_info);
            let i = choose|i: int|
                0 <= i < table.drop_last().len() && row_intercepts(
                    #[trigger] table.drop_last()[i],
                    key,
                    process_info,
                );
            assert(row_intercepts(table[i], key, process_info));
        } else {
            let id = row_connection(row);
            let action = ConnectionAction::of_verdict(row.process_info, row.intercept);
            lemma_recording_intercepts_one_direction(
                between.entries,
                after.entries,
                id,
                action,
                Seq::empty(),
                key,
                process_info,
            );
            assert(row_intercepts(table[table.len() - 1], key, process_info));
        }
    }
}

proof fn lemma_table_is_the_source_of_listeners(
    before: Knowledge,
    table: Seq<TableEntryView>,
    after: Knowledge,
    key: ListenerKey,
)
    requires
        table_taken_in(before, table, after),
        after.listeners.contains_key(key),
        !before.listeners.contains_key(key),
    ensures
        exists|i: int|
            0 <= i < table.len() && row_listens(#[trigger] table[i], key, after.listeners[key]),
    decreases table.len(),
{
    if table.len() > 0 {
        let between = choose|between: Knowledge|
            {
                &&& table_taken_in(before, table.drop_last(), between)
                &&& #[trigger] row_taken_in(between, table.last(), after)
            };
        if between.listeners.contains_key(key) && between.listeners[key] == after.listeners[key] {
            lemma_table_is_the_source_of_listeners(before, table.drop_last(), between, key);
            let i = choose|i: int|
                0 <= i < table.drop_last().len() && row_listens(
                    #[trigger] table.drop_last()[i],
                    key,
                    after.listeners[key],
                );
            assert(row_listens(table[i], key, after.listeners[key]));
        } else {
            assert(row_listens(table[table.len() - 1], key, after.listeners[key]));
        }
    }
}

/// A change of the configuration leaves nothing of what was decided before it:
/// what is intercepted afterwards is intercepted because of a socket of the
/// table and the verdict on its process, and nothing waits.
pub proof fn lemma_conf_change_forgets<C>(
    before: RedirectorView<C>,
    after: RedirectorView<C>,
    conf: C,
    table: Option<Seq<TableEntryView>>,
    error: Option<ConfChangeError>,
    key: ConnectionKey,
    process_info: ProcessView,
    listener: ListenerKey,
)
    requires
        conf_changed(before, after, conf, table, error),
    ensures
        after.conf == conf,
        intercepts(after.entries, key, process_info) ==> (table matches Some(rows) && exists|i: int|
            0 <= i < rows.len() && row_intercepts(#[trigger] rows[i], key, process_info)),
        after.listeners.contains_key(listener) ==> (table matches Some(rows) && exists|i: int|
            0 <= i < rows.len() && row_listens(
                #[trigger] rows[i],
                listener,
                after.listeners[listener],
            )),
        lookup(after.entries, key) matches Some(state) ==> state is Known,
{
    lemma_lookup(after.entries, key);
    if let Some(rows) = table {
        let known = Knowledge { entries: after.entries, listeners: after.listeners };
        let read = choose|read: int|
            {
                &&& #[trigger] table_read(before.frontend, rows, read, error)
                &&& table_taken_in(Knowledge::nothing(), rows.take(read), known)
            };
        if intercepts(after.entries, key, process_info) {
            lemma_table_is_the_source(
                Knowledge::nothing(),
                rows.take(read),
                known,
                key,
                process_info,
            );
            let i = choose|i: int|
                0 <= i < read && row_intercepts(#[trigger] rows.take(read)[i], key, process_info);
            assert(row_intercepts(rows[i], key, process_info));
        }
        if after.listeners.contains_key(listener) {
            lemma_table_is_the_source_of_listeners(
                Knowledge::nothing(),
                rows.take(read),
                known,
                listener,
            );
            let i = choose|i: int|
                0 <= i < read && row_listens(
                    #[trigger] rows.take(read)[i],
                    listener,
                    after.listeners[listener],
                );
            assert(row_listens(rows[i], listener, after.listeners[listener]));
        }
    }
}

/// A frontend that goes on after an error is one that the redirector itself
/// never fails.
pub proof fn lemma_frontend_that_goes_on_is_not_failed<C>(
    before: RedirectorView<C>,
    after: RedirectorView<C>,
    event: Event<C>,
    step: StepView,
)
    requires
        event_handled(before, after, event, step),
        !before.frontend.ends_on_error(),
    ensures
        !(step is Fail),
{
}

/// Whether a packet of the direction `id` that leaves this machine was handled.
pub open spec fn outbound_handled<C>(
    before: RedirectorView<C>,
    after: RedirectorView<C>,
    packet: (NetworkAddress, Seq<u8>),
    step: StepView,
    id: ConnectionId,
) -> bool {
    &&& packet_handled(before, after, packet.0, packet.1, step)
    &&& packet.0.outbound
    &&& transport(packet.1) is Ok
    &&& !passes_through(packet.1)
    &&& connection_id(packet.1) == id
}

/// Whether such packets were handled one after the other, from the first of the
/// `states` to the last.
pub open spec fn all_outbound_handled<C>(
    states: Seq<RedirectorView<C>>,
    packets: Seq<(NetworkAddress, Seq<u8>)>,
    steps: Seq<StepView>,
    id: ConnectionId,
) -> bool {
    &&& states.len() == packets.len() + 1
    &&& steps.len() == packets.len()
    &&& forall|i: int|
        0 <= i < packets.len() ==> outbound_handled(
            states[i],
            states[i + 1],
            #[trigger] packets[i],
            steps[i],
            id,
        )
}

/// The packets that wait in a direction that was `found`.
pub open spec fn waiting(found: Option<StateView>) -> Seq<(NetworkAddress, Seq<u8>)> {
    match found {
        Some(StateView::Unknown(packets)) => packets,
        _ => Seq::empty(),
    }
}

/// A packet that leaves this machine in a direction about which nothing is
/// decided waits, behind those that wait there already. If they have expired,
/// it is the only one.
pub proof fn lemma_undecided_packet_waits<C>(
    before: RedirectorView<C>,
    after: RedirectorView<C>,
    packet: (NetworkAddress, Seq<u8>),
    step: StepView,
    id: ConnectionId,
)
    requires
        outbound_handled(before, after, packet, step, id),
        undecided(lookup(before.entries, connection_key(id))),
    ensures
        step == StepView::Process(Seq::empty()),
        ({
            let all = waiting(lookup(before.entries, connection_key(id))).push(packet);
            let found = lookup(after.entries, connection_key(id));
            found == Some(StateView::Unknown(all)) || found == Some(
                StateView::Unknown(seq![packet]),
            )
        }),
{
    let key = connection_key(id);
    let (address, data) = packet;
    let (found, between) = choose|found: Option<StateView>, between: Entries| #[trigger]
        found_packet_handled(
            before.entries,
            found,
            between,
            after.entries,
            before.listeners,
            address,
            data,
            step,
        );
    let value = left_by(found, address, data);
    lemma_use_touches_one_entry(before.entries, between, key, found, value, key);
    if found is None {
        let state = StateView::Unknown(seq![packet]);
        let (kept, now) = choose|kept: Entries, now: int|
            #[trigger] aged(between, kept, now) && after.entries == put(kept, key, state, now);
        lemma_put(kept, key, state, now, key);
    }
}

/// Packets that leave this machine, one after the other, in a direction about
/// which nothing is decided all wait, in the order in which they came and behind
/// those that waited before. Where the direction expires in between, what waits
/// is a tail of them.
pub proof fn lemma_undecided_packets_wait_in_order<C>(
    states: Seq<RedirectorView<C>>,
    packets: Seq<(NetworkAddress, Seq<u8>)>,
    steps: Seq<StepView>,
    id: ConnectionId,
)
    requires
        all_outbound_handled(states, packets, steps, id),
        undecided(lookup(states[0].entries, connection_key(id))),
    ensures
        forall|i: int| 0 <= i < steps.len() ==> #[trigger] steps[i] == StepView::Process(
            Seq::empty(),
        ),
        undecided(lookup(states.last().entries, connection_key(id))),
        ({
            let all = waiting(lookup(states[0].entries, connection_key(id))) + packets;
            let left = waiting(lookup(states.last().entries, connection_key(id)));
            &&& left.len() <= all.len()
            &&& left == all.skip(all.len() - left.len())
            &&& packets.len() > 0 ==> left.len() > 0
        }),
    decreases packets.len(),
{
    let key = connection_key(id);
    let all = waiting(lookup(states[0].entries, key)) + packets;
    if packets.len() == 0 {
        assert(waiting(lookup(states[0].entries, key)) =~= all.skip(0));
    } else {
        let n = packets.len() - 1;
        let earlier = states.drop_last();
        assert forall|i: int| 0 <= i < n implies outbound_handled(
            earlier[i],
            earlier[i + 1],
            #[trigger] packets.drop_last()[i],
            steps.drop_last()[i],
            id,
        ) by {
            assert(packets[i] == packets.drop_last()[i]);
        }
        lemma_undecided_packets_wait_in_order(
            earlier,
            packets.drop_last(),
            steps.drop_last(),
            id,
        );
        assert(outbound_handled(states[n], states[n + 1], packets[n], steps[n], id));
        lemma_undecided_packet_waits(states[n], states[n + 1], packets[n], steps[n], id);
        assert forall|i: int| 0 <= i < steps.len() implies #[trigger] steps[i]
            == StepView::Process(Seq::empty()) by {
            if i < n {
                assert(steps[i] == steps.drop_last()[i]);
            }
        }
        let left = waiting(lookup(states.last().entries, key));
        assert(left =~= all.skip(all.len() - left.len()));
    }
}

/// Packets that leave this machine in a direction about which nothing is
/// decided, taken in one after the other, are released by the recording of what
/// is done with it: once each, in the order in which they came, and last of what
/// is sent. Where the direction expired in between, this holds of a tail of them.
pub proof fn lemma_undecided_packets_are_released_in_order<C>(
    states: Seq<RedirectorView<C>>,
    packets: Seq<(NetworkAddress, Seq<u8>)>,
    steps: Seq<StepView>,
    id: ConnectionId,
    after: Entries,
    action: ActionView,
    sent: Seq<DispatchView>,
)
    requires
        all_outbound_handled(states, packets, steps, id),
        lookup(states[0].entries, connection_key(id)) is None,
        recorded(states.last().entries, after, id, action, sent),
        distinct(states.last().entries),
        id.reversed() != id,
    ensures
        exists|other: Option<StateView>, start: int|
            {
                &&& 0 <= start <= packets.len()
                &&& sent == #[trigger] released(other, ActionView::Forward) + released(
                    Some(StateView::Unknown(#[trigger] packets.skip(start))),
                    action,
                )
                &&& start == packets.len() <==> packets.len() == 0 || !is_fresh(
                    states.last().entries,
                    connection_key(id),
                    last_used(after, connection_key(id))->0,
                )
            },
{
    let key = connection_key(id);
    let now = last_used(after, key)->0;
    let entries = states.last().entries;
    lemma_undecided_packets_wait_in_order(states, packets, steps, id);
    lemma_recording_releases_what_waits(entries, after, id, action, sent);
    let left = waiting(lookup(entries, key));
    assert(Seq::empty() + packets =~= packets);
    let (other, own) = choose|first: Option<StateView>, second: Option<StateView>|
        {
            &&& sent == #[trigger] released(first, ActionView::Forward) + #[trigger] released(
                second,
                action,
            )
            &&& first is None || first == lookup(entries, connection_key(id.reversed()))
            &&& is_fresh(entries, connection_key(id.reversed()), now) ==> first is Some
            &&& second is None || second == lookup(entries, key)
            &&& is_fresh(entries, key, now) <==> second is Some
        };
    let start = if own is Some {
        packets.len() - left.len()
    } else {
        packets.len() as int
    };
    let tail = StateView::Unknown(packets.skip(start));
    assert(released(own, action) =~= released(Some(tail), action));
    assert(sent == released(other, ActionView::Forward) + released(Some(tail), action));
}

/// Whether nothing is intercepted.
pub open spec fn intercepts_nothing(entries: Entries) -> bool {
    forall|key: ConnectionKey, process_info: ProcessView| !#[trigger]
        intercepts(entries, key, process_info)
}

/// Whether every packet is forwarded.
pub open spec fn all_forwarded(sent: Seq<DispatchView>) -> bool {
    forall|i: int| 0 <= i < sent.len() ==> (#[trigger] sent[i]).action == ActionView::Forward
}

/// Whether an event brings no verdict that a process is intercepted.
pub open spec fn clears_all<C>(event: Event<C>) -> bool {
    event matches Event::InterceptConf(_, Some(table)) ==> forall|i: int|
        0 <= i < table@.len() ==> !(#[trigger] table_views(table@)[i]).intercept
}

/// The packets that are processed in a step.
pub open spec fn processed(step: StepView) -> Seq<DispatchView> {
    match step {
        StepView::Process(sent) => sent,
        _ => Seq::empty(),
    }
}

/// Whether the redirector went from `before` to `after` by handling an event, or
/// by going on with one, with no verdict that a process is intercepted.
pub open spec fn advanced_without_interception<C>(
    before: RedirectorView<C>,
    after: RedirectorView<C>,
    sent: Seq<DispatchView>,
) -> bool {
    ||| exists|event: Event<C>, step: StepView|
        {
            &&& #[trigger] event_handled(before, after, event, step)
            &&& clears_all(event)
            &&& sent == processed(step)
        }
    ||| exists|inbound: InboundView| #[trigger]
        inbound_resolved(before.entries, after.entries, inbound, false, sent)
    ||| exists|id: ConnectionId| #[trigger]
        recorded(before.entries, after.entries, id, ActionView::Forward, sent)
    ||| after.entries == before.entries && sent == Seq::<DispatchView>::empty()
}

proof fn lemma_recording_forward_intercepts_nothing(
    before: Entries,
    after: Entries,
    id: ConnectionId,
    sent: Seq<DispatchView>,
)
    requires
        recorded(before, after, id, ActionView::Forward, sent),
        intercepts_nothing(before),
    ensures
        intercepts_nothing(after),
        all_forwarded(sent),
{
    lemma_recorded_forward_releases_forward(before, after, id, sent);
    assert forall|key: ConnectionKey, process_info: ProcessView| !#[trigger]
        intercepts(after, key, process_info) by {
        if intercepts(after, key, process_info) {
            lemma_recording_intercepts_one_direction(
                before,
                after,
                id,
                ActionView::Forward,
                sent,
                key,
                process_info,
            );
        }
    }
}

proof fn lemma_event_intercepts_nothing<C>(
    before: RedirectorView<C>,
    after: RedirectorView<C>,
    event: Event<C>,
    step: StepView,
)
    requires
        event_handled(before, after, event, step),
        clears_all(event),
        intercepts_nothing(before.entries),
    ensures
        intercepts_nothing(after.entries),
        all_forwarded(processed(step)),
{
    let sent = processed(step);
    match event {
        Event::NetworkPacket(address, data) => {
            assert forall|key: ConnectionKey, process_info: ProcessView| !#[trigger]
                intercepts(after.entries, key, process_info) by {
                lemma_packets_start_no_interception(
                    before,
                    after,
                    address,
                    data@,
                    step,
                    key,
                    process_info,
                    0,
                );
            }
            assert forall|i: int| 0 <= i < sent.len() implies (#[trigger] sent[i]).action
                == ActionView::Forward by {
                if let ActionView::Intercept(process_info) = sent[i].action {
                    let key = connection_key(connection_id(data@));
                    lemma_packets_start_no_interception(
                        before,
                        after,
                        address,
                        data@,
                        step,
                        key,
                        process_info,
                        i,
                    );
                    assert(intercepts(before.entries, key, process_info));
                }
            }
        },
        Event::SocketInfo(address) => {
            assert forall|key: ConnectionKey, process_info: ProcessView| !#[trigger]
                intercepts(after.entries, key, process_info) by {
                lemma_sockets_start_no_interception(
                    before,
                    after,
                    address,
                    step,
                    key,
                    process_info,
                );
            }
        },
        Event::InterceptConf(conf, table) => {
            let error = match step {
                StepView::Fail(e) => Some(e),
                _ => None,
            };
            assert forall|key: ConnectionKey, process_info: ProcessView| !#[trigger]
                intercepts(after.entries, key, process_info) by {
                let listener = (
                    SocketAddr::of(IpAddr::V4(0), 0),
                    TransportProtocol::Tcp,
                );
                lemma_conf_change_forgets(
                    before,
                    after,
                    conf,
                    rows_of(table),
                    error,
                    key,
                    process_info,
                    listener,
                );
            }
        },
        Event::PacketToInject(_) => {},
    }
}

/// As long as every verdict is that a process is not intercepted, whatever
/// happens makes nothing intercepted, and forwards every packet that it sends.
pub proof fn lemma_nothing_is_intercepted_without_a_verdict<C>(
    before: RedirectorView<C>,
    after: RedirectorView<C>,
    sent: Seq<DispatchView>,
)
    requires
        advanced_without_interception(before, after, sent),
        intercepts_nothing(before.entries),
    ensures
        intercepts_nothing(after.entries),
        all_forwarded(sent),
{
    if exists|event: Event<C>, step: StepView|
        {
            &&& #[trigger] event_handled(before, after, event, step)
            &&& clears_all(event)
            &&& sent == processed(step)
        } {
        let (event, step) = choose|event: Event<C>, step: StepView|
            {
                &&& #[trigger] event_handled(before, after, event, step)
                &&& clears_all(event)
                &&& sent == processed(step)
            };
        lemma_event_intercepts_nothing(before, after, event, step);
    } else if exists|inbound: InboundView| #[trigger]
        inbound_resolved(before.entries, after.entries, inbound, false, sent) {
        let inbound = choose|inbound: InboundView| #[trigger]
            inbound_resolved(before.entries, after.entries, inbound, false, sent);
        let id = connection_id(inbound.data);
        let packet = DispatchView {
            address: inbound.address,
            data: inbound.data,
            action: ActionView::Forward,
        };
        let earlier = choose|earlier: Seq<DispatchView>|
            {
                &&& #[trigger] recorded(
                    before.entries,
                    after.entries,
                    id,
                    ActionView::Forward,
                    earlier,
                )
                &&& sent == earlier.push(packet)
            };
        lemma_recording_forward_intercepts_nothing(before.entries, after.entries, id, earlier);
    } else if after.entries != before.entries || sent.len() > 0 {
        let id = choose|id: ConnectionId| #[trigger]
            recorded(before.entries, after.entries, id, ActionView::Forward, sent);
        lemma_recording_forward_intercepts_nothing(before.entries, after.entries, id, sent);
    }
}

/// A redirector that starts out knowing nothing forwards every packet that it
/// ever sends, as long as every verdict is that a process is not intercepted.
pub proof fn lemma_everything_is_forwarded_without_a_verdict<C>(
    states: Seq<RedirectorView<C>>,
    sent: Seq<Seq<DispatchView>>,
    n: int,
)
    requires
        states.len() == sent.len() + 1,
        states[0].entries == Entries::empty(),
        forall|i: int|
            0 <= i < sent.len() ==> advanced_without_interception(
                states[i],
                states[i + 1],
                #[trigger] sent[i],
            ),
        0 <= n <= sent.len(),
    ensures
        intercepts_nothing(states[n].entries),
        forall|i: int| 0 <= i < n ==> all_forwarded(#[trigger] sent[i]),
    decreases n,
{
    if n > 0 {
        lemma_everything_is_forwarded_without_a_verdict(states, sent, n - 1);
        assert(advanced_without_interception(states[n - 1], states[n], sent[n - 1]));
        lemma_nothing_is_intercepted_without_a_verdict(states[n - 1], states[n], sent[n - 1]);
    }
}

/// A packet that the proxy sends leaves as it is, outbound, and is never
/// intercepted.
pub proof fn lemma_injected_packet_leaves_unchanged(data: Seq<u8>)
    requires
        transport(data) is Ok,
    ensures
        packet_injected(data).len() == 1,
        packet_injected(data)[0].processable(),
        packet_injected(data)[0].effect() == (EffectView::Inject {
            address: NetworkAddress::injected(),
            data,
        }),
        NetworkAddress::injected().outbound,
{
}

/// An intercepted packet is delivered with the length and the connection that
/// it came with.
pub proof fn lemma_delivered_packet_keeps_connection(dispatch: DispatchView)
    requires
        dispatch.processable(),
        parses(dispatch.data),
        regular(dispatch.data),
    ensures
        match dispatch.effect() {
            EffectView::Deliver { data, process_info } => data.len() == dispatch.data.len()
                && connection_id(data) == connection_id(dispatch.data) && dispatch.action
                == ActionView::Intercept(process_info),
            EffectView::Inject { address, data } => data == dispatch.data && address
                == dispatch.address && dispatch.action == ActionView::Forward,
        },
{
    if dispatch.action is Intercept {
        lemma_renewing_keeps_connection(dispatch.address.checksums, dispatch.data);
    }
}

} // verus!
