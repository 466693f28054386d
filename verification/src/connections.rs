//! The connections that packets belong to, and what is done with them.

use vstd::prelude::*;

use lru_time_cache::LruCache;

use crate::addr::SocketAddr;
use crate::dispatch::{dispatch_views, Dispatch, DispatchView};
use crate::event::NetworkAddress;
use crate::header::{connection_id, parses};
use crate::packet::Packet;
use crate::process::{ActionView, ConnectionAction};
use crate::protocol::{ConnectionId, TransportProtocol};

verus! {

/// One end of a connection, in integers: the IP version, the address, the port
/// and, of an IPv6 address, the flow and the scope.
pub type EndKey = (u8, u128, u16, u32, u32);

/// One direction of a connection, in integers: the protocol number, the source
/// and the destination.
pub type ConnectionKey = (u8, EndKey, EndKey);

pub open spec fn end_key(address: SocketAddr) -> EndKey {
    match address {
        SocketAddr::V4(a) => (4, a.ip as u128, a.port, 0, 0),
        SocketAddr::V6(a) => (6, a.ip, a.port, a.flowinfo, a.scope_id),
    }
}

pub open spec fn connection_key(id: ConnectionId) -> ConnectionKey {
    (id.proto.number(), end_key(id.src), end_key(id.dst))
}

/// Different connections have different keys.
pub proof fn lemma_keys_are_distinct(a: ConnectionId, b: ConnectionId)
    ensures
        connection_key(a) == connection_key(b) ==> a == b,
{
}

/// A packet that waits until it is known what to do with its connection.
pub type WaitingPacket = (NetworkAddress, Packet);

/// What is known of one direction of a connection.
#[derive(Debug)]
pub enum ConnectionState {
    /// What is done with its packets.
    Known(ConnectionAction),
    /// Nothing yet; its packets wait, in the order in which they came.
    Unknown(Vec<WaitingPacket>),
}

/// The value of a [`ConnectionState`].
pub enum StateView {
    Known(ActionView),
    Unknown(Seq<(NetworkAddress, Seq<u8>)>),
}

impl StateView {
    /// What is known once one more packet of the direction has come.
    pub open spec fn with_packet(self, address: NetworkAddress, data: Seq<u8>) -> StateView {
        match self {
            StateView::Known(action) => StateView::Known(action),
            StateView::Unknown(packets) => StateView::Unknown(packets.push((address, data))),
        }
    }

    /// What is known once the waiting packets are dropped.
    pub open spec fn emptied(self) -> StateView {
        match self {
            StateView::Known(action) => StateView::Known(action),
            StateView::Unknown(_) => StateView::Unknown(Seq::empty()),
        }
    }
}

/// Whether it is open what is done with the packets of a direction that was
/// `found`.
pub open spec fn undecided(found: Option<StateView>) -> bool {
    match found {
        Some(StateView::Known(_)) => false,
        _ => true,
    }
}

pub open spec fn waiting_view(packets: Seq<WaitingPacket>) -> Seq<(NetworkAddress, Seq<u8>)> {
    packets.map_values(|packet: WaitingPacket| (packet.0, packet.1@))
}

impl View for ConnectionState {
    type V = StateView;

    open spec fn view(&self) -> StateView {
        match self {
            ConnectionState::Known(action) => StateView::Known(action@),
            ConnectionState::Unknown(packets) => StateView::Unknown(waiting_view(packets@)),
        }
    }
}

/// The value under `key` in a list of entries. An entry is a key, a value and
/// the instant of its last use, in nanoseconds from a fixed point in time.
pub open spec fn lookup<V>(entries: Seq<(ConnectionKey, V, int)>, key: ConnectionKey) -> Option<V>
    decreases entries.len(),
{
    if entries.len() == 0 {
        None
    } else if entries.last().0 == key {
        Some(entries.last().1)
    } else {
        lookup(entries.drop_last(), key)
    }
}

/// When the entry under `key` was last used.
pub open spec fn last_used<V>(entries: Seq<(ConnectionKey, V, int)>, key: ConnectionKey) -> Option<
    int,
>
    decreases entries.len(),
{
    if entries.len() == 0 {
        None
    } else if entries.last().0 == key {
        Some(entries.last().2)
    } else {
        last_used(entries.drop_last(), key)
    }
}

/// The entries with no entry under `key`.
pub open spec fn without<V>(entries: Seq<(ConnectionKey, V, int)>, key: ConnectionKey) -> Seq<
    (ConnectionKey, V, int),
>
    decreases entries.len(),
{
    if entries.len() == 0 {
        entries
    } else if entries.last().0 == key {
        without(entries.drop_last(), key)
    } else {
        without(entries.drop_last(), key).push(entries.last())
    }
}

/// The entries with `value` under `key`, used `now` and so the most recently
/// used one.
pub open spec fn put<V>(
    entries: Seq<(ConnectionKey, V, int)>,
    key: ConnectionKey,
    value: V,
    now: int,
) -> Seq<(ConnectionKey, V, int)> {
    without(entries, key).push((key, value, now))
}

/// Whether a use `last_used` is more than `seconds` ago `now`.
pub open spec fn is_past(last_used: int, seconds: nat, now: int) -> bool {
    last_used + seconds * 1_000_000_000 < now
}

/// Whether it is the first `expired` entries that expire `now`: they are more
/// than `seconds` old and the one after them, if there is one, is not. No entry
/// was used later than `now`.
pub open spec fn expires<V>(
    entries: Seq<(ConnectionKey, V, int)>,
    expired: int,
    seconds: nat,
    now: int,
) -> bool {
    &&& 0 <= expired <= entries.len()
    &&& forall|i: int| 0 <= i < entries.len() ==> (#[trigger] entries[i]).2 <= now
    &&& forall|i: int| 0 <= i < expired ==> is_past((#[trigger] entries[i]).2, seconds, now)
    &&& expired < entries.len() ==> !is_past(entries[expired].2, seconds, now)
}

/// The cache that connections are kept in.
#[verifier::external_type_specification]
#[verifier::external_body]
#[verifier::reject_recursive_types(Key)]
#[verifier::reject_recursive_types(Value)]
pub struct ExLruCache<Key, Value>(LruCache<Key, Value>);

/// The keys and values of a cache, each with the instant of its last use in
/// nanoseconds from a fixed point in time, the least recently used first.
pub uninterp spec fn cache_entries(cache: LruCache<ConnectionKey, ConnectionState>) -> Seq<
    (ConnectionKey, ConnectionState, int),
>;

/// After how many seconds without use an entry of a cache expires.
pub uninterp spec fn cache_expiry(cache: LruCache<ConnectionKey, ConnectionState>) -> nat;

/// Makes a cache with `LruCache::with_expiry_duration`. Claims that it is empty
/// and that its entries expire after `seconds` without use.
#[verifier::external_body]
fn cache_with_expiry(seconds: u32) -> (cache: LruCache<ConnectionKey, ConnectionState>)
    ensures
        cache_entries(cache) == Seq::<(ConnectionKey, ConnectionState, int)>::empty(),
        cache_expiry(cache) == seconds,
{
    LruCache::with_expiry_duration(std::time::Duration::from_secs(u64::from(seconds)))
}

/// Looks a key up with `LruCache::get_mut`. Claims that there is an instant now,
/// which the clock gives and no entry is later than, such that entries expire
/// from the least recently used on as long as their last use is too long ago,
/// that the value under the key is then lent if there is one, and that its entry
/// becomes the most recently used one, used now. When now is, is not said.
#[verifier::external_body]
fn cache_get_mut<'a>(
    cache: &'a mut LruCache<ConnectionKey, ConnectionState>,
    key: &ConnectionKey,
) -> (result: Option<&'a mut ConnectionState>)
    ensures
        cache_expiry(*final(cache)) == cache_expiry(*old(cache)),
        exists|expired: int, now: int| #[trigger]
            expires(cache_entries(*old(cache)), expired, cache_expiry(*old(cache)), now) && ({
                let kept = cache_entries(*old(cache)).skip(expired);
                match result {
                    Some(value) => lookup(kept, *key) == Some(*value) && cache_entries(
                        *final(cache),
                    ) == put(kept, *key, *final(value), now),
                    None => lookup(kept, *key) is None && cache_entries(*final(cache)) == kept,
                }
            }),
{
    cache.get_mut(key)
}

/// Stores a value with `LruCache::insert`. Claims that entries expire as
/// [`cache_get_mut`] says, that the value is then stored under the key as the
/// most recently used entry, used now, and that the value which was there before
/// is returned. When now is, is not said.
#[verifier::external_body]
fn cache_insert(
    cache: &mut LruCache<ConnectionKey, ConnectionState>,
    key: ConnectionKey,
    value: ConnectionState,
) -> (result: Option<ConnectionState>)
    ensures
        cache_expiry(*final(cache)) == cache_expiry(*old(cache)),
        exists|expired: int, now: int| #[trigger]
            expires(cache_entries(*old(cache)), expired, cache_expiry(*old(cache)), now) && ({
                let kept = cache_entries(*old(cache)).skip(expired);
                result == lookup(kept, key) && cache_entries(*final(cache)) == put(
                    kept,
                    key,
                    value,
                    now,
                )
            }),
{
    cache.insert(key, value)
}

/// Empties a cache with `LruCache::clear`. Claims that no entry is left and
/// that later ones expire as before.
#[verifier::external_body]
fn cache_clear(cache: &mut LruCache<ConnectionKey, ConnectionState>)
    ensures
        cache_entries(*final(cache)) == Seq::<(ConnectionKey, ConnectionState, int)>::empty(),
        cache_expiry(*final(cache)) == cache_expiry(*old(cache)),
{
    cache.clear()
}

/// Looks a key up with `LruCache::get`. Claims what [`cache_get_mut`] claims of
/// `LruCache::get_mut`, but that the value stays as it is.
#[verifier::external_body]
fn cache_get<'a>(
    cache: &'a mut LruCache<ConnectionKey, ConnectionState>,
    key: &ConnectionKey,
) -> (result: Option<&'a ConnectionState>)
    ensures
        cache_expiry(*final(cache)) == cache_expiry(*old(cache)),
        exists|expired: int, now: int| #[trigger]
            expires(cache_entries(*old(cache)), expired, cache_expiry(*old(cache)), now) && ({
                let kept = cache_entries(*old(cache)).skip(expired);
                match result {
                    Some(value) => lookup(kept, *key) == Some(*value) && cache_entries(
                        *final(cache),
                    ) == put(kept, *key, *value, now),
                    None => lookup(kept, *key) is None && cache_entries(*final(cache)) == kept,
                }
            }),
{
    cache.get(key)
}

/// The directions that are kept, the least recently used first.
pub type Entries = Seq<(ConnectionKey, StateView, int)>;

/// How many seconds a connection is remembered after its last use.
pub const EXPIRY_SECONDS: u32 = 600;

/// Whether an entry that was `last_used` then has expired `now`.
pub open spec fn lapsed(last_used: int, now: int) -> bool {
    is_past(last_used, EXPIRY_SECONDS as nat, now)
}

/// Whether no entry was used later than `now`.
pub open spec fn used_by(entries: Entries, now: int) -> bool {
    forall|i: int| 0 <= i < entries.len() ==> (#[trigger] entries[i]).2 <= now
}

/// Whether `kept` is what is left of `before` once every entry that was not used
/// for too long has expired `now`, and no other.
pub open spec fn aged(before: Entries, kept: Entries, now: int) -> bool {
    &&& used_by(before, now)
    &&& exists|expired: int|
        {
            &&& 0 <= expired <= before.len()
            &&& kept == #[trigger] before.skip(expired)
            &&& forall|i: int|
                0 <= i < before.len() ==> (i < expired <==> lapsed((#[trigger] before[i]).2, now))
        }
}

/// Whether `after` is `before` once `key` was looked up and `found`, with
/// `value` left in its place.
pub open spec fn used(
    before: Entries,
    after: Entries,
    key: ConnectionKey,
    found: Option<StateView>,
    value: StateView,
) -> bool {
    exists|kept: Entries, now: int|
        {
            &&& #[trigger] aged(before, kept, now)
            &&& found == lookup(kept, key)
            &&& after == match found {
                Some(_) => put(kept, key, value, now),
                None => kept,
            }
        }
}

/// Whether `after` is `before` once the direction of a packet was looked up and
/// `found`. Where packets wait, this one is now the last of them.
pub open spec fn placed(
    before: Entries,
    after: Entries,
    address: NetworkAddress,
    data: Seq<u8>,
    found: Option<StateView>,
) -> bool {
    let key = connection_key(connection_id(data));
    match found {
        Some(state) => used(before, after, key, found, state.with_packet(address, data)),
        None => lookup(after, key) is None && exists|now: int| #[trigger]
            aged(before, after, now),
    }
}

/// Whether `after` is `before` once `key` was looked up, and whether it is
/// `open` what is done with its packets.
pub open spec fn looked_up(
    before: Entries,
    after: Entries,
    key: ConnectionKey,
    open: bool,
) -> bool {
    exists|found: Option<StateView>, value: StateView|
        {
            &&& #[trigger] used(before, after, key, found, value)
            &&& found matches Some(state) ==> value == state
            &&& open == undecided(found)
        }
}

/// Whether `after` is `before` once the packets that wait under `key` were
/// dropped.
pub open spec fn waiting_dropped(before: Entries, after: Entries, key: ConnectionKey) -> bool {
    exists|found: Option<StateView>, value: StateView|
        {
            &&& #[trigger] used(before, after, key, found, value)
            &&& found matches Some(state) ==> value == state.emptied()
        }
}

/// The packets that waited in `state`, to be dealt with by `action`.
pub open spec fn released(state: Option<StateView>, action: ActionView) -> Seq<DispatchView> {
    match state {
        Some(StateView::Unknown(packets)) => packets.map_values(
            |packet: (NetworkAddress, Seq<u8>)|
                DispatchView { address: packet.0, data: packet.1, action },
        ),
        _ => Seq::empty(),
    }
}

/// Whether it is known, since the instant `now`, that `action` is for the
/// packets of `id`, which led from `before` over `first` and `second` to
/// `after`. The packets of the other direction are forwarded, as was recorded
/// `earlier`, and those that waited in either direction are `sent`.
pub open spec fn recorded_over(
    before: Entries,
    first: Entries,
    earlier: int,
    second: Entries,
    now: int,
    after: Entries,
    id: ConnectionId,
    action: ActionView,
    sent: Seq<DispatchView>,
) -> bool {
    let key = connection_key(id);
    let reverse = connection_key(id.reversed());
    &&& aged(before, first, earlier)
    &&& aged(put(first, reverse, StateView::Known(ActionView::Forward), earlier), second, now)
    &&& after == put(second, key, StateView::Known(action), now)
    &&& sent == released(lookup(first, reverse), ActionView::Forward) + released(
        lookup(second, key),
        action,
    )
}

/// Whether `after` is `before` once it is known that `action` is for the
/// packets of `id`. The packets of the other direction are forwarded, and
/// those that waited in either direction are `sent`.
pub open spec fn recorded(
    before: Entries,
    after: Entries,
    id: ConnectionId,
    action: ActionView,
    sent: Seq<DispatchView>,
) -> bool {
    exists|first: Entries, earlier: int, second: Entries, now: int| #[trigger]
        recorded_over(before, first, earlier, second, now, after, id, action, sent)
}

/// No direction is kept twice.
pub open spec fn distinct(entries: Entries) -> bool {
    forall|i: int, j: int|
        0 <= i < j < entries.len() ==> (#[trigger] entries[i]).0 != (#[trigger] entries[j]).0
}

/// Whether a packet may wait under `key`.
pub open spec fn belongs(packet: (NetworkAddress, Seq<u8>), key: ConnectionKey) -> bool {
    parses(packet.1) && connection_key(connection_id(packet.1)) == key
}

/// Whether every packet that waits in `state` belongs under `key`.
pub open spec fn orderly_state(key: ConnectionKey, state: StateView) -> bool {
    match state {
        StateView::Known(_) => true,
        StateView::Unknown(packets) => forall|i: int|
            0 <= i < packets.len() ==> belongs(#[trigger] packets[i], key),
    }
}

pub open spec fn orderly_entry(entry: (ConnectionKey, StateView, int)) -> bool {
    orderly_state(entry.0, entry.1)
}

/// Whether every waiting packet belongs where it waits.
pub open spec fn orderly(entries: Entries) -> bool {
    forall|i: int| 0 <= i < entries.len() ==> #[trigger] orderly_entry(entries[i])
}

/// Whether the entries stand in the order of their last use.
pub open spec fn timely(entries: Entries) -> bool {
    forall|i: int, j: int|
        0 <= i < j < entries.len() ==> (#[trigger] entries[i]).2 <= (#[trigger] entries[j]).2
}

spec fn entry_views(entries: Seq<(ConnectionKey, ConnectionState, int)>) -> Entries {
    entries.map_values(
        |entry: (ConnectionKey, ConnectionState, int)| (entry.0, entry.1@, entry.2),
    )
}

proof fn lemma_entry_views(entries: Seq<(ConnectionKey, ConnectionState, int)>, key: ConnectionKey)
    ensures
        lookup(entry_views(entries), key) == (match lookup(entries, key) {
            Some(state) => Some(state@),
            None => None,
        }),
        without(entry_views(entries), key) == entry_views(without(entries, key)),
    decreases entries.len(),
{
    let views = entry_views(entries);
    if entries.len() > 0 {
        assert(views.drop_last() =~= entry_views(entries.drop_last()));
        lemma_entry_views(entries.drop_last(), key);
    }
    assert(without(views, key) =~= entry_views(without(entries, key)));
}

proof fn lemma_put_views(
    entries: Seq<(ConnectionKey, ConnectionState, int)>,
    key: ConnectionKey,
    state: ConnectionState,
    now: int,
)
    ensures
        entry_views(put(entries, key, state, now)) == put(entry_views(entries), key, state@, now),
{
    lemma_entry_views(entries, key);
    assert(entry_views(put(entries, key, state, now)) =~= put(
        entry_views(entries),
        key,
        state@,
        now,
    ));
}

/// Where the entries stand in order, exactly those expire that are too old.
proof fn lemma_aged_views(
    entries: Seq<(ConnectionKey, ConnectionState, int)>,
    expired: int,
    now: int,
)
    requires
        expires(entries, expired, EXPIRY_SECONDS as nat, now),
        timely(entry_views(entries)),
    ensures
        aged(entry_views(entries), entry_views(entries.skip(expired)), now),
{
    let views = entry_views(entries);
    assert(entry_views(entries.skip(expired)) =~= views.skip(expired));
    assert forall|i: int| 0 <= i < views.len() implies (#[trigger] views[i]).2 == entries[i].2 by {}
    assert forall|i: int| 0 <= i < views.len() implies (i < expired <==> lapsed(
        (#[trigger] views[i]).2,
        now,
    )) by {
        if expired < i {
            assert(views[expired].2 <= views[i].2);
        }
    }
}

/// What is left without a key is an ordered part of the entries.
pub(crate) proof fn lemma_without(entries: Entries, key: ConnectionKey, other: ConnectionKey)
    ensures
        without(entries, key).len() <= entries.len(),
        forall|i: int|
            0 <= i < without(entries, key).len() ==> (#[trigger] without(entries, key)[i]).0 != key
                && entries.contains(without(entries, key)[i]),
        distinct(entries) ==> distinct(without(entries, key)),
        orderly(entries) ==> orderly(without(entries, key)),
        timely(entries) ==> timely(without(entries, key)),
        lookup(without(entries, key), key) is None,
        other != key ==> lookup(without(entries, key), other) == lookup(entries, other)
            && last_used(without(entries, key), other) == last_used(entries, other),
    decreases entries.len(),
{
    let rest = without(entries, key);
    if entries.len() > 0 {
        let init = entries.drop_last();
        lemma_without(init, key, other);
        let shorter = without(init, key);
        assert forall|i: int| 0 <= i < rest.len() implies (#[trigger] rest[i]).0 != key
            && entries.contains(rest[i]) by {
            if i < shorter.len() {
                assert(rest[i] == shorter[i]);
                let j = choose|j: int| 0 <= j < init.len() && init[j] == shorter[i];
                assert(entries[j] == rest[i]);
            } else {
                assert(entries[entries.len() - 1] == rest[i]);
            }
        }
        if distinct(entries) {
            assert(distinct(init)) by {
                assert forall|i: int, j: int| 0 <= i < j < init.len() implies (
                #[trigger] init[i]).0 != (#[trigger] init[j]).0 by {
                    assert(entries[i] == init[i] && entries[j] == init[j]);
                }
            }
            assert forall|i: int, j: int| 0 <= i < j < rest.len() implies (#[trigger] rest[i]).0
                != (#[trigger] rest[j]).0 by {
                assert(rest[i] == shorter[i]);
                if j < shorter.len() {
                    assert(rest[j] == shorter[j]);
                } else {
                    let k = choose|k: int| 0 <= k < init.len() && init[k] == shorter[i];
                    assert(entries[k] == rest[i]);
                    assert(entries[entries.len() - 1] == rest[j]);
                }
            }
        }
        if timely(entries) {
            assert(timely(init)) by {
                assert forall|i: int, j: int| 0 <= i < j < init.len() implies (
                #[trigger] init[i]).2 <= (#[trigger] init[j]).2 by {
                    assert(entries[i] == init[i] && entries[j] == init[j]);
                }
            }
            assert forall|i: int, j: int| 0 <= i < j < rest.len() implies (#[trigger] rest[i]).2
                <= (#[trigger] rest[j]).2 by {
                assert(rest[i] == shorter[i]);
                if j < shorter.len() {
                    assert(rest[j] == shorter[j]);
                } else {
                    let k = choose|k: int| 0 <= k < init.len() && init[k] == shorter[i];
                    assert(entries[k] == rest[i]);
                    assert(entries[entries.len() - 1] == rest[j]);
                }
            }
        }
        if orderly(entries) {
            assert forall|i: int| 0 <= i < rest.len() implies #[trigger] orderly_entry(
                rest[i],
            ) by {
                let j = choose|j: int| 0 <= j < entries.len() && entries[j] == rest[i];
                assert(orderly_entry(entries[j]));
            }
        }
        if entries.last().0 != key {
            assert(rest.drop_last() =~= shorter);
        }
    }
}

/// An entry that is found is one of the entries.
pub(crate) proof fn lemma_lookup(entries: Entries, key: ConnectionKey)
    ensures
        lookup(entries, key) is Some == last_used(entries, key) is Some,
        lookup(entries, key) matches Some(state) ==> entries.contains(
            (key, state, last_used(entries, key)->0),
        ),
        lookup(entries, key) is None ==> forall|i: int|
            0 <= i < entries.len() ==> (#[trigger] entries[i]).0 != key,
        orderly(entries) ==> (lookup(entries, key) matches Some(state) ==> orderly_state(
            key,
            state,
        )),
    decreases entries.len(),
{
    if entries.len() > 0 {
        let init = entries.drop_last();
        lemma_lookup(init, key);
        if entries.last().0 == key {
            assert(entries[entries.len() - 1] == (key, entries.last().1, entries.last().2));
        } else if let Some(state) = lookup(init, key) {
            let entry = (key, state, last_used(init, key)->0);
            let i = choose|i: int| 0 <= i < init.len() && init[i] == entry;
            assert(entries[i] == entry);
        } else {
            assert forall|i: int| 0 <= i < entries.len() implies (#[trigger] entries[i]).0
                != key by {
                if i < init.len() {
                    assert(entries[i] == init[i]);
                }
            }
        }
        if orderly(entries) {
            if let Some(state) = lookup(entries, key) {
                let entry = (key, state, last_used(entries, key)->0);
                let i = choose|i: int| 0 <= i < entries.len() && entries[i] == entry;
                assert(orderly_entry(entries[i]));
            }
        }
    }
}

/// What is stored is found again, and nothing else is touched.
pub proof fn lemma_put(
    entries: Entries,
    key: ConnectionKey,
    state: StateView,
    now: int,
    other: ConnectionKey,
)
    ensures
        lookup(put(entries, key, state, now), key) == Some(state),
        last_used(put(entries, key, state, now), key) == Some(now),
        other != key ==> lookup(put(entries, key, state, now), other) == lookup(entries, other)
            && last_used(put(entries, key, state, now), other) == last_used(entries, other),
        distinct(entries) ==> distinct(put(entries, key, state, now)),
        orderly(entries) && orderly_state(key, state) ==> orderly(put(entries, key, state, now)),
        timely(entries) && used_by(entries, now) ==> timely(put(entries, key, state, now)),
        used_by(entries, now) ==> used_by(put(entries, key, state, now), now),
{
    lemma_without(entries, key, other);
    let rest = without(entries, key);
    let after = put(entries, key, state, now);
    assert(after.drop_last() =~= rest);
    if distinct(entries) {
        assert forall|i: int, j: int| 0 <= i < j < after.len() implies (#[trigger] after[i]).0 != (
        #[trigger] after[j]).0 by {
            assert(after[i] == rest[i]);
            if j < rest.len() {
                assert(after[j] == rest[j]);
            }
        }
    }
    if orderly(entries) && orderly_state(key, state) {
        assert forall|i: int| 0 <= i < after.len() implies #[trigger] orderly_entry(after[i]) by {
            if i < rest.len() {
                assert(orderly_entry(rest[i]));
            }
        }
    }
    if used_by(entries, now) {
        assert forall|i: int| 0 <= i < after.len() implies (#[trigger] after[i]).2 <= now by {
            if i < rest.len() {
                assert(after[i] == rest[i]);
                let j = choose|j: int| 0 <= j < entries.len() && entries[j] == rest[i];
                assert(entries[j].2 <= now);
            }
        }
        if timely(entries) {
            assert forall|i: int, j: int| 0 <= i < j < after.len() implies (#[trigger] after[i]).2
                <= (#[trigger] after[j]).2 by {
                assert(after[i] == rest[i]);
                if j < rest.len() {
                    assert(after[j] == rest[j]);
                }
            }
        }
    }
}

/// One more packet may wait where it belongs.
proof fn lemma_orderly_push(
    key: ConnectionKey,
    packets: Seq<(NetworkAddress, Seq<u8>)>,
    packet: (NetworkAddress, Seq<u8>),
)
    requires
        orderly_state(key, StateView::Unknown(packets)),
        belongs(packet, key),
    ensures
        orderly_state(key, StateView::Unknown(packets.push(packet))),
{
    let more = packets.push(packet);
    let state = StateView::Unknown(packets);
    assert(orderly_state(key, state));
    assert forall|i: int| 0 <= i < more.len() implies #[trigger] belongs(more[i], key) by {
        if i < packets.len() {
            assert(more[i] == packets[i]);
            assert(belongs(state->Unknown_0[i], key));
        }
    }
}

/// Expiry keeps what is left in order.
pub(crate) proof fn lemma_aged(before: Entries, kept: Entries, now: int)
    requires
        aged(before, kept, now),
    ensures
        distinct(before) ==> distinct(kept),
        orderly(before) ==> orderly(kept),
        timely(before) ==> timely(kept),
        used_by(kept, now),
{
    let expired = choose|expired: int|
        0 <= expired <= before.len() && kept == #[trigger] before.skip(expired);
    assert forall|i: int| 0 <= i < kept.len() implies #[trigger] kept[i] == before[i
        + expired] by {}
    if distinct(before) {
        assert forall|i: int, j: int| 0 <= i < j < kept.len() implies (#[trigger] kept[i]).0 != (
        #[trigger] kept[j]).0 by {
            assert(kept[i] == before[i + expired] && kept[j] == before[j + expired]);
        }
    }
    if orderly(before) {
        assert forall|i: int| 0 <= i < kept.len() implies #[trigger] orderly_entry(kept[i]) by {
            assert(orderly_entry(before[i + expired]));
        }
    }
    if timely(before) {
        assert forall|i: int, j: int| 0 <= i < j < kept.len() implies (#[trigger] kept[i]).2 <= (
        #[trigger] kept[j]).2 by {
            assert(kept[i] == before[i + expired] && kept[j] == before[j + expired]);
        }
    }
    assert forall|i: int| 0 <= i < kept.len() implies (#[trigger] kept[i]).2 <= now by {
        assert(kept[i] == before[i + expired]);
    }
}

/// Whether a cache went from `before` to `after` when `key` was looked up and
/// `found`, with `left` in its place.
spec fn cache_used(
    before: Seq<(ConnectionKey, ConnectionState, int)>,
    after: Seq<(ConnectionKey, ConnectionState, int)>,
    key: ConnectionKey,
    found: Option<ConnectionState>,
    left: ConnectionState,
) -> bool {
    exists|expired: int, now: int| #[trigger]
        expires(before, expired, EXPIRY_SECONDS as nat, now) && ({
            let kept = before.skip(expired);
            &&& lookup(kept, key) == found
            &&& after == match found {
                Some(_) => put(kept, key, left, now),
                None => kept,
            }
        })
}

/// The value of a state, if there is one.
pub open spec fn state_view(state: Option<ConnectionState>) -> Option<StateView> {
    match state {
        Some(state) => Some(state@),
        None => None,
    }
}

proof fn lemma_cache_used(
    before: Seq<(ConnectionKey, ConnectionState, int)>,
    after: Seq<(ConnectionKey, ConnectionState, int)>,
    key: ConnectionKey,
    found: Option<ConnectionState>,
    left: ConnectionState,
)
    requires
        cache_used(before, after, key, found, left),
        timely(entry_views(before)),
    ensures
        used(entry_views(before), entry_views(after), key, state_view(found), left@),
{
    let (expired, now) = choose|expired: int, now: int| #[trigger]
        expires(before, expired, EXPIRY_SECONDS as nat, now) && ({
            let kept = before.skip(expired);
            &&& lookup(kept, key) == found
            &&& after == match found {
                Some(_) => put(kept, key, left, now),
                None => kept,
            }
        });
    let kept = before.skip(expired);
    lemma_aged_views(before, expired, now);
    lemma_entry_views(kept, key);
    lemma_put_views(kept, key, left, now);
    assert(aged(entry_views(before), entry_views(kept), now));
}

/// Using an entry keeps the entries in order.
proof fn lemma_used(
    before: Entries,
    after: Entries,
    key: ConnectionKey,
    found: Option<StateView>,
    value: StateView,
)
    requires
        used(before, after, key, found, value),
        distinct(before),
        orderly(before),
        timely(before),
    ensures
        found matches Some(state) ==> orderly_state(key, state),
        distinct(after),
        timely(after),
        (found is Some ==> orderly_state(key, value)) ==> orderly(after),
{
    let (kept, now) = choose|kept: Entries, now: int|
        {
            &&& #[trigger] aged(before, kept, now)
            &&& found == lookup(kept, key)
            &&& after == match found {
                Some(_) => put(kept, key, value, now),
                None => kept,
            }
        };
    lemma_aged(before, kept, now);
    lemma_lookup(kept, key);
    lemma_put(kept, key, value, now, key);
}

fn key_of_end(address: SocketAddr) -> (key: EndKey)
    ensures
        key == end_key(address),
{
    match address {
        SocketAddr::V4(a) => (4, a.ip as u128, a.port, 0, 0),
        SocketAddr::V6(a) => (6, a.ip, a.port, a.flowinfo, a.scope_id),
    }
}

fn key_of(id: &ConnectionId) -> (key: ConnectionKey)
    ensures
        key == connection_key(*id),
{
    let number: u8 = match id.proto {
        TransportProtocol::Tcp => 6,
        TransportProtocol::Udp => 17,
    };
    (number, key_of_end(id.src), key_of_end(id.dst))
}

/// The connections that are remembered.
pub struct Connections {
    cache: LruCache<ConnectionKey, ConnectionState>,
}

/// What becomes of a packet whose direction was looked up.
#[derive(Debug)]
pub enum Placement {
    /// It is known what is done with it.
    Known(Dispatch),
    /// It waits with the others.
    Waiting,
    /// Its direction has not been seen.
    Unseen(NetworkAddress, Packet),
}

impl Placement {
    /// Whether this becomes of a packet whose direction was `found`.
    pub open spec fn follows_from(
        self,
        found: Option<StateView>,
        address: NetworkAddress,
        data: Seq<u8>,
    ) -> bool {
        match found {
            Some(StateView::Known(action)) => self matches Placement::Known(dispatch) && dispatch@
                == (DispatchView { address, data, action }),
            Some(StateView::Unknown(_)) => self is Waiting,
            None => self matches Placement::Unseen(a, packet) && a == address && packet@ == data,
        }
    }
}

impl ConnectionState {
    /// Deals with a packet of the direction: it is known what is done with it,
    /// or it is the last one to wait.
    pub fn take_packet(&mut self, address: NetworkAddress, packet: Packet) -> (result: Placement)
        ensures
            final(self)@ == old(self)@.with_packet(address, packet@),
            result.follows_from(Some(old(self)@), address, packet@),
    {
        let ghost data = packet@;
        match self {
            ConnectionState::Known(action) => {
                let action = action.clone();
                Placement::Known(Dispatch { address, packet, action })
            },
            ConnectionState::Unknown(packets) => {
                let ghost before = packets@;
                packets.push((address, packet));
                assert(waiting_view(packets@) =~= waiting_view(before).push((address, data)));
                Placement::Waiting
            },
        }
    }

    /// Drops the packets that wait.
    pub fn drop_packets(&mut self)
        ensures
            final(self)@ == old(self)@.emptied(),
    {
        if let ConnectionState::Unknown(packets) = self {
            packets.clear();
            assert(waiting_view(packets@) =~= Seq::empty());
        }
    }

    /// Whether it is open what is done with the packets of a direction.
    pub fn is_open(found: Option<&ConnectionState>) -> (result: bool)
        ensures
            result == undecided(
                match found {
                    Some(state) => Some(state@),
                    None => None,
                },
            ),
    {
        match found {
            None => true,
            Some(state) => matches!(state, ConnectionState::Unknown(_)),
        }
    }
}

impl View for Connections {
    type V = Entries;

    closed spec fn view(&self) -> Entries {
        entry_views(cache_entries(self.cache))
    }
}

impl Connections {
    /// No direction is kept twice, every waiting packet belongs where it waits,
    /// the entries stand in the order of their last use, and what is not used
    /// for ten minutes expires.
    pub closed spec fn wf(&self) -> bool {
        &&& distinct(self@)
        &&& orderly(self@)
        &&& timely(self@)
        &&& cache_expiry(self.cache) == EXPIRY_SECONDS
    }

    /// The invariant, as far as the entries show it.
    pub proof fn lemma_entries_are_in_order(&self)
        requires
            self.wf(),
        ensures
            distinct(self@),
            orderly(self@),
            timely(self@),
    {
    }

    pub fn new() -> (result: Connections)
        ensures
            result.wf(),
            result@ == Entries::empty(),
    {
        let result = Connections { cache: cache_with_expiry(EXPIRY_SECONDS) };
        assert(result@ =~= Entries::empty());
        result
    }

    /// Forgets every connection, and every packet that waits.
    pub fn clear(&mut self)
        requires
            old(self).wf(),
        ensures
            final(self).wf(),
            final(self)@ == Entries::empty(),
    {
        cache_clear(&mut self.cache);
        assert(self@ =~= Entries::empty());
    }

    /// Looks up what is done with a packet. If nothing is known yet of its
    /// direction but that packets wait, it is the last of them.
    pub fn place(&mut self, address: NetworkAddress, packet: Packet) -> (result: Placement)
        requires
            old(self).wf(),
        ensures
            final(self).wf(),
            parses(packet@),
            exists|found: Option<StateView>|
                {
                    &&& #[trigger] placed(old(self)@, final(self)@, address, packet@, found)
                    &&& result.follows_from(found, address, packet@)
                },
    {
        let id = packet.connection_id();
        let key = key_of(&id);
        let ghost before = cache_entries(self.cache);
        let ghost mut found: Option<ConnectionState> = None;
        let result = match cache_get_mut(&mut self.cache, &key) {
            Some(state) => {
                proof {
                    found = Some(*state);
                }
                state.take_packet(address, packet)
            },
            None => Placement::Unseen(address, packet),
        };
        proof {
            let after = cache_entries(self.cache);
            let left = lookup(after, key)->0;
            assert(cache_used(before, after, key, found, left));
            lemma_cache_used(before, after, key, found, left);
            lemma_used(old(self)@, self@, key, state_view(found), left@);
            if let Some(StateView::Unknown(packets)) = state_view(found) {
                lemma_orderly_push(key, packets, (address, packet@));
            }
            assert(placed(old(self)@, self@, address, packet@, state_view(found)));
        }
        result
    }

    /// Stores a state, and returns the one that was there before.
    fn insert(&mut self, id: &ConnectionId, state: ConnectionState) -> (result: Option<
        ConnectionState,
    >)
        requires
            old(self).wf(),
            orderly_state(connection_key(*id), state@),
        ensures
            final(self).wf(),
            exists|kept: Entries, now: int|
                {
                    &&& #[trigger] aged(old(self)@, kept, now)
                    &&& state_view(result) == lookup(kept, connection_key(*id))
                    &&& final(self)@ == put(kept, connection_key(*id), state@, now)
                },
    {
        let key = key_of(id);
        let ghost before = cache_entries(self.cache);
        let result = cache_insert(&mut self.cache, key, state);
        proof {
            let (expired, now) = choose|expired: int, now: int| #[trigger]
                expires(before, expired, EXPIRY_SECONDS as nat, now) && ({
                    let kept = before.skip(expired);
                    result == lookup(kept, key) && cache_entries(self.cache) == put(
                        kept,
                        key,
                        state,
                        now,
                    )
                });
            let kept = before.skip(expired);
            lemma_aged_views(before, expired, now);
            lemma_entry_views(kept, key);
            lemma_put_views(kept, key, state, now);
            lemma_aged(old(self)@, entry_views(kept), now);
            lemma_put(entry_views(kept), key, state@, now, key);
        }
        result
    }

    /// Lets the first packet of a direction wait.
    pub fn wait(&mut self, address: NetworkAddress, packet: Packet)
        requires
            old(self).wf(),
        ensures
            final(self).wf(),
            parses(packet@),
            exists|kept: Entries, now: int|
                #[trigger] aged(old(self)@, kept, now) && final(self)@ == put(
                    kept,
                    connection_key(connection_id(packet@)),
                    StateView::Unknown(seq![(address, packet@)]),
                    now,
                ),
    {
        let id = packet.connection_id();
        let ghost data = packet@;
        let mut packets: Vec<WaitingPacket> = Vec::new();
        packets.push((address, packet));
        proof {
            assert(waiting_view(packets@) =~= seq![(address, data)]);
            assert(belongs(waiting_view(packets@)[0], connection_key(id)));
        }
        self.insert(&id, ConnectionState::Unknown(packets));
    }

    /// Whether it is still open what is done with the packets of a direction.
    pub fn is_undecided(&mut self, id: &ConnectionId) -> (result: bool)
        requires
            old(self).wf(),
        ensures
            final(self).wf(),
            looked_up(old(self)@, final(self)@, connection_key(*id), result),
    {
        let key = key_of(id);
        let ghost before = cache_entries(self.cache);
        let ghost mut found: Option<ConnectionState> = None;
        let state = cache_get(&mut self.cache, &key);
        proof {
            found = match state {
                Some(state) => Some(*state),
                None => None,
            };
        }
        let result = ConnectionState::is_open(state);
        proof {
            let after = cache_entries(self.cache);
            let left = lookup(after, key)->0;
            assert(cache_used(before, after, key, found, left));
            lemma_cache_used(before, after, key, found, left);
            lemma_used(old(self)@, self@, key, state_view(found), left@);
        }
        result
    }

    /// Drops the packets that wait in a direction.
    pub fn drop_waiting(&mut self, id: &ConnectionId)
        requires
            old(self).wf(),
        ensures
            final(self).wf(),
            waiting_dropped(old(self)@, final(self)@, connection_key(*id)),
    {
        let key = key_of(id);
        let ghost before = cache_entries(self.cache);
        let ghost mut found: Option<ConnectionState> = None;
        match cache_get_mut(&mut self.cache, &key) {
            Some(state) => {
                proof {
                    found = Some(*state);
                }
                state.drop_packets();
            },
            None => {},
        }
        proof {
            let after = cache_entries(self.cache);
            let left = lookup(after, key)->0;
            assert(cache_used(before, after, key, found, left));
            lemma_cache_used(before, after, key, found, left);
            lemma_used(old(self)@, self@, key, state_view(found), left@);
        }
    }

    /// Records what is done with the packets of `id`, and releases those that
    /// waited in either direction.
    pub fn insert_into_connections(&mut self, id: &ConnectionId, action: &ConnectionAction) -> (sent:
        Vec<Dispatch>)
        requires
            old(self).wf(),
        ensures
            final(self).wf(),
            recorded(old(self)@, final(self)@, *id, action@, dispatch_views(sent@)),
    {
        let existing1 = self.insert(
            &id.reverse(),
            ConnectionState::Known(ConnectionAction::Forward),
        );
        let ghost between = self@;
        let existing2 = self.insert(id, ConnectionState::Known(action.clone()));
        let sent = release_waiting(existing1, existing2, action);
        proof {
            let reverse = connection_key(id.reversed());
            let forward = StateView::Known(ActionView::Forward);
            let (first, earlier) = choose|kept: Entries, now: int|
                {
                    &&& #[trigger] aged(old(self)@, kept, now)
                    &&& state_view(existing1) == lookup(kept, reverse)
                    &&& between == put(kept, reverse, forward, now)
                };
            let (second, now) = choose|kept: Entries, now: int|
                {
                    &&& #[trigger] aged(between, kept, now)
                    &&& state_view(existing2) == lookup(kept, connection_key(*id))
                    &&& self@ == put(kept, connection_key(*id), StateView::Known(action@), now)
                };
            assert(recorded_over(
                old(self)@,
                first,
                earlier,
                second,
                now,
                self@,
                *id,
                action@,
                dispatch_views(sent@),
            ));
        }
        sent
    }
}

/// Releases the packets that waited in the `other` direction of a connection,
/// which are forwarded, and then those that waited in its `own`.
pub fn release_waiting(
    other: Option<ConnectionState>,
    own: Option<ConnectionState>,
    action: &ConnectionAction,
) -> (sent: Vec<Dispatch>)
    ensures
        dispatch_views(sent@) == released(state_view(other), ActionView::Forward) + released(
            state_view(own),
            action@,
        ),
{
    let mut sent: Vec<Dispatch> = Vec::new();
    assert(dispatch_views(sent@) =~= Seq::empty());
    release(other, &ConnectionAction::Forward, &mut sent);
    release(own, action, &mut sent);
    assert(dispatch_views(sent@) =~= released(state_view(other), ActionView::Forward) + released(
        state_view(own),
        action@,
    ));
    sent
}

/// Adds the packets that waited in `state` to those that are `sent`.
fn release(state: Option<ConnectionState>, action: &ConnectionAction, sent: &mut Vec<Dispatch>)
    ensures
        dispatch_views(final(sent)@) == dispatch_views(old(sent)@) + released(
            state_view(state),
            action@,
        ),
{
    if let Some(ConnectionState::Unknown(packets)) = state {
        let ghost before = sent@;
        for packet in waiting: packets
            invariant
                dispatch_views(sent@) == dispatch_views(before) + released(
                    Some(StateView::Unknown(waiting_view(waiting.seq().take(waiting.index())))),
                    action@,
                ),
        {
            let ghost done = waiting.seq().take(waiting.index());
            let ghost view = (packet.0, packet.1@);
            let ghost sofar = sent@;
            sent.push(Dispatch { address: packet.0, packet: packet.1, action: action.clone() });
            proof {
                let more = waiting.seq().take(waiting.index() + 1);
                assert(waiting_view(more) =~= waiting_view(done).push(view));
                assert(dispatch_views(sent@) =~= dispatch_views(sofar).push(
                    DispatchView { address: view.0, data: view.1, action: action@ },
                ));
                assert(released(Some(StateView::Unknown(waiting_view(more))), action@) =~= released(
                    Some(StateView::Unknown(waiting_view(done))),
                    action@,
                ).push(DispatchView { address: view.0, data: view.1, action: action@ }));
                assert(dispatch_views(sent@) =~= dispatch_views(before) + released(
                    Some(StateView::Unknown(waiting_view(more))),
                    action@,
                ));
            }
        }
    }
}

} // verus!
