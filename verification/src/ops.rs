//! Operations on the identity model and the event log: peer and entity
//! creation, idempotent import by portable identifier, sequence numbering
//! and local event emission.

use vstd::prelude::*;
use vstd::pervasive::unreached;
use crate::model::{
    can_append_local_event, derived_unchanged, lemma_complete_after_append, lemma_next_seq_rec,
    local_event_appended,
    payloads_unchanged, Entity, Event, EventType, IIdentifyWithEvent, MyNameIsEvent, Peer,
    SendMessageEvent, Store, StoreError, Time,
};

verus! {

/// Relies on `uuid::Uuid::new_v4` (read through `as_u128`): a freshly drawn
/// random version-4 identifier.  The value depends on a random source, so
/// nothing is promised of it.
#[verifier::external_body]
fn fresh_uuid() -> u128 {
    uuid::Uuid::new_v4().as_u128()
}

/// Relies on `chrono::Utc::now` (read through `timestamp_millis`): the wall
/// clock in milliseconds since the Unix epoch.  The value depends on the
/// machine's clock, so nothing is promised of it.  The underlying call
/// panics only on a clock set before the epoch.
#[verifier::external_body]
fn wall_now() -> i64 {
    chrono::Utc::now().timestamp_millis()
}

impl Peer {
    /// The local peer's internal id, or `NotFound` before one exists.
    pub fn local_peer_id(store: &Store) -> (r: Result<usize, StoreError>)
        requires
            store.wf(),
        ensures
            store.has_local_peer() <==> r is Ok,
            match r {
                Ok(i) => i < store.peers@.len() && store.peers@[i as int].is_local,
                Err(e) => e == StoreError::NotFound,
            },
    {
        let mut i: usize = 0;
        while i < store.peers.len()
            invariant
                i <= store.peers@.len(),
                forall|j: int| 0 <= j < i ==> !(#[trigger] store.peers@[j]).is_local,
            decreases store.peers@.len() - i,
        {
            if store.peers[i].is_local {
                return Ok(i);
            }
            i += 1;
        }
        Err(StoreError::NotFound)
    }

    /// Insert the single local-peer row; `AlreadyExists` if one exists.
    pub fn create_local_peer(store: &mut Store) -> (r: Result<usize, StoreError>)
        requires
            old(store).wf(),
        ensures
            final(store).wf(),
            old(store).complete() ==> final(store).complete(),
            old(store).has_local_peer() ==> r == Err::<usize, StoreError>(
                StoreError::AlreadyExists,
            ) && *final(store) == *old(store),
            !old(store).has_local_peer() ==> {
                &&& r matches Ok(id) && id == old(store).peers@.len()
                &&& exists|u: u128|
                    final(store).peers@ == old(store).peers@.push(Peer { uuid: u, is_local: true })
                &&& final(store).events@ == old(store).events@
                &&& final(store).entities@ == old(store).entities@
                &&& payloads_unchanged(*old(store), *final(store))
                &&& derived_unchanged(*old(store), *final(store))
                &&& final(store).has_local_peer()
            },
    {
        if let Ok(_) = Peer::local_peer_id(store) {
            return Err(StoreError::AlreadyExists);
        }
        let u = fresh_uuid();
        let id = store.peers.len();
        store.peers.push(Peer { uuid: u, is_local: true });
        assert(store.peers@[id as int].is_local);
        Ok(id)
    }

    /// Allocate a new non-local peer with a fresh portable identifier.
    pub fn create(store: &mut Store) -> (r: usize)
        requires
            old(store).wf(),
        ensures
            final(store).wf(),
            old(store).complete() ==> final(store).complete(),
            r == old(store).peers@.len(),
            exists|u: u128|
                final(store).peers@ == old(store).peers@.push(Peer { uuid: u, is_local: false }),
            final(store).events@ == old(store).events@,
            final(store).entities@ == old(store).entities@,
            payloads_unchanged(*old(store), *final(store)),
            derived_unchanged(*old(store), *final(store)),
            final(store).has_local_peer() == old(store).has_local_peer(),
    {
        let u = fresh_uuid();
        let id = store.peers.len();
        store.peers.push(Peer { uuid: u, is_local: false });
        proof {
            if old(store).has_local_peer() {
                let i = choose|i: int|
                    0 <= i < old(store).peers@.len() && (#[trigger] old(store).peers@[i]).is_local;
                assert(store.peers@[i].is_local);
            }
        }
        id
    }

    /// Resolve a portable peer identifier to a local internal id, creating a
    /// non-local shadow row the first time the identifier is seen.
    pub fn import(store: &mut Store, uuid: u128) -> (r: usize)
        requires
            old(store).wf(),
        ensures
            final(store).wf(),
            old(store).complete() ==> final(store).complete(),
            r < final(store).peers@.len(),
            final(store).peers@[r as int].uuid == uuid,
            (exists|i: int|
                0 <= i < old(store).peers@.len() && (#[trigger] old(store).peers@[i]).uuid
                    == uuid) ==> {
                &&& *final(store) == *old(store)
                &&& final(store).peers@[r as int].uuid == uuid
                &&& forall|j: int| 0 <= j < r ==> (#[trigger] final(store).peers@[j]).uuid != uuid
            },
            !(exists|i: int|
                0 <= i < old(store).peers@.len() && (#[trigger] old(store).peers@[i]).uuid
                    == uuid) ==> {
                &&& r == old(store).peers@.len()
                &&& final(store).peers@ == old(store).peers@.push(Peer { uuid, is_local: false })
                &&& final(store).events@ == old(store).events@
                &&& final(store).entities@ == old(store).entities@
                &&& payloads_unchanged(*old(store), *final(store))
                &&& derived_unchanged(*old(store), *final(store))
            },
            final(store).has_local_peer() == old(store).has_local_peer(),
    {
        let mut i: usize = 0;
        while i < store.peers.len()
            invariant
                *store == *old(store),
                old(store).wf(),
                i <= store.peers@.len(),
                forall|j: int| 0 <= j < i ==> (#[trigger] store.peers@[j]).uuid != uuid,
            decreases store.peers@.len() - i,
        {
            if store.peers[i].uuid == uuid {
                return i;
            }
            i += 1;
        }
        let id = store.peers.len();
        store.peers.push(Peer { uuid, is_local: false });
        proof {
            if old(store).has_local_peer() {
                let i = choose|i: int|
                    0 <= i < old(store).peers@.len() && (#[trigger] old(store).peers@[i]).is_local;
                assert(store.peers@[i].is_local);
            }
        }
        id
    }
}

impl Entity {
    /// Allocate a fresh entity with a new portable identifier, tied to the
    /// event that introduced it.
    pub fn create(store: &mut Store, event_id: usize) -> (r: usize)
        requires
            old(store).wf(),
            event_id < old(store).events@.len(),
        ensures
            final(store).wf(),
            old(store).complete() ==> final(store).complete(),
            r == old(store).entities@.len(),
            exists|u: u128|
                final(store).entities@ == old(store).entities@.push(
                    Entity { uuid: Some(u), introduced_at: event_id },
                ),
            final(store).entities@[r as int].uuid is Some,
            final(store).entities@[r as int].introduced_at == event_id,
            final(store).peers@ == old(store).peers@,
            final(store).events@ == old(store).events@,
            payloads_unchanged(*old(store), *final(store)),
            derived_unchanged(*old(store), *final(store)),
    {
        let u = fresh_uuid();
        let id = store.entities.len();
        store.entities.push(Entity { uuid: Some(u), introduced_at: event_id });
        id
    }

    /// Idempotent import: if an entity with this portable identifier exists,
    /// return its internal id; otherwise create it tied to `event_id`.
    pub fn import(store: &mut Store, event_id: usize, uuid: u128) -> (r: usize)
        requires
            old(store).wf(),
            event_id < old(store).events@.len(),
        ensures
            final(store).wf(),
            old(store).complete() ==> final(store).complete(),
            r < final(store).entities@.len(),
            final(store).entities@[r as int].uuid == Some(uuid),
            forall|j: int| 0 <= j < r ==> (#[trigger] final(store).entities@[j]).uuid != Some(uuid),
            (exists|i: int|
                0 <= i < old(store).entities@.len() && (#[trigger] old(store).entities@[i]).uuid
                    == Some(uuid)) ==> *final(store) == *old(store),
            !(exists|i: int|
                0 <= i < old(store).entities@.len() && (#[trigger] old(store).entities@[i]).uuid
                    == Some(uuid)) ==> {
                &&& r == old(store).entities@.len()
                &&& final(store).entities@ == old(store).entities@.push(
                    Entity { uuid: Some(uuid), introduced_at: event_id },
                )
                &&& final(store).peers@ == old(store).peers@
                &&& final(store).events@ == old(store).events@
                &&& payloads_unchanged(*old(store), *final(store))
                &&& derived_unchanged(*old(store), *final(store))
            },
    {
        let mut i: usize = 0;
        while i < store.entities.len()
            invariant
                *store == *old(store),
                old(store).wf(),
                i <= store.entities@.len(),
                forall|j: int| 0 <= j < i ==> (#[trigger] store.entities@[j]).uuid != Some(uuid),
            decreases store.entities@.len() - i,
        {
            if let Some(u) = store.entities[i].uuid {
                if u == uuid {
                    return i;
                }
            }
            i += 1;
        }
        let id = store.entities.len();
        store.entities.push(Entity { uuid: Some(uuid), introduced_at: event_id });
        id
    }

    /// Look up an entity by portable identifier; `NotFound` if no row
    /// carries it.
    pub fn find_by_uuid(store: &Store, uuid: u128) -> (r: Result<usize, StoreError>)
        requires
            store.wf(),
        ensures
            (exists|i: int|
                0 <= i < store.entities@.len() && (#[trigger] store.entities@[i]).uuid
                    == Some(uuid)) <==> r is Ok,
            match r {
                Ok(i) => i < store.entities@.len() && store.entities@[i as int].uuid
                    == Some(uuid) && forall|j: int|
                    0 <= j < i ==> (#[trigger] store.entities@[j]).uuid != Some(uuid),
                Err(e) => e == StoreError::NotFound,
            },
    {
        let mut i: usize = 0;
        while i < store.entities.len()
            invariant
                i <= store.entities@.len(),
                forall|j: int| 0 <= j < i ==> (#[trigger] store.entities@[j]).uuid != Some(uuid),
            decreases store.entities@.len() - i,
        {
            if let Some(u) = store.entities[i].uuid {
                if u == uuid {
                    return Ok(i);
                }
            }
            i += 1;
        }
        Err(StoreError::NotFound)
    }
}

impl Time {
    /// `max(seq_no) + 1` over that peer's events, or 0 if it has none.
    pub fn next_seq_no_for_peer(peer_id: usize, store: &Store) -> (r: i64)
        requires
            store.wf(),
        ensures
            r as int == store.next_seq_spec(peer_id as int),
            0 <= r,
    {
        let mut next: i64 = 0;
        let mut i: usize = 0;
        while i < store.events.len()
            invariant
                store.wf(),
                i <= store.events@.len(),
                0 <= next,
                next as int == crate::model::next_seq_rec(
                    store.events@.take(i as int),
                    peer_id as int,
                ),
            decreases store.events@.len() - i,
        {
            let ev = store.events[i];
            proof {
                assert(store.events@.take(i as int + 1).drop_last() =~= store.events@.take(
                    i as int,
                ));
                assert(store.events@.take(i as int + 1).last() == store.events@[i as int]);
            }
            if ev.peer_id == peer_id && ev.seq_no >= next {
                next = ev.seq_no + 1;
            }
            i += 1;
        }
        proof {
            assert(store.events@.take(store.events@.len() as int) =~= store.events@);
        }
        next
    }

    /// Append a local event of kind `E`: stamps the wall clock, the local
    /// peer id and that peer's next sequence number.  `NotFound` before a
    /// local peer exists; `ConstraintViolation` if the sequence-number space
    /// is exhausted.  The caller owes the payload row for the new event, so
    /// `complete` is suspended until it adds one.
    pub fn create_local<E: Event>(store: &mut Store) -> (r: Result<usize, StoreError>)
        requires
            old(store).wf(),
        ensures
            final(store).wf(),
            r is Err ==> *final(store) == *old(store),
            r is Ok <==> can_append_local_event(*old(store)),
            !old(store).has_local_peer() ==> r == Err::<usize, StoreError>(StoreError::NotFound)
                && *final(store) == *old(store),
            old(store).has_local_peer() && old(store).next_seq_spec(old(store).local_peer_ix())
                == i64::MAX ==> r == Err::<usize, StoreError>(StoreError::ConstraintViolation)
                && *final(store) == *old(store),
            old(store).has_local_peer() && old(store).next_seq_spec(old(store).local_peer_ix())
                < i64::MAX ==> ({
                let p = old(store).local_peer_ix();
                let n = old(store).next_seq_spec(p);
                &&& r matches Ok(id) && id == old(store).events@.len()
                &&& final(store).events@.len() == old(store).events@.len() + 1
                &&& final(store).events@.drop_last() == old(store).events@
                &&& final(store).events@.last().peer_id as int == p
                &&& final(store).events@.last().seq_no as int == n
                &&& final(store).events@.last().event_type == E::spec_event_type()
                &&& final(store).peers@ == old(store).peers@
                &&& final(store).entities@ == old(store).entities@
                &&& payloads_unchanged(*old(store), *final(store))
                &&& derived_unchanged(*old(store), *final(store))
            }),
    {
        let p = match Peer::local_peer_id(store) {
            Ok(p) => p,
            Err(e) => {
                return Err(e);
            },
        };
        proof {
            let ix = old(store).local_peer_ix();
            assert(0 <= ix < old(store).peers@.len() && old(store).peers@[ix].is_local);
            if p as int != ix {
                if (p as int) < ix {
                    assert(!(old(store).peers@[p as int].is_local
                        && old(store).peers@[ix].is_local));
                } else {
                    assert(!(old(store).peers@[ix].is_local
                        && old(store).peers@[p as int].is_local));
                }
            }
            assert(p as int == ix);
        }
        let n = Time::next_seq_no_for_peer(p, store);
        if n == i64::MAX {
            return Err(StoreError::ConstraintViolation);
        }
        let w = wall_now();
        let id = store.events.len();
        let tag = E::event_type();
        proof {
            lemma_next_seq_rec(store.events@, p as int);
        }
        store.events.push(Time { wall: w, peer_id: p, seq_no: n, event_type: tag });
        proof {
            assert(store.events@ == old(store).events@.push(
                Time { wall: w, peer_id: p, seq_no: n, event_type: E::spec_event_type() },
            ));
        }
        Ok(id)
    }
}

impl Event for SendMessageEvent {
    type Arguments = (u128, String);

    open spec fn spec_event_type() -> EventType {
        EventType::SendMessageEvent
    }

    fn event_type() -> EventType {
        EventType::SendMessageEvent
    }

    open spec fn args_match(st: Store, e: int, args: (u128, String)) -> bool {
        exists|j: int|
            0 <= j < st.send_message_events@.len() && ({
                let row = #[trigger] st.send_message_events@[j];
                &&& row.asserted_at as int == e
                &&& row.message_id < st.entities@.len()
                &&& st.entities@[row.message_id as int].uuid == Some(args.0)
                &&& row.body == args.1
            })
    }

    /// The message entity's portable identifier and the body text.
    fn get_arguments(store: &Store, time: usize) -> (args: (u128, String)) {
        let mut i: usize = 0;
        while i < store.send_message_events.len()
            invariant
                store.wf(),
                store.complete(),
                time < store.events@.len(),
                store.events@[time as int].event_type == EventType::SendMessageEvent,
                i <= store.send_message_events@.len(),
                forall|j: int|
                    0 <= j < i ==> (#[trigger] store.send_message_events@[j]).asserted_at != time,
            decreases store.send_message_events@.len() - i,
        {
            let row = &store.send_message_events[i];
            if row.asserted_at == time {
                let u = match store.entities[row.message_id].uuid {
                    Some(u) => u,
                    None => unreached(),
                };
                return (u, row.body.clone());
            }
            i += 1;
        }
        proof {
            assert(false);
        }
        unreached()
    }
}

impl Event for IIdentifyWithEvent {
    type Arguments = u128;

    open spec fn spec_event_type() -> EventType {
        EventType::IIdentifyWithEvent
    }

    fn event_type() -> EventType {
        EventType::IIdentifyWithEvent
    }

    open spec fn args_match(st: Store, e: int, args: u128) -> bool {
        exists|j: int|
            0 <= j < st.i_identify_with_events@.len() && ({
                let row = #[trigger] st.i_identify_with_events@[j];
                &&& row.asserted_at as int == e
                &&& row.with_id < st.peers@.len()
                &&& st.peers@[row.with_id as int].uuid == args
            })
    }

    /// The portable identifier of the peer the assertion names.
    fn get_arguments(store: &Store, time: usize) -> (args: u128) {
        let mut i: usize = 0;
        while i < store.i_identify_with_events.len()
            invariant
                store.wf(),
                store.complete(),
                time < store.events@.len(),
                store.events@[time as int].event_type == EventType::IIdentifyWithEvent,
                i <= store.i_identify_with_events@.len(),
                forall|j: int|
                    0 <= j < i ==> (#[trigger] store.i_identify_with_events@[j]).asserted_at
                        != time,
            decreases store.i_identify_with_events@.len() - i,
        {
            let row = store.i_identify_with_events[i];
            if row.asserted_at == time {
                return store.peers[row.with_id].uuid;
            }
            i += 1;
        }
        proof {
            assert(false);
        }
        unreached()
    }
}

impl Event for MyNameIsEvent {
    type Arguments = String;

    open spec fn spec_event_type() -> EventType {
        EventType::MyNameIsEvent
    }

    fn event_type() -> EventType {
        EventType::MyNameIsEvent
    }

    open spec fn args_match(st: Store, e: int, args: String) -> bool {
        exists|j: int|
            0 <= j < st.my_name_is_events@.len() && ({
                let row = #[trigger] st.my_name_is_events@[j];
                &&& row.asserted_at as int == e
                &&& row.name == args
            })
    }

    /// The asserted display name.
    fn get_arguments(store: &Store, time: usize) -> (args: String) {
        let mut i: usize = 0;
        while i < store.my_name_is_events.len()
            invariant
                store.wf(),
                store.complete(),
                time < store.events@.len(),
                store.events@[time as int].event_type == EventType::MyNameIsEvent,
                i <= store.my_name_is_events@.len(),
                forall|j: int|
                    0 <= j < i ==> (#[trigger] store.my_name_is_events@[j]).asserted_at != time,
            decreases store.my_name_is_events@.len() - i,
        {
            let row = &store.my_name_is_events[i];
            if row.asserted_at == time {
                return row.name.clone();
            }
            i += 1;
        }
        proof {
            assert(false);
        }
        unreached()
    }
}

impl SendMessageEvent {
    /// Record locally that a message with this body was sent: one new
    /// event, one new message entity, one new payload row.
    #[verifier::rlimit(60)]
    pub fn create_local(store: &mut Store, body: String) -> (r: Result<(), StoreError>)
        requires
            old(store).wf(),
            old(store).complete(),
        ensures
            final(store).wf(),
            final(store).complete(),
            !old(store).has_local_peer() ==> r == Err::<(), StoreError>(StoreError::NotFound)
                && *final(store) == *old(store),
            old(store).has_local_peer() && old(store).next_seq_spec(old(store).local_peer_ix())
                == i64::MAX ==> r == Err::<(), StoreError>(StoreError::ConstraintViolation)
                && *final(store) == *old(store),
            can_append_local_event(*old(store)) ==> {
                &&& r == Ok::<(), StoreError>(())
                &&& local_event_appended(*old(store), *final(store), EventType::SendMessageEvent)
                &&& final(store).entities@.len() == old(store).entities@.len() + 1
                &&& final(store).entities@.drop_last() == old(store).entities@
                &&& final(store).entities@.last().introduced_at == old(store).events@.len()
                &&& final(store).entities@.last().uuid is Some
                &&& final(store).send_message_events@ == old(store).send_message_events@.push(
                    SendMessageEvent {
                        asserted_at: old(store).events@.len() as usize,
                        message_id: old(store).entities@.len() as usize,
                        body: body,
                    },
                )
                &&& final(store).peers@ == old(store).peers@
                &&& final(store).i_identify_with_events@ == old(store).i_identify_with_events@
                &&& final(store).my_name_is_events@ == old(store).my_name_is_events@
                &&& derived_unchanged(*old(store), *final(store))
            },
    {
        let event_id = match Time::create_local::<SendMessageEvent>(store) {
            Ok(id) => id,
            Err(e) => {
                return Err(e);
            },
        };
        let entity_id = Entity::create(store, event_id);
        store.send_message_events.push(
            SendMessageEvent { asserted_at: event_id, message_id: entity_id, body },
        );
        proof {
            let pre = *old(store);
            let n = pre.send_message_events@.len() as int;
            assert(event_id == pre.events@.len());
            assert(store.send_message_events@ == pre.send_message_events@.push(
                SendMessageEvent { asserted_at: event_id, message_id: entity_id, body: body },
            ));
            assert(store.send_message_events@[n].asserted_at == pre.events@.len());
            assert forall|e: int| 0 <= e < pre.events@.len() implies store.events@[e]
                == pre.events@[e] by {
                assert(store.events@.drop_last()[e] == pre.events@[e]);
            }
            assert forall|k: int| 0 <= k < pre.entities@.len() implies store.entities@[k]
                == pre.entities@[k] by {
                assert(store.entities@.drop_last()[k] == pre.entities@[k]);
            }
            assert(forall|i: int| 0 <= i < n ==> store.send_message_events@[i]
                == pre.send_message_events@[i]);
            assert(forall|i: int| 0 <= i < n ==> (#[trigger] pre.send_message_events@[i]).asserted_at
                < pre.events@.len());
            assert(store.send_events_wf()) by {
                assert forall|i: int, j: int| 0 <= i < j < store.send_message_events@.len() implies
                    (#[trigger] store.send_message_events@[i]).asserted_at
                    != (#[trigger] store.send_message_events@[j]).asserted_at by {
                    if j < n {
                        assert(pre.send_message_events@[i].asserted_at
                            != pre.send_message_events@[j].asserted_at);
                    } else {
                        assert(pre.send_message_events@[i].asserted_at < pre.events@.len());
                    }
                }
                assert forall|i: int| 0 <= i < store.send_message_events@.len() implies ({
                    let row = #[trigger] store.send_message_events@[i];
                    &&& row.asserted_at < store.events@.len()
                    &&& store.events@[row.asserted_at as int].event_type
                        == EventType::SendMessageEvent
                    &&& row.message_id < store.entities@.len()
                    &&& store.entities@[row.message_id as int].uuid is Some
                }) by {
                    if i < n {
                        assert(store.send_message_events@[i] == pre.send_message_events@[i]);
                        let row = pre.send_message_events@[i];
                        assert(row.asserted_at < pre.events@.len());
                        assert(store.events@[row.asserted_at as int]
                            == pre.events@[row.asserted_at as int]);
                        assert(store.entities@[row.message_id as int]
                            == pre.entities@[row.message_id as int]);
                    } else {
                        assert(store.events@[pre.events@.len() as int] == store.events@.last());
                    }
                }
            }
            assert(store.wf());
            assert(pre.send_message_events@ =~= store.send_message_events@.subrange(0, n));
            assert(pre.i_identify_with_events@ =~= store.i_identify_with_events@.subrange(
                0,
                pre.i_identify_with_events@.len() as int,
            ));
            assert(pre.my_name_is_events@ =~= store.my_name_is_events@.subrange(
                0,
                pre.my_name_is_events@.len() as int,
            ));
            assert(store.events@[pre.events@.len() as int] == store.events@.last());
            assert(store.send_message_events@[n].asserted_at == pre.events@.len());
            assert(store.event_covered(pre.events@.len() as int));
            lemma_complete_after_append(pre, *store);
        }
        Ok(())
    }
}

impl IIdentifyWithEvent {
    /// Record locally that this store's peer identifies peer `with_id`.
    #[verifier::rlimit(60)]
    pub fn create_local(store: &mut Store, with_id: usize) -> (r: Result<(), StoreError>)
        requires
            old(store).wf(),
            old(store).complete(),
            with_id < old(store).peers@.len(),
        ensures
            final(store).wf(),
            final(store).complete(),
            !old(store).has_local_peer() ==> r == Err::<(), StoreError>(StoreError::NotFound)
                && *final(store) == *old(store),
            old(store).has_local_peer() && old(store).next_seq_spec(old(store).local_peer_ix())
                == i64::MAX ==> r == Err::<(), StoreError>(StoreError::ConstraintViolation)
                && *final(store) == *old(store),
            can_append_local_event(*old(store)) ==> {
                &&& r == Ok::<(), StoreError>(())
                &&& local_event_appended(*old(store), *final(store), EventType::IIdentifyWithEvent)
                &&& final(store).i_identify_with_events@ == old(
                    store,
                ).i_identify_with_events@.push(
                    IIdentifyWithEvent {
                        asserted_at: old(store).events@.len() as usize,
                        with_id: with_id,
                    },
                )
                &&& final(store).peers@ == old(store).peers@
                &&& final(store).entities@ == old(store).entities@
                &&& final(store).send_message_events@ == old(store).send_message_events@
                &&& final(store).my_name_is_events@ == old(store).my_name_is_events@
                &&& derived_unchanged(*old(store), *final(store))
            },
    {
        let event_id = match Time::create_local::<IIdentifyWithEvent>(store) {
            Ok(id) => id,
            Err(e) => {
                return Err(e);
            },
        };
        store.i_identify_with_events.push(
            IIdentifyWithEvent { asserted_at: event_id, with_id },
        );
        proof {
            let pre = *old(store);
            let n = pre.i_identify_with_events@.len() as int;
            assert(event_id == pre.events@.len());
            assert(store.i_identify_with_events@ == pre.i_identify_with_events@.push(
                IIdentifyWithEvent { asserted_at: event_id, with_id: with_id },
            ));
            assert(store.i_identify_with_events@[n].asserted_at == pre.events@.len());
            assert forall|e: int| 0 <= e < pre.events@.len() implies store.events@[e]
                == pre.events@[e] by {
                assert(store.events@.drop_last()[e] == pre.events@[e]);
            }
            assert(forall|i: int| 0 <= i < n ==> store.i_identify_with_events@[i]
                == pre.i_identify_with_events@[i]);
            assert(forall|i: int| 0 <= i < n
                ==> (#[trigger] pre.i_identify_with_events@[i]).asserted_at < pre.events@.len());
            assert(store.identify_events_wf()) by {
                assert forall|i: int, j: int| 0 <= i < j < store.i_identify_with_events@.len()
                    implies (#[trigger] store.i_identify_with_events@[i]).asserted_at
                    != (#[trigger] store.i_identify_with_events@[j]).asserted_at by {
                    if j < n {
                        assert(pre.i_identify_with_events@[i].asserted_at
                            != pre.i_identify_with_events@[j].asserted_at);
                    } else {
                        assert(pre.i_identify_with_events@[i].asserted_at < pre.events@.len());
                    }
                }
                assert forall|i: int| 0 <= i < store.i_identify_with_events@.len() implies ({
                    let row = #[trigger] store.i_identify_with_events@[i];
                    &&& row.asserted_at < store.events@.len()
                    &&& store.events@[row.asserted_at as int].event_type
                        == EventType::IIdentifyWithEvent
                    &&& row.with_id < store.peers@.len()
                }) by {
                    if i < n {
                        assert(store.i_identify_with_events@[i] == pre.i_identify_with_events@[i]);
                        let row = pre.i_identify_with_events@[i];
                        assert(row.asserted_at < pre.events@.len());
                        assert(store.events@[row.asserted_at as int]
                            == pre.events@[row.asserted_at as int]);
                    } else {
                        assert(store.events@[pre.events@.len() as int] == store.events@.last());
                    }
                }
            }
            assert(store.wf());
            assert(pre.i_identify_with_events@ =~= store.i_identify_with_events@.subrange(0, n));
            assert(pre.send_message_events@ =~= store.send_message_events@.subrange(
                0,
                pre.send_message_events@.len() as int,
            ));
            assert(pre.my_name_is_events@ =~= store.my_name_is_events@.subrange(
                0,
                pre.my_name_is_events@.len() as int,
            ));
            assert(store.events@[pre.events@.len() as int] == store.events@.last());
            assert(store.i_identify_with_events@[n].asserted_at == pre.events@.len());
            assert(store.event_covered(pre.events@.len() as int));
            lemma_complete_after_append(pre, *store);
        }
        Ok(())
    }
}

impl MyNameIsEvent {
    /// Record locally that this store's peer asserts this display name.
    #[verifier::rlimit(60)]
    pub fn create_local(store: &mut Store, name: String) -> (r: Result<(), StoreError>)
        requires
            old(store).wf(),
            old(store).complete(),
        ensures
            final(store).wf(),
            final(store).complete(),
            !old(store).has_local_peer() ==> r == Err::<(), StoreError>(StoreError::NotFound)
                && *final(store) == *old(store),
            old(store).has_local_peer() && old(store).next_seq_spec(old(store).local_peer_ix())
                == i64::MAX ==> r == Err::<(), StoreError>(StoreError::ConstraintViolation)
                && *final(store) == *old(store),
            can_append_local_event(*old(store)) ==> {
                &&& r == Ok::<(), StoreError>(())
                &&& local_event_appended(*old(store), *final(store), EventType::MyNameIsEvent)
                &&& final(store).my_name_is_events@ == old(store).my_name_is_events@.push(
                    MyNameIsEvent { asserted_at: old(store).events@.len() as usize, name: name },
                )
                &&& final(store).peers@ == old(store).peers@
                &&& final(store).entities@ == old(store).entities@
                &&& final(store).send_message_events@ == old(store).send_message_events@
                &&& final(store).i_identify_with_events@ == old(store).i_identify_with_events@
                &&& derived_unchanged(*old(store), *final(store))
            },
    {
        let event_id = match Time::create_local::<MyNameIsEvent>(store) {
            Ok(id) => id,
            Err(e) => {
                return Err(e);
            },
        };
        store.my_name_is_events.push(MyNameIsEvent { asserted_at: event_id, name });
        proof {
            let pre = *old(store);
            let n = pre.my_name_is_events@.len() as int;
            assert(event_id == pre.events@.len());
            assert(store.my_name_is_events@ == pre.my_name_is_events@.push(
                MyNameIsEvent { asserted_at: event_id, name: name },
            ));
            assert(store.my_name_is_events@[n].asserted_at == pre.events@.len());
            assert forall|e: int| 0 <= e < pre.events@.len() implies store.events@[e]
                == pre.events@[e] by {
                assert(store.events@.drop_last()[e] == pre.events@[e]);
            }
            assert(forall|i: int| 0 <= i < n ==> store.my_name_is_events@[i]
                == pre.my_name_is_events@[i]);
            assert(forall|i: int| 0 <= i < n ==> (#[trigger] pre.my_name_is_events@[i]).asserted_at
                < pre.events@.len());
            assert(store.name_events_wf()) by {
                assert forall|i: int, j: int| 0 <= i < j < store.my_name_is_events@.len() implies
                    (#[trigger] store.my_name_is_events@[i]).asserted_at
                    != (#[trigger] store.my_name_is_events@[j]).asserted_at by {
                    if j < n {
                        assert(pre.my_name_is_events@[i].asserted_at
                            != pre.my_name_is_events@[j].asserted_at);
                    } else {
                        assert(pre.my_name_is_events@[i].asserted_at < pre.events@.len());
                    }
                }
                assert forall|i: int| 0 <= i < store.my_name_is_events@.len() implies ({
                    let row = #[trigger] store.my_name_is_events@[i];
                    &&& row.asserted_at < store.events@.len()
                    &&& store.events@[row.asserted_at as int].event_type == EventType::MyNameIsEvent
                }) by {
                    if i < n {
                        assert(store.my_name_is_events@[i] == pre.my_name_is_events@[i]);
                        let row = pre.my_name_is_events@[i];
                        assert(row.asserted_at < pre.events@.len());
                        assert(store.events@[row.asserted_at as int]
                            == pre.events@[row.asserted_at as int]);
                    } else {
                        assert(store.events@[pre.events@.len() as int] == store.events@.last());
                    }
                }
            }
            assert(store.wf());
            assert(pre.my_name_is_events@ =~= store.my_name_is_events@.subrange(0, n));
            assert(pre.send_message_events@ =~= store.send_message_events@.subrange(
                0,
                pre.send_message_events@.len() as int,
            ));
            assert(pre.i_identify_with_events@ =~= store.i_identify_with_events@.subrange(
                0,
                pre.i_identify_with_events@.len() as int,
            ));
            assert(store.events@[pre.events@.len() as int] == store.events@.last());
            assert(store.my_name_is_events@[n].asserted_at == pre.events@.len());
            assert(store.event_covered(pre.events@.len() as int));
            lemma_complete_after_append(pre, *store);
        }
        Ok(())
    }
}

} // verus!
