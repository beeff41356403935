//! Portable events: a slice of one peer's log with every internal row
//! number translated to portable identifiers, exported for another node to
//! replay, and the mirror import that re-stamps such a slice under the
//! sending peer's identity.

use vstd::prelude::*;
use crate::model::{
    lemma_complete_after_append, derived_unchanged, Entity, Event, EventType,
    IIdentifyWithEvent, MyNameIsEvent, Peer, SendMessageEvent, Store, StoreError, Time,
};
use crate::card::lemma_prefix_trans;

verus! {

/// A type-specific payload in portable form: every entity or peer
/// reference is a portable identifier.
pub enum EventArguments {
    SendMessageEvent((u128, String)),
    IIdentifyWithEvent(u128),
    MyNameIsEvent(String),
}

/// One event of a batch: its wall timestamp and its portable payload.
pub struct PortableEvent {
    pub wall: i64,
    pub args: EventArguments,
}

/// An ordered slice of one peer's log, numbered from `first_seq_no`.
pub struct PortableEvents {
    pub first_seq_no: i64,
    pub events: Vec<PortableEvent>,
}

/// `args` is the portable payload of event `e`, tag included.
pub open spec fn args_match_spec(st: Store, e: int, args: EventArguments) -> bool {
    match args {
        EventArguments::SendMessageEvent(a) => st.events@[e].event_type
            == EventType::SendMessageEvent && SendMessageEvent::args_match(st, e, a),
        EventArguments::IIdentifyWithEvent(a) => st.events@[e].event_type
            == EventType::IIdentifyWithEvent && IIdentifyWithEvent::args_match(st, e, a),
        EventArguments::MyNameIsEvent(a) => st.events@[e].event_type == EventType::MyNameIsEvent
            && MyNameIsEvent::args_match(st, e, a),
    }
}

/// `pe` is the portable form of event `e`.
pub open spec fn portable_matches(st: Store, e: int, pe: PortableEvent) -> bool {
    pe.wall == st.events@[e].wall && args_match_spec(st, e, pe.args)
}

/// `ids` names, in strictly ascending sequence-number order, exactly the
/// events of peer `p` with a sequence number above `since`, and `evs` is
/// their portable form.
pub open spec fn batch_ids_ok(
    st: Store,
    p: int,
    since: int,
    ids: Seq<int>,
    evs: Seq<PortableEvent>,
) -> bool {
    &&& ids.len() == evs.len()
    &&& forall|k: int|
        0 <= k < ids.len() ==> {
            &&& 0 <= #[trigger] ids[k] < st.events@.len()
            &&& st.events@[ids[k]].peer_id as int == p
            &&& st.events@[ids[k]].seq_no > since
            &&& portable_matches(st, ids[k], evs[k])
        }
    &&& forall|k1: int, k2: int|
        0 <= k1 < k2 < ids.len() ==> st.events@[#[trigger] ids[k1]].seq_no
            < st.events@[#[trigger] ids[k2]].seq_no
    &&& forall|e: int|
        0 <= e < st.events@.len() && (#[trigger] st.events@[e]).peer_id as int == p
            && st.events@[e].seq_no > since ==> ids.contains(e)
}

/// Some event in the batch would reuse a `(sender, seq_no)` slot already
/// taken in the store.
pub open spec fn batch_collides(st: Store, sender: int, first: int, n: int) -> bool {
    exists|e: int|
        0 <= e < st.events@.len() && (#[trigger] st.events@[e]).peer_id as int == sender && first
            <= st.events@[e].seq_no < first + n
}

impl EventArguments {
    /// Fetch the payload of event `time`, translated to portable form.
    fn fetch(store: &Store, time: usize, event_type: EventType) -> (args: EventArguments)
        requires
            store.wf(),
            store.complete(),
            time < store.events@.len(),
            event_type == store.events@[time as int].event_type,
        ensures
            args_match_spec(*store, time as int, args),
    {
        match event_type {
            EventType::SendMessageEvent => EventArguments::SendMessageEvent(
                SendMessageEvent::get_arguments(store, time),
            ),
            EventType::IIdentifyWithEvent => EventArguments::IIdentifyWithEvent(
                IIdentifyWithEvent::get_arguments(store, time),
            ),
            EventType::MyNameIsEvent => EventArguments::MyNameIsEvent(
                MyNameIsEvent::get_arguments(store, time),
            ),
        }
    }
}

impl PortableEvent {
    /// Assemble the portable form of event `time`.
    fn fetch(store: &Store, time: usize, wall: i64, event_type: EventType) -> (pe: PortableEvent)
        requires
            store.wf(),
            store.complete(),
            time < store.events@.len(),
            wall == store.events@[time as int].wall,
            event_type == store.events@[time as int].event_type,
        ensures
            portable_matches(*store, time as int, pe),
    {
        PortableEvent { wall, args: EventArguments::fetch(store, time, event_type) }
    }
}

impl PortableEvents {
    /// Export the events of `peer_id` with a sequence number above
    /// `since_seq_no`, in sequence order; `None` if there are none.
    #[verifier::rlimit(100)]
    pub fn peer_events_since(store: &Store, peer_id: usize, since_seq_no: i64) -> (r: Option<
        PortableEvents,
    >)
        requires
            store.wf(),
            store.complete(),
        ensures
            r is None <==> !(exists|e: int|
                0 <= e < store.events@.len() && (#[trigger] store.events@[e]).peer_id == peer_id
                    && store.events@[e].seq_no > since_seq_no),
            r matches Some(b) ==> {
                &&& b.first_seq_no == since_seq_no + 1
                &&& b.events@.len() >= 1
                &&& exists|ids: Seq<int>|
                    #[trigger] batch_ids_ok(
                        *store,
                        peer_id as int,
                        since_seq_no as int,
                        ids,
                        b.events@,
                    )
            },
    {
        // Collect the matching event ids in log order.
        let mut idxs: Vec<usize> = Vec::new();
        let mut e: usize = 0;
        while e < store.events.len()
            invariant
                store.wf(),
                e <= store.events@.len(),
                forall|k: int|
                    0 <= k < idxs@.len() ==> {
                        &&& (#[trigger] idxs@[k]) < store.events@.len()
                        &&& store.events@[idxs@[k] as int].peer_id == peer_id
                        &&& store.events@[idxs@[k] as int].seq_no > since_seq_no
                    },
                forall|k: int| 0 <= k < idxs@.len() ==> (#[trigger] idxs@[k]) < e,
                forall|k1: int, k2: int|
                    0 <= k1 < k2 < idxs@.len() ==> (#[trigger] idxs@[k1]) != (#[trigger] idxs@[k2]),
                forall|e2: int|
                    0 <= e2 < e && (#[trigger] store.events@[e2]).peer_id == peer_id
                        && store.events@[e2].seq_no > since_seq_no ==> exists|k: int|
                        0 <= k < idxs@.len() && (#[trigger] idxs@[k]) as int == e2,
            decreases store.events@.len() - e,
        {
            let ghost pre_push = idxs@;
            if store.events[e].peer_id == peer_id && store.events[e].seq_no > since_seq_no {
                idxs.push(e);
                assert(idxs@[idxs@.len() - 1] as int == e as int);
            }
            proof {
                assert forall|e2: int|
                    0 <= e2 < e + 1 && (#[trigger] store.events@[e2]).peer_id == peer_id
                        && store.events@[e2].seq_no > since_seq_no implies exists|k: int|
                    0 <= k < idxs@.len() && (#[trigger] idxs@[k]) as int == e2 by {
                    if e2 == e as int {
                        assert(idxs@[idxs@.len() - 1] as int == e2);
                    } else {
                        let k0 = choose|k0: int|
                            0 <= k0 < pre_push.len() && (#[trigger] pre_push[k0]) as int == e2;
                        assert(idxs@[k0] as int == e2);
                    }
                }
            }
            e += 1;
        }
        if idxs.len() == 0 {
            proof {
                if exists|e2: int|
                    0 <= e2 < store.events@.len() && (#[trigger] store.events@[e2]).peer_id
                        == peer_id && store.events@[e2].seq_no > since_seq_no {
                    let e2 = choose|e2: int|
                        0 <= e2 < store.events@.len() && (#[trigger] store.events@[e2]).peer_id
                            == peer_id && store.events@[e2].seq_no > since_seq_no;
                    assert(false);
                }
            }
            return None;
        }

        // Selection sort by sequence number; the numbers are unique per
        // peer, so the order is strict.
        let n = idxs.len();
        let mut i: usize = 0;
        while i < n
            invariant
                store.wf(),
                n == idxs@.len(),
                i <= n,
                forall|k: int|
                    0 <= k < idxs@.len() ==> {
                        &&& (#[trigger] idxs@[k]) < store.events@.len()
                        &&& store.events@[idxs@[k] as int].peer_id == peer_id
                        &&& store.events@[idxs@[k] as int].seq_no > since_seq_no
                    },
                forall|k1: int, k2: int|
                    0 <= k1 < k2 < idxs@.len() ==> (#[trigger] idxs@[k1]) != (#[trigger] idxs@[k2]),
                forall|e2: int|
                    0 <= e2 < store.events@.len() && (#[trigger] store.events@[e2]).peer_id
                        == peer_id && store.events@[e2].seq_no > since_seq_no ==> exists|k: int|
                        0 <= k < idxs@.len() && (#[trigger] idxs@[k]) as int == e2,
                forall|k1: int, k2: int|
                    0 <= k1 < k2 < i ==> store.events@[(#[trigger] idxs@[k1]) as int].seq_no
                        < store.events@[(#[trigger] idxs@[k2]) as int].seq_no,
                forall|k1: int, k2: int|
                    0 <= k1 < i <= k2 < n ==> store.events@[(#[trigger] idxs@[k1]) as int].seq_no
                        <= store.events@[(#[trigger] idxs@[k2]) as int].seq_no,
            decreases n - i,
        {
            let mut m: usize = i;
            let mut j: usize = i + 1;
            while j < n
                invariant
                    store.wf(),
                    n == idxs@.len(),
                    i <= m < j <= n,
                    forall|k: int|
                        0 <= k < idxs@.len() ==> (#[trigger] idxs@[k]) < store.events@.len(),
                    forall|k: int|
                        i <= k < j ==> store.events@[idxs@[m as int] as int].seq_no
                            <= store.events@[(#[trigger] idxs@[k]) as int].seq_no,
                decreases n - j,
            {
                if store.events[idxs[j]].seq_no < store.events[idxs[m]].seq_no {
                    m = j;
                }
                j += 1;
            }
            let a = idxs[i];
            let b = idxs[m];
            let ghost pre_swap = idxs@;
            idxs.set(i, b);
            idxs.set(m, a);
            proof {
                assert(idxs@.len() == n);
                assert forall|e2: int|
                    0 <= e2 < store.events@.len() && (#[trigger] store.events@[e2]).peer_id
                        == peer_id && store.events@[e2].seq_no > since_seq_no implies exists|k: int|
                    0 <= k < idxs@.len() && (#[trigger] idxs@[k]) as int == e2 by {
                    let k0 = choose|k0: int|
                        0 <= k0 < pre_swap.len() && (#[trigger] pre_swap[k0]) as int == e2;
                    if k0 == i as int {
                        assert(idxs@[m as int] as int == e2);
                    } else if k0 == m as int {
                        assert(idxs@[i as int] as int == e2);
                    } else {
                        assert(idxs@[k0] as int == e2);
                    }
                }
            }
            i += 1;
        }

        // The sorted ids are strictly ascending: two distinct events of one
        // peer never share a sequence number.
        proof {
            assert forall|k1: int, k2: int| 0 <= k1 < k2 < n implies store.events@[(
            #[trigger] idxs@[k1]) as int].seq_no < store.events@[(#[trigger] idxs@[k2]) as int].seq_no
                by {
                let a1 = idxs@[k1] as int;
                let a2 = idxs@[k2] as int;
                if a1 < a2 {
                    assert(!(store.events@[a1].peer_id == store.events@[a2].peer_id
                        && store.events@[a1].seq_no == store.events@[a2].seq_no));
                } else {
                    assert(!(store.events@[a2].peer_id == store.events@[a1].peer_id
                        && store.events@[a2].seq_no == store.events@[a1].seq_no));
                }
            }
        }

        // Translate, in order.
        let mut evs: Vec<PortableEvent> = Vec::new();
        let mut k: usize = 0;
        while k < n
            invariant
                store.wf(),
                store.complete(),
                n == idxs@.len(),
                k <= n,
                evs@.len() == k,
                forall|k2: int|
                    0 <= k2 < idxs@.len() ==> (#[trigger] idxs@[k2]) < store.events@.len(),
                forall|k2: int|
                    0 <= k2 < k ==> portable_matches(
                        *store,
                        idxs@[k2] as int,
                        #[trigger] evs@[k2],
                    ),
            decreases n - k,
        {
            let eid = idxs[k];
            let pe = PortableEvent::fetch(
                store,
                eid,
                store.events[eid].wall,
                store.events[eid].event_type,
            );
            evs.push(pe);
            k += 1;
        }

        proof {
            assert(store.events@[idxs@[0] as int].seq_no > since_seq_no);
            assert(store.events@[idxs@[0] as int].seq_no < i64::MAX);
        }
        let batch = PortableEvents { first_seq_no: since_seq_no + 1, events: evs };
        proof {
            let ids = idxs@.map_values(|u: usize| u as int);
            assert forall|k2: int| 0 <= k2 < ids.len() implies {
                &&& 0 <= #[trigger] ids[k2] < store.events@.len()
                &&& store.events@[ids[k2]].peer_id as int == peer_id as int
                &&& store.events@[ids[k2]].seq_no > since_seq_no as int
                &&& portable_matches(*store, ids[k2], batch.events@[k2])
            } by {
                assert(ids[k2] == idxs@[k2] as int);
            }
            assert forall|k1: int, k2: int| 0 <= k1 < k2 < ids.len() implies store.events@[(
            #[trigger] ids[k1])].seq_no < store.events@[(#[trigger] ids[k2])].seq_no by {
                assert(ids[k1] == idxs@[k1] as int && ids[k2] == idxs@[k2] as int);
            }
            assert forall|e2: int|
                0 <= e2 < store.events@.len() && (#[trigger] store.events@[e2]).peer_id as int
                    == peer_id as int && store.events@[e2].seq_no > since_seq_no as int implies
                ids.contains(e2) by {
                let k2 = choose|k2: int|
                    0 <= k2 < idxs@.len() && (#[trigger] idxs@[k2]) as int == e2;
                assert(ids[k2] == e2);
            }
            assert(batch_ids_ok(
                *store,
                peer_id as int,
                since_seq_no as int,
                ids,
                batch.events@,
            ));
        }
        Some(batch)
    }
}

/// Growing the store never invalidates a portable payload already matched
/// against it.
proof fn lemma_args_match_monotone(a: Store, b: Store, e: int, args: EventArguments)
    requires
        args_match_spec(a, e, args),
        0 <= e < a.events@.len(),
        a.events@.is_prefix_of(b.events@),
        a.peers@.is_prefix_of(b.peers@),
        a.entities@.is_prefix_of(b.entities@),
        a.send_message_events@.is_prefix_of(b.send_message_events@),
        a.i_identify_with_events@.is_prefix_of(b.i_identify_with_events@),
        a.my_name_is_events@.is_prefix_of(b.my_name_is_events@),
    ensures
        args_match_spec(b, e, args),
{
    assert(b.events@[e] == a.events@.subrange(0, a.events@.len() as int)[e]);
    assert(b.events@[e] == a.events@[e]);
    match args {
        EventArguments::SendMessageEvent(aa) => {
            let j = choose|j: int|
                0 <= j < a.send_message_events@.len() && ({
                    let row = #[trigger] a.send_message_events@[j];
                    &&& row.asserted_at as int == e
                    &&& row.message_id < a.entities@.len()
                    &&& a.entities@[row.message_id as int].uuid == Some(aa.0)
                    &&& row.body == aa.1
                });
            assert(b.send_message_events@[j] == a.send_message_events@.subrange(
                0,
                a.send_message_events@.len() as int,
            )[j]);
            assert(b.send_message_events@[j] == a.send_message_events@[j]);
            let row = a.send_message_events@[j];
            assert(b.entities@[row.message_id as int] == a.entities@.subrange(
                0,
                a.entities@.len() as int,
            )[row.message_id as int]);
            assert(b.entities@[row.message_id as int] == a.entities@[row.message_id as int]);
            assert(SendMessageEvent::args_match(b, e, aa));
        },
        EventArguments::IIdentifyWithEvent(aa) => {
            let j = choose|j: int|
                0 <= j < a.i_identify_with_events@.len() && ({
                    let row = #[trigger] a.i_identify_with_events@[j];
                    &&& row.asserted_at as int == e
                    &&& row.with_id < a.peers@.len()
                    &&& a.peers@[row.with_id as int].uuid == aa
                });
            assert(b.i_identify_with_events@[j] == a.i_identify_with_events@.subrange(
                0,
                a.i_identify_with_events@.len() as int,
            )[j]);
            assert(b.i_identify_with_events@[j] == a.i_identify_with_events@[j]);
            let row = a.i_identify_with_events@[j];
            assert(b.peers@[row.with_id as int] == a.peers@.subrange(
                0,
                a.peers@.len() as int,
            )[row.with_id as int]);
            assert(b.peers@[row.with_id as int] == a.peers@[row.with_id as int]);
            assert(IIdentifyWithEvent::args_match(b, e, aa));
        },
        EventArguments::MyNameIsEvent(aa) => {
            let j = choose|j: int|
                0 <= j < a.my_name_is_events@.len() && ({
                    let row = #[trigger] a.my_name_is_events@[j];
                    &&& row.asserted_at as int == e
                    &&& row.name == aa
                });
            assert(b.my_name_is_events@[j] == a.my_name_is_events@.subrange(
                0,
                a.my_name_is_events@.len() as int,
            )[j]);
            assert(b.my_name_is_events@[j] == a.my_name_is_events@[j]);
            assert(MyNameIsEvent::args_match(b, e, aa));
        },
    }
}

/// Append one remote send-message event of `sender` at sequence `seq`.
#[verifier::rlimit(100)]
fn import_send(store: &mut Store, sender: usize, seq: i64, wall: i64, u: u128, body: &String)
    requires
        old(store).wf(),
        old(store).complete(),
        sender < old(store).peers@.len(),
        0 <= seq < i64::MAX,
        forall|e: int|
            0 <= e < old(store).events@.len() ==> !((#[trigger] old(store).events@[e]).peer_id
                == sender && old(store).events@[e].seq_no == seq),
    ensures
        final(store).wf(),
        final(store).complete(),
        final(store).events@.len() == old(store).events@.len() + 1,
        final(store).events@.drop_last() == old(store).events@,
        final(store).events@.last().peer_id == sender,
        final(store).events@.last().seq_no == seq,
        final(store).events@.last().wall == wall,
        final(store).events@.last().event_type == EventType::SendMessageEvent,
        SendMessageEvent::args_match(*final(store), old(store).events@.len() as int, (u, *body)),
        old(store).peers@.is_prefix_of(final(store).peers@),
        old(store).entities@.is_prefix_of(final(store).entities@),
        old(store).send_message_events@.is_prefix_of(final(store).send_message_events@),
        old(store).i_identify_with_events@.is_prefix_of(final(store).i_identify_with_events@),
        old(store).my_name_is_events@.is_prefix_of(final(store).my_name_is_events@),
        derived_unchanged(*old(store), *final(store)),
{
    let event_id = store.events.len();
    store.events.push(
        Time { wall: wall, peer_id: sender, seq_no: seq, event_type: EventType::SendMessageEvent },
    );
    proof {
        let pre = *old(store);
        assert(store.events@.drop_last() =~= pre.events@);
        assert forall|e: int| 0 <= e < pre.events@.len() implies store.events@[e]
            == pre.events@[e] by {
            assert(store.events@.drop_last()[e] == pre.events@[e]);
        }
    }
    let ent = Entity::import(store, event_id, u);
    let b = body.clone();
    let ghost mid = *store;
    store.send_message_events.push(
        SendMessageEvent { asserted_at: event_id, message_id: ent, body: b },
    );
    proof {
        let pre = *old(store);
        let n = pre.send_message_events@.len() as int;
        assert(store.send_message_events@ == mid.send_message_events@.push(
            SendMessageEvent { asserted_at: event_id, message_id: ent, body: b },
        ));
        assert(mid.send_message_events@ == pre.send_message_events@);
        assert(forall|i: int|
            0 <= i < n ==> store.send_message_events@[i] == pre.send_message_events@[i]);
        assert(forall|i: int|
            0 <= i < n ==> (#[trigger] pre.send_message_events@[i]).asserted_at
                < pre.events@.len());
        assert(store.send_message_events@[n].asserted_at == event_id);
        assert(store.send_events_wf()) by {
            assert forall|i: int, j: int| 0 <= i < j < store.send_message_events@.len() implies (
            #[trigger] store.send_message_events@[i]).asserted_at
                != (#[trigger] store.send_message_events@[j]).asserted_at by {
                if j < n {
                    assert(pre.send_message_events@[i].asserted_at
                        != pre.send_message_events@[j].asserted_at);
                } else {
                    assert(pre.send_message_events@[i].asserted_at < pre.events@.len());
                }
            }
            assert forall|i: int| 0 <= i < store.send_message_events@.len() implies ({
                let row = #[trigger] store.send_message_events@[i];
                &&& row.asserted_at < store.events@.len()
                &&& store.events@[row.asserted_at as int].event_type
                    == EventType::SendMessageEvent
                &&& row.message_id < store.entities@.len()
                &&& store.entities@[row.message_id as int].uuid is Some
            }) by {
                if i < n {
                    assert(store.send_message_events@[i] == pre.send_message_events@[i]);
                    let row = pre.send_message_events@[i];
                    assert(row.asserted_at < pre.events@.len());
                    assert(store.events@[row.asserted_at as int]
                        == pre.events@[row.asserted_at as int]);
                    assert(mid.entities@[row.message_id as int] == pre.entities@.subrange(
                        0,
                        pre.entities@.len() as int,
                    )[row.message_id as int]);
                    assert(store.entities@[row.message_id as int]
                        == pre.entities@[row.message_id as int]);
                } else {
                    assert(store.events@[pre.events@.len() as int] == store.events@.last());
                }
            }
        }
        assert(store.wf());
        assert(pre.send_message_events@ =~= store.send_message_events@.subrange(0, n));
        assert(pre.i_identify_with_events@ =~= store.i_identify_with_events@.subrange(
            0,
            pre.i_identify_with_events@.len() as int,
        ));
        assert(pre.my_name_is_events@ =~= store.my_name_is_events@.subrange(
            0,
            pre.my_name_is_events@.len() as int,
        ));
        assert(store.events@[pre.events@.len() as int] == store.events@.last());
        assert(store.event_covered(pre.events@.len() as int));
        lemma_complete_after_append(pre, *store);
        assert(SendMessageEvent::args_match(*store, pre.events@.len() as int, (u, *body)));
    }
}

/// Append one remote identify-with event of `sender` at sequence `seq`.
#[verifier::rlimit(100)]
fn import_identify(store: &mut Store, sender: usize, seq: i64, wall: i64, u: u128)
    requires
        old(store).wf(),
        old(store).complete(),
        sender < old(store).peers@.len(),
        0 <= seq < i64::MAX,
        forall|e: int|
            0 <= e < old(store).events@.len() ==> !((#[trigger] old(store).events@[e]).peer_id
                == sender && old(store).events@[e].seq_no == seq),
    ensures
        final(store).wf(),
        final(store).complete(),
        final(store).events@.len() == old(store).events@.len() + 1,
        final(store).events@.drop_last() == old(store).events@,
        final(store).events@.last().peer_id == sender,
        final(store).events@.last().seq_no == seq,
        final(store).events@.last().wall == wall,
        final(store).events@.last().event_type == EventType::IIdentifyWithEvent,
        IIdentifyWithEvent::args_match(*final(store), old(store).events@.len() as int, u),
        old(store).peers@.is_prefix_of(final(store).peers@),
        old(store).entities@.is_prefix_of(final(store).entities@),
        old(store).send_message_events@.is_prefix_of(final(store).send_message_events@),
        old(store).i_identify_with_events@.is_prefix_of(final(store).i_identify_with_events@),
        old(store).my_name_is_events@.is_prefix_of(final(store).my_name_is_events@),
        derived_unchanged(*old(store), *final(store)),
{
    let event_id = store.events.len();
    store.events.push(
        Time {
            wall: wall,
            peer_id: sender,
            seq_no: seq,
            event_type: EventType::IIdentifyWithEvent,
        },
    );
    proof {
        let pre = *old(store);
        assert(store.events@.drop_last() =~= pre.events@);
        assert forall|e: int| 0 <= e < pre.events@.len() implies store.events@[e]
            == pre.events@[e] by {
            assert(store.events@.drop_last()[e] == pre.events@[e]);
        }
    }
    let with = Peer::import(store, u);
    let ghost mid = *store;
    store.i_identify_with_events.push(IIdentifyWithEvent { asserted_at: event_id, with_id: with });
    proof {
        let pre = *old(store);
        let n = pre.i_identify_with_events@.len() as int;
        assert(store.i_identify_with_events@ == mid.i_identify_with_events@.push(
            IIdentifyWithEvent { asserted_at: event_id, with_id: with },
        ));
        assert(mid.i_identify_with_events@ == pre.i_identify_with_events@);
        assert(forall|i: int|
            0 <= i < n ==> store.i_identify_with_events@[i] == pre.i_identify_with_events@[i]);
        assert(forall|i: int|
            0 <= i < n ==> (#[trigger] pre.i_identify_with_events@[i]).asserted_at
                < pre.events@.len());
        assert(store.i_identify_with_events@[n].asserted_at == event_id);
        assert(store.identify_events_wf()) by {
            assert forall|i: int, j: int| 0 <= i < j < store.i_identify_with_events@.len()
                implies (#[trigger] store.i_identify_with_events@[i]).asserted_at
                != (#[trigger] store.i_identify_with_events@[j]).asserted_at by {
                if j < n {
                    assert(pre.i_identify_with_events@[i].asserted_at
                        != pre.i_identify_with_events@[j].asserted_at);
                } else {
                    assert(pre.i_identify_with_events@[i].asserted_at < pre.events@.len());
                }
            }
            assert forall|i: int| 0 <= i < store.i_identify_with_events@.len() implies ({
                let row = #[trigger] store.i_identify_with_events@[i];
                &&& row.asserted_at < store.events@.len()
                &&& store.events@[row.asserted_at as int].event_type
                    == EventType::IIdentifyWithEvent
                &&& row.with_id < store.peers@.len()
            }) by {
                if i < n {
                    assert(store.i_identify_with_events@[i] == pre.i_identify_with_events@[i]);
                    let row = pre.i_identify_with_events@[i];
                    assert(row.asserted_at < pre.events@.len());
                    assert(store.events@[row.asserted_at as int]
                        == pre.events@[row.asserted_at as int]);
                    assert(row.with_id < pre.peers@.len());
                    assert(pre.peers@.len() <= store.peers@.len());
                } else {
                    assert(store.events@[pre.events@.len() as int] == store.events@.last());
                }
            }
        }
        assert(store.wf());
        assert(pre.i_identify_with_events@ =~= store.i_identify_with_events@.subrange(0, n));
        assert(pre.send_message_events@ =~= store.send_message_events@.subrange(
            0,
            pre.send_message_events@.len() as int,
        ));
        assert(pre.my_name_is_events@ =~= store.my_name_is_events@.subrange(
            0,
            pre.my_name_is_events@.len() as int,
        ));
        assert(store.events@[pre.events@.len() as int] == store.events@.last());
        assert(store.event_covered(pre.events@.len() as int));
        lemma_complete_after_append(pre, *store);
        assert(IIdentifyWithEvent::args_match(*store, pre.events@.len() as int, u));
    }
}

/// Append one remote name-assertion event of `sender` at sequence `seq`.
#[verifier::rlimit(100)]
fn import_name(store: &mut Store, sender: usize, seq: i64, wall: i64, name: &String)
    requires
        old(store).wf(),
        old(store).complete(),
        sender < old(store).peers@.len(),
        0 <= seq < i64::MAX,
        forall|e: int|
            0 <= e < old(store).events@.len() ==> !((#[trigger] old(store).events@[e]).peer_id
                == sender && old(store).events@[e].seq_no == seq),
    ensures
        final(store).wf(),
        final(store).complete(),
        final(store).events@.len() == old(store).events@.len() + 1,
        final(store).events@.drop_last() == old(store).events@,
        final(store).events@.last().peer_id == sender,
        final(store).events@.last().seq_no == seq,
        final(store).events@.last().wall == wall,
        final(store).events@.last().event_type == EventType::MyNameIsEvent,
        MyNameIsEvent::args_match(*final(store), old(store).events@.len() as int, *name),
        old(store).peers@.is_prefix_of(final(store).peers@),
        old(store).entities@.is_prefix_of(final(store).entities@),
        old(store).send_message_events@.is_prefix_of(final(store).send_message_events@),
        old(store).i_identify_with_events@.is_prefix_of(final(store).i_identify_with_events@),
        old(store).my_name_is_events@.is_prefix_of(final(store).my_name_is_events@),
        derived_unchanged(*old(store), *final(store)),
{
    let event_id = store.events.len();
    store.events.push(
        Time { wall: wall, peer_id: sender, seq_no: seq, event_type: EventType::MyNameIsEvent },
    );
    proof {
        let pre = *old(store);
        assert(store.events@.drop_last() =~= pre.events@);
        assert forall|e: int| 0 <= e < pre.events@.len() implies store.events@[e]
            == pre.events@[e] by {
            assert(store.events@.drop_last()[e] == pre.events@[e]);
        }
    }
    let nm = name.clone();
    let ghost mid = *store;
    store.my_name_is_events.push(MyNameIsEvent { asserted_at: event_id, name: nm });
    proof {
        let pre = *old(store);
        let n = pre.my_name_is_events@.len() as int;
        assert(store.my_name_is_events@ == mid.my_name_is_events@.push(
            MyNameIsEvent { asserted_at: event_id, name: nm },
        ));
        assert(mid.my_name_is_events@ == pre.my_name_is_events@);
        assert(forall|i: int|
            0 <= i < n ==> store.my_name_is_events@[i] == pre.my_name_is_events@[i]);
        assert(forall|i: int|
            0 <= i < n ==> (#[trigger] pre.my_name_is_events@[i]).asserted_at
                < pre.events@.len());
        assert(store.my_name_is_events@[n].asserted_at == event_id);
        assert(store.name_events_wf()) by {
            assert forall|i: int, j: int| 0 <= i < j < store.my_name_is_events@.len() implies (
            #[trigger] store.my_name_is_events@[i]).asserted_at
                != (#[trigger] store.my_name_is_events@[j]).asserted_at by {
                if j < n {
                    assert(pre.my_name_is_events@[i].asserted_at
                        != pre.my_name_is_events@[j].asserted_at);
                } else {
                    assert(pre.my_name_is_events@[i].asserted_at < pre.events@.len());
                }
            }
            assert forall|i: int| 0 <= i < store.my_name_is_events@.len() implies ({
                let row = #[trigger] store.my_name_is_events@[i];
                &&& row.asserted_at < store.events@.len()
                &&& store.events@[row.asserted_at as int].event_type == EventType::MyNameIsEvent
            }) by {
                if i < n {
                    assert(store.my_name_is_events@[i] == pre.my_name_is_events@[i]);
                    let row = pre.my_name_is_events@[i];
                    assert(row.asserted_at < pre.events@.len());
                    assert(store.events@[row.asserted_at as int]
                        == pre.events@[row.asserted_at as int]);
                } else {
                    assert(store.events@[pre.events@.len() as int] == store.events@.last());
                }
            }
        }
        assert(store.wf());
        assert(pre.my_name_is_events@ =~= store.my_name_is_events@.subrange(0, n));
        assert(pre.send_message_events@ =~= store.send_message_events@.subrange(
            0,
            pre.send_message_events@.len() as int,
        ));
        assert(pre.i_identify_with_events@ =~= store.i_identify_with_events@.subrange(
            0,
            pre.i_identify_with_events@.len() as int,
        ));
        assert(store.events@[pre.events@.len() as int] == store.events@.last());
        assert(store.event_covered(pre.events@.len() as int));
        lemma_complete_after_append(pre, *store);
        assert(MyNameIsEvent::args_match(*store, pre.events@.len() as int, nm));
    }
}

/// Append one remote event of `sender` at sequence number `seq`, resolving
/// the payload's portable identifiers to local ids.
fn import_one(store: &mut Store, sender: usize, seq: i64, pe: &PortableEvent)
    requires
        old(store).wf(),
        old(store).complete(),
        sender < old(store).peers@.len(),
        0 <= seq < i64::MAX,
        forall|e: int|
            0 <= e < old(store).events@.len() ==> !((#[trigger] old(store).events@[e]).peer_id
                == sender && old(store).events@[e].seq_no == seq),
    ensures
        final(store).wf(),
        final(store).complete(),
        final(store).events@.len() == old(store).events@.len() + 1,
        final(store).events@.drop_last() == old(store).events@,
        final(store).events@.last().peer_id == sender,
        final(store).events@.last().seq_no == seq,
        final(store).events@.last().wall == pe.wall,
        args_match_spec(*final(store), old(store).events@.len() as int, pe.args),
        old(store).peers@.is_prefix_of(final(store).peers@),
        old(store).entities@.is_prefix_of(final(store).entities@),
        old(store).send_message_events@.is_prefix_of(final(store).send_message_events@),
        old(store).i_identify_with_events@.is_prefix_of(final(store).i_identify_with_events@),
        old(store).my_name_is_events@.is_prefix_of(final(store).my_name_is_events@),
        derived_unchanged(*old(store), *final(store)),
{
    match &pe.args {
        EventArguments::SendMessageEvent((u, body)) => {
            import_send(store, sender, seq, pe.wall, *u, body);
        },
        EventArguments::IIdentifyWithEvent(u) => {
            import_identify(store, sender, seq, pe.wall, *u);
        },
        EventArguments::MyNameIsEvent(name) => {
            import_name(store, sender, seq, pe.wall, name);
        },
    }
}

impl PortableEvents {
    /// Import this batch as remote events of `sender`: each event is
    /// re-stamped under the sender's peer id with consecutive sequence
    /// numbers from `first_seq_no`, and every referenced portable
    /// identifier is resolved to a local internal id, creating shadow rows
    /// the first time an identifier is seen.  The whole batch is checked
    /// before anything is written, so a refused batch leaves the store
    /// untouched.
    #[verifier::rlimit(100)]
    pub fn import(&self, store: &mut Store, sender: usize) -> (r: Result<(), StoreError>)
        requires
            old(store).wf(),
            old(store).complete(),
            sender < old(store).peers@.len(),
        ensures
            final(store).wf(),
            final(store).complete(),
            r is Err ==> *final(store) == *old(store),
            r == Err::<(), StoreError>(StoreError::MalformedBatch) <==> (self.first_seq_no < 0
                || self.first_seq_no as int + self.events@.len() as int > i64::MAX as int),
            r == Err::<(), StoreError>(StoreError::ConstraintViolation) <==> (!(self.first_seq_no
                < 0 || self.first_seq_no as int + self.events@.len() as int > i64::MAX as int)
                && batch_collides(
                *old(store),
                sender as int,
                self.first_seq_no as int,
                self.events@.len() as int,
            )),
            r is Ok <==> (!(self.first_seq_no < 0 || self.first_seq_no as int
                + self.events@.len() as int > i64::MAX as int) && !batch_collides(
                *old(store),
                sender as int,
                self.first_seq_no as int,
                self.events@.len() as int,
            )),
            r is Ok ==> {
                &&& final(store).events@.len() == old(store).events@.len() + self.events@.len()
                &&& old(store).events@.is_prefix_of(final(store).events@)
                &&& forall|k: int|
                    0 <= k < self.events@.len() ==> ({
                        let ev = #[trigger] final(store).events@[old(store).events@.len() + k];
                        &&& ev.peer_id == sender
                        &&& ev.seq_no as int == self.first_seq_no as int + k
                        &&& ev.wall == self.events@[k].wall
                        &&& args_match_spec(
                            *final(store),
                            old(store).events@.len() + k,
                            self.events@[k].args,
                        )
                    })
                &&& old(store).peers@.is_prefix_of(final(store).peers@)
                &&& old(store).entities@.is_prefix_of(final(store).entities@)
                &&& old(store).send_message_events@.is_prefix_of(
                    final(store).send_message_events@,
                )
                &&& old(store).i_identify_with_events@.is_prefix_of(
                    final(store).i_identify_with_events@,
                )
                &&& old(store).my_name_is_events@.is_prefix_of(final(store).my_name_is_events@)
                &&& derived_unchanged(*old(store), *final(store))
            },
    {
        let n = self.events.len();
        let first = self.first_seq_no;
        if first < 0 || (first as i128) + (n as i128) > (i64::MAX as i128) {
            return Err(StoreError::MalformedBatch);
        }
        assert(first as int + n as int <= i64::MAX as int);
        assert(n as int <= i64::MAX as int);
        let bound: i64 = first + (n as i64);
        let mut e: usize = 0;
        while e < store.events.len()
            invariant
                *store == *old(store),
                old(store).wf(),
                old(store).complete(),
                e <= store.events@.len(),
                0 <= first,
                first == self.first_seq_no,
                n == self.events@.len(),
                first as int + n as int <= i64::MAX as int,
                bound as int == first as int + n as int,
                forall|e2: int|
                    0 <= e2 < e ==> !((#[trigger] store.events@[e2]).peer_id == sender && first
                        <= store.events@[e2].seq_no < bound),
            decreases store.events@.len() - e,
        {
            let ev = store.events[e];
            if ev.peer_id == sender && ev.seq_no >= first && ev.seq_no < bound {
                proof {
                    assert(batch_collides(*old(store), sender as int, first as int, n as int));
                }
                return Err(StoreError::ConstraintViolation);
            }
            e += 1;
        }
        proof {
            if batch_collides(*old(store), sender as int, first as int, n as int) {
                let e2 = choose|e2: int|
                    0 <= e2 < old(store).events@.len()
                        && (#[trigger] old(store).events@[e2]).peer_id as int == sender as int
                        && first as int <= old(store).events@[e2].seq_no < first as int + n as int;
                assert(false);
            }
        }

        let mut k: usize = 0;
        while k < n
            invariant
                old(store).wf(),
                old(store).complete(),
                store.wf(),
                store.complete(),
                sender < store.peers@.len(),
                n == self.events@.len(),
                0 <= first,
                first == self.first_seq_no,
                first as int + n as int <= i64::MAX as int,
                !batch_collides(*old(store), sender as int, first as int, n as int),
                k <= n,
                store.events@.len() == old(store).events@.len() + k,
                old(store).events@.is_prefix_of(store.events@),
                old(store).peers@.is_prefix_of(store.peers@),
                old(store).entities@.is_prefix_of(store.entities@),
                old(store).send_message_events@.is_prefix_of(store.send_message_events@),
                old(store).i_identify_with_events@.is_prefix_of(store.i_identify_with_events@),
                old(store).my_name_is_events@.is_prefix_of(store.my_name_is_events@),
                derived_unchanged(*old(store), *store),
                forall|k2: int|
                    0 <= k2 < k ==> ({
                        let ev = #[trigger] store.events@[old(store).events@.len() + k2];
                        &&& ev.peer_id == sender
                        &&& ev.seq_no as int == first as int + k2
                        &&& ev.wall == self.events@[k2].wall
                        &&& args_match_spec(
                            *store,
                            old(store).events@.len() + k2,
                            self.events@[k2].args,
                        )
                    }),
            decreases n - k,
        {
            let pe = &self.events[k];
            let seq: i64 = first + (k as i64);
            let ghost sk = *store;
            proof {
                assert forall|e2: int| 0 <= e2 < store.events@.len() implies !((
                #[trigger] store.events@[e2]).peer_id == sender && store.events@[e2].seq_no
                    == seq) by {
                    if e2 < old(store).events@.len() {
                        assert(store.events@[e2] == old(store).events@.subrange(
                            0,
                            old(store).events@.len() as int,
                        )[e2]);
                        assert(store.events@[e2] == old(store).events@[e2]);
                        if store.events@[e2].peer_id == sender && store.events@[e2].seq_no
                            == seq {
                            assert(batch_collides(
                                *old(store),
                                sender as int,
                                first as int,
                                n as int,
                            ));
                            assert(false);
                        }
                    } else {
                        let k2 = e2 - old(store).events@.len();
                        assert(store.events@[old(store).events@.len() + k2].seq_no as int
                            == first as int + k2);
                    }
                }
            }
            import_one(store, sender, seq, pe);
            proof {
                assert(sk.events@.is_prefix_of(store.events@)) by {
                    assert(sk.events@ =~= store.events@.subrange(0, sk.events@.len() as int));
                }
                lemma_prefix_trans(old(store).events@, sk.events@, store.events@);
                lemma_prefix_trans(old(store).peers@, sk.peers@, store.peers@);
                lemma_prefix_trans(old(store).entities@, sk.entities@, store.entities@);
                lemma_prefix_trans(
                    old(store).send_message_events@,
                    sk.send_message_events@,
                    store.send_message_events@,
                );
                lemma_prefix_trans(
                    old(store).i_identify_with_events@,
                    sk.i_identify_with_events@,
                    store.i_identify_with_events@,
                );
                lemma_prefix_trans(
                    old(store).my_name_is_events@,
                    sk.my_name_is_events@,
                    store.my_name_is_events@,
                );
                assert forall|k2: int| 0 <= k2 < k implies #[trigger] store.events@[old(
                    store,
                ).events@.len() + k2] == sk.events@[old(store).events@.len() + k2] by {
                    assert(store.events@.drop_last()[old(store).events@.len() + k2]
                        == sk.events@[old(store).events@.len() + k2]);
                }
                assert forall|k2: int| 0 <= k2 < k implies args_match_spec(
                    *store,
                    old(store).events@.len() + k2,
                    self.events@[k2].args,
                ) by {
                    lemma_args_match_monotone(
                        sk,
                        *store,
                        old(store).events@.len() + k2,
                        self.events@[k2].args,
                    );
                }
                assert(store.events@[old(store).events@.len() + k as int]
                    == store.events@.last());
            }
            k += 1;
        }
        Ok(())
    }
}

} // verus!
