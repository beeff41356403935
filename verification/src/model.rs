//! The data model: peers, entities, the event log, the base event-type
//! tables and the derived relations, all held in one in-memory `Store`.
//!
//! Internal ids are dense, backend-assigned row numbers; here they are the
//! indices into the table vectors.  Portable identifiers are 128-bit values
//! that are meaningful across stores.

use vstd::prelude::*;

verus! {

/// Tag naming the base event-type table that holds an event's payload.
#[derive(Clone, Copy, PartialEq, Eq, Structural, Debug)]
pub enum EventType {
    SendMessageEvent,
    IIdentifyWithEvent,
    MyNameIsEvent,
}

/// The error taxonomy of the store.
#[derive(Clone, Copy, PartialEq, Eq, Structural, Debug)]
pub enum StoreError {
    /// Creating a second local peer.
    AlreadyExists,
    /// Querying the local peer before one exists, or a portable identifier
    /// with no local match.
    NotFound,
    /// A duplicate `(peer, seq_no)` on event insert.
    ConstraintViolation,
    /// A portable event batch with an impossible sequence numbering.
    MalformedBatch,
}

/// A node identity.  Its internal id is its index in `Store::peers`; at most
/// one row is marked local.
#[derive(Clone, Copy, PartialEq, Eq, Structural, Debug)]
pub struct Peer {
    pub uuid: u128,
    pub is_local: bool,
}

/// A stable identity for a mutable application object.  Its internal id is
/// its index in `Store::entities`.  An entity materialized by the rule
/// engine (rather than created or imported) carries no portable identifier.
#[derive(Clone, Copy, PartialEq, Eq, Structural, Debug)]
pub struct Entity {
    pub uuid: Option<u128>,
    pub introduced_at: usize,
}

/// An event-log record: an immutable, timestamped fact owned by a peer.
/// Its internal id is its index in `Store::events`.
#[derive(Clone, Copy, PartialEq, Eq, Structural, Debug)]
pub struct Time {
    pub wall: i64,
    pub peer_id: usize,
    pub seq_no: i64,
    pub event_type: EventType,
}

/// Base event payload: a message was sent.
#[derive(Clone, Debug)]
pub struct SendMessageEvent {
    pub asserted_at: usize,
    pub message_id: usize,
    pub body: String,
}

/// Base event payload: the asserting peer identifies another peer.
#[derive(Clone, Copy, PartialEq, Eq, Structural, Debug)]
pub struct IIdentifyWithEvent {
    pub asserted_at: usize,
    pub with_id: usize,
}

/// Base event payload: the asserting peer states its own display name.
#[derive(Clone, Debug)]
pub struct MyNameIsEvent {
    pub asserted_at: usize,
    pub name: String,
}

/// Derived: the set of entities that are messages.
#[derive(Clone, Copy, PartialEq, Eq, Structural, Debug)]
pub struct Message {
    pub entity_id: usize,
}

/// Derived: a message's body text, keyed by `(entity, asserting event)`.
#[derive(Clone, Debug)]
pub struct MessageBody {
    pub entity_id: usize,
    pub asserted_at: usize,
    pub body: String,
}

/// Derived: a message's authoring peer, keyed by entity.
#[derive(Clone, Copy, PartialEq, Eq, Structural, Debug)]
pub struct MessageAuthor {
    pub entity_id: usize,
    pub asserted_at: usize,
    pub author_id: usize,
}

/// Derived: the symmetric, reflexive relation of peers that identify each
/// other.
#[derive(Clone, Copy, PartialEq, Eq, Structural, Debug)]
pub struct MutuallyIdentify {
    pub left_id: usize,
    pub right_id: usize,
}

/// Derived: the transitive closure of `MutuallyIdentify`.
#[derive(Clone, Copy, PartialEq, Eq, Structural, Debug)]
pub struct SamePerson {
    pub left_id: usize,
    pub right_id: usize,
}

/// Derived: the display-name history of a merged identity.  `retracted_at`
/// names the assertion that superseded this one; `None` means current.
#[derive(Clone, Debug)]
pub struct PeerName {
    pub peer_id: usize,
    pub asserted_at: usize,
    pub retracted_at: Option<usize>,
    pub name: String,
}

/// Marker for the event that retracts a `PeerName` row, kept distinct from
/// the event that asserted it.
#[derive(Clone, Copy, PartialEq, Eq, Structural, Debug)]
pub struct Retraction(pub usize);

/// The whole store: the event log, the base event-type tables, and the
/// derived relations, which the rule engine alone fills.
#[derive(Clone, Debug)]
pub struct Store {
    pub peers: Vec<Peer>,
    pub events: Vec<Time>,
    pub entities: Vec<Entity>,
    pub send_message_events: Vec<SendMessageEvent>,
    pub i_identify_with_events: Vec<IIdentifyWithEvent>,
    pub my_name_is_events: Vec<MyNameIsEvent>,
    pub messages: Vec<Message>,
    pub message_bodies: Vec<MessageBody>,
    pub message_authors: Vec<MessageAuthor>,
    pub mutually_identify: Vec<MutuallyIdentify>,
    pub same_person: Vec<SamePerson>,
    pub peer_names: Vec<PeerName>,
}

impl Store {
    /// There is at most one local peer.
    pub open spec fn peers_wf(self) -> bool {
        forall|i: int, j: int|
            0 <= i < j < self.peers@.len() ==> !(self.peers@[i].is_local
                && self.peers@[j].is_local)
    }

    /// Events name an existing peer, carry a non-negative sequence number
    /// that leaves room for a successor, and `(peer_id, seq_no)` is unique.
    pub open spec fn events_wf(self) -> bool {
        &&& forall|i: int|
            0 <= i < self.events@.len() ==> (#[trigger] self.events@[i]).peer_id
                < self.peers@.len() && 0 <= self.events@[i].seq_no < i64::MAX
        &&& forall|i: int, j: int|
            0 <= i < j < self.events@.len() ==> !((#[trigger] self.events@[i]).peer_id
                == (#[trigger] self.events@[j]).peer_id && self.events@[i].seq_no
                == self.events@[j].seq_no)
    }

    /// Entities name the event that introduced them.
    pub open spec fn entities_wf(self) -> bool {
        forall|i: int|
            0 <= i < self.entities@.len() ==> (#[trigger] self.entities@[i]).introduced_at
                < self.events@.len()
    }

    /// A payload row points at an event of its own kind; one payload row per
    /// event; a message payload names a created or imported entity.
    pub open spec fn send_events_wf(self) -> bool {
        &&& forall|i: int|
            0 <= i < self.send_message_events@.len() ==> {
                let row = #[trigger] self.send_message_events@[i];
                &&& row.asserted_at < self.events@.len()
                &&& self.events@[row.asserted_at as int].event_type == EventType::SendMessageEvent
                &&& row.message_id < self.entities@.len()
                &&& self.entities@[row.message_id as int].uuid is Some
            }
        &&& forall|i: int, j: int|
            0 <= i < j < self.send_message_events@.len()
                ==> (#[trigger] self.send_message_events@[i]).asserted_at
                != (#[trigger] self.send_message_events@[j]).asserted_at
    }

    pub open spec fn identify_events_wf(self) -> bool {
        &&& forall|i: int|
            0 <= i < self.i_identify_with_events@.len() ==> {
                let row = #[trigger] self.i_identify_with_events@[i];
                &&& row.asserted_at < self.events@.len()
                &&& self.events@[row.asserted_at as int].event_type == EventType::IIdentifyWithEvent
                &&& row.with_id < self.peers@.len()
            }
        &&& forall|i: int, j: int|
            0 <= i < j < self.i_identify_with_events@.len()
                ==> (#[trigger] self.i_identify_with_events@[i]).asserted_at
                != (#[trigger] self.i_identify_with_events@[j]).asserted_at
    }

    pub open spec fn name_events_wf(self) -> bool {
        &&& forall|i: int|
            0 <= i < self.my_name_is_events@.len() ==> {
                let row = #[trigger] self.my_name_is_events@[i];
                &&& row.asserted_at < self.events@.len()
                &&& self.events@[row.asserted_at as int].event_type == EventType::MyNameIsEvent
            }
        &&& forall|i: int, j: int|
            0 <= i < j < self.my_name_is_events@.len()
                ==> (#[trigger] self.my_name_is_events@[i]).asserted_at
                != (#[trigger] self.my_name_is_events@[j]).asserted_at
    }

    /// Derived rows respect ids and each relation's primary key.
    pub open spec fn messages_wf(self) -> bool {
        &&& forall|i: int|
            0 <= i < self.messages@.len() ==> (#[trigger] self.messages@[i]).entity_id
                < self.entities@.len()
        &&& forall|i: int, j: int|
            0 <= i < j < self.messages@.len() ==> (#[trigger] self.messages@[i]).entity_id
                != (#[trigger] self.messages@[j]).entity_id
    }

    pub open spec fn bodies_wf(self) -> bool {
        &&& forall|i: int|
            0 <= i < self.message_bodies@.len() ==> {
                let row = #[trigger] self.message_bodies@[i];
                row.entity_id < self.entities@.len() && row.asserted_at < self.events@.len()
            }
        &&& forall|i: int, j: int|
            0 <= i < j < self.message_bodies@.len()
                ==> !((#[trigger] self.message_bodies@[i]).entity_id
                == (#[trigger] self.message_bodies@[j]).entity_id
                && self.message_bodies@[i].asserted_at == self.message_bodies@[j].asserted_at)
    }

    pub open spec fn authors_wf(self) -> bool {
        &&& forall|i: int|
            0 <= i < self.message_authors@.len() ==> {
                let row = #[trigger] self.message_authors@[i];
                &&& row.entity_id < self.entities@.len()
                &&& row.asserted_at < self.events@.len()
                &&& row.author_id < self.peers@.len()
            }
        &&& forall|i: int, j: int|
            0 <= i < j < self.message_authors@.len()
                ==> (#[trigger] self.message_authors@[i]).entity_id
                != (#[trigger] self.message_authors@[j]).entity_id
    }

    pub open spec fn mutual_wf(self) -> bool {
        &&& forall|i: int|
            0 <= i < self.mutually_identify@.len() ==> {
                let row = #[trigger] self.mutually_identify@[i];
                row.left_id < self.peers@.len() && row.right_id < self.peers@.len()
            }
        &&& forall|i: int, j: int|
            0 <= i < j < self.mutually_identify@.len()
                ==> !((#[trigger] self.mutually_identify@[i]).left_id
                == (#[trigger] self.mutually_identify@[j]).left_id
                && self.mutually_identify@[i].right_id == self.mutually_identify@[j].right_id)
    }

    pub open spec fn same_wf(self) -> bool {
        &&& forall|i: int|
            0 <= i < self.same_person@.len() ==> {
                let row = #[trigger] self.same_person@[i];
                row.left_id < self.peers@.len() && row.right_id < self.peers@.len()
            }
        &&& forall|i: int, j: int|
            0 <= i < j < self.same_person@.len() ==> !((#[trigger] self.same_person@[i]).left_id
                == (#[trigger] self.same_person@[j]).left_id && self.same_person@[i].right_id
                == self.same_person@[j].right_id)
    }

    pub open spec fn peer_names_wf(self) -> bool {
        &&& forall|i: int|
            0 <= i < self.peer_names@.len() ==> {
                let row = #[trigger] self.peer_names@[i];
                &&& row.peer_id < self.peers@.len()
                &&& row.asserted_at < self.events@.len()
                &&& (row.retracted_at matches Some(e) ==> e < self.events@.len())
            }
        &&& forall|i: int, j: int|
            0 <= i < j < self.peer_names@.len() ==> !((#[trigger] self.peer_names@[i]).peer_id
                == (#[trigger] self.peer_names@[j]).peer_id && self.peer_names@[i].asserted_at
                == self.peer_names@[j].asserted_at)
    }

    /// The store's structural invariant: every operation of the library
    /// establishes and preserves it.
    pub open spec fn wf(self) -> bool {
        &&& self.peers_wf()
        &&& self.events_wf()
        &&& self.entities_wf()
        &&& self.send_events_wf()
        &&& self.identify_events_wf()
        &&& self.name_events_wf()
        &&& self.messages_wf()
        &&& self.bodies_wf()
        &&& self.authors_wf()
        &&& self.mutual_wf()
        &&& self.same_wf()
        &&& self.peer_names_wf()
    }

    /// Event `e`'s payload row exists in the table its tag names.
    pub open spec fn event_covered(self, e: int) -> bool {
        match self.events@[e].event_type {
            EventType::SendMessageEvent => exists|i: int|
                0 <= i < self.send_message_events@.len()
                    && (#[trigger] self.send_message_events@[i]).asserted_at == e,
            EventType::IIdentifyWithEvent => exists|i: int|
                0 <= i < self.i_identify_with_events@.len()
                    && (#[trigger] self.i_identify_with_events@[i]).asserted_at == e,
            EventType::MyNameIsEvent => exists|i: int|
                0 <= i < self.my_name_is_events@.len()
                    && (#[trigger] self.my_name_is_events@[i]).asserted_at == e,
        }
    }

    /// Every event's payload row exists in the table its tag names.  Holds
    /// between the composite operations of the library; the bare event
    /// insert `Time::create_local` leaves the newest event uncovered until
    /// its caller adds the payload.
    pub open spec fn complete(self) -> bool {
        forall|e: int|
            #![trigger self.events@[e]]
            0 <= e < self.events@.len() ==> self.event_covered(e)
    }

    /// Some peer row is marked local.
    pub open spec fn has_local_peer(self) -> bool {
        exists|i: int| 0 <= i < self.peers@.len() && (#[trigger] self.peers@[i]).is_local
    }

    /// The index of the local peer row (meaningful under `has_local_peer`;
    /// unique under `peers_wf`).
    pub open spec fn local_peer_ix(self) -> int {
        choose|i: int| 0 <= i < self.peers@.len() && (#[trigger] self.peers@[i]).is_local
    }

    /// `max(seq_no) + 1` over peer `p`'s events, or 0 if it has none.
    pub open spec fn next_seq_spec(self, p: int) -> int {
        next_seq_rec(self.events@, p)
    }

    /// An empty store: no peers, no events, nothing derived.
    pub fn new() -> (st: Store)
        ensures
            st.wf(),
            st.complete(),
            st.peers@.len() == 0,
            st.events@.len() == 0,
            st.entities@.len() == 0,
            st.send_message_events@.len() == 0,
            st.i_identify_with_events@.len() == 0,
            st.my_name_is_events@.len() == 0,
            st.messages@.len() == 0,
            st.message_bodies@.len() == 0,
            st.message_authors@.len() == 0,
            st.mutually_identify@.len() == 0,
            st.same_person@.len() == 0,
            st.peer_names@.len() == 0,
    {
        Store {
            peers: Vec::new(),
            events: Vec::new(),
            entities: Vec::new(),
            send_message_events: Vec::new(),
            i_identify_with_events: Vec::new(),
            my_name_is_events: Vec::new(),
            messages: Vec::new(),
            message_bodies: Vec::new(),
            message_authors: Vec::new(),
            mutually_identify: Vec::new(),
            same_person: Vec::new(),
            peer_names: Vec::new(),
        }
    }
}

/// `max(seq_no) + 1` over the events of peer `p` in `events`, or 0 if it
/// owns none.
pub open spec fn next_seq_rec(events: Seq<Time>, p: int) -> int
    decreases events.len(),
{
    if events.len() == 0 {
        0
    } else {
        let head = next_seq_rec(events.drop_last(), p);
        let last = events.last();
        if last.peer_id as int == p && last.seq_no + 1 > head {
            last.seq_no + 1
        } else {
            head
        }
    }
}

/// `next_seq_rec` is a strict upper bound on peer `p`'s sequence numbers,
/// and is either 0 or the successor of one of them.
pub proof fn lemma_next_seq_rec(events: Seq<Time>, p: int)
    ensures
        next_seq_rec(events, p) >= 0,
        forall|i: int|
            0 <= i < events.len() && (#[trigger] events[i]).peer_id as int == p
                ==> events[i].seq_no < next_seq_rec(events, p),
        next_seq_rec(events, p) == 0 || exists|i: int|
            0 <= i < events.len() && (#[trigger] events[i]).peer_id as int == p
                && events[i].seq_no + 1 == next_seq_rec(events, p),
    decreases events.len(),
{
    if events.len() > 0 {
        lemma_next_seq_rec(events.drop_last(), p);
        assert(forall|i: int|
            0 <= i < events.len() - 1 ==> #[trigger] events[i] == events.drop_last()[i]);
    }
}

/// Payload coverage carries over to any store with the same log.
pub proof fn lemma_complete_same_log(a: Store, b: Store)
    requires
        a.complete(),
        b.events@ == a.events@,
        b.send_message_events@ == a.send_message_events@,
        b.i_identify_with_events@ == a.i_identify_with_events@,
        b.my_name_is_events@ == a.my_name_is_events@,
    ensures
        b.complete(),
{
    assert forall|e: int| 0 <= e < b.events@.len() implies b.event_covered(e) by {
        assert(a.event_covered(e));
        match a.events@[e].event_type {
            EventType::SendMessageEvent => {
                let j = choose|j: int|
                    0 <= j < a.send_message_events@.len()
                        && (#[trigger] a.send_message_events@[j]).asserted_at == e;
                assert(b.send_message_events@[j].asserted_at == e);
            },
            EventType::IIdentifyWithEvent => {
                let j = choose|j: int|
                    0 <= j < a.i_identify_with_events@.len()
                        && (#[trigger] a.i_identify_with_events@[j]).asserted_at == e;
                assert(b.i_identify_with_events@[j].asserted_at == e);
            },
            EventType::MyNameIsEvent => {
                let j = choose|j: int|
                    0 <= j < a.my_name_is_events@.len()
                        && (#[trigger] a.my_name_is_events@[j]).asserted_at == e;
                assert(b.my_name_is_events@[j].asserted_at == e);
            },
        }
    }
}

/// A local event can be appended: a local peer exists and its sequence
/// numbers leave room for a successor.
pub open spec fn can_append_local_event(pre: Store) -> bool {
    pre.has_local_peer() && pre.next_seq_spec(pre.local_peer_ix()) < i64::MAX
}

/// `post`'s event log is `pre`'s with one new local event of kind `tag`,
/// stamped with the local peer's next sequence number.
pub open spec fn local_event_appended(pre: Store, post: Store, tag: EventType) -> bool {
    &&& post.events@.len() == pre.events@.len() + 1
    &&& post.events@.drop_last() == pre.events@
    &&& post.events@.last().peer_id as int == pre.local_peer_ix()
    &&& post.events@.last().seq_no as int == pre.next_seq_spec(pre.local_peer_ix())
    &&& post.events@.last().event_type == tag
}

/// Appending one covered event and extending the payload tables preserves
/// payload coverage.
pub proof fn lemma_complete_after_append(pre: Store, post: Store)
    requires
        pre.complete(),
        post.events@.len() == pre.events@.len() + 1,
        post.events@.drop_last() == pre.events@,
        pre.send_message_events@.is_prefix_of(post.send_message_events@),
        pre.i_identify_with_events@.is_prefix_of(post.i_identify_with_events@),
        pre.my_name_is_events@.is_prefix_of(post.my_name_is_events@),
        post.event_covered(pre.events@.len() as int),
    ensures
        post.complete(),
{
    assert forall|e: int| 0 <= e < post.events@.len() implies #[trigger] post.event_covered(
        e,
    ) by {
        if e < pre.events@.len() {
            assert(post.events@.drop_last()[e] == pre.events@[e]);
            assert(post.events@[e] == pre.events@[e]);
            assert(pre.event_covered(e));
            match pre.events@[e].event_type {
                EventType::SendMessageEvent => {
                    let j = choose|j: int|
                        0 <= j < pre.send_message_events@.len()
                            && (#[trigger] pre.send_message_events@[j]).asserted_at == e;
                    assert(pre.send_message_events@[j] == post.send_message_events@.subrange(
                        0,
                        pre.send_message_events@.len() as int,
                    )[j]);
                    assert(post.send_message_events@[j].asserted_at == e);
                },
                EventType::IIdentifyWithEvent => {
                    let j = choose|j: int|
                        0 <= j < pre.i_identify_with_events@.len()
                            && (#[trigger] pre.i_identify_with_events@[j]).asserted_at == e;
                    assert(pre.i_identify_with_events@[j] == post.i_identify_with_events@.subrange(
                        0,
                        pre.i_identify_with_events@.len() as int,
                    )[j]);
                    assert(post.i_identify_with_events@[j].asserted_at == e);
                },
                EventType::MyNameIsEvent => {
                    let j = choose|j: int|
                        0 <= j < pre.my_name_is_events@.len()
                            && (#[trigger] pre.my_name_is_events@[j]).asserted_at == e;
                    assert(pre.my_name_is_events@[j] == post.my_name_is_events@.subrange(
                        0,
                        pre.my_name_is_events@.len() as int,
                    )[j]);
                    assert(post.my_name_is_events@[j].asserted_at == e);
                },
            }
        }
    }
}

/// The derived relations of `a` and `b` hold the same rows.
pub open spec fn derived_unchanged(a: Store, b: Store) -> bool {
    &&& a.messages@ == b.messages@
    &&& a.message_bodies@ == b.message_bodies@
    &&& a.message_authors@ == b.message_authors@
    &&& a.mutually_identify@ == b.mutually_identify@
    &&& a.same_person@ == b.same_person@
    &&& a.peer_names@ == b.peer_names@
}

/// The base event-type tables of `a` and `b` hold the same rows.
pub open spec fn payloads_unchanged(a: Store, b: Store) -> bool {
    &&& a.send_message_events@ == b.send_message_events@
    &&& a.i_identify_with_events@ == b.i_identify_with_events@
    &&& a.my_name_is_events@ == b.my_name_is_events@
}

/// A kind of base event.  Implementations tie an event-type tag to the
/// payload table holding that kind's type-specific arguments.
pub trait Event {
    /// The payload in portable form: internal ids translated to portable
    /// identifiers.
    type Arguments;

    /// The tag under which events of this kind are logged.
    spec fn spec_event_type() -> EventType;

    /// The tag, as a value.
    fn event_type() -> (t: EventType)
        ensures
            t == Self::spec_event_type(),
    ;

    /// What it means for `args` to be the portable payload of event `e`.
    spec fn args_match(st: Store, e: int, args: Self::Arguments) -> bool;

    /// Fetch the type-specific payload of event `time`, translating internal
    /// foreign keys to portable identifiers.
    fn get_arguments(store: &Store, time: usize) -> (args: Self::Arguments)
        requires
            store.wf(),
            store.complete(),
            time < store.events@.len(),
            store.events@[time as int].event_type == Self::spec_event_type(),
        ensures
            Self::args_match(*store, time as int, args),
    ;
}

} // verus!
