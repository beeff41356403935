//! The rule engine end to end: projections, identity merging, name
//! retraction, idempotence and monotonicity, on concrete stores.

use dtest::model::{MutuallyIdentify, SamePerson, Store, StoreError};
use dtest::model::{IIdentifyWithEvent, Message, MessageAuthor, MessageBody, MyNameIsEvent, PeerName, SendMessageEvent};
use dtest::rules::Relation;
use dtest::engine::run_to_fixpoint;
use dtest::portable::{EventArguments, PortableEvent, PortableEvents};
use dtest::model::Peer;
use dtest::model::Entity;

fn mutual_has(v: &Vec<MutuallyIdentify>, l: usize, r: usize) -> bool {
    v.iter().any(|row| row.left_id == l && row.right_id == r)
}

fn same_has(v: &Vec<SamePerson>, l: usize, r: usize) -> bool {
    v.iter().any(|row| row.left_id == l && row.right_id == r)
}

fn name_row<'a>(v: &'a Vec<PeerName>, p: usize, at: usize) -> &'a PeerName {
    v.iter()
        .find(|row| row.peer_id == p && row.asserted_at == at)
        .expect("missing peer-name row")
}

#[test]
fn message_projections_appear_once() {
    let mut st = Store::new();
    let p1 = Peer::create_local_peer(&mut st).unwrap();
    SendMessageEvent::create_local(&mut st, String::from("Hello, world.")).unwrap();
    run_to_fixpoint(&mut st);

    assert_eq!(st.messages.len(), 1);
    assert_eq!(st.messages[0].entity_id, 0);
    assert_eq!(st.message_bodies.len(), 1);
    assert_eq!(st.message_bodies[0].entity_id, 0);
    assert_eq!(st.message_bodies[0].asserted_at, 0);
    assert_eq!(st.message_bodies[0].body, "Hello, world.");
    assert_eq!(st.message_authors.len(), 1);
    assert_eq!(st.message_authors[0].entity_id, 0);
    assert_eq!(st.message_authors[0].author_id, p1);

    // A second pass inserts nothing and leaves every relation identical.
    let msgs = st.messages.clone();
    let bodies_len = st.message_bodies.len();
    assert_eq!(SendMessageEvent::run_rules(&mut st), 0);
    assert_eq!(Message::run_rules(&mut st), 0);
    assert_eq!(MessageBody::run_rules(&mut st), 0);
    assert_eq!(MessageAuthor::run_rules(&mut st), 0);
    assert_eq!(MutuallyIdentify::run_rules(&mut st), 0);
    assert_eq!(SamePerson::run_rules(&mut st), 0);
    assert_eq!(PeerName::run_rules(&mut st), 0);
    assert_eq!(st.messages.len(), msgs.len());
    assert_eq!(st.messages[0], msgs[0]);
    assert_eq!(st.message_bodies.len(), bodies_len);
}

#[test]
fn fixpoint_is_idempotent() {
    let mut st = Store::new();
    Peer::create_local_peer(&mut st).unwrap();
    let p2 = Peer::create(&mut st);
    SendMessageEvent::create_local(&mut st, String::from("first")).unwrap();
    IIdentifyWithEvent::create_local(&mut st, p2).unwrap();
    MyNameIsEvent::create_local(&mut st, String::from("Pierre")).unwrap();
    run_to_fixpoint(&mut st);

    let snapshot = (
        st.entities.len(),
        st.messages.len(),
        st.message_bodies.len(),
        st.message_authors.len(),
        st.mutually_identify.len(),
        st.same_person.len(),
        st.peer_names.len(),
    );
    run_to_fixpoint(&mut st);
    let again = (
        st.entities.len(),
        st.messages.len(),
        st.message_bodies.len(),
        st.message_authors.len(),
        st.mutually_identify.len(),
        st.same_person.len(),
        st.peer_names.len(),
    );
    assert_eq!(snapshot, again);
}

#[test]
fn derived_rows_grow_monotonically() {
    let mut st = Store::new();
    Peer::create_local_peer(&mut st).unwrap();
    SendMessageEvent::create_local(&mut st, String::from("one")).unwrap();
    run_to_fixpoint(&mut st);
    let old_messages = st.messages.clone();
    let old_same = st.same_person.clone();

    SendMessageEvent::create_local(&mut st, String::from("two")).unwrap();
    run_to_fixpoint(&mut st);

    // Everything derived from the shorter log is still present, unchanged,
    // at its old position.
    for (k, row) in old_messages.iter().enumerate() {
        assert_eq!(st.messages[k], *row);
    }
    for (k, row) in old_same.iter().enumerate() {
        assert_eq!(st.same_person[k], *row);
    }
    assert!(st.messages.len() > old_messages.len());
}

#[test]
fn same_person_is_reflexive_without_identify_events() {
    let mut st = Store::new();
    let p1 = Peer::create_local_peer(&mut st).unwrap();
    let p2 = Peer::create(&mut st);
    run_to_fixpoint(&mut st);
    assert!(same_has(&st.same_person, p1, p1));
    assert!(same_has(&st.same_person, p2, p2));
}

#[test]
fn mutual_identify_both_directions() {
    let mut st = Store::new();
    let p1 = Peer::create_local_peer(&mut st).unwrap();
    let p2 = Peer::create(&mut st);
    IIdentifyWithEvent::create_local(&mut st, p2).unwrap();
    let batch = PortableEvents {
        first_seq_no: 0,
        events: vec![PortableEvent {
            wall: 7,
            args: EventArguments::IIdentifyWithEvent(st.peers[p1].uuid),
        }],
    };
    batch.import(&mut st, p2).unwrap();
    run_to_fixpoint(&mut st);

    assert!(mutual_has(&st.mutually_identify, p1, p2));
    assert!(mutual_has(&st.mutually_identify, p2, p1));
    assert!(same_has(&st.same_person, p1, p1));
    assert!(same_has(&st.same_person, p2, p2));
    assert!(same_has(&st.same_person, p1, p2));
    assert!(same_has(&st.same_person, p2, p1));
}

#[test]
fn same_person_closes_over_chains() {
    let mut st = Store::new();
    let p1 = Peer::create_local_peer(&mut st).unwrap();
    let p2 = Peer::create(&mut st);
    let p3 = Peer::create(&mut st);
    let u1 = st.peers[p1].uuid;
    let u2 = st.peers[p2].uuid;
    let u3 = st.peers[p3].uuid;

    // Chain: 1-2 and 2-3 are mutual; 1-3 is not a direct edge.
    IIdentifyWithEvent::create_local(&mut st, p2).unwrap();
    let batch_two = PortableEvents {
        first_seq_no: 0,
        events: vec![
            PortableEvent { wall: 1, args: EventArguments::IIdentifyWithEvent(u1) },
            PortableEvent { wall: 2, args: EventArguments::IIdentifyWithEvent(u3) },
        ],
    };
    batch_two.import(&mut st, p2).unwrap();
    let batch_three = PortableEvents {
        first_seq_no: 0,
        events: vec![PortableEvent { wall: 3, args: EventArguments::IIdentifyWithEvent(u2) }],
    };
    batch_three.import(&mut st, p3).unwrap();
    run_to_fixpoint(&mut st);

    assert!(!mutual_has(&st.mutually_identify, p1, p3));
    assert!(!mutual_has(&st.mutually_identify, p3, p1));
    assert!(same_has(&st.same_person, p1, p3));
    assert!(same_has(&st.same_person, p3, p1));
}

#[test]
fn entity_import_is_idempotent() {
    let mut st = Store::new();
    Peer::create_local_peer(&mut st).unwrap();
    MyNameIsEvent::create_local(&mut st, String::from("Pierre")).unwrap();
    MyNameIsEvent::create_local(&mut st, String::from("Peter")).unwrap();

    let first = Entity::import(&mut st, 0, 42);
    let rows = st.entities.len();
    let second = Entity::import(&mut st, 1, 42);
    assert_eq!(first, second);
    assert_eq!(st.entities.len(), rows);
    let matching = st.entities.iter().filter(|e| e.uuid == Some(42)).count();
    assert_eq!(matching, 1);
}

#[test]
fn retraction_points_at_the_superseding_assertion() {
    let mut st = Store::new();
    let p1 = Peer::create_local_peer(&mut st).unwrap();
    MyNameIsEvent::create_local(&mut st, String::from("Alice")).unwrap();
    MyNameIsEvent::create_local(&mut st, String::from("Ally")).unwrap();
    run_to_fixpoint(&mut st);

    let alice = name_row(&st.peer_names, p1, 0);
    assert_eq!(alice.name, "Alice");
    assert_eq!(alice.retracted_at, Some(1));
    let ally = name_row(&st.peer_names, p1, 1);
    assert_eq!(ally.name, "Ally");
    assert_eq!(ally.retracted_at, None);
}

#[test]
fn names_follow_the_merged_identity() {
    let mut st = Store::new();
    let p1 = Peer::create_local_peer(&mut st).unwrap();
    let p2 = Peer::create(&mut st);
    IIdentifyWithEvent::create_local(&mut st, p2).unwrap();
    let batch = PortableEvents {
        first_seq_no: 0,
        events: vec![
            PortableEvent {
                wall: 5,
                args: EventArguments::IIdentifyWithEvent(st.peers[p1].uuid),
            },
            PortableEvent { wall: 6, args: EventArguments::MyNameIsEvent(String::from("Peter")) },
        ],
    };
    batch.import(&mut st, p2).unwrap();
    run_to_fixpoint(&mut st);

    // The name asserted by p2 is on record for both merged identities.
    let at = st.events.len() - 1;
    assert_eq!(name_row(&st.peer_names, p1, at).name, "Peter");
    assert_eq!(name_row(&st.peer_names, p2, at).name, "Peter");
}

#[test]
fn local_peer_is_created_once() {
    let mut st = Store::new();
    assert_eq!(Peer::local_peer_id(&st), Err(StoreError::NotFound));
    let p1 = Peer::create_local_peer(&mut st).unwrap();
    assert_eq!(Peer::local_peer_id(&st), Ok(p1));
    assert_eq!(Peer::create_local_peer(&mut st), Err(StoreError::AlreadyExists));
}

#[test]
fn events_need_a_local_peer() {
    let mut st = Store::new();
    assert_eq!(
        MyNameIsEvent::create_local(&mut st, String::from("nobody")),
        Err(StoreError::NotFound)
    );
    assert_eq!(st.events.len(), 0);
}

#[test]
fn entities_are_found_by_portable_identifier() {
    let mut st = Store::new();
    Peer::create_local_peer(&mut st).unwrap();
    SendMessageEvent::create_local(&mut st, String::from("hi")).unwrap();
    let uuid = st.entities[0].uuid.unwrap();
    assert_eq!(Entity::find_by_uuid(&st, uuid), Ok(0));
    assert_eq!(Entity::find_by_uuid(&st, uuid.wrapping_add(1)), Err(StoreError::NotFound));
}

#[test]
fn empty_store_reaches_fixpoint_with_nothing_derived() {
    let mut st = Store::new();
    run_to_fixpoint(&mut st);
    assert!(st.entities.is_empty());
    assert!(st.messages.is_empty());
    assert!(st.message_bodies.is_empty());
    assert!(st.message_authors.is_empty());
    assert!(st.mutually_identify.is_empty());
    assert!(st.same_person.is_empty());
    assert!(st.peer_names.is_empty());
}

#[test]
fn simultaneous_assertions_fall_back_to_event_order() {
    let mut st = Store::new();
    Peer::create_local_peer(&mut st).unwrap();
    let p2 = Peer::create(&mut st);
    // Two name assertions with the same wall time: the event id breaks the
    // tie, so the second assertion supersedes the first.
    let batch = PortableEvents {
        first_seq_no: 0,
        events: vec![
            PortableEvent { wall: 100, args: EventArguments::MyNameIsEvent(String::from("Ann")) },
            PortableEvent { wall: 100, args: EventArguments::MyNameIsEvent(String::from("Anne")) },
        ],
    };
    batch.import(&mut st, p2).unwrap();
    run_to_fixpoint(&mut st);

    let first = name_row(&st.peer_names, p2, 0);
    assert_eq!(first.name, "Ann");
    assert_eq!(first.retracted_at, Some(1));
    let second = name_row(&st.peer_names, p2, 1);
    assert_eq!(second.name, "Anne");
    assert_eq!(second.retracted_at, None);
}
