//! The portable-event layer: export in sequence order, sequence numbering,
//! and the checks an incoming batch must pass.

use dtest::model::{MyNameIsEvent, Peer, SendMessageEvent, Store, StoreError, Time};
use dtest::portable::{EventArguments, PortableEvent, PortableEvents};

#[test]
fn export_returns_the_whole_log_in_order() {
    let mut st = Store::new();
    let p1 = Peer::create_local_peer(&mut st).unwrap();
    SendMessageEvent::create_local(&mut st, String::from("first")).unwrap();
    SendMessageEvent::create_local(&mut st, String::from("second")).unwrap();

    let batch = PortableEvents::peer_events_since(&st, p1, -1).expect("expected a batch");
    assert_eq!(batch.first_seq_no, 0);
    assert_eq!(batch.events.len(), 2);
    match &batch.events[0].args {
        EventArguments::SendMessageEvent((u, body)) => {
            assert_eq!(body, "first");
            assert_eq!(Some(*u), st.entities[0].uuid);
        }
        _ => panic!("wrong payload kind"),
    }
    match &batch.events[1].args {
        EventArguments::SendMessageEvent((_, body)) => assert_eq!(body, "second"),
        _ => panic!("wrong payload kind"),
    }

    // Everything up to the last seen sequence number is filtered out.
    assert!(PortableEvents::peer_events_since(&st, p1, 1).is_none());
    let tail = PortableEvents::peer_events_since(&st, p1, 0).expect("expected a batch");
    assert_eq!(tail.first_seq_no, 1);
    assert_eq!(tail.events.len(), 1);
}

#[test]
fn export_translates_identify_and_name_payloads() {
    let mut st = Store::new();
    let p1 = Peer::create_local_peer(&mut st).unwrap();
    let p2 = Peer::create(&mut st);
    dtest::model::IIdentifyWithEvent::create_local(&mut st, p2).unwrap();
    MyNameIsEvent::create_local(&mut st, String::from("Pierre")).unwrap();

    let batch = PortableEvents::peer_events_since(&st, p1, -1).unwrap();
    assert_eq!(batch.events.len(), 2);
    match &batch.events[0].args {
        EventArguments::IIdentifyWithEvent(u) => assert_eq!(*u, st.peers[p2].uuid),
        _ => panic!("wrong payload kind"),
    }
    match &batch.events[1].args {
        EventArguments::MyNameIsEvent(name) => assert_eq!(name, "Pierre"),
        _ => panic!("wrong payload kind"),
    }
}

#[test]
fn sequence_numbers_count_up_from_zero() {
    let mut st = Store::new();
    let p1 = Peer::create_local_peer(&mut st).unwrap();
    assert_eq!(Time::next_seq_no_for_peer(p1, &st), 0);
    SendMessageEvent::create_local(&mut st, String::from("a")).unwrap();
    assert_eq!(Time::next_seq_no_for_peer(p1, &st), 1);
    SendMessageEvent::create_local(&mut st, String::from("b")).unwrap();
    assert_eq!(Time::next_seq_no_for_peer(p1, &st), 2);
    assert_eq!(st.events[0].seq_no, 0);
    assert_eq!(st.events[1].seq_no, 1);
}

#[test]
fn import_restamps_under_the_sender() {
    let mut st = Store::new();
    Peer::create_local_peer(&mut st).unwrap();
    let p2 = Peer::create(&mut st);
    let batch = PortableEvents {
        first_seq_no: 3,
        events: vec![
            PortableEvent { wall: 10, args: EventArguments::MyNameIsEvent(String::from("Peter")) },
            PortableEvent {
                wall: 11,
                args: EventArguments::SendMessageEvent((77, String::from("from afar"))),
            },
        ],
    };
    batch.import(&mut st, p2).unwrap();
    assert_eq!(st.events.len(), 2);
    assert_eq!(st.events[0].peer_id, p2);
    assert_eq!(st.events[0].seq_no, 3);
    assert_eq!(st.events[0].wall, 10);
    assert_eq!(st.events[1].seq_no, 4);
    // The message entity was created as a shadow row for the portable id.
    assert_eq!(st.entities.len(), 1);
    assert_eq!(st.entities[0].uuid, Some(77));
    assert_eq!(st.send_message_events[0].body, "from afar");
}

#[test]
fn import_resolves_known_identifiers_without_duplicates() {
    let mut st = Store::new();
    Peer::create_local_peer(&mut st).unwrap();
    let p2 = Peer::create(&mut st);
    let batch = PortableEvents {
        first_seq_no: 0,
        events: vec![
            PortableEvent {
                wall: 1,
                args: EventArguments::SendMessageEvent((77, String::from("once"))),
            },
            PortableEvent {
                wall: 2,
                args: EventArguments::SendMessageEvent((77, String::from("twice"))),
            },
        ],
    };
    batch.import(&mut st, p2).unwrap();
    let matching = st.entities.iter().filter(|e| e.uuid == Some(77)).count();
    assert_eq!(matching, 1);
    assert_eq!(st.send_message_events.len(), 2);
}

#[test]
fn import_refuses_a_taken_sequence_slot() {
    let mut st = Store::new();
    Peer::create_local_peer(&mut st).unwrap();
    let p2 = Peer::create(&mut st);
    let batch = PortableEvents {
        first_seq_no: 0,
        events: vec![PortableEvent { wall: 1, args: EventArguments::MyNameIsEvent(String::from("x")) }],
    };
    batch.import(&mut st, p2).unwrap();
    let events_before = st.events.len();
    let again = PortableEvents {
        first_seq_no: 0,
        events: vec![PortableEvent { wall: 2, args: EventArguments::MyNameIsEvent(String::from("y")) }],
    };
    assert_eq!(again.import(&mut st, p2), Err(StoreError::ConstraintViolation));
    assert_eq!(st.events.len(), events_before);
}

#[test]
fn import_refuses_impossible_numbering() {
    let mut st = Store::new();
    Peer::create_local_peer(&mut st).unwrap();
    let p2 = Peer::create(&mut st);
    let negative = PortableEvents {
        first_seq_no: -1,
        events: vec![PortableEvent { wall: 1, args: EventArguments::MyNameIsEvent(String::from("x")) }],
    };
    assert_eq!(negative.import(&mut st, p2), Err(StoreError::MalformedBatch));
    let too_high = PortableEvents {
        first_seq_no: i64::MAX,
        events: vec![PortableEvent { wall: 1, args: EventArguments::MyNameIsEvent(String::from("x")) }],
    };
    assert_eq!(too_high.import(&mut st, p2), Err(StoreError::MalformedBatch));
    assert_eq!(st.events.len(), 0);
}

#[test]
fn out_of_order_arrival_is_exported_in_sequence_order() {
    let mut st = Store::new();
    Peer::create_local_peer(&mut st).unwrap();
    let p2 = Peer::create(&mut st);
    let late = PortableEvents {
        first_seq_no: 5,
        events: vec![PortableEvent { wall: 9, args: EventArguments::MyNameIsEvent(String::from("later")) }],
    };
    late.import(&mut st, p2).unwrap();
    let early = PortableEvents {
        first_seq_no: 0,
        events: vec![PortableEvent { wall: 8, args: EventArguments::MyNameIsEvent(String::from("earlier")) }],
    };
    early.import(&mut st, p2).unwrap();

    let batch = PortableEvents::peer_events_since(&st, p2, -1).unwrap();
    assert_eq!(batch.first_seq_no, 0);
    assert_eq!(batch.events.len(), 2);
    match &batch.events[0].args {
        EventArguments::MyNameIsEvent(name) => assert_eq!(name, "earlier"),
        _ => panic!("wrong payload kind"),
    }
    match &batch.events[1].args {
        EventArguments::MyNameIsEvent(name) => assert_eq!(name, "later"),
        _ => panic!("wrong payload kind"),
    }
}
