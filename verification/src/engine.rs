//! The fixpoint driver: refresh every derived relation in dependency
//! order, pass after pass, until a full pass inserts nothing.  Each refresh
//! only adds rows and every table is bounded by its key space, so the loop
//! terminates.

use vstd::prelude::*;
use crate::model::{
    lemma_complete_same_log, payloads_unchanged, Message, MessageAuthor, MessageBody,
    MutuallyIdentify, PeerName, SamePerson, SendMessageEvent, Store,
};
use crate::rules::{
    edge_pair, has_author, has_body, has_entity_for, has_message, has_sme_for, message_should,
    mi_has, mutual_edge, mutual_should, owner_of, sp_has, Relation,
};
use crate::closure::reaches;
use crate::names::{has_name_key, name_source};
use crate::card::{
    lemma_prefix_trans,
    lemma_authors_bound, lemma_bodies_bound, lemma_entities_bound, lemma_messages_bound,
    lemma_mi_pairs_bound, lemma_names_bound, lemma_sp_pairs_bound,
};

verus! {

/// Entities beyond index `e0` were materialized by the rule engine: no
/// portable identifier, a send-message event as introduction, and no two
/// entities sharing an introducing event.
pub open spec fn entities_extended(st: Store, e0: int) -> bool {
    forall|k: int|
        e0 <= k < st.entities@.len() ==> {
            let ent = #[trigger] st.entities@[k];
            &&& ent.uuid is None
            &&& has_sme_for(st.send_message_events@, ent.introduced_at as int)
            &&& forall|k2: int|
                0 <= k2 < k ==> (#[trigger] st.entities@[k2]).introduced_at != ent.introduced_at
        }
}

/// The message-tier relations are saturated: every entity, message, body
/// and author row that should exist does.
pub open spec fn fixpoint_messages(st: Store) -> bool {
    &&& forall|j: int|
        0 <= j < st.send_message_events@.len() ==> has_entity_for(
            st.entities@,
            (#[trigger] st.send_message_events@[j]).asserted_at as int,
        )
    &&& forall|eid: int| #[trigger] message_should(st, eid) ==> has_message(st.messages@, eid)
    &&& forall|eid: int|
        #[trigger] message_should(st, eid) ==> has_body(
            st.message_bodies@,
            eid,
            st.entities@[eid].introduced_at as int,
        )
    &&& forall|eid: int|
        #[trigger] message_should(st, eid) ==> has_author(st.message_authors@, eid)
}

/// The identity-tier relations are saturated: every mutual pair, every
/// reachable same-person pair and every name row that should exist does.
pub open spec fn fixpoint_identity(st: Store) -> bool {
    &&& forall|a: int, b: int|
        #[trigger] mutual_should(st, a, b) ==> mi_has(st.mutually_identify@, a, b)
    &&& forall|a: int, b: int|
        #[trigger] reaches(st.mutually_identify@, a, b) ==> sp_has(st.same_person@, a, b)
    &&& forall|k: int, p: int|
        #[trigger] name_source(st.my_name_is_events@, st.events@, st.same_person@, k, p)
            ==> has_name_key(st.peer_names@, p, st.my_name_is_events@[k].asserted_at as int)
}

/// No rule has anything left to insert: every row any relation should hold
/// is present.
pub open spec fn at_fixpoint(st: Store) -> bool {
    fixpoint_messages(st) && fixpoint_identity(st)
}

/// All rows the rule engine maintains, entities included.
pub open spec fn total_rows(st: Store) -> int {
    st.entities@.len() as int + st.messages@.len() as int + st.message_bodies@.len() as int
        + st.message_authors@.len() as int + st.mutually_identify@.len() as int
        + st.same_person@.len() as int + st.peer_names@.len() as int
}

/// An upper bound on `total_rows` over any run of the rules that started
/// with `e0` entities: the log is fixed, so every key space is.
pub open spec fn universe_bound(st: Store, e0: int) -> int {
    let np = st.peers@.len() as int;
    let ne = st.events@.len() as int;
    let en = e0 + st.send_message_events@.len() as int;
    en + en + en * ne + en + np * np + np * np + np * ne
}

/// The key spaces bound the tables.
proof fn lemma_total_bounded(st: Store, e0: int)
    requires
        st.wf(),
        0 <= e0 <= st.entities@.len(),
        entities_extended(st, e0),
    ensures
        total_rows(st) <= universe_bound(st, e0),
{
    let np = st.peers@.len() as int;
    let ne = st.events@.len() as int;
    let en = e0 + st.send_message_events@.len() as int;
    lemma_entities_bound(st.entities@, st.send_message_events@, e0);
    lemma_messages_bound(st.messages@, st.entities@.len() as int);
    lemma_bodies_bound(st.message_bodies@, st.entities@.len() as int, ne);
    lemma_authors_bound(st.message_authors@, st.entities@.len() as int);
    lemma_mi_pairs_bound(st.mutually_identify@, np);
    lemma_sp_pairs_bound(st.same_person@, np);
    lemma_names_bound(st.peer_names@, np, ne);
    assert(st.entities@.len() as int * ne <= en * ne) by (nonlinear_arith)
        requires
            st.entities@.len() as int <= en,
            ne >= 0,
    ;
}

/// Refresh the message-tier relations once, in dependency order.
#[verifier::rlimit(100)]
fn run_message_tier(store: &mut Store) -> (clean: bool)
    requires
        old(store).wf(),
    ensures
        final(store).wf(),
        final(store).peers@ == old(store).peers@,
        final(store).events@ == old(store).events@,
        payloads_unchanged(*old(store), *final(store)),
        old(store).entities@.is_prefix_of(final(store).entities@),
        forall|k: int|
            old(store).entities@.len() <= k < final(store).entities@.len() ==> {
                let ent = #[trigger] final(store).entities@[k];
                &&& ent.uuid is None
                &&& has_sme_for(final(store).send_message_events@, ent.introduced_at as int)
                &&& forall|k2: int|
                    0 <= k2 < k ==> (#[trigger] final(store).entities@[k2]).introduced_at
                        != ent.introduced_at
            },
        old(store).messages@.is_prefix_of(final(store).messages@),
        old(store).message_bodies@.is_prefix_of(final(store).message_bodies@),
        old(store).message_authors@.is_prefix_of(final(store).message_authors@),
        final(store).mutually_identify@ == old(store).mutually_identify@,
        final(store).same_person@ == old(store).same_person@,
        final(store).peer_names@ == old(store).peer_names@,
        total_rows(*final(store)) >= total_rows(*old(store)),
        clean <==> total_rows(*final(store)) == total_rows(*old(store)),
        clean ==> fixpoint_messages(*final(store)),
        old(store).complete() ==> final(store).complete(),
{
    let ghost s0 = *store;
    let c1 = SendMessageEvent::run_rules(store);
    let ghost s1 = *store;
    let c2 = Message::run_rules(store);
    let ghost s2 = *store;
    let c3 = MessageBody::run_rules(store);
    let ghost s3 = *store;
    let c4 = MessageAuthor::run_rules(store);

    proof {
        assert(store.entities@ == s1.entities@);
        assert(store.messages@ == s2.messages@);
        assert(store.message_bodies@ == s3.message_bodies@);
        assert(total_rows(*store) == total_rows(s0) + c1 + c2 + c3 + c4);
        if s0.complete() {
            lemma_complete_same_log(s0, *store);
        }
    }
    let clean = c1 == 0 && c2 == 0 && c3 == 0 && c4 == 0;
    if clean {
        proof {
            assert(s1.entities@ =~= s0.entities@);
            assert(s2.messages@ =~= s1.messages@);
            assert(s3.message_bodies@ =~= s2.message_bodies@);
            assert(store.message_authors@ =~= s3.message_authors@);
            assert forall|j: int| 0 <= j < store.send_message_events@.len() implies
                has_entity_for(
                store.entities@,
                (#[trigger] store.send_message_events@[j]).asserted_at as int,
            ) by {
                assert(has_entity_for(
                    s1.entities@,
                    s0.send_message_events@[j].asserted_at as int,
                ));
            }
            assert forall|eid: int| #[trigger] message_should(*store, eid) implies has_message(
                store.messages@,
                eid,
            ) by {
                assert(message_should(s1, eid));
                assert(has_message(s2.messages@, eid));
            }
            assert forall|eid: int| #[trigger] message_should(*store, eid) implies has_body(
                store.message_bodies@,
                eid,
                store.entities@[eid].introduced_at as int,
            ) by {
                assert(message_should(s2, eid));
                assert(has_body(s3.message_bodies@, eid, s2.entities@[eid].introduced_at as int));
            }
            assert forall|eid: int| #[trigger] message_should(*store, eid) implies has_author(
                store.message_authors@,
                eid,
            ) by {
                assert(message_should(s3, eid));
            }
        }
    }
    clean
}

/// Refresh the identity-tier relations once, in dependency order.
#[verifier::rlimit(100)]
fn run_identity_tier(store: &mut Store) -> (clean: bool)
    requires
        old(store).wf(),
    ensures
        final(store).wf(),
        final(store).peers@ == old(store).peers@,
        final(store).events@ == old(store).events@,
        payloads_unchanged(*old(store), *final(store)),
        final(store).entities@ == old(store).entities@,
        final(store).messages@ == old(store).messages@,
        final(store).message_bodies@ == old(store).message_bodies@,
        final(store).message_authors@ == old(store).message_authors@,
        old(store).mutually_identify@.is_prefix_of(final(store).mutually_identify@),
        old(store).same_person@.is_prefix_of(final(store).same_person@),
        old(store).peer_names@.is_prefix_of(final(store).peer_names@),
        total_rows(*final(store)) >= total_rows(*old(store)),
        clean <==> total_rows(*final(store)) == total_rows(*old(store)),
        clean ==> fixpoint_identity(*final(store)),
        old(store).complete() ==> final(store).complete(),
{
    let ghost s4 = *store;
    let c5 = MutuallyIdentify::run_rules(store);
    let ghost s5 = *store;
    let c6 = SamePerson::run_rules(store);
    let ghost s6 = *store;
    let c7 = PeerName::run_rules(store);

    proof {
        assert(store.mutually_identify@ == s5.mutually_identify@);
        assert(store.same_person@ == s6.same_person@);
        assert(total_rows(*store) == total_rows(s4) + c5 + c6 + c7);
        if s4.complete() {
            lemma_complete_same_log(s4, *store);
        }
    }
    let clean = c5 == 0 && c6 == 0 && c7 == 0;
    if clean {
        proof {
            assert(s5.mutually_identify@ =~= s4.mutually_identify@);
            assert(s6.same_person@ =~= s5.same_person@);
            assert(store.peer_names@ =~= s6.peer_names@);
            assert forall|a: int, b: int| #[trigger] mutual_should(*store, a, b) implies mi_has(
                store.mutually_identify@,
                a,
                b,
            ) by {
                if 0 <= a < store.peers@.len() && a == b {
                    assert(mutual_should(s4, a, b));
                } else {
                    let (i, j) = choose|i: int, j: int|
                        #[trigger] edge_pair(*store, i, j) && owner_of(*store, i) == a
                            && owner_of(*store, j) == b;
                    assert(edge_pair(s4, i, j));
                    assert(owner_of(s4, i) == a && owner_of(s4, j) == b);
                    assert(mutual_edge(s4, a, b));
                    assert(mutual_should(s4, a, b));
                }
                assert(mi_has(s5.mutually_identify@, a, b));
            }
            assert forall|a: int, b: int|
                #[trigger] reaches(store.mutually_identify@, a, b) implies sp_has(
                store.same_person@,
                a,
                b,
            ) by {
                assert(reaches(s5.mutually_identify@, a, b));
                assert(sp_has(s6.same_person@, a, b));
            }
            assert forall|k: int, p: int|
                #[trigger] name_source(
                    store.my_name_is_events@,
                    store.events@,
                    store.same_person@,
                    k,
                    p,
                ) implies has_name_key(
                store.peer_names@,
                p,
                store.my_name_is_events@[k].asserted_at as int,
            ) by {
                assert(name_source(s6.my_name_is_events@, s6.events@, s6.same_person@, k, p));
            }
        }
    }
    clean
}

/// Run the rules in dependency order, pass after pass, until a full pass
/// inserts no row.  The log is never touched; every derived table only
/// grows; on return every relation is at its fixpoint, so running any rule
/// again inserts nothing and leaves the store unchanged.
#[verifier::rlimit(100)]
pub fn run_to_fixpoint(store: &mut Store)
    requires
        old(store).wf(),
    ensures
        final(store).wf(),
        final(store).peers@ == old(store).peers@,
        final(store).events@ == old(store).events@,
        payloads_unchanged(*old(store), *final(store)),
        old(store).entities@.is_prefix_of(final(store).entities@),
        entities_extended(*final(store), old(store).entities@.len() as int),
        old(store).messages@.is_prefix_of(final(store).messages@),
        old(store).message_bodies@.is_prefix_of(final(store).message_bodies@),
        old(store).message_authors@.is_prefix_of(final(store).message_authors@),
        old(store).mutually_identify@.is_prefix_of(final(store).mutually_identify@),
        old(store).same_person@.is_prefix_of(final(store).same_person@),
        old(store).peer_names@.is_prefix_of(final(store).peer_names@),
        at_fixpoint(*final(store)),
        old(store).complete() ==> final(store).complete(),
{
    let ghost e0 = old(store).entities@.len() as int;
    loop
        invariant
            store.wf(),
            store.peers@ == old(store).peers@,
            store.events@ == old(store).events@,
            payloads_unchanged(*old(store), *store),
            e0 == old(store).entities@.len() as int,
            old(store).entities@.is_prefix_of(store.entities@),
            entities_extended(*store, e0),
            old(store).messages@.is_prefix_of(store.messages@),
            old(store).message_bodies@.is_prefix_of(store.message_bodies@),
            old(store).message_authors@.is_prefix_of(store.message_authors@),
            old(store).mutually_identify@.is_prefix_of(store.mutually_identify@),
            old(store).same_person@.is_prefix_of(store.same_person@),
            old(store).peer_names@.is_prefix_of(store.peer_names@),
            old(store).complete() ==> store.complete(),
        ensures
            store.wf(),
            store.peers@ == old(store).peers@,
            store.events@ == old(store).events@,
            payloads_unchanged(*old(store), *store),
            old(store).entities@.is_prefix_of(store.entities@),
            entities_extended(*store, e0),
            old(store).messages@.is_prefix_of(store.messages@),
            old(store).message_bodies@.is_prefix_of(store.message_bodies@),
            old(store).message_authors@.is_prefix_of(store.message_authors@),
            old(store).mutually_identify@.is_prefix_of(store.mutually_identify@),
            old(store).same_person@.is_prefix_of(store.same_person@),
            old(store).peer_names@.is_prefix_of(store.peer_names@),
            at_fixpoint(*store),
            old(store).complete() ==> store.complete(),
        decreases universe_bound(*store, e0) - total_rows(*store),
    {
        let ghost s0 = *store;
        let clean_messages = run_message_tier(store);
        let ghost sm = *store;
        let clean_identity = run_identity_tier(store);

        proof {
            lemma_prefix_trans(old(store).entities@, s0.entities@, store.entities@);
            lemma_prefix_trans(old(store).messages@, s0.messages@, store.messages@);
            lemma_prefix_trans(
                old(store).message_bodies@,
                s0.message_bodies@,
                store.message_bodies@,
            );
            lemma_prefix_trans(
                old(store).message_authors@,
                s0.message_authors@,
                store.message_authors@,
            );
            lemma_prefix_trans(
                old(store).mutually_identify@,
                s0.mutually_identify@,
                store.mutually_identify@,
            );
            lemma_prefix_trans(old(store).same_person@, s0.same_person@, store.same_person@);
            lemma_prefix_trans(old(store).peer_names@, s0.peer_names@, store.peer_names@);
            assert(entities_extended(*store, e0)) by {
                assert forall|k: int| e0 <= k < store.entities@.len() implies ({
                    let ent = #[trigger] store.entities@[k];
                    &&& ent.uuid is None
                    &&& has_sme_for(store.send_message_events@, ent.introduced_at as int)
                    &&& forall|k2: int|
                        0 <= k2 < k ==> (#[trigger] store.entities@[k2]).introduced_at
                            != ent.introduced_at
                }) by {
                    if k < s0.entities@.len() {
                        assert(store.entities@[k] == s0.entities@.subrange(
                            0,
                            s0.entities@.len() as int,
                        )[k]);
                        assert(store.entities@[k] == s0.entities@[k]);
                        assert forall|k2: int|
                            0 <= k2 < k implies (#[trigger] store.entities@[k2]).introduced_at
                            != store.entities@[k].introduced_at by {
                            assert(store.entities@[k2] == s0.entities@[k2]);
                        }
                    }
                }
            }
        }

        if clean_messages && clean_identity {
            proof {
                // The identity tier left the message tier's tables alone,
                // so its saturation carries over to the final state.
                assert forall|j: int| 0 <= j < store.send_message_events@.len() implies
                    has_entity_for(
                    store.entities@,
                    (#[trigger] store.send_message_events@[j]).asserted_at as int,
                ) by {
                    assert(has_entity_for(
                        sm.entities@,
                        sm.send_message_events@[j].asserted_at as int,
                    ));
                }
                assert forall|eid: int| #[trigger] message_should(*store, eid) implies
                    has_message(store.messages@, eid) by {
                    assert(message_should(sm, eid));
                }
                assert forall|eid: int| #[trigger] message_should(*store, eid) implies has_body(
                    store.message_bodies@,
                    eid,
                    store.entities@[eid].introduced_at as int,
                ) by {
                    assert(message_should(sm, eid));
                    assert(has_body(
                        sm.message_bodies@,
                        eid,
                        sm.entities@[eid].introduced_at as int,
                    ));
                }
                assert forall|eid: int| #[trigger] message_should(*store, eid) implies
                    has_author(store.message_authors@, eid) by {
                    assert(message_should(sm, eid));
                }
                assert(fixpoint_messages(*store));
                assert(at_fixpoint(*store));
            }
            break;
        }
        proof {
            lemma_total_bounded(*store, e0);
            assert(universe_bound(*store, e0) == universe_bound(s0, e0));
        }
    }
}

} // verus!
