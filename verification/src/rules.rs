//! The derived relations of the first tier and the rule contract they all
//! share: `run_rules` computes the rows that should exist from the current
//! base and derived facts, inserts only those absent (judged by each
//! relation's primary key), and returns the number of rows inserted.

use vstd::prelude::*;
use crate::model::{
    derived_unchanged, payloads_unchanged, Entity, Message, MessageAuthor, MessageBody,
    MutuallyIdentify, SamePerson, SendMessageEvent, Store,
};

verus! {

/// A derived relation maintained by the rule engine.
pub trait Relation {
    /// What one refresh pass of this relation does to the store, and what
    /// the returned count means.
    spec fn rule_post(pre: Store, post: Store, r: usize) -> bool;

    /// Compute the rows that should exist under the current facts, insert
    /// only those absent, and return how many were inserted.
    fn run_rules(store: &mut Store) -> (r: usize)
        requires
            old(store).wf(),
        ensures
            final(store).wf(),
            Self::rule_post(*old(store), *final(store), r),
    ;
}

/// The peers, events and base event-type tables of `pre` and `post` agree:
/// a rule never touches the log.
pub open spec fn bases_unchanged(pre: Store, post: Store) -> bool {
    &&& post.peers@ == pre.peers@
    &&& post.events@ == pre.events@
    &&& payloads_unchanged(pre, post)
}

/// Some entity was introduced at event `at`.
pub open spec fn has_entity_for(s: Seq<Entity>, at: int) -> bool {
    exists|k: int| 0 <= k < s.len() && (#[trigger] s[k]).introduced_at as int == at
}

/// Some send-message payload was asserted at event `at`.
pub open spec fn has_sme_for(s: Seq<SendMessageEvent>, at: int) -> bool {
    exists|k: int| 0 <= k < s.len() && (#[trigger] s[k]).asserted_at as int == at
}

/// Entity `eid` is in the message relation.
pub open spec fn has_message(s: Seq<Message>, eid: int) -> bool {
    exists|k: int| 0 <= k < s.len() && (#[trigger] s[k]).entity_id as int == eid
}

/// A body row with key `(eid, at)` exists.
pub open spec fn has_body(s: Seq<MessageBody>, eid: int, at: int) -> bool {
    exists|k: int|
        0 <= k < s.len() && (#[trigger] s[k]).entity_id as int == eid && s[k].asserted_at as int
            == at
}

/// An author row for entity `eid` exists.
pub open spec fn has_author(s: Seq<MessageAuthor>, eid: int) -> bool {
    exists|k: int| 0 <= k < s.len() && (#[trigger] s[k]).entity_id as int == eid
}

/// The pair `(l, r)` is in the mutual-identification relation.
pub open spec fn mi_has(s: Seq<MutuallyIdentify>, l: int, r: int) -> bool {
    exists|k: int|
        0 <= k < s.len() && (#[trigger] s[k]).left_id as int == l && s[k].right_id as int == r
}

/// The pair `(l, r)` is in the same-person relation.
pub open spec fn sp_has(s: Seq<SamePerson>, l: int, r: int) -> bool {
    exists|k: int|
        0 <= k < s.len() && (#[trigger] s[k]).left_id as int == l && s[k].right_id as int == r
}

/// Entity `eid` should be a message: its introducing event carries a
/// send-message payload.
pub open spec fn message_should(st: Store, eid: int) -> bool {
    &&& 0 <= eid < st.entities@.len()
    &&& has_sme_for(st.send_message_events@, st.entities@[eid].introduced_at as int)
}

/// The row belongs to the message-body view: its entity was introduced by
/// the send-message event whose body it carries.
pub open spec fn body_should(st: Store, row: MessageBody) -> bool {
    &&& row.entity_id < st.entities@.len()
    &&& row.asserted_at == st.entities@[row.entity_id as int].introduced_at
    &&& exists|j: int|
        0 <= j < st.send_message_events@.len()
            && (#[trigger] st.send_message_events@[j]).asserted_at == row.asserted_at
            && st.send_message_events@[j].body == row.body
}

/// The row belongs to the message-author view: its author is the peer that
/// owns the introducing send-message event.
pub open spec fn author_should(st: Store, row: MessageAuthor) -> bool {
    &&& row.entity_id < st.entities@.len()
    &&& row.asserted_at == st.entities@[row.entity_id as int].introduced_at
    &&& row.asserted_at < st.events@.len()
    &&& has_sme_for(st.send_message_events@, row.asserted_at as int)
    &&& row.author_id == st.events@[row.asserted_at as int].peer_id
}

/// The peer that owns the identify-with assertion at index `iiw_ix`.
pub open spec fn owner_of(st: Store, iiw_ix: int) -> int {
    st.events@[st.i_identify_with_events@[iiw_ix].asserted_at as int].peer_id as int
}

/// The identify-with assertions at indices `i` and `j` name each other's
/// owner.
pub open spec fn edge_pair(st: Store, i: int, j: int) -> bool {
    &&& 0 <= i < st.i_identify_with_events@.len()
    &&& 0 <= j < st.i_identify_with_events@.len()
    &&& st.i_identify_with_events@[i].asserted_at < st.events@.len()
    &&& st.i_identify_with_events@[j].asserted_at < st.events@.len()
    &&& st.i_identify_with_events@[i].with_id as int == owner_of(st, j)
    &&& st.i_identify_with_events@[j].with_id as int == owner_of(st, i)
}

/// Peers `a` and `b` have each asserted an identify-with naming the other.
pub open spec fn mutual_edge(st: Store, a: int, b: int) -> bool {
    exists|i: int, j: int|
        #[trigger] edge_pair(st, i, j) && owner_of(st, i) == a && owner_of(st, j) == b
}

/// The pair `(a, b)` should be in the mutual-identification relation:
/// every peer identifies itself, and so does every pair of peers that have
/// asserted identify-with toward each other.
pub open spec fn mutual_should(st: Store, a: int, b: int) -> bool {
    (0 <= a < st.peers@.len() && a == b) || mutual_edge(st, a, b)
}

/// Extending a table never removes an entity-coverage witness.
pub proof fn lemma_has_entity_for_push(s: Seq<Entity>, x: Entity)
    ensures
        forall|at: int| has_entity_for(s, at) ==> #[trigger] has_entity_for(s.push(x), at),
{
    assert forall|at: int| has_entity_for(s, at) implies #[trigger] has_entity_for(
        s.push(x),
        at,
    ) by {
        let k = choose|k: int| 0 <= k < s.len() && (#[trigger] s[k]).introduced_at as int == at;
        assert(s.push(x)[k] == s[k]);
    }
}

/// Extending a table never removes a message-membership witness.
pub proof fn lemma_has_message_push(s: Seq<Message>, x: Message)
    ensures
        forall|eid: int| has_message(s, eid) ==> #[trigger] has_message(s.push(x), eid),
{
    assert forall|eid: int| has_message(s, eid) implies #[trigger] has_message(
        s.push(x),
        eid,
    ) by {
        let k = choose|k: int| 0 <= k < s.len() && (#[trigger] s[k]).entity_id as int == eid;
        assert(s.push(x)[k] == s[k]);
    }
}

/// Extending a table never removes a body-key witness.
pub proof fn lemma_has_body_push(s: Seq<MessageBody>, x: MessageBody)
    ensures
        forall|eid: int, at: int| has_body(s, eid, at) ==> #[trigger] has_body(s.push(x), eid, at),
{
    assert forall|eid: int, at: int| has_body(s, eid, at) implies #[trigger] has_body(
        s.push(x),
        eid,
        at,
    ) by {
        let k = choose|k: int|
            0 <= k < s.len() && (#[trigger] s[k]).entity_id as int == eid && s[k].asserted_at as int
                == at;
        assert(s.push(x)[k] == s[k]);
    }
}

/// Extending a table never removes an author-key witness.
pub proof fn lemma_has_author_push(s: Seq<MessageAuthor>, x: MessageAuthor)
    ensures
        forall|eid: int| has_author(s, eid) ==> #[trigger] has_author(s.push(x), eid),
{
    assert forall|eid: int| has_author(s, eid) implies #[trigger] has_author(
        s.push(x),
        eid,
    ) by {
        let k = choose|k: int| 0 <= k < s.len() && (#[trigger] s[k]).entity_id as int == eid;
        assert(s.push(x)[k] == s[k]);
    }
}

/// Extending a table never removes a mutual-identification witness.
pub proof fn lemma_mi_has_push(s: Seq<MutuallyIdentify>, x: MutuallyIdentify)
    ensures
        forall|l: int, r: int| mi_has(s, l, r) ==> #[trigger] mi_has(s.push(x), l, r),
{
    assert forall|l: int, r: int| mi_has(s, l, r) implies #[trigger] mi_has(s.push(x), l, r) by {
        let k = choose|k: int|
            0 <= k < s.len() && (#[trigger] s[k]).left_id as int == l && s[k].right_id as int == r;
        assert(s.push(x)[k] == s[k]);
    }
}

/// Extending a table never removes a same-person witness.
pub proof fn lemma_sp_has_push(s: Seq<SamePerson>, x: SamePerson)
    ensures
        forall|l: int, r: int| sp_has(s, l, r) ==> #[trigger] sp_has(s.push(x), l, r),
{
    assert forall|l: int, r: int| sp_has(s, l, r) implies #[trigger] sp_has(s.push(x), l, r) by {
        let k = choose|k: int|
            0 <= k < s.len() && (#[trigger] s[k]).left_id as int == l && s[k].right_id as int == r;
        assert(s.push(x)[k] == s[k]);
    }
}

fn has_entity_for_exec(entities: &Vec<Entity>, at: usize) -> (b: bool)
    ensures
        b == has_entity_for(entities@, at as int),
{
    let mut k: usize = 0;
    while k < entities.len()
        invariant
            k <= entities@.len(),
            forall|k2: int| 0 <= k2 < k ==> (#[trigger] entities@[k2]).introduced_at != at,
        decreases entities@.len() - k,
    {
        if entities[k].introduced_at == at {
            return true;
        }
        k += 1;
    }
    false
}

/// The index of the send-message payload asserted at event `at`, if any.
fn sme_for_exec(smes: &Vec<SendMessageEvent>, at: usize) -> (r: Option<usize>)
    ensures
        match r {
            Some(j) => j < smes@.len() && smes@[j as int].asserted_at == at,
            None => !has_sme_for(smes@, at as int),
        },
        r is Some == has_sme_for(smes@, at as int),
{
    let mut k: usize = 0;
    while k < smes.len()
        invariant
            k <= smes@.len(),
            forall|k2: int| 0 <= k2 < k ==> (#[trigger] smes@[k2]).asserted_at != at,
        decreases smes@.len() - k,
    {
        if smes[k].asserted_at == at {
            return Some(k);
        }
        k += 1;
    }
    None
}

fn has_message_exec(msgs: &Vec<Message>, eid: usize) -> (b: bool)
    ensures
        b == has_message(msgs@, eid as int),
{
    let mut k: usize = 0;
    while k < msgs.len()
        invariant
            k <= msgs@.len(),
            forall|k2: int| 0 <= k2 < k ==> (#[trigger] msgs@[k2]).entity_id != eid,
        decreases msgs@.len() - k,
    {
        if msgs[k].entity_id == eid {
            return true;
        }
        k += 1;
    }
    false
}

fn has_body_exec(bodies: &Vec<MessageBody>, eid: usize, at: usize) -> (b: bool)
    ensures
        b == has_body(bodies@, eid as int, at as int),
{
    let mut k: usize = 0;
    while k < bodies.len()
        invariant
            k <= bodies@.len(),
            forall|k2: int|
                0 <= k2 < k ==> !((#[trigger] bodies@[k2]).entity_id == eid
                    && bodies@[k2].asserted_at == at),
        decreases bodies@.len() - k,
    {
        if bodies[k].entity_id == eid && bodies[k].asserted_at == at {
            return true;
        }
        k += 1;
    }
    false
}

fn has_author_exec(authors: &Vec<MessageAuthor>, eid: usize) -> (b: bool)
    ensures
        b == has_author(authors@, eid as int),
{
    let mut k: usize = 0;
    while k < authors.len()
        invariant
            k <= authors@.len(),
            forall|k2: int| 0 <= k2 < k ==> (#[trigger] authors@[k2]).entity_id != eid,
        decreases authors@.len() - k,
    {
        if authors[k].entity_id == eid {
            return true;
        }
        k += 1;
    }
    false
}

pub(crate) fn mi_has_exec(mi: &Vec<MutuallyIdentify>, l: usize, r: usize) -> (b: bool)
    ensures
        b == mi_has(mi@, l as int, r as int),
{
    let mut k: usize = 0;
    while k < mi.len()
        invariant
            k <= mi@.len(),
            forall|k2: int|
                0 <= k2 < k ==> !((#[trigger] mi@[k2]).left_id == l && mi@[k2].right_id == r),
        decreases mi@.len() - k,
    {
        if mi[k].left_id == l && mi[k].right_id == r {
            return true;
        }
        k += 1;
    }
    false
}

impl Relation for SendMessageEvent {
    /// Entity materialization: every send-message event gets an entity
    /// introduced at it.  Entities created here carry no portable
    /// identifier; the log and every other relation stay untouched.
    open spec fn rule_post(pre: Store, post: Store, r: usize) -> bool {
        &&& bases_unchanged(pre, post)
        &&& derived_unchanged(pre, post)
        &&& pre.entities@.is_prefix_of(post.entities@)
        &&& r == post.entities@.len() - pre.entities@.len()
        &&& forall|k: int|
            pre.entities@.len() <= k < post.entities@.len() ==> {
                let ent = #[trigger] post.entities@[k];
                &&& ent.uuid is None
                &&& has_sme_for(pre.send_message_events@, ent.introduced_at as int)
                &&& forall|k2: int|
                    0 <= k2 < k ==> (#[trigger] post.entities@[k2]).introduced_at
                        != ent.introduced_at
            }
        &&& forall|j: int|
            0 <= j < pre.send_message_events@.len() ==> has_entity_for(
                post.entities@,
                (#[trigger] pre.send_message_events@[j]).asserted_at as int,
            )
        &&& (forall|j: int|
            0 <= j < pre.send_message_events@.len() ==> has_entity_for(
                pre.entities@,
                (#[trigger] pre.send_message_events@[j]).asserted_at as int,
            )) ==> (post == pre && r == 0)
    }

    fn run_rules(store: &mut Store) -> (r: usize) {
        let n0 = store.entities.len();
        let mut j: usize = 0;
        while j < store.send_message_events.len()
            invariant
                old(store).wf(),
                store.wf(),
                bases_unchanged(*old(store), *store),
                derived_unchanged(*old(store), *store),
                old(store).entities@.is_prefix_of(store.entities@),
                n0 == old(store).entities@.len(),
                j <= store.send_message_events@.len(),
                forall|k: int|
                    n0 <= k < store.entities@.len() ==> {
                        let ent = #[trigger] store.entities@[k];
                        &&& ent.uuid is None
                        &&& has_sme_for(old(store).send_message_events@, ent.introduced_at as int)
                        &&& forall|k2: int|
                            0 <= k2 < k ==> (#[trigger] store.entities@[k2]).introduced_at
                                != ent.introduced_at
                    },
                forall|j2: int|
                    0 <= j2 < j ==> has_entity_for(
                        store.entities@,
                        (#[trigger] old(store).send_message_events@[j2]).asserted_at as int,
                    ),
                (forall|j2: int|
                    0 <= j2 < old(store).send_message_events@.len() ==> has_entity_for(
                        old(store).entities@,
                        (#[trigger] old(store).send_message_events@[j2]).asserted_at as int,
                    )) ==> *store == *old(store),
            decreases store.send_message_events@.len() - j,
        {
            let at = store.send_message_events[j].asserted_at;
            if !has_entity_for_exec(&store.entities, at) {
                proof {
                    lemma_has_entity_for_push(
                        store.entities@,
                        Entity { uuid: None, introduced_at: at },
                    );
                }
                store.entities.push(Entity { uuid: None, introduced_at: at });
                assert(store.entities@.last().introduced_at == at);
                assert(has_entity_for(store.entities@, at as int));
                assert(old(store).entities@ =~= store.entities@.subrange(0, n0 as int));
            }
            j += 1;
        }
        proof {
            assert(old(store).send_message_events@ == store.send_message_events@);
        }
        let r = store.entities.len() - n0;
        r
    }
}

impl Relation for Message {
    /// Message projection: every entity introduced by a send-message event
    /// is a message, keyed by entity id.
    open spec fn rule_post(pre: Store, post: Store, r: usize) -> bool {
        &&& bases_unchanged(pre, post)
        &&& post.entities@ == pre.entities@
        &&& post.message_bodies@ == pre.message_bodies@
        &&& post.message_authors@ == pre.message_authors@
        &&& post.mutually_identify@ == pre.mutually_identify@
        &&& post.same_person@ == pre.same_person@
        &&& post.peer_names@ == pre.peer_names@
        &&& pre.messages@.is_prefix_of(post.messages@)
        &&& r == post.messages@.len() - pre.messages@.len()
        &&& forall|k: int|
            pre.messages@.len() <= k < post.messages@.len() ==> message_should(
                pre,
                (#[trigger] post.messages@[k]).entity_id as int,
            )
        &&& forall|eid: int| message_should(pre, eid) ==> has_message(post.messages@, eid)
        &&& (forall|eid: int| message_should(pre, eid) ==> has_message(pre.messages@, eid)) ==> (
        post == pre && r == 0)
    }

    fn run_rules(store: &mut Store) -> (r: usize) {
        let n0 = store.messages.len();
        let mut eid: usize = 0;
        while eid < store.entities.len()
            invariant
                old(store).wf(),
                store.wf(),
                bases_unchanged(*old(store), *store),
                store.entities@ == old(store).entities@,
                store.message_bodies@ == old(store).message_bodies@,
                store.message_authors@ == old(store).message_authors@,
                store.mutually_identify@ == old(store).mutually_identify@,
                store.same_person@ == old(store).same_person@,
                store.peer_names@ == old(store).peer_names@,
                old(store).messages@.is_prefix_of(store.messages@),
                n0 == old(store).messages@.len(),
                eid <= store.entities@.len(),
                forall|k: int|
                    n0 <= k < store.messages@.len() ==> message_should(
                        *old(store),
                        (#[trigger] store.messages@[k]).entity_id as int,
                    ),
                forall|e2: int|
                    0 <= e2 < eid && message_should(*old(store), e2) ==> has_message(
                        store.messages@,
                        e2,
                    ),
                (forall|e2: int|
                    message_should(*old(store), e2) ==> has_message(
                        old(store).messages@,
                        e2,
                    )) ==> *store == *old(store),
            decreases store.entities@.len() - eid,
        {
            let at = store.entities[eid].introduced_at;
            let is_msg = sme_for_exec(&store.send_message_events, at);
            if is_msg.is_some() {
                if !has_message_exec(&store.messages, eid) {
                    proof {
                        assert(has_sme_for(store.send_message_events@, at as int));
                        assert(message_should(*old(store), eid as int));
                        if forall|e2: int|
                            message_should(*old(store), e2) ==> has_message(
                                old(store).messages@,
                                e2,
                            ) {
                            assert(has_message(old(store).messages@, eid as int));
                            assert(false);
                        }
                        lemma_has_message_push(store.messages@, Message { entity_id: eid });
                    }
                    store.messages.push(Message { entity_id: eid });
                    assert(store.messages@.last().entity_id == eid);
                    assert(has_message(store.messages@, eid as int));
                    assert(old(store).messages@ =~= store.messages@.subrange(0, n0 as int));
                }
            }
            eid += 1;
        }
        let r = store.messages.len() - n0;
        r
    }
}

impl Relation for MessageBody {
    /// Body projection: each message entity gets the body text of its
    /// introducing send-message event, keyed by `(entity, asserting event)`.
    open spec fn rule_post(pre: Store, post: Store, r: usize) -> bool {
        &&& bases_unchanged(pre, post)
        &&& post.entities@ == pre.entities@
        &&& post.messages@ == pre.messages@
        &&& post.message_authors@ == pre.message_authors@
        &&& post.mutually_identify@ == pre.mutually_identify@
        &&& post.same_person@ == pre.same_person@
        &&& post.peer_names@ == pre.peer_names@
        &&& pre.message_bodies@.is_prefix_of(post.message_bodies@)
        &&& r == post.message_bodies@.len() - pre.message_bodies@.len()
        &&& forall|k: int|
            pre.message_bodies@.len() <= k < post.message_bodies@.len() ==> body_should(
                pre,
                #[trigger] post.message_bodies@[k],
            )
        &&& forall|eid: int|
            #[trigger] message_should(pre, eid) ==> has_body(
                post.message_bodies@,
                eid,
                pre.entities@[eid].introduced_at as int,
            )
        &&& (forall|eid: int|
            #[trigger] message_should(pre, eid) ==> has_body(
                pre.message_bodies@,
                eid,
                pre.entities@[eid].introduced_at as int,
            )) ==> (post == pre && r == 0)
    }

    fn run_rules(store: &mut Store) -> (r: usize) {
        let n0 = store.message_bodies.len();
        let mut eid: usize = 0;
        while eid < store.entities.len()
            invariant
                old(store).wf(),
                store.wf(),
                bases_unchanged(*old(store), *store),
                store.entities@ == old(store).entities@,
                store.messages@ == old(store).messages@,
                store.message_authors@ == old(store).message_authors@,
                store.mutually_identify@ == old(store).mutually_identify@,
                store.same_person@ == old(store).same_person@,
                store.peer_names@ == old(store).peer_names@,
                old(store).message_bodies@.is_prefix_of(store.message_bodies@),
                n0 == old(store).message_bodies@.len(),
                eid <= store.entities@.len(),
                forall|k: int|
                    n0 <= k < store.message_bodies@.len() ==> body_should(
                        *old(store),
                        #[trigger] store.message_bodies@[k],
                    ),
                forall|e2: int|
                    0 <= e2 < eid && #[trigger] message_should(*old(store), e2) ==> has_body(
                        store.message_bodies@,
                        e2,
                        old(store).entities@[e2].introduced_at as int,
                    ),
                (forall|e2: int|
                    #[trigger] message_should(*old(store), e2) ==> has_body(
                        old(store).message_bodies@,
                        e2,
                        old(store).entities@[e2].introduced_at as int,
                    )) ==> *store == *old(store),
            decreases store.entities@.len() - eid,
        {
            let at = store.entities[eid].introduced_at;
            if let Some(j) = sme_for_exec(&store.send_message_events, at) {
                if !has_body_exec(&store.message_bodies, eid, at) {
                    proof {
                        assert(has_sme_for(store.send_message_events@, at as int));
                        assert(message_should(*old(store), eid as int));
                        if forall|e2: int|
                            #[trigger] message_should(*old(store), e2) ==> has_body(
                                old(store).message_bodies@,
                                e2,
                                old(store).entities@[e2].introduced_at as int,
                            ) {
                            assert(has_body(old(store).message_bodies@, eid as int, at as int));
                            assert(false);
                        }
                    }
                    let b = store.send_message_events[j].body.clone();
                    proof {
                        lemma_has_body_push(
                            store.message_bodies@,
                            MessageBody { entity_id: eid, asserted_at: at, body: b },
                        );
                    }
                    store.message_bodies.push(
                        MessageBody { entity_id: eid, asserted_at: at, body: b },
                    );
                    assert(store.message_bodies@.last().entity_id == eid);
                    assert(has_body(store.message_bodies@, eid as int, at as int));
                    assert(old(store).message_bodies@ =~= store.message_bodies@.subrange(
                        0,
                        n0 as int,
                    ));
                }
            }
            eid += 1;
        }
        let r = store.message_bodies.len() - n0;
        r
    }
}

impl Relation for MessageAuthor {
    /// Author projection: each message entity gets the peer that owns its
    /// introducing send-message event, keyed by entity id.
    open spec fn rule_post(pre: Store, post: Store, r: usize) -> bool {
        &&& bases_unchanged(pre, post)
        &&& post.entities@ == pre.entities@
        &&& post.messages@ == pre.messages@
        &&& post.message_bodies@ == pre.message_bodies@
        &&& post.mutually_identify@ == pre.mutually_identify@
        &&& post.same_person@ == pre.same_person@
        &&& post.peer_names@ == pre.peer_names@
        &&& pre.message_authors@.is_prefix_of(post.message_authors@)
        &&& r == post.message_authors@.len() - pre.message_authors@.len()
        &&& forall|k: int|
            pre.message_authors@.len() <= k < post.message_authors@.len() ==> author_should(
                pre,
                #[trigger] post.message_authors@[k],
            )
        &&& forall|eid: int|
            #[trigger] message_should(pre, eid) ==> has_author(post.message_authors@, eid)
        &&& (forall|eid: int|
            #[trigger] message_should(pre, eid) ==> has_author(pre.message_authors@, eid)) ==> (
        post == pre && r == 0)
    }

    fn run_rules(store: &mut Store) -> (r: usize) {
        let n0 = store.message_authors.len();
        let mut eid: usize = 0;
        while eid < store.entities.len()
            invariant
                old(store).wf(),
                store.wf(),
                bases_unchanged(*old(store), *store),
                store.entities@ == old(store).entities@,
                store.messages@ == old(store).messages@,
                store.message_bodies@ == old(store).message_bodies@,
                store.mutually_identify@ == old(store).mutually_identify@,
                store.same_person@ == old(store).same_person@,
                store.peer_names@ == old(store).peer_names@,
                old(store).message_authors@.is_prefix_of(store.message_authors@),
                n0 == old(store).message_authors@.len(),
                eid <= store.entities@.len(),
                forall|k: int|
                    n0 <= k < store.message_authors@.len() ==> author_should(
                        *old(store),
                        #[trigger] store.message_authors@[k],
                    ),
                forall|e2: int|
                    0 <= e2 < eid && #[trigger] message_should(*old(store), e2) ==> has_author(
                        store.message_authors@,
                        e2,
                    ),
                (forall|e2: int|
                    #[trigger] message_should(*old(store), e2) ==> has_author(
                        old(store).message_authors@,
                        e2,
                    )) ==> *store == *old(store),
            decreases store.entities@.len() - eid,
        {
            let at = store.entities[eid].introduced_at;
            let found = sme_for_exec(&store.send_message_events, at);
            if found.is_some() {
                if !has_author_exec(&store.message_authors, eid) {
                    proof {
                        assert(has_sme_for(store.send_message_events@, at as int));
                        assert(message_should(*old(store), eid as int));
                        if forall|e2: int|
                            #[trigger] message_should(*old(store), e2) ==> has_author(
                                old(store).message_authors@,
                                e2,
                            ) {
                            assert(has_author(old(store).message_authors@, eid as int));
                            assert(false);
                        }
                    }
                    let author = store.events[at].peer_id;
                    proof {
                        lemma_has_author_push(
                            store.message_authors@,
                            MessageAuthor { entity_id: eid, asserted_at: at, author_id: author },
                        );
                    }
                    store.message_authors.push(
                        MessageAuthor { entity_id: eid, asserted_at: at, author_id: author },
                    );
                    assert(store.message_authors@.last().entity_id == eid);
                    assert(has_author(store.message_authors@, eid as int));
                    assert(old(store).message_authors@ =~= store.message_authors@.subrange(
                        0,
                        n0 as int,
                    ));
                }
            }
            eid += 1;
        }
        let r = store.message_authors.len() - n0;
        r
    }
}

impl Relation for MutuallyIdentify {
    /// Identity merging, first step: every peer identifies itself, and two
    /// peers that have asserted identify-with toward each other form a pair,
    /// in both directions.
    open spec fn rule_post(pre: Store, post: Store, r: usize) -> bool {
        &&& bases_unchanged(pre, post)
        &&& post.entities@ == pre.entities@
        &&& post.messages@ == pre.messages@
        &&& post.message_bodies@ == pre.message_bodies@
        &&& post.message_authors@ == pre.message_authors@
        &&& post.same_person@ == pre.same_person@
        &&& post.peer_names@ == pre.peer_names@
        &&& pre.mutually_identify@.is_prefix_of(post.mutually_identify@)
        &&& r == post.mutually_identify@.len() - pre.mutually_identify@.len()
        &&& forall|k: int|
            pre.mutually_identify@.len() <= k < post.mutually_identify@.len() ==> mutual_should(
                pre,
                (#[trigger] post.mutually_identify@[k]).left_id as int,
                post.mutually_identify@[k].right_id as int,
            )
        &&& forall|a: int, b: int|
            #[trigger] mutual_should(pre, a, b) ==> mi_has(post.mutually_identify@, a, b)
        &&& (forall|a: int, b: int|
            #[trigger] mutual_should(pre, a, b) ==> mi_has(pre.mutually_identify@, a, b)) ==> (
        post == pre && r == 0)
    }

    #[verifier::rlimit(100)]
    fn run_rules(store: &mut Store) -> (r: usize) {
        let n0 = store.mutually_identify.len();
        let mut p: usize = 0;
        while p < store.peers.len()
            invariant
                old(store).wf(),
                store.wf(),
                bases_unchanged(*old(store), *store),
                store.entities@ == old(store).entities@,
                store.messages@ == old(store).messages@,
                store.message_bodies@ == old(store).message_bodies@,
                store.message_authors@ == old(store).message_authors@,
                store.same_person@ == old(store).same_person@,
                store.peer_names@ == old(store).peer_names@,
                old(store).mutually_identify@.is_prefix_of(store.mutually_identify@),
                n0 == old(store).mutually_identify@.len(),
                p <= store.peers@.len(),
                forall|k: int|
                    n0 <= k < store.mutually_identify@.len() ==> mutual_should(
                        *old(store),
                        (#[trigger] store.mutually_identify@[k]).left_id as int,
                        store.mutually_identify@[k].right_id as int,
                    ),
                forall|p2: int| 0 <= p2 < p ==> mi_has(store.mutually_identify@, p2, p2),
                (forall|a: int, b: int|
                    #[trigger] mutual_should(*old(store), a, b) ==> mi_has(
                        old(store).mutually_identify@,
                        a,
                        b,
                    )) ==> *store == *old(store),
            decreases store.peers@.len() - p,
        {
            if !mi_has_exec(&store.mutually_identify, p, p) {
                proof {
                    assert(mutual_should(*old(store), p as int, p as int));
                    if forall|a: int, b: int|
                        #[trigger] mutual_should(*old(store), a, b) ==> mi_has(
                            old(store).mutually_identify@,
                            a,
                            b,
                        ) {
                        assert(mi_has(old(store).mutually_identify@, p as int, p as int));
                        assert(false);
                    }
                    lemma_mi_has_push(
                        store.mutually_identify@,
                        MutuallyIdentify { left_id: p, right_id: p },
                    );
                }
                store.mutually_identify.push(MutuallyIdentify { left_id: p, right_id: p });
                assert(store.mutually_identify@.last().left_id == p);
                assert(mi_has(store.mutually_identify@, p as int, p as int));
                assert(old(store).mutually_identify@ =~= store.mutually_identify@.subrange(
                    0,
                    n0 as int,
                ));
            }
            p += 1;
        }
        let mut i: usize = 0;
        while i < store.i_identify_with_events.len()
            invariant
                old(store).wf(),
                store.wf(),
                bases_unchanged(*old(store), *store),
                store.entities@ == old(store).entities@,
                store.messages@ == old(store).messages@,
                store.message_bodies@ == old(store).message_bodies@,
                store.message_authors@ == old(store).message_authors@,
                store.same_person@ == old(store).same_person@,
                store.peer_names@ == old(store).peer_names@,
                old(store).mutually_identify@.is_prefix_of(store.mutually_identify@),
                n0 == old(store).mutually_identify@.len(),
                i <= store.i_identify_with_events@.len(),
                forall|k: int|
                    n0 <= k < store.mutually_identify@.len() ==> mutual_should(
                        *old(store),
                        (#[trigger] store.mutually_identify@[k]).left_id as int,
                        store.mutually_identify@[k].right_id as int,
                    ),
                forall|p2: int|
                    0 <= p2 < store.peers@.len() ==> mi_has(store.mutually_identify@, p2, p2),
                forall|i2: int, j2: int|
                    0 <= i2 < i && 0 <= j2 < store.i_identify_with_events@.len() && #[trigger]
                    edge_pair(*old(store), i2, j2) ==> mi_has(
                        store.mutually_identify@,
                        owner_of(*old(store), i2),
                        owner_of(*old(store), j2),
                    ),
                (forall|a: int, b: int|
                    #[trigger] mutual_should(*old(store), a, b) ==> mi_has(
                        old(store).mutually_identify@,
                        a,
                        b,
                    )) ==> *store == *old(store),
            decreases store.i_identify_with_events@.len() - i,
        {
            let mut j: usize = 0;
            while j < store.i_identify_with_events.len()
                invariant
                    old(store).wf(),
                    store.wf(),
                    bases_unchanged(*old(store), *store),
                    store.entities@ == old(store).entities@,
                    store.messages@ == old(store).messages@,
                    store.message_bodies@ == old(store).message_bodies@,
                    store.message_authors@ == old(store).message_authors@,
                    store.same_person@ == old(store).same_person@,
                    store.peer_names@ == old(store).peer_names@,
                    old(store).mutually_identify@.is_prefix_of(store.mutually_identify@),
                    n0 == old(store).mutually_identify@.len(),
                    i < store.i_identify_with_events@.len(),
                    j <= store.i_identify_with_events@.len(),
                    forall|k: int|
                        n0 <= k < store.mutually_identify@.len() ==> mutual_should(
                            *old(store),
                            (#[trigger] store.mutually_identify@[k]).left_id as int,
                            store.mutually_identify@[k].right_id as int,
                        ),
                    forall|p2: int|
                        0 <= p2 < store.peers@.len() ==> mi_has(store.mutually_identify@, p2, p2),
                    forall|i2: int, j2: int|
                        0 <= i2 < i && 0 <= j2 < store.i_identify_with_events@.len() && #[trigger]
                        edge_pair(*old(store), i2, j2) ==> mi_has(
                            store.mutually_identify@,
                            owner_of(*old(store), i2),
                            owner_of(*old(store), j2),
                        ),
                    forall|j2: int|
                        0 <= j2 < j && #[trigger] edge_pair(*old(store), i as int, j2) ==> mi_has(
                            store.mutually_identify@,
                            owner_of(*old(store), i as int),
                            owner_of(*old(store), j2),
                        ),
                    (forall|a: int, b: int|
                        #[trigger] mutual_should(*old(store), a, b) ==> mi_has(
                            old(store).mutually_identify@,
                            a,
                            b,
                        )) ==> *store == *old(store),
                decreases store.i_identify_with_events@.len() - j,
            {
                let e1 = store.i_identify_with_events[i];
                let e2 = store.i_identify_with_events[j];
                let a = store.events[e1.asserted_at].peer_id;
                let b = store.events[e2.asserted_at].peer_id;
                if e1.with_id == b && e2.with_id == a {
                    proof {
                        assert(edge_pair(*old(store), i as int, j as int));
                        assert(owner_of(*old(store), i as int) == a as int);
                        assert(owner_of(*old(store), j as int) == b as int);
                        assert(mutual_edge(*old(store), a as int, b as int));
                    }
                    if !mi_has_exec(&store.mutually_identify, a, b) {
                        proof {
                            assert(mutual_should(*old(store), a as int, b as int));
                            if forall|a2: int, b2: int|
                                #[trigger] mutual_should(*old(store), a2, b2) ==> mi_has(
                                    old(store).mutually_identify@,
                                    a2,
                                    b2,
                                ) {
                                assert(mi_has(old(store).mutually_identify@, a as int, b as int));
                                assert(false);
                            }
                            lemma_mi_has_push(
                                store.mutually_identify@,
                                MutuallyIdentify { left_id: a, right_id: b },
                            );
                        }
                        store.mutually_identify.push(MutuallyIdentify { left_id: a, right_id: b });
                        assert(store.mutually_identify@.last().left_id == a);
                        assert(mi_has(store.mutually_identify@, a as int, b as int));
                        assert(old(store).mutually_identify@
                            =~= store.mutually_identify@.subrange(0, n0 as int));
                    }
                }
                j += 1;
            }
            i += 1;
        }
        proof {
            assert forall|a: int, b: int| #[trigger] mutual_should(*old(store), a, b) implies
                mi_has(store.mutually_identify@, a, b) by {
                if 0 <= a < old(store).peers@.len() && a == b {
                    assert(mi_has(store.mutually_identify@, a, a));
                } else {
                    let (i2, j2) = choose|i2: int, j2: int|
                        #[trigger] edge_pair(*old(store), i2, j2) && owner_of(*old(store), i2) == a
                            && owner_of(*old(store), j2) == b;
                    assert(mi_has(store.mutually_identify@, a, b));
                }
            }
        }
        let r = store.mutually_identify.len() - n0;
        r
    }
}

} // verus!
