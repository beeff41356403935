//! The display-name history of merged identities.  Every name assertion
//! reachable through the same-person relation yields a row per merged
//! identity; the row's retraction column names the assertion that
//! superseded it, computed over wall-clock order with the event id as the
//! tie-break for simultaneous assertions.

use vstd::prelude::*;
use crate::model::{MyNameIsEvent, PeerName, SamePerson, Store, Time};
use crate::rules::{bases_unchanged, sp_has, Relation};
use crate::closure::sp_has_exec;

verus! {

/// The name assertion at index `k` speaks for merged identity `p`: its
/// owning peer is merged with `p`.
pub open spec fn name_source(
    mni: Seq<MyNameIsEvent>,
    events: Seq<Time>,
    sp: Seq<SamePerson>,
    k: int,
    p: int,
) -> bool {
    &&& 0 <= k < mni.len()
    &&& mni[k].asserted_at < events.len()
    &&& sp_has(sp, events[mni[k].asserted_at as int].peer_id as int, p)
}

/// Event `b` comes after event `a`: later wall time, with the event id
/// breaking ties between simultaneous assertions.
pub open spec fn later_event(events: Seq<Time>, a: int, b: int) -> bool {
    events[b].wall > events[a].wall || (events[b].wall == events[a].wall && b > a)
}

/// `ret` is the assertion that superseded the name asserted at `at` for
/// merged identity `p`: the earliest name source after `at`, or nothing if
/// `at` is still current.
pub open spec fn retraction_ok(
    mni: Seq<MyNameIsEvent>,
    events: Seq<Time>,
    sp: Seq<SamePerson>,
    p: int,
    at: int,
    ret: Option<usize>,
) -> bool {
    match ret {
        None => forall|k: int|
            #[trigger] name_source(mni, events, sp, k, p) ==> !later_event(
                events,
                at,
                mni[k].asserted_at as int,
            ),
        Some(r) => {
            &&& exists|k: int|
                #[trigger] name_source(mni, events, sp, k, p) && mni[k].asserted_at == r
            &&& later_event(events, at, r as int)
            &&& forall|k: int|
                #[trigger] name_source(mni, events, sp, k, p) && later_event(
                    events,
                    at,
                    mni[k].asserted_at as int,
                ) ==> (mni[k].asserted_at == r || later_event(
                    events,
                    r as int,
                    mni[k].asserted_at as int,
                ))
        },
    }
}

/// The row belongs to the peer-name view.
pub open spec fn peer_name_should(st: Store, row: PeerName) -> bool {
    &&& exists|k: int|
        #[trigger] name_source(
            st.my_name_is_events@,
            st.events@,
            st.same_person@,
            k,
            row.peer_id as int,
        ) && st.my_name_is_events@[k].asserted_at == row.asserted_at
            && st.my_name_is_events@[k].name == row.name
    &&& retraction_ok(
        st.my_name_is_events@,
        st.events@,
        st.same_person@,
        row.peer_id as int,
        row.asserted_at as int,
        row.retracted_at,
    )
}

/// A name row with key `(p, at)` exists.
pub open spec fn has_name_key(s: Seq<PeerName>, p: int, at: int) -> bool {
    exists|k: int|
        0 <= k < s.len() && (#[trigger] s[k]).peer_id as int == p && s[k].asserted_at as int == at
}

/// Extending a table never removes a name-key witness.
pub proof fn lemma_has_name_key_push(s: Seq<PeerName>, x: PeerName)
    ensures
        forall|p: int, at: int|
            has_name_key(s, p, at) ==> #[trigger] has_name_key(s.push(x), p, at),
{
    assert forall|p: int, at: int| has_name_key(s, p, at) implies #[trigger] has_name_key(
        s.push(x),
        p,
        at,
    ) by {
        let k = choose|k: int|
            0 <= k < s.len() && (#[trigger] s[k]).peer_id as int == p && s[k].asserted_at as int
                == at;
        assert(s.push(x)[k] == s[k]);
    }
}

fn has_name_key_exec(v: &Vec<PeerName>, p: usize, at: usize) -> (b: bool)
    ensures
        b == has_name_key(v@, p as int, at as int),
{
    let mut k: usize = 0;
    while k < v.len()
        invariant
            k <= v@.len(),
            forall|k2: int|
                0 <= k2 < k ==> !((#[trigger] v@[k2]).peer_id == p && v@[k2].asserted_at == at),
        decreases v@.len() - k,
    {
        if v[k].peer_id == p && v[k].asserted_at == at {
            return true;
        }
        k += 1;
    }
    false
}

fn later_exec(store: &Store, a: usize, b: usize) -> (r: bool)
    requires
        a < store.events@.len(),
        b < store.events@.len(),
    ensures
        r == later_event(store.events@, a as int, b as int),
{
    let wa = store.events[a].wall;
    let wb = store.events[b].wall;
    wb > wa || (wb == wa && b > a)
}

/// The earliest name source for `p` strictly after `at`, if any.
fn compute_retraction(store: &Store, p: usize, at: usize) -> (ret: Option<usize>)
    requires
        store.wf(),
        at < store.events@.len(),
    ensures
        retraction_ok(store.my_name_is_events@, store.events@, store.same_person@, p as int, at as int, ret),
        ret matches Some(r) ==> r < store.events@.len(),
{
    let mut ret: Option<usize> = None;
    let mut k: usize = 0;
    while k < store.my_name_is_events.len()
        invariant
            store.wf(),
            at < store.events@.len(),
            k <= store.my_name_is_events@.len(),
            ret is None ==> forall|k2: int|
                0 <= k2 < k && #[trigger] name_source(
                    store.my_name_is_events@,
                    store.events@,
                    store.same_person@,
                    k2,
                    p as int,
                ) ==> !later_event(
                    store.events@,
                    at as int,
                    store.my_name_is_events@[k2].asserted_at as int,
                ),
            ret matches Some(r) ==> {
                &&& r < store.events@.len()
                &&& exists|k2: int|
                    #[trigger] name_source(
                        store.my_name_is_events@,
                        store.events@,
                        store.same_person@,
                        k2,
                        p as int,
                    ) && store.my_name_is_events@[k2].asserted_at == r
                &&& later_event(store.events@, at as int, r as int)
                &&& forall|k2: int|
                    0 <= k2 < k && #[trigger] name_source(
                        store.my_name_is_events@,
                        store.events@,
                        store.same_person@,
                        k2,
                        p as int,
                    ) && later_event(
                        store.events@,
                        at as int,
                        store.my_name_is_events@[k2].asserted_at as int,
                    ) ==> (store.my_name_is_events@[k2].asserted_at == r || later_event(
                        store.events@,
                        r as int,
                        store.my_name_is_events@[k2].asserted_at as int,
                    ))
            },
        decreases store.my_name_is_events@.len() - k,
    {
        let at2 = store.my_name_is_events[k].asserted_at;
        let owner = store.events[at2].peer_id;
        if sp_has_exec(&store.same_person, owner, p) && later_exec(store, at, at2) {
            assert(name_source(
                store.my_name_is_events@,
                store.events@,
                store.same_person@,
                k as int,
                p as int,
            ));
            match ret {
                None => {
                    ret = Some(at2);
                },
                Some(cur) => {
                    if later_exec(store, at2, cur) {
                        ret = Some(at2);
                    }
                },
            }
        } else {
            proof {
                if name_source(
                    store.my_name_is_events@,
                    store.events@,
                    store.same_person@,
                    k as int,
                    p as int,
                ) && later_event(
                    store.events@,
                    at as int,
                    store.my_name_is_events@[k as int].asserted_at as int,
                ) {
                    assert(sp_has(
                        store.same_person@,
                        store.events@[at2 as int].peer_id as int,
                        p as int,
                    ));
                    assert(false);
                }
            }
        }
        k += 1;
    }
    ret
}

impl Relation for PeerName {
    /// The retraction-aware name view: one row per name assertion and
    /// merged identity, its retraction set to the assertion that
    /// superseded it, computed at insert time and keyed by
    /// `(identity, asserting event)`.
    open spec fn rule_post(pre: Store, post: Store, r: usize) -> bool {
        &&& bases_unchanged(pre, post)
        &&& post.entities@ == pre.entities@
        &&& post.messages@ == pre.messages@
        &&& post.message_bodies@ == pre.message_bodies@
        &&& post.message_authors@ == pre.message_authors@
        &&& post.mutually_identify@ == pre.mutually_identify@
        &&& post.same_person@ == pre.same_person@
        &&& pre.peer_names@.is_prefix_of(post.peer_names@)
        &&& r == post.peer_names@.len() - pre.peer_names@.len()
        &&& forall|k: int|
            pre.peer_names@.len() <= k < post.peer_names@.len() ==> peer_name_should(
                pre,
                #[trigger] post.peer_names@[k],
            )
        &&& forall|k: int, p: int|
            #[trigger] name_source(pre.my_name_is_events@, pre.events@, pre.same_person@, k, p) ==> has_name_key(
                post.peer_names@,
                p,
                pre.my_name_is_events@[k].asserted_at as int,
            )
        &&& (forall|k: int, p: int|
            #[trigger] name_source(pre.my_name_is_events@, pre.events@, pre.same_person@, k, p) ==> has_name_key(
                pre.peer_names@,
                p,
                pre.my_name_is_events@[k].asserted_at as int,
            )) ==> (post == pre && r == 0)
    }

    #[verifier::rlimit(100)]
    fn run_rules(store: &mut Store) -> (r: usize) {
        let n0 = store.peer_names.len();
        let mut k: usize = 0;
        while k < store.my_name_is_events.len()
            invariant
                old(store).wf(),
                store.wf(),
                bases_unchanged(*old(store), *store),
                store.entities@ == old(store).entities@,
                store.messages@ == old(store).messages@,
                store.message_bodies@ == old(store).message_bodies@,
                store.message_authors@ == old(store).message_authors@,
                store.mutually_identify@ == old(store).mutually_identify@,
                store.same_person@ == old(store).same_person@,
                old(store).peer_names@.is_prefix_of(store.peer_names@),
                n0 == old(store).peer_names@.len(),
                k <= store.my_name_is_events@.len(),
                forall|k2: int|
                    n0 <= k2 < store.peer_names@.len() ==> peer_name_should(
                        *old(store),
                        #[trigger] store.peer_names@[k2],
                    ),
                forall|k2: int, p: int|
                    0 <= k2 < k && #[trigger] name_source(old(store).my_name_is_events@, old(store).events@, old(store).same_person@, k2, p) ==> has_name_key(
                        store.peer_names@,
                        p,
                        old(store).my_name_is_events@[k2].asserted_at as int,
                    ),
                (forall|k2: int, p: int|
                    #[trigger] name_source(old(store).my_name_is_events@, old(store).events@, old(store).same_person@, k2, p) ==> has_name_key(
                        old(store).peer_names@,
                        p,
                        old(store).my_name_is_events@[k2].asserted_at as int,
                    )) ==> *store == *old(store),
            decreases store.my_name_is_events@.len() - k,
        {
            let at = store.my_name_is_events[k].asserted_at;
            let owner = store.events[at].peer_id;
            let mut s: usize = 0;
            while s < store.same_person.len()
                invariant
                    old(store).wf(),
                    store.wf(),
                    bases_unchanged(*old(store), *store),
                    store.entities@ == old(store).entities@,
                    store.messages@ == old(store).messages@,
                    store.message_bodies@ == old(store).message_bodies@,
                    store.message_authors@ == old(store).message_authors@,
                    store.mutually_identify@ == old(store).mutually_identify@,
                    store.same_person@ == old(store).same_person@,
                    old(store).peer_names@.is_prefix_of(store.peer_names@),
                    n0 == old(store).peer_names@.len(),
                    k < store.my_name_is_events@.len(),
                    at == store.my_name_is_events@[k as int].asserted_at,
                    at < store.events@.len(),
                    owner == store.events@[at as int].peer_id,
                    s <= store.same_person@.len(),
                    forall|k2: int|
                        n0 <= k2 < store.peer_names@.len() ==> peer_name_should(
                            *old(store),
                            #[trigger] store.peer_names@[k2],
                        ),
                    forall|k2: int, p: int|
                        0 <= k2 < k && #[trigger] name_source(old(store).my_name_is_events@, old(store).events@, old(store).same_person@, k2, p) ==> has_name_key(
                            store.peer_names@,
                            p,
                            old(store).my_name_is_events@[k2].asserted_at as int,
                        ),
                    forall|s2: int|
                        0 <= s2 < s && (#[trigger] store.same_person@[s2]).left_id == owner
                            ==> has_name_key(
                            store.peer_names@,
                            store.same_person@[s2].right_id as int,
                            at as int,
                        ),
                    (forall|k2: int, p: int|
                        #[trigger] name_source(old(store).my_name_is_events@, old(store).events@, old(store).same_person@, k2, p) ==> has_name_key(
                            old(store).peer_names@,
                            p,
                            old(store).my_name_is_events@[k2].asserted_at as int,
                        )) ==> *store == *old(store),
                decreases store.same_person@.len() - s,
            {
                let row = store.same_person[s];
                if row.left_id == owner {
                    let p = row.right_id;
                    proof {
                        assert(sp_has(store.same_person@, owner as int, p as int));
                        assert(name_source(old(store).my_name_is_events@, old(store).events@, old(store).same_person@, k as int, p as int));
                    }
                    if !has_name_key_exec(&store.peer_names, p, at) {
                        proof {
                            if forall|k2: int, p2: int|
                                #[trigger] name_source(old(store).my_name_is_events@, old(store).events@, old(store).same_person@, k2, p2) ==> has_name_key(
                                    old(store).peer_names@,
                                    p2,
                                    old(store).my_name_is_events@[k2].asserted_at as int,
                                ) {
                                assert(has_name_key(old(store).peer_names@, p as int, at as int));
                                assert(false);
                            }
                        }
                        let ret = compute_retraction(store, p, at);
                        let name = store.my_name_is_events[k].name.clone();
                        let new_row = PeerName {
                            peer_id: p,
                            asserted_at: at,
                            retracted_at: ret,
                            name: name,
                        };
                        proof {
                            lemma_has_name_key_push(store.peer_names@, new_row);
                            assert(peer_name_should(*old(store), new_row));
                        }
                        store.peer_names.push(new_row);
                        assert(store.peer_names@.last().peer_id == p);
                        assert(has_name_key(store.peer_names@, p as int, at as int));
                        assert(old(store).peer_names@ =~= store.peer_names@.subrange(
                            0,
                            n0 as int,
                        ));
                    }
                }
                s += 1;
            }
            proof {
                assert forall|p: int| #[trigger] name_source(old(store).my_name_is_events@, old(store).events@, old(store).same_person@, k as int, p) implies
                    has_name_key(store.peer_names@, p, at as int) by {
                    let s2 = choose|s2: int|
                        0 <= s2 < store.same_person@.len()
                            && (#[trigger] store.same_person@[s2]).left_id as int
                            == owner as int && store.same_person@[s2].right_id as int == p;
                    assert(store.same_person@[s2].left_id == owner);
                    assert(has_name_key(
                        store.peer_names@,
                        store.same_person@[s2].right_id as int,
                        at as int,
                    ));
                }
            }
            k += 1;
        }
        let r = store.peer_names.len() - n0;
        r
    }
}

} // verus!
