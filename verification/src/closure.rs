//! The same-person relation: the transitive closure of mutual
//! identification, computed by an explicit worklist over a snapshot of the
//! mutual-identification table and inserted minus the rows already present.

use vstd::prelude::*;
use crate::model::{MutuallyIdentify, SamePerson, Store};
use crate::rules::{bases_unchanged, lemma_sp_has_push, mi_has, sp_has, Relation};
use crate::card::lemma_sp_pairs_bound;

verus! {

/// Consecutive elements of `p` are joined by mutual-identification edges.
pub open spec fn is_chain(mi: Seq<MutuallyIdentify>, p: Seq<int>) -> bool {
    forall|k: int| 0 <= k < p.len() - 1 ==> mi_has(mi, #[trigger] p[k], p[k + 1])
}

/// `b` is reachable from `a` through mutual-identification edges.
pub open spec fn reaches(mi: Seq<MutuallyIdentify>, a: int, b: int) -> bool {
    exists|p: Seq<int>|
        #![trigger is_chain(mi, p)]
        p.len() >= 2 && p[0] == a && p[p.len() - 1] == b && is_chain(mi, p)
}

/// A single edge is a chain.
pub proof fn lemma_reach_edge(mi: Seq<MutuallyIdentify>, a: int, b: int)
    requires
        mi_has(mi, a, b),
    ensures
        reaches(mi, a, b),
{
    let p = seq![a, b];
    assert(is_chain(mi, p));
    assert(p.len() >= 2 && p[0] == a && p[p.len() - 1] == b);
}

/// A chain followed by one more edge is a chain.
pub proof fn lemma_reach_step(mi: Seq<MutuallyIdentify>, a: int, m: int, b: int)
    requires
        reaches(mi, a, m),
        mi_has(mi, m, b),
    ensures
        reaches(mi, a, b),
{
    let p = choose|p: Seq<int>|
        #![trigger is_chain(mi, p)]
        p.len() >= 2 && p[0] == a && p[p.len() - 1] == m && is_chain(mi, p);
    let q = p.push(b);
    assert forall|k: int| 0 <= k < q.len() - 1 implies mi_has(mi, #[trigger] q[k], q[k + 1]) by {
        if k < p.len() - 1 {
            assert(q[k] == p[k] && q[k + 1] == p[k + 1]);
            assert(mi_has(mi, p[k], p[k + 1]));
        } else {
            assert(q[k] == p[p.len() - 1] && q[k + 1] == b);
        }
    }
    assert(is_chain(mi, q));
    assert(q.len() >= 2 && q[0] == a && q[q.len() - 1] == b);
}

/// A relation that contains every mutual edge and is closed under
/// composing one more edge on the right contains both ends of every chain.
proof fn lemma_closed_chain(
    mi: Seq<MutuallyIdentify>,
    sp: Seq<SamePerson>,
    p: Seq<int>,
)
    requires
        forall|l: int, r: int| #[trigger] mi_has(mi, l, r) ==> sp_has(sp, l, r),
        forall|l: int, m: int, r: int|
            #[trigger] sp_has(sp, l, m) && #[trigger] mi_has(mi, m, r) ==> sp_has(sp, l, r),
        p.len() >= 2,
        is_chain(mi, p),
    ensures
        sp_has(sp, p[0], p[p.len() - 1]),
    decreases p.len(),
{
    if p.len() == 2 {
        assert(mi_has(mi, p[0], p[1]));
    } else {
        let q = p.drop_last();
        assert forall|k: int| 0 <= k < q.len() - 1 implies mi_has(
            mi,
            #[trigger] q[k],
            q[k + 1],
        ) by {
            assert(q[k] == p[k] && q[k + 1] == p[k + 1]);
            assert(mi_has(mi, p[k], p[k + 1]));
        }
        assert(is_chain(mi, q));
        lemma_closed_chain(mi, sp, q);
        assert(mi_has(mi, p[p.len() - 2], p[p.len() - 1]));
        assert(sp_has(sp, p[0], p[p.len() - 2]));
    }
}

/// A relation that contains every mutual edge and is closed under
/// composing one more edge on the right contains every reachable pair.
pub proof fn lemma_closed_reach(
    mi: Seq<MutuallyIdentify>,
    sp: Seq<SamePerson>,
    a: int,
    b: int,
)
    requires
        forall|l: int, r: int| #[trigger] mi_has(mi, l, r) ==> sp_has(sp, l, r),
        forall|l: int, m: int, r: int|
            #[trigger] sp_has(sp, l, m) && #[trigger] mi_has(mi, m, r) ==> sp_has(sp, l, r),
        reaches(mi, a, b),
    ensures
        sp_has(sp, a, b),
{
    let p = choose|p: Seq<int>|
        #![trigger is_chain(mi, p)]
        p.len() >= 2 && p[0] == a && p[p.len() - 1] == b && is_chain(mi, p);
    lemma_closed_chain(mi, sp, p);
}

pub(crate) fn sp_has_exec(v: &Vec<SamePerson>, l: usize, r: usize) -> (b: bool)
    ensures
        b == sp_has(v@, l as int, r as int),
{
    let mut k: usize = 0;
    while k < v.len()
        invariant
            k <= v@.len(),
            forall|k2: int|
                0 <= k2 < k ==> !((#[trigger] v@[k2]).left_id == l && v@[k2].right_id == r),
        decreases v@.len() - k,
    {
        if v[k].left_id == l && v[k].right_id == r {
            return true;
        }
        k += 1;
    }
    false
}

/// Compute the transitive closure of the mutual-identification pairs by a
/// worklist: seed it with the edges, then compose each pair in it with one
/// more edge on the right until nothing new appears.
fn transitive_frontier(mi: &Vec<MutuallyIdentify>, peer_count: usize) -> (frontier: Vec<
    SamePerson,
>)
    requires
        forall|k: int|
            0 <= k < mi@.len() ==> (#[trigger] mi@[k]).left_id < peer_count
                && mi@[k].right_id < peer_count,
        forall|k1: int, k2: int|
            0 <= k1 < k2 < mi@.len() ==> !((#[trigger] mi@[k1]).left_id
                == (#[trigger] mi@[k2]).left_id && mi@[k1].right_id == mi@[k2].right_id),
    ensures
        forall|f: int|
            0 <= f < frontier@.len() ==> {
                let row = #[trigger] frontier@[f];
                &&& row.left_id < peer_count
                &&& row.right_id < peer_count
                &&& reaches(mi@, row.left_id as int, row.right_id as int)
            },
        forall|f1: int, f2: int|
            0 <= f1 < f2 < frontier@.len() ==> !((#[trigger] frontier@[f1]).left_id
                == (#[trigger] frontier@[f2]).left_id && frontier@[f1].right_id
                == frontier@[f2].right_id),
        forall|a: int, b: int| #[trigger] reaches(mi@, a, b) ==> sp_has(frontier@, a, b),
{
    let ghost peers_sq = peer_count as int * peer_count as int;
    let mut frontier: Vec<SamePerson> = Vec::new();
    let mut k: usize = 0;
    while k < mi.len()
        invariant
            forall|k2: int|
                0 <= k2 < mi@.len() ==> (#[trigger] mi@[k2]).left_id < peer_count
                    && mi@[k2].right_id < peer_count,
            peers_sq == peer_count as int * peer_count as int,
            k <= mi@.len(),
            forall|f: int|
                0 <= f < frontier@.len() ==> {
                    let row = #[trigger] frontier@[f];
                    &&& row.left_id < peer_count
                    &&& row.right_id < peer_count
                    &&& reaches(mi@, row.left_id as int, row.right_id as int)
                },
            forall|f1: int, f2: int|
                0 <= f1 < f2 < frontier@.len() ==> !((#[trigger] frontier@[f1]).left_id
                    == (#[trigger] frontier@[f2]).left_id && frontier@[f1].right_id
                    == frontier@[f2].right_id),
            forall|k2: int|
                0 <= k2 < k ==> sp_has(
                    frontier@,
                    (#[trigger] mi@[k2]).left_id as int,
                    mi@[k2].right_id as int,
                ),
        decreases mi@.len() - k,
    {
        let row = mi[k];
        if !sp_has_exec(&frontier, row.left_id, row.right_id) {
            proof {
                lemma_reach_edge(mi@, row.left_id as int, row.right_id as int);
                lemma_sp_has_push(
                    frontier@,
                    SamePerson { left_id: row.left_id, right_id: row.right_id },
                );
            }
            frontier.push(SamePerson { left_id: row.left_id, right_id: row.right_id });
            assert(frontier@.last().left_id == row.left_id);
            assert(sp_has(frontier@, row.left_id as int, row.right_id as int));
        }
        k += 1;
    }

    proof {
        lemma_sp_pairs_bound(frontier@, peer_count as int);
    }
    let mut ii: usize = 0;
    while ii < frontier.len()
        invariant
            forall|k2: int|
                0 <= k2 < mi@.len() ==> (#[trigger] mi@[k2]).left_id < peer_count
                    && mi@[k2].right_id < peer_count,
            peers_sq == peer_count as int * peer_count as int,
            frontier@.len() <= peers_sq,
            ii <= frontier@.len(),
            forall|f: int|
                0 <= f < frontier@.len() ==> {
                    let row = #[trigger] frontier@[f];
                    &&& row.left_id < peer_count
                    &&& row.right_id < peer_count
                    &&& reaches(mi@, row.left_id as int, row.right_id as int)
                },
            forall|f1: int, f2: int|
                0 <= f1 < f2 < frontier@.len() ==> !((#[trigger] frontier@[f1]).left_id
                    == (#[trigger] frontier@[f2]).left_id && frontier@[f1].right_id
                    == frontier@[f2].right_id),
            forall|k2: int|
                0 <= k2 < mi@.len() ==> sp_has(
                    frontier@,
                    (#[trigger] mi@[k2]).left_id as int,
                    mi@[k2].right_id as int,
                ),
            forall|i2: int, j2: int|
                0 <= i2 < ii && 0 <= j2 < mi@.len() && (#[trigger] frontier@[i2]).right_id
                    == (#[trigger] mi@[j2]).left_id ==> sp_has(
                    frontier@,
                    frontier@[i2].left_id as int,
                    mi@[j2].right_id as int,
                ),
        decreases peers_sq - frontier@.len(), frontier@.len() - ii,
    {
        let base = frontier[ii];
        let ghost len_at_entry = frontier@.len();
        let mut j: usize = 0;
        while j < mi.len()
            invariant
                forall|k2: int|
                    0 <= k2 < mi@.len() ==> (#[trigger] mi@[k2]).left_id < peer_count
                        && mi@[k2].right_id < peer_count,
                peers_sq == peer_count as int * peer_count as int,
                frontier@.len() <= peers_sq,
                frontier@.len() >= len_at_entry,
                ii < frontier@.len(),
                base == frontier@[ii as int],
                j <= mi@.len(),
                forall|f: int|
                    0 <= f < frontier@.len() ==> {
                        let row = #[trigger] frontier@[f];
                        &&& row.left_id < peer_count
                        &&& row.right_id < peer_count
                        &&& reaches(mi@, row.left_id as int, row.right_id as int)
                    },
                forall|f1: int, f2: int|
                    0 <= f1 < f2 < frontier@.len() ==> !((#[trigger] frontier@[f1]).left_id
                        == (#[trigger] frontier@[f2]).left_id && frontier@[f1].right_id
                        == frontier@[f2].right_id),
                forall|k2: int|
                    0 <= k2 < mi@.len() ==> sp_has(
                        frontier@,
                        (#[trigger] mi@[k2]).left_id as int,
                        mi@[k2].right_id as int,
                    ),
                forall|i2: int, j2: int|
                    0 <= i2 < ii && 0 <= j2 < mi@.len() && (#[trigger] frontier@[i2]).right_id
                        == (#[trigger] mi@[j2]).left_id ==> sp_has(
                        frontier@,
                        frontier@[i2].left_id as int,
                        mi@[j2].right_id as int,
                    ),
                forall|j2: int|
                    0 <= j2 < j && base.right_id == (#[trigger] mi@[j2]).left_id ==> sp_has(
                        frontier@,
                        base.left_id as int,
                        mi@[j2].right_id as int,
                    ),
            decreases peers_sq - frontier@.len(), mi@.len() - j,
        {
            let edge = mi[j];
            if base.right_id == edge.left_id {
                if !sp_has_exec(&frontier, base.left_id, edge.right_id) {
                    proof {
                        assert(mi_has(mi@, base.right_id as int, edge.right_id as int));
                        lemma_reach_step(
                            mi@,
                            base.left_id as int,
                            base.right_id as int,
                            edge.right_id as int,
                        );
                        lemma_sp_has_push(
                            frontier@,
                            SamePerson { left_id: base.left_id, right_id: edge.right_id },
                        );
                    }
                    frontier.push(SamePerson { left_id: base.left_id, right_id: edge.right_id });
                    assert(frontier@.last().left_id == base.left_id);
                    assert(sp_has(frontier@, base.left_id as int, edge.right_id as int));
                    proof {
                        lemma_sp_pairs_bound(frontier@, peer_count as int);
                    }
                }
            }
            j += 1;
        }
        ii += 1;
    }

    proof {
        assert forall|a: int, b: int| #[trigger] reaches(mi@, a, b) implies sp_has(
            frontier@,
            a,
            b,
        ) by {
            assert forall|l: int, r: int| #[trigger] mi_has(mi@, l, r) implies sp_has(
                frontier@,
                l,
                r,
            ) by {
                let k2 = choose|k2: int|
                    0 <= k2 < mi@.len() && (#[trigger] mi@[k2]).left_id as int == l
                        && mi@[k2].right_id as int == r;
                assert(sp_has(frontier@, mi@[k2].left_id as int, mi@[k2].right_id as int));
            }
            assert forall|l: int, m: int, r: int|
                #[trigger] sp_has(frontier@, l, m) && #[trigger] mi_has(mi@, m, r) implies sp_has(
                frontier@,
                l,
                r,
            ) by {
                let i2 = choose|i2: int|
                    0 <= i2 < frontier@.len() && (#[trigger] frontier@[i2]).left_id as int == l
                        && frontier@[i2].right_id as int == m;
                let j2 = choose|j2: int|
                    0 <= j2 < mi@.len() && (#[trigger] mi@[j2]).left_id as int == m
                        && mi@[j2].right_id as int == r;
                assert(sp_has(frontier@, frontier@[i2].left_id as int, mi@[j2].right_id as int));
            }
            lemma_closed_reach(mi@, frontier@, a, b);
        }
    }
    frontier
}

impl Relation for SamePerson {
    /// Identity merging, second step: the transitive closure of the current
    /// mutual-identification pairs, inserted minus the rows already present.
    open spec fn rule_post(pre: Store, post: Store, r: usize) -> bool {
        &&& bases_unchanged(pre, post)
        &&& post.entities@ == pre.entities@
        &&& post.messages@ == pre.messages@
        &&& post.message_bodies@ == pre.message_bodies@
        &&& post.message_authors@ == pre.message_authors@
        &&& post.mutually_identify@ == pre.mutually_identify@
        &&& post.peer_names@ == pre.peer_names@
        &&& pre.same_person@.is_prefix_of(post.same_person@)
        &&& r == post.same_person@.len() - pre.same_person@.len()
        &&& forall|k: int|
            pre.same_person@.len() <= k < post.same_person@.len() ==> reaches(
                pre.mutually_identify@,
                (#[trigger] post.same_person@[k]).left_id as int,
                post.same_person@[k].right_id as int,
            )
        &&& forall|a: int, b: int|
            #[trigger] reaches(pre.mutually_identify@, a, b) ==> sp_has(post.same_person@, a, b)
        &&& (forall|a: int, b: int|
            #[trigger] reaches(pre.mutually_identify@, a, b) ==> sp_has(
                pre.same_person@,
                a,
                b,
            )) ==> (post == pre && r == 0)
    }

    fn run_rules(store: &mut Store) -> (r: usize) {
        let n0 = store.same_person.len();
        let ghost mi0 = store.mutually_identify@;
        let frontier = transitive_frontier(&store.mutually_identify, store.peers.len());

        let mut f: usize = 0;
        while f < frontier.len()
            invariant
                old(store).wf(),
                store.wf(),
                bases_unchanged(*old(store), *store),
                store.entities@ == old(store).entities@,
                store.messages@ == old(store).messages@,
                store.message_bodies@ == old(store).message_bodies@,
                store.message_authors@ == old(store).message_authors@,
                store.mutually_identify@ == old(store).mutually_identify@,
                store.peer_names@ == old(store).peer_names@,
                mi0 == old(store).mutually_identify@,
                old(store).same_person@.is_prefix_of(store.same_person@),
                n0 == old(store).same_person@.len(),
                f <= frontier@.len(),
                forall|f2: int|
                    0 <= f2 < frontier@.len() ==> {
                        let row = #[trigger] frontier@[f2];
                        &&& row.left_id < store.peers@.len()
                        &&& row.right_id < store.peers@.len()
                        &&& reaches(mi0, row.left_id as int, row.right_id as int)
                    },
                forall|a: int, b: int| #[trigger] reaches(mi0, a, b) ==> sp_has(frontier@, a, b),
                forall|k2: int|
                    n0 <= k2 < store.same_person@.len() ==> reaches(
                        mi0,
                        (#[trigger] store.same_person@[k2]).left_id as int,
                        store.same_person@[k2].right_id as int,
                    ),
                forall|f2: int|
                    0 <= f2 < f ==> sp_has(
                        store.same_person@,
                        (#[trigger] frontier@[f2]).left_id as int,
                        frontier@[f2].right_id as int,
                    ),
                (forall|a: int, b: int|
                    #[trigger] reaches(mi0, a, b) ==> sp_has(old(store).same_person@, a, b))
                    ==> *store == *old(store),
            decreases frontier@.len() - f,
        {
            let row = frontier[f];
            if !sp_has_exec(&store.same_person, row.left_id, row.right_id) {
                proof {
                    assert(reaches(mi0, row.left_id as int, row.right_id as int));
                    if forall|a: int, b: int|
                        #[trigger] reaches(mi0, a, b) ==> sp_has(old(store).same_person@, a, b) {
                        assert(sp_has(
                            old(store).same_person@,
                            row.left_id as int,
                            row.right_id as int,
                        ));
                        assert(false);
                    }
                    lemma_sp_has_push(
                        store.same_person@,
                        SamePerson { left_id: row.left_id, right_id: row.right_id },
                    );
                }
                store.same_person.push(SamePerson { left_id: row.left_id, right_id: row.right_id });
                assert(store.same_person@.last().left_id == row.left_id);
                assert(sp_has(store.same_person@, row.left_id as int, row.right_id as int));
                assert(old(store).same_person@ =~= store.same_person@.subrange(0, n0 as int));
            }
            f += 1;
        }
        proof {
            assert forall|a: int, b: int| #[trigger] reaches(mi0, a, b) implies sp_has(
                store.same_person@,
                a,
                b,
            ) by {
                let f2 = choose|f2: int|
                    0 <= f2 < frontier@.len() && (#[trigger] frontier@[f2]).left_id as int == a
                        && frontier@[f2].right_id as int == b;
                assert(sp_has(
                    store.same_person@,
                    frontier@[f2].left_id as int,
                    frontier@[f2].right_id as int,
                ));
            }
        }
        let r = store.same_person.len() - n0;
        r
    }
}

} // verus!
