//! Global laws of the rule engine, stated over the same specifications the
//! public contracts use and proved once and for all.

use vstd::prelude::*;
use crate::model::{SamePerson, Store};
use crate::rules::{edge_pair, mi_has, mutual_edge, mutual_should, owner_of, sp_has};
use crate::closure::{lemma_reach_edge, lemma_reach_step, reaches};
use crate::engine::fixpoint_identity;

verus! {

/// Transitive closure correctness: when the mutual-identification relation
/// holds edges joining `a` to `b` and `b` to `c` - a chain, not a direct
/// edge - the same-person relation at fixpoint joins `a` to `c`.
pub proof fn lemma_same_person_chain(st: Store, a: int, b: int, c: int)
    requires
        fixpoint_identity(st),
        mi_has(st.mutually_identify@, a, b),
        mi_has(st.mutually_identify@, b, c),
    ensures
        sp_has(st.same_person@, a, c),
{
    lemma_reach_edge(st.mutually_identify@, a, b);
    lemma_reach_step(st.mutually_identify@, a, b, c);
    assert(reaches(st.mutually_identify@, a, c));
}

/// Reflexivity: every peer is the same person as itself at fixpoint, even
/// with no identify events at all.
pub proof fn lemma_same_person_reflexive(st: Store, p: int)
    requires
        fixpoint_identity(st),
        0 <= p < st.peers@.len(),
    ensures
        sp_has(st.same_person@, p, p),
{
    assert(mutual_should(st, p, p));
    assert(mi_has(st.mutually_identify@, p, p));
    lemma_reach_edge(st.mutually_identify@, p, p);
}

/// Symmetry of identity merging: two peers whose identify-with assertions
/// name each other appear in the mutual relation in both directions at
/// fixpoint, and hence in the same-person relation in both directions.
pub proof fn lemma_mutual_symmetric(st: Store, a: int, b: int)
    requires
        fixpoint_identity(st),
        mutual_edge(st, a, b),
    ensures
        mi_has(st.mutually_identify@, a, b),
        mi_has(st.mutually_identify@, b, a),
        sp_has(st.same_person@, a, b),
        sp_has(st.same_person@, b, a),
{
    assert(mutual_should(st, a, b));
    let (i, j) = choose|i: int, j: int|
        #[trigger] edge_pair(st, i, j) && owner_of(st, i) == a && owner_of(st, j) == b;
    assert(edge_pair(st, j, i));
    assert(mutual_edge(st, b, a));
    assert(mutual_should(st, b, a));
    lemma_reach_edge(st.mutually_identify@, a, b);
    lemma_reach_edge(st.mutually_identify@, b, a);
}

/// Monotonicity of the derived rows: a same-person table only ever grows,
/// so every pair derived from a shorter event log is still present after
/// the rules run over any longer log.  Together with the rule contracts -
/// each `run_rules` extends its table and never deletes - this is the
/// subset property for every derived relation.
pub proof fn lemma_same_person_monotone(pre: Seq<SamePerson>, post: Seq<SamePerson>)
    requires
        pre.is_prefix_of(post),
    ensures
        forall|l: int, r: int| sp_has(pre, l, r) ==> #[trigger] sp_has(post, l, r),
{
    assert forall|l: int, r: int| sp_has(pre, l, r) implies #[trigger] sp_has(post, l, r) by {
        let k = choose|k: int|
            0 <= k < pre.len() && (#[trigger] pre[k]).left_id as int == l && pre[k].right_id as int
                == r;
        assert(pre[k] == post.subrange(0, pre.len() as int)[k]);
        assert(post[k] == pre[k]);
    }
}

} // verus!
