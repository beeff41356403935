//! Counting arguments: a table whose rows are distinct under its primary
//! key cannot outgrow the key space.  These bounds give the rule engine its
//! termination measure.

use vstd::prelude::*;
use vstd::set_lib::{lemma_int_range, lemma_len_subset, set_int_range};
use crate::model::{
    Entity, Message, MessageAuthor, MessageBody, MutuallyIdentify, PeerName, SamePerson,
    SendMessageEvent,
};
use crate::rules::has_sme_for;

verus! {

/// A duplicate-free sequence of integers drawn from `[lo, hi)` has at most
/// `hi - lo` elements.
pub proof fn lemma_distinct_bounded_ints(keys: Seq<int>, lo: int, hi: int)
    requires
        lo <= hi,
        keys.no_duplicates(),
        forall|k: int| 0 <= k < keys.len() ==> lo <= #[trigger] keys[k] < hi,
    ensures
        keys.len() <= hi - lo,
{
    keys.unique_seq_to_set();
    assert forall|x: int| keys.to_set().contains(x) implies set_int_range(lo, hi).contains(x) by {
        let i = choose|i: int| 0 <= i < keys.len() && keys[i] == x;
        assert(lo <= keys[i] < hi);
    }
    lemma_int_range(lo, hi);
    lemma_len_subset(keys.to_set(), set_int_range(lo, hi));
}

/// A duplicate-free sequence of integers, each occurring in `vals`, has at
/// most `vals.len()` elements.
pub proof fn lemma_distinct_in_values(keys: Seq<int>, vals: Seq<int>)
    requires
        keys.no_duplicates(),
        forall|k: int| 0 <= k < keys.len() ==> vals.contains(#[trigger] keys[k]),
    ensures
        keys.len() <= vals.len(),
{
    keys.unique_seq_to_set();
    assert forall|x: int| keys.to_set().contains(x) implies vals.to_set().contains(x) by {
        let i = choose|i: int| 0 <= i < keys.len() && keys[i] == x;
        assert(vals.contains(keys[i]));
    }
    vals.lemma_cardinality_of_set();
    lemma_len_subset(keys.to_set(), vals.to_set());
}

/// Encoding a pair into `l * m + r` with `r` below `m` is injective.
proof fn lemma_pair_encoding(l1: int, r1: int, l2: int, r2: int, m: int)
    requires
        l1 >= 0,
        l2 >= 0,
        0 <= r1 < m,
        0 <= r2 < m,
        l1 * m + r1 == l2 * m + r2,
    ensures
        l1 == l2 && r1 == r2,
{
    assert(l1 == l2 && r1 == r2) by (nonlinear_arith)
        requires
            l1 >= 0,
            l2 >= 0,
            0 <= r1 < m,
            0 <= r2 < m,
            l1 * m + r1 == l2 * m + r2,
    ;
}

/// A pair of components below `n` and `m` encodes into `[0, n * m)`.
proof fn lemma_pair_encoding_range(l: int, r: int, n: int, m: int)
    requires
        0 <= l < n,
        0 <= r < m,
    ensures
        0 <= l * m + r < n * m,
{
    assert(0 <= l * m + r < n * m) by (nonlinear_arith)
        requires
            0 <= l < n,
            0 <= r < m,
    ;
}

/// A same-person table with duplicate-free pairs over `n` peers has at most
/// `n * n` rows.
pub proof fn lemma_sp_pairs_bound(s: Seq<SamePerson>, n: int)
    requires
        n >= 0,
        forall|k: int|
            0 <= k < s.len() ==> (#[trigger] s[k]).left_id < n && s[k].right_id < n,
        forall|k1: int, k2: int|
            0 <= k1 < k2 < s.len() ==> !((#[trigger] s[k1]).left_id == (#[trigger] s[k2]).left_id
                && s[k1].right_id == s[k2].right_id),
    ensures
        s.len() <= n * n,
{
    let enc = |row: SamePerson| row.left_id as int * n + row.right_id as int;
    let keys = s.map_values(enc);
    assert(keys.len() == s.len());
    assert forall|k1: int, k2: int| 0 <= k1 < k2 < keys.len() implies keys[k1] != keys[k2] by {
        if keys[k1] == keys[k2] {
            lemma_pair_encoding(
                s[k1].left_id as int,
                s[k1].right_id as int,
                s[k2].left_id as int,
                s[k2].right_id as int,
                n,
            );
        }
    }
    assert(keys.no_duplicates()) by {
        assert forall|k1: int, k2: int|
            0 <= k1 < keys.len() && 0 <= k2 < keys.len() && k1 != k2 implies keys[k1]
            != keys[k2] by {
            if k1 < k2 {
                assert(keys[k1] != keys[k2]);
            } else {
                assert(keys[k2] != keys[k1]);
            }
        }
    }
    assert forall|k: int| 0 <= k < keys.len() implies 0 <= #[trigger] keys[k] < n * n by {
        lemma_pair_encoding_range(s[k].left_id as int, s[k].right_id as int, n, n);
    }
    lemma_distinct_bounded_ints(keys, 0, n * n);
}

/// A mutual-identification table with duplicate-free pairs over `n` peers
/// has at most `n * n` rows.
pub proof fn lemma_mi_pairs_bound(s: Seq<MutuallyIdentify>, n: int)
    requires
        n >= 0,
        forall|k: int|
            0 <= k < s.len() ==> (#[trigger] s[k]).left_id < n && s[k].right_id < n,
        forall|k1: int, k2: int|
            0 <= k1 < k2 < s.len() ==> !((#[trigger] s[k1]).left_id == (#[trigger] s[k2]).left_id
                && s[k1].right_id == s[k2].right_id),
    ensures
        s.len() <= n * n,
{
    let enc = |row: MutuallyIdentify| row.left_id as int * n + row.right_id as int;
    let keys = s.map_values(enc);
    assert(keys.len() == s.len());
    assert forall|k1: int, k2: int| 0 <= k1 < k2 < keys.len() implies keys[k1] != keys[k2] by {
        if keys[k1] == keys[k2] {
            lemma_pair_encoding(
                s[k1].left_id as int,
                s[k1].right_id as int,
                s[k2].left_id as int,
                s[k2].right_id as int,
                n,
            );
        }
    }
    assert(keys.no_duplicates()) by {
        assert forall|k1: int, k2: int|
            0 <= k1 < keys.len() && 0 <= k2 < keys.len() && k1 != k2 implies keys[k1]
            != keys[k2] by {
            if k1 < k2 {
                assert(keys[k1] != keys[k2]);
            } else {
                assert(keys[k2] != keys[k1]);
            }
        }
    }
    assert forall|k: int| 0 <= k < keys.len() implies 0 <= #[trigger] keys[k] < n * n by {
        lemma_pair_encoding_range(s[k].left_id as int, s[k].right_id as int, n, n);
    }
    lemma_distinct_bounded_ints(keys, 0, n * n);
}

/// A message table with duplicate-free entity keys below `n` has at most
/// `n` rows.
pub proof fn lemma_messages_bound(s: Seq<Message>, n: int)
    requires
        n >= 0,
        forall|k: int| 0 <= k < s.len() ==> (#[trigger] s[k]).entity_id < n,
        forall|k1: int, k2: int|
            0 <= k1 < k2 < s.len() ==> (#[trigger] s[k1]).entity_id
                != (#[trigger] s[k2]).entity_id,
    ensures
        s.len() <= n,
{
    let keys = s.map_values(|row: Message| row.entity_id as int);
    assert(keys.len() == s.len());
    assert(keys.no_duplicates()) by {
        assert forall|k1: int, k2: int|
            0 <= k1 < keys.len() && 0 <= k2 < keys.len() && k1 != k2 implies keys[k1]
            != keys[k2] by {
            if k1 < k2 {
                assert(s[k1].entity_id != s[k2].entity_id);
            } else {
                assert(s[k2].entity_id != s[k1].entity_id);
            }
        }
    }
    assert(forall|k: int| 0 <= k < keys.len() ==> 0 <= #[trigger] keys[k] < n);
    lemma_distinct_bounded_ints(keys, 0, n);
}

/// An author table with duplicate-free entity keys below `n` has at most
/// `n` rows.
pub proof fn lemma_authors_bound(s: Seq<MessageAuthor>, n: int)
    requires
        n >= 0,
        forall|k: int| 0 <= k < s.len() ==> (#[trigger] s[k]).entity_id < n,
        forall|k1: int, k2: int|
            0 <= k1 < k2 < s.len() ==> (#[trigger] s[k1]).entity_id
                != (#[trigger] s[k2]).entity_id,
    ensures
        s.len() <= n,
{
    let keys = s.map_values(|row: MessageAuthor| row.entity_id as int);
    assert(keys.len() == s.len());
    assert(keys.no_duplicates()) by {
        assert forall|k1: int, k2: int|
            0 <= k1 < keys.len() && 0 <= k2 < keys.len() && k1 != k2 implies keys[k1]
            != keys[k2] by {
            if k1 < k2 {
                assert(s[k1].entity_id != s[k2].entity_id);
            } else {
                assert(s[k2].entity_id != s[k1].entity_id);
            }
        }
    }
    assert(forall|k: int| 0 <= k < keys.len() ==> 0 <= #[trigger] keys[k] < n);
    lemma_distinct_bounded_ints(keys, 0, n);
}

/// A body table with duplicate-free `(entity, event)` keys below `n` and
/// `m` has at most `n * m` rows.
pub proof fn lemma_bodies_bound(s: Seq<MessageBody>, n: int, m: int)
    requires
        n >= 0,
        m >= 0,
        forall|k: int|
            0 <= k < s.len() ==> (#[trigger] s[k]).entity_id < n && s[k].asserted_at < m,
        forall|k1: int, k2: int|
            0 <= k1 < k2 < s.len() ==> !((#[trigger] s[k1]).entity_id
                == (#[trigger] s[k2]).entity_id && s[k1].asserted_at == s[k2].asserted_at),
    ensures
        s.len() <= n * m,
{
    let keys = s.map_values(|row: MessageBody| row.entity_id as int * m + row.asserted_at as int);
    assert(keys.len() == s.len());
    assert forall|k1: int, k2: int| 0 <= k1 < k2 < keys.len() implies keys[k1] != keys[k2] by {
        if keys[k1] == keys[k2] {
            lemma_pair_encoding(
                s[k1].entity_id as int,
                s[k1].asserted_at as int,
                s[k2].entity_id as int,
                s[k2].asserted_at as int,
                m,
            );
        }
    }
    assert(keys.no_duplicates()) by {
        assert forall|k1: int, k2: int|
            0 <= k1 < keys.len() && 0 <= k2 < keys.len() && k1 != k2 implies keys[k1]
            != keys[k2] by {
            if k1 < k2 {
                assert(keys[k1] != keys[k2]);
            } else {
                assert(keys[k2] != keys[k1]);
            }
        }
    }
    assert forall|k: int| 0 <= k < keys.len() implies 0 <= #[trigger] keys[k] < n * m by {
        lemma_pair_encoding_range(s[k].entity_id as int, s[k].asserted_at as int, n, m);
    }
    lemma_distinct_bounded_ints(keys, 0, n * m);
}

/// A name table with duplicate-free `(peer, event)` keys below `n` and `m`
/// has at most `n * m` rows.
pub proof fn lemma_names_bound(s: Seq<PeerName>, n: int, m: int)
    requires
        n >= 0,
        m >= 0,
        forall|k: int| 0 <= k < s.len() ==> (#[trigger] s[k]).peer_id < n && s[k].asserted_at < m,
        forall|k1: int, k2: int|
            0 <= k1 < k2 < s.len() ==> !((#[trigger] s[k1]).peer_id == (#[trigger] s[k2]).peer_id
                && s[k1].asserted_at == s[k2].asserted_at),
    ensures
        s.len() <= n * m,
{
    let keys = s.map_values(|row: PeerName| row.peer_id as int * m + row.asserted_at as int);
    assert(keys.len() == s.len());
    assert forall|k1: int, k2: int| 0 <= k1 < k2 < keys.len() implies keys[k1] != keys[k2] by {
        if keys[k1] == keys[k2] {
            lemma_pair_encoding(
                s[k1].peer_id as int,
                s[k1].asserted_at as int,
                s[k2].peer_id as int,
                s[k2].asserted_at as int,
                m,
            );
        }
    }
    assert(keys.no_duplicates()) by {
        assert forall|k1: int, k2: int|
            0 <= k1 < keys.len() && 0 <= k2 < keys.len() && k1 != k2 implies keys[k1]
            != keys[k2] by {
            if k1 < k2 {
                assert(keys[k1] != keys[k2]);
            } else {
                assert(keys[k2] != keys[k1]);
            }
        }
    }
    assert forall|k: int| 0 <= k < keys.len() implies 0 <= #[trigger] keys[k] < n * m by {
        lemma_pair_encoding_range(s[k].peer_id as int, s[k].asserted_at as int, n, m);
    }
    lemma_distinct_bounded_ints(keys, 0, n * m);
}

/// Entities beyond index `e0` were materialized by the rule engine: their
/// introducing events are pairwise distinct send-message events, so there
/// are at most as many of them as send-message payloads.
pub proof fn lemma_entities_bound(
    entities: Seq<Entity>,
    smes: Seq<SendMessageEvent>,
    e0: int,
)
    requires
        0 <= e0 <= entities.len(),
        forall|k: int|
            e0 <= k < entities.len() ==> has_sme_for(
                smes,
                (#[trigger] entities[k]).introduced_at as int,
            ),
        forall|k: int, k2: int|
            e0 <= k < entities.len() && 0 <= k2 < k ==> (#[trigger] entities[k2]).introduced_at
                != (#[trigger] entities[k]).introduced_at,
    ensures
        entities.len() <= e0 + smes.len(),
{
    let tail = entities.skip(e0);
    let keys = tail.map_values(|e: Entity| e.introduced_at as int);
    assert(keys.len() == entities.len() - e0);
    assert(keys.no_duplicates()) by {
        assert forall|k1: int, k2: int|
            0 <= k1 < keys.len() && 0 <= k2 < keys.len() && k1 != k2 implies keys[k1]
            != keys[k2] by {
            assert(tail[k1] == entities[e0 + k1]);
            assert(tail[k2] == entities[e0 + k2]);
            if k1 < k2 {
                assert(entities[e0 + k1].introduced_at != entities[e0 + k2].introduced_at);
            } else {
                assert(entities[e0 + k2].introduced_at != entities[e0 + k1].introduced_at);
            }
        }
    }
    let vals = smes.map_values(|s: SendMessageEvent| s.asserted_at as int);
    assert forall|k: int| 0 <= k < keys.len() implies vals.contains(#[trigger] keys[k]) by {
        assert(tail[k] == entities[e0 + k]);
        assert(has_sme_for(smes, entities[e0 + k].introduced_at as int));
        let j = choose|j: int|
            0 <= j < smes.len() && (#[trigger] smes[j]).asserted_at as int
                == entities[e0 + k].introduced_at as int;
        assert(vals[j] == keys[k]);
    }
    lemma_distinct_in_values(keys, vals);
}

/// Prefixes compose.
pub proof fn lemma_prefix_trans<A>(a: Seq<A>, b: Seq<A>, c: Seq<A>)
    requires
        a.is_prefix_of(b),
        b.is_prefix_of(c),
    ensures
        a.is_prefix_of(c),
{
    assert forall|i: int| 0 <= i < a.len() implies a[i] == #[trigger] c.subrange(
        0,
        a.len() as int,
    )[i] by {
        assert(a[i] == b.subrange(0, a.len() as int)[i]);
        assert(b[i] == c.subrange(0, b.len() as int)[i]);
    }
    assert(a =~= c.subrange(0, a.len() as int));
}

} // verus!
