//! The store's laws, stated over the same views its contracts use.
//! Together with the contracts of `set`, `get`, `remove`, `compact` and
//! `open`, they pin down how the engine behaves across operations.

use vstd::prelude::*;

use crate::kvstore::{open_ok, opened_segs, replay, sort_by_id, KvStore};

verus! {

/// Read-your-writes: once a Set binds `k` to `v` (`set`'s `ensures`
/// makes the mapping `m.insert(k, v)`), a Get of `k` answers `v`
/// (`get`'s `ensures` answers the mapping at `k`), and keeps answering
/// `v` across Sets and Removes of other keys, until `k` itself is
/// written or removed again.
pub proof fn lemma_read_your_writes(
    m: Map<Seq<char>, Seq<char>>,
    k: Seq<char>,
    v: Seq<char>,
    k2: Seq<char>,
    v2: Seq<char>,
)
    requires
        k2 != k,
    ensures
        m.insert(k, v).contains_key(k),
        m.insert(k, v)[k] == v,
        m.insert(k, v).insert(k2, v2)[k] == v,
        m.insert(k, v).remove(k2)[k] == v,
{
}

/// Remove semantics: after a Remove of `k` (`remove`'s `ensures` makes
/// the mapping `m.remove(k)`), a Get of `k` answers nothing, and keeps
/// answering nothing across Sets and Removes of other keys, until a Set
/// binds `k` again. A Remove of an absent key reports
/// `RemoveNonexistKey` and leaves the store unchanged, which `remove`'s
/// `ensures` states directly.
pub proof fn lemma_remove_semantics(
    m: Map<Seq<char>, Seq<char>>,
    k: Seq<char>,
    k2: Seq<char>,
    v2: Seq<char>,
)
    requires
        k2 != k,
    ensures
        !m.remove(k).contains_key(k),
        !m.remove(k).insert(k2, v2).contains_key(k),
        !m.remove(k).remove(k2).contains_key(k),
        m.remove(k).insert(k, v2).contains_key(k),
        m.remove(k).insert(k, v2)[k] == v2,
{
    assert(m.remove(k).remove(k2).dom() =~= m.dom().remove(k).remove(k2));
}

/// Durability: a well-formed store's key directory is exactly what
/// replaying its segment bytes rebuilds, so opening those same bytes
/// again succeeds and yields the same mapping. `open`'s `ensures` ties
/// an opened store to `opened_segs` of its input; this law closes the
/// loop: for a well-formed store the input is already sorted, and any
/// well-formed store over the same segment bytes holds the same
/// mapping.
pub proof fn lemma_durability(s1: KvStore, s2: KvStore)
    requires
        s1.well_formed(),
        s2.well_formed(),
        s2.seg_views() == s1.seg_views(),
    ensures
        open_ok(s1.seg_views(), s1.seg_cap()),
        opened_segs(s1.seg_views()) == s1.seg_views(),
        replay(s1.seg_views()) is Some,
        s2@ == s1@,
{
    KvStore::lemma_well_formed_unfold(s1);
    KvStore::lemma_well_formed_unfold(s2);
    crate::kvstore::lemma_sort_of_sorted(s1.seg_views());
    assert(s2@ =~= s1@);
}

/// Segment cap: no segment of a well-formed store exceeds the segment
/// size cap the store was opened with.
pub proof fn lemma_segment_cap(s: KvStore, i: int)
    requires
        s.well_formed(),
        0 <= i < s.seg_views().len(),
    ensures
        s.seg_views()[i].data.len() <= s.seg_cap(),
{
    KvStore::lemma_well_formed_unfold(s);
}

} // verus!
