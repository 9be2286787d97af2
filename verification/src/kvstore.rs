//! The log-structured storage engine: bounded append-only segments, an
//! in-memory key directory rebuilt by replay, and online compaction.
//!
//! The engine state models the data directory: each `SegmentFile` holds
//! the bytes of one `<id>.dat` file. Callers that persist the store to
//! real files read the segments out and apply the queued disk actions;
//! the engine itself never touches the file system.

use vstd::hash_map::StringHashMap;
use vstd::prelude::*;

use crate::codec::str_eq;
use crate::error::Error;
use crate::record::{dec_rec, enc_rec, lemma_dec_enc_rec, lemma_dec_rec_bytes,
    lemma_dec_rec_consumed, lemma_dec_rec_prefix, lemma_rec_seq_append, decode_record,
    encode_put, encode_rm, rec_fits, rec_seq, rec_seq_from, Record, RecV};

verus! {

/// The segment size cap for production use.
pub const MAX_SEGMENT_BYTES: usize = 0x100_0000;

/// The useless-bytes threshold that triggers compaction in production.
pub const COMPACT_THRESHOLD: u64 = 0x20_0000;

/// A small segment size cap, so that tests exercise roll-over.
pub const TEST_MAX_SEGMENT_BYTES: usize = 0x1000;

/// A small compaction threshold, so that tests exercise compaction.
pub const TEST_COMPACT_THRESHOLD: u64 = 0x2000;

/// Where the live record of a key sits: its segment, byte offset and
/// encoded length.
#[derive(Clone, Copy, Debug, PartialEq, Eq, Structural)]
pub struct Meta {
    /// The id of the segment holding the record.
    pub file_id: u64,
    /// The byte offset of the record in that segment.
    pub offset: usize,
    /// The encoded length of the record.
    pub len: usize,
}

/// The contents of one segment file `<id>.dat`.
#[derive(Debug)]
pub struct SegmentFile {
    /// The integer the file is named after.
    pub id: u64,
    /// The file's bytes.
    pub data: Vec<u8>,
}

/// The mathematical shape of a segment file.
pub struct SegV {
    pub id: u64,
    pub data: Seq<u8>,
}

impl View for SegmentFile {
    type V = SegV;

    open spec fn view(&self) -> SegV {
        SegV { id: self.id, data: self.data@ }
    }
}

/// The views of a run of segment files.
pub open spec fn segs_view(segs: Seq<SegmentFile>) -> Seq<SegV> {
    Seq::new(segs.len(), |i: int| segs[i]@)
}

/// One record's effect on the key directory: a Set binds the key to the
/// record's placement, a Remove drops the key.
pub open spec fn apply_item(m: Map<Seq<char>, Meta>, id: u64, item: (RecV, int, int)) -> Map<
    Seq<char>,
    Meta,
> {
    match item.0 {
        RecV::Put(k, _v) => m.insert(
            k,
            Meta { file_id: id, offset: item.1 as usize, len: item.2 as usize },
        ),
        RecV::Rm(k) => m.remove(k),
    }
}

/// The effect of a run of records from one segment, in order.
pub open spec fn apply_items(
    m: Map<Seq<char>, Meta>,
    id: u64,
    items: Seq<(RecV, int, int)>,
) -> Map<Seq<char>, Meta>
    decreases items.len(),
{
    if items.len() == 0 {
        m
    } else {
        apply_item(apply_items(m, id, items.drop_last()), id, items.last())
    }
}

/// The key directory that replaying the segments in order rebuilds, or
/// `None` when some segment does not parse.
pub open spec fn replay(segs: Seq<SegV>) -> Option<Map<Seq<char>, Meta>>
    decreases segs.len(),
{
    if segs.len() == 0 {
        Some(Map::empty())
    } else {
        match replay(segs.drop_last()) {
            Some(m) => match rec_seq(segs.last().data) {
                Some(items) => Some(apply_items(m, segs.last().id, items)),
                None => None,
            },
            None => None,
        }
    }
}

/// The position of the segment named `id`, or -1 if there is none.
pub open spec fn seg_index(segs: Seq<SegV>, id: u64) -> int
    decreases segs.len(),
{
    if segs.len() == 0 {
        -1
    } else if segs.last().id == id {
        segs.len() - 1
    } else {
        seg_index(segs.drop_last(), id)
    }
}

/// Whether `m` points at a well-formed Set record for key `k`: the
/// referenced segment exists and the referenced byte range decodes to
/// exactly one Set record for `k`.
pub open spec fn placement_ok(segs: Seq<SegV>, k: Seq<char>, m: Meta) -> bool {
    let i = seg_index(segs, m.file_id);
    &&& 0 <= i < segs.len()
    &&& m.offset + m.len <= segs[i].data.len()
    &&& match dec_rec(segs[i].data.skip(m.offset as int)) {
        Ok((r, n)) => n == m.len && match r {
            RecV::Put(k2, _v) => k2 == k,
            RecV::Rm(_) => false,
        },
        Err(_) => false,
    }
}

/// The value of the Set record a placement points at.
pub open spec fn value_at(segs: Seq<SegV>, m: Meta) -> Seq<char> {
    let i = seg_index(segs, m.file_id);
    match dec_rec(segs[i].data.skip(m.offset as int)) {
        Ok((r, _n)) => match r {
            RecV::Put(_k, v) => v,
            RecV::Rm(_) => Seq::empty(),
        },
        Err(_) => Seq::empty(),
    }
}

/// The structural health of a run of segments: at least one, ids
/// strictly ascending, each within the size cap, and all parseable.
pub open spec fn seg_inv(segs: Seq<SegV>, max: usize) -> bool {
    &&& segs.len() >= 1
    &&& forall|i: int, j: int| 0 <= i < j < segs.len() ==> segs[i].id < segs[j].id
    &&& forall|i: int| 0 <= i < segs.len() ==> (#[trigger] segs[i].data).len() <= max
    &&& replay(segs) is Some
}

proof fn lemma_seg_index_in_range(segs: Seq<SegV>, id: u64)
    ensures
        -1 <= seg_index(segs, id) < segs.len(),
        seg_index(segs, id) >= 0 ==> segs[seg_index(segs, id)].id == id,
    decreases segs.len(),
{
    if segs.len() > 0 && segs.last().id != id {
        lemma_seg_index_in_range(segs.drop_last(), id);
    }
}

/// With some segment carrying `id`, `seg_index` finds it; distinct ids
/// make the position unique.
proof fn lemma_seg_index_finds(segs: Seq<SegV>, i: int)
    requires
        0 <= i < segs.len(),
        forall|a: int, b: int| 0 <= a < b < segs.len() ==> segs[a].id < segs[b].id,
    ensures
        seg_index(segs, segs[i].id) == i,
    decreases segs.len(),
{
    if i == segs.len() - 1 {
    } else {
        assert(segs.last().id != segs[i].id);
        lemma_seg_index_finds(segs.drop_last(), i);
    }
}

proof fn lemma_seg_index_push_other(segs: Seq<SegV>, x: SegV, id: u64)
    requires
        x.id != id,
    ensures
        seg_index(segs.push(x), id) == seg_index(segs, id),
{
    assert(segs.push(x).drop_last() =~= segs);
}

proof fn lemma_seg_index_update(segs: Seq<SegV>, li: int, nseg: SegV, id: u64)
    requires
        0 <= li < segs.len(),
        segs[li].id == nseg.id,
    ensures
        seg_index(segs.update(li, nseg), id) == seg_index(segs, id),
    decreases segs.len(),
{
    let s2 = segs.update(li, nseg);
    if li == segs.len() - 1 {
        assert(s2.last().id == segs.last().id);
        if segs.last().id != id {
            assert(s2.drop_last() =~= segs.drop_last());
        }
    } else {
        assert(s2.last() == segs.last());
        if segs.last().id != id {
            assert(s2.drop_last() =~= segs.drop_last().update(li, nseg));
            lemma_seg_index_update(segs.drop_last(), li, nseg, id);
        }
    }
}

/// Appending bytes to the last segment disturbs no existing placement.
proof fn lemma_placement_update_last(segs: Seq<SegV>, e: Seq<u8>, k: Seq<char>, m: Meta)
    requires
        segs.len() >= 1,
        placement_ok(segs, k, m),
    ensures
        placement_ok(
            segs.update(
                segs.len() - 1,
                SegV { id: segs.last().id, data: segs.last().data + e },
            ),
            k,
            m,
        ),
        value_at(
            segs.update(
                segs.len() - 1,
                SegV { id: segs.last().id, data: segs.last().data + e },
            ),
            m,
        ) == value_at(segs, m),
{
    let li = segs.len() - 1;
    let nseg = SegV { id: segs.last().id, data: segs.last().data + e };
    let s2 = segs.update(li, nseg);
    lemma_seg_index_update(segs, li, nseg, m.file_id);
    let i = seg_index(segs, m.file_id);
    lemma_seg_index_in_range(segs, m.file_id);
    if i == li {
        let old_suffix = segs[i].data.skip(m.offset as int);
        let new_suffix = s2[i].data.skip(m.offset as int);
        lemma_dec_rec_consumed(old_suffix);
        let n = dec_rec(old_suffix)->Ok_0.1;
        assert(new_suffix.subrange(0, n) =~= old_suffix.subrange(0, n));
        lemma_dec_rec_prefix(old_suffix, new_suffix);
    } else {
        assert(s2[i] == segs[i]);
    }
}

/// Adding a fresh segment (with a new id) disturbs no existing placement.
proof fn lemma_placement_push(segs: Seq<SegV>, x: SegV, k: Seq<char>, m: Meta)
    requires
        placement_ok(segs, k, m),
        x.id != m.file_id,
    ensures
        placement_ok(segs.push(x), k, m),
        value_at(segs.push(x), m) == value_at(segs, m),
{
    lemma_seg_index_push_other(segs, x, m.file_id);
    let i = seg_index(segs, m.file_id);
    assert(segs.push(x)[i] == segs[i]);
}

/// Replay of segments extended by a fresh segment.
proof fn lemma_replay_push(segs: Seq<SegV>, x: SegV)
    requires
        replay(segs) is Some,
        rec_seq(x.data) is Some,
    ensures
        replay(segs.push(x)) == Some(
            apply_items(replay(segs)->0, x.id, rec_seq(x.data)->0),
        ),
{
    assert(segs.push(x).drop_last() =~= segs);
    assert(segs.push(x).last() == x);
}

/// Replay of segments whose last segment grew by one record.
proof fn lemma_replay_update_last_append(segs: Seq<SegV>, e: Seq<u8>, r: RecV)
    requires
        segs.len() >= 1,
        replay(segs) is Some,
        dec_rec(e) == Ok::<_, crate::error::DecodeKind>((r, e.len() as int)),
    ensures
        replay(
            segs.update(
                segs.len() - 1,
                SegV { id: segs.last().id, data: segs.last().data + e },
            ),
        ) == Some(
            apply_item(
                replay(segs)->0,
                segs.last().id,
                (r, segs.last().data.len() as int, e.len() as int),
            ),
        ),
{
    let li = segs.len() - 1;
    let nseg = SegV { id: segs.last().id, data: segs.last().data + e };
    let s2 = segs.update(li, nseg);
    assert(s2.drop_last() =~= segs.drop_last());
    assert(s2.last() == nseg);
    let items = rec_seq(segs.last().data)->0;
    lemma_rec_seq_append(segs.last().data, e, r);
    let item = (r, segs.last().data.len() as int, e.len() as int);
    let pushed = items.push(item);
    assert(pushed.drop_last() =~= items);
    assert(pushed.last() == item);
    assert(apply_items(replay(segs.drop_last())->0, nseg.id, pushed) == apply_item(
        apply_items(replay(segs.drop_last())->0, nseg.id, items),
        nseg.id,
        item,
    ));
}

/// One step a caller must mirror onto the real data directory to keep
/// it in line with the modeled segments.
#[derive(Debug)]
pub enum DiskAction {
    /// Create the empty segment file `<id>.dat`.
    Create(u64),
    /// Append these bytes to segment file `<id>.dat`.
    Append(u64, Vec<u8>),
    /// Delete segment file `<id>.dat`.
    Delete(u64),
}

/// The data directory a run of segments stands for: a map from file id
/// to file bytes.
pub open spec fn disk_of(segs: Seq<SegV>) -> Map<u64, Seq<u8>>
    decreases segs.len(),
{
    if segs.len() == 0 {
        Map::empty()
    } else {
        disk_of(segs.drop_last()).insert(segs.last().id, segs.last().data)
    }
}

/// One disk action's effect on a directory.
pub open spec fn apply_action(d: Map<u64, Seq<u8>>, a: DiskAction) -> Map<u64, Seq<u8>> {
    match a {
        DiskAction::Create(id) => d.insert(id, Seq::empty()),
        DiskAction::Append(id, bytes) => d.insert(
            id,
            if d.contains_key(id) {
                d[id] + bytes@
            } else {
                bytes@
            },
        ),
        DiskAction::Delete(id) => d.remove(id),
    }
}

/// The effect of a run of disk actions, applied in order.
pub open spec fn apply_actions(d: Map<u64, Seq<u8>>, acts: Seq<DiskAction>) -> Map<u64, Seq<u8>>
    decreases acts.len(),
{
    if acts.len() == 0 {
        d
    } else {
        apply_action(apply_actions(d, acts.drop_last()), acts.last())
    }
}

/// The id a disk action touches.
pub open spec fn action_id(a: DiskAction) -> u64 {
    match a {
        DiskAction::Create(id) => id,
        DiskAction::Append(id, _bytes) => id,
        DiskAction::Delete(id) => id,
    }
}

proof fn lemma_apply_actions_concat(d: Map<u64, Seq<u8>>, a: Seq<DiskAction>, b: Seq<DiskAction>)
    ensures
        apply_actions(d, a + b) == apply_actions(apply_actions(d, a), b),
    decreases b.len(),
{
    if b.len() == 0 {
        assert(a + b =~= a);
    } else {
        lemma_apply_actions_concat(d, a, b.drop_last());
        assert((a + b).drop_last() =~= a + b.drop_last());
        assert((a + b).last() == b.last());
    }
}

/// Actions that touch only ids outside `d` act independently of `d`.
proof fn lemma_apply_actions_disjoint(d: Map<u64, Seq<u8>>, acts: Seq<DiskAction>)
    requires
        forall|i: int| 0 <= i < acts.len() ==> !d.contains_key(action_id(#[trigger] acts[i])),
    ensures
        apply_actions(d, acts) == d.union_prefer_right(
            apply_actions(Map::<u64, Seq<u8>>::empty(), acts),
        ),
    decreases acts.len(),
{
    let e = apply_actions(Map::<u64, Seq<u8>>::empty(), acts);
    if acts.len() == 0 {
        assert(apply_actions(d, acts) =~= d.union_prefer_right(e));
    } else {
        let front = acts.drop_last();
        let a = acts.last();
        lemma_apply_actions_disjoint(d, front);
        let e0 = apply_actions(Map::<u64, Seq<u8>>::empty(), front);
        assert(!d.contains_key(action_id(a)));
        match a {
            DiskAction::Create(id) => {
                assert(apply_actions(d, acts) =~= d.union_prefer_right(e));
            },
            DiskAction::Append(id, bytes) => {
                assert(d.union_prefer_right(e0).contains_key(id) == e0.contains_key(id));
                if e0.contains_key(id) {
                    assert(d.union_prefer_right(e0)[id] == e0[id]);
                }
                assert(apply_actions(d, acts) =~= d.union_prefer_right(e));
            },
            DiskAction::Delete(id) => {
                assert(apply_actions(d, acts) =~= d.union_prefer_right(e));
            },
        }
    }
}

/// The directory of a run of segments holds exactly their ids.
proof fn lemma_disk_of_dom(segs: Seq<SegV>, id: u64)
    ensures
        disk_of(segs).contains_key(id) == exists|i: int|
            0 <= i < segs.len() && segs[i].id == id,
    decreases segs.len(),
{
    if segs.len() > 0 {
        lemma_disk_of_dom(segs.drop_last(), id);
        if disk_of(segs).contains_key(id) {
            if segs.last().id != id {
                let i = choose|i: int| 0 <= i < segs.len() - 1 && segs.drop_last()[i].id == id;
                assert(segs[i].id == id);
            }
        }
        if exists|i: int| 0 <= i < segs.len() && segs[i].id == id {
            let i = choose|i: int| 0 <= i < segs.len() && segs[i].id == id;
            if i < segs.len() - 1 {
                assert(segs.drop_last()[i].id == id);
            }
        }
    }
}

/// Peeling a unique-id directory from the front.
proof fn lemma_disk_of_front(segs: Seq<SegV>)
    requires
        segs.len() >= 1,
        forall|a: int, b: int| 0 <= a < b < segs.len() ==> segs[a].id != segs[b].id,
    ensures
        disk_of(segs).remove(segs[0].id) == disk_of(segs.skip(1)),
        disk_of(segs).contains_key(segs[0].id),
    decreases segs.len(),
{
    lemma_disk_of_dom(segs, segs[0].id);
    assert(disk_of(Seq::<SegV>::empty()) == Map::<u64, Seq<u8>>::empty());
    if segs.len() == 1 {
        assert(segs.skip(1) =~= Seq::<SegV>::empty());
        assert(segs.drop_last() =~= Seq::<SegV>::empty());
        assert(disk_of(segs) == disk_of(segs.drop_last()).insert(segs[0].id, segs[0].data));
        assert(disk_of(segs).remove(segs[0].id) =~= disk_of(segs.skip(1)));
    } else {
        assert(segs.drop_last()[0] == segs[0]);
        lemma_disk_of_front(segs.drop_last());
        assert(segs.drop_last().skip(1) =~= segs.skip(1).drop_last());
        assert(segs.skip(1).last() == segs.last());
        assert(segs.last().id != segs[0].id);
        assert(disk_of(segs).remove(segs[0].id) =~= disk_of(segs.skip(1)));
    }
}

/// The deletion actions for a run of segments, in order.
pub open spec fn del_seq(segs: Seq<SegV>) -> Seq<DiskAction> {
    Seq::new(segs.len(), |i: int| DiskAction::Delete(segs[i].id))
}

/// Deleting every segment of a directory leaves only what else was
/// stored beside them.
proof fn lemma_delete_all(segs: Seq<SegV>, extra: Map<u64, Seq<u8>>)
    requires
        forall|a: int, b: int| 0 <= a < b < segs.len() ==> segs[a].id != segs[b].id,
        forall|i: int| 0 <= i < segs.len() ==> !extra.contains_key((#[trigger] segs[i]).id),
    ensures
        apply_actions(disk_of(segs).union_prefer_right(extra), del_seq(segs)) == extra,
    decreases segs.len(),
{
    if segs.len() == 0 {
        assert(del_seq(segs) =~= Seq::<DiskAction>::empty());
        assert(disk_of(segs).union_prefer_right(extra) =~= extra);
    } else {
        let id0 = segs[0].id;
        let d = disk_of(segs).union_prefer_right(extra);
        let dels = del_seq(segs);
        let rest = del_seq(segs.skip(1));
        assert(dels =~= seq![DiskAction::Delete(id0)] + rest);
        lemma_apply_actions_concat(d, seq![DiskAction::Delete(id0)], rest);
        assert(seq![DiskAction::Delete(id0)].drop_last() =~= Seq::<DiskAction>::empty());
        assert(apply_actions(d, Seq::<DiskAction>::empty()) == d);
        assert(apply_actions(d, seq![DiskAction::Delete(id0)]) == d.remove(id0));
        lemma_disk_of_front(segs);
        assert(!extra.contains_key(id0));
        assert(d.remove(id0) =~= disk_of(segs.skip(1)).union_prefer_right(extra));
        assert forall|a: int, b: int|
            0 <= a < b < segs.skip(1).len() implies segs.skip(1)[a].id != segs.skip(
            1,
        )[b].id by {
            assert(segs.skip(1)[a] == segs[a + 1] && segs.skip(1)[b] == segs[b + 1]);
        }
        assert forall|i: int|
            0 <= i < segs.skip(1).len() implies !extra.contains_key(
            (#[trigger] segs.skip(1)[i]).id,
        ) by {
            assert(segs.skip(1)[i] == segs[i + 1]);
        }
        lemma_delete_all(segs.skip(1), extra);
    }
}

/// Inserting one segment into a run sorted by id, keeping the order.
pub open spec fn insert_sorted(s: Seq<SegV>, x: SegV) -> Seq<SegV>
    decreases s.len(),
{
    if s.len() == 0 {
        seq![x]
    } else if s.last().id <= x.id {
        s.push(x)
    } else {
        insert_sorted(s.drop_last(), x).push(s.last())
    }
}

/// The segments ordered by ascending id (insertion sort; stable).
pub open spec fn sort_by_id(s: Seq<SegV>) -> Seq<SegV>
    decreases s.len(),
{
    if s.len() == 0 {
        Seq::empty()
    } else {
        insert_sorted(sort_by_id(s.drop_last()), s.last())
    }
}

/// Non-strict ascending order by id.
pub open spec fn sorted_by_id(s: Seq<SegV>) -> bool {
    forall|i: int, j: int| 0 <= i < j < s.len() ==> s[i].id <= s[j].id
}

proof fn lemma_insert_sorted_split(s: Seq<SegV>, x: SegV, at: int)
    requires
        0 <= at <= s.len(),
        forall|t: int| at <= t < s.len() ==> s[t].id > x.id,
        at > 0 ==> s[at - 1].id <= x.id,
    ensures
        insert_sorted(s, x) == s.subrange(0, at) + seq![x] + s.subrange(at, s.len() as int),
    decreases s.len(),
{
    if s.len() == 0 {
        assert(insert_sorted(s, x) =~= s.subrange(0, at) + seq![x] + s.subrange(
            at,
            s.len() as int,
        ));
    } else if at == s.len() {
        assert(s.last().id <= x.id);
        assert(insert_sorted(s, x) =~= s.subrange(0, at) + seq![x] + s.subrange(
            at,
            s.len() as int,
        ));
    } else {
        assert(s.last().id > x.id);
        lemma_insert_sorted_split(s.drop_last(), x, at);
        assert(s.drop_last().subrange(0, at) =~= s.subrange(0, at));
        assert(s.drop_last().subrange(at, s.len() - 1) =~= s.subrange(at, s.len() - 1));
        assert(insert_sorted(s, x) =~= s.subrange(0, at) + seq![x] + s.subrange(
            at,
            s.len() as int,
        ));
    }
}

proof fn lemma_insert_sorted_sorted(s: Seq<SegV>, x: SegV)
    requires
        sorted_by_id(s),
    ensures
        sorted_by_id(insert_sorted(s, x)),
    decreases s.len(),
{
    if s.len() == 0 {
    } else if s.last().id <= x.id {
        let r = s.push(x);
        assert forall|i: int, j: int| 0 <= i < j < r.len() implies r[i].id <= r[j].id by {
            if j == r.len() - 1 {
                if i < s.len() - 1 {
                    assert(s[i].id <= s[s.len() - 1].id);
                }
            }
        }
    } else {
        assert(sorted_by_id(s.drop_last()));
        lemma_insert_sorted_sorted(s.drop_last(), x);
        let q = insert_sorted(s.drop_last(), x);
        let r = q.push(s.last());
        assert forall|i: int, j: int| 0 <= i < j < r.len() implies r[i].id <= r[j].id by {
            if j == r.len() - 1 {
                lemma_insert_sorted_members(s.drop_last(), x, i);
            }
        }
    }
}

proof fn lemma_insert_sorted_members(s: Seq<SegV>, x: SegV, i: int)
    requires
        0 <= i < insert_sorted(s, x).len(),
    ensures
        insert_sorted(s, x)[i] == x || exists|j: int|
            0 <= j < s.len() && insert_sorted(s, x)[i] == s[j],
    decreases s.len(),
{
    if s.len() == 0 {
    } else if s.last().id <= x.id {
        if i < s.len() {
            assert(insert_sorted(s, x)[i] == s[i]);
        }
    } else {
        if i == insert_sorted(s, x).len() - 1 {
            assert(insert_sorted(s, x)[i] == s[s.len() - 1]);
        } else {
            lemma_insert_sorted_members(s.drop_last(), x, i);
            if insert_sorted(s.drop_last(), x)[i] != x {
                let j = choose|j: int|
                    0 <= j < s.drop_last().len() && insert_sorted(s.drop_last(), x)[i]
                        == s.drop_last()[j];
                assert(s.drop_last()[j] == s[j]);
            }
        }
    }
}

/// Sorting a run that is already strictly ascending leaves it unchanged.
pub proof fn lemma_sort_of_sorted(s: Seq<SegV>)
    requires
        forall|i: int, j: int| 0 <= i < j < s.len() ==> s[i].id < s[j].id,
    ensures
        sort_by_id(s) == s,
    decreases s.len(),
{
    if s.len() > 0 {
        lemma_sort_of_sorted(s.drop_last());
        if s.len() == 1 {
            assert(insert_sorted(s.drop_last(), s.last()) =~= s);
        } else {
            assert(s.drop_last().last().id <= s.last().id);
            assert(insert_sorted(s.drop_last(), s.last()) =~= s);
        }
    }
}

/// Sorts segment files by ascending id, preserving the relative order of
/// equal ids.
fn sort_files(files: Vec<SegmentFile>) -> (r: Vec<SegmentFile>)
    ensures
        segs_view(r@) == sort_by_id(segs_view(files@)),
        sorted_by_id(segs_view(r@)),
{
    let ghost orig = segs_view(files@);
    let mut rest = files;
    let mut out: Vec<SegmentFile> = Vec::new();
    while rest.len() > 0
        invariant
            out@.len() + rest@.len() == orig.len(),
            segs_view(rest@) =~= orig.subrange(out@.len() as int, orig.len() as int),
            segs_view(out@) == sort_by_id(orig.subrange(0, out@.len() as int)),
            sorted_by_id(segs_view(out@)),
        decreases rest@.len(),
    {
        let ghost done = out@.len() as int;
        let ghost out0 = segs_view(out@);
        let ghost rest0 = rest@;
        let f = rest.remove(0);
        proof {
            assert(f@ == segs_view(rest0)[0]);
            assert(f@ == orig[done]);
            assert forall|i: int| 0 <= i < rest@.len() implies segs_view(rest@)[i]
                == segs_view(rest0)[i + 1] by {
                assert(rest@[i] == rest0[i + 1]);
            }
            assert(segs_view(rest@) =~= orig.subrange(done + 1, orig.len() as int));
        }
        let mut at = out.len();
        while at > 0 && out[at - 1].id > f.id
            invariant
                at <= out@.len(),
                out@.len() == done,
                forall|t: int| at <= t < out@.len() ==> segs_view(out@)[t].id > f@.id,
            decreases at,
        {
            at -= 1;
        }
        proof {
            lemma_insert_sorted_split(out0, f@, at as int);
        }
        out.insert(at, f);
        proof {
            assert(segs_view(out@) =~= out0.subrange(0, at as int) + seq![orig[done]]
                + out0.subrange(at as int, out0.len() as int));
            assert(orig.subrange(0, done + 1).drop_last() =~= orig.subrange(
                0,
                done,
            ));
            assert(segs_view(out@) == sort_by_id(orig.subrange(0, done + 1)));
            lemma_insert_sorted_sorted(out0, f@);
        }
    }
    proof {
        assert(orig.subrange(0, orig.len() as int) =~= orig);
    }
    out
}

proof fn lemma_replay_none_extend(segs: Seq<SegV>, j: int)
    requires
        0 <= j <= segs.len(),
        replay(segs.subrange(0, j)) is None,
    ensures
        replay(segs) is None,
    decreases segs.len(),
{
    if j == segs.len() {
        assert(segs.subrange(0, j) =~= segs);
    } else {
        assert(segs.drop_last().subrange(0, j) =~= segs.subrange(0, j));
        lemma_replay_none_extend(segs.drop_last(), j);
    }
}

/// The in-memory key directory: a hash map from key to placement, with a
/// side list of the keys for iteration.
pub struct KeyDir {
    map: StringHashMap<Meta>,
    keys: Vec<String>,
}

impl View for KeyDir {
    type V = Map<Seq<char>, Meta>;

    closed spec fn view(&self) -> Map<Seq<char>, Meta> {
        self.map@
    }
}

impl KeyDir {
    /// The keys, in iteration order.
    pub closed spec fn key_seq(&self) -> Seq<Seq<char>> {
        Seq::new(self.keys@.len(), |i: int| self.keys@[i]@)
    }

    /// The key list carries exactly the directory's keys, each once.
    pub closed spec fn wf(&self) -> bool {
        &&& forall|i: int, j: int|
            0 <= i < j < self.key_seq().len() ==> self.key_seq()[i] != self.key_seq()[j]
        &&& forall|i: int|
            0 <= i < self.key_seq().len() ==> self@.contains_key(#[trigger] self.key_seq()[i])
        &&& forall|k: Seq<char>|
            #[trigger] self@.contains_key(k) ==> exists|i: int|
                0 <= i < self.key_seq().len() && self.key_seq()[i] == k
    }

    /// An empty directory.
    pub fn new() -> (r: KeyDir)
        ensures
            r@ == Map::<Seq<char>, Meta>::empty(),
            r.wf(),
            r.key_seq() == Seq::<Seq<char>>::empty(),
    {
        let r = KeyDir { map: StringHashMap::new(), keys: Vec::new() };
        assert(r.key_seq() =~= Seq::<Seq<char>>::empty());
        r
    }

    /// How many keys are present.
    pub fn len(&self) -> (n: usize)
        ensures
            n == self.key_seq().len(),
    {
        self.keys.len()
    }

    /// The key at one iteration position.
    pub fn key_at(&self, i: usize) -> (r: &String)
        requires
            i < self.key_seq().len(),
        ensures
            r@ == self.key_seq()[i as int],
    {
        &self.keys[i]
    }

    /// The placement of a key, if bound.
    pub fn get(&self, key: &str) -> (r: Option<Meta>)
        ensures
            r == if self@.contains_key(key@) {
                Some(self@[key@])
            } else {
                None::<Meta>
            },
    {
        match self.map.get(key) {
            Some(m) => Some(*m),
            None => None,
        }
    }

    /// Binds `key` to `m`, returning the placement it replaces.
    pub fn insert(&mut self, key: String, m: Meta) -> (r: Option<Meta>)
        requires
            old(self).wf(),
        ensures
            final(self).wf(),
            final(self)@ == old(self)@.insert(key@, m),
            r == if old(self)@.contains_key(key@) {
                Some(old(self)@[key@])
            } else {
                None::<Meta>
            },
            old(self)@.contains_key(key@) ==> final(self).key_seq() == old(self).key_seq(),
            !old(self)@.contains_key(key@) ==> final(self).key_seq() == old(
                self,
            ).key_seq().push(key@),
    {
        let prev = self.get(key.as_str());
        if prev.is_none() {
            self.keys.push(key.clone());
        }
        self.map.insert(key, m);
        proof {
            let ks = old(self).key_seq();
            if prev is None {
                assert(self.key_seq() =~= ks.push(key@));
                assert forall|k: Seq<char>| #[trigger]
                    self@.contains_key(k) implies exists|i: int|
                    0 <= i < self.key_seq().len() && self.key_seq()[i] == k by {
                    if k == key@ {
                        assert(self.key_seq()[ks.len() as int] == k);
                    } else {
                        let i = choose|i: int| 0 <= i < ks.len() && ks[i] == k;
                        assert(self.key_seq()[i] == k);
                    }
                }
                assert forall|i: int, j: int|
                    0 <= i < j < self.key_seq().len() implies self.key_seq()[i]
                    != self.key_seq()[j] by {
                    if j == ks.len() {
                        assert(self.key_seq()[i] == ks[i]);
                        assert(old(self)@.contains_key(ks[i]));
                    }
                }
            } else {
                assert(self.key_seq() =~= ks);
                assert forall|k: Seq<char>| #[trigger]
                    self@.contains_key(k) implies exists|i: int|
                    0 <= i < self.key_seq().len() && self.key_seq()[i] == k by {
                    if k == key@ {
                        let i = choose|i: int| 0 <= i < ks.len() && ks[i] == key@;
                        assert(self.key_seq()[i] == k);
                    } else {
                        let i = choose|i: int| 0 <= i < ks.len() && ks[i] == k;
                        assert(self.key_seq()[i] == k);
                    }
                }
            }
        }
        prev
    }

    /// The directory binds exactly as many keys as its key list names.
    pub proof fn lemma_key_count(&self)
        requires
            self.wf(),
        ensures
            self@.dom().finite(),
            self@.dom().len() == self.key_seq().len(),
    {
        broadcast use vstd::seq_lib::seq_to_set_is_finite;

        let ks = self.key_seq();
        assert(ks.no_duplicates());
        ks.unique_seq_to_set();
        assert(self@.dom() =~= ks.to_set()) by {
            assert forall|k: Seq<char>| self@.dom().contains(k) implies ks.to_set().contains(
                k,
            ) by {
                let i = choose|i: int| 0 <= i < ks.len() && ks[i] == k;
                assert(ks.contains(k));
            }
            assert forall|k: Seq<char>| ks.to_set().contains(k) implies self@.dom().contains(
                k,
            ) by {
                let i = choose|i: int| 0 <= i < ks.len() && ks[i] == k;
                assert(self@.contains_key(ks[i]));
            }
        }
    }

    fn find_key(&self, key: &str) -> (r: Option<usize>)
        ensures
            match r {
                Some(i) => i < self.key_seq().len() && self.key_seq()[i as int] == key@,
                None => forall|i: int|
                    0 <= i < self.key_seq().len() ==> self.key_seq()[i] != key@,
            },
    {
        let mut i: usize = 0;
        while i < self.keys.len()
            invariant
                i <= self.key_seq().len(),
                forall|j: int| 0 <= j < i ==> self.key_seq()[j] != key@,
            decreases self.key_seq().len() - i,
        {
            if str_eq(self.keys[i].as_str(), key) {
                return Some(i);
            }
            i += 1;
        }
        None
    }

    /// Unbinds `key`, returning the placement it had.
    pub fn remove(&mut self, key: &str) -> (r: Option<Meta>)
        requires
            old(self).wf(),
        ensures
            final(self).wf(),
            final(self)@ == old(self)@.remove(key@),
            r == if old(self)@.contains_key(key@) {
                Some(old(self)@[key@])
            } else {
                None::<Meta>
            },
            old(self)@.contains_key(key@) ==> final(self).key_seq().len() == old(
                self,
            ).key_seq().len() - 1,
            !old(self)@.contains_key(key@) ==> final(self).key_seq() == old(self).key_seq(),
    {
        let prev = self.get(key);
        if prev.is_none() {
            proof {
                assert(self@.remove(key@) =~= self@);
            }
            return None;
        }
        match self.find_key(key) {
            Some(i) => {
                let ghost ks = self.key_seq();
                self.keys.remove(i);
                self.map.remove(key);
                proof {
                    assert(self.key_seq() =~= ks.subrange(0, i as int) + ks.subrange(
                        i as int + 1,
                        ks.len() as int,
                    ));
                    let ks2 = self.key_seq();
                    assert forall|a: int, b: int|
                        0 <= a < b < ks2.len() implies ks2[a] != ks2[b] by {
                        let a0 = if a < i { a } else { a + 1 };
                        let b0 = if b < i { b } else { b + 1 };
                        assert(ks2[a] == ks[a0] && ks2[b] == ks[b0]);
                    }
                    assert forall|a: int|
                        0 <= a < ks2.len() implies self@.contains_key(#[trigger] ks2[a]) by {
                        let a0 = if a < i { a } else { a + 1 };
                        assert(ks2[a] == ks[a0]);
                        assert(old(self)@.contains_key(ks[a0]));
                        assert(ks[a0] != key@);
                    }
                    assert forall|k: Seq<char>| #[trigger]
                        self@.contains_key(k) implies exists|a: int|
                        0 <= a < ks2.len() && ks2[a] == k by {
                        let a0 = choose|a0: int| 0 <= a0 < ks.len() && ks[a0] == k;
                        assert(a0 != i);
                        let a = if a0 < i { a0 } else { a0 - 1 };
                        assert(ks2[a] == ks[a0]);
                    }
                }
                prev
            },
            None => {
                proof {
                    let i = choose|i: int|
                        0 <= i < self.key_seq().len() && self.key_seq()[i] == key@;
                    assert(false);
                }
                None
            },
        }
    }
}


/// u64 addition that sticks at the maximum, as the useless-bytes
/// estimate uses.
pub open spec fn sat_add_u64(a: u64, b: int) -> u64 {
    if a + b > u64::MAX {
        u64::MAX
    } else {
        (a + b) as u64
    }
}

/// The useless-bytes growth a Set or Remove of `key` causes: the
/// encoded length of the Set record it supersedes, if the key was
/// bound, else nothing.
pub open spec fn superseded_len(m: Map<Seq<char>, Seq<char>>, key: Seq<char>) -> int {
    if m.contains_key(key) {
        enc_rec(RecV::Put(key, m[key])).len() as int
    } else {
        0
    }
}

/// `post` is `pre` with exactly one record's bytes appended: onto the
/// last segment, or into one freshly rolled segment named one higher.
pub open spec fn appended_record(pre: Seq<SegV>, post: Seq<SegV>, rec: Seq<u8>) -> bool {
    ||| post == pre.update(
        pre.len() - 1,
        SegV { id: pre.last().id, data: pre.last().data + rec },
    )
    ||| post == pre.push(SegV { id: (pre.last().id + 1) as u64, data: rec })
}

/// Every segment is newer than the segment named `id`.
pub open spec fn all_ids_above(segs: Seq<SegV>, id: u64) -> bool {
    forall|i: int| 0 <= i < segs.len() ==> (#[trigger] segs[i].id) > id
}

/// Whether `m` points at bytes that decode to exactly the record `r`.
pub open spec fn placement_points(segs: Seq<SegV>, m: Meta, r: RecV) -> bool {
    let i = seg_index(segs, m.file_id);
    &&& 0 <= i < segs.len()
    &&& m.offset + m.len <= segs[i].data.len()
    &&& dec_rec(segs[i].data.skip(m.offset as int)) == Ok::<_, crate::error::DecodeKind>((
        r,
        m.len as int,
    ))
}

/// Appends one encoded record to the current segment, rolling to a
/// fresh segment first when it would not fit. Fails only when a roll is
/// needed and the id space is used up.
#[verifier::rlimit(100)]
fn append_record(
    segments: &mut Vec<SegmentFile>,
    pending: &mut Vec<DiskAction>,
    max_segment_bytes: usize,
    bytes: Vec<u8>,
    Ghost(rv): Ghost<RecV>,
    Ghost(base): Ghost<Map<u64, Seq<u8>>>,
) -> (r: Result<Meta, Error>)
    requires
        max_segment_bytes <= 0x1000_0000,
        seg_inv(segs_view(old(segments)@), max_segment_bytes),
        dec_rec(bytes@) == Ok::<_, crate::error::DecodeKind>((rv, bytes@.len() as int)),
        bytes@.len() <= max_segment_bytes,
        apply_actions(base, old(pending)@) == disk_of(segs_view(old(segments)@)),
    ensures
        r is Err <==> (segs_view(old(segments)@).last().data.len() + bytes@.len()
            > max_segment_bytes && segs_view(old(segments)@).last().id == u64::MAX),
        match r {
            Ok(m) => {
                &&& seg_inv(segs_view(final(segments)@), max_segment_bytes)
                &&& m.len == bytes@.len()
                &&& m.file_id == segs_view(final(segments)@).last().id
                &&& segs_view(old(segments)@).last().id <= m.file_id
                    <= segs_view(old(segments)@).last().id + 1
                &&& replay(segs_view(final(segments)@)) == Some(
                    apply_item(
                        replay(segs_view(old(segments)@))->0,
                        m.file_id,
                        (rv, m.offset as int, m.len as int),
                    ),
                )
                &&& placement_points(segs_view(final(segments)@), m, rv)
                &&& appended_record(
                    segs_view(old(segments)@),
                    segs_view(final(segments)@),
                    bytes@,
                )
                &&& segs_view(final(segments)@)[0].id == segs_view(old(segments)@)[0].id
                &&& apply_actions(base, final(pending)@) == disk_of(segs_view(final(segments)@))
                &&& old(pending)@.len() <= final(pending)@.len()
                &&& (forall|t: int|
                    old(pending)@.len() <= t < final(pending)@.len()
                        ==> segs_view(old(segments)@).last().id <= action_id(
                        #[trigger] final(pending)@[t],
                    ) <= m.file_id)
                &&& forall|t: int|
                    0 <= t < old(pending)@.len() ==> final(pending)@[t] == old(pending)@[t]
                &&& forall|k2: Seq<char>, m2: Meta|
                    #[trigger] placement_ok(segs_view(old(segments)@), k2, m2)
                        ==> placement_ok(segs_view(final(segments)@), k2, m2) && value_at(
                        segs_view(final(segments)@),
                        m2,
                    ) == value_at(segs_view(old(segments)@), m2)
            },
            Err(e) => {
                &&& e == Error::SegmentIdExhausted
                &&& final(segments)@ == old(segments)@
                &&& final(pending)@ == old(pending)@
            },
        },
{
    let ghost ss0 = segs_view(old(segments)@);
    let n = bytes.len();
    let li = segments.len() - 1;
    proof {
        assert(ss0[li as int].data.len() <= max_segment_bytes);
    }
    let need_roll = segments[li].data.len() + n > max_segment_bytes;
    if need_roll {
        let cur = segments[li].id;
        if cur == u64::MAX {
            return Err(Error::SegmentIdExhausted);
        }
        let new_id = cur + 1;
        let ghost pend0 = pending@;
        segments.push(SegmentFile { id: new_id, data: Vec::new() });
        pending.push(DiskAction::Create(new_id));
        proof {
            let ss1 = segs_view(segments@);
            let x = SegV { id: new_id, data: Seq::empty() };
            assert(ss1 =~= ss0.push(x));
            assert(pending@.drop_last() =~= pend0);
            assert(apply_actions(base, pending@) == apply_action(
                apply_actions(base, pend0),
                DiskAction::Create(new_id),
            ));
            assert(ss1.drop_last() =~= ss0);
            assert(disk_of(ss1) == disk_of(ss0).insert(new_id, Seq::empty()));
            assert(apply_actions(base, pending@) == disk_of(ss1));
            assert forall|a: int, b: int| 0 <= a < b < ss1.len() implies ss1[a].id
                < ss1[b].id by {
                if b == ss1.len() - 1 {
                    if a < ss0.len() - 1 {
                        assert(ss0[a].id < ss0[ss0.len() - 1].id);
                    }
                }
            }
            lemma_replay_push(ss0, x);
            assert(rec_seq(x.data) == Some(Seq::<(RecV, int, int)>::empty()));
            assert(replay(ss1) == replay(ss0));
            assert forall|k2: Seq<char>, m2: Meta|
                #[trigger] placement_ok(ss0, k2, m2) implies placement_ok(ss1, k2, m2)
                && value_at(ss1, m2) == value_at(ss0, m2) by {
                lemma_seg_index_in_range(ss0, m2.file_id);
                assert(ss0[seg_index(ss0, m2.file_id)].id == m2.file_id);
                if seg_index(ss0, m2.file_id) < ss0.len() - 1 {
                    assert(ss0[seg_index(ss0, m2.file_id)].id < ss0[ss0.len() - 1].id);
                }
                lemma_placement_push(ss0, x, k2, m2);
            }
        }
    }
    let ghost ss1 = segs_view(segments@);
    let ghost files1 = segments@;
    let li2 = segments.len() - 1;
    let mut last = match segments.pop() {
        Some(l) => l,
        None => {
            proof {
                assert(false);
            }
            SegmentFile { id: 0, data: Vec::new() }
        },
    };
    let ghost old_data = last.data@;
    let off = last.data.len();
    let m = Meta { file_id: last.id, offset: off, len: n };
    let mut bi: usize = 0;
    while bi < bytes.len()
        invariant
            bi <= bytes@.len(),
            last.id == m.file_id,
            last.data@ == old_data + bytes@.subrange(0, bi as int),
        decreases bytes@.len() - bi,
    {
        last.data.push(bytes[bi]);
        bi += 1;
        assert(last.data@ =~= old_data + bytes@.subrange(0, bi as int));
    }
    proof {
        assert(bytes@.subrange(0, bytes@.len() as int) =~= bytes@);
        assert(last.data@ == old_data + bytes@);
    }
    let ghost lastv = last@;
    segments.push(last);
    proof {
        assert(lastv == SegV { id: m.file_id, data: old_data + bytes@ });
        let ss2 = segs_view(segments@);
        let nseg = SegV { id: m.file_id, data: old_data + bytes@ };
        assert(segments@.len() == files1.len());
        assert forall|i: int| 0 <= i < ss2.len() implies ss2[i] == ss1.update(
            li2 as int,
            nseg,
        )[i] by {
            if i < li2 {
                assert(segments@[i] == files1[i]);
                assert(ss2[i] == files1[i]@);
                assert(ss1[i] == files1[i]@);
            } else {
                assert(segments@[i]@ == lastv);
            }
        }
        assert(ss2 =~= ss1.update(li2 as int, nseg));
        assert(ss1.last() == SegV { id: m.file_id, data: old_data });
        lemma_replay_update_last_append(ss1, bytes@, rv);
        assert(replay(ss2) == Some(
            apply_item(replay(ss1)->0, m.file_id, (rv, m.offset as int, m.len as int)),
        ));
        assert forall|a: int, b: int| 0 <= a < b < ss2.len() implies ss2[a].id < ss2[b].id by {
            assert(ss1[a].id < ss1[b].id);
        }
        assert forall|i: int| 0 <= i < ss2.len() implies (#[trigger] ss2[i].data).len()
            <= max_segment_bytes by {
            assert(ss1[i].data.len() <= max_segment_bytes);
            if i == li2 {
                assert(ss2[i].data.len() == old_data.len() + n);
            }
        }
        assert forall|k2: Seq<char>, m2: Meta|
            #[trigger] placement_ok(ss1, k2, m2) implies placement_ok(ss2, k2, m2) && value_at(
            ss2,
            m2,
        ) == value_at(ss1, m2) by {
            lemma_placement_update_last(ss1, bytes@, k2, m2);
        }
        lemma_seg_index_finds(ss2, li2 as int);
        assert(ss2[li2 as int].data.skip(m.offset as int) =~= bytes@);
        assert(placement_points(ss2, m, rv));
        if need_roll {
            assert(ss1 == ss0.push(SegV { id: m.file_id, data: Seq::empty() }));
            assert(Seq::<u8>::empty() + bytes@ =~= bytes@);
            assert(ss2 =~= ss0.push(SegV { id: (ss0.last().id + 1) as u64, data: bytes@ }));
        } else {
            assert(ss1 == ss0);
            assert(ss2 =~= ss0.update(
                ss0.len() - 1,
                SegV { id: ss0.last().id, data: ss0.last().data + bytes@ },
            ));
        }
        assert(appended_record(ss0, ss2, bytes@));
    }
    let ghost bv = bytes@;
    let ghost pend1 = pending@;
    let act = DiskAction::Append(m.file_id, bytes);
    let ghost actv = act;
    pending.push(act);
    proof {
        let ss2 = segs_view(segments@);
        assert(pending@.drop_last() =~= pend1);
        assert(pending@.last() == actv);
        let d1 = apply_actions(base, pend1);
        assert(d1 == disk_of(ss1));
        assert(ss1.drop_last() =~= ss2.drop_last());
        assert(disk_of(ss1) == disk_of(ss1.drop_last()).insert(m.file_id, old_data));
        assert(d1.contains_key(m.file_id) && d1[m.file_id] == old_data);
        assert(apply_actions(base, pending@) == d1.insert(m.file_id, old_data + bv));
        assert(disk_of(ss2) == disk_of(ss2.drop_last()).insert(m.file_id, old_data + bv));
        assert(apply_actions(base, pending@) =~= disk_of(ss2));
    }
    Ok(m)
}

/// Segments for a freshly opened directory: the files sorted by id, or
/// one empty segment named 0 when the directory held none.
pub open spec fn opened_segs(fs: Seq<SegV>) -> Seq<SegV> {
    if fs.len() == 0 {
        seq![SegV { id: 0, data: Seq::empty() }]
    } else {
        sort_by_id(fs)
    }
}

/// Whether a directory's files can be opened: distinct ids, every file
/// within the size cap, and every file parseable as records.
pub open spec fn open_ok(fs: Seq<SegV>, max: usize) -> bool {
    seg_inv(opened_segs(fs), max)
}

/// The persistent key-value store: bounded append-only segments and the
/// key directory their replay yields.
pub struct KvStore {
    segments: Vec<SegmentFile>,
    key_dir: KeyDir,
    curr_file_id: u64,
    useless_size: u64,
    max_segment_bytes: usize,
    compact_threshold: u64,
    pending: Vec<DiskAction>,
    base_disk: Ghost<Map<u64, Seq<u8>>>,
}

impl View for KvStore {
    type V = Map<Seq<char>, Seq<char>>;

    /// The mapping from keys to values the store holds.
    closed spec fn view(&self) -> Map<Seq<char>, Seq<char>> {
        Map::new(
            |k: Seq<char>| self.key_dir@.contains_key(k),
            |k: Seq<char>| value_at(self.seg_views(), self.key_dir@[k]),
        )
    }
}

impl KvStore {
    /// The modeled segment files, ascending by id.
    pub closed spec fn seg_views(&self) -> Seq<SegV> {
        segs_view(self.segments@)
    }

    /// The segment size cap this store was opened with.
    pub closed spec fn seg_cap(&self) -> usize {
        self.max_segment_bytes
    }

    /// The useless-bytes threshold this store was opened with.
    pub closed spec fn threshold(&self) -> u64 {
        self.compact_threshold
    }

    /// The id of the segment currently appended to.
    pub closed spec fn curr_id(&self) -> u64 {
        self.curr_file_id
    }

    /// The useless-bytes estimate.
    pub closed spec fn useless(&self) -> u64 {
        self.useless_size
    }

    /// How many keys are live.
    pub closed spec fn key_count(&self) -> nat {
        self.key_dir.key_seq().len()
    }

    /// The directory contents as of the last time the disk actions
    /// were drained: what a caller mirroring the store holds on disk.
    pub closed spec fn base_disk_view(&self) -> Map<u64, Seq<u8>> {
        self.base_disk@
    }

    /// The queued disk actions, applied in order to the directory as of
    /// the last drain, rebuild exactly the directory the current
    /// segments describe.
    pub closed spec fn mirror_ok(&self) -> bool {
        apply_actions(self.base_disk@, self.pending@) == disk_of(self.seg_views())
    }

    /// The health of the store: segments are bounded, parseable and
    /// ascending; the key directory is exactly their replay; and every
    /// directory entry points at the live Set record of its key.
    pub closed spec fn well_formed(&self) -> bool {
        &&& 16 <= self.max_segment_bytes <= 0x1000_0000
        &&& seg_inv(self.seg_views(), self.max_segment_bytes)
        &&& self.curr_file_id == self.seg_views().last().id
        &&& replay(self.seg_views()) == Some(self.key_dir@)
        &&& self.key_dir.wf()
        &&& forall|k: Seq<char>| #[trigger]
            self.key_dir@.contains_key(k) ==> placement_ok(
                self.seg_views(),
                k,
                self.key_dir@[k],
            )
    }

    /// Opens a store over the byte contents of a data directory's
    /// segment files, replaying them in id order to rebuild the key
    /// directory. The segment cap is part of the on-disk format, so a
    /// file above it counts as foreign, like one that does not parse:
    /// both fail with `Corruption`, as do repeated ids. The cap itself
    /// must leave room for a record and keep offsets within reach of
    /// 32-bit arithmetic.
    #[verifier::rlimit(100)]
    pub fn open(
        files: Vec<SegmentFile>,
        max_segment_bytes: usize,
        compact_threshold: u64,
    ) -> (r: Result<KvStore, Error>)
        requires
            16 <= max_segment_bytes <= 0x1000_0000,
        ensures
            r is Ok <==> open_ok(segs_view(files@), max_segment_bytes),
            match r {
                Ok(s) => {
                    &&& s.well_formed()
                    &&& s.seg_cap() == max_segment_bytes
                    &&& s.threshold() == compact_threshold
                    &&& s.seg_views() == opened_segs(segs_view(files@))
                    &&& s.useless() <= u64::MAX
                    &&& s.curr_id() == s.seg_views().last().id
                    &&& s.key_count() == replay(s.seg_views())->0.dom().len()
                    &&& s.mirror_ok()
                    &&& files@.len() == 0 ==> s.base_disk_view() == Map::<u64, Seq<u8>>::empty()
                    &&& files@.len() > 0 ==> s.base_disk_view() == disk_of(s.seg_views())
                },
                Err(e) => e == Error::Corruption,
            },
    {
        let ghost fsv = segs_view(files@);
        let mut sorted = sort_files(files);
        let mut pending: Vec<DiskAction> = Vec::new();
        let ghost mut base = disk_of(segs_view(sorted@));
        if sorted.len() == 0 {
            sorted.push(SegmentFile { id: 0, data: Vec::new() });
            pending.push(DiskAction::Create(0));
            proof {
                base = Map::<u64, Seq<u8>>::empty();
                assert(segs_view(sorted@) =~= opened_segs(fsv));
                assert(pending@.drop_last() =~= Seq::<DiskAction>::empty());
                assert(apply_actions(base, Seq::<DiskAction>::empty()) == base);
                assert(apply_actions(base, pending@) == base.insert(0, Seq::empty()));
                let s1 = segs_view(sorted@);
                assert(s1.drop_last() =~= Seq::<SegV>::empty());
                assert(disk_of(Seq::<SegV>::empty()) == Map::<u64, Seq<u8>>::empty());
                assert(apply_actions(base, Seq::<DiskAction>::empty()) == base);
                assert(disk_of(s1) == Map::<u64, Seq<u8>>::empty().insert(0, Seq::empty()));
            }
        }
        let ghost ss = segs_view(sorted@);
        proof {
            assert(ss == opened_segs(fsv));
        }
        // Distinct ids: with the files sorted, repeats would be adjacent.
        let mut i: usize = 1;
        while i < sorted.len()
            invariant
                1 <= i,
                ss == segs_view(sorted@),
                ss == opened_segs(segs_view(files@)),
                sorted_by_id(ss),
                forall|t: int| 1 <= t < i ==> (#[trigger] ss[t].id) > ss[t - 1].id,
            decreases sorted@.len() - i,
        {
            if sorted[i].id <= sorted[i - 1].id {
                proof {
                    assert(!(ss[i as int - 1].id < ss[i as int].id));
                    assert(!seg_inv(ss, max_segment_bytes));
                }
                return Err(Error::Corruption);
            }
            i += 1;
        }
        proof {
            assert forall|a: int, b: int| 0 <= a < b < ss.len() implies ss[a].id < ss[b].id by {
                assert(ss[a + 1].id > ss[a + 1 - 1].id);
                if a + 1 < b {
                    assert(ss[a + 1].id <= ss[b].id);
                }
            }
        }
        // Replay each segment in order.
        let mut key_dir = KeyDir::new();
        let mut useless: u64 = 0;
        let mut si: usize = 0;
        while si < sorted.len()
            invariant
                si <= sorted@.len(),
                ss == segs_view(sorted@),
                ss == opened_segs(segs_view(files@)),
                forall|a: int, b: int| 0 <= a < b < ss.len() ==> ss[a].id < ss[b].id,
                replay(ss.subrange(0, si as int)) == Some(key_dir@),
                key_dir.wf(),
                forall|t: int| 0 <= t < si ==> (#[trigger] ss[t].data).len() <= max_segment_bytes,
                forall|k: Seq<char>| #[trigger]
                    key_dir@.contains_key(k) ==> placement_ok(
                        ss.subrange(0, si as int),
                        k,
                        key_dir@[k],
                    ),
            decreases sorted@.len() - si,
        {
            let ghost prefix = ss.subrange(0, si as int);
            let ghost prefix1 = ss.subrange(0, si as int + 1);
            let seg = &sorted[si];
            if seg.data.len() > max_segment_bytes {
                proof {
                    assert(ss[si as int].data.len() > max_segment_bytes);
                    assert(!seg_inv(ss, max_segment_bytes));
                }
                return Err(Error::Corruption);
            }
            proof {
                assert(prefix1 =~= prefix.push(ss[si as int]));
                assert forall|k: Seq<char>| #[trigger]
                    key_dir@.contains_key(k) implies placement_ok(
                    prefix1,
                    k,
                    key_dir@[k],
                ) by {
                    let m = key_dir@[k];
                    lemma_seg_index_in_range(prefix, m.file_id);
                    assert(ss[si as int].id != m.file_id);
                    lemma_placement_push(prefix, ss[si as int], k, m);
                }
            }
            let ghost pm = key_dir@;
            let ghost data = seg.data@;
            let ghost mut done: Seq<(RecV, int, int)> = Seq::empty();
            let mut off: usize = 0;
            proof {
                assert(done + rec_seq_from(data, 0)->0 =~= rec_seq_from(data, 0)->0);
            }
            while off < seg.data.len()
                invariant
                    off <= seg.data@.len(),
                    data == seg.data@,
                    seg.data@.len() <= max_segment_bytes,
                    ss == segs_view(sorted@),
                    ss == opened_segs(segs_view(files@)),
                    0 <= si < ss.len(),
                    seg == &sorted@[si as int],
                    ss[si as int] == seg@,
                    prefix == ss.subrange(0, si as int),
                    prefix1 == ss.subrange(0, si as int + 1),
                    forall|a: int, b: int| 0 <= a < b < ss.len() ==> ss[a].id < ss[b].id,
                    replay(prefix) == Some(pm),
                    rec_seq(data) == match rec_seq_from(data, off as int) {
                        Some(rest) => Some(done + rest),
                        None => None::<Seq<(RecV, int, int)>>,
                    },
                    apply_items(pm, seg.id, done) == key_dir@,
                    key_dir.wf(),
                    forall|k: Seq<char>| #[trigger]
                        key_dir@.contains_key(k) ==> placement_ok(prefix1, k, key_dir@[k]),
                decreases seg.data@.len() - off,
            {
                match decode_record(seg.data.as_slice(), off) {
                    Err(_) => {
                        proof {
                            assert(rec_seq_from(data, off as int) is None);
                            assert(rec_seq(data) is None);
                            assert(replay(prefix1) is None) by {
                                assert(prefix1.drop_last() =~= prefix);
                                assert(prefix1.last() == ss[si as int]);
                            }
                            lemma_replay_none_extend(ss, si as int + 1);
                            assert(!seg_inv(ss, max_segment_bytes));
                        }
                        return Err(Error::Corruption);
                    },
                    Ok((rec, np)) => {
                        let ghost item = (rec@, off as int, np - off as int);
                        proof {
                            lemma_dec_rec_consumed(data.skip(off as int));
                            assert(rec_seq_from(data, off as int) == match rec_seq_from(
                                data,
                                np as int,
                            ) {
                                Some(rest) => Some(seq![item] + rest),
                                None => None::<Seq<(RecV, int, int)>>,
                            });
                            if rec_seq_from(data, np as int) is Some {
                                assert(done + (seq![item] + rec_seq_from(data, np as int)->0)
                                    =~= done.push(item) + rec_seq_from(data, np as int)->0);
                            }
                            let d2 = done.push(item);
                            assert(d2.drop_last() =~= done);
                            assert(d2.last() == item);
                            assert(apply_items(pm, seg.id, d2) == apply_item(
                                key_dir@,
                                seg.id,
                                item,
                            ));
                            lemma_seg_index_finds(prefix1, si as int);
                        }
                        match rec {
                            Record::Put(k, _v) => {
                                let meta = Meta { file_id: seg.id, offset: off, len: np - off };
                                let prev = key_dir.insert(k, meta);
                                if let Some(p) = prev {
                                    useless = useless.saturating_add(p.len as u64);
                                }
                                proof {
                                    assert(placement_ok(prefix1, item.0->Put_0, meta)) by {
                                        assert(prefix1[si as int].data == data);
                                    }
                                }
                            },
                            Record::Rm(k) => {
                                let prev = key_dir.remove(k.as_str());
                                if let Some(p) = prev {
                                    useless = useless.saturating_add(p.len as u64);
                                }
                            },
                        }
                        proof {
                            done = done.push(item);
                        }
                        off = np;
                    },
                }
            }
            proof {
                assert(rec_seq_from(data, off as int) == Some(Seq::<(RecV, int, int)>::empty()));
                assert(done + Seq::<(RecV, int, int)>::empty() =~= done);
                assert(rec_seq(data) == Some(done));
                assert(replay(prefix1) == Some(key_dir@)) by {
                    assert(prefix1.drop_last() =~= prefix);
                    assert(prefix1.last() == ss[si as int]);
                }
            }
            si += 1;
        }
        proof {
            assert(ss.subrange(0, ss.len() as int) =~= ss);
        }
        let curr_file_id = sorted[sorted.len() - 1].id;
        let store = KvStore {
            segments: sorted,
            key_dir,
            curr_file_id,
            useless_size: useless,
            max_segment_bytes,
            compact_threshold,
            pending,
            base_disk: Ghost(base),
        };
        proof {
            assert(store.seg_views() == ss);
            assert(store.well_formed());
            assert(store.mirror_ok());
            store.key_dir.lemma_key_count();
        }
        Ok(store)
    }

    /// Reads the value of the Set record a placement points at.
    fn read_at(&self, m: Meta, Ghost(k): Ghost<Seq<char>>) -> (v: String)
        requires
            forall|a: int, b: int|
                0 <= a < b < self.seg_views().len() ==> self.seg_views()[a].id
                    < self.seg_views()[b].id,
            placement_ok(self.seg_views(), k, m),
        ensures
            v@ == value_at(self.seg_views(), m),
    {
        let ghost ss = self.seg_views();
        let mut i: usize = 0;
        while i < self.segments.len()
            invariant
                i <= ss.len(),
                ss == self.seg_views(),
                forall|a: int, b: int| 0 <= a < b < ss.len() ==> ss[a].id < ss[b].id,
                placement_ok(ss, k, m),
                forall|j: int| 0 <= j < i ==> ss[j].id != m.file_id,
            decreases ss.len() - i,
        {
            if self.segments[i].id == m.file_id {
                proof {
                    lemma_seg_index_finds(ss, i as int);
                }
                match decode_record(self.segments[i].data.as_slice(), m.offset) {
                    Ok((rec, _np)) => match rec {
                        Record::Put(_k, v) => {
                            return v;
                        },
                        Record::Rm(_k) => {
                            proof {
                                assert(false);
                            }
                            return String::new();
                        },
                    },
                    Err(_) => {
                        proof {
                            assert(false);
                        }
                        return String::new();
                    },
                }
            }
            i += 1;
        }
        proof {
            lemma_seg_index_in_range(ss, m.file_id);
            assert(ss[seg_index(ss, m.file_id)].id == m.file_id);
            assert(false);
        }
        String::new()
    }

    /// Looks a key up: `Some` of its live value, or `None` when absent.
    /// Reads never fail on a well-formed store.
    pub fn get(&self, key: &str) -> (r: Result<Option<String>, Error>)
        requires
            self.well_formed(),
        ensures
            match r {
                Ok(Some(v)) => self@.contains_key(key@) && v@ == self@[key@],
                Ok(None) => !self@.contains_key(key@),
                Err(_) => false,
            },
    {
        match self.key_dir.get(key) {
            None => Ok(None),
            Some(m) => {
                let v = self.read_at(m, Ghost(key@));
                Ok(Some(v))
            },
        }
    }
}


impl KvStore {
    /// Rewrites every live record into fresh segments and drops all old
    /// segments, leaving the mapping unchanged and the useless-bytes
    /// estimate at zero. Fails, leaving the store untouched, only when
    /// the segment id space runs out.
    #[verifier::rlimit(100)]
    pub fn compact(&mut self) -> (r: Result<(), Error>)
        requires
            old(self).well_formed(),
            old(self).mirror_ok(),
        ensures
            final(self).well_formed(),
            final(self).mirror_ok(),
            final(self).base_disk_view() == old(self).base_disk_view(),
            final(self)@ == old(self)@,
            final(self).seg_cap() == old(self).seg_cap(),
            final(self).threshold() == old(self).threshold(),
            final(self).key_count() == old(self).key_count(),
            r is Ok ==> final(self).useless() == 0,
            r is Ok ==> all_ids_above(final(self).seg_views(), old(self).curr_id()),
            r is Ok ==> final(self).curr_id() <= old(self).curr_id() + 1 + old(self).key_count(),
            r is Err ==> r == Err::<(), Error>(Error::SegmentIdExhausted) && *final(self)
                == *old(self),
            old(self).curr_id() + old(self).key_count() + 2 <= u64::MAX ==> r is Ok,
    {
        let ghost ss0 = self.seg_views();
        let ghost kd0 = self.key_dir@;
        let ghost ks0 = self.key_dir.key_seq();
        let ghost curr0 = self.curr_file_id;
        if self.curr_file_id == u64::MAX {
            return Err(Error::SegmentIdExhausted);
        }
        let first_id = self.curr_file_id + 1;
        let mut new_segments: Vec<SegmentFile> = Vec::new();
        new_segments.push(SegmentFile { id: first_id, data: Vec::new() });
        let mut acts: Vec<DiskAction> = Vec::new();
        acts.push(DiskAction::Create(first_id));
        let mut new_dir = KeyDir::new();
        let n = self.key_dir.len();
        proof {
            assert(acts@.drop_last() =~= Seq::<DiskAction>::empty());
            assert(apply_actions(Map::<u64, Seq<u8>>::empty(), Seq::<DiskAction>::empty())
                == Map::<u64, Seq<u8>>::empty());
            assert(apply_actions(Map::<u64, Seq<u8>>::empty(), acts@)
                == Map::<u64, Seq<u8>>::empty().insert(first_id, Seq::empty()));
            assert(disk_of(Seq::<SegV>::empty()) == Map::<u64, Seq<u8>>::empty());
            assert(segs_view(new_segments@) =~= seq![SegV { id: first_id, data: Seq::empty() }]);
            assert(rec_seq(Seq::<u8>::empty()) == Some(Seq::<(RecV, int, int)>::empty()));
            assert(replay(Seq::<SegV>::empty()) == Some(Map::<Seq<char>, Meta>::empty()));
            let ghost s1 = segs_view(new_segments@);
            assert(s1.drop_last() =~= Seq::<SegV>::empty());
            assert(s1.last().data == Seq::<u8>::empty());
            assert(replay(s1) == Some(
                apply_items(Map::<Seq<char>, Meta>::empty(), first_id, Seq::empty()),
            ));
            assert(replay(segs_view(new_segments@)) == Some(Map::<Seq<char>, Meta>::empty()));
            assert(disk_of(s1) == Map::<u64, Seq<u8>>::empty().insert(
                first_id,
                Seq::empty(),
            ));
        }
        let mut i: usize = 0;
        while i < n
            invariant
                *self == *old(self),
                self.well_formed(),
                self.mirror_ok(),
                ss0 == self.seg_views(),
                kd0 == self.key_dir@,
                ks0 == self.key_dir.key_seq(),
                curr0 == self.curr_file_id,
                curr0 < u64::MAX,
                n == ks0.len(),
                i <= n,
                seg_inv(segs_view(new_segments@), self.max_segment_bytes),
                segs_view(new_segments@)[0].id == first_id,
                segs_view(new_segments@).last().id <= curr0 + 1 + i,
                apply_actions(Map::<u64, Seq<u8>>::empty(), acts@) == disk_of(
                    segs_view(new_segments@),
                ),
                forall|t: int| 0 <= t < acts@.len() ==> action_id(#[trigger] acts@[t]) >= first_id,
                replay(segs_view(new_segments@)) == Some(new_dir@),
                new_dir.wf(),
                new_dir.key_seq() == ks0.subrange(0, i as int),
                forall|k: Seq<char>| #[trigger]
                    new_dir@.contains_key(k) ==> kd0.contains_key(k) && placement_ok(
                        segs_view(new_segments@),
                        k,
                        new_dir@[k],
                    ) && value_at(segs_view(new_segments@), new_dir@[k]) == value_at(
                        ss0,
                        kd0[k],
                    ),
            decreases n - i,
        {
            let key = self.key_dir.key_at(i).clone();
            let ghost k0 = key@;
            proof {
                assert(k0 == ks0[i as int]);
                assert(kd0.contains_key(k0));
            }
            let m = match self.key_dir.get(key.as_str()) {
                Some(m) => m,
                None => {
                    proof {
                        assert(false);
                    }
                    Meta { file_id: 0, offset: 0, len: 0 }
                },
            };
            let v = self.read_at(m, Ghost(k0));
            proof {
                let idx = seg_index(ss0, m.file_id);
                let suffix = ss0[idx].data.skip(m.offset as int);
                lemma_dec_rec_bytes(suffix);
                assert(dec_rec(suffix)->Ok_0.0 == RecV::Put(k0, v@));
                assert(rec_fits(RecV::Put(k0, v@)));
                assert(enc_rec(RecV::Put(k0, v@)).len() == m.len);
                assert(ss0[idx].data.len() <= self.max_segment_bytes);
            }
            let bytes = encode_put(key.as_str(), v.as_str());
            proof {
                lemma_dec_enc_rec(RecV::Put(k0, v@), Seq::empty());
                assert(enc_rec(RecV::Put(k0, v@)) + Seq::<u8>::empty() =~= enc_rec(
                    RecV::Put(k0, v@),
                ));
            }
            let ghost pre_segs = segs_view(new_segments@);
            let ghost pre_dir = new_dir@;
            match append_record(
                &mut new_segments,
                &mut acts,
                self.max_segment_bytes,
                bytes,
                Ghost(RecV::Put(k0, v@)),
                Ghost(Map::<u64, Seq<u8>>::empty()),
            ) {
                Err(_e) => {
                    proof {
                        assert(pre_segs.last().id == u64::MAX);
                        assert(curr0 + self.key_count() + 2 > u64::MAX);
                    }
                    return Err(Error::SegmentIdExhausted);
                },
                Ok(nm) => {
                    proof {
                        assert(!new_dir@.contains_key(k0)) by {
                            if new_dir@.contains_key(k0) {
                                let j = choose|j: int|
                                    0 <= j < new_dir.key_seq().len() && new_dir.key_seq()[j]
                                        == k0;
                                assert(ks0[j] == ks0[i as int]);
                            }
                        }
                    }
                    let prevn = new_dir.insert(key, nm);
                    proof {
                        assert(new_dir.key_seq() =~= ks0.subrange(0, i as int + 1));
                        assert(new_dir@ == pre_dir.insert(ks0[i as int], nm));
                        assert forall|k: Seq<char>| #[trigger]
                            new_dir@.contains_key(k) implies kd0.contains_key(k)
                            && placement_ok(segs_view(new_segments@), k, new_dir@[k])
                            && value_at(segs_view(new_segments@), new_dir@[k]) == value_at(
                            ss0,
                            kd0[k],
                        ) by {
                            if k == ks0[i as int] {
                                assert(placement_points(
                                    segs_view(new_segments@),
                                    nm,
                                    RecV::Put(k0, v@),
                                ));
                                assert(value_at(ss0, kd0[k]) == v@);
                            } else {
                                assert(pre_dir.contains_key(k));
                                assert(placement_ok(pre_segs, k, pre_dir[k]));
                            }
                        }
                    }
                    i += 1;
                },
            }
        }
        // Commit: queue deletions of every old segment, then install the
        // fresh segments and directory.
        let ghost acts_new = acts@;
        let ghost nsv = segs_view(new_segments@);
        let mut j: usize = 0;
        while j < self.segments.len()
            invariant
                *self == *old(self),
                ss0 == self.seg_views(),
                j <= self.segments@.len(),
                acts@ =~= acts_new + del_seq(ss0).take(j as int),
            decreases self.segments@.len() - j,
        {
            let id = self.segments[j].id;
            acts.push(DiskAction::Delete(id));
            proof {
                assert(acts@ =~= acts_new + del_seq(ss0).take(j as int + 1));
            }
            j += 1;
        }
        proof {
            assert(del_seq(ss0).take(ss0.len() as int) =~= del_seq(ss0));
        }
        let ghost ndv = new_dir@;
        let ghost ndk = new_dir.key_seq();
        let ghost pend0 = self.pending@;
        let ghost base0 = self.base_disk@;
        let last_id = new_segments[new_segments.len() - 1].id;
        self.pending.append(&mut acts);
        self.segments = new_segments;
        self.key_dir = new_dir;
        self.curr_file_id = last_id;
        self.useless_size = 0;
        proof {
            assert(self.seg_views() == nsv);
            // The queued actions rebuild the new directory: the fresh
            // files are written beside the old ones, which are then
            // deleted.
            let disk_old = disk_of(ss0);
            let disk_new = disk_of(nsv);
            assert(apply_actions(base0, pend0) == disk_old);
            assert(self.pending@ =~= pend0 + (acts_new + del_seq(ss0)));
            lemma_apply_actions_concat(base0, pend0, acts_new + del_seq(ss0));
            lemma_apply_actions_concat(disk_old, acts_new, del_seq(ss0));
            assert(apply_actions(disk_old, acts_new + del_seq(ss0)) == apply_actions(
                apply_actions(disk_old, acts_new),
                del_seq(ss0),
            ));
            assert forall|t: int|
                0 <= t < acts_new.len() implies !disk_old.contains_key(
                action_id(#[trigger] acts_new[t]),
            ) by {
                lemma_disk_of_dom(ss0, action_id(acts_new[t]));
                if disk_old.contains_key(action_id(acts_new[t])) {
                    let w = choose|w: int|
                        0 <= w < ss0.len() && ss0[w].id == action_id(acts_new[t]);
                    assert(ss0[w].id <= ss0[ss0.len() - 1].id);
                }
            }
            lemma_apply_actions_disjoint(disk_old, acts_new);
            assert(apply_actions(Map::<u64, Seq<u8>>::empty(), acts_new) == disk_new);
            assert forall|i: int|
                0 <= i < ss0.len() implies !disk_new.contains_key((#[trigger] ss0[i]).id) by {
                lemma_disk_of_dom(nsv, ss0[i].id);
                if disk_new.contains_key(ss0[i].id) {
                    let w = choose|w: int| 0 <= w < nsv.len() && nsv[w].id == ss0[i].id;
                    assert(nsv[0].id <= nsv[w].id) by {
                        if w > 0 {
                            assert(nsv[0].id < nsv[w].id);
                        }
                    }
                    assert(ss0[i].id <= ss0[ss0.len() - 1].id);
                }
            }
            lemma_delete_all(ss0, disk_new);
            assert(disk_old.union_prefer_right(disk_new) =~= apply_actions(
                disk_old,
                acts_new,
            ));
            assert(apply_actions(self.base_disk@, self.pending@) == disk_new);
            assert(self.key_dir@ == ndv);
            assert(ks0.subrange(0, n as int) =~= ks0);
            assert forall|k: Seq<char>| kd0.contains_key(k) implies ndv.contains_key(k) by {
                let j2 = choose|j2: int| 0 <= j2 < ks0.len() && ks0[j2] == k;
                assert(ndk[j2] == k);
                assert(self.key_dir@.contains_key(ndk[j2]));
            }
            assert(self.well_formed());
            assert forall|k: Seq<char>| #[trigger] old(self)@.contains_key(k) implies self
                @.contains_key(k) && self@[k] == old(self)@[k] by {
                assert(value_at(nsv, ndv[k]) == value_at(ss0, kd0[k]));
            }
            assert(self@ =~= old(self)@);
            assert forall|t: int| 0 <= t < nsv.len() implies (#[trigger] nsv[t].id)
                > curr0 by {
                if t > 0 {
                    assert(nsv[0].id < nsv[t].id);
                }
            }
        }
        Ok(())
    }
}


impl KvStore {
    /// Binds `key` to `value`, appending one Set record durably to the
    /// log and updating the key directory; rolls to a new segment when
    /// the record would not fit, and compacts when the useless-bytes
    /// estimate crosses the threshold. Fails with `OversizedRecord`,
    /// leaving the store untouched, exactly when the record alone
    /// exceeds the segment cap.
    #[verifier::rlimit(100)]
    pub fn set(&mut self, key: String, value: String) -> (r: Result<(), Error>)
        requires
            old(self).well_formed(),
            old(self).mirror_ok(),
        ensures
            final(self).well_formed(),
            final(self).mirror_ok(),
            final(self).base_disk_view() == old(self).base_disk_view(),
            final(self).seg_cap() == old(self).seg_cap(),
            final(self).threshold() == old(self).threshold(),
            r == Err::<(), Error>(Error::OversizedRecord) <==> enc_rec(
                RecV::Put(key@, value@),
            ).len() > old(self).seg_cap(),
            r == Err::<(), Error>(Error::OversizedRecord) ==> *final(self) == *old(self),
            r is Ok ==> final(self)@ == old(self)@.insert(key@, value@),
            r is Err ==> final(self)@ == old(self)@ || final(self)@ == old(self)@.insert(
                key@,
                value@,
            ),
            r is Err ==> r == Err::<(), Error>(Error::OversizedRecord) || r == Err::<
                (),
                Error,
            >(Error::SegmentIdExhausted),
            enc_rec(RecV::Put(key@, value@)).len() <= old(self).seg_cap() && old(
                self,
            ).curr_id() + old(self).key_count() + 6 <= u64::MAX ==> r is Ok,
            r is Ok ==> final(self).useless() <= final(self).threshold(),
            r is Ok ==> ({
                let acc = sat_add_u64(old(self).useless(), superseded_len(old(self)@, key@));
                if acc <= old(self).threshold() {
                    &&& final(self).useless() == acc
                    &&& appended_record(
                        old(self).seg_views(),
                        final(self).seg_views(),
                        enc_rec(RecV::Put(key@, value@)),
                    )
                    &&& old(self).curr_id() <= final(self).curr_id() <= old(self).curr_id() + 1
                } else {
                    &&& final(self).useless() == 0
                    &&& all_ids_above(final(self).seg_views(), old(self).curr_id())
                }
            }),
            r is Ok ==> final(self).key_count() as int == old(self).key_count() as int + (
            if old(self)@.contains_key(key@) {
                0int
            } else {
                1int
            }),
            final(self).key_count() <= old(self).key_count() + 1,
    {
        let ghost k0 = key@;
        let ghost rv = RecV::Put(key@, value@);
        let kb = crate::codec::str_byte_len(key.as_str());
        let vb = crate::codec::str_byte_len(value.as_str());
        if kb > self.max_segment_bytes || vb > self.max_segment_bytes || 9 + kb + vb
            > self.max_segment_bytes {
            proof {
                assert(enc_rec(rv).len() == 9 + kb + vb);
            }
            return Err(Error::OversizedRecord);
        }
        proof {
            assert(enc_rec(rv).len() == 9 + kb + vb);
            assert(crate::codec::str_fits(key@) && crate::codec::str_fits(value@));
        }
        let bytes = encode_put(key.as_str(), value.as_str());
        proof {
            lemma_dec_enc_rec(rv, Seq::empty());
            assert(enc_rec(rv) + Seq::<u8>::empty() =~= enc_rec(rv));
        }
        let ghost ss0 = self.seg_views();
        let ghost kd0 = self.key_dir@;
        let ghost v0 = self@;
        let m = match append_record(
            &mut self.segments,
            &mut self.pending,
            self.max_segment_bytes,
            bytes,
            Ghost(rv),
            Ghost(self.base_disk@),
        ) {
            Ok(m) => m,
            Err(e) => {
                proof {
                    assert(self.seg_views() == ss0);
                    assert(self.well_formed());
                    assert(self@ =~= v0);
                }
                return Err(e);
            },
        };
        self.curr_file_id = m.file_id;
        let prev = self.key_dir.insert(key, m);
        proof {
            let item = (rv, m.offset as int, m.len as int);
            assert(apply_item(kd0, m.file_id, item) == kd0.insert(k0, m)) by {
                assert(Meta {
                    file_id: m.file_id,
                    offset: m.offset as int as usize,
                    len: m.len as int as usize,
                } == m);
            }
            assert(replay(self.seg_views()) == Some(self.key_dir@));
            assert forall|k: Seq<char>| #[trigger]
                self.key_dir@.contains_key(k) implies placement_ok(
                self.seg_views(),
                k,
                self.key_dir@[k],
            ) by {
                if k == k0 {
                    assert(placement_points(self.seg_views(), m, rv));
                } else {
                    assert(kd0.contains_key(k));
                    assert(placement_ok(ss0, k, kd0[k]));
                }
            }
            assert(self.well_formed());
            assert forall|k: Seq<char>| #[trigger]
                self@.contains_key(k) implies self@[k] == v0.insert(k0, value@)[k] by {
                if k == k0 {
                    assert(placement_points(self.seg_views(), m, rv));
                    assert(value_at(self.seg_views(), m) == value@);
                } else {
                    assert(placement_ok(ss0, k, kd0[k]));
                    assert(value_at(self.seg_views(), kd0[k]) == value_at(ss0, kd0[k]));
                }
            }
            assert(self@ =~= v0.insert(k0, value@));
        }
        proof {
            if v0.contains_key(k0) {
                let p = kd0[k0];
                assert(placement_ok(ss0, k0, p));
                let idx = seg_index(ss0, p.file_id);
                let suffix = ss0[idx].data.skip(p.offset as int);
                lemma_dec_rec_bytes(suffix);
                assert(dec_rec(suffix)->Ok_0.0 == RecV::Put(k0, value_at(ss0, p)));
                assert(value_at(ss0, p) == v0[k0]);
                assert(p.len == superseded_len(v0, k0));
            }
        }
        if let Some(p) = prev {
            self.useless_size = self.useless_size.saturating_add(p.len as u64);
        }
        proof {
            assert(self.useless_size == sat_add_u64(
                old(self).useless(),
                superseded_len(v0, k0),
            ));
            assert(appended_record(ss0, self.seg_views(), enc_rec(rv)));
            assert(ss0.last().id == old(self).curr_id());
        }
        if self.useless_size > self.compact_threshold {
            let ghost mid = *self;
            match self.compact() {
                Ok(()) => {
                    proof {
                        assert(self@ == mid@);
                        assert forall|t: int|
                            0 <= t < self.seg_views().len() implies (#[trigger] self.seg_views()[t].id)
                            > old(self).curr_id() by {
                            assert(self.seg_views()[t].id > mid.curr_id());
                        }
                    }
                },
                Err(e) => {
                    proof {
                        assert(self@ == mid@);
                    }
                    return Err(e);
                },
            }
        }
        Ok(())
    }

    /// Removes `key`, appending one Remove record durably to the log
    /// and dropping the directory entry; compacts when the
    /// useless-bytes estimate crosses the threshold. Fails with
    /// `RemoveNonexistKey`, leaving the store untouched, exactly when
    /// the key is absent.
    #[verifier::rlimit(100)]
    pub fn remove(&mut self, key: String) -> (r: Result<(), Error>)
        requires
            old(self).well_formed(),
            old(self).mirror_ok(),
        ensures
            final(self).well_formed(),
            final(self).mirror_ok(),
            final(self).base_disk_view() == old(self).base_disk_view(),
            final(self).seg_cap() == old(self).seg_cap(),
            final(self).threshold() == old(self).threshold(),
            r == Err::<(), Error>(Error::RemoveNonexistKey) <==> !old(self)@.contains_key(key@),
            r == Err::<(), Error>(Error::RemoveNonexistKey) ==> *final(self) == *old(self),
            r is Ok ==> final(self)@ == old(self)@.remove(key@),
            r is Err ==> final(self)@ == old(self)@ || final(self)@ == old(self)@.remove(key@),
            r is Err ==> r == Err::<(), Error>(Error::RemoveNonexistKey) || r == Err::<
                (),
                Error,
            >(Error::SegmentIdExhausted),
            old(self)@.contains_key(key@) && old(self).curr_id() + old(self).key_count() + 6
                <= u64::MAX ==> r is Ok,
            r is Ok ==> final(self).useless() <= final(self).threshold(),
            r is Ok ==> ({
                let acc = sat_add_u64(old(self).useless(), superseded_len(old(self)@, key@));
                if acc <= old(self).threshold() {
                    &&& final(self).useless() == acc
                    &&& appended_record(
                        old(self).seg_views(),
                        final(self).seg_views(),
                        enc_rec(RecV::Rm(key@)),
                    )
                    &&& old(self).curr_id() <= final(self).curr_id() <= old(self).curr_id() + 1
                } else {
                    &&& final(self).useless() == 0
                    &&& all_ids_above(final(self).seg_views(), old(self).curr_id())
                }
            }),
            r is Ok ==> final(self).key_count() as int == old(self).key_count() as int - 1,
            final(self).key_count() <= old(self).key_count(),
    {
        let ghost k0 = key@;
        let ghost rv = RecV::Rm(key@);
        let ghost ss0 = self.seg_views();
        let ghost kd0 = self.key_dir@;
        let ghost v0 = self@;
        let prev = match self.key_dir.get(key.as_str()) {
            Some(m) => m,
            None => {
                return Err(Error::RemoveNonexistKey);
            },
        };
        proof {
            let idx = seg_index(ss0, prev.file_id);
            let suffix = ss0[idx].data.skip(prev.offset as int);
            lemma_dec_rec_bytes(suffix);
            assert(crate::codec::str_fits(k0));
            assert(enc_rec(dec_rec(suffix)->Ok_0.0).len() == prev.len);
            assert(enc_rec(rv).len() < enc_rec(dec_rec(suffix)->Ok_0.0).len());
            assert(ss0[idx].data.len() <= self.max_segment_bytes);
        }
        let bytes = encode_rm(key.as_str());
        proof {
            lemma_dec_enc_rec(rv, Seq::empty());
            assert(enc_rec(rv) + Seq::<u8>::empty() =~= enc_rec(rv));
        }
        let m = match append_record(
            &mut self.segments,
            &mut self.pending,
            self.max_segment_bytes,
            bytes,
            Ghost(rv),
            Ghost(self.base_disk@),
        ) {
            Ok(m) => m,
            Err(e) => {
                proof {
                    assert(self.seg_views() == ss0);
                    assert(self.well_formed());
                    assert(self@ =~= v0);
                }
                return Err(e);
            },
        };
        self.curr_file_id = m.file_id;
        let _prev2 = self.key_dir.remove(key.as_str());
        proof {
            let item = (rv, m.offset as int, m.len as int);
            assert(apply_item(kd0, m.file_id, item) == kd0.remove(k0));
            assert(replay(self.seg_views()) == Some(self.key_dir@));
            assert forall|k: Seq<char>| #[trigger]
                self.key_dir@.contains_key(k) implies placement_ok(
                self.seg_views(),
                k,
                self.key_dir@[k],
            ) by {
                assert(kd0.contains_key(k));
                assert(placement_ok(ss0, k, kd0[k]));
            }
            assert(self.well_formed());
            assert forall|k: Seq<char>| #[trigger]
                self@.contains_key(k) implies self@[k] == v0.remove(k0)[k] by {
                assert(placement_ok(ss0, k, kd0[k]));
                assert(value_at(self.seg_views(), kd0[k]) == value_at(ss0, kd0[k]));
            }
            assert(self@ =~= v0.remove(k0));
        }
        proof {
            let idx = seg_index(ss0, prev.file_id);
            let suffix = ss0[idx].data.skip(prev.offset as int);
            assert(dec_rec(suffix)->Ok_0.0 == RecV::Put(k0, value_at(ss0, prev)));
            assert(value_at(ss0, prev) == v0[k0]);
            assert(prev.len == superseded_len(v0, k0));
        }
        self.useless_size = self.useless_size.saturating_add(prev.len as u64);
        proof {
            assert(self.useless_size == sat_add_u64(
                old(self).useless(),
                superseded_len(v0, k0),
            ));
            assert(appended_record(ss0, self.seg_views(), enc_rec(rv)));
            assert(ss0.last().id == old(self).curr_id());
        }
        if self.useless_size > self.compact_threshold {
            let ghost mid = *self;
            match self.compact() {
                Ok(()) => {
                    proof {
                        assert(self@ == mid@);
                        assert forall|t: int|
                            0 <= t < self.seg_views().len() implies (#[trigger] self.seg_views()[t].id)
                            > old(self).curr_id() by {
                            assert(self.seg_views()[t].id > mid.curr_id());
                        }
                    }
                },
                Err(e) => {
                    proof {
                        assert(self@ == mid@);
                    }
                    return Err(e);
                },
            }
        }
        Ok(())
    }
}


impl KvStore {
    /// The modeled segment files, ascending by id: what a data
    /// directory holding this store's state contains.
    pub fn segment_files(&self) -> (r: &Vec<SegmentFile>)
        ensures
            segs_view(r@) == self.seg_views(),
    {
        &self.segments
    }

    /// How many disk actions are queued.
    pub closed spec fn pending_count(&self) -> nat {
        self.pending@.len()
    }

    /// The queued disk actions.
    pub closed spec fn pending_view(&self) -> Seq<DiskAction> {
        self.pending@
    }

    /// Hands out the queued disk actions, emptying the queue. A caller
    /// that mirrors the store onto real files applies them in order:
    /// applied to the directory as it stood after the last drain, they
    /// rebuild exactly the directory the current segments describe.
    pub fn take_actions(&mut self) -> (r: Vec<DiskAction>)
        requires
            old(self).mirror_ok(),
        ensures
            final(self).seg_views() == old(self).seg_views(),
            final(self)@ == old(self)@,
            final(self).well_formed() == old(self).well_formed(),
            final(self).seg_cap() == old(self).seg_cap(),
            final(self).threshold() == old(self).threshold(),
            final(self).curr_id() == old(self).curr_id(),
            final(self).useless() == old(self).useless(),
            final(self).key_count() == old(self).key_count(),
            final(self).pending_count() == 0,
            r@ == old(self).pending_view(),
            apply_actions(old(self).base_disk_view(), r@) == disk_of(old(self).seg_views()),
            final(self).mirror_ok(),
            final(self).base_disk_view() == disk_of(final(self).seg_views()),
    {
        let mut out: Vec<DiskAction> = Vec::new();
        core::mem::swap(&mut out, &mut self.pending);
        proof {
            self.base_disk@ = disk_of(self.seg_views());
            assert(apply_actions(self.base_disk@, Seq::<DiskAction>::empty()) == self.base_disk@);
        }
        out
    }
}

impl KvStore {
    /// What well-formedness guarantees, restated for callers outside
    /// this module: bounded, ascending, parseable segments whose replay
    /// is exactly the key directory, which in turn determines the view.
    pub proof fn lemma_well_formed_unfold(s: KvStore)
        requires
            s.well_formed(),
        ensures
            seg_inv(s.seg_views(), s.seg_cap()),
            replay(s.seg_views()) is Some,
            forall|k: Seq<char>| #[trigger]
                s@.contains_key(k) == replay(s.seg_views())->0.contains_key(k),
            forall|k: Seq<char>| #[trigger]
                s@.contains_key(k) ==> s@[k] == value_at(
                    s.seg_views(),
                    replay(s.seg_views())->0[k],
                ),
    {
    }
}

impl crate::engine::KvsEngine for KvStore {
    /// The store is healthy when well-formed and in step with its
    /// mirrored directory.
    closed spec fn inv(&self) -> bool {
        self.well_formed() && self.mirror_ok()
    }

    /// The mapping is the store's view.
    closed spec fn kv(&self) -> Map<Seq<char>, Seq<char>> {
        self@
    }

    fn set(&mut self, key: String, value: String) -> (r: Result<(), Error>) {
        KvStore::set(self, key, value)
    }

    fn get(&self, key: &str) -> (r: Result<Option<String>, Error>) {
        KvStore::get(self, key)
    }

    fn remove(&mut self, key: String) -> (r: Result<(), Error>) {
        KvStore::remove(self, key)
    }
}


/// The position of the first dot in a file name, or its length when
/// there is none.
pub open spec fn first_dot(s: Seq<u8>) -> int
    decreases s.len(),
{
    if s.len() == 0 {
        0
    } else if s[0] == 0x2e {
        0
    } else {
        1 + first_dot(s.skip(1))
    }
}

proof fn lemma_first_dot_char(s: Seq<u8>, i: int)
    requires
        0 <= i <= s.len(),
        forall|j: int| 0 <= j < i ==> s[j] != 0x2e,
        i < s.len() ==> s[i] == 0x2e,
    ensures
        first_dot(s) == i,
    decreases s.len(),
{
    if s.len() > 0 && s[0] != 0x2e {
        lemma_first_dot_char(s.skip(1), i - 1);
    }
}

/// Whether every byte is an ASCII decimal digit.
pub open spec fn all_digits(ds: Seq<u8>) -> bool {
    forall|i: int| 0 <= i < ds.len() ==> 0x30 <= #[trigger] ds[i] <= 0x39
}

/// The number a run of decimal digit bytes denotes.
pub open spec fn digits_val(ds: Seq<u8>) -> int
    decreases ds.len(),
{
    if ds.len() == 0 {
        0
    } else {
        digits_val(ds.drop_last()) * 10 + (ds.last() - 0x30)
    }
}

proof fn lemma_digits_val_nonneg(ds: Seq<u8>)
    requires
        all_digits(ds),
    ensures
        digits_val(ds) >= 0,
    decreases ds.len(),
{
    if ds.len() > 0 {
        assert(all_digits(ds.drop_last()));
        lemma_digits_val_nonneg(ds.drop_last());
    }
}

proof fn lemma_digits_val_mono(ds: Seq<u8>, i: int)
    requires
        all_digits(ds),
        0 <= i <= ds.len(),
    ensures
        digits_val(ds.take(i)) <= digits_val(ds),
    decreases ds.len() - i,
{
    if i < ds.len() {
        assert(ds.take(i + 1).drop_last() =~= ds.take(i));
        assert(all_digits(ds.take(i)));
        lemma_digits_val_nonneg(ds.take(i));
        assert(digits_val(ds.take(i + 1)) == digits_val(ds.take(i)) * 10 + (
        ds.take(i + 1).last() - 0x30));
        lemma_digits_val_mono(ds, i + 1);
    } else {
        assert(ds.take(i) =~= ds);
    }
}

/// The segment id a file name denotes: the digits before the first dot
/// (or the whole name, dotless) read as a decimal number, provided it
/// fits the id space files are named from. Any other name is not a
/// segment file and is ignored at open.
pub open spec fn parse_id(name: Seq<u8>) -> Option<u64> {
    let prefix = name.take(first_dot(name));
    if prefix.len() > 0 && all_digits(prefix) && digits_val(prefix) <= u32::MAX as int {
        Some(digits_val(prefix) as u64)
    } else {
        None
    }
}

/// Reads a segment id out of a file name given as bytes.
pub fn parse_segment_id(name: &[u8]) -> (r: Option<u64>)
    ensures
        r == parse_id(name@),
{
    let mut dot: usize = 0;
    while dot < name.len() && name[dot] != 0x2e
        invariant
            dot <= name@.len(),
            forall|j: int| 0 <= j < dot ==> name@[j] != 0x2e,
        decreases name@.len() - dot,
    {
        dot += 1;
    }
    proof {
        lemma_first_dot_char(name@, dot as int);
    }
    let ghost prefix = name@.take(dot as int);
    if dot == 0 {
        return None;
    }
    let mut val: u64 = 0;
    let mut i: usize = 0;
    while i < dot
        invariant
            1 <= dot,
            i <= dot <= name@.len(),
            first_dot(name@) == dot as int,
            prefix == name@.take(dot as int),
            forall|j: int| 0 <= j < i ==> 0x30 <= #[trigger] prefix[j] <= 0x39,
            val == digits_val(prefix.take(i as int)),
            val <= u32::MAX,
        decreases dot - i,
    {
        let b = name[i];
        proof {
            assert(prefix[i as int] == name@[i as int]);
        }
        if b < 0x30 || b > 0x39 {
            proof {
                assert(!(0x30 <= prefix[i as int] <= 0x39));
                assert(!all_digits(prefix));
            }
            return None;
        }
        proof {
            assert(prefix.take(i as int + 1).drop_last() =~= prefix.take(i as int));
            assert(prefix.take(i as int + 1).last() == b);
        }
        let next: u64 = val * 10 + ((b - 0x30) as u64);
        if next > 0xffff_ffff {
            proof {
                if all_digits(prefix) {
                    lemma_digits_val_mono(prefix, i as int + 1);
                }
            }
            return None;
        }
        val = next;
        i += 1;
    }
    proof {
        assert(prefix.take(dot as int) =~= prefix);
    }
    Some(val)
}

} // verus!
