use crate::aqfs::{Error, FileMeta, FileMetaView, Path, Timestamp};
use crate::codec::{
    dec_file, decode_journal_file, enc_file, encode_journal_file, file_wf, journal_path, meta_wf,
    record_wf, str_len_ok, Journal, JournalFile, JournalRecord, JournalRecordView, JournalView,
};
use crate::keys::{
    bytes_le, bytes_le_exec, content_key_bytes, make_content_key, make_segment_key,
    segment_key_bytes,
};
use vstd::multiset::Multiset;
use vstd::prelude::*;
use vstd::utf8::encode_utf8;

verus! {

broadcast use vstd::seq_lib::group_to_multiset_ensures;
// ---------------------------------------------------------------------
// Reconstructed entries
// ---------------------------------------------------------------------

/// One file of the reconstructed remote snapshot: its metadata and the key
/// of the content object that holds its bytes. Reading the content is a
/// separate fetch at that key, done on demand.
#[derive(Debug)]
pub struct RemoteEntry {
    pub meta: FileMeta,
    pub content_key: String,
}

/// The mathematical value of a `RemoteEntry`.
#[verifier::ext_equal]
pub struct EntryView {
    pub meta: FileMetaView,
    pub content_key: Seq<char>,
}

impl View for RemoteEntry {
    type V = EntryView;

    open spec fn view(&self) -> EntryView {
        EntryView { meta: self.meta@, content_key: self.content_key@ }
    }
}

impl DeepView for RemoteEntry {
    type V = EntryView;

    open spec fn deep_view(&self) -> EntryView {
        self@
    }
}

impl Clone for RemoteEntry {
    fn clone(&self) -> (r: Self)
        ensures
            r@ == self@,
    {
        RemoteEntry { meta: self.meta.clone(), content_key: self.content_key.clone() }
    }
}

// ---------------------------------------------------------------------
// Replay
// ---------------------------------------------------------------------

/// The effect of one record on a snapshot: a creation inserts or
/// overwrites the entry at its path, a removal deletes it.
pub open spec fn replay_step(
    m: Map<Seq<Seq<char>>, EntryView>,
    r: JournalRecordView,
) -> Map<Seq<Seq<char>>, EntryView> {
    match r.journal {
        JournalView::CreateFile { meta, key } => m.insert(
            meta.path,
            EntryView { meta, content_key: key },
        ),
        JournalView::RemoveFile { meta } => m.remove(meta.path),
    }
}

/// Replay: folding a record list, in order, into a path-to-entry mapping.
pub open spec fn replay(rs: Seq<JournalRecordView>) -> Map<Seq<Seq<char>>, EntryView>
    decreases rs.len(),
{
    if rs.len() == 0 {
        Map::empty()
    } else {
        replay_step(replay(rs.drop_last()), rs.last())
    }
}

/// Appending a record replays as one more step.
pub proof fn lemma_replay_push(rs: Seq<JournalRecordView>, r: JournalRecordView)
    ensures
        replay(rs.push(r)) == replay_step(replay(rs), r),
{
    assert(rs.push(r).drop_last() =~= rs);
}

/// A creation appended to any journal puts its entry into the snapshot,
/// whatever the journal already held: the store never checks for an
/// existing record before appending.
pub proof fn lemma_replay_create(
    rs: Seq<JournalRecordView>,
    meta: FileMetaView,
    key: Seq<char>,
    t: Timestamp,
    rkey: Seq<char>,
)
    ensures
        replay(
            rs.push(
                JournalRecordView {
                    journal: JournalView::CreateFile { meta, key },
                    timestamp: t,
                    key: rkey,
                },
            ),
        ) == replay(rs).insert(meta.path, EntryView { meta, content_key: key }),
{
    lemma_replay_push(
        rs,
        JournalRecordView { journal: JournalView::CreateFile { meta, key }, timestamp: t, key: rkey },
    );
}

/// A removal appended to any journal takes its path out of the snapshot;
/// removing an absent path leaves the snapshot as it was.
pub proof fn lemma_replay_remove(
    rs: Seq<JournalRecordView>,
    meta: FileMetaView,
    t: Timestamp,
    rkey: Seq<char>,
)
    ensures
        replay(
            rs.push(
                JournalRecordView {
                    journal: JournalView::RemoveFile { meta },
                    timestamp: t,
                    key: rkey,
                },
            ),
        ) == replay(rs).remove(meta.path),
{
    lemma_replay_push(
        rs,
        JournalRecordView { journal: JournalView::RemoveFile { meta }, timestamp: t, key: rkey },
    );
}

/// A path no record speaks of is absent from the snapshot.
pub proof fn lemma_replay_absent(rs: Seq<JournalRecordView>, p: Seq<Seq<char>>)
    requires
        forall|j: int| 0 <= j < rs.len() ==> journal_path(#[trigger] rs[j].journal) != p,
    ensures
        !replay(rs).contains_key(p),
    decreases rs.len(),
{
    if rs.len() > 0 {
        assert(forall|j: int|
            0 <= j < rs.drop_last().len() ==> journal_path(
                #[trigger] rs.drop_last()[j].journal,
            ) != p);
        lemma_replay_absent(rs.drop_last(), p);
        assert(journal_path(rs.last().journal) != p);
    }
}

/// Last key wins: a path's reconstructed state is the effect of the last
/// record in replay order that names it. A later creation shows exactly
/// that record's metadata and content key; a later removal leaves the path
/// out, whatever came before.
pub proof fn lemma_replay_last_op(rs: Seq<JournalRecordView>, i: int)
    requires
        0 <= i < rs.len(),
        forall|j: int|
            i < j < rs.len() ==> journal_path(#[trigger] rs[j].journal) != journal_path(
                rs[i].journal,
            ),
    ensures
        (match rs[i].journal {
            JournalView::CreateFile { meta, key } => replay(rs).contains_key(meta.path) && replay(
                rs,
            )[meta.path] == (EntryView { meta, content_key: key }),
            JournalView::RemoveFile { meta } => !replay(rs).contains_key(meta.path),
        }),
    decreases rs.len(),
{
    if i == rs.len() - 1 {
    } else {
        assert(rs.drop_last()[i] == rs[i]);
        assert(forall|j: int|
            i < j < rs.drop_last().len() ==> journal_path(#[trigger] rs.drop_last()[j].journal)
                != journal_path(rs.drop_last()[i].journal));
        lemma_replay_last_op(rs.drop_last(), i);
        assert(journal_path(rs.last().journal) != journal_path(rs[i].journal));
    }
}

// ---------------------------------------------------------------------
// Segments and the snapshot of a segment set
// ---------------------------------------------------------------------

/// One journal segment as fetched from the object store: its key and its
/// raw bytes.
#[derive(Debug)]
pub struct Segment {
    pub key: String,
    pub data: Vec<u8>,
}

/// The mathematical value of a `Segment`.
#[verifier::ext_equal]
pub struct SegmentView {
    pub key: Seq<char>,
    pub data: Seq<u8>,
}

impl View for Segment {
    type V = SegmentView;

    open spec fn view(&self) -> SegmentView {
        SegmentView { key: self.key@, data: self.data@ }
    }
}

impl DeepView for Segment {
    type V = SegmentView;

    open spec fn deep_view(&self) -> SegmentView {
        self@
    }
}

/// A segment's key, as the byte string the object store sorts by.
pub open spec fn seg_key(s: SegmentView) -> Seq<u8> {
    encode_utf8(s.key)
}

/// The segments stand in ascending key order: the replay order.
pub open spec fn segs_sorted(s: Seq<SegmentView>) -> bool {
    forall|i: int, j: int| 0 <= i < j < s.len() ==> bytes_le(seg_key(#[trigger] s[i]), seg_key(#[trigger] s[j]))
}

/// No two segments share a key, as holds of any object-store listing.
pub open spec fn seg_keys_unique(s: Seq<SegmentView>) -> bool {
    forall|i: int, j: int|
        0 <= i < s.len() && 0 <= j < s.len() && i != j ==> seg_key(#[trigger] s[i]) != seg_key(
            #[trigger] s[j],
        )
}

/// Every segment of the set decodes.
pub open spec fn all_decode(s: Seq<SegmentView>) -> bool {
    forall|i: int| 0 <= i < s.len() ==> dec_file((#[trigger] s[i]).data) is Some
}

/// The records a segment carries, in their order within the segment.
pub open spec fn seg_records(s: SegmentView) -> Seq<JournalRecordView> {
    match dec_file(s.data) {
        Some(rs) => rs,
        None => Seq::empty(),
    }
}

/// The records of a segment list, segment by segment.
pub open spec fn concat_records(s: Seq<SegmentView>) -> Seq<JournalRecordView>
    decreases s.len(),
{
    if s.len() == 0 {
        Seq::empty()
    } else {
        seg_records(s.first()) + concat_records(s.drop_first())
    }
}

pub proof fn lemma_concat_records_snoc(s: Seq<SegmentView>, x: SegmentView)
    ensures
        concat_records(s.push(x)) == concat_records(s) + seg_records(x),
    decreases s.len(),
{
    if s.len() == 0 {
        reveal_with_fuel(concat_records, 2);
        assert(s.push(x).drop_first() =~= Seq::<SegmentView>::empty());
        assert(concat_records(s.push(x)) =~= concat_records(s) + seg_records(x));
    } else {
        assert(s.push(x).drop_first() =~= s.drop_first().push(x));
        assert(s.push(x).first() == s.first());
        lemma_concat_records_snoc(s.drop_first(), x);
        assert(concat_records(s.push(x)) =~= concat_records(s) + seg_records(x));
    }
}

/// Concatenated records split at any segment boundary.
pub proof fn lemma_concat_records_split(s: Seq<SegmentView>, k: int)
    requires
        0 <= k <= s.len(),
    ensures
        concat_records(s) == concat_records(s.take(k)) + concat_records(s.skip(k)),
    decreases k,
{
    if k == 0 {
        assert(s.take(0) =~= Seq::<SegmentView>::empty());
        assert(s.skip(0) =~= s);
        assert(concat_records(s.take(0)) + concat_records(s) =~= concat_records(s));
    } else {
        lemma_concat_records_split(s.drop_first(), k - 1);
        assert(s.take(k).first() == s.first());
        assert(s.take(k).drop_first() =~= s.drop_first().take(k - 1));
        assert(s.skip(k) =~= s.drop_first().skip(k - 1));
        assert(concat_records(s) =~= concat_records(s.take(k)) + concat_records(s.skip(k)));
    }
}

/// When no segment of a list carries a record naming `p`, neither does the
/// list's concatenation.
proof fn lemma_concat_records_no_path(s: Seq<SegmentView>, p: Seq<Seq<char>>)
    requires
        forall|j: int, r: int|
            0 <= j < s.len() && 0 <= r < seg_records(#[trigger] s[j]).len() ==> journal_path(
                #[trigger] seg_records(s[j])[r].journal,
            ) != p,
    ensures
        forall|r: int|
            0 <= r < concat_records(s).len() ==> journal_path(
                #[trigger] concat_records(s)[r].journal,
            ) != p,
    decreases s.len(),
{
    if s.len() > 0 {
        assert(forall|j: int, r: int|
            0 <= j < s.drop_first().len() && 0 <= r < seg_records(
                #[trigger] s.drop_first()[j],
            ).len() ==> journal_path(#[trigger] seg_records(s.drop_first()[j])[r].journal) != p);
        lemma_concat_records_no_path(s.drop_first(), p);
        let head = seg_records(s.first());
        let rest = concat_records(s.drop_first());
        assert(s[0] == s.first());
        assert forall|r: int| 0 <= r < concat_records(s).len() implies journal_path(
            #[trigger] concat_records(s)[r].journal,
        ) != p by {
            if r < head.len() {
                assert(concat_records(s)[r] == head[r]);
            } else {
                assert(concat_records(s)[r] == rest[r - head.len()]);
            }
        }
    }
}

/// Last creation wins, over any segment set: a segment that decodes to the
/// single creation record for a path, with no later segment carrying any
/// record naming that path, fixes the reconstructed entry at that path to
/// exactly that record's metadata and content key.
pub proof fn lemma_snapshot_last_create(
    sorted: Seq<SegmentView>,
    i: int,
    meta: FileMetaView,
    ckey: Seq<char>,
    t: Timestamp,
    skey: Seq<char>,
)
    requires
        0 <= i < sorted.len(),
        dec_file(sorted[i].data) == Some(seq![create_record(meta, ckey, t, skey)]),
        forall|j: int, r: int|
            i < j < sorted.len() && 0 <= r < seg_records(#[trigger] sorted[j]).len()
                ==> journal_path(#[trigger] seg_records(sorted[j])[r].journal) != meta.path,
    ensures
        snapshot_of(sorted).contains_key(meta.path),
        snapshot_of(sorted)[meta.path] == (EntryView { meta, content_key: ckey }),
{
    let rec = create_record(meta, ckey, t, skey);
    let rs = concat_records(sorted);
    let a = concat_records(sorted.take(i));
    let b = concat_records(sorted.skip(i + 1));
    lemma_concat_records_split(sorted, i + 1);
    lemma_concat_records_snoc(sorted.take(i), sorted[i]);
    assert(sorted.take(i + 1) =~= sorted.take(i).push(sorted[i]));
    assert(seg_records(sorted[i]) =~= seq![rec]);
    assert(rs =~= a + seq![rec] + b);
    let idx = a.len() as int;
    assert(rs[idx] == rec);
    assert(forall|j: int, r: int|
        0 <= j < sorted.skip(i + 1).len() && 0 <= r < seg_records(
            #[trigger] sorted.skip(i + 1)[j],
        ).len() ==> journal_path(#[trigger] seg_records(sorted.skip(i + 1)[j])[r].journal)
            != meta.path);
    lemma_concat_records_no_path(sorted.skip(i + 1), meta.path);
    assert forall|j2: int| idx < j2 < rs.len() implies journal_path(
        #[trigger] rs[j2].journal,
    ) != meta.path by {
        assert(rs[j2] == b[j2 - idx - 1]);
        assert(journal_path(b[j2 - idx - 1].journal) != meta.path);
    }
    assert(journal_path(rs[idx].journal) == meta.path);
    lemma_replay_last_op(rs, idx);
}

/// Last removal wins, over any segment set: a segment that decodes to the
/// single tombstone for a path, with no later segment carrying any record
/// naming that path, excludes the path from the reconstruction — whatever
/// creations came before.
pub proof fn lemma_snapshot_last_remove(
    sorted: Seq<SegmentView>,
    i: int,
    meta: FileMetaView,
    t: Timestamp,
    skey: Seq<char>,
)
    requires
        0 <= i < sorted.len(),
        dec_file(sorted[i].data) == Some(seq![remove_record(meta, t, skey)]),
        forall|j: int, r: int|
            i < j < sorted.len() && 0 <= r < seg_records(#[trigger] sorted[j]).len()
                ==> journal_path(#[trigger] seg_records(sorted[j])[r].journal) != meta.path,
    ensures
        !snapshot_of(sorted).contains_key(meta.path),
{
    let rec = remove_record(meta, t, skey);
    let rs = concat_records(sorted);
    let a = concat_records(sorted.take(i));
    let b = concat_records(sorted.skip(i + 1));
    lemma_concat_records_split(sorted, i + 1);
    lemma_concat_records_snoc(sorted.take(i), sorted[i]);
    assert(sorted.take(i + 1) =~= sorted.take(i).push(sorted[i]));
    assert(seg_records(sorted[i]) =~= seq![rec]);
    assert(rs =~= a + seq![rec] + b);
    let idx = a.len() as int;
    assert(rs[idx] == rec);
    assert(forall|j: int, r: int|
        0 <= j < sorted.skip(i + 1).len() && 0 <= r < seg_records(
            #[trigger] sorted.skip(i + 1)[j],
        ).len() ==> journal_path(#[trigger] seg_records(sorted.skip(i + 1)[j])[r].journal)
            != meta.path);
    lemma_concat_records_no_path(sorted.skip(i + 1), meta.path);
    assert forall|j2: int| idx < j2 < rs.len() implies journal_path(
        #[trigger] rs[j2].journal,
    ) != meta.path by {
        assert(rs[j2] == b[j2 - idx - 1]);
        assert(journal_path(b[j2 - idx - 1].journal) != meta.path);
    }
    assert(journal_path(rs[idx].journal) == meta.path);
    lemma_replay_last_op(rs, idx);
}

/// In a key-sorted, key-unique listing, "no later segment names the path"
/// is exactly "every other segment naming the path has a smaller key": a
/// creation whose segment key sorts last among all segments naming its path
/// decides the path's entry.
pub proof fn lemma_snapshot_last_create_by_key(
    sorted: Seq<SegmentView>,
    i: int,
    meta: FileMetaView,
    ckey: Seq<char>,
    t: Timestamp,
    skey: Seq<char>,
)
    requires
        segs_sorted(sorted),
        seg_keys_unique(sorted),
        0 <= i < sorted.len(),
        dec_file(sorted[i].data) == Some(seq![create_record(meta, ckey, t, skey)]),
        forall|j: int, r: int|
            0 <= j < sorted.len() && j != i && 0 <= r < seg_records(#[trigger] sorted[j]).len()
                && journal_path(#[trigger] seg_records(sorted[j])[r].journal) == meta.path
                ==> crate::keys::bytes_lt(seg_key(sorted[j]), seg_key(sorted[i])),
    ensures
        snapshot_of(sorted).contains_key(meta.path),
        snapshot_of(sorted)[meta.path] == (EntryView { meta, content_key: ckey }),
{
    assert forall|j: int, r: int|
        i < j < sorted.len() && 0 <= r < seg_records(#[trigger] sorted[j]).len()
            implies journal_path(#[trigger] seg_records(sorted[j])[r].journal) != meta.path by {
        if journal_path(seg_records(sorted[j])[r].journal) == meta.path {
            assert(crate::keys::bytes_lt(seg_key(sorted[j]), seg_key(sorted[i])));
            assert(bytes_le(seg_key(sorted[i]), seg_key(sorted[j])));
            crate::keys::lemma_bytes_le_antisym(seg_key(sorted[i]), seg_key(sorted[j]));
            assert(seg_key(sorted[i]) != seg_key(sorted[j]));
        }
    }
    lemma_snapshot_last_create(sorted, i, meta, ckey, t, skey);
}

/// The tombstone twin: a removal whose segment key sorts last among all
/// segments naming its path excludes the path, wall-clock truth aside.
pub proof fn lemma_snapshot_last_remove_by_key(
    sorted: Seq<SegmentView>,
    i: int,
    meta: FileMetaView,
    t: Timestamp,
    skey: Seq<char>,
)
    requires
        segs_sorted(sorted),
        seg_keys_unique(sorted),
        0 <= i < sorted.len(),
        dec_file(sorted[i].data) == Some(seq![remove_record(meta, t, skey)]),
        forall|j: int, r: int|
            0 <= j < sorted.len() && j != i && 0 <= r < seg_records(#[trigger] sorted[j]).len()
                && journal_path(#[trigger] seg_records(sorted[j])[r].journal) == meta.path
                ==> crate::keys::bytes_lt(seg_key(sorted[j]), seg_key(sorted[i])),
    ensures
        !snapshot_of(sorted).contains_key(meta.path),
{
    assert forall|j: int, r: int|
        i < j < sorted.len() && 0 <= r < seg_records(#[trigger] sorted[j]).len()
            implies journal_path(#[trigger] seg_records(sorted[j])[r].journal) != meta.path by {
        if journal_path(seg_records(sorted[j])[r].journal) == meta.path {
            assert(crate::keys::bytes_lt(seg_key(sorted[j]), seg_key(sorted[i])));
            assert(bytes_le(seg_key(sorted[i]), seg_key(sorted[j])));
            crate::keys::lemma_bytes_le_antisym(seg_key(sorted[i]), seg_key(sorted[j]));
            assert(seg_key(sorted[i]) != seg_key(sorted[j]));
        }
    }
    lemma_snapshot_last_remove(sorted, i, meta, t, skey);
}

/// A sorted permutation of a fetched segment list: the same segments, in
/// ascending key order. Segments whose keys tie (which a real listing
/// never yields) may stand in either order.
pub open spec fn sorted_perm_of(sorted: Seq<SegmentView>, orig: Seq<SegmentView>) -> bool {
    &&& sorted.to_multiset() == orig.to_multiset()
    &&& segs_sorted(sorted)
}

/// The snapshot a sorted segment list reconstructs.
pub open spec fn snapshot_of(sorted: Seq<SegmentView>) -> Map<Seq<Seq<char>>, EntryView> {
    replay(concat_records(sorted))
}

/// Key uniqueness survives reordering.
pub proof fn lemma_perm_keys_unique(orig: Seq<SegmentView>, s: Seq<SegmentView>)
    requires
        s.to_multiset() == orig.to_multiset(),
        seg_keys_unique(orig),
    ensures
        seg_keys_unique(s),
{
    assert forall|i: int, j: int|
        0 <= i < s.len() && 0 <= j < s.len() && i != j implies seg_key(#[trigger] s[i]) != seg_key(
        #[trigger] s[j],
    ) by {
        if seg_key(s[i]) == seg_key(s[j]) {
            s.to_multiset_ensures();
            orig.to_multiset_ensures();
            s.remove(i).to_multiset_ensures();
            orig.remove(
                choose|a: int| 0 <= a < orig.len() && orig[a] == s[i],
            ).to_multiset_ensures();
            assert(s.contains(s[i]));
            assert(s.contains(s[j]));
            assert(orig.to_multiset().count(s[i]) > 0);
            assert(orig.contains(s[i]));
            assert(orig.to_multiset().count(s[j]) > 0);
            assert(orig.contains(s[j]));
            let a = choose|a: int| 0 <= a < orig.len() && orig[a] == s[i];
            let b = choose|b: int| 0 <= b < orig.len() && orig[b] == s[j];
            if a != b {
                assert(seg_key(orig[a]) != seg_key(orig[b]));
            } else {
                let v = s[i];
                assert(s[j] == v);
                assert(s.remove(i).to_multiset() =~= s.to_multiset().remove(v));
                let j2 = if j < i {
                    j
                } else {
                    j - 1
                };
                assert(s.remove(i)[j2] == v);
                assert(s.remove(i).contains(v));
                assert(s.remove(i).to_multiset().count(v) > 0);
                assert(s.to_multiset().count(v) >= 2);
                assert(orig.to_multiset().count(v) >= 2);
                assert(orig.remove(a).to_multiset() =~= orig.to_multiset().remove(v));
                assert(orig.remove(a).to_multiset().count(v) > 0);
                assert(orig.remove(a).contains(v));
                let b2 = choose|b2: int| 0 <= b2 < orig.remove(a).len() && orig.remove(a)[b2] == v;
                let b3 = if b2 < a {
                    b2
                } else {
                    b2 + 1
                };
                assert(orig.remove(a)[b2] == orig[b3]);
                assert(b3 != a);
                assert(seg_key(orig[a]) != seg_key(orig[b3]));
            }
        }
    }
}

/// Replay determinism: one segment set has only one sorted order when its
/// keys are unique, so any two reconstructions of an unmodified remote
/// agree.
pub proof fn lemma_sorted_perm_unique(s1: Seq<SegmentView>, s2: Seq<SegmentView>)
    requires
        s1.to_multiset() == s2.to_multiset(),
        segs_sorted(s1),
        segs_sorted(s2),
        seg_keys_unique(s1),
    ensures
        s1 == s2,
    decreases s1.len(),
{
    if s1.len() == 0 {
        assert(s2.to_multiset().len() == 0);
        assert(s1 =~= s2);
    } else {
        s1.to_multiset_ensures();
        s2.to_multiset_ensures();
        assert(s2.to_multiset().len() == s1.to_multiset().len());
        assert(s2.len() > 0);
        assert(s2.contains(s2[0]));
        assert(s1.to_multiset().count(s2[0]) > 0);
        assert(s1.contains(s2[0]));
        let i = choose|i: int| 0 <= i < s1.len() && s1[i] == s2[0];
        assert(s1.contains(s1[0]));
        assert(s2.to_multiset().count(s1[0]) > 0);
        assert(s2.contains(s1[0]));
        let j = choose|j: int| 0 <= j < s2.len() && s2[j] == s1[0];
        if i != 0 {
            assert(bytes_le(seg_key(s1[0]), seg_key(s1[i])));
            if j != 0 {
                assert(bytes_le(seg_key(s2[0]), seg_key(s2[j])));
                crate::keys::lemma_bytes_le_antisym(seg_key(s1[0]), seg_key(s2[0]));
                assert(seg_key(s1[i]) != seg_key(s1[0]));
                assert(false);
            } else {
                assert(s2[0] == s1[0]);
            }
        } else {
            assert(s2[0] == s1[0]);
        }
        let t1 = s1.drop_first();
        let t2 = s2.drop_first();
        assert(s1.remove(0) =~= t1);
        assert(s2.remove(0) =~= t2);
        assert(t1.to_multiset() =~= s1.to_multiset().remove(s1[0]));
        assert(t2.to_multiset() =~= s2.to_multiset().remove(s2[0]));
        assert(t1.to_multiset() == t2.to_multiset());
        assert(segs_sorted(t1)) by {
            assert(forall|x: int, y: int|
                0 <= x < y < t1.len() ==> bytes_le(
                    seg_key(#[trigger] t1[x]),
                    seg_key(#[trigger] t1[y]),
                ));
        }
        assert(segs_sorted(t2)) by {
            assert(forall|x: int, y: int|
                0 <= x < y < t2.len() ==> bytes_le(
                    seg_key(#[trigger] t2[x]),
                    seg_key(#[trigger] t2[y]),
                ));
        }
        assert(seg_keys_unique(t1)) by {
            assert(forall|x: int, y: int|
                0 <= x < t1.len() && 0 <= y < t1.len() && x != y ==> seg_key(#[trigger] t1[x])
                    != seg_key(#[trigger] t1[y]));
        }
        lemma_sorted_perm_unique(t1, t2);
        assert(s1 =~= seq![s1[0]] + t1);
        assert(s2 =~= seq![s2[0]] + t2);
    }
}

/// Reconstruction is deterministic over an unmodified remote: any two
/// sorted orders of one key-unique segment set replay to the same
/// snapshot.
pub proof fn lemma_snapshot_deterministic(
    orig: Seq<SegmentView>,
    s1: Seq<SegmentView>,
    s2: Seq<SegmentView>,
)
    requires
        seg_keys_unique(orig),
        sorted_perm_of(s1, orig),
        sorted_perm_of(s2, orig),
    ensures
        snapshot_of(s1) == snapshot_of(s2),
{
    lemma_perm_keys_unique(orig, s1);
    lemma_sorted_perm_unique(s1, s2);
}

/// Creating a file appends one segment; when its key sorts after every
/// existing key — as a fresh key minted at a later instant does — the
/// reconstructed snapshot is exactly the old snapshot with the new entry
/// inserted, whatever the journal already held.
pub proof fn lemma_snapshot_append_create(
    sorted: Seq<SegmentView>,
    seg: SegmentView,
    meta: FileMetaView,
    ckey: Seq<char>,
    t: Timestamp,
    skey: Seq<char>,
)
    requires
        segs_sorted(sorted),
        dec_file(seg.data) == Some(seq![create_record(meta, ckey, t, skey)]),
        forall|i: int|
            0 <= i < sorted.len() ==> crate::keys::bytes_lt(seg_key(#[trigger] sorted[i]), seg_key(seg)),
    ensures
        segs_sorted(sorted.push(seg)),
        snapshot_of(sorted.push(seg)) == snapshot_of(sorted).insert(
            meta.path,
            EntryView { meta, content_key: ckey },
        ),
{
    lemma_concat_records_snoc(sorted, seg);
    let rs = concat_records(sorted);
    let rec = create_record(meta, ckey, t, skey);
    assert(seg_records(seg) =~= seq![rec]);
    assert(rs + seq![rec] =~= rs.push(rec));
    lemma_replay_create(rs, meta, ckey, t, skey);
    assert forall|i: int, j: int| 0 <= i < j < sorted.push(seg).len() implies bytes_le(
        seg_key(#[trigger] sorted.push(seg)[i]),
        seg_key(#[trigger] sorted.push(seg)[j]),
    ) by {
        if j < sorted.len() {
            assert(sorted.push(seg)[i] == sorted[i] && sorted.push(seg)[j] == sorted[j]);
        } else {
            assert(sorted.push(seg)[i] == sorted[i] && sorted.push(seg)[j] == seg);
        }
    }
}

/// Removing a file appends one tombstone segment; when its key sorts after
/// every existing key, the reconstructed snapshot is exactly the old
/// snapshot without the path — a no-op if the path was already absent.
pub proof fn lemma_snapshot_append_remove(
    sorted: Seq<SegmentView>,
    seg: SegmentView,
    meta: FileMetaView,
    t: Timestamp,
    skey: Seq<char>,
)
    requires
        segs_sorted(sorted),
        dec_file(seg.data) == Some(seq![remove_record(meta, t, skey)]),
        forall|i: int|
            0 <= i < sorted.len() ==> crate::keys::bytes_lt(seg_key(#[trigger] sorted[i]), seg_key(seg)),
    ensures
        segs_sorted(sorted.push(seg)),
        snapshot_of(sorted.push(seg)) == snapshot_of(sorted).remove(meta.path),
{
    lemma_concat_records_snoc(sorted, seg);
    let rs = concat_records(sorted);
    let rec = remove_record(meta, t, skey);
    assert(seg_records(seg) =~= seq![rec]);
    assert(rs + seq![rec] =~= rs.push(rec));
    lemma_replay_remove(rs, meta, t, skey);
    assert forall|i: int, j: int| 0 <= i < j < sorted.push(seg).len() implies bytes_le(
        seg_key(#[trigger] sorted.push(seg)[i]),
        seg_key(#[trigger] sorted.push(seg)[j]),
    ) by {
        if j < sorted.len() {
            assert(sorted.push(seg)[i] == sorted[i] && sorted.push(seg)[j] == sorted[j]);
        } else {
            assert(sorted.push(seg)[i] == sorted[i] && sorted.push(seg)[j] == seg);
        }
    }
}

// ---------------------------------------------------------------------
// The entry list as a mapping
// ---------------------------------------------------------------------

/// The mapping held by an entry list, later entries overriding earlier
/// ones at the same path.
pub open spec fn entries_map(s: Seq<EntryView>) -> Map<Seq<Seq<char>>, EntryView>
    decreases s.len(),
{
    if s.len() == 0 {
        Map::empty()
    } else {
        entries_map(s.drop_last()).insert(s.last().meta.path, s.last())
    }
}

/// No two entries of the list share a path.
pub open spec fn entry_paths_unique(s: Seq<EntryView>) -> bool {
    forall|i: int, j: int|
        0 <= i < s.len() && 0 <= j < s.len() && i != j ==> (#[trigger] s[i]).meta.path != (
        #[trigger] s[j]).meta.path
}

proof fn lemma_entries_map_contains(s: Seq<EntryView>, p: Seq<Seq<char>>)
    ensures
        entries_map(s).contains_key(p) <==> exists|i: int|
            0 <= i < s.len() && (#[trigger] s[i]).meta.path == p,
    decreases s.len(),
{
    if s.len() > 0 {
        lemma_entries_map_contains(s.drop_last(), p);
        if s.last().meta.path == p {
            assert(s[s.len() - 1].meta.path == p);
        } else if entries_map(s).contains_key(p) {
            let i = choose|i: int|
                0 <= i < s.drop_last().len() && (#[trigger] s.drop_last()[i]).meta.path == p;
            assert(s[i].meta.path == p);
        } else {
            assert forall|i: int| 0 <= i < s.len() && (#[trigger] s[i]).meta.path == p implies false by {
                assert(s.drop_last()[i].meta.path == p);
            }
        }
    }
}

proof fn lemma_entries_map_index(s: Seq<EntryView>, i: int)
    requires
        entry_paths_unique(s),
        0 <= i < s.len(),
    ensures
        entries_map(s).contains_key(s[i].meta.path),
        entries_map(s)[s[i].meta.path] == s[i],
    decreases s.len(),
{
    if i == s.len() - 1 {
    } else {
        assert(entry_paths_unique(s.drop_last()));
        lemma_entries_map_index(s.drop_last(), i);
        assert(s.drop_last()[i] == s[i]);
        assert(s[i].meta.path != s.last().meta.path);
    }
}

proof fn lemma_entries_map_update(s: Seq<EntryView>, i: int, e: EntryView)
    requires
        entry_paths_unique(s),
        0 <= i < s.len(),
        e.meta.path == s[i].meta.path,
    ensures
        entries_map(s.update(i, e)) == entries_map(s).insert(e.meta.path, e),
        entry_paths_unique(s.update(i, e)),
    decreases s.len(),
{
    let p = e.meta.path;
    assert forall|x: int, y: int|
        0 <= x < s.len() && 0 <= y < s.len() && x != y implies (#[trigger] s.update(
        i,
        e,
    )[x]).meta.path != (#[trigger] s.update(i, e)[y]).meta.path by {
        assert(s[x].meta.path != s[y].meta.path);
    }
    if i == s.len() - 1 {
        assert(s.update(i, e).drop_last() =~= s.drop_last());
        assert(entries_map(s.update(i, e)) =~= entries_map(s).insert(p, e));
    } else {
        assert(entry_paths_unique(s.drop_last()));
        assert(s.drop_last()[i] == s[i]);
        lemma_entries_map_update(s.drop_last(), i, e);
        assert(s.update(i, e).drop_last() =~= s.drop_last().update(i, e));
        assert(s.update(i, e).last() == s.last());
        assert(s.last().meta.path != p);
        assert(entries_map(s.update(i, e)) =~= entries_map(s).insert(p, e));
    }
}

proof fn lemma_entries_map_remove(s: Seq<EntryView>, i: int)
    requires
        entry_paths_unique(s),
        0 <= i < s.len(),
    ensures
        entries_map(s.remove(i)) == entries_map(s).remove(s[i].meta.path),
        entry_paths_unique(s.remove(i)),
    decreases s.len(),
{
    let p = s[i].meta.path;
    assert forall|x: int, y: int|
        0 <= x < s.remove(i).len() && 0 <= y < s.remove(i).len() && x != y implies (
    #[trigger] s.remove(i)[x]).meta.path != (#[trigger] s.remove(i)[y]).meta.path by {
        let x0 = if x < i {
            x
        } else {
            x + 1
        };
        let y0 = if y < i {
            y
        } else {
            y + 1
        };
        assert(s.remove(i)[x] == s[x0]);
        assert(s.remove(i)[y] == s[y0]);
        assert(s[x0].meta.path != s[y0].meta.path);
    }
    if i == s.len() - 1 {
        assert(s.remove(i) =~= s.drop_last());
        lemma_entries_map_contains(s.drop_last(), p);
        assert(!entries_map(s.drop_last()).contains_key(p)) by {
            if entries_map(s.drop_last()).contains_key(p) {
                let j = choose|j: int|
                    0 <= j < s.drop_last().len() && (#[trigger] s.drop_last()[j]).meta.path == p;
                assert(s[j].meta.path == s[i].meta.path);
            }
        }
        assert(entries_map(s.remove(i)) =~= entries_map(s).remove(p));
    } else {
        assert(entry_paths_unique(s.drop_last()));
        assert(s.drop_last()[i] == s[i]);
        lemma_entries_map_remove(s.drop_last(), i);
        assert(s.remove(i).drop_last() =~= s.drop_last().remove(i));
        assert(s.remove(i).last() == s.last());
        assert(s.last().meta.path != p);
        assert(entries_map(s.remove(i)) =~= entries_map(s).remove(p));
    }
}

/// The index of the entry at `p`, if any.
fn find_entry(entries: &Vec<RemoteEntry>, p: &Path) -> (r: Option<usize>)
    ensures
        (match r {
            Some(i) => i < entries.deep_view().len() && entries.deep_view()[i as int].meta.path
                == p@,
            None => forall|i: int|
                0 <= i < entries.deep_view().len() ==> (#[trigger] entries.deep_view()[i]).meta.path
                    != p@,
        }),
{
    let mut i: usize = 0;
    while i < entries.len()
        invariant
            i <= entries.deep_view().len(),
            entries.deep_view().len() == entries@.len(),
            forall|j: int|
                0 <= j < i ==> (#[trigger] entries.deep_view()[j]).meta.path != p@,
        decreases entries@.len() - i,
    {
        if entries[i].meta.path == *p {
            return Some(i);
        }
        i = i + 1;
    }
    None
}

/// Applies one record to the entry list: the executable replay step.
fn apply_record(entries: &mut Vec<RemoteEntry>, rec: JournalRecord)
    requires
        entry_paths_unique(old(entries).deep_view()),
    ensures
        entry_paths_unique(final(entries).deep_view()),
        entries_map(final(entries).deep_view()) == replay_step(
            entries_map(old(entries).deep_view()),
            rec@,
        ),
{
    let ghost old_entries = entries.deep_view();
    match rec.journal {
        Journal::CreateFile { meta, key } => {
            let e = RemoteEntry { meta, content_key: key };
            match find_entry(entries, &e.meta.path) {
                Some(i) => {
                    proof {
                        lemma_entries_map_update(old_entries, i as int, e@);
                    }
                    entries.set(i, e);
                    proof {
                        assert(final(entries).deep_view() =~= old_entries.update(i as int, e@));
                    }
                },
                None => {
                    proof {
                        lemma_entries_map_contains(old_entries, e@.meta.path);
                        assert forall|x: int, y: int|
                            0 <= x < old_entries.push(e@).len() && 0 <= y < old_entries.push(
                                e@,
                            ).len() && x != y implies (#[trigger] old_entries.push(
                            e@,
                        )[x]).meta.path != (#[trigger] old_entries.push(e@)[y]).meta.path by {
                            if x < old_entries.len() && y < old_entries.len() {
                                assert(old_entries[x].meta.path != old_entries[y].meta.path);
                            }
                        }
                        assert(old_entries.push(e@).drop_last() =~= old_entries);
                    }
                    entries.push(e);
                    proof {
                        assert(final(entries).deep_view() =~= old_entries.push(e@));
                    }
                },
            }
        },
        Journal::RemoveFile { meta } => {
            match find_entry(entries, &meta.path) {
                Some(i) => {
                    proof {
                        lemma_entries_map_remove(old_entries, i as int);
                    }
                    entries.remove(i);
                    proof {
                        assert(final(entries).deep_view() =~= old_entries.remove(i as int));
                    }
                },
                None => {
                    proof {
                        lemma_entries_map_contains(old_entries, meta@.path);
                        assert(entries_map(old_entries).remove(meta@.path) =~= entries_map(
                            old_entries,
                        ));
                    }
                },
            }
        },
    }
}

// ---------------------------------------------------------------------
// Snapshot reconstruction
// ---------------------------------------------------------------------

/// Folds one decoded segment's records, in order, into the entry list.
fn fold_segment(
    entries: &mut Vec<RemoteEntry>,
    jf: JournalFile,
    Ghost(base): Ghost<Seq<JournalRecordView>>,
)
    requires
        entry_paths_unique(old(entries).deep_view()),
        entries_map(old(entries).deep_view()) == replay(base),
    ensures
        entry_paths_unique(final(entries).deep_view()),
        entries_map(final(entries).deep_view()) == replay(base + jf@),
{
    let ghost segrecs = jf@;
    let mut records = jf.records;
    proof {
        assert(records.deep_view() =~= segrecs);
        assert(segrecs.skip(0) =~= segrecs);
        assert(base + segrecs.take(0) =~= base);
    }
    let total: usize = records.len();
    let mut consumed: usize = 0;
    while records.len() > 0
        invariant
            consumed + records.deep_view().len() == total,
            total == segrecs.len(),
            records.deep_view() =~= segrecs.skip(consumed as int),
            entry_paths_unique(entries.deep_view()),
            entries_map(entries.deep_view()) == replay(base + segrecs.take(consumed as int)),
        decreases records@.len(),
    {
        let ghost old_vec = records@;
        let ghost old_records = records.deep_view();
        let rec = records.remove(0);
        proof {
            assert(rec == old_vec[0]);
            assert(old_records[0] == old_vec[0].deep_view());
            assert(records.deep_view() =~= old_records.remove(0));
            assert(old_records.remove(0) =~= old_records.drop_first());
            assert(old_records.drop_first() =~= segrecs.skip(consumed + 1));
            assert(rec@ == segrecs[consumed as int]);
            lemma_replay_push(base + segrecs.take(consumed as int), rec@);
            assert((base + segrecs.take(consumed as int)).push(rec@) =~= base + segrecs.take(
                consumed + 1,
            ));
        }
        apply_record(entries, rec);
        consumed = consumed + 1;
    }
    proof {
        assert(segrecs.take(total as int) =~= segrecs);
    }
}

/// Reconstructs the current filesystem from the fetched journal segments:
/// sorts them into ascending key order, decodes every one — all or
/// nothing: one undecodable segment fails the whole reconstruction with a
/// codec failure and no partial result — and folds every record, in
/// order, into the path-to-entry snapshot.
#[verifier::rlimit(100)]
pub fn build_snapshot(segments: Vec<Segment>) -> (r: Result<Vec<RemoteEntry>, Error>)
    ensures
        (match r {
            Ok(entries) => {
                &&& all_decode(segments.deep_view())
                &&& entry_paths_unique(entries.deep_view())
                &&& exists|sorted: Seq<SegmentView>|
                    #[trigger] sorted_perm_of(sorted, segments.deep_view()) && entries_map(
                        entries.deep_view(),
                    ) == snapshot_of(sorted)
            },
            Err(e) => !all_decode(segments.deep_view()) && e is SerdeFail,
        }),
{
    let ghost orig = segments.deep_view();
    let mut rest = segments;
    let mut sorted: Vec<Segment> = Vec::new();
    while rest.len() > 0
        invariant
            orig == segments.deep_view(),
            sorted.deep_view().to_multiset().add(rest.deep_view().to_multiset())
                =~= orig.to_multiset(),
            segs_sorted(sorted.deep_view()),
            forall|i: int, j: int|
                0 <= i < sorted.deep_view().len() && 0 <= j < rest.deep_view().len() ==> bytes_le(
                    seg_key(#[trigger] sorted.deep_view()[i]),
                    seg_key(#[trigger] rest.deep_view()[j]),
                ),
        decreases rest@.len(),
    {
        let mut min: usize = 0;
        let mut k: usize = 1;
        proof {
            crate::keys::lemma_bytes_le_refl(seg_key(rest.deep_view()[0]));
        }
        while k < rest.len()
            invariant
                min < k,
                k <= rest@.len(),
                rest@.len() > 0,
                forall|j: int|
                    0 <= j < k ==> bytes_le(
                        seg_key(rest.deep_view()[min as int]),
                        seg_key(#[trigger] rest.deep_view()[j]),
                    ),
            decreases rest@.len() - k,
        {
            if bytes_le_exec(rest[k].key.as_str().as_bytes(), rest[min].key.as_str().as_bytes()) {
                proof {
                    let rv = rest.deep_view();
                    assert forall|j: int|
                        0 <= j < k + 1 implies bytes_le(
                        seg_key(rv[k as int]),
                        seg_key(#[trigger] rv[j]),
                    ) by {
                        if j < k {
                            crate::keys::lemma_bytes_le_trans(
                                seg_key(rv[k as int]),
                                seg_key(rv[min as int]),
                                seg_key(rv[j]),
                            );
                        } else {
                            crate::keys::lemma_bytes_le_refl(seg_key(rv[k as int]));
                        }
                    }
                }
                min = k;
            } else {
                proof {
                    crate::keys::lemma_bytes_le_connected(
                        seg_key(rest.deep_view()[k as int]),
                        seg_key(rest.deep_view()[min as int]),
                    );
                }
            }
            k = k + 1;
        }
        let ghost old_sorted = sorted.deep_view();
        let ghost old_rest = rest.deep_view();
        let seg = rest.remove(min);
        sorted.push(seg);
        proof {
            assert(rest.deep_view() =~= old_rest.remove(min as int));
            assert(sorted.deep_view() =~= old_sorted.push(old_rest[min as int]));
            assert(old_rest.remove(min as int).to_multiset() =~= old_rest.to_multiset().remove(
                old_rest[min as int],
            ));
            assert(old_rest.to_multiset().count(old_rest[min as int]) > 0) by {
                assert(old_rest.contains(old_rest[min as int]));
            }
            assert(sorted.deep_view().to_multiset() =~= old_sorted.to_multiset().insert(
                old_rest[min as int],
            ));
            assert(sorted.deep_view().to_multiset().add(rest.deep_view().to_multiset())
                =~= orig.to_multiset());
            assert(segs_sorted(sorted.deep_view())) by {
                let sv = sorted.deep_view();
                assert forall|i: int, j: int| 0 <= i < j < sv.len() implies bytes_le(
                    seg_key(#[trigger] sv[i]),
                    seg_key(#[trigger] sv[j]),
                ) by {
                    if j < sv.len() - 1 {
                        assert(sv[i] == old_sorted[i] && sv[j] == old_sorted[j]);
                    } else {
                        assert(sv[i] == old_sorted[i]);
                        assert(sv[j] == old_rest[min as int]);
                    }
                }
            }
            assert forall|i: int, j: int|
                0 <= i < sorted.deep_view().len() && 0 <= j
                    < rest.deep_view().len() implies bytes_le(
                seg_key(#[trigger] sorted.deep_view()[i]),
                seg_key(#[trigger] rest.deep_view()[j]),
            ) by {
                let j0 = if j < min {
                    j
                } else {
                    j + 1
                };
                assert(rest.deep_view()[j] == old_rest[j0]);
                if i < old_sorted.len() {
                    assert(bytes_le(seg_key(old_sorted[i]), seg_key(old_rest[j0])));
                } else {
                    assert(sorted.deep_view()[i] == old_rest[min as int]);
                    assert(bytes_le(seg_key(old_rest[min as int]), seg_key(old_rest[j0])));
                }
            }
        }
    }
    let ghost sortedv = sorted.deep_view();
    proof {
        assert(rest.deep_view().to_multiset() =~= Seq::<SegmentView>::empty().to_multiset());
        assert(sortedv.to_multiset().add(Multiset::empty()) =~= sortedv.to_multiset());
        assert(sortedv.to_multiset() == orig.to_multiset());
        assert(sorted_perm_of(sortedv, orig));
    }
    let mut entries: Vec<RemoteEntry> = Vec::new();
    let mut i: usize = 0;
    while i < sorted.len()
        invariant
            orig == segments.deep_view(),
            i <= sorted@.len(),
            sorted.deep_view() == sortedv,
            sortedv.to_multiset() == orig.to_multiset(),
            forall|j: int| 0 <= j < i ==> dec_file((#[trigger] sortedv[j]).data) is Some,
            entry_paths_unique(entries.deep_view()),
            entries_map(entries.deep_view()) == replay(concat_records(sortedv.take(i as int))),
        decreases sorted@.len() - i,
    {
        match decode_journal_file(sorted[i].data.as_slice()) {
            Err(e) => {
                proof {
                    sortedv.to_multiset_ensures();
                    orig.to_multiset_ensures();
                    assert(dec_file(sortedv[i as int].data) is None);
                    assert(sortedv.contains(sortedv[i as int]));
                    assert(orig.to_multiset().count(sortedv[i as int]) > 0);
                    assert(orig.contains(sortedv[i as int]));
                    let j = choose|j: int| 0 <= j < orig.len() && orig[j] == sortedv[i as int];
                    assert(dec_file(orig[j].data) is None);
                    assert(!all_decode(orig));
                }
                return Err(e);
            },
            Ok(jf) => {
                let ghost segrecs = jf@;
                proof {
                    assert(dec_file(sortedv[i as int].data) == Some(segrecs));
                }
                fold_segment(
                    &mut entries,
                    jf,
                    Ghost(concat_records(sortedv.take(i as int))),
                );
                proof {
                    lemma_concat_records_snoc(sortedv.take(i as int), sortedv[i as int]);
                    assert(sortedv.take(i + 1) =~= sortedv.take(i as int).push(sortedv[i as int]));
                    assert(seg_records(sortedv[i as int]) == segrecs);
                    assert(entries_map(entries.deep_view()) == replay(
                        concat_records(sortedv.take(i + 1)),
                    ));
                }
            },
        }
        i = i + 1;
    }
    proof {
        assert(sortedv.take(sortedv.len() as int) =~= sortedv);
        assert(all_decode(orig)) by {
            assert forall|j: int| 0 <= j < orig.len() implies dec_file(
                (#[trigger] orig[j]).data,
            ) is Some by {
                assert(orig.contains(orig[j]));
                assert(sortedv.to_multiset().count(orig[j]) > 0);
                assert(sortedv.contains(orig[j]));
                let k2 = choose|k2: int| 0 <= k2 < sortedv.len() && sortedv[k2] == orig[j];
                assert(dec_file(sortedv[k2].data) is Some);
            }
        }
        assert(sorted_perm_of(sortedv, orig) && entries_map(entries.deep_view()) == snapshot_of(
            sortedv,
        ));
    }
    Ok(entries)
}

// ---------------------------------------------------------------------
// Minting plans for create and remove
// ---------------------------------------------------------------------

/// A 32-character lowercase hexadecimal identifier, as a byte string.
pub open spec fn is_hex32(d: Seq<u8>) -> bool {
    &&& d.len() == 32
    &&& forall|i: int| 0 <= i < 32 ==> is_hex_digit(#[trigger] d[i])
}

pub open spec fn is_hex_digit(b: u8) -> bool {
    0x30 <= b <= 0x39 || 0x61 <= b <= 0x66
}

/// Relies on uuid::Uuid::new_v4 rendered in the simple format: 32
/// lowercase hexadecimal characters. The value is random, so nothing is
/// promised beyond length and character set.
#[verifier::external_body]
fn fresh_hex_id() -> (r: String)
    ensures
        is_hex32(encode_utf8(r@)),
{
    uuid::Uuid::new_v4().to_simple().to_string()
}

/// Relies on chrono::Utc::now and the Datelike/Timelike accessors, whose
/// documented ranges are: month 1..=12, day 1..=31, hour 0..=23, minute
/// 0..=59, second 0..=59, and nanosecond 0..=1_999_999_999 (values of a
/// second and more standing for a leap second). The year is unbounded.
#[verifier::external_body]
fn clock_now_fields() -> (r: (i32, u32, u32, u32, u32, u32, u32))
    ensures
        1 <= r.1 <= 12,
        1 <= r.2 <= 31,
        r.3 <= 23,
        r.4 <= 59,
        r.5 <= 59,
        r.6 <= 1_999_999_999,
{
    let t = chrono::Utc::now();
    (
        chrono::Datelike::year(&t),
        chrono::Datelike::month(&t),
        chrono::Datelike::day(&t),
        chrono::Timelike::hour(&t),
        chrono::Timelike::minute(&t),
        chrono::Timelike::second(&t),
        chrono::Timelike::nanosecond(&t),
    )
}

/// Reads the clock as a well-formed timestamp, clamping the year into the
/// four-digit range and a leap-second reading into the last representable
/// instant of its second.
pub fn now_timestamp() -> (r: Timestamp)
    ensures
        r.wf(),
{
    let (y, mo, d, h, mi, s, n) = clock_now_fields();
    Timestamp::from_fields(y, mo, d, h, mi, s, n)
}

/// Establishes that a file's metadata fits the wire format's length
/// fields, which machine limits already guarantee of any real value.
fn observe_meta_encodable(m: &FileMeta)
    ensures
        meta_wf(m@),
{
    let segs = m.path.segments();
    let ghost p = m.path@;
    let mut i: usize = 0;
    while i < segs.len()
        invariant
            i <= segs@.len(),
            segs.deep_view() == p,
            forall|j: int| 0 <= j < i ==> str_len_ok(#[trigger] p[j]),
        decreases segs@.len() - i,
    {
        let b = segs[i].as_str().as_bytes();
        let n = b.len();
        proof {
            assert(b@ == encode_utf8(p[i as int]));
            assert(encode_utf8(p[i as int]).len() <= usize::MAX);
        }
        i = i + 1;
    }
}

/// The single record a creation appends to the journal.
pub open spec fn create_record(
    meta: FileMetaView,
    content_key: Seq<char>,
    t: Timestamp,
    segment_key: Seq<char>,
) -> JournalRecordView {
    JournalRecordView {
        journal: JournalView::CreateFile { meta, key: content_key },
        timestamp: t,
        key: segment_key,
    }
}

/// The single record a removal appends to the journal.
pub open spec fn remove_record(
    meta: FileMetaView,
    t: Timestamp,
    segment_key: Seq<char>,
) -> JournalRecordView {
    JournalRecordView { journal: JournalView::RemoveFile { meta }, timestamp: t, key: segment_key }
}

/// Everything a creation must write: the content object (fresh random key,
/// whole body) and the single-record segment that binds the file's path to
/// that content key. The two writes are the caller's, in that order; they
/// are not a transaction.
pub struct CreatePlan {
    pub timestamp: Timestamp,
    pub content_key: String,
    pub content: Vec<u8>,
    pub segment_key: String,
    pub segment: Vec<u8>,
}

/// Plans the creation of a file: mints a fresh random content key, a
/// segment key from the clock and a fresh disambiguator, and the encoded
/// single-record `CreateFile` segment. The plan never depends on what the
/// journal already holds: every creation appends a new segment.
pub fn plan_create_file(meta: &FileMeta, content: Vec<u8>) -> (r: CreatePlan)
    ensures
        r.timestamp.wf(),
        exists|d: Seq<u8>| is_hex32(d) && encode_utf8(r.content_key@) == content_key_bytes(d),
        exists|d: Seq<u8>|
            is_hex32(d) && encode_utf8(r.segment_key@) == segment_key_bytes(r.timestamp, d),
        r.content == content,
        r.segment@ == enc_file(
            seq![create_record(meta@, r.content_key@, r.timestamp, r.segment_key@)],
        ),
        dec_file(r.segment@) == Some(
            seq![create_record(meta@, r.content_key@, r.timestamp, r.segment_key@)],
        ),
{
    observe_meta_encodable(meta);
    let timestamp = now_timestamp();
    let cid = fresh_hex_id();
    let content_key = make_content_key(cid.as_str());
    let sid = fresh_hex_id();
    let segment_key = make_segment_key(&timestamp, sid.as_str());
    let record = JournalRecord {
        journal: Journal::CreateFile { meta: meta.clone(), key: content_key.clone() },
        timestamp,
        key: segment_key.clone(),
    };
    let ghost recv = record@;
    let jf = JournalFile { records: vec![record] };
    proof {
        assert(jf@ =~= seq![recv]);
        assert(recv == create_record(meta@, content_key@, timestamp, segment_key@));
        crate::keys::lemma_ts_digits_len(timestamp);
        assert(encode_utf8(content_key@).len() == 37);
        assert(encode_utf8(segment_key@).len() == 64);
        assert(str_len_ok(content_key@) && str_len_ok(segment_key@));
        assert(record_wf(recv));
        assert(file_wf(seq![recv])) by {
            assert(forall|i: int| 0 <= i < 1 ==> record_wf(#[trigger] seq![recv][i]));
        }
        crate::codec::lemma_codec_round_trip(seq![recv]);
    }
    let segment = encode_journal_file(&jf);
    CreatePlan { timestamp, content_key, content, segment_key, segment }
}

/// Everything a removal must write: the single-record tombstone segment.
/// The path's earlier content objects are never deleted, and the path's
/// existence is not checked first: removing an absent path just appends a
/// tombstone that replays as a no-op.
pub struct RemovePlan {
    pub timestamp: Timestamp,
    pub segment_key: String,
    pub segment: Vec<u8>,
}

/// Plans the removal of a file: a segment key from the clock and a fresh
/// disambiguator, and the encoded single-record `RemoveFile` segment.
pub fn plan_remove_file(meta: &FileMeta) -> (r: RemovePlan)
    ensures
        r.timestamp.wf(),
        exists|d: Seq<u8>|
            is_hex32(d) && encode_utf8(r.segment_key@) == segment_key_bytes(r.timestamp, d),
        r.segment@ == enc_file(seq![remove_record(meta@, r.timestamp, r.segment_key@)]),
        dec_file(r.segment@) == Some(seq![remove_record(meta@, r.timestamp, r.segment_key@)]),
{
    observe_meta_encodable(meta);
    let timestamp = now_timestamp();
    let sid = fresh_hex_id();
    let segment_key = make_segment_key(&timestamp, sid.as_str());
    let record = JournalRecord {
        journal: Journal::RemoveFile { meta: meta.clone() },
        timestamp,
        key: segment_key.clone(),
    };
    let ghost recv = record@;
    let jf = JournalFile { records: vec![record] };
    proof {
        assert(jf@ =~= seq![recv]);
        assert(recv == remove_record(meta@, timestamp, segment_key@));
        crate::keys::lemma_ts_digits_len(timestamp);
        assert(encode_utf8(segment_key@).len() == 64);
        assert(str_len_ok(segment_key@));
        assert(record_wf(recv));
        assert(file_wf(seq![recv])) by {
            assert(forall|i: int| 0 <= i < 1 ==> record_wf(#[trigger] seq![recv][i]));
        }
        crate::codec::lemma_codec_round_trip(seq![recv]);
    }
    let segment = encode_journal_file(&jf);
    RemovePlan { timestamp, segment_key, segment }
}


} // verus!
