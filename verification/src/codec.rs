use crate::aqfs::{Error, FileMeta, FileMetaView, Timestamp};
use vstd::bytes::{spec_u64_from_le_bytes, spec_u64_to_le_bytes};
use vstd::prelude::*;
use vstd::utf8::{decode_utf8, encode_utf8, valid_utf8};
use crate::aqfs::Path;

verus! {

/// One journal operation: a file created (with the key of its content
/// object) or a file removed.
#[derive(Debug)]
pub enum Journal {
    CreateFile { meta: FileMeta, key: String },
    RemoveFile { meta: FileMeta },
}

/// The mathematical value of a `Journal`.
pub enum JournalView {
    CreateFile { meta: FileMetaView, key: Seq<char> },
    RemoveFile { meta: FileMetaView },
}

impl View for Journal {
    type V = JournalView;

    open spec fn view(&self) -> JournalView {
        match self {
            Journal::CreateFile { meta, key } => JournalView::CreateFile {
                meta: meta@,
                key: key@,
            },
            Journal::RemoveFile { meta } => JournalView::RemoveFile { meta: meta@ },
        }
    }
}

/// One journal record: an operation, the instant it was written, and the
/// key of the segment that carries it.
#[derive(Debug)]
pub struct JournalRecord {
    pub journal: Journal,
    pub timestamp: Timestamp,
    pub key: String,
}

/// The mathematical value of a `JournalRecord`.
pub struct JournalRecordView {
    pub journal: JournalView,
    pub timestamp: Timestamp,
    pub key: Seq<char>,
}

impl View for JournalRecord {
    type V = JournalRecordView;

    open spec fn view(&self) -> JournalRecordView {
        JournalRecordView { journal: self.journal@, timestamp: self.timestamp, key: self.key@ }
    }
}

impl DeepView for JournalRecord {
    type V = JournalRecordView;

    open spec fn deep_view(&self) -> JournalRecordView {
        self@
    }
}

/// A journal segment's contents: an ordered batch of records, serialized
/// as one immutable remote object.
#[derive(Debug)]
pub struct JournalFile {
    pub records: Vec<JournalRecord>,
}

impl View for JournalFile {
    type V = Seq<JournalRecordView>;

    open spec fn view(&self) -> Seq<JournalRecordView> {
        self.records.deep_view()
    }
}

/// The path of the file a journal operation speaks of.
pub open spec fn journal_path(j: JournalView) -> Seq<Seq<char>> {
    match j {
        JournalView::CreateFile { meta, key } => meta.path,
        JournalView::RemoveFile { meta } => meta.path,
    }
}

// The wire format. Every integer is a little-endian 64-bit count or value;
// a string is its byte length followed by its UTF-8 bytes; a sequence is
// its element count followed by the elements in order.
/// A 64-bit little-endian value.
pub open spec fn enc_u64(n: u64) -> Seq<u8> {
    spec_u64_to_le_bytes(n)
}

/// Length-prefixed raw bytes.
pub open spec fn enc_bytes(b: Seq<u8>) -> Seq<u8> {
    enc_u64(b.len() as u64) + b
}

/// A length-prefixed UTF-8 string.
pub open spec fn enc_str(s: Seq<char>) -> Seq<u8> {
    enc_bytes(encode_utf8(s))
}

/// A timestamp: its seven fields, each as a 64-bit value.
pub open spec fn enc_ts(t: Timestamp) -> Seq<u8> {
    enc_u64(t.year as u64) + enc_u64(t.month as u64) + enc_u64(t.day as u64) + enc_u64(
        t.hour as u64,
    ) + enc_u64(t.minute as u64) + enc_u64(t.second as u64) + enc_u64(t.nanos as u64)
}

/// The segments of a path, in order.
pub open spec fn enc_segs(p: Seq<Seq<char>>) -> Seq<u8>
    decreases p.len(),
{
    if p.len() == 0 {
        Seq::empty()
    } else {
        enc_str(p.first()) + enc_segs(p.drop_first())
    }
}

/// A path: its segment count, then its segments.
pub open spec fn enc_path(p: Seq<Seq<char>>) -> Seq<u8> {
    enc_u64(p.len() as u64) + enc_segs(p)
}

/// File metadata: the path, then the modification time.
pub open spec fn enc_meta(m: FileMetaView) -> Seq<u8> {
    enc_path(m.path) + enc_ts(m.mtime)
}

/// An operation: a tag byte, the metadata, and for a creation the content
/// key.
pub open spec fn enc_journal(j: JournalView) -> Seq<u8> {
    match j {
        JournalView::CreateFile { meta, key } => seq![0u8] + enc_meta(meta) + enc_str(key),
        JournalView::RemoveFile { meta } => seq![1u8] + enc_meta(meta),
    }
}

/// A record: its operation, its timestamp, and its record key.
pub open spec fn enc_record(r: JournalRecordView) -> Seq<u8> {
    enc_journal(r.journal) + enc_ts(r.timestamp) + enc_str(r.key)
}

/// The records of a segment, in order.
pub open spec fn enc_records(rs: Seq<JournalRecordView>) -> Seq<u8>
    decreases rs.len(),
{
    if rs.len() == 0 {
        Seq::empty()
    } else {
        enc_record(rs.first()) + enc_records(rs.drop_first())
    }
}

/// A whole segment object: its record count, then its records.
pub open spec fn enc_file(rs: Seq<JournalRecordView>) -> Seq<u8> {
    enc_u64(rs.len() as u64) + enc_records(rs)
}

// Encodability: the counts and lengths that the format's 64-bit fields
// must hold.
/// The string's UTF-8 form fits the length field.
pub open spec fn str_len_ok(s: Seq<char>) -> bool {
    encode_utf8(s).len() <= u64::MAX
}

pub open spec fn path_wf(p: Seq<Seq<char>>) -> bool {
    &&& p.len() <= u64::MAX
    &&& forall|i: int| 0 <= i < p.len() ==> str_len_ok(#[trigger] p[i])
}

pub open spec fn meta_wf(m: FileMetaView) -> bool {
    path_wf(m.path)
}

pub open spec fn journal_wf(j: JournalView) -> bool {
    match j {
        JournalView::CreateFile { meta, key } => meta_wf(meta) && str_len_ok(key),
        JournalView::RemoveFile { meta } => meta_wf(meta),
    }
}

pub open spec fn record_wf(r: JournalRecordView) -> bool {
    journal_wf(r.journal) && str_len_ok(r.key)
}

pub open spec fn file_wf(rs: Seq<JournalRecordView>) -> bool {
    &&& rs.len() <= u64::MAX
    &&& forall|i: int| 0 <= i < rs.len() ==> record_wf(#[trigger] rs[i])
}

/// Appending one more element to a segment list extends its encoding.
pub proof fn lemma_enc_segs_snoc(p: Seq<Seq<char>>, x: Seq<char>)
    ensures
        enc_segs(p.push(x)) == enc_segs(p) + enc_str(x),
    decreases p.len(),
{
    if p.len() == 0 {
        reveal_with_fuel(enc_segs, 2);
        assert(p.push(x).drop_first() =~= Seq::<Seq<char>>::empty());
        assert(enc_segs(p.push(x)) =~= enc_segs(p) + enc_str(x));
    } else {
        assert(p.push(x).drop_first() =~= p.drop_first().push(x));
        assert(p.push(x).first() == p.first());
        lemma_enc_segs_snoc(p.drop_first(), x);
        assert(enc_segs(p.push(x)) =~= enc_segs(p) + enc_str(x));
    }
}

/// Appending one more record to a record list extends its encoding.
pub proof fn lemma_enc_records_snoc(rs: Seq<JournalRecordView>, x: JournalRecordView)
    ensures
        enc_records(rs.push(x)) == enc_records(rs) + enc_record(x),
    decreases rs.len(),
{
    if rs.len() == 0 {
        reveal_with_fuel(enc_records, 2);
        assert(rs.push(x).drop_first() =~= Seq::<JournalRecordView>::empty());
        assert(enc_records(rs.push(x)) =~= enc_records(rs) + enc_record(x));
    } else {
        assert(rs.push(x).drop_first() =~= rs.drop_first().push(x));
        assert(rs.push(x).first() == rs.first());
        lemma_enc_records_snoc(rs.drop_first(), x);
        assert(enc_records(rs.push(x)) =~= enc_records(rs) + enc_record(x));
    }
}

/// Appends a 64-bit little-endian value.
fn push_u64(out: &mut Vec<u8>, n: u64)
    ensures
        final(out)@ == old(out)@ + enc_u64(n),
{
    let mut bytes = vstd::bytes::u64_to_le_bytes(n);
    out.append(&mut bytes);
}

/// Appends a length-prefixed byte string.
fn push_bytes(out: &mut Vec<u8>, b: &[u8])
    ensures
        final(out)@ == old(out)@ + enc_bytes(b@),
{
    push_u64(out, b.len() as u64);
    out.extend_from_slice(b);
    proof {
        assert(final(out)@ =~= old(out)@ + enc_bytes(b@));
    }
}

/// Appends a length-prefixed UTF-8 string.
fn push_str(out: &mut Vec<u8>, s: &str)
    ensures
        final(out)@ == old(out)@ + enc_str(s@),
{
    push_bytes(out, s.as_bytes());
}

/// Appends a timestamp.
fn push_ts(out: &mut Vec<u8>, t: &Timestamp)
    ensures
        final(out)@ == old(out)@ + enc_ts(*t),
{
    push_u64(out, t.year as u64);
    push_u64(out, t.month as u64);
    push_u64(out, t.day as u64);
    push_u64(out, t.hour as u64);
    push_u64(out, t.minute as u64);
    push_u64(out, t.second as u64);
    push_u64(out, t.nanos as u64);
    proof {
        assert(final(out)@ =~= old(out)@ + enc_ts(*t));
    }
}

/// Appends a path.
fn push_path(out: &mut Vec<u8>, p: &crate::aqfs::Path)
    ensures
        final(out)@ == old(out)@ + enc_path(p@),
{
    let segs = p.segments();
    push_u64(out, segs.len() as u64);
    let ghost all = p@;
    let mut i: usize = 0;
    while i < segs.len()
        invariant
            i <= segs.len(),
            segs.deep_view() == all,
            out@ == old(out)@ + enc_u64(all.len() as u64) + enc_segs(all.take(i as int)),
        decreases segs.len() - i,
    {
        push_str(out, segs[i].as_str());
        proof {
            lemma_enc_segs_snoc(all.take(i as int), all[i as int]);
            assert(all.take(i + 1) =~= all.take(i as int).push(all[i as int]));
            assert(out@ =~= old(out)@ + enc_u64(all.len() as u64) + enc_segs(all.take(i + 1)));
        }
        i = i + 1;
    }
    proof {
        assert(all.take(all.len() as int) =~= all);
        assert(out@ =~= old(out)@ + enc_path(all));
    }
}

/// Appends file metadata.
fn push_meta(out: &mut Vec<u8>, m: &FileMeta)
    ensures
        final(out)@ == old(out)@ + enc_meta(m@),
{
    push_path(out, &m.path);
    push_ts(out, &m.mtime);
    proof {
        assert(final(out)@ =~= old(out)@ + enc_meta(m@));
    }
}

/// Appends one operation.
fn push_journal(out: &mut Vec<u8>, j: &Journal)
    ensures
        final(out)@ == old(out)@ + enc_journal(j@),
{
    match j {
        Journal::CreateFile { meta, key } => {
            out.push(0u8);
            push_meta(out, meta);
            push_str(out, key.as_str());
            proof {
                assert(final(out)@ =~= old(out)@ + enc_journal(j@));
            }
        },
        Journal::RemoveFile { meta } => {
            out.push(1u8);
            push_meta(out, meta);
            proof {
                assert(final(out)@ =~= old(out)@ + enc_journal(j@));
            }
        },
    }
}

/// Appends one record.
fn push_record(out: &mut Vec<u8>, r: &JournalRecord)
    ensures
        final(out)@ == old(out)@ + enc_record(r@),
{
    push_journal(out, &r.journal);
    push_ts(out, &r.timestamp);
    push_str(out, r.key.as_str());
    proof {
        assert(final(out)@ =~= old(out)@ + enc_record(r@));
    }
}

/// Serializes a journal segment to bytes, losslessly: the result is exactly
/// the segment's wire encoding, which `decode_journal_file` inverts.
pub fn encode_journal_file(f: &JournalFile) -> (r: Vec<u8>)
    ensures
        r@ == enc_file(f@),
{
    let mut out: Vec<u8> = Vec::new();
    push_u64(&mut out, f.records.len() as u64);
    let ghost all = f@;
    let mut i: usize = 0;
    while i < f.records.len()
        invariant
            i <= f.records.len(),
            f@ == all,
            f.records.deep_view() == all,
            out@ == enc_u64(all.len() as u64) + enc_records(all.take(i as int)),
        decreases f.records.len() - i,
    {
        push_record(&mut out, &f.records[i]);
        proof {
            lemma_enc_records_snoc(all.take(i as int), all[i as int]);
            assert(all.take(i + 1) =~= all.take(i as int).push(all[i as int]));
            assert(out@ =~= enc_u64(all.len() as u64) + enc_records(all.take(i + 1)));
        }
        i = i + 1;
    }
    proof {
        assert(all.take(all.len() as int) =~= all);
        assert(out@ =~= enc_file(all));
    }
    out
}

/// Reads a 64-bit little-endian value from the front of `b`.
pub open spec fn dec_u64(b: Seq<u8>) -> Option<(u64, Seq<u8>)> {
    if b.len() >= 8 {
        Some((spec_u64_from_le_bytes(b.take(8)), b.skip(8)))
    } else {
        None
    }
}

/// Reads a length-prefixed byte string.
pub open spec fn dec_bytes(b: Seq<u8>) -> Option<(Seq<u8>, Seq<u8>)> {
    match dec_u64(b) {
        None => None,
        Some((n, r)) => if n <= r.len() {
            Some((r.take(n as int), r.skip(n as int)))
        } else {
            None
        },
    }
}

/// Reads a length-prefixed UTF-8 string.
pub open spec fn dec_str(b: Seq<u8>) -> Option<(Seq<char>, Seq<u8>)> {
    match dec_bytes(b) {
        None => None,
        Some((bs, r)) => if valid_utf8(bs) {
            Some((decode_utf8(bs), r))
        } else {
            None
        },
    }
}

/// Reads a timestamp: seven 64-bit fields, each checked against its range.
pub open spec fn dec_ts(b: Seq<u8>) -> Option<(Timestamp, Seq<u8>)> {
    match dec_u64(b) {
        None => None,
        Some((y, b1)) => if y > 0xffff {
            None
        } else {
            match dec_u64(b1) {
                None => None,
                Some((mo, b2)) => if mo > 0xff {
                    None
                } else {
                    match dec_u64(b2) {
                        None => None,
                        Some((d, b3)) => if d > 0xff {
                            None
                        } else {
                            match dec_u64(b3) {
                                None => None,
                                Some((h, b4)) => if h > 0xff {
                                    None
                                } else {
                                    match dec_u64(b4) {
                                        None => None,
                                        Some((mi, b5)) => if mi > 0xff {
                                            None
                                        } else {
                                            match dec_u64(b5) {
                                                None => None,
                                                Some((sec, b6)) => if sec > 0xff {
                                                    None
                                                } else {
                                                    match dec_u64(b6) {
                                                        None => None,
                                                        Some((n, b7)) => if n > 0xffffffff {
                                                            None
                                                        } else {
                                                            Some(
                                                                (
                                                                    Timestamp {
                                                                        year: y as u16,
                                                                        month: mo as u8,
                                                                        day: d as u8,
                                                                        hour: h as u8,
                                                                        minute: mi as u8,
                                                                        second: sec as u8,
                                                                        nanos: n as u32,
                                                                    },
                                                                    b7,
                                                                ),
                                                            )
                                                        },
                                                    }
                                                },
                                            }
                                        },
                                    }
                                },
                            }
                        },
                    }
                },
            }
        },
    }
}

/// Reads `n` path segments.
pub open spec fn dec_segs(b: Seq<u8>, n: nat) -> Option<(Seq<Seq<char>>, Seq<u8>)>
    decreases n,
{
    if n == 0 {
        Some((Seq::empty(), b))
    } else {
        match dec_str(b) {
            None => None,
            Some((s, r)) => match dec_segs(r, (n - 1) as nat) {
                None => None,
                Some((xs, r2)) => Some((seq![s] + xs, r2)),
            },
        }
    }
}

/// Reads a path.
pub open spec fn dec_path(b: Seq<u8>) -> Option<(Seq<Seq<char>>, Seq<u8>)> {
    match dec_u64(b) {
        None => None,
        Some((n, r)) => dec_segs(r, n as nat),
    }
}

/// Reads file metadata.
pub open spec fn dec_meta(b: Seq<u8>) -> Option<(FileMetaView, Seq<u8>)> {
    match dec_path(b) {
        None => None,
        Some((p, r)) => match dec_ts(r) {
            None => None,
            Some((t, r2)) => Some((FileMetaView { path: p, mtime: t }, r2)),
        },
    }
}

/// Reads one operation.
pub open spec fn dec_journal(b: Seq<u8>) -> Option<(JournalView, Seq<u8>)> {
    if b.len() < 1 {
        None
    } else if b[0] == 0 {
        match dec_meta(b.drop_first()) {
            None => None,
            Some((m, r)) => match dec_str(r) {
                None => None,
                Some((k, r2)) => Some((JournalView::CreateFile { meta: m, key: k }, r2)),
            },
        }
    } else if b[0] == 1 {
        match dec_meta(b.drop_first()) {
            None => None,
            Some((m, r)) => Some((JournalView::RemoveFile { meta: m }, r)),
        }
    } else {
        None
    }
}

/// Reads one record.
pub open spec fn dec_record(b: Seq<u8>) -> Option<(JournalRecordView, Seq<u8>)> {
    match dec_journal(b) {
        None => None,
        Some((j, r)) => match dec_ts(r) {
            None => None,
            Some((t, r2)) => match dec_str(r2) {
                None => None,
                Some((k, r3)) => Some(
                    (JournalRecordView { journal: j, timestamp: t, key: k }, r3),
                ),
            },
        },
    }
}

/// Reads `n` records.
pub open spec fn dec_records(b: Seq<u8>, n: nat) -> Option<(Seq<JournalRecordView>, Seq<u8>)>
    decreases n,
{
    if n == 0 {
        Some((Seq::empty(), b))
    } else {
        match dec_record(b) {
            None => None,
            Some((r, rest)) => match dec_records(rest, (n - 1) as nat) {
                None => None,
                Some((rs, rest2)) => Some((seq![r] + rs, rest2)),
            },
        }
    }
}

/// Parses a whole segment object: the record count, that many records, and
/// nothing left over.
pub open spec fn dec_file(b: Seq<u8>) -> Option<Seq<JournalRecordView>> {
    match dec_u64(b) {
        None => None,
        Some((n, r)) => match dec_records(r, n as nat) {
            None => None,
            Some((rs, rest)) => if rest.len() == 0 {
                Some(rs)
            } else {
                None
            },
        },
    }
}

pub proof fn lemma_dec_u64(n: u64, rest: Seq<u8>)
    ensures
        dec_u64(enc_u64(n) + rest) == Some((n, rest)),
{
    vstd::bytes::lemma_auto_spec_u64_to_from_le_bytes();
    assert((enc_u64(n) + rest).take(8) =~= enc_u64(n));
    assert((enc_u64(n) + rest).skip(8) =~= rest);
}

pub proof fn lemma_dec_bytes(bs: Seq<u8>, rest: Seq<u8>)
    requires
        bs.len() <= u64::MAX,
    ensures
        dec_bytes(enc_bytes(bs) + rest) == Some((bs, rest)),
{
    let n = bs.len() as u64;
    assert(enc_bytes(bs) + rest =~= enc_u64(n) + (bs + rest));
    lemma_dec_u64(n, bs + rest);
    assert((bs + rest).take(n as int) =~= bs);
    assert((bs + rest).skip(n as int) =~= rest);
}

pub proof fn lemma_dec_str(s: Seq<char>, rest: Seq<u8>)
    requires
        str_len_ok(s),
    ensures
        dec_str(enc_str(s) + rest) == Some((s, rest)),
{
    broadcast use vstd::utf8::encode_utf8_valid_utf8;
    broadcast use vstd::utf8::encode_utf8_decode_utf8;

    lemma_dec_bytes(encode_utf8(s), rest);
}

pub proof fn lemma_dec_ts(t: Timestamp, rest: Seq<u8>)
    ensures
        dec_ts(enc_ts(t) + rest) == Some((t, rest)),
{
    let e1 = enc_u64(t.year as u64);
    let e2 = enc_u64(t.month as u64);
    let e3 = enc_u64(t.day as u64);
    let e4 = enc_u64(t.hour as u64);
    let e5 = enc_u64(t.minute as u64);
    let e6 = enc_u64(t.second as u64);
    let e7 = enc_u64(t.nanos as u64);
    let r6 = e7 + rest;
    let r5 = e6 + r6;
    let r4 = e5 + r5;
    let r3 = e4 + r4;
    let r2 = e3 + r3;
    let r1 = e2 + r2;
    assert(enc_ts(t) + rest =~= e1 + r1);
    assert(r1 =~= e2 + r2);
    assert(r2 =~= e3 + r3);
    assert(r3 =~= e4 + r4);
    assert(r4 =~= e5 + r5);
    assert(r5 =~= e6 + r6);
    lemma_dec_u64(t.year as u64, r1);
    lemma_dec_u64(t.month as u64, r2);
    lemma_dec_u64(t.day as u64, r3);
    lemma_dec_u64(t.hour as u64, r4);
    lemma_dec_u64(t.minute as u64, r5);
    lemma_dec_u64(t.second as u64, r6);
    lemma_dec_u64(t.nanos as u64, rest);
}

pub proof fn lemma_dec_segs(p: Seq<Seq<char>>, rest: Seq<u8>)
    requires
        forall|i: int| 0 <= i < p.len() ==> str_len_ok(#[trigger] p[i]),
    ensures
        dec_segs(enc_segs(p) + rest, p.len() as nat) == Some((p, rest)),
    decreases p.len(),
{
    if p.len() == 0 {
        assert(enc_segs(p) + rest =~= rest);
        assert(p =~= Seq::<Seq<char>>::empty());
    } else {
        assert(enc_segs(p) + rest =~= enc_str(p.first()) + (enc_segs(p.drop_first()) + rest));
        lemma_dec_str(p.first(), enc_segs(p.drop_first()) + rest);
        lemma_dec_segs(p.drop_first(), rest);
        assert(seq![p.first()] + p.drop_first() =~= p);
    }
}

pub proof fn lemma_dec_path(p: Seq<Seq<char>>, rest: Seq<u8>)
    requires
        path_wf(p),
    ensures
        dec_path(enc_path(p) + rest) == Some((p, rest)),
{
    assert(enc_path(p) + rest =~= enc_u64(p.len() as u64) + (enc_segs(p) + rest));
    lemma_dec_u64(p.len() as u64, enc_segs(p) + rest);
    lemma_dec_segs(p, rest);
}

pub proof fn lemma_dec_meta(m: FileMetaView, rest: Seq<u8>)
    requires
        meta_wf(m),
    ensures
        dec_meta(enc_meta(m) + rest) == Some((m, rest)),
{
    assert(enc_meta(m) + rest =~= enc_path(m.path) + (enc_ts(m.mtime) + rest));
    lemma_dec_path(m.path, enc_ts(m.mtime) + rest);
    lemma_dec_ts(m.mtime, rest);
}

pub proof fn lemma_dec_journal(j: JournalView, rest: Seq<u8>)
    requires
        journal_wf(j),
    ensures
        dec_journal(enc_journal(j) + rest) == Some((j, rest)),
{
    match j {
        JournalView::CreateFile { meta, key } => {
            let b = enc_journal(j) + rest;
            assert(b[0] == 0);
            assert(b.drop_first() =~= enc_meta(meta) + (enc_str(key) + rest));
            lemma_dec_meta(meta, enc_str(key) + rest);
            lemma_dec_str(key, rest);
        },
        JournalView::RemoveFile { meta } => {
            let b = enc_journal(j) + rest;
            assert(b[0] == 1);
            assert(b.drop_first() =~= enc_meta(meta) + rest);
            lemma_dec_meta(meta, rest);
        },
    }
}

pub proof fn lemma_dec_record(r: JournalRecordView, rest: Seq<u8>)
    requires
        record_wf(r),
    ensures
        dec_record(enc_record(r) + rest) == Some((r, rest)),
{
    assert(enc_record(r) + rest =~= enc_journal(r.journal) + (enc_ts(r.timestamp) + (enc_str(r.key)
        + rest)));
    lemma_dec_journal(r.journal, enc_ts(r.timestamp) + (enc_str(r.key) + rest));
    lemma_dec_ts(r.timestamp, enc_str(r.key) + rest);
    lemma_dec_str(r.key, rest);
}

pub proof fn lemma_dec_records(rs: Seq<JournalRecordView>, rest: Seq<u8>)
    requires
        forall|i: int| 0 <= i < rs.len() ==> record_wf(#[trigger] rs[i]),
    ensures
        dec_records(enc_records(rs) + rest, rs.len() as nat) == Some((rs, rest)),
    decreases rs.len(),
{
    if rs.len() == 0 {
        assert(enc_records(rs) + rest =~= rest);
        assert(rs =~= Seq::<JournalRecordView>::empty());
    } else {
        assert(enc_records(rs) + rest =~= enc_record(rs.first()) + (enc_records(rs.drop_first())
            + rest));
        lemma_dec_record(rs.first(), enc_records(rs.drop_first()) + rest);
        lemma_dec_records(rs.drop_first(), rest);
        assert(seq![rs.first()] + rs.drop_first() =~= rs);
    }
}

/// The codec is lossless: decoding the encoding of any encodable segment
/// yields the segment back, byte for byte and record for record.
pub proof fn lemma_codec_round_trip(rs: Seq<JournalRecordView>)
    requires
        file_wf(rs),
    ensures
        dec_file(enc_file(rs)) == Some(rs),
{
    assert(enc_file(rs) =~= enc_u64(rs.len() as u64) + (enc_records(rs) + Seq::<u8>::empty()));
    lemma_dec_u64(rs.len() as u64, enc_records(rs) + Seq::<u8>::empty());
    lemma_dec_records(rs, Seq::empty());
    assert(enc_records(rs) + Seq::<u8>::empty() =~= enc_records(rs));
}

/// The encoding is injective on encodable segments: equal encodings mean
/// equal segments.
pub proof fn lemma_enc_file_injective(rs1: Seq<JournalRecordView>, rs2: Seq<JournalRecordView>)
    requires
        file_wf(rs1),
        file_wf(rs2),
        enc_file(rs1) == enc_file(rs2),
    ensures
        rs1 == rs2,
{
    lemma_codec_round_trip(rs1);
    lemma_codec_round_trip(rs2);
}

/// Relies on String::from_utf8: it succeeds exactly on valid UTF-8 input,
/// and the returned string's UTF-8 bytes are the input bytes.
#[verifier::external_body]
pub(crate) fn bytes_to_string(v: Vec<u8>) -> (r: Option<String>)
    ensures
        r is Some <==> valid_utf8(v@),
        (match r {
            Some(s) => encode_utf8(s@) == v@,
            None => true,
        }),
{
    match String::from_utf8(v) {
        Ok(s) => Some(s),
        Err(_) => None,
    }
}

/// Reads a 64-bit little-endian value at `pos`.
fn read_u64(b: &[u8], pos: usize) -> (r: Option<(u64, usize)>)
    requires
        pos <= b@.len(),
    ensures
        (match r {
            Some(vp) => pos <= vp.1 <= b@.len() && dec_u64(b@.skip(pos as int)) == Some(
                (vp.0, b@.skip(vp.1 as int)),
            ),
            None => dec_u64(b@.skip(pos as int)) is None,
        }),
{
    if b.len() - pos >= 8 {
        let s = vstd::slice::slice_subrange(b, pos, pos + 8);
        let v = vstd::bytes::u64_from_le_bytes(s);
        proof {
            assert(b@.skip(pos as int).take(8) =~= b@.subrange(pos as int, pos as int + 8));
            assert(b@.skip(pos as int).skip(8) =~= b@.skip(pos as int + 8));
        }
        Some((v, pos + 8))
    } else {
        None
    }
}

/// Reads a length-prefixed byte string at `pos`.
fn read_bytes(b: &[u8], pos: usize) -> (r: Option<(Vec<u8>, usize)>)
    requires
        pos <= b@.len(),
    ensures
        (match r {
            Some(vp) => pos <= vp.1 <= b@.len() && dec_bytes(b@.skip(pos as int)) == Some(
                (vp.0@, b@.skip(vp.1 as int)),
            ),
            None => dec_bytes(b@.skip(pos as int)) is None,
        }),
{
    match read_u64(b, pos) {
        None => None,
        Some((n, p2)) => {
            if n <= (b.len() - p2) as u64 {
                let len = n as usize;
                let s = vstd::slice::slice_subrange(b, p2, p2 + len);
                let v = vstd::slice::slice_to_vec(s);
                proof {
                    assert(b@.skip(p2 as int).take(n as int) =~= b@.subrange(
                        p2 as int,
                        p2 + n as int,
                    ));
                    assert(b@.skip(p2 as int).skip(n as int) =~= b@.skip(p2 + n as int));
                }
                Some((v, p2 + len))
            } else {
                proof {
                    assert(b@.skip(p2 as int).len() < n);
                }
                None
            }
        },
    }
}

/// Reads a length-prefixed UTF-8 string at `pos`.
fn read_string(b: &[u8], pos: usize) -> (r: Option<(String, usize)>)
    requires
        pos <= b@.len(),
    ensures
        (match r {
            Some(vp) => pos <= vp.1 <= b@.len() && dec_str(b@.skip(pos as int)) == Some(
                (vp.0@, b@.skip(vp.1 as int)),
            ),
            None => dec_str(b@.skip(pos as int)) is None,
        }),
{
    match read_bytes(b, pos) {
        None => None,
        Some((bs, p2)) => {
            let ghost bsv = bs@;
            match bytes_to_string(bs) {
                None => None,
                Some(s) => {
                    proof {
                        broadcast use vstd::utf8::encode_utf8_decode_utf8;

                        assert(decode_utf8(bsv) == s@);
                    }
                    Some((s, p2))
                },
            }
        },
    }
}

/// Reads a timestamp at `pos`.
fn read_ts(b: &[u8], pos: usize) -> (r: Option<(Timestamp, usize)>)
    requires
        pos <= b@.len(),
    ensures
        (match r {
            Some(vp) => pos <= vp.1 <= b@.len() && dec_ts(b@.skip(pos as int)) == Some(
                (vp.0, b@.skip(vp.1 as int)),
            ),
            None => dec_ts(b@.skip(pos as int)) is None,
        }),
{
    let (y, p1) = match read_u64(b, pos) {
        None => {
            return None;
        },
        Some(x) => x,
    };
    if y > 0xffff {
        return None;
    }
    let (mo, p2) = match read_u64(b, p1) {
        None => {
            return None;
        },
        Some(x) => x,
    };
    if mo > 0xff {
        return None;
    }
    let (d, p3) = match read_u64(b, p2) {
        None => {
            return None;
        },
        Some(x) => x,
    };
    if d > 0xff {
        return None;
    }
    let (h, p4) = match read_u64(b, p3) {
        None => {
            return None;
        },
        Some(x) => x,
    };
    if h > 0xff {
        return None;
    }
    let (mi, p5) = match read_u64(b, p4) {
        None => {
            return None;
        },
        Some(x) => x,
    };
    if mi > 0xff {
        return None;
    }
    let (sec, p6) = match read_u64(b, p5) {
        None => {
            return None;
        },
        Some(x) => x,
    };
    if sec > 0xff {
        return None;
    }
    let (n, p7) = match read_u64(b, p6) {
        None => {
            return None;
        },
        Some(x) => x,
    };
    if n > 0xffffffff {
        return None;
    }
    let t = Timestamp {
        year: y as u16,
        month: mo as u8,
        day: d as u8,
        hour: h as u8,
        minute: mi as u8,
        second: sec as u8,
        nanos: n as u32,
    };
    Some((t, p7))
}

/// Reads a path at `pos`.
fn read_path(b: &[u8], pos: usize) -> (r: Option<(Path, usize)>)
    requires
        pos <= b@.len(),
    ensures
        (match r {
            Some(vp) => pos <= vp.1 <= b@.len() && dec_path(b@.skip(pos as int)) == Some(
                (vp.0@, b@.skip(vp.1 as int)),
            ),
            None => dec_path(b@.skip(pos as int)) is None,
        }),
{
    let (n, start) = match read_u64(b, pos) {
        None => {
            return None;
        },
        Some(x) => x,
    };
    let mut segs: Vec<String> = Vec::new();
    let mut cur: usize = start;
    let mut i: u64 = 0;
    while i < n
        invariant
            i <= n,
            pos <= cur <= b@.len(),
            dec_u64(b@.skip(pos as int)) == Some((n, b@.skip(start as int))),
            segs.deep_view().len() == i,
            (match dec_segs(b@.skip(cur as int), (n - i) as nat) {
                None => dec_segs(b@.skip(start as int), n as nat) is None,
                Some(xr) => dec_segs(b@.skip(start as int), n as nat) == Some(
                    (segs.deep_view() + xr.0, xr.1),
                ),
            }),
        decreases n - i,
    {
        let ghost old_segs = segs.deep_view();
        match read_string(b, cur) {
            None => {
                return None;
            },
            Some((s, p2)) => {
                proof {
                    assert(old_segs.push(s@) + (match dec_segs(
                        b@.skip(p2 as int),
                        (n - i - 1) as nat,
                    ) {
                        None => Seq::<Seq<char>>::empty(),
                        Some(xr) => xr.0,
                    }) =~= old_segs + (seq![s@] + (match dec_segs(
                        b@.skip(p2 as int),
                        (n - i - 1) as nat,
                    ) {
                        None => Seq::<Seq<char>>::empty(),
                        Some(xr) => xr.0,
                    })));
                }
                segs.push(s);
                proof {
                    assert(segs.deep_view() =~= old_segs.push(s@));
                }
                cur = p2;
                i = i + 1;
            },
        }
    }
    proof {
        assert(segs.deep_view() + Seq::<Seq<char>>::empty() =~= segs.deep_view());
    }
    Some((Path::new(segs), cur))
}

/// Reads file metadata at `pos`.
fn read_meta(b: &[u8], pos: usize) -> (r: Option<(FileMeta, usize)>)
    requires
        pos <= b@.len(),
    ensures
        (match r {
            Some(vp) => pos <= vp.1 <= b@.len() && dec_meta(b@.skip(pos as int)) == Some(
                (vp.0@, b@.skip(vp.1 as int)),
            ),
            None => dec_meta(b@.skip(pos as int)) is None,
        }),
{
    let (path, p1) = match read_path(b, pos) {
        None => {
            return None;
        },
        Some(x) => x,
    };
    let (mtime, p2) = match read_ts(b, p1) {
        None => {
            return None;
        },
        Some(x) => x,
    };
    Some((FileMeta { path, mtime }, p2))
}

/// Reads one operation at `pos`.
fn read_journal(b: &[u8], pos: usize) -> (r: Option<(Journal, usize)>)
    requires
        pos <= b@.len(),
    ensures
        (match r {
            Some(vp) => pos <= vp.1 <= b@.len() && dec_journal(b@.skip(pos as int)) == Some(
                (vp.0@, b@.skip(vp.1 as int)),
            ),
            None => dec_journal(b@.skip(pos as int)) is None,
        }),
{
    if pos == b.len() {
        return None;
    }
    let tag = *vstd::slice::slice_index_get(b, pos);
    proof {
        assert(b@.skip(pos as int)[0] == b@[pos as int]);
        assert(b@.skip(pos as int).drop_first() =~= b@.skip(pos as int + 1));
    }
    if tag == 0 {
        let (meta, p1) = match read_meta(b, pos + 1) {
            None => {
                return None;
            },
            Some(x) => x,
        };
        let (key, p2) = match read_string(b, p1) {
            None => {
                return None;
            },
            Some(x) => x,
        };
        Some((Journal::CreateFile { meta, key }, p2))
    } else if tag == 1 {
        let (meta, p1) = match read_meta(b, pos + 1) {
            None => {
                return None;
            },
            Some(x) => x,
        };
        Some((Journal::RemoveFile { meta }, p1))
    } else {
        None
    }
}

/// Reads one record at `pos`.
fn read_record(b: &[u8], pos: usize) -> (r: Option<(JournalRecord, usize)>)
    requires
        pos <= b@.len(),
    ensures
        (match r {
            Some(vp) => pos <= vp.1 <= b@.len() && dec_record(b@.skip(pos as int)) == Some(
                (vp.0@, b@.skip(vp.1 as int)),
            ),
            None => dec_record(b@.skip(pos as int)) is None,
        }),
{
    let (journal, p1) = match read_journal(b, pos) {
        None => {
            return None;
        },
        Some(x) => x,
    };
    let (timestamp, p2) = match read_ts(b, p1) {
        None => {
            return None;
        },
        Some(x) => x,
    };
    let (key, p3) = match read_string(b, p2) {
        None => {
            return None;
        },
        Some(x) => x,
    };
    Some((JournalRecord { journal, timestamp, key }, p3))
}

/// Deserializes a journal segment from bytes. It accepts exactly the wire
/// encodings (with nothing left over) and returns the encoded records in
/// order; anything else is a codec failure.
pub fn decode_journal_file(b: &[u8]) -> (r: Result<JournalFile, Error>)
    ensures
        (match r {
            Ok(f) => dec_file(b@) == Some(f@),
            Err(e) => dec_file(b@) is None && e is SerdeFail,
        }),
{
    proof {
        assert(b@.skip(0) =~= b@);
    }
    let (n, start) = match read_u64(b, 0) {
        None => {
            return Err(Error::SerdeFail("journal segment does not parse".to_owned()));
        },
        Some(x) => x,
    };
    let mut records: Vec<JournalRecord> = Vec::new();
    let mut cur: usize = start;
    let mut i: u64 = 0;
    while i < n
        invariant
            i <= n,
            cur <= b@.len(),
            dec_u64(b@) == Some((n, b@.skip(start as int))),
            records.deep_view().len() == i,
            (match dec_records(b@.skip(cur as int), (n - i) as nat) {
                None => dec_records(b@.skip(start as int), n as nat) is None,
                Some(xr) => dec_records(b@.skip(start as int), n as nat) == Some(
                    (records.deep_view() + xr.0, xr.1),
                ),
            }),
        decreases n - i,
    {
        let ghost old_records = records.deep_view();
        match read_record(b, cur) {
            None => {
                return Err(Error::SerdeFail("journal segment does not parse".to_owned()));
            },
            Some((rec, p2)) => {
                proof {
                    assert(old_records.push(rec@) + (match dec_records(
                        b@.skip(p2 as int),
                        (n - i - 1) as nat,
                    ) {
                        None => Seq::<JournalRecordView>::empty(),
                        Some(xr) => xr.0,
                    }) =~= old_records + (seq![rec@] + (match dec_records(
                        b@.skip(p2 as int),
                        (n - i - 1) as nat,
                    ) {
                        None => Seq::<JournalRecordView>::empty(),
                        Some(xr) => xr.0,
                    })));
                }
                records.push(rec);
                proof {
                    assert(records.deep_view() =~= old_records.push(rec@));
                }
                cur = p2;
                i = i + 1;
            },
        }
    }
    if cur != b.len() {
        return Err(Error::SerdeFail("journal segment has trailing bytes".to_owned()));
    }
    proof {
        assert(records.deep_view() + Seq::<JournalRecordView>::empty() =~= records.deep_view());
        assert(b@.skip(cur as int).len() == 0);
    }
    Ok(JournalFile { records })
}

} // verus!
