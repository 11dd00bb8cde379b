use crate::aqfs::Timestamp;
use crate::codec::bytes_to_string;
use vstd::prelude::*;
use vstd::utf8::{encode_utf8, valid_utf8};

verus! {

/// Lexicographic order on byte sequences: the order in which an object
/// store's listing returns keys, and therefore the replay order of journal
/// segments.
pub open spec fn bytes_le(a: Seq<u8>, b: Seq<u8>) -> bool
    decreases a.len(),
{
    if a.len() == 0 {
        true
    } else if b.len() == 0 {
        false
    } else if a[0] < b[0] {
        true
    } else if a[0] > b[0] {
        false
    } else {
        bytes_le(a.drop_first(), b.drop_first())
    }
}

/// Strict lexicographic order.
pub open spec fn bytes_lt(a: Seq<u8>, b: Seq<u8>) -> bool {
    bytes_le(a, b) && a != b
}

pub proof fn lemma_bytes_le_refl(a: Seq<u8>)
    ensures
        bytes_le(a, a),
    decreases a.len(),
{
    if a.len() > 0 {
        lemma_bytes_le_refl(a.drop_first());
    }
}

pub proof fn lemma_bytes_le_antisym(a: Seq<u8>, b: Seq<u8>)
    requires
        bytes_le(a, b),
        bytes_le(b, a),
    ensures
        a == b,
    decreases a.len(),
{
    if a.len() == 0 {
        assert(a =~= b);
    } else {
        lemma_bytes_le_antisym(a.drop_first(), b.drop_first());
        assert(a =~= seq![a[0]] + a.drop_first());
        assert(b =~= seq![b[0]] + b.drop_first());
    }
}

pub proof fn lemma_bytes_le_trans(a: Seq<u8>, b: Seq<u8>, c: Seq<u8>)
    requires
        bytes_le(a, b),
        bytes_le(b, c),
    ensures
        bytes_le(a, c),
    decreases a.len(),
{
    if a.len() > 0 && b.len() > 0 && c.len() > 0 && a[0] == b[0] && b[0] == c[0] {
        lemma_bytes_le_trans(a.drop_first(), b.drop_first(), c.drop_first());
    }
}

pub proof fn lemma_bytes_le_connected(a: Seq<u8>, b: Seq<u8>)
    ensures
        bytes_le(a, b) || bytes_le(b, a),
    decreases a.len(),
{
    if a.len() > 0 && b.len() > 0 && a[0] == b[0] {
        lemma_bytes_le_connected(a.drop_first(), b.drop_first());
    }
}

/// Two sequences with a common prefix compare as their remainders do.
pub proof fn lemma_bytes_le_skip(a: Seq<u8>, b: Seq<u8>, i: int)
    requires
        0 <= i <= a.len(),
        i <= b.len(),
        forall|j: int| 0 <= j < i ==> a[j] == b[j],
    ensures
        bytes_le(a, b) == bytes_le(a.skip(i), b.skip(i)),
    decreases i,
{
    if i > 0 {
        assert(a[0] == b[0]);
        assert(a.drop_first().skip(i - 1) =~= a.skip(i));
        assert(b.drop_first().skip(i - 1) =~= b.skip(i));
        lemma_bytes_le_skip(a.drop_first(), b.drop_first(), i - 1);
    } else {
        assert(a.skip(0) =~= a);
        assert(b.skip(0) =~= b);
    }
}

/// Concatenations with an equal prefix compare as their suffixes do.
pub proof fn lemma_bytes_le_concat_eq(x: Seq<u8>, y1: Seq<u8>, y2: Seq<u8>)
    ensures
        bytes_le(x + y1, x + y2) == bytes_le(y1, y2),
    decreases x.len(),
{
    if x.len() == 0 {
        assert(x + y1 =~= y1);
        assert(x + y2 =~= y2);
    } else {
        assert((x + y1)[0] == x[0]);
        assert((x + y2)[0] == x[0]);
        assert((x + y1).drop_first() =~= x.drop_first() + y1);
        assert((x + y2).drop_first() =~= x.drop_first() + y2);
        lemma_bytes_le_concat_eq(x.drop_first(), y1, y2);
    }
}

/// A strict comparison of equal-width prefixes decides the comparison of
/// the concatenations, whatever the suffixes are.
pub proof fn lemma_bytes_le_concat_lt(x1: Seq<u8>, y1: Seq<u8>, x2: Seq<u8>, y2: Seq<u8>)
    requires
        x1.len() == x2.len(),
        bytes_lt(x1, x2),
    ensures
        bytes_lt(x1 + y1, x2 + y2),
{
    assert(exists|k: int| 0 <= k < x1.len() && x1[k] != x2[k]) by {
        if forall|k: int| 0 <= k < x1.len() ==> x1[k] == x2[k] {
            assert(x1 =~= x2);
        }
    }
    let k = choose|k: int| 0 <= k < x1.len() && x1[k] != x2[k];
    assert((x1 + y1)[k] == x1[k]);
    assert((x2 + y2)[k] == x2[k]);
    assert(x1 + y1 != x2 + y2) by {
        if x1 + y1 == x2 + y2 {
            assert((x1 + y1)[k] == (x2 + y2)[k]);
        }
    }
    lemma_bytes_le_concat_le(x1, y1, x2, y2);
}

proof fn lemma_bytes_le_concat_le(x1: Seq<u8>, y1: Seq<u8>, x2: Seq<u8>, y2: Seq<u8>)
    requires
        x1.len() == x2.len(),
        bytes_le(x1, x2),
    ensures
        bytes_le(x1 + y1, x2 + y2) || x1 == x2,
    decreases x1.len(),
{
    if x1.len() == 0 {
        assert(x1 =~= x2);
    } else {
        assert((x1 + y1)[0] == x1[0]);
        assert((x2 + y2)[0] == x2[0]);
        if x1[0] == x2[0] {
            assert((x1 + y1).drop_first() =~= x1.drop_first() + y1);
            assert((x2 + y2).drop_first() =~= x2.drop_first() + y2);
            lemma_bytes_le_concat_le(x1.drop_first(), y1, x2.drop_first(), y2);
            if x1.drop_first() == x2.drop_first() {
                assert(x1 =~= seq![x1[0]] + x1.drop_first());
                assert(x2 =~= seq![x2[0]] + x2.drop_first());
                assert(x1 == x2);
            }
        }
    }
}

/// One step of a componentwise comparison: a strictly smaller earlier
/// component decides, an equal one passes the decision on to the rest.
pub proof fn lemma_component_step(a1: Seq<u8>, b1: Seq<u8>, a2: Seq<u8>, b2: Seq<u8>)
    requires
        a1.len() == a2.len(),
        bytes_lt(a1, a2) || (a1 == a2 && bytes_lt(b1, b2)),
    ensures
        bytes_lt(a1 + b1, a2 + b2),
{
    if a1 == a2 {
        lemma_bytes_le_concat_eq(a1, b1, b2);
        assert(a1 + b1 != a2 + b2) by {
            if a1 + b1 == a2 + b2 {
                assert forall|k: int| 0 <= k < b1.len() implies b1[k] == b2[k] by {
                    assert((a1 + b1)[a1.len() + k] == b1[k]);
                    assert((a2 + b2)[a2.len() + k] == b2[k]);
                }
                assert(b1.len() == b2.len());
                assert(b1 =~= b2);
            }
        }
    } else {
        lemma_bytes_le_concat_lt(a1, b1, a2, b2);
    }
}

/// Lexicographic comparison of two byte strings.
pub fn bytes_le_exec(a: &[u8], b: &[u8]) -> (r: bool)
    ensures
        r == bytes_le(a@, b@),
{
    let mut i: usize = 0;
    loop
        invariant
            i <= a@.len(),
            i <= b@.len(),
            forall|j: int| 0 <= j < i ==> a@[j] == b@[j],
        decreases a@.len() - i,
    {
        proof {
            lemma_bytes_le_skip(a@, b@, i as int);
        }
        if i == a.len() {
            return true;
        }
        if i == b.len() {
            return false;
        }
        if a[i] < b[i] {
            return true;
        }
        if a[i] > b[i] {
            return false;
        }
        i = i + 1;
    }
}

/// Ten to the given power.
pub open spec fn pow10(w: nat) -> nat
    decreases w,
{
    if w == 0 {
        1
    } else {
        10 * pow10((w - 1) as nat)
    }
}

pub proof fn lemma_pow10_pos(w: nat)
    ensures
        pow10(w) >= 1,
    decreases w,
{
    if w > 0 {
        lemma_pow10_pos((w - 1) as nat);
    }
}

/// The concrete powers the key scheme uses.
pub proof fn lemma_pow10_vals()
    ensures
        pow10(2) == 100,
        pow10(4) == 10000,
        pow10(9) == 1_000_000_000,
{
    reveal_with_fuel(pow10, 10);
}

/// The zero-padded decimal rendering of the `w` low decimal digits of `v`,
/// most significant first.
pub open spec fn spec_digits(v: nat, w: nat) -> Seq<u8>
    decreases w,
{
    if w == 0 {
        Seq::empty()
    } else {
        spec_digits(v / 10, (w - 1) as nat).push((0x30 + v % 10) as u8)
    }
}

pub proof fn lemma_digits_len(v: nat, w: nat)
    ensures
        spec_digits(v, w).len() == w,
        forall|i: int| 0 <= i < w ==> 0x30 <= #[trigger] spec_digits(v, w)[i] <= 0x39,
    decreases w,
{
    if w > 0 {
        lemma_digits_len(v / 10, (w - 1) as nat);
    }
}

/// Fixed-width zero-padded decimal strings order as the numbers they
/// render: the heart of the sortable key scheme.
pub proof fn lemma_digits_order(v1: nat, v2: nat, w: nat)
    requires
        v1 <= v2 < pow10(w),
    ensures
        bytes_le(spec_digits(v1, w), spec_digits(v2, w)),
        v1 < v2 ==> spec_digits(v1, w) != spec_digits(v2, w),
    decreases w,
{
    if w == 0 {
        assert(v1 == 0 && v2 == 0);
        lemma_bytes_le_refl(spec_digits(v1, w));
    } else {
        let q1 = v1 / 10;
        let q2 = v2 / 10;
        let a = (0x30 + v1 % 10) as u8;
        let b = (0x30 + v2 % 10) as u8;
        let x = spec_digits(q1, (w - 1) as nat);
        let y = spec_digits(q2, (w - 1) as nat);
        assert(pow10(w) == 10 * pow10((w - 1) as nat));
        assert(q1 <= q2 && q2 < pow10((w - 1) as nat)) by (nonlinear_arith)
            requires
                v1 <= v2,
                v2 < 10 * pow10((w - 1) as nat),
                q1 == v1 / 10,
                q2 == v2 / 10,
        ;
        lemma_digits_order(q1, q2, (w - 1) as nat);
        lemma_digits_len(q1, (w - 1) as nat);
        lemma_digits_len(q2, (w - 1) as nat);
        let d1 = spec_digits(v1, w);
        let d2 = spec_digits(v2, w);
        assert(d1 == x.push(a));
        assert(d2 == y.push(b));
        assert(x.push(a) =~= x + seq![a]);
        assert(y.push(b) =~= y + seq![b]);
        if q1 < q2 {
            lemma_component_step(x, seq![a], y, seq![b]);
        } else {
            assert(q1 == q2);
            assert(x == y);
            assert(v1 % 10 <= v2 % 10 && (v1 < v2 ==> v1 % 10 < v2 % 10)) by (nonlinear_arith)
                requires
                    v1 <= v2,
                    v1 / 10 == v2 / 10,
            ;
            assert(bytes_le(seq![a], seq![b])) by {
                reveal_with_fuel(bytes_le, 3);
                assert(seq![a].drop_first() =~= Seq::<u8>::empty());
                assert(seq![b].drop_first() =~= Seq::<u8>::empty());
            }
            lemma_bytes_le_concat_eq(x, seq![a], seq![b]);
            if v1 < v2 {
                assert(a < b);
                assert(d1 != d2) by {
                    if d1 == d2 {
                        assert(d1.last() == d2.last());
                    }
                }
            }
        }
    }
}

/// Appends the zero-padded `w`-digit decimal rendering of `v`.
pub fn push_digits(out: &mut Vec<u8>, v: u64, w: u64)
    ensures
        final(out)@ == old(out)@ + spec_digits(v as nat, w as nat),
    decreases w,
{
    if w == 0 {
        proof {
            assert(final(out)@ =~= old(out)@ + spec_digits(v as nat, 0));
        }
    } else {
        push_digits(out, v / 10, w - 1);
        out.push(0x30 + (v % 10) as u8);
        proof {
            assert((v / 10) as nat == (v as nat) / 10);
            assert((v % 10) as nat == (v as nat) % 10);
            assert(final(out)@ =~= old(out)@ + spec_digits(v as nat, w as nat));
        }
    }
}

/// The fixed-width timestamp rendering used in record and segment keys:
/// year, month, day, hour, minute, second and nanoseconds, each zero-padded,
/// 23 digits in all. For well-formed timestamps it is ordered exactly as the
/// timestamps are.
pub open spec fn spec_ts_digits(t: Timestamp) -> Seq<u8> {
    spec_digits(t.year as nat, 4) + spec_digits(t.month as nat, 2) + spec_digits(t.day as nat, 2)
        + spec_digits(t.hour as nat, 2) + spec_digits(t.minute as nat, 2) + spec_digits(
        t.second as nat,
        2,
    ) + spec_digits(t.nanos as nat, 9)
}

/// Appends the 23-digit timestamp rendering.
pub fn push_ts_digits(out: &mut Vec<u8>, t: &Timestamp)
    requires
        t.wf(),
    ensures
        final(out)@ == old(out)@ + spec_ts_digits(*t),
{
    push_digits(out, t.year as u64, 4);
    push_digits(out, t.month as u64, 2);
    push_digits(out, t.day as u64, 2);
    push_digits(out, t.hour as u64, 2);
    push_digits(out, t.minute as u64, 2);
    push_digits(out, t.second as u64, 2);
    push_digits(out, t.nanos as u64, 9);
    proof {
        assert(final(out)@ =~= old(out)@ + spec_ts_digits(*t));
    }
}

pub proof fn lemma_ts_digits_len(t: Timestamp)
    ensures
        spec_ts_digits(t).len() == 23,
{
    lemma_digits_len(t.year as nat, 4);
    lemma_digits_len(t.month as nat, 2);
    lemma_digits_len(t.day as nat, 2);
    lemma_digits_len(t.hour as nat, 2);
    lemma_digits_len(t.minute as nat, 2);
    lemma_digits_len(t.second as nat, 2);
    lemma_digits_len(t.nanos as nat, 9);
}

/// Chronological order of well-formed timestamps is exactly the
/// lexicographic order of their fixed-width renderings: a segment written at
/// an earlier instant sorts, and therefore replays, before one written at a
/// later instant, whatever their random disambiguators are.
pub proof fn lemma_ts_digits_order(t1: Timestamp, t2: Timestamp)
    requires
        t1.wf(),
        t2.wf(),
        t1.spec_lt(t2),
    ensures
        bytes_lt(spec_ts_digits(t1), spec_ts_digits(t2)),
{
    lemma_pow10_vals();
    let y1 = spec_digits(t1.year as nat, 4);
    let y2 = spec_digits(t2.year as nat, 4);
    let mo1 = spec_digits(t1.month as nat, 2);
    let mo2 = spec_digits(t2.month as nat, 2);
    let d1 = spec_digits(t1.day as nat, 2);
    let d2 = spec_digits(t2.day as nat, 2);
    let h1 = spec_digits(t1.hour as nat, 2);
    let h2 = spec_digits(t2.hour as nat, 2);
    let mi1 = spec_digits(t1.minute as nat, 2);
    let mi2 = spec_digits(t2.minute as nat, 2);
    let s1 = spec_digits(t1.second as nat, 2);
    let s2 = spec_digits(t2.second as nat, 2);
    let n1 = spec_digits(t1.nanos as nat, 9);
    let n2 = spec_digits(t2.nanos as nat, 9);
    lemma_digits_len(t1.year as nat, 4);
    lemma_digits_len(t2.year as nat, 4);
    lemma_digits_len(t1.month as nat, 2);
    lemma_digits_len(t2.month as nat, 2);
    lemma_digits_len(t1.day as nat, 2);
    lemma_digits_len(t2.day as nat, 2);
    lemma_digits_len(t1.hour as nat, 2);
    lemma_digits_len(t2.hour as nat, 2);
    lemma_digits_len(t1.minute as nat, 2);
    lemma_digits_len(t2.minute as nat, 2);
    lemma_digits_len(t1.second as nat, 2);
    lemma_digits_len(t2.second as nat, 2);
    lemma_digits_len(t1.nanos as nat, 9);
    lemma_digits_len(t2.nanos as nat, 9);
    let tail_s1 = s1 + n1;
    let tail_s2 = s2 + n2;
    let tail_mi1 = mi1 + tail_s1;
    let tail_mi2 = mi2 + tail_s2;
    let tail_h1 = h1 + tail_mi1;
    let tail_h2 = h2 + tail_mi2;
    let tail_d1 = d1 + tail_h1;
    let tail_d2 = d2 + tail_h2;
    let tail_mo1 = mo1 + tail_d1;
    let tail_mo2 = mo2 + tail_d2;
    if t1.year != t2.year {
        lemma_digits_order(t1.year as nat, t2.year as nat, 4);
        lemma_component_step(y1, tail_mo1, y2, tail_mo2);
    } else {
        if t1.month != t2.month {
            lemma_digits_order(t1.month as nat, t2.month as nat, 2);
            lemma_component_step(mo1, tail_d1, mo2, tail_d2);
        } else {
            if t1.day != t2.day {
                lemma_digits_order(t1.day as nat, t2.day as nat, 2);
                lemma_component_step(d1, tail_h1, d2, tail_h2);
            } else {
                if t1.hour != t2.hour {
                    lemma_digits_order(t1.hour as nat, t2.hour as nat, 2);
                    lemma_component_step(h1, tail_mi1, h2, tail_mi2);
                } else {
                    if t1.minute != t2.minute {
                        lemma_digits_order(t1.minute as nat, t2.minute as nat, 2);
                        lemma_component_step(mi1, tail_s1, mi2, tail_s2);
                    } else {
                        if t1.second != t2.second {
                            lemma_digits_order(t1.second as nat, t2.second as nat, 2);
                            lemma_component_step(s1, n1, s2, n2);
                        } else {
                            lemma_digits_order(t1.nanos as nat, t2.nanos as nat, 9);
                            lemma_component_step(s1, n1, s2, n2);
                        }
                        assert(bytes_lt(tail_s1, tail_s2));
                        lemma_component_step(mi1, tail_s1, mi2, tail_s2);
                    }
                    assert(bytes_lt(tail_mi1, tail_mi2));
                    lemma_component_step(h1, tail_mi1, h2, tail_mi2);
                }
                assert(bytes_lt(tail_h1, tail_h2));
                lemma_component_step(d1, tail_h1, d2, tail_h2);
            }
            assert(bytes_lt(tail_d1, tail_d2));
            lemma_component_step(mo1, tail_d1, mo2, tail_d2);
        }
        assert(bytes_lt(tail_mo1, tail_mo2));
        lemma_component_step(y1, tail_mo1, y2, tail_mo2);
    }
    assert(bytes_lt(y1 + tail_mo1, y2 + tail_mo2));
    assert(spec_ts_digits(t1) =~= y1 + tail_mo1);
    assert(spec_ts_digits(t2) =~= y2 + tail_mo2);
}

/// All-ASCII byte strings are valid UTF-8.
pub proof fn lemma_ascii_valid_utf8(b: Seq<u8>)
    requires
        forall|i: int| 0 <= i < b.len() ==> b[i] < 0x80,
    ensures
        valid_utf8(b),
{
    assert(b.subrange(0, 0) =~= Seq::<u8>::empty());
    assert(vstd::utf8::partial_valid_utf8(b, 0));
    assert forall|i: int|
        0 <= 0 <= i < b.len() <= b.len() implies #[trigger] vstd::utf8::is_leading_byte_width_1(
        b[i],
    ) by {}
    vstd::utf8::partial_valid_utf8_extend_ascii_block(b, 0, b.len() as int);
    assert(b.subrange(0, b.len() as int) =~= b);
}

/// The key prefix of journal segment objects: the bytes of `journal/`.
pub open spec fn journal_prefix() -> Seq<u8> {
    seq![0x6au8, 0x6fu8, 0x75u8, 0x72u8, 0x6eu8, 0x61u8, 0x6cu8, 0x2fu8]
}

/// The key prefix of content objects: the bytes of `data/`.
pub open spec fn data_prefix() -> Seq<u8> {
    seq![0x64u8, 0x61u8, 0x74u8, 0x61u8, 0x2fu8]
}

/// A segment key: the journal prefix, the fixed-width timestamp, a hyphen,
/// and a random disambiguator. The timestamp part makes keys of different
/// instants sort chronologically; the disambiguator keeps concurrent
/// writers within one instant from colliding.
pub open spec fn segment_key_bytes(t: Timestamp, d: Seq<u8>) -> Seq<u8> {
    journal_prefix() + spec_ts_digits(t) + seq![0x2du8] + d
}

/// A content key: the data prefix and a random identifier.
pub open spec fn content_key_bytes(d: Seq<u8>) -> Seq<u8> {
    data_prefix() + d
}

/// Segment keys sort chronologically: a key minted at an earlier instant
/// is strictly below any key minted at a later instant, whatever the two
/// disambiguators are.
pub proof fn lemma_segment_key_order(t1: Timestamp, d1: Seq<u8>, t2: Timestamp, d2: Seq<u8>)
    requires
        t1.wf(),
        t2.wf(),
        t1.spec_lt(t2),
    ensures
        bytes_lt(segment_key_bytes(t1, d1), segment_key_bytes(t2, d2)),
{
    lemma_ts_digits_order(t1, t2);
    lemma_ts_digits_len(t1);
    lemma_ts_digits_len(t2);
    let rest1 = spec_ts_digits(t1) + (seq![0x2du8] + d1);
    let rest2 = spec_ts_digits(t2) + (seq![0x2du8] + d2);
    lemma_component_step(spec_ts_digits(t1), seq![0x2du8] + d1, spec_ts_digits(t2), seq![0x2du8]
        + d2);
    lemma_component_step(journal_prefix(), rest1, journal_prefix(), rest2);
    assert(segment_key_bytes(t1, d1) =~= journal_prefix() + rest1);
    assert(segment_key_bytes(t2, d2) =~= journal_prefix() + rest2);
}

/// Segment keys never collide: two keys agree only if both their
/// timestamps and their equal-length disambiguators agree.
pub proof fn lemma_segment_key_unique(t1: Timestamp, d1: Seq<u8>, t2: Timestamp, d2: Seq<u8>)
    requires
        t1.wf(),
        t2.wf(),
        d1.len() == d2.len(),
        t1 != t2 || d1 != d2,
    ensures
        segment_key_bytes(t1, d1) != segment_key_bytes(t2, d2),
{
    let k1 = segment_key_bytes(t1, d1);
    let k2 = segment_key_bytes(t2, d2);
    lemma_ts_digits_len(t1);
    lemma_ts_digits_len(t2);
    if t1 != t2 {
        assert(t1.spec_lt(t2) || t2.spec_lt(t1));
        if t1.spec_lt(t2) {
            lemma_segment_key_order(t1, d1, t2, d2);
        } else {
            lemma_segment_key_order(t2, d2, t1, d1);
        }
    } else {
        assert(exists|i: int| 0 <= i < d1.len() && d1[i] != d2[i]) by {
            if forall|i: int| 0 <= i < d1.len() ==> d1[i] == d2[i] {
                assert(d1 =~= d2);
            }
        }
        let i = choose|i: int| 0 <= i < d1.len() && d1[i] != d2[i];
        assert(k1[32 + i] == d1[i]);
        assert(k2[32 + i] == d2[i]);
        assert(k1 != k2) by {
            if k1 == k2 {
                assert(k1[32 + i] == k2[32 + i]);
            }
        }
    }
}

/// Builds the segment key for the given instant and disambiguator:
/// `journal/`, the 23-digit timestamp, a hyphen, and the disambiguator.
pub fn make_segment_key(t: &Timestamp, disambiguator: &str) -> (r: String)
    requires
        t.wf(),
    ensures
        encode_utf8(r@) == segment_key_bytes(*t, encode_utf8(disambiguator@)),
{
    broadcast use vstd::utf8::encode_utf8_valid_utf8;

    let mut buf: Vec<u8> = Vec::new();
    buf.push(0x6a);
    buf.push(0x6f);
    buf.push(0x75);
    buf.push(0x72);
    buf.push(0x6e);
    buf.push(0x61);
    buf.push(0x6c);
    buf.push(0x2f);
    proof {
        assert(buf@ =~= journal_prefix());
    }
    push_ts_digits(&mut buf, t);
    buf.push(0x2d);
    let ghost ascii_part = buf@;
    proof {
        lemma_ts_digits_len(*t);
        assert forall|i: int| 0 <= i < ascii_part.len() implies ascii_part[i] < 0x80 by {
            lemma_digits_len(t.year as nat, 4);
            lemma_digits_len(t.month as nat, 2);
            lemma_digits_len(t.day as nat, 2);
            lemma_digits_len(t.hour as nat, 2);
            lemma_digits_len(t.minute as nat, 2);
            lemma_digits_len(t.second as nat, 2);
            lemma_digits_len(t.nanos as nat, 9);
            if 8 <= i < 31 {
                assert(ascii_part[i] == spec_ts_digits(*t)[i - 8]);
                assert(0x30 <= spec_ts_digits(*t)[i - 8] <= 0x39) by {
                    lemma_ts_digit_bounds(*t, i - 8);
                }
            }
        }
        lemma_ascii_valid_utf8(ascii_part);
    }
    buf.extend_from_slice(disambiguator.as_bytes());
    proof {
        vstd::utf8::valid_utf8_concat(ascii_part, encode_utf8(disambiguator@));
        assert(buf@ =~= ascii_part + encode_utf8(disambiguator@));
        assert(buf@ =~= segment_key_bytes(*t, encode_utf8(disambiguator@)));
    }
    match bytes_to_string(buf) {
        Some(s) => s,
        None => {
            proof {
                assert(false);
            }
            String::new()
        },
    }
}

/// Each of the 23 timestamp digits is an ASCII digit.
proof fn lemma_ts_digit_bounds(t: Timestamp, i: int)
    requires
        0 <= i < 23,
    ensures
        0x30 <= spec_ts_digits(t)[i] <= 0x39,
{
    lemma_digits_len(t.year as nat, 4);
    lemma_digits_len(t.month as nat, 2);
    lemma_digits_len(t.day as nat, 2);
    lemma_digits_len(t.hour as nat, 2);
    lemma_digits_len(t.minute as nat, 2);
    lemma_digits_len(t.second as nat, 2);
    lemma_digits_len(t.nanos as nat, 9);
    let y = spec_digits(t.year as nat, 4);
    let mo = spec_digits(t.month as nat, 2);
    let d = spec_digits(t.day as nat, 2);
    let h = spec_digits(t.hour as nat, 2);
    let mi = spec_digits(t.minute as nat, 2);
    let s = spec_digits(t.second as nat, 2);
    let n = spec_digits(t.nanos as nat, 9);
    assert(spec_ts_digits(t) =~= y + mo + d + h + mi + s + n);
    if i < 4 {
        assert(spec_ts_digits(t)[i] == y[i]);
    } else if i < 6 {
        assert(spec_ts_digits(t)[i] == mo[i - 4]);
    } else if i < 8 {
        assert(spec_ts_digits(t)[i] == d[i - 6]);
    } else if i < 10 {
        assert(spec_ts_digits(t)[i] == h[i - 8]);
    } else if i < 12 {
        assert(spec_ts_digits(t)[i] == mi[i - 10]);
    } else if i < 14 {
        assert(spec_ts_digits(t)[i] == s[i - 12]);
    } else {
        assert(spec_ts_digits(t)[i] == n[i - 14]);
    }
}

/// Builds the content key for the given identifier: `data/` and the
/// identifier.
pub fn make_content_key(disambiguator: &str) -> (r: String)
    ensures
        encode_utf8(r@) == content_key_bytes(encode_utf8(disambiguator@)),
{
    broadcast use vstd::utf8::encode_utf8_valid_utf8;

    let mut buf: Vec<u8> = Vec::new();
    buf.push(0x64);
    buf.push(0x61);
    buf.push(0x74);
    buf.push(0x61);
    buf.push(0x2f);
    let ghost ascii_part = buf@;
    proof {
        assert(ascii_part =~= data_prefix());
        lemma_ascii_valid_utf8(ascii_part);
    }
    buf.extend_from_slice(disambiguator.as_bytes());
    proof {
        vstd::utf8::valid_utf8_concat(ascii_part, encode_utf8(disambiguator@));
        assert(buf@ =~= ascii_part + encode_utf8(disambiguator@));
    }
    match bytes_to_string(buf) {
        Some(s) => s,
        None => {
            proof {
                assert(false);
            }
            String::new()
        },
    }
}

} // verus!
