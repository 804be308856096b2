//! Binary encoding of the manager's persisted state.
//!
//! The encoded form is: an 8-byte little-endian record count; per record a
//! kind byte, the 16-byte identifier (low half first), an 8-byte payload
//! length and the payload bytes; then one flag byte and, when a view is
//! active, its 16-byte identifier. Decoding is proved to invert encoding.

use vstd::prelude::*;

use crate::views::{kind_byte, kind_of_byte, ViewKind};

verus! {

/// The 8 little-endian bytes of a 64-bit value.
pub open spec fn le64(n: u64) -> Seq<u8> {
    Seq::new(8, |i: int| ((n >> ((8 * i) as u32)) & 0xff) as u8)
}

/// Value of the bytes `k..8` of a little-endian slice.
pub open spec fn u64_of_le_suffix(s: Seq<u8>, k: int) -> u64
    decreases 8 - k,
{
    if k >= 8 || k < 0 {
        0
    } else {
        (u64_of_le_suffix(s, k + 1) << 8u32) | (s[k] as u64)
    }
}

/// The 64-bit value an 8-byte little-endian slice denotes.
pub open spec fn u64_of_le(s: Seq<u8>) -> u64 {
    u64_of_le_suffix(s, 0)
}

/// Low 64 bits of an identifier.
pub open spec fn lo64(id: u128) -> u64 {
    (id & 0xffff_ffff_ffff_ffff) as u64
}

/// High 64 bits of an identifier.
pub open spec fn hi64(id: u128) -> u64 {
    (id >> 64u32) as u64
}

/// An identifier reassembled from its two halves.
pub open spec fn join64(lo: u64, hi: u64) -> u128 {
    ((hi as u128) << 64u32) | (lo as u128)
}

/// The 16 bytes of an identifier: low half first, each half little-endian.
pub open spec fn id_bytes(id: u128) -> Seq<u8> {
    le64(lo64(id)) + le64(hi64(id))
}

proof fn lemma_le64_suffix(n: u64, k: int)
    requires
        0 <= k <= 8,
    ensures
        u64_of_le_suffix(le64(n), k) == if k == 8 { 0u64 } else { n >> ((8 * k) as u32) },
    decreases 8 - k,
{
    let s = le64(n);
    if k == 8 {
    } else if k == 7 {
        assert(u64_of_le_suffix(s, 8) == 0);
        assert(s[7] == ((n >> ((8 * 7) as u32)) & 0xff) as u8);
        assert((0u64 << 8u32) | (((((n >> 56u32) & 0xff) as u8)) as u64) == n >> 56u32) by (bit_vector);
        assert(((8 * 7) as u32) == 56u32);
    } else {
        lemma_le64_suffix(n, k + 1);
        let sh: u32 = (8 * k) as u32;
        assert(s[k] == ((n >> sh) & 0xff) as u8);
        assert(((8 * (k + 1)) as u32) == (sh + 8) as u32);
        assert(u64_of_le_suffix(s, k + 1) == n >> ((sh + 8) as u32));
        assert(((n >> ((sh + 8) as u32)) << 8u32) | (((((n >> sh) & 0xff) as u8)) as u64) == n >> sh) by (bit_vector)
            requires sh <= 48;
    }
}

/// Reading back the little-endian bytes of a value yields the value.
pub proof fn lemma_le64_round_trip(n: u64)
    ensures
        u64_of_le(le64(n)) == n,
{
    lemma_le64_suffix(n, 0);
    assert(n >> 0u32 == n) by (bit_vector);
    assert(((8 * 0) as u32) == 0u32);
}

/// Splitting an identifier into halves and rejoining them yields it back.
pub proof fn lemma_split_join(id: u128)
    ensures
        join64(lo64(id), hi64(id)) == id,
{
    assert((((((id >> 64u32) as u64)) as u128) << 64u32) | ((((id & 0xffff_ffff_ffff_ffff) as u64)) as u128)
        == id) by (bit_vector);
}

/// The little-endian bytes of a 64-bit value, as a vector.
fn u64_le_vec(n: u64) -> (r: Vec<u8>)
    ensures
        r@ == le64(n),
{
    let mut out: Vec<u8> = Vec::new();
    let mut i: usize = 0;
    while i < 8
        invariant
            i <= 8,
            out@ == le64(n).take(i as int),
        decreases 8 - i,
    {
        let byte: u8 = ((n >> ((8 * i) as u32)) & 0xff) as u8;
        assert(byte == le64(n)[i as int]);
        out.push(byte);
        i = i + 1;
        assert(out@ =~= le64(n).take(i as int));
    }
    assert(out@ =~= le64(n));
    out
}

/// The 16 bytes of an identifier, as a vector.
fn u128_le_vec(id: u128) -> (r: Vec<u8>)
    ensures
        r@ == id_bytes(id),
{
    let lo: u64 = (id & 0xffff_ffff_ffff_ffff) as u64;
    let hi: u64 = (id >> 64u32) as u64;
    let mut out = u64_le_vec(lo);
    let mut rest = u64_le_vec(hi);
    out.append(&mut rest);
    assert(out@ =~= id_bytes(id));
    out
}

/// Reads the 64-bit value of the 8 bytes at `pos`.
fn read_u64_le(b: &Vec<u8>, pos: usize) -> (r: u64)
    requires
        pos + 8 <= b@.len(),
    ensures
        r == u64_of_le(b@.subrange(pos as int, pos as int + 8)),
{
    let ghost s = b@.subrange(pos as int, pos as int + 8);
    let blen: usize = b.len();
    let mut acc: u64 = 0;
    let mut k: usize = 8;
    while k > 0
        invariant
            k <= 8,
            pos + 8 <= blen,
            blen == b@.len(),
            s == b@.subrange(pos as int, pos as int + 8),
            acc == u64_of_le_suffix(s, k as int),
        decreases k,
    {
        k = k - 1;
        let byte: u8 = b[pos + k];
        assert(byte == s[k as int]);
        acc = (acc << 8u32) | (byte as u64);
    }
    acc
}

/// Reads the identifier held by the 16 bytes at `pos`.
fn read_u128_le(b: &Vec<u8>, pos: usize) -> (r: u128)
    requires
        pos + 16 <= b@.len(),
    ensures
        r == join64(
            u64_of_le(b@.subrange(pos as int, pos as int + 8)),
            u64_of_le(b@.subrange(pos as int + 8, pos as int + 16)),
        ),
{
    let blen: usize = b.len();
    assert(pos + 16 <= blen);
    let lo: u64 = read_u64_le(b, pos);
    let hi: u64 = read_u64_le(b, pos + 8);
    ((hi as u128) << 64u32) | (lo as u128)
}

/// One persisted view: its kind, identifier, and serialized definition.
#[derive(Debug)]
pub struct ViewRecord {
    pub kind: ViewKind,
    pub id: u128,
    pub payload: Vec<u8>,
}

/// The mathematical model of a record: a (kind, identifier, payload) triple.
pub open spec fn rec_model(r: ViewRecord) -> (ViewKind, u128, Seq<u8>) {
    (r.kind, r.id, r.payload@)
}

/// The models of a sequence of records.
pub open spec fn recs_model(v: Seq<ViewRecord>) -> Seq<(ViewKind, u128, Seq<u8>)> {
    v.map_values(|r: ViewRecord| rec_model(r))
}

/// The bytes of one record.
pub open spec fn record_bytes(t: (ViewKind, u128, Seq<u8>)) -> Seq<u8> {
    seq![kind_byte(t.0)] + id_bytes(t.1) + le64(t.2.len() as u64) + t.2
}

/// The bytes of a sequence of records, in order.
pub open spec fn recs_bytes(ts: Seq<(ViewKind, u128, Seq<u8>)>) -> Seq<u8>
    decreases ts.len(),
{
    if ts.len() == 0 {
        Seq::empty()
    } else {
        record_bytes(ts[0]) + recs_bytes(ts.subrange(1, ts.len() as int))
    }
}

/// The trailing bytes that record which view is active.
pub open spec fn act_bytes(a: Option<u128>) -> Seq<u8> {
    match a {
        None => seq![0u8],
        Some(id) => seq![1u8] + id_bytes(id),
    }
}

/// The full binary image of a manager state.
pub open spec fn spec_encode(ts: Seq<(ViewKind, u128, Seq<u8>)>, a: Option<u128>) -> Seq<u8> {
    le64(ts.len() as u64) + recs_bytes(ts) + act_bytes(a)
}

/// Appending one record extends the byte image by that record's bytes.
proof fn lemma_recs_bytes_snoc(ts: Seq<(ViewKind, u128, Seq<u8>)>, t: (ViewKind, u128, Seq<u8>))
    ensures
        recs_bytes(ts.push(t)) == recs_bytes(ts) + record_bytes(t),
    decreases ts.len(),
{
    if ts.len() == 0 {
        assert(ts.push(t)[0] == t);
        assert(ts.push(t).subrange(1, 1) =~= Seq::<(ViewKind, u128, Seq<u8>)>::empty());
        assert(recs_bytes(ts.push(t).subrange(1, 1)) == Seq::<u8>::empty());
        assert(recs_bytes(ts) == Seq::<u8>::empty());
        assert(recs_bytes(ts.push(t)) == record_bytes(t) + Seq::<u8>::empty());
        assert(recs_bytes(ts.push(t)) =~= recs_bytes(ts) + record_bytes(t));
    } else {
        let rest = ts.subrange(1, ts.len() as int);
        lemma_recs_bytes_snoc(rest, t);
        assert(ts.push(t).subrange(1, ts.push(t).len() as int) =~= rest.push(t));
        assert(ts.push(t)[0] == ts[0]);
        assert(recs_bytes(ts) == record_bytes(ts[0]) + recs_bytes(rest));
        assert(recs_bytes(ts.push(t)) == record_bytes(ts.push(t)[0]) + recs_bytes(
            ts.push(t).subrange(1, ts.push(t).len() as int),
        ));
        assert(recs_bytes(ts.push(t)) == record_bytes(ts[0]) + (recs_bytes(rest) + record_bytes(t)));
        assert(recs_bytes(ts.push(t)) =~= recs_bytes(ts) + record_bytes(t));
    }
}

/// Encodes records and the active identifier into the binary image.
pub fn encode_state(recs: &Vec<ViewRecord>, active: &Option<u128>) -> (r: Vec<u8>)
    ensures
        r@ == spec_encode(recs_model(recs@), *active),
{
    let n: u64 = recs.len() as u64;
    assert(recs_model(recs@).len() == recs@.len());
    let mut out = u64_le_vec(n);
    let mut i: usize = 0;
    while i < recs.len()
        invariant
            i <= recs@.len(),
            recs@.len() <= u64::MAX,
            n == recs@.len() as u64,
            out@ == le64(n) + recs_bytes(recs_model(recs@).take(i as int)),
        decreases recs@.len() - i,
    {
        let ghost pre = out@;
        let ghost t = rec_model(recs@[i as int]);
        let kb: u8 = match recs[i].kind {
            ViewKind::MidiEditor => 0,
            ViewKind::SynthDesigner => 1,
        };
        out.push(kb);
        let mut idb = u128_le_vec(recs[i].id);
        out.append(&mut idb);
        let plen: u64 = recs[i].payload.len() as u64;
        let mut plb = u64_le_vec(plen);
        out.append(&mut plb);
        let mut j: usize = 0;
        let ghost mid = out@;
        while j < recs[i].payload.len()
            invariant
                i < recs@.len(),
                j <= recs@[i as int].payload@.len(),
                out@ == mid + recs@[i as int].payload@.take(j as int),
                mid == out@.take(mid.len() as int),
            decreases recs@[i as int].payload@.len() - j,
        {
            let byte: u8 = recs[i].payload[j];
            out.push(byte);
            j = j + 1;
            assert(out@ =~= mid + recs@[i as int].payload@.take(j as int));
        }
        assert(recs@[i as int].payload@.take(recs@[i as int].payload@.len() as int) =~= recs@[i as int].payload@);
        assert(out@ =~= pre + record_bytes(t));
        proof {
            lemma_recs_bytes_snoc(recs_model(recs@).take(i as int), t);
            assert(recs_model(recs@).take(i as int).push(t) =~= recs_model(recs@).take(i as int + 1));
        }
        i = i + 1;
        assert(out@ =~= le64(n) + recs_bytes(recs_model(recs@).take(i as int)));
    }
    assert(recs_model(recs@).take(recs@.len() as int) =~= recs_model(recs@));
    match active {
        None => {
            out.push(0);
        },
        Some(a) => {
            out.push(1);
            let mut idb = u128_le_vec(*a);
            out.append(&mut idb);
        },
    }
    assert(out@ =~= spec_encode(recs_model(recs@), *active));
    out
}

/// What decoding one record at `pos` yields: the record and the position
/// after it, or nothing when the bytes there do not hold a record.
pub open spec fn dec_rec(b: Seq<u8>, pos: int) -> Option<((ViewKind, u128, Seq<u8>), int)> {
    if pos >= 0 && pos + 25 <= b.len() {
        match kind_of_byte(b[pos]) {
            None => None,
            Some(k) => {
                let id = join64(
                    u64_of_le(b.subrange(pos + 1, pos + 9)),
                    u64_of_le(b.subrange(pos + 9, pos + 17)),
                );
                let plen = u64_of_le(b.subrange(pos + 17, pos + 25)) as int;
                if pos + 25 + plen <= b.len() {
                    Some(((k, id, b.subrange(pos + 25, pos + 25 + plen)), pos + 25 + plen))
                } else {
                    None
                }
            },
        }
    } else {
        None
    }
}

/// What decoding `n` records starting at `pos` yields.
pub open spec fn dec_recs(b: Seq<u8>, pos: int, n: int) -> Option<
    (Seq<(ViewKind, u128, Seq<u8>)>, int),
>
    decreases n,
{
    if n <= 0 {
        Some((Seq::empty(), pos))
    } else {
        match dec_rec(b, pos) {
            None => None,
            Some((t, p2)) => match dec_recs(b, p2, n - 1) {
                None => None,
                Some((ts, p3)) => Some((seq![t] + ts, p3)),
            },
        }
    }
}

/// What decoding the active-view trailer at `pos` yields.
pub open spec fn dec_active(b: Seq<u8>, pos: int) -> Option<(Option<u128>, int)> {
    if 0 <= pos && pos + 1 <= b.len() {
        if b[pos] == 0 {
            Some((None, pos + 1))
        } else if b[pos] == 1 && pos + 17 <= b.len() {
            Some((
                Some(join64(
                    u64_of_le(b.subrange(pos + 1, pos + 9)),
                    u64_of_le(b.subrange(pos + 9, pos + 17)),
                )),
                pos + 17,
            ))
        } else {
            None
        }
    } else {
        None
    }
}

/// What decoding a whole binary image yields: the records and the active
/// identifier, or nothing when the image is not a complete encoding.
pub open spec fn decode_state_spec(b: Seq<u8>) -> Option<
    (Seq<(ViewKind, u128, Seq<u8>)>, Option<u128>),
> {
    if b.len() >= 8 {
        match dec_recs(b, 8, u64_of_le(b.subrange(0, 8)) as int) {
            None => None,
            Some((ts, p)) => match dec_active(b, p) {
                None => None,
                Some((a, p2)) => if p2 == b.len() {
                    Some((ts, a))
                } else {
                    None
                },
            },
        }
    } else {
        None
    }
}

/// A byte written by the encoder is read back unchanged: decoding one record
/// from its own bytes yields the record and stops right after it.
proof fn lemma_dec_rec_encoded(b: Seq<u8>, pos: int, t: (ViewKind, u128, Seq<u8>))
    requires
        0 <= pos,
        t.2.len() <= u64::MAX,
        pos + record_bytes(t).len() <= b.len(),
        b.subrange(pos, pos + record_bytes(t).len() as int) == record_bytes(t),
    ensures
        dec_rec(b, pos) == Some((t, pos + record_bytes(t).len() as int)),
{
    let rb = record_bytes(t);
    let plen = t.2.len() as int;
    assert(rb.len() == 25 + plen);
    assert forall|i: int| 0 <= i < rb.len() implies b[pos + i] == #[trigger] rb[i] by {
        assert(b.subrange(pos, pos + rb.len() as int)[i] == b[pos + i]);
    }
    assert(rb[0] == kind_byte(t.0));
    match t.0 {
        ViewKind::MidiEditor => {
            assert(kind_of_byte(kind_byte(t.0)) == Some(t.0));
        },
        ViewKind::SynthDesigner => {
            assert(kind_of_byte(kind_byte(t.0)) == Some(t.0));
        },
    }
    assert forall|i: int| 0 <= i < 8 implies b.subrange(pos + 1, pos + 9)[i] == #[trigger] le64(
        lo64(t.1),
    )[i] by {
        assert(b[pos + 1 + i] == rb[1 + i]);
        assert(rb[1 + i] == id_bytes(t.1)[i]);
    }
    assert(b.subrange(pos + 1, pos + 9) =~= le64(lo64(t.1)));
    assert forall|i: int| 0 <= i < 8 implies b.subrange(pos + 9, pos + 17)[i] == #[trigger] le64(
        hi64(t.1),
    )[i] by {
        assert(b[pos + 9 + i] == rb[9 + i]);
        assert(rb[9 + i] == id_bytes(t.1)[8 + i]);
    }
    assert(b.subrange(pos + 9, pos + 17) =~= le64(hi64(t.1)));
    lemma_le64_round_trip(lo64(t.1));
    lemma_le64_round_trip(hi64(t.1));
    lemma_split_join(t.1);
    assert forall|i: int| 0 <= i < 8 implies b.subrange(pos + 17, pos + 25)[i] == #[trigger] le64(
        t.2.len() as u64,
    )[i] by {
        assert(b[pos + 17 + i] == rb[17 + i]);
    }
    assert(b.subrange(pos + 17, pos + 25) =~= le64(t.2.len() as u64));
    lemma_le64_round_trip(t.2.len() as u64);
    assert(u64_of_le(b.subrange(pos + 17, pos + 25)) as int == plen);
    assert forall|i: int| 0 <= i < plen implies b.subrange(pos + 25, pos + 25 + plen)[i]
        == #[trigger] t.2[i] by {
        assert(b[pos + 25 + i] == rb[25 + i]);
    }
    assert(b.subrange(pos + 25, pos + 25 + plen) =~= t.2);
}

/// Decoding the encoder's bytes for a record sequence yields the sequence.
proof fn lemma_dec_recs_encoded(b: Seq<u8>, pos: int, ts: Seq<(ViewKind, u128, Seq<u8>)>)
    requires
        0 <= pos,
        forall|i: int| 0 <= i < ts.len() ==> (#[trigger] ts[i]).2.len() <= u64::MAX,
        pos + recs_bytes(ts).len() <= b.len(),
        b.subrange(pos, pos + recs_bytes(ts).len() as int) == recs_bytes(ts),
    ensures
        dec_recs(b, pos, ts.len() as int) == Some((ts, pos + recs_bytes(ts).len() as int)),
    decreases ts.len(),
{
    if ts.len() == 0 {
        assert(dec_recs(b, pos, 0) == Some((Seq::<(ViewKind, u128, Seq<u8>)>::empty(), pos)));
        assert(Seq::<(ViewKind, u128, Seq<u8>)>::empty() =~= ts);
    } else {
        let t0 = ts[0];
        let rest = ts.subrange(1, ts.len() as int);
        let rb0 = record_bytes(t0);
        let rbr = recs_bytes(rest);
        assert(recs_bytes(ts) == rb0 + rbr);
        assert forall|i: int| 0 <= i < recs_bytes(ts).len() implies b[pos + i] == #[trigger] recs_bytes(
            ts,
        )[i] by {
            assert(b.subrange(pos, pos + recs_bytes(ts).len() as int)[i] == b[pos + i]);
        }
        assert forall|i: int| 0 <= i < rb0.len() implies b.subrange(pos, pos + rb0.len() as int)[i]
            == #[trigger] rb0[i] by {
            assert(b[pos + i] == recs_bytes(ts)[i]);
        }
        assert(b.subrange(pos, pos + rb0.len() as int) =~= rb0);
        lemma_dec_rec_encoded(b, pos, t0);
        let pos2 = pos + rb0.len() as int;
        assert forall|i: int| 0 <= i < rbr.len() implies b.subrange(pos2, pos2 + rbr.len() as int)[i]
            == #[trigger] rbr[i] by {
            assert(b[pos + (rb0.len() + i)] == recs_bytes(ts)[rb0.len() + i]);
        }
        assert(b.subrange(pos2, pos2 + rbr.len() as int) =~= rbr);
        assert forall|i: int| 0 <= i < rest.len() implies (#[trigger] rest[i]).2.len()
            <= u64::MAX by {
            assert(rest[i] == ts[i + 1]);
        }
        lemma_dec_recs_encoded(b, pos2, rest);
        assert(seq![t0] + rest =~= ts);
        assert(dec_recs(b, pos, ts.len() as int) == Some((ts, pos + recs_bytes(ts).len() as int)));
    }
}

/// Decoding an encoded manager state yields the records and active identifier
/// that were encoded: the binary layer loses nothing.
pub proof fn lemma_codec_round_trip(ts: Seq<(ViewKind, u128, Seq<u8>)>, act: Option<u128>)
    requires
        ts.len() <= u64::MAX,
        forall|i: int| 0 <= i < ts.len() ==> (#[trigger] ts[i]).2.len() <= u64::MAX,
    ensures
        decode_state_spec(spec_encode(ts, act)) == Some((ts, act)),
{
    let b = spec_encode(ts, act);
    let rbl = recs_bytes(ts).len() as int;
    let abl = act_bytes(act).len() as int;
    assert(b.len() == 8 + rbl + abl);
    assert forall|i: int| 0 <= i < 8 implies b.subrange(0, 8)[i] == #[trigger] le64(
        ts.len() as u64,
    )[i] by {
        assert(b[i] == (le64(ts.len() as u64) + recs_bytes(ts) + act_bytes(act))[i]);
    }
    assert(b.subrange(0, 8) =~= le64(ts.len() as u64));
    lemma_le64_round_trip(ts.len() as u64);
    assert(u64_of_le(b.subrange(0, 8)) as int == ts.len() as int);
    assert forall|i: int| 0 <= i < rbl implies b.subrange(8, 8 + rbl)[i] == #[trigger] recs_bytes(
        ts,
    )[i] by {
        assert(b[8 + i] == (le64(ts.len() as u64) + recs_bytes(ts) + act_bytes(act))[8 + i]);
    }
    assert(b.subrange(8, 8 + rbl) =~= recs_bytes(ts));
    lemma_dec_recs_encoded(b, 8, ts);
    let p = 8 + rbl;
    assert forall|i: int| 0 <= i < abl implies b[p + i] == #[trigger] act_bytes(act)[i] by {
        assert(b[p + i] == (le64(ts.len() as u64) + recs_bytes(ts) + act_bytes(act))[p + i]);
    }
    match act {
        None => {
            assert(b[p] == 0);
            assert(dec_active(b, p) == Some((None::<u128>, p + 1)));
            assert(p + 1 == b.len());
        },
        Some(a) => {
            assert(b[p] == 1);
            assert forall|i: int| 0 <= i < 8 implies b.subrange(p + 1, p + 9)[i] == #[trigger] le64(
                lo64(a),
            )[i] by {
                assert(b[p + 1 + i] == act_bytes(act)[1 + i]);
                assert(act_bytes(act)[1 + i] == id_bytes(a)[i]);
            }
            assert(b.subrange(p + 1, p + 9) =~= le64(lo64(a)));
            assert forall|i: int| 0 <= i < 8 implies b.subrange(p + 9, p + 17)[i] == #[trigger] le64(
                hi64(a),
            )[i] by {
                assert(b[p + 9 + i] == act_bytes(act)[9 + i]);
                assert(act_bytes(act)[9 + i] == id_bytes(a)[8 + i]);
            }
            assert(b.subrange(p + 9, p + 17) =~= le64(hi64(a)));
            lemma_le64_round_trip(lo64(a));
            lemma_le64_round_trip(hi64(a));
            lemma_split_join(a);
            assert(dec_active(b, p) == Some((Some(a), p + 17)));
            assert(p + 17 == b.len());
        },
    }
}

/// Decodes a binary image back into records and the active identifier.
pub fn decode_state(b: &Vec<u8>) -> (r: Option<(Vec<ViewRecord>, Option<u128>)>)
    ensures
        (match r {
            Some(p) => decode_state_spec(b@) == Some((recs_model(p.0@), p.1)),
            None => decode_state_spec(b@) is None,
        }),
{
    let blen: usize = b.len();
    if blen < 8 {
        return None;
    }
    let n: u64 = read_u64_le(b, 0);
    let mut pos: usize = 8;
    let mut acc: Vec<ViewRecord> = Vec::new();
    let mut i: u64 = 0;
    while i < n
        invariant
            8 <= pos <= blen,
            blen == b@.len(),
            i <= n,
            n == u64_of_le(b@.subrange(0, 8)),
            (match dec_recs(b@, pos as int, n as int - i as int) {
                None => dec_recs(b@, 8, n as int) is None,
                Some((ts, p)) => dec_recs(b@, 8, n as int) == Some((recs_model(acc@) + ts, p)),
            }),
        decreases n - i,
    {
        let ghost m = n as int - i as int;
        if blen - pos < 25 {
            assert(dec_rec(b@, pos as int) is None);
            assert(dec_recs(b@, pos as int, m) is None);
            return None;
        }
        let kb: u8 = b[pos];
        if kb > 1 {
            assert(kind_of_byte(b@[pos as int]) is None);
            assert(dec_recs(b@, pos as int, m) is None);
            return None;
        }
        let kind = if kb == 0 { ViewKind::MidiEditor } else { ViewKind::SynthDesigner };
        assert(kind_of_byte(b@[pos as int]) == Some(kind));
        let id: u128 = read_u128_le(b, pos + 1);
        let plen64: u64 = read_u64_le(b, pos + 17);
        if plen64 > (blen - pos - 25) as u64 {
            assert(dec_rec(b@, pos as int) is None);
            assert(dec_recs(b@, pos as int, m) is None);
            return None;
        }
        let plen: usize = plen64 as usize;
        let mut payload: Vec<u8> = Vec::new();
        let mut j: usize = 0;
        while j < plen
            invariant
                j <= plen,
                pos + 25 + plen <= blen,
                blen == b@.len(),
                payload@ == b@.subrange(pos as int + 25, pos as int + 25 + j as int),
            decreases plen - j,
        {
            let byte: u8 = b[pos + 25 + j];
            payload.push(byte);
            j = j + 1;
            assert(payload@ =~= b@.subrange(pos as int + 25, pos as int + 25 + j as int));
        }
        let ghost t = (kind, id, payload@);
        assert(dec_rec(b@, pos as int) == Some((t, pos as int + 25 + plen as int)));
        let ghost old_acc = acc@;
        acc.push(ViewRecord { kind, id, payload });
        proof {
            assert(recs_model(acc@) =~= recs_model(old_acc).push(t));
        }
        pos = pos + 25 + plen;
        i = i + 1;
        proof {
            let m2 = n as int - i as int;
            match dec_recs(b@, pos as int, m2) {
                None => {
                    assert(dec_recs(b@, pos as int - 25 - plen as int, m) is None);
                },
                Some((ts2, p2)) => {
                    assert(dec_recs(b@, pos as int - 25 - plen as int, m) == Some((seq![t] + ts2, p2)));
                    assert(recs_model(old_acc) + (seq![t] + ts2) =~= recs_model(acc@) + ts2);
                },
            }
        }
    }
    assert(dec_recs(b@, pos as int, 0) == Some((Seq::<(ViewKind, u128, Seq<u8>)>::empty(), pos as int)));
    assert(recs_model(acc@) + Seq::<(ViewKind, u128, Seq<u8>)>::empty() =~= recs_model(acc@));
    assert(dec_recs(b@, 8, n as int) == Some((recs_model(acc@), pos as int)));
    if pos >= blen {
        assert(dec_active(b@, pos as int) is None);
        return None;
    }
    let flag: u8 = b[pos];
    if flag == 0 {
        if pos + 1 != blen {
            return None;
        }
        Some((acc, None))
    } else if flag == 1 {
        if blen - pos < 17 {
            assert(dec_active(b@, pos as int) is None);
            return None;
        }
        if pos + 17 != blen {
            return None;
        }
        let a: u128 = read_u128_le(b, pos + 1);
        Some((acc, Some(a)))
    } else {
        assert(dec_active(b@, pos as int) is None);
        None
    }
}

} // verus!
