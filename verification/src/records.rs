//! Atlas metadata records and their stable binary layout.
//!
//! A record stream is a 64-bit little-endian record count followed by the
//! records; each record is four 32-bit little-endian spatial fields, a
//! 64-bit little-endian name byte length, and the name bytes. The layout is
//! self-describing: a consumer needs no external schema to walk it.

use vstd::bytes::{
    lemma_auto_spec_u32_to_from_le_bytes,
    lemma_auto_spec_u64_to_from_le_bytes,
    spec_u32_from_le_bytes,
    spec_u32_to_le_bytes,
    spec_u64_from_le_bytes,
    spec_u64_to_le_bytes,
    u32_from_le_bytes,
    u32_to_le_bytes,
    u64_from_le_bytes,
    u64_to_le_bytes,
};
use vstd::prelude::*;
use vstd::slice::{slice_subrange, slice_to_vec};

verus! {

/// One persisted atlas record. The four spatial fields hold the raw bit
/// patterns of 32-bit normalized coordinates (a pixel coordinate divided by
/// the matching canvas dimension); the name holds the image's name in
/// UTF-8 bytes.
#[derive(Debug, PartialEq, Eq)]
pub struct AtlasRecord {
    pub x_bits: u32,
    pub y_bits: u32,
    pub width_bits: u32,
    pub height_bits: u32,
    pub name: Vec<u8>,
}

/// The mathematical form of a record.
pub struct RecordV {
    pub x_bits: u32,
    pub y_bits: u32,
    pub width_bits: u32,
    pub height_bits: u32,
    pub name: Seq<u8>,
}

impl DeepView for AtlasRecord {
    type V = RecordV;

    open spec fn deep_view(&self) -> RecordV {
        RecordV {
            x_bits: self.x_bits,
            y_bits: self.y_bits,
            width_bits: self.width_bits,
            height_bits: self.height_bits,
            name: self.name@,
        }
    }
}

/// Byte layout of one record.
pub open spec fn record_bytes(r: RecordV) -> Seq<u8> {
    spec_u32_to_le_bytes(r.x_bits) + spec_u32_to_le_bytes(r.y_bits) + spec_u32_to_le_bytes(
        r.width_bits,
    ) + spec_u32_to_le_bytes(r.height_bits) + spec_u64_to_le_bytes(r.name.len() as u64) + r.name
}

/// Byte layout of a record sequence, in order.
pub open spec fn records_body(rs: Seq<RecordV>) -> Seq<u8>
    decreases rs.len(),
{
    if rs.len() == 0 {
        Seq::empty()
    } else {
        record_bytes(rs[0]) + records_body(rs.drop_first())
    }
}

/// The full stream: record count, then the records.
pub open spec fn records_bytes(rs: Seq<RecordV>) -> Seq<u8> {
    spec_u64_to_le_bytes(rs.len() as u64) + records_body(rs)
}

proof fn lemma_records_body_push(rs: Seq<RecordV>, r: RecordV)
    ensures
        records_body(rs.push(r)) == records_body(rs) + record_bytes(r),
    decreases rs.len(),
{
    if rs.len() == 0 {
        reveal_with_fuel(records_body, 3);
        assert(rs.push(r)[0] == r);
        assert(rs.push(r).drop_first() =~= Seq::<RecordV>::empty());
        assert(records_body(rs.push(r)) =~= records_body(rs) + record_bytes(r));
    } else {
        assert(rs.push(r)[0] == rs[0]);
        assert(rs.push(r).drop_first() =~= rs.drop_first().push(r));
        lemma_records_body_push(rs.drop_first(), r);
        assert(records_body(rs.push(r)) == record_bytes(rs[0]) + (records_body(rs.drop_first())
            + record_bytes(r)));
        assert(record_bytes(rs[0]) + (records_body(rs.drop_first()) + record_bytes(r)) =~= (
        record_bytes(rs[0]) + records_body(rs.drop_first())) + record_bytes(r));
    }
}

/// Serialize the records to the stable layout described above.
pub fn encode_records(rs: &Vec<AtlasRecord>) -> (out: Vec<u8>)
    ensures
        out@ == records_bytes(rs.deep_view()),
{
    let n = rs.len();
    let mut out: Vec<u8> = Vec::new();
    let mut cnt = u64_to_le_bytes(n as u64);
    out.append(&mut cnt);
    proof {
        assert(rs.deep_view().len() == n) by {
            assert(rs.deep_view() =~= rs@.map_values(|r: AtlasRecord| r.deep_view()));
        }
        assert(rs.deep_view().take(0) =~= Seq::<RecordV>::empty());
        assert(out@ =~= spec_u64_to_le_bytes(n as u64) + records_body(rs.deep_view().take(0)));
    }
    let mut i: usize = 0;
    while i < n
        invariant
            n == rs@.len(),
            n == rs.deep_view().len(),
            i <= n,
            out@ == spec_u64_to_le_bytes(n as u64) + records_body(rs.deep_view().take(i as int)),
        decreases n - i,
    {
        let r = &rs[i];
        let mut xb = u32_to_le_bytes(r.x_bits);
        out.append(&mut xb);
        let mut yb = u32_to_le_bytes(r.y_bits);
        out.append(&mut yb);
        let mut wb = u32_to_le_bytes(r.width_bits);
        out.append(&mut wb);
        let mut hb = u32_to_le_bytes(r.height_bits);
        out.append(&mut hb);
        let mut nl = u64_to_le_bytes(r.name.len() as u64);
        out.append(&mut nl);
        out.extend_from_slice(r.name.as_slice());
        proof {
            let dv = rs.deep_view();
            assert(dv =~= rs@.map_values(|rr: AtlasRecord| rr.deep_view()));
            assert(dv[i as int] == rs@[i as int].deep_view());
            lemma_records_body_push(dv.take(i as int), dv[i as int]);
            assert(dv.take(i as int).push(dv[i as int]) =~= dv.take(i + 1));
            assert(out@ =~= spec_u64_to_le_bytes(n as u64) + records_body(dv.take(i + 1)));
        }
        i += 1;
    }
    proof {
        assert(rs.deep_view().take(n as int) =~= rs.deep_view());
    }
    out
}

/// Parse `count` records of `b` starting at `pos`: the records and the end
/// position, or `None` where the bytes run out.
pub open spec fn parse_body(b: Seq<u8>, pos: int, count: int) -> Option<(Seq<RecordV>, int)>
    decreases count,
{
    if count <= 0 {
        Some((Seq::empty(), pos))
    } else if pos + 24 > b.len() {
        None
    } else {
        let nl = spec_u64_from_le_bytes(b.subrange(pos + 16, pos + 24)) as int;
        if pos + 24 + nl > b.len() {
            None
        } else {
            let rec = RecordV {
                x_bits: spec_u32_from_le_bytes(b.subrange(pos, pos + 4)),
                y_bits: spec_u32_from_le_bytes(b.subrange(pos + 4, pos + 8)),
                width_bits: spec_u32_from_le_bytes(b.subrange(pos + 8, pos + 12)),
                height_bits: spec_u32_from_le_bytes(b.subrange(pos + 12, pos + 16)),
                name: b.subrange(pos + 24, pos + 24 + nl),
            };
            match parse_body(b, pos + 24 + nl, count - 1) {
                Some(t) => Some((seq![rec] + t.0, t.1)),
                None => None,
            }
        }
    }
}

/// The record sequence a stream holds, when the stream is exactly the
/// layout written by `records_bytes`; `None` otherwise.
pub open spec fn parse_records(b: Seq<u8>) -> Option<Seq<RecordV>> {
    if b.len() < 8 {
        None
    } else {
        let count = spec_u64_from_le_bytes(b.subrange(0, 8)) as int;
        match parse_body(b, 8, count) {
            Some(t) => if t.1 == b.len() {
                Some(t.0)
            } else {
                None
            },
            None => None,
        }
    }
}

proof fn lemma_record_bytes_parts(r: RecordV)
    ensures
        record_bytes(r).len() == 24 + r.name.len(),
        record_bytes(r).subrange(0, 4) == spec_u32_to_le_bytes(r.x_bits),
        record_bytes(r).subrange(4, 8) == spec_u32_to_le_bytes(r.y_bits),
        record_bytes(r).subrange(8, 12) == spec_u32_to_le_bytes(r.width_bits),
        record_bytes(r).subrange(12, 16) == spec_u32_to_le_bytes(r.height_bits),
        record_bytes(r).subrange(16, 24) == spec_u64_to_le_bytes(r.name.len() as u64),
        record_bytes(r).subrange(24, record_bytes(r).len() as int) == r.name,
{
    lemma_auto_spec_u32_to_from_le_bytes();
    lemma_auto_spec_u64_to_from_le_bytes();
    let a1 = spec_u32_to_le_bytes(r.x_bits);
    let a2 = spec_u32_to_le_bytes(r.y_bits);
    let a3 = spec_u32_to_le_bytes(r.width_bits);
    let a4 = spec_u32_to_le_bytes(r.height_bits);
    let a5 = spec_u64_to_le_bytes(r.name.len() as u64);
    let p2 = a1 + a2;
    let p3 = p2 + a3;
    let p4 = p3 + a4;
    let p5 = p4 + a5;
    let rb = record_bytes(r);
    assert(rb == p5 + r.name);
    assert forall|k: int| 0 <= k < rb.len() implies rb[k] == (if k < 4 {
        a1[k]
    } else if k < 8 {
        a2[k - 4]
    } else if k < 12 {
        a3[k - 8]
    } else if k < 16 {
        a4[k - 12]
    } else if k < 24 {
        a5[k - 16]
    } else {
        r.name[k - 24]
    }) by {
        assert((p5 + r.name)[k] == (if k < 24 {
            p5[k]
        } else {
            r.name[k - 24]
        }));
        if k < 24 {
            assert(p5[k] == (if k < 16 {
                p4[k]
            } else {
                a5[k - 16]
            }));
        }
        if k < 16 {
            assert(p4[k] == (if k < 12 {
                p3[k]
            } else {
                a4[k - 12]
            }));
        }
        if k < 12 {
            assert(p3[k] == (if k < 8 {
                p2[k]
            } else {
                a3[k - 8]
            }));
        }
        if k < 8 {
            assert(p2[k] == (if k < 4 {
                a1[k]
            } else {
                a2[k - 4]
            }));
        }
    }
    assert(rb.subrange(0, 4) =~= a1);
    assert(rb.subrange(4, 8) =~= a2);
    assert(rb.subrange(8, 12) =~= a3);
    assert(rb.subrange(12, 16) =~= a4);
    assert(rb.subrange(16, 24) =~= a5);
    assert(rb.subrange(24, rb.len() as int) =~= r.name);
}

proof fn lemma_sub_of_sub(b: Seq<u8>, pos: int, whole: Seq<u8>, off: int, len: int)
    requires
        0 <= pos,
        0 <= off,
        0 <= len,
        off + len <= whole.len(),
        pos + whole.len() <= b.len(),
        b.subrange(pos, pos + whole.len()) == whole,
    ensures
        b.subrange(pos + off, pos + off + len) == whole.subrange(off, off + len),
{
    assert forall|k: int| 0 <= k < len implies #[trigger] b.subrange(
        pos + off,
        pos + off + len,
    )[k] == whole.subrange(off, off + len)[k] by {
        assert(b.subrange(pos, pos + whole.len())[off + k] == b[pos + off + k]);
    }
    assert(b.subrange(pos + off, pos + off + len) =~= whole.subrange(off, off + len));
}

/// Deserialize a record stream. Yields the records exactly when the bytes
/// are a complete, well-formed stream, and nothing otherwise.
pub fn decode_records(bytes: &Vec<u8>) -> (r: Option<Vec<AtlasRecord>>)
    ensures
        r matches Some(v) ==> parse_records(bytes@) == Some(v.deep_view()),
        r is None <==> parse_records(bytes@) is None,
{
    let n = bytes.len();
    if n < 8 {
        return None;
    }
    let count = u64_from_le_bytes(slice_subrange(bytes.as_slice(), 0, 8));
    let mut out: Vec<AtlasRecord> = Vec::new();
    let mut pos: usize = 8;
    let mut k: u64 = 0;
    proof {
        assert(out.deep_view() =~= Seq::<RecordV>::empty());
    }
    while k < count
        invariant
            n == bytes@.len(),
            8 <= pos <= n,
            k <= count,
            out.deep_view().len() == k,
            count == spec_u64_from_le_bytes(bytes@.subrange(0, 8)),
            parse_body(bytes@, 8, count as int) == (match parse_body(
                bytes@,
                pos as int,
                count - k,
            ) {
                Some(t) => Some::<(Seq<RecordV>, int)>((out.deep_view() + t.0, t.1)),
                None => None::<(Seq<RecordV>, int)>,
            }),
        decreases count - k,
    {
        if n - pos < 24 {
            return None;
        }
        let x_bits = u32_from_le_bytes(slice_subrange(bytes.as_slice(), pos, pos + 4));
        let y_bits = u32_from_le_bytes(slice_subrange(bytes.as_slice(), pos + 4, pos + 8));
        let width_bits = u32_from_le_bytes(slice_subrange(bytes.as_slice(), pos + 8, pos + 12));
        let height_bits = u32_from_le_bytes(slice_subrange(bytes.as_slice(), pos + 12, pos + 16));
        let nl64 = u64_from_le_bytes(slice_subrange(bytes.as_slice(), pos + 16, pos + 24));
        if ((n - pos - 24) as u64) < nl64 {
            return None;
        }
        let nl = nl64 as usize;
        let name = slice_to_vec(slice_subrange(bytes.as_slice(), pos + 24, pos + 24 + nl));
        let ghost pre = out.deep_view();
        let rec = AtlasRecord { x_bits, y_bits, width_bits, height_bits, name };
        let ghost recv = rec.deep_view();
        out.push(rec);
        proof {
            assert(out.deep_view() =~= pre.push(recv)) by {
                assert(out.deep_view() =~= out@.map_values(|rr: AtlasRecord| rr.deep_view()));
            }
            let stepped = parse_body(bytes@, pos as int, count - k);
            match parse_body(bytes@, pos + 24 + nl, count - k - 1) {
                Some(t2) => {
                    assert(stepped == Some::<(Seq<RecordV>, int)>((seq![recv] + t2.0, t2.1)));
                    assert(pre.push(recv) + t2.0 =~= pre + (seq![recv] + t2.0));
                },
                None => {
                    assert(stepped is None);
                },
            }
        }
        pos = pos + 24 + nl;
        k = k + 1;
    }
    proof {
        assert(parse_body(bytes@, pos as int, 0) == Some::<(Seq<RecordV>, int)>((
            Seq::<RecordV>::empty(),
            pos as int,
        )));
        assert(out.deep_view() + Seq::<RecordV>::empty() =~= out.deep_view());
    }
    if pos != n {
        return None;
    }
    Some(out)
}

proof fn lemma_parse_body_of_encoding(b: Seq<u8>, pos: int, rs: Seq<RecordV>)
    requires
        0 <= pos <= b.len(),
        b.subrange(pos, b.len() as int) == records_body(rs),
        b.len() == pos + records_body(rs).len(),
        forall|k: int| 0 <= k < rs.len() ==> (#[trigger] rs[k]).name.len() <= u64::MAX,
    ensures
        parse_body(b, pos, rs.len() as int) == Some((rs, b.len() as int)),
    decreases rs.len(),
{
    lemma_auto_spec_u32_to_from_le_bytes();
    lemma_auto_spec_u64_to_from_le_bytes();
    if rs.len() == 0 {
        assert(parse_body(b, pos, 0) == Some((Seq::<RecordV>::empty(), pos)));
        assert(rs =~= Seq::<RecordV>::empty());
    } else {
        let r = rs[0];
        let rb = record_bytes(r);
        let nl = r.name.len() as int;
        lemma_record_bytes_parts(r);
        let rest = rs.drop_first();
        let tail = records_body(rest);
        assert(b.subrange(pos, b.len() as int) == rb + tail);
        assert(pos + 24 + nl <= b.len());
        assert forall|k: int| 0 <= k < rb.len() implies b.subrange(pos, pos + rb.len())[k]
            == rb[k] by {
            assert(b.subrange(pos, b.len() as int)[k] == b[pos + k]);
            assert((rb + tail)[k] == rb[k]);
        }
        assert(b.subrange(pos, pos + rb.len()) =~= rb);
        lemma_sub_of_sub(b, pos, rb, 0, 4);
        lemma_sub_of_sub(b, pos, rb, 4, 4);
        lemma_sub_of_sub(b, pos, rb, 8, 4);
        lemma_sub_of_sub(b, pos, rb, 12, 4);
        lemma_sub_of_sub(b, pos, rb, 16, 8);
        lemma_sub_of_sub(b, pos, rb, 24, nl);
        assert(b.subrange(pos + 16, pos + 24) == spec_u64_to_le_bytes(r.name.len() as u64));
        assert(spec_u64_from_le_bytes(b.subrange(pos + 16, pos + 24)) == r.name.len() as u64);
        assert(b.subrange(pos + 24, pos + 24 + nl) == r.name);
        assert forall|k: int| 0 <= k < tail.len() implies b.subrange(
            pos + 24 + nl,
            b.len() as int,
        )[k] == tail[k] by {
            assert(b.subrange(pos, b.len() as int)[24 + nl + k] == b[pos + 24 + nl + k]);
            assert((rb + tail)[24 + nl + k] == tail[k]);
        }
        assert(b.subrange(pos + 24 + nl, b.len() as int) =~= records_body(rest));
        lemma_parse_body_of_encoding(b, pos + 24 + nl, rest);
        let parsed = parse_body(b, pos, rs.len() as int);
        assert(parsed matches Some(t) && t.0 =~= rs && t.1 == b.len());
    }
}

/// Round-trip law: parsing a written record stream yields exactly the
/// records that were written, names included, in their order.
pub proof fn lemma_records_round_trip(rs: Seq<RecordV>)
    requires
        rs.len() <= u64::MAX,
        forall|k: int| 0 <= k < rs.len() ==> (#[trigger] rs[k]).name.len() <= u64::MAX,
    ensures
        parse_records(records_bytes(rs)) == Some(rs),
{
    lemma_auto_spec_u64_to_from_le_bytes();
    let b = records_bytes(rs);
    assert(b.subrange(0, 8) =~= spec_u64_to_le_bytes(rs.len() as u64));
    assert(b.subrange(8, b.len() as int) =~= records_body(rs));
    lemma_parse_body_of_encoding(b, 8, rs);
}

} // verus!
