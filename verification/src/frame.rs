//! The self-describing columnar frame: schema, then one value buffer per
//! column. A frame starts with a four-byte magic, its own total length, the
//! field count and the row count; a decoder given exactly the frame's bytes
//! can reconstruct the batch with no outside length hint.

use vstd::prelude::*;

use crate::batch::{bytes_eq, Batch, BatchModel, Column, ColumnModel, ColumnType, Field, FieldModel};
use crate::wire::{
    le32, le64, lemma_le32_roundtrip, lemma_le64_injective, lemma_le64_roundtrip, push_le32,
    push_le64, read_le32, read_le64,
};

verus! {

/// The frame magic, "SHM1".
pub open spec fn magic() -> Seq<u8> {
    seq![0x53u8, 0x48u8, 0x4du8, 0x31u8]
}

/// Bytes in the fixed header: magic, total length, field count, row count.
pub open spec fn header_len() -> nat {
    28
}

/// The tag byte of a column type.
pub open spec fn type_tag(ty: ColumnType) -> u8 {
    match ty {
        ColumnType::Utf8 => 0u8,
        ColumnType::Int32 => 1u8,
        ColumnType::Boolean => 2u8,
    }
}

/// The unsigned 32-bit pattern that stands for a signed value.
pub open spec fn int32_bits(v: i32) -> u32 {
    if v >= 0 {
        v as u32
    } else {
        (v + 0x1_0000_0000) as u32
    }
}

/// The byte that stands for a boolean value.
pub open spec fn bool_byte(v: bool) -> u8 {
    if v {
        1u8
    } else {
        0u8
    }
}

/// One schema entry on the wire: name length, name, type tag, nullability.
pub open spec fn field_bytes(f: FieldModel) -> Seq<u8> {
    le64(f.name.len() as u64) + f.name + seq![type_tag(f.ty), bool_byte(f.nullable)]
}

/// All schema entries, in order.
pub open spec fn fields_bytes(fs: Seq<FieldModel>) -> Seq<u8>
    decreases fs.len(),
{
    if fs.len() == 0 {
        Seq::empty()
    } else {
        field_bytes(fs[0]) + fields_bytes(fs.skip(1))
    }
}

/// One string value on the wire: length, then bytes.
pub open spec fn utf8_value_bytes(v: Seq<u8>) -> Seq<u8> {
    le64(v.len() as u64) + v
}

/// A string column's values, in row order.
pub open spec fn utf8_values_bytes(vs: Seq<Seq<u8>>) -> Seq<u8>
    decreases vs.len(),
{
    if vs.len() == 0 {
        Seq::empty()
    } else {
        utf8_value_bytes(vs[0]) + utf8_values_bytes(vs.skip(1))
    }
}

/// An integer column's values, in row order.
pub open spec fn int32_values_bytes(vs: Seq<i32>) -> Seq<u8>
    decreases vs.len(),
{
    if vs.len() == 0 {
        Seq::empty()
    } else {
        le32(int32_bits(vs[0])) + int32_values_bytes(vs.skip(1))
    }
}

/// A boolean column's values, in row order.
pub open spec fn bool_values_bytes(vs: Seq<bool>) -> Seq<u8>
    decreases vs.len(),
{
    if vs.len() == 0 {
        Seq::empty()
    } else {
        seq![bool_byte(vs[0])] + bool_values_bytes(vs.skip(1))
    }
}

/// One column's value buffer.
pub open spec fn column_bytes(c: ColumnModel) -> Seq<u8> {
    match c {
        ColumnModel::Utf8(vs) => utf8_values_bytes(vs),
        ColumnModel::Int32(vs) => int32_values_bytes(vs),
        ColumnModel::Boolean(vs) => bool_values_bytes(vs),
    }
}

/// All column buffers, in schema order.
pub open spec fn columns_bytes(cs: Seq<ColumnModel>) -> Seq<u8>
    decreases cs.len(),
{
    if cs.len() == 0 {
        Seq::empty()
    } else {
        column_bytes(cs[0]) + columns_bytes(cs.skip(1))
    }
}

/// Everything after the fixed header: schema entries, then column buffers.
pub open spec fn body_bytes(bm: BatchModel) -> Seq<u8> {
    fields_bytes(bm.fields) + columns_bytes(bm.columns)
}

/// Whether the batch's counts and total encoded size fit the frame's 64-bit
/// header fields. Any batch whose columns actually sit in memory fits.
pub open spec fn fits(bm: BatchModel) -> bool {
    &&& header_len() + body_bytes(bm).len() <= u64::MAX
    &&& bm.fields.len() <= u64::MAX
    &&& bm.num_rows <= u64::MAX
}

/// The complete frame of a batch.
pub open spec fn spec_frame(bm: BatchModel) -> Seq<u8> {
    magic() + le64((header_len() + body_bytes(bm).len()) as u64) + le64(bm.fields.len() as u64)
        + le64(bm.num_rows as u64) + body_bytes(bm)
}

/// Whether `bm` is well formed and has exactly `s` as its frame.
pub open spec fn frame_matches(s: Seq<u8>, bm: BatchModel) -> bool {
    bm.wf() && fits(bm) && s == spec_frame(bm)
}

/// Whether some well-formed batch has exactly these bytes as its frame.
pub open spec fn valid_frame(s: Seq<u8>) -> bool {
    exists|bm: BatchModel| #[trigger] frame_matches(s, bm)
}

/// Schema bytes of a concatenation split at the concatenation.
pub proof fn lemma_fields_bytes_app(a: Seq<FieldModel>, b: Seq<FieldModel>)
    ensures
        fields_bytes(a + b) == fields_bytes(a) + fields_bytes(b),
    decreases a.len(),
{
    if a.len() == 0 {
        assert(a + b =~= b);
        assert(fields_bytes(a) + fields_bytes(b) =~= fields_bytes(b));
    } else {
        assert((a + b).skip(1) =~= a.skip(1) + b);
        lemma_fields_bytes_app(a.skip(1), b);
        assert(fields_bytes(a + b) =~= fields_bytes(a) + fields_bytes(b));
    }
}

/// Column bytes of a concatenation split at the concatenation.
pub proof fn lemma_columns_bytes_app(a: Seq<ColumnModel>, b: Seq<ColumnModel>)
    ensures
        columns_bytes(a + b) == columns_bytes(a) + columns_bytes(b),
    decreases a.len(),
{
    if a.len() == 0 {
        assert(a + b =~= b);
        assert(columns_bytes(a) + columns_bytes(b) =~= columns_bytes(b));
    } else {
        assert((a + b).skip(1) =~= a.skip(1) + b);
        lemma_columns_bytes_app(a.skip(1), b);
        assert(columns_bytes(a + b) =~= columns_bytes(a) + columns_bytes(b));
    }
}

/// String-column bytes of a concatenation split at the concatenation.
pub proof fn lemma_utf8_values_bytes_app(a: Seq<Seq<u8>>, b: Seq<Seq<u8>>)
    ensures
        utf8_values_bytes(a + b) == utf8_values_bytes(a) + utf8_values_bytes(b),
    decreases a.len(),
{
    if a.len() == 0 {
        assert(a + b =~= b);
        assert(utf8_values_bytes(a) + utf8_values_bytes(b) =~= utf8_values_bytes(b));
    } else {
        assert((a + b).skip(1) =~= a.skip(1) + b);
        lemma_utf8_values_bytes_app(a.skip(1), b);
        assert(utf8_values_bytes(a + b) =~= utf8_values_bytes(a) + utf8_values_bytes(b));
    }
}

/// Integer-column bytes of a concatenation split at the concatenation.
pub proof fn lemma_int32_values_bytes_app(a: Seq<i32>, b: Seq<i32>)
    ensures
        int32_values_bytes(a + b) == int32_values_bytes(a) + int32_values_bytes(b),
    decreases a.len(),
{
    if a.len() == 0 {
        assert(a + b =~= b);
        assert(int32_values_bytes(a) + int32_values_bytes(b) =~= int32_values_bytes(b));
    } else {
        assert((a + b).skip(1) =~= a.skip(1) + b);
        lemma_int32_values_bytes_app(a.skip(1), b);
        assert(int32_values_bytes(a + b) =~= int32_values_bytes(a) + int32_values_bytes(b));
    }
}

/// Boolean-column bytes of a concatenation split at the concatenation.
pub proof fn lemma_bool_values_bytes_app(a: Seq<bool>, b: Seq<bool>)
    ensures
        bool_values_bytes(a + b) == bool_values_bytes(a) + bool_values_bytes(b),
    decreases a.len(),
{
    if a.len() == 0 {
        assert(a + b =~= b);
        assert(bool_values_bytes(a) + bool_values_bytes(b) =~= bool_values_bytes(b));
    } else {
        assert((a + b).skip(1) =~= a.skip(1) + b);
        lemma_bool_values_bytes_app(a.skip(1), b);
        assert(bool_values_bytes(a + b) =~= bool_values_bytes(a) + bool_values_bytes(b));
    }
}

/// Schema bytes of a prefix extended by one entry.
pub proof fn lemma_fields_bytes_snoc(s: Seq<FieldModel>, i: int)
    requires
        0 <= i < s.len(),
    ensures
        fields_bytes(s.take(i + 1)) == fields_bytes(s.take(i)) + field_bytes(s[i]),
{
    assert(s.take(i + 1) =~= s.take(i) + seq![s[i]]);
    lemma_fields_bytes_app(s.take(i), seq![s[i]]);
    assert(seq![s[i]].skip(1) =~= Seq::<FieldModel>::empty());
    assert(fields_bytes(seq![s[i]]) == field_bytes(s[i]) + fields_bytes(seq![s[i]].skip(1)));
    assert(fields_bytes(s.take(i)) + fields_bytes(seq![s[i]]) =~= fields_bytes(s.take(i))
        + field_bytes(s[i]));
}

/// Column bytes of a prefix extended by one column.
pub proof fn lemma_columns_bytes_snoc(s: Seq<ColumnModel>, i: int)
    requires
        0 <= i < s.len(),
    ensures
        columns_bytes(s.take(i + 1)) == columns_bytes(s.take(i)) + column_bytes(s[i]),
{
    assert(s.take(i + 1) =~= s.take(i) + seq![s[i]]);
    lemma_columns_bytes_app(s.take(i), seq![s[i]]);
    assert(seq![s[i]].skip(1) =~= Seq::<ColumnModel>::empty());
    assert(columns_bytes(seq![s[i]]) == column_bytes(s[i]) + columns_bytes(seq![s[i]].skip(1)));
    assert(columns_bytes(s.take(i)) + columns_bytes(seq![s[i]]) =~= columns_bytes(s.take(i))
        + column_bytes(s[i]));
}

/// String-column bytes of a prefix extended by one value.
pub proof fn lemma_utf8_values_bytes_snoc(s: Seq<Seq<u8>>, i: int)
    requires
        0 <= i < s.len(),
    ensures
        utf8_values_bytes(s.take(i + 1)) == utf8_values_bytes(s.take(i)) + utf8_value_bytes(s[i]),
{
    assert(s.take(i + 1) =~= s.take(i) + seq![s[i]]);
    lemma_utf8_values_bytes_app(s.take(i), seq![s[i]]);
    assert(seq![s[i]].skip(1) =~= Seq::<Seq<u8>>::empty());
    assert(utf8_values_bytes(seq![s[i]]) == utf8_value_bytes(s[i]) + utf8_values_bytes(
        seq![s[i]].skip(1),
    ));
    assert(utf8_values_bytes(s.take(i)) + utf8_values_bytes(seq![s[i]]) =~= utf8_values_bytes(
        s.take(i),
    ) + utf8_value_bytes(s[i]));
}

/// Integer-column bytes of a prefix extended by one value.
pub proof fn lemma_int32_values_bytes_snoc(s: Seq<i32>, i: int)
    requires
        0 <= i < s.len(),
    ensures
        int32_values_bytes(s.take(i + 1)) == int32_values_bytes(s.take(i)) + le32(
            int32_bits(s[i]),
        ),
{
    assert(s.take(i + 1) =~= s.take(i) + seq![s[i]]);
    lemma_int32_values_bytes_app(s.take(i), seq![s[i]]);
    assert(seq![s[i]].skip(1) =~= Seq::<i32>::empty());
    assert(int32_values_bytes(seq![s[i]]) == le32(int32_bits(s[i])) + int32_values_bytes(
        seq![s[i]].skip(1),
    ));
    assert(int32_values_bytes(s.take(i)) + int32_values_bytes(seq![s[i]]) =~= int32_values_bytes(
        s.take(i),
    ) + le32(int32_bits(s[i])));
}

/// Boolean-column bytes of a prefix extended by one value.
pub proof fn lemma_bool_values_bytes_snoc(s: Seq<bool>, i: int)
    requires
        0 <= i < s.len(),
    ensures
        bool_values_bytes(s.take(i + 1)) == bool_values_bytes(s.take(i)) + seq![bool_byte(s[i])],
{
    assert(s.take(i + 1) =~= s.take(i) + seq![s[i]]);
    lemma_bool_values_bytes_app(s.take(i), seq![s[i]]);
    assert(seq![s[i]].skip(1) =~= Seq::<bool>::empty());
    assert(bool_values_bytes(seq![s[i]]) == seq![bool_byte(s[i])] + bool_values_bytes(
        seq![s[i]].skip(1),
    ));
    assert(bool_values_bytes(s.take(i)) + bool_values_bytes(seq![s[i]]) =~= bool_values_bytes(
        s.take(i),
    ) + seq![bool_byte(s[i])]);
}

/// Appends a byte slice to a buffer.
fn push_bytes(buf: &mut Vec<u8>, s: &[u8])
    ensures
        final(buf)@ == old(buf)@ + s@,
{
    let n = s.len();
    let mut i: usize = 0;
    while i < n
        invariant
            n == s@.len(),
            0 <= i <= n,
            buf@ == old(buf)@ + s@.take(i as int),
        decreases n - i,
    {
        buf.push(s[i]);
        proof {
            assert(old(buf)@ + s@.take(i as int) + seq![s@[i as int]] =~= old(buf)@ + s@.take(
                i as int + 1,
            ));
        }
        i = i + 1;
    }
    proof {
        assert(s@.take(n as int) =~= s@);
    }
}

/// The tag byte written for a column type.
fn type_tag_of(ty: ColumnType) -> (r: u8)
    ensures
        r == type_tag(ty),
{
    match ty {
        ColumnType::Utf8 => 0u8,
        ColumnType::Int32 => 1u8,
        ColumnType::Boolean => 2u8,
    }
}

/// The unsigned bit pattern of a signed value.
fn int32_bits_of(v: i32) -> (r: u32)
    ensures
        r == int32_bits(v),
{
    if v >= 0 {
        v as u32
    } else {
        (((v as i64) + 0x1_0000_0000i64) as u32)
    }
}

/// The signed value with a given unsigned bit pattern.
fn int32_of_bits(u: u32) -> (r: i32)
    ensures
        int32_bits(r) == u,
{
    if u <= 0x7fff_ffffu32 {
        u as i32
    } else {
        (((u as i64) - 0x1_0000_0000i64) as i32)
    }
}

/// Appends one schema entry.
fn encode_field(buf: &mut Vec<u8>, f: &Field)
    ensures
        final(buf)@ == old(buf)@ + field_bytes(f@),
{
    push_le64(buf, f.name.len() as u64);
    push_bytes(buf, f.name.as_slice());
    buf.push(type_tag_of(f.ty));
    let nb: u8 = if f.nullable {
        1u8
    } else {
        0u8
    };
    buf.push(nb);
    proof {
        assert(buf@ =~= old(buf)@ + field_bytes(f@));
    }
}

/// Appends one column's value buffer.
fn encode_column(buf: &mut Vec<u8>, c: &Column)
    ensures
        final(buf)@ == old(buf)@ + column_bytes(c@),
{
    match c {
        Column::Utf8(vs) => {
            let ghost m = vs@.map_values(|v: Vec<u8>| v@);
            let n = vs.len();
            let mut i: usize = 0;
            while i < n
                invariant
                    n == vs@.len(),
                    m == vs@.map_values(|v: Vec<u8>| v@),
                    0 <= i <= n,
                    buf@ == old(buf)@ + utf8_values_bytes(m.take(i as int)),
                decreases n - i,
            {
                let v = &vs[i];
                push_le64(buf, v.len() as u64);
                push_bytes(buf, v.as_slice());
                proof {
                    assert(m[i as int] == vs@[i as int]@);
                    lemma_utf8_values_bytes_snoc(m, i as int);
                    assert(buf@ =~= old(buf)@ + utf8_values_bytes(m.take(i as int + 1)));
                }
                i = i + 1;
            }
            proof {
                assert(m.take(n as int) =~= m);
            }
        },
        Column::Int32(vs) => {
            let n = vs.len();
            let mut i: usize = 0;
            while i < n
                invariant
                    n == vs@.len(),
                    0 <= i <= n,
                    buf@ == old(buf)@ + int32_values_bytes(vs@.take(i as int)),
                decreases n - i,
            {
                push_le32(buf, int32_bits_of(vs[i]));
                proof {
                    lemma_int32_values_bytes_snoc(vs@, i as int);
                    assert(buf@ =~= old(buf)@ + int32_values_bytes(vs@.take(i as int + 1)));
                }
                i = i + 1;
            }
            proof {
                assert(vs@.take(n as int) =~= vs@);
            }
        },
        Column::Boolean(vs) => {
            let n = vs.len();
            let mut i: usize = 0;
            while i < n
                invariant
                    n == vs@.len(),
                    0 <= i <= n,
                    buf@ == old(buf)@ + bool_values_bytes(vs@.take(i as int)),
                decreases n - i,
            {
                let bb: u8 = if vs[i] {
                    1u8
                } else {
                    0u8
                };
                buf.push(bb);
                proof {
                    lemma_bool_values_bytes_snoc(vs@, i as int);
                    assert(buf@ =~= old(buf)@ + bool_values_bytes(vs@.take(i as int + 1)));
                }
                i = i + 1;
            }
            proof {
                assert(vs@.take(n as int) =~= vs@);
            }
        },
    }
}

/// Why a batch could not be framed.
#[derive(Clone, Copy, PartialEq, Eq, Structural, Debug)]
pub enum EncodeError {
    /// The schema and the column arrays disagree, or a field name repeats.
    Inconsistent,
    /// The encoded frame would not fit the header's 64-bit length fields.
    TooLarge,
}

/// Serializes a batch into its frame. Succeeds exactly on well-formed batches
/// whose frame fits the header fields, and then returns precisely the frame's
/// bytes; an inconsistent batch is rejected, never truncated or reordered.
pub fn encode(b: &Batch) -> (r: Result<Vec<u8>, EncodeError>)
    ensures
        r is Ok <==> b@.wf() && fits(b@),
        r is Ok ==> r->Ok_0@ == spec_frame(b@),
        !b@.wf() ==> r == Result::<Vec<u8>, EncodeError>::Err(EncodeError::Inconsistent),
        b@.wf() && !fits(b@) ==> r == Result::<Vec<u8>, EncodeError>::Err(EncodeError::TooLarge),
{
    if !b.is_well_formed() {
        return Err(EncodeError::Inconsistent);
    }
    let mut body: Vec<u8> = Vec::new();
    let nf = b.fields.len();
    let mut i: usize = 0;
    while i < nf
        invariant
            nf == b.fields@.len(),
            b@.fields.len() == nf,
            0 <= i <= nf,
            body@ == fields_bytes(b@.fields.take(i as int)),
        decreases nf - i,
    {
        encode_field(&mut body, &b.fields[i]);
        proof {
            let m = b@.fields;
            assert(m[i as int] == b.fields@[i as int]@);
            lemma_fields_bytes_snoc(m, i as int);
            assert(body@ =~= fields_bytes(m.take(i as int + 1)));
        }
        i = i + 1;
    }
    proof {
        assert(b@.fields.take(nf as int) =~= b@.fields);
    }
    let nc = b.columns.len();
    let mut j: usize = 0;
    while j < nc
        invariant
            nc == b.columns@.len(),
            b@.columns.len() == nc,
            0 <= j <= nc,
            body@ == fields_bytes(b@.fields) + columns_bytes(b@.columns.take(j as int)),
        decreases nc - j,
    {
        encode_column(&mut body, &b.columns[j]);
        proof {
            let m = b@.columns;
            assert(m[j as int] == b.columns@[j as int]@);
            lemma_columns_bytes_snoc(m, j as int);
            assert(body@ =~= fields_bytes(b@.fields) + columns_bytes(m.take(j as int + 1)));
        }
        j = j + 1;
    }
    proof {
        assert(b@.columns.take(nc as int) =~= b@.columns);
        assert(body@ == body_bytes(b@));
    }
    if (body.len() as u64) > u64::MAX - 28 {
        proof {
            assert(!fits(b@));
        }
        return Err(EncodeError::TooLarge);
    }
    let total: u64 = (body.len() as u64) + 28;
    let mut out: Vec<u8> = Vec::new();
    out.push(0x53u8);
    out.push(0x48u8);
    out.push(0x4du8);
    out.push(0x31u8);
    proof {
        assert(out@ =~= magic());
    }
    push_le64(&mut out, total);
    push_le64(&mut out, b.fields.len() as u64);
    push_le64(&mut out, b.num_rows as u64);
    push_bytes(&mut out, body.as_slice());
    proof {
        assert(out@ =~= spec_frame(b@));
    }
    Ok(out)
}

} // verus!

verus! {

/// Whether the bytes at `pos` hold exactly `part`.
pub open spec fn starts_at(s: Seq<u8>, pos: int, part: Seq<u8>) -> bool {
    &&& 0 <= pos
    &&& pos + part.len() <= s.len()
    &&& s.subrange(pos, pos + part.len()) == part
}

/// A concatenation found at `pos` splits into its two parts.
pub proof fn lemma_starts_at_split(s: Seq<u8>, pos: int, a: Seq<u8>, b: Seq<u8>)
    requires
        starts_at(s, pos, a + b),
    ensures
        starts_at(s, pos, a),
        starts_at(s, pos + a.len(), b),
{
    let ab = a + b;
    assert forall|k: int| 0 <= k < ab.len() implies s[pos + k] == ab[k] by {
        assert(s.subrange(pos, pos + ab.len() as int)[k] == ab[k]);
    }
    assert forall|k: int| 0 <= k < a.len() implies s.subrange(pos, pos + a.len() as int)[k]
        == a[k] by {
        assert(s[pos + k] == ab[k]);
    }
    assert(s.subrange(pos, pos + a.len() as int) =~= a);
    assert forall|j: int|
        0 <= j < b.len() implies s.subrange(pos + a.len(), pos + a.len() + b.len() as int)[j]
        == b[j] by {
        assert(s[pos + (a.len() + j)] == ab[a.len() + j]);
        assert(ab[a.len() + j] == b[j]);
    }
    assert(s.subrange(pos + a.len(), pos + a.len() + b.len() as int) =~= b);
}

/// Where a field's wire form sits, its parts sit at their offsets.
pub proof fn lemma_field_bytes_parts(s: Seq<u8>, pos: int, fm: FieldModel)
    requires
        starts_at(s, pos, field_bytes(fm)),
    ensures
        field_bytes(fm).len() == 10 + fm.name.len(),
        pos + 10 + fm.name.len() <= s.len(),
        s.subrange(pos, pos + 8) == le64(fm.name.len() as u64),
        s.subrange(pos + 8, pos + 8 + fm.name.len()) == fm.name,
        s[pos + 8 + fm.name.len()] == type_tag(fm.ty),
        s[pos + 9 + fm.name.len()] == bool_byte(fm.nullable),
{
    let a = le64(fm.name.len() as u64) + fm.name;
    let c = seq![type_tag(fm.ty), bool_byte(fm.nullable)];
    assert(field_bytes(fm) == a + c);
    lemma_starts_at_split(s, pos, a, c);
    lemma_starts_at_split(s, pos, le64(fm.name.len() as u64), fm.name);
    let tpos = pos + 8 + fm.name.len();
    assert(s.subrange(tpos, tpos + 2) == c);
    assert(s[tpos] == s.subrange(tpos, tpos + 2)[0]);
    assert(s[tpos + 1] == s.subrange(tpos, tpos + 2)[1]);
}

/// The schema section is at least one byte per field.
pub proof fn lemma_fields_bytes_len_ge(fs: Seq<FieldModel>)
    ensures
        fields_bytes(fs).len() >= fs.len(),
    decreases fs.len(),
{
    if fs.len() > 0 {
        lemma_fields_bytes_len_ge(fs.skip(1));
    }
}

/// Two signed values with one bit pattern are equal.
pub proof fn lemma_int32_bits_injective(a: i32, b: i32)
    requires
        int32_bits(a) == int32_bits(b),
    ensures
        a == b,
{
}

/// Copies `n` bytes starting at `start` into a fresh vector.
fn copy_range(bytes: &[u8], start: usize, n: usize) -> (r: Vec<u8>)
    requires
        start + n <= bytes@.len(),
    ensures
        r@ == bytes@.subrange(start as int, start as int + n),
{
    let blen = bytes.len();
    let mut out: Vec<u8> = Vec::new();
    let mut i: usize = 0;
    while i < n
        invariant
            blen == bytes@.len(),
            start + n <= blen,
            0 <= i <= n,
            out@ == bytes@.subrange(start as int, start as int + i),
        decreases n - i,
    {
        out.push(bytes[start + i]);
        proof {
            assert(out@ =~= bytes@.subrange(start as int, start as int + i + 1));
        }
        i = i + 1;
    }
    out
}

/// Parses one schema entry at `pos`. Wherever some field's wire form sits at
/// `pos`, the parse succeeds and returns exactly that field.
fn parse_field(bytes: &[u8], pos: usize) -> (r: Option<(Field, usize)>)
    requires
        pos <= bytes@.len(),
    ensures
        r is Some ==> pos < r->Some_0.1 <= bytes@.len(),
        forall|fm: FieldModel|
            starts_at(bytes@, pos as int, #[trigger] field_bytes(fm)) ==> r is Some
                && r->Some_0.0@ == fm && r->Some_0.1 == pos + field_bytes(fm).len(),
{
    let len = bytes.len();
    if len - pos < 8 {
        proof {
            assert forall|fm: FieldModel|
                !starts_at(bytes@, pos as int, #[trigger] field_bytes(fm)) by {
                if starts_at(bytes@, pos as int, field_bytes(fm)) {
                    lemma_field_bytes_parts(bytes@, pos as int, fm);
                }
            }
        }
        return None;
    }
    let n = read_le64(bytes, pos);
    if n > ((len - pos - 8) as u64) {
        proof {
            assert forall|fm: FieldModel|
                !starts_at(bytes@, pos as int, #[trigger] field_bytes(fm)) by {
                if starts_at(bytes@, pos as int, field_bytes(fm)) {
                    lemma_field_bytes_parts(bytes@, pos as int, fm);
                    lemma_le64_roundtrip(n);
                    lemma_le64_roundtrip(fm.name.len() as u64);
                }
            }
        }
        return None;
    }
    let nlen = n as usize;
    let name = copy_range(bytes, pos + 8, nlen);
    let pos2 = pos + 8 + nlen;
    if len - pos2 < 2 {
        proof {
            assert forall|fm: FieldModel|
                !starts_at(bytes@, pos as int, #[trigger] field_bytes(fm)) by {
                if starts_at(bytes@, pos as int, field_bytes(fm)) {
                    lemma_field_bytes_parts(bytes@, pos as int, fm);
                    lemma_le64_roundtrip(n);
                    lemma_le64_roundtrip(fm.name.len() as u64);
                }
            }
        }
        return None;
    }
    let tag = bytes[pos2];
    let nul = bytes[pos2 + 1];
    proof {
        assert forall|fm: FieldModel|
            starts_at(bytes@, pos as int, #[trigger] field_bytes(fm)) implies (nlen
            == fm.name.len() && name@ == fm.name && tag == type_tag(fm.ty) && nul == bool_byte(
            fm.nullable,
        )) by {
            lemma_field_bytes_parts(bytes@, pos as int, fm);
            lemma_le64_roundtrip(n);
            lemma_le64_roundtrip(fm.name.len() as u64);
        }
    }
    let ty = if tag == 0 {
        ColumnType::Utf8
    } else if tag == 1 {
        ColumnType::Int32
    } else if tag == 2 {
        ColumnType::Boolean
    } else {
        proof {
            assert forall|fm: FieldModel|
                !starts_at(bytes@, pos as int, #[trigger] field_bytes(fm)) by {
                if starts_at(bytes@, pos as int, field_bytes(fm)) {
                    assert(tag == type_tag(fm.ty));
                }
            }
        }
        return None;
    };
    let nullable = nul != 0;
    Some((Field { name, ty, nullable }, pos2 + 2))
}

} // verus!

verus! {

/// A frame decomposes into its header fields and its two sections.
pub proof fn lemma_frame_parts(s: Seq<u8>, bm: BatchModel)
    requires
        s == spec_frame(bm),
    ensures
        s.len() == 28 + body_bytes(bm).len(),
        s.subrange(0, 4) == magic(),
        s.subrange(4, 12) == le64((28 + body_bytes(bm).len()) as u64),
        s.subrange(12, 20) == le64(bm.fields.len() as u64),
        s.subrange(20, 28) == le64(bm.num_rows as u64),
        starts_at(s, 28, fields_bytes(bm.fields)),
        starts_at(s, 28 + fields_bytes(bm.fields).len() as int, columns_bytes(bm.columns)),
{
    let t = le64((28 + body_bytes(bm).len()) as u64);
    let f = le64(bm.fields.len() as u64);
    let r = le64(bm.num_rows as u64);
    let body = body_bytes(bm);
    assert(starts_at(s, 0, s)) by {
        assert(s.subrange(0, s.len() as int) =~= s);
    }
    assert(s == (magic() + t + f + r) + body);
    lemma_starts_at_split(s, 0, magic() + t + f + r, body);
    lemma_starts_at_split(s, 0, magic() + t + f, r);
    lemma_starts_at_split(s, 0, magic() + t, f);
    lemma_starts_at_split(s, 0, magic(), t);
    lemma_starts_at_split(s, 28, fields_bytes(bm.fields), columns_bytes(bm.columns));
}

/// Within a schema section, entry `i` sits after the bytes of the first `i`
/// entries.
pub proof fn lemma_fields_step(s: Seq<u8>, pos: int, fs: Seq<FieldModel>, i: int)
    requires
        starts_at(s, pos, fields_bytes(fs)),
        0 <= i < fs.len(),
    ensures
        starts_at(s, pos + fields_bytes(fs.take(i)).len(), field_bytes(fs[i])),
        fields_bytes(fs.take(i + 1)).len() == fields_bytes(fs.take(i)).len() + field_bytes(
            fs[i],
        ).len(),
{
    assert(fs.take(i) + fs.skip(i) =~= fs);
    lemma_fields_bytes_app(fs.take(i), fs.skip(i));
    lemma_starts_at_split(s, pos, fields_bytes(fs.take(i)), fields_bytes(fs.skip(i)));
    let cur = pos + fields_bytes(fs.take(i)).len();
    assert(fs.skip(i)[0] == fs[i]);
    assert(fields_bytes(fs.skip(i)) == field_bytes(fs[i]) + fields_bytes(fs.skip(i).skip(1)));
    lemma_starts_at_split(s, cur, field_bytes(fs[i]), fields_bytes(fs.skip(i).skip(1)));
    lemma_fields_bytes_snoc(fs, i);
}

/// Within the column section, column `i` sits after the buffers of the first
/// `i` columns.
pub proof fn lemma_columns_step(s: Seq<u8>, pos: int, cs: Seq<ColumnModel>, i: int)
    requires
        starts_at(s, pos, columns_bytes(cs)),
        0 <= i < cs.len(),
    ensures
        starts_at(s, pos + columns_bytes(cs.take(i)).len(), column_bytes(cs[i])),
        columns_bytes(cs.take(i + 1)).len() == columns_bytes(cs.take(i)).len() + column_bytes(
            cs[i],
        ).len(),
{
    assert(cs.take(i) + cs.skip(i) =~= cs);
    lemma_columns_bytes_app(cs.take(i), cs.skip(i));
    lemma_starts_at_split(s, pos, columns_bytes(cs.take(i)), columns_bytes(cs.skip(i)));
    let cur = pos + columns_bytes(cs.take(i)).len();
    assert(cs.skip(i)[0] == cs[i]);
    assert(columns_bytes(cs.skip(i)) == column_bytes(cs[i]) + columns_bytes(cs.skip(i).skip(1)));
    lemma_starts_at_split(s, cur, column_bytes(cs[i]), columns_bytes(cs.skip(i).skip(1)));
    lemma_columns_bytes_snoc(cs, i);
}

/// Within a string column's buffer, value `i`'s length prefix and bytes sit
/// after the bytes of the first `i` values.
pub proof fn lemma_utf8_step(s: Seq<u8>, pos: int, vs: Seq<Seq<u8>>, i: int)
    requires
        starts_at(s, pos, utf8_values_bytes(vs)),
        0 <= i < vs.len(),
    ensures
        pos + utf8_values_bytes(vs.take(i)).len() + 8 + vs[i].len() <= s.len(),
        s.subrange(
            pos + utf8_values_bytes(vs.take(i)).len(),
            pos + utf8_values_bytes(vs.take(i)).len() + 8,
        ) == le64(vs[i].len() as u64),
        s.subrange(
            pos + utf8_values_bytes(vs.take(i)).len() + 8,
            pos + utf8_values_bytes(vs.take(i)).len() + 8 + vs[i].len(),
        ) == vs[i],
        utf8_values_bytes(vs.take(i + 1)).len() == utf8_values_bytes(vs.take(i)).len() + 8
            + vs[i].len(),
{
    assert(vs.take(i) + vs.skip(i) =~= vs);
    lemma_utf8_values_bytes_app(vs.take(i), vs.skip(i));
    lemma_starts_at_split(s, pos, utf8_values_bytes(vs.take(i)), utf8_values_bytes(vs.skip(i)));
    let cur = pos + utf8_values_bytes(vs.take(i)).len();
    assert(vs.skip(i)[0] == vs[i]);
    assert(utf8_values_bytes(vs.skip(i)) == utf8_value_bytes(vs[i]) + utf8_values_bytes(
        vs.skip(i).skip(1),
    ));
    lemma_starts_at_split(s, cur, utf8_value_bytes(vs[i]), utf8_values_bytes(vs.skip(i).skip(1)));
    lemma_starts_at_split(s, cur, le64(vs[i].len() as u64), vs[i]);
    lemma_utf8_values_bytes_snoc(vs, i);
}

/// Within an integer column's buffer, value `i` sits at offset `4 * i`.
pub proof fn lemma_int32_step(s: Seq<u8>, pos: int, vs: Seq<i32>, i: int)
    requires
        starts_at(s, pos, int32_values_bytes(vs)),
        0 <= i < vs.len(),
    ensures
        pos + int32_values_bytes(vs.take(i)).len() + 4 <= s.len(),
        s.subrange(
            pos + int32_values_bytes(vs.take(i)).len(),
            pos + int32_values_bytes(vs.take(i)).len() + 4,
        ) == le32(int32_bits(vs[i])),
        int32_values_bytes(vs.take(i + 1)).len() == int32_values_bytes(vs.take(i)).len() + 4,
{
    assert(vs.take(i) + vs.skip(i) =~= vs);
    lemma_int32_values_bytes_app(vs.take(i), vs.skip(i));
    lemma_starts_at_split(s, pos, int32_values_bytes(vs.take(i)), int32_values_bytes(vs.skip(i)));
    let cur = pos + int32_values_bytes(vs.take(i)).len();
    assert(vs.skip(i)[0] == vs[i]);
    assert(int32_values_bytes(vs.skip(i)) == le32(int32_bits(vs[i])) + int32_values_bytes(
        vs.skip(i).skip(1),
    ));
    lemma_starts_at_split(s, cur, le32(int32_bits(vs[i])), int32_values_bytes(vs.skip(i).skip(1)));
    lemma_int32_values_bytes_snoc(vs, i);
}

/// Within a boolean column's buffer, value `i` sits at offset `i`.
pub proof fn lemma_bool_step(s: Seq<u8>, pos: int, vs: Seq<bool>, i: int)
    requires
        starts_at(s, pos, bool_values_bytes(vs)),
        0 <= i < vs.len(),
    ensures
        pos + bool_values_bytes(vs.take(i)).len() + 1 <= s.len(),
        s[pos + bool_values_bytes(vs.take(i)).len()] == bool_byte(vs[i]),
        bool_values_bytes(vs.take(i + 1)).len() == bool_values_bytes(vs.take(i)).len() + 1,
{
    assert(vs.take(i) + vs.skip(i) =~= vs);
    lemma_bool_values_bytes_app(vs.take(i), vs.skip(i));
    lemma_starts_at_split(s, pos, bool_values_bytes(vs.take(i)), bool_values_bytes(vs.skip(i)));
    let cur = pos + bool_values_bytes(vs.take(i)).len();
    assert(vs.skip(i)[0] == vs[i]);
    assert(bool_values_bytes(vs.skip(i)) == seq![bool_byte(vs[i])] + bool_values_bytes(
        vs.skip(i).skip(1),
    ));
    lemma_starts_at_split(s, cur, seq![bool_byte(vs[i])], bool_values_bytes(vs.skip(i).skip(1)));
    assert(s.subrange(cur, cur + 1)[0] == bool_byte(vs[i]));
    lemma_bool_values_bytes_snoc(vs, i);
}

/// Parses a string column of `rows` values at `pos`. Wherever such a column's
/// buffer sits at `pos`, the parse succeeds and returns exactly its values.
fn parse_utf8_column(bytes: &[u8], pos: usize, rows: u64) -> (r: Option<(Vec<Vec<u8>>, usize)>)
    requires
        pos <= bytes@.len(),
    ensures
        r is Some ==> pos <= r->Some_0.1 <= bytes@.len() && r->Some_0.0@.len() == rows,
        forall|vs: Seq<Seq<u8>>|
            vs.len() == rows && starts_at(bytes@, pos as int, #[trigger] utf8_values_bytes(vs))
                ==> r is Some && r->Some_0.0@.map_values(|v: Vec<u8>| v@) == vs && r->Some_0.1
                == pos + utf8_values_bytes(vs).len(),
{
    let len = bytes.len();
    let mut acc: Vec<Vec<u8>> = Vec::new();
    let mut cur: usize = pos;
    let mut i: u64 = 0;
    while i < rows
        invariant
            len == bytes@.len(),
            pos <= cur <= len,
            0 <= i <= rows,
            acc@.len() == i,
            forall|vs: Seq<Seq<u8>>|
                vs.len() == rows && starts_at(bytes@, pos as int, #[trigger] utf8_values_bytes(vs))
                    ==> acc@.map_values(|v: Vec<u8>| v@) == vs.take(i as int) && cur == pos
                    + utf8_values_bytes(vs.take(i as int)).len(),
        decreases rows - i,
    {
        if len - cur < 8 {
            proof {
                assert forall|vs: Seq<Seq<u8>>|
                    !(vs.len() == rows && starts_at(
                        bytes@,
                        pos as int,
                        #[trigger] utf8_values_bytes(vs),
                    )) by {
                    if vs.len() == rows && starts_at(bytes@, pos as int, utf8_values_bytes(vs)) {
                        lemma_utf8_step(bytes@, pos as int, vs, i as int);
                    }
                }
            }
            return None;
        }
        let n = read_le64(bytes, cur);
        if n > ((len - cur - 8) as u64) {
            proof {
                assert forall|vs: Seq<Seq<u8>>|
                    !(vs.len() == rows && starts_at(
                        bytes@,
                        pos as int,
                        #[trigger] utf8_values_bytes(vs),
                    )) by {
                    if vs.len() == rows && starts_at(bytes@, pos as int, utf8_values_bytes(vs)) {
                        lemma_utf8_step(bytes@, pos as int, vs, i as int);
                        lemma_le64_roundtrip(n);
                        lemma_le64_roundtrip(vs[i as int].len() as u64);
                    }
                }
            }
            return None;
        }
        let vlen = n as usize;
        let v = copy_range(bytes, cur + 8, vlen);
        let ghost acc0 = acc@;
        let ghost cur0 = cur as int;
        acc.push(v);
        cur = cur + 8 + vlen;
        proof {
            assert forall|vs: Seq<Seq<u8>>|
                vs.len() == rows && starts_at(bytes@, pos as int, #[trigger] utf8_values_bytes(vs))
                    implies acc@.map_values(|w: Vec<u8>| w@) == vs.take(i as int + 1) && cur == pos
                + utf8_values_bytes(vs.take(i as int + 1)).len() by {
                lemma_utf8_step(bytes@, pos as int, vs, i as int);
                lemma_le64_roundtrip(n);
                lemma_le64_roundtrip(vs[i as int].len() as u64);
                assert(v@ == vs[i as int]);
                assert(acc@.map_values(|w: Vec<u8>| w@) =~= acc0.map_values(|w: Vec<u8>| w@).push(
                    v@,
                ));
                assert(vs.take(i as int + 1) =~= vs.take(i as int).push(vs[i as int]));
            }
        }
        i = i + 1;
    }
    proof {
        assert forall|vs: Seq<Seq<u8>>|
            vs.len() == rows && starts_at(bytes@, pos as int, #[trigger] utf8_values_bytes(vs))
                implies acc@.map_values(|v: Vec<u8>| v@) == vs && cur == pos + utf8_values_bytes(
            vs,
        ).len() by {
            assert(vs.take(rows as int) =~= vs);
        }
    }
    Some((acc, cur))
}

/// Parses an integer column of `rows` values at `pos`.
fn parse_int32_column(bytes: &[u8], pos: usize, rows: u64) -> (r: Option<(Vec<i32>, usize)>)
    requires
        pos <= bytes@.len(),
    ensures
        r is Some ==> pos <= r->Some_0.1 <= bytes@.len() && r->Some_0.0@.len() == rows,
        forall|vs: Seq<i32>|
            vs.len() == rows && starts_at(bytes@, pos as int, #[trigger] int32_values_bytes(vs))
                ==> r is Some && r->Some_0.0@ == vs && r->Some_0.1 == pos + int32_values_bytes(
                vs,
            ).len(),
{
    let len = bytes.len();
    let mut acc: Vec<i32> = Vec::new();
    let mut cur: usize = pos;
    let mut i: u64 = 0;
    while i < rows
        invariant
            len == bytes@.len(),
            pos <= cur <= len,
            0 <= i <= rows,
            acc@.len() == i,
            forall|vs: Seq<i32>|
                vs.len() == rows && starts_at(bytes@, pos as int, #[trigger] int32_values_bytes(vs))
                    ==> acc@ == vs.take(i as int) && cur == pos + int32_values_bytes(
                    vs.take(i as int),
                ).len(),
        decreases rows - i,
    {
        if len - cur < 4 {
            proof {
                assert forall|vs: Seq<i32>|
                    !(vs.len() == rows && starts_at(
                        bytes@,
                        pos as int,
                        #[trigger] int32_values_bytes(vs),
                    )) by {
                    if vs.len() == rows && starts_at(bytes@, pos as int, int32_values_bytes(vs)) {
                        lemma_int32_step(bytes@, pos as int, vs, i as int);
                    }
                }
            }
            return None;
        }
        let u = read_le32(bytes, cur);
        let v = int32_of_bits(u);
        let ghost acc0 = acc@;
        acc.push(v);
        cur = cur + 4;
        proof {
            assert forall|vs: Seq<i32>|
                vs.len() == rows && starts_at(bytes@, pos as int, #[trigger] int32_values_bytes(vs))
                    implies acc@ == vs.take(i as int + 1) && cur == pos + int32_values_bytes(
                vs.take(i as int + 1),
            ).len() by {
                lemma_int32_step(bytes@, pos as int, vs, i as int);
                lemma_le32_roundtrip(u);
                lemma_le32_roundtrip(int32_bits(vs[i as int]));
                lemma_int32_bits_injective(v, vs[i as int]);
                assert(acc@ =~= acc0.push(v));
                assert(vs.take(i as int + 1) =~= vs.take(i as int).push(vs[i as int]));
            }
        }
        i = i + 1;
    }
    proof {
        assert forall|vs: Seq<i32>|
            vs.len() == rows && starts_at(bytes@, pos as int, #[trigger] int32_values_bytes(vs))
                implies acc@ == vs && cur == pos + int32_values_bytes(vs).len() by {
            assert(vs.take(rows as int) =~= vs);
        }
    }
    Some((acc, cur))
}

/// Parses a boolean column of `rows` values at `pos`.
fn parse_bool_column(bytes: &[u8], pos: usize, rows: u64) -> (r: Option<(Vec<bool>, usize)>)
    requires
        pos <= bytes@.len(),
    ensures
        r is Some ==> pos <= r->Some_0.1 <= bytes@.len() && r->Some_0.0@.len() == rows,
        forall|vs: Seq<bool>|
            vs.len() == rows && starts_at(bytes@, pos as int, #[trigger] bool_values_bytes(vs))
                ==> r is Some && r->Some_0.0@ == vs && r->Some_0.1 == pos + bool_values_bytes(
                vs,
            ).len(),
{
    let len = bytes.len();
    let mut acc: Vec<bool> = Vec::new();
    let mut cur: usize = pos;
    let mut i: u64 = 0;
    while i < rows
        invariant
            len == bytes@.len(),
            pos <= cur <= len,
            0 <= i <= rows,
            acc@.len() == i,
            forall|vs: Seq<bool>|
                vs.len() == rows && starts_at(bytes@, pos as int, #[trigger] bool_values_bytes(vs))
                    ==> acc@ == vs.take(i as int) && cur == pos + bool_values_bytes(
                    vs.take(i as int),
                ).len(),
        decreases rows - i,
    {
        if len - cur < 1 {
            proof {
                assert forall|vs: Seq<bool>|
                    !(vs.len() == rows && starts_at(
                        bytes@,
                        pos as int,
                        #[trigger] bool_values_bytes(vs),
                    )) by {
                    if vs.len() == rows && starts_at(bytes@, pos as int, bool_values_bytes(vs)) {
                        lemma_bool_step(bytes@, pos as int, vs, i as int);
                    }
                }
            }
            return None;
        }
        let v = bytes[cur] != 0;
        let ghost acc0 = acc@;
        acc.push(v);
        cur = cur + 1;
        proof {
            assert forall|vs: Seq<bool>|
                vs.len() == rows && starts_at(bytes@, pos as int, #[trigger] bool_values_bytes(vs))
                    implies acc@ == vs.take(i as int + 1) && cur == pos + bool_values_bytes(
                vs.take(i as int + 1),
            ).len() by {
                lemma_bool_step(bytes@, pos as int, vs, i as int);
                assert(acc@ =~= acc0.push(v));
                assert(vs.take(i as int + 1) =~= vs.take(i as int).push(vs[i as int]));
            }
        }
        i = i + 1;
    }
    proof {
        assert forall|vs: Seq<bool>|
            vs.len() == rows && starts_at(bytes@, pos as int, #[trigger] bool_values_bytes(vs))
                implies acc@ == vs && cur == pos + bool_values_bytes(vs).len() by {
            assert(vs.take(rows as int) =~= vs);
        }
    }
    Some((acc, cur))
}

} // verus!

verus! {

/// Parses one column of `rows` values of the tagged type at `pos`. Wherever
/// such a column's buffer sits at `pos`, the parse succeeds and returns
/// exactly that column.
fn parse_column(bytes: &[u8], pos: usize, rows: u64, ty: ColumnType) -> (r: Option<
    (Column, usize),
>)
    requires
        pos <= bytes@.len(),
    ensures
        r is Some ==> pos <= r->Some_0.1 <= bytes@.len(),
        forall|cm: ColumnModel|
            cm.matches_type(ty) && cm.len() == rows && starts_at(
                bytes@,
                pos as int,
                #[trigger] column_bytes(cm),
            ) ==> r is Some && r->Some_0.0@ == cm && r->Some_0.1 == pos + column_bytes(cm).len(),
{
    match ty {
        ColumnType::Utf8 => {
            match parse_utf8_column(bytes, pos, rows) {
                None => {
                    proof {
                        assert forall|cm: ColumnModel|
                            !(cm.matches_type(ty) && cm.len() == rows && starts_at(
                                bytes@,
                                pos as int,
                                #[trigger] column_bytes(cm),
                            )) by {
                            if cm.matches_type(ty) && cm.len() == rows && starts_at(
                                bytes@,
                                pos as int,
                                column_bytes(cm),
                            ) {
                                assert(starts_at(
                                    bytes@,
                                    pos as int,
                                    utf8_values_bytes(cm->Utf8_0),
                                ));
                            }
                        }
                    }
                    None
                },
                Some((col, nc)) => Some((Column::Utf8(col), nc)),
            }
        },
        ColumnType::Int32 => {
            match parse_int32_column(bytes, pos, rows) {
                None => {
                    proof {
                        assert forall|cm: ColumnModel|
                            !(cm.matches_type(ty) && cm.len() == rows && starts_at(
                                bytes@,
                                pos as int,
                                #[trigger] column_bytes(cm),
                            )) by {
                            if cm.matches_type(ty) && cm.len() == rows && starts_at(
                                bytes@,
                                pos as int,
                                column_bytes(cm),
                            ) {
                                assert(starts_at(
                                    bytes@,
                                    pos as int,
                                    int32_values_bytes(cm->Int32_0),
                                ));
                            }
                        }
                    }
                    None
                },
                Some((col, nc)) => Some((Column::Int32(col), nc)),
            }
        },
        ColumnType::Boolean => {
            match parse_bool_column(bytes, pos, rows) {
                None => {
                    proof {
                        assert forall|cm: ColumnModel|
                            !(cm.matches_type(ty) && cm.len() == rows && starts_at(
                                bytes@,
                                pos as int,
                                #[trigger] column_bytes(cm),
                            )) by {
                            if cm.matches_type(ty) && cm.len() == rows && starts_at(
                                bytes@,
                                pos as int,
                                column_bytes(cm),
                            ) {
                                assert(starts_at(
                                    bytes@,
                                    pos as int,
                                    bool_values_bytes(cm->Boolean_0),
                                ));
                            }
                        }
                    }
                    None
                },
                Some((col, nc)) => Some((Column::Boolean(col), nc)),
            }
        },
    }
}

/// Reads the header counts. Wherever the bytes are some well-formed batch's
/// frame, this succeeds with that batch's field and row counts.
fn parse_header(bytes: &[u8]) -> (r: Option<(u64, u64)>)
    ensures
        r is Some ==> bytes@.len() >= 28 && r->Some_0.0 <= bytes@.len() - 28,
        forall|bm: BatchModel|
            #[trigger] frame_matches(bytes@, bm) ==> r is Some && r->Some_0.0 == bm.fields.len()
                && r->Some_0.1 == bm.num_rows,
{
    let len = bytes.len();
    if len < 28 {
        proof {
            assert forall|bm: BatchModel| !frame_matches(bytes@, bm) by {
                if frame_matches(bytes@, bm) {
                    lemma_frame_parts(bytes@, bm);
                }
            }
        }
        return None;
    }
    let nf64 = read_le64(bytes, 12);
    let rows = read_le64(bytes, 20);
    if nf64 > ((len - 28) as u64) {
        proof {
            assert forall|bm: BatchModel| !frame_matches(bytes@, bm) by {
                if frame_matches(bytes@, bm) {
                    lemma_frame_parts(bytes@, bm);
                    lemma_fields_bytes_len_ge(bm.fields);
                    lemma_le64_roundtrip(nf64);
                    lemma_le64_roundtrip(bm.fields.len() as u64);
                }
            }
        }
        return None;
    }
    proof {
        assert forall|bm: BatchModel|
            #[trigger] frame_matches(bytes@, bm) implies nf64 == bm.fields.len() && rows
            == bm.num_rows by {
            lemma_frame_parts(bytes@, bm);
            lemma_le64_roundtrip(nf64);
            lemma_le64_roundtrip(bm.fields.len() as u64);
            lemma_le64_roundtrip(rows);
            lemma_le64_roundtrip(bm.num_rows as u64);
        }
    }
    Some((nf64, rows))
}

/// Parses a whole frame into a candidate batch. Wherever the bytes are
/// exactly some well-formed batch's frame, the parse succeeds and returns
/// exactly that batch.
#[verifier::rlimit(100)]
fn parse_frame(bytes: &[u8]) -> (r: Option<Batch>)
    ensures
        forall|bm: BatchModel|
            #[trigger] frame_matches(bytes@, bm) ==> r is Some && r->Some_0@ == bm,
{
    let len = bytes.len();
    let hdr = parse_header(bytes);
    let (nf64, rows) = match hdr {
        Some(h) => h,
        None => {
            proof {
                assert forall|bm: BatchModel| !frame_matches(bytes@, bm) by {}
            }
            return None;
        },
    };
    let nf = nf64 as usize;
    let mut facc: Vec<Field> = Vec::new();
    let mut cur: usize = 28;
    let mut i: usize = 0;
    proof {
        assert(facc@.map_values(|f: Field| f@) =~= Seq::<FieldModel>::empty());
        assert forall|bm: BatchModel|
            #[trigger] frame_matches(bytes@, bm) implies facc@.map_values(|f: Field| f@)
            == bm.fields.take(0) && cur == 28 + fields_bytes(bm.fields.take(0)).len() by {
            assert(bm.fields.take(0) =~= Seq::<FieldModel>::empty());
        }
    }
    while i < nf
        invariant
            len == bytes@.len(),
            len >= 28,
            nf <= len - 28,
            28 <= cur <= len,
            0 <= i <= nf,
            facc@.len() == i,
            forall|bm: BatchModel|
                #[trigger] frame_matches(bytes@, bm) ==> nf == bm.fields.len() && rows
                    == bm.num_rows && facc@.map_values(|f: Field| f@) == bm.fields.take(i as int)
                    && cur == 28 + fields_bytes(bm.fields.take(i as int)).len(),
        decreases nf - i,
    {
        let pr = parse_field(bytes, cur);
        match pr {
            None => {
                proof {
                    assert forall|bm: BatchModel| !frame_matches(bytes@, bm) by {
                        if frame_matches(bytes@, bm) {
                            lemma_frame_parts(bytes@, bm);
                            lemma_fields_step(bytes@, 28, bm.fields, i as int);
                        }
                    }
                }
                return None;
            },
            Some((f, nc)) => {
                let ghost facc0 = facc@;
                facc.push(f);
                cur = nc;
                proof {
                    assert forall|bm: BatchModel|
                        #[trigger] frame_matches(bytes@, bm) implies facc@.map_values(
                        |g: Field| g@,
                    ) == bm.fields.take(i as int + 1) && cur == 28 + fields_bytes(
                        bm.fields.take(i as int + 1),
                    ).len() by {
                        lemma_frame_parts(bytes@, bm);
                        lemma_fields_step(bytes@, 28, bm.fields, i as int);
                        assert(f@ == bm.fields[i as int]);
                        assert(facc@.map_values(|g: Field| g@) =~= facc0.map_values(
                            |g: Field| g@,
                        ).push(f@));
                        assert(bm.fields.take(i as int + 1) =~= bm.fields.take(i as int).push(
                            bm.fields[i as int],
                        ));
                    }
                }
                i = i + 1;
            },
        }
    }
    let mut cacc: Vec<Column> = Vec::new();
    let mut j: usize = 0;
    proof {
        assert(cacc@.map_values(|c: Column| c@) =~= Seq::<ColumnModel>::empty());
        assert forall|bm: BatchModel|
            #[trigger] frame_matches(bytes@, bm) implies facc@.map_values(|f: Field| f@)
            == bm.fields && cacc@.map_values(|c: Column| c@) == bm.columns.take(0) && cur == 28
            + fields_bytes(bm.fields).len() + columns_bytes(bm.columns.take(0)).len() by {
            assert(bm.fields.take(nf as int) =~= bm.fields);
            assert(bm.columns.take(0) =~= Seq::<ColumnModel>::empty());
        }
    }
    while j < nf
        invariant
            len == bytes@.len(),
            28 <= cur <= len,
            0 <= j <= nf,
            facc@.len() == nf,
            cacc@.len() == j,
            forall|bm: BatchModel|
                #[trigger] frame_matches(bytes@, bm) ==> nf == bm.fields.len() && rows
                    == bm.num_rows && facc@.map_values(|f: Field| f@) == bm.fields
                    && cacc@.map_values(|c: Column| c@) == bm.columns.take(j as int) && cur == 28
                    + fields_bytes(bm.fields).len() + columns_bytes(bm.columns.take(j as int)).len(),
        decreases nf - j,
    {
        let ty = facc[j].ty;
        let pr = parse_column(bytes, cur, rows, ty);
        match pr {
            None => {
                proof {
                    assert forall|bm: BatchModel| !frame_matches(bytes@, bm) by {
                        if frame_matches(bytes@, bm) {
                            lemma_frame_parts(bytes@, bm);
                            lemma_columns_step(
                                bytes@,
                                28 + fields_bytes(bm.fields).len() as int,
                                bm.columns,
                                j as int,
                            );
                            assert(facc@[j as int]@ == bm.fields[j as int]);
                            assert(bm.columns[j as int].matches_type(ty));
                            assert(bm.columns[j as int].len() == rows);
                            assert(starts_at(
                                bytes@,
                                cur as int,
                                column_bytes(bm.columns[j as int]),
                            ));
                        }
                    }
                }
                return None;
            },
            Some((col, nc)) => {
                let ghost cacc0 = cacc@;
                cacc.push(col);
                cur = nc;
                proof {
                    assert forall|bm: BatchModel|
                        #[trigger] frame_matches(bytes@, bm) implies cacc@.map_values(
                        |c: Column| c@,
                    ) == bm.columns.take(j as int + 1) && cur == 28 + fields_bytes(
                        bm.fields,
                    ).len() + columns_bytes(bm.columns.take(j as int + 1)).len() by {
                        lemma_frame_parts(bytes@, bm);
                        lemma_columns_step(
                            bytes@,
                            28 + fields_bytes(bm.fields).len() as int,
                            bm.columns,
                            j as int,
                        );
                        assert(facc@[j as int]@ == bm.fields[j as int]);
                        assert(bm.columns[j as int].matches_type(ty));
                        assert(bm.columns[j as int].len() == rows);
                        assert(starts_at(
                            bytes@,
                            cur as int - column_bytes(bm.columns[j as int]).len(),
                            column_bytes(bm.columns[j as int]),
                        ));
                        assert(col@ == bm.columns[j as int]);
                        assert(cacc@.map_values(|c: Column| c@) =~= cacc0.map_values(
                            |c: Column| c@,
                        ).push(col@));
                        assert(bm.columns.take(j as int + 1) =~= bm.columns.take(j as int).push(
                            bm.columns[j as int],
                        ));
                    }
                }
                j = j + 1;
            },
        }
    }
    let b = Batch { fields: facc, columns: cacc, num_rows: rows };
    proof {
        assert forall|bm: BatchModel| #[trigger] frame_matches(bytes@, bm) implies b@ == bm by {
            assert(bm.fields.take(nf as int) =~= bm.fields);
            assert(bm.columns.take(nf as int) =~= bm.columns);
        }
    }
    Some(b)
}

/// Why a byte range could not be decoded.
#[derive(Clone, Copy, PartialEq, Eq, Structural, Debug)]
pub enum DecodeError {
    /// Fewer bytes than a frame header.
    TooShort,
    /// The bytes do not begin with the frame magic.
    BadMagic,
    /// The header's total length is not the length of the given range.
    LengthMismatch,
    /// The sections after the header are not a well-formed batch's encoding.
    Malformed,
}

/// Decodes a frame. Succeeds exactly when the bytes are some well-formed
/// batch's complete frame, and then returns exactly that batch; a truncated
/// or otherwise malformed range is rejected, never partially decoded.
pub fn decode(bytes: &[u8]) -> (r: Result<Batch, DecodeError>)
    ensures
        r is Ok <==> valid_frame(bytes@),
        r is Ok ==> frame_matches(bytes@, r->Ok_0@),
        forall|bm: BatchModel| #[trigger] frame_matches(bytes@, bm) ==> r is Ok && r->Ok_0@ == bm,
        r == Result::<Batch, DecodeError>::Err(DecodeError::TooShort) <==> bytes@.len() < 28,
        r == Result::<Batch, DecodeError>::Err(DecodeError::BadMagic) <==> bytes@.len() >= 28
            && bytes@.subrange(0, 4) != magic(),
        r == Result::<Batch, DecodeError>::Err(DecodeError::LengthMismatch) <==> bytes@.len() >= 28
            && bytes@.subrange(0, 4) == magic() && bytes@.subrange(4, 12) != le64(
            bytes@.len() as u64,
        ),
        r == Result::<Batch, DecodeError>::Err(DecodeError::Malformed) <==> bytes@.len() >= 28
            && bytes@.subrange(0, 4) == magic() && bytes@.subrange(4, 12) == le64(
            bytes@.len() as u64,
        ) && !valid_frame(bytes@),
{
    let len = bytes.len();
    if len < 28 {
        proof {
            assert forall|bm: BatchModel| !frame_matches(bytes@, bm) by {
                if frame_matches(bytes@, bm) {
                    lemma_frame_parts(bytes@, bm);
                }
            }
        }
        return Err(DecodeError::TooShort);
    }
    let magic_ok = bytes[0] == 0x53 && bytes[1] == 0x48 && bytes[2] == 0x4d && bytes[3] == 0x31;
    if !magic_ok {
        proof {
            assert(bytes@.subrange(0, 4) != magic()) by {
                if bytes@.subrange(0, 4) == magic() {
                    assert(bytes@[0] == bytes@.subrange(0, 4)[0]);
                    assert(bytes@[1] == bytes@.subrange(0, 4)[1]);
                    assert(bytes@[2] == bytes@.subrange(0, 4)[2]);
                    assert(bytes@[3] == bytes@.subrange(0, 4)[3]);
                }
            }
            assert forall|bm: BatchModel| !frame_matches(bytes@, bm) by {
                if frame_matches(bytes@, bm) {
                    lemma_frame_parts(bytes@, bm);
                }
            }
        }
        return Err(DecodeError::BadMagic);
    }
    proof {
        assert(bytes@.subrange(0, 4) =~= magic());
    }
    let total = read_le64(bytes, 4);
    if total != (len as u64) {
        proof {
            assert(bytes@.subrange(4, 12) != le64(len as u64)) by {
                if bytes@.subrange(4, 12) == le64(len as u64) {
                    lemma_le64_injective(total, len as u64);
                }
            }
            assert forall|bm: BatchModel| !frame_matches(bytes@, bm) by {
                if frame_matches(bytes@, bm) {
                    lemma_frame_parts(bytes@, bm);
                }
            }
        }
        return Err(DecodeError::LengthMismatch);
    }
    let parsed = parse_frame(bytes);
    match parsed {
        None => {
            proof {
                assert(!valid_frame(bytes@)) by {
                    if valid_frame(bytes@) {
                        let bm = choose|bm: BatchModel| frame_matches(bytes@, bm);
                        assert(frame_matches(bytes@, bm));
                    }
                }
            }
            Err(DecodeError::Malformed)
        },
        Some(cand) => {
            let reenc = encode(&cand);
            match reenc {
                Ok(f) => {
                    if bytes_eq(f.as_slice(), bytes) {
                        proof {
                            assert(frame_matches(bytes@, cand@));
                        }
                        Ok(cand)
                    } else {
                        proof {
                            assert(!valid_frame(bytes@)) by {
                                if valid_frame(bytes@) {
                                    let bm = choose|bm: BatchModel| frame_matches(bytes@, bm);
                                    assert(frame_matches(bytes@, bm));
                                    assert(cand@ == bm);
                                }
                            }
                        }
                        Err(DecodeError::Malformed)
                    }
                },
                Err(_) => {
                    proof {
                        assert(!valid_frame(bytes@)) by {
                            if valid_frame(bytes@) {
                                let bm = choose|bm: BatchModel| frame_matches(bytes@, bm);
                                assert(frame_matches(bytes@, bm));
                                assert(cand@ == bm);
                            }
                        }
                    }
                    Err(DecodeError::Malformed)
                },
            }
        },
    }
}

} // verus!

verus! {

/// Round trip: a well-formed batch that fits the header fields matches its
/// own frame, so by `decode`'s contract, decoding the bytes that `encode`
/// returns for it succeeds and yields a batch with the same schema and the
/// same column contents, in the same row order.
pub proof fn lemma_round_trip(bm: BatchModel)
    requires
        bm.wf(),
        fits(bm),
    ensures
        frame_matches(spec_frame(bm), bm),
        valid_frame(spec_frame(bm)),
{
    assert(frame_matches(spec_frame(bm), bm));
}

/// No partial visibility: a strict prefix of a frame — a range whose `end`
/// stops short of the frame's true end — is no well-formed batch's frame, so
/// by `decode`'s contract it is rejected, never returned as a truncated but
/// successful batch.
pub proof fn lemma_truncated_frame_invalid(bm: BatchModel, end: int)
    requires
        bm.wf(),
        fits(bm),
        0 <= end < spec_frame(bm).len(),
    ensures
        !valid_frame(spec_frame(bm).take(end)),
{
    let s = spec_frame(bm);
    let t = s.take(end);
    lemma_frame_parts(s, bm);
    if valid_frame(t) {
        let bm2 = choose|bm2: BatchModel| frame_matches(t, bm2);
        lemma_frame_parts(t, bm2);
        assert(end >= 28);
        assert(t.subrange(4, 12) =~= s.subrange(4, 12)) by {
            assert forall|k: int| 0 <= k < 8 implies t.subrange(4, 12)[k] == s.subrange(4, 12)[k]
                by {
                assert(t[4 + k] == s[4 + k]);
            }
        }
        assert(le64((28 + body_bytes(bm2).len()) as u64) == le64(
            (28 + body_bytes(bm).len()) as u64,
        ));
        lemma_le64_injective(
            (28 + body_bytes(bm2).len()) as u64,
            (28 + body_bytes(bm).len()) as u64,
        );
        assert(t.len() == s.len());
        assert(false);
    }
}

/// Range correctness: inside a region pre-sized past the payload, the bytes
/// of the range `[0, end)` that the encoder reported are exactly the frame,
/// the same bytes an exactly-sized region holds — so both decode alike.
pub proof fn lemma_range_correctness(bm: BatchModel, pad: Seq<u8>)
    requires
        bm.wf(),
        fits(bm),
    ensures
        (spec_frame(bm) + pad).subrange(0, spec_frame(bm).len() as int) == spec_frame(bm),
        frame_matches((spec_frame(bm) + pad).subrange(0, spec_frame(bm).len() as int), bm),
{
    assert((spec_frame(bm) + pad).subrange(0, spec_frame(bm).len() as int) =~= spec_frame(bm));
}

} // verus!
