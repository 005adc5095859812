//! The binary STL format: an 80-byte header, a count, and 50 bytes for
//! each triangle.
//!
//! Coordinates are taken and given as the bit patterns of 32-bit floating
//! point numbers.

use vstd::prelude::*;

verus! {

/// Bytes of the header.
pub const HEADER_LEN: usize = 80;

/// Bytes of the normal that opens a triangle record.
pub const NORM_LEN: usize = 12;

/// Bytes of one triangle record.
pub const RECORD_LEN: usize = 50;

/// `count` zero bytes.
pub open spec fn zeros(count: int) -> Seq<u8> {
    Seq::new(count as nat, |i: int| 0u8)
}

/// The four bytes of a number, lowest first.
pub open spec fn le_bytes(v: u32) -> Seq<u8> {
    seq![
        (v % 256) as u8,
        ((v / 256) % 256) as u8,
        ((v / 65536) % 256) as u8,
        (v / 16777216) as u8,
    ]
}

/// The number that four bytes, lowest first, stand for.
pub open spec fn from_le_bytes(b: Seq<u8>) -> u32 {
    (b[0] + 256 * b[1] + 65536 * b[2] + 16777216 * b[3]) as u32
}

/// Four bytes made from a number give the number back.
pub proof fn lemma_le_bytes_round_trip(v: u32)
    ensures
        le_bytes(v).len() == 4,
        from_le_bytes(le_bytes(v)) == v,
{
}

/// The nine numbers of a triangle as thirty-six bytes.
pub open spec fn coords_bytes(tri: Seq<u32>, k: int) -> Seq<u8>
    decreases k,
{
    if k <= 0 {
        Seq::empty()
    } else {
        coords_bytes(tri, k - 1) + le_bytes(tri[k - 1])
    }
}

/// The record of a triangle: a normal of zeros, the nine coordinates, and
/// two zero bytes of attributes.
pub open spec fn record(tri: Seq<u32>) -> Seq<u8> {
    zeros(12) + coords_bytes(tri, 9) + zeros(2)
}

/// `k` numbers take four bytes each.
pub proof fn lemma_coords_bytes_len(tri: Seq<u32>, k: int)
    requires
        k >= 0,
    ensures
        coords_bytes(tri, k).len() == 4 * k,
    decreases k,
{
    if k > 0 {
        lemma_coords_bytes_len(tri, k - 1);
    }
}

/// The records of the first `k` triangles of `tris`.
pub open spec fn records(tris: Seq<u32>, k: int) -> Seq<u8>
    decreases k,
{
    if k <= 0 {
        Seq::empty()
    } else {
        records(tris, k - 1) + record(tris.subrange(9 * (k - 1), 9 * k))
    }
}

/// `k` records take fifty bytes each.
pub proof fn lemma_records_len(tris: Seq<u32>, k: int)
    requires
        k >= 0,
    ensures
        records(tris, k).len() == 50 * k,
    decreases k,
{
    if k > 0 {
        lemma_records_len(tris, k - 1);
        lemma_coords_bytes_len(tris.subrange(9 * (k - 1), 9 * k), 9);
    }
}

/// The file for a list of triangles, nine coordinates each: a header of
/// zeros, the number of triangles, and their records.
pub open spec fn spec_stl(tris: Seq<u32>) -> Seq<u8> {
    zeros(80) + le_bytes((tris.len() / 9) as u32) + records(tris, tris.len() as int / 9)
}

fn push_zeros(w: &mut Vec<u8>, count: usize)
    ensures
        final(w)@ == old(w)@ + zeros(count as int),
{
    let mut i: usize = 0;
    assert(w@ =~= old(w)@ + zeros(0));
    while i < count
        invariant
            i <= count,
            w@ == old(w)@ + zeros(i as int),
        decreases count - i,
    {
        w.push(0);
        assert(w@ =~= old(w)@ + zeros(i + 1));
        i = i + 1;
    }
}

fn push_le_bytes(w: &mut Vec<u8>, v: u32)
    ensures
        final(w)@ == old(w)@ + le_bytes(v),
{
    w.push((v % 256) as u8);
    w.push(((v / 256) % 256) as u8);
    w.push(((v / 65536) % 256) as u8);
    w.push((v / 16777216) as u8);
    assert(w@ =~= old(w)@ + le_bytes(v));
}

/// Appends the record of one triangle.
pub fn write_triangle(w: &mut Vec<u8>, tri: &[u32])
    requires
        tri@.len() == 9,
    ensures
        final(w)@ == old(w)@ + record(tri@),
{
    push_zeros(w, NORM_LEN);
    let ghost head = w@;
    let mut k: usize = 0;
    assert(w@ =~= head + coords_bytes(tri@, 0));
    while k < 9
        invariant
            k <= 9,
            tri@.len() == 9,
            w@ == head + coords_bytes(tri@, k as int),
        decreases 9 - k,
    {
        push_le_bytes(w, tri[k]);
        assert(w@ =~= head + coords_bytes(tri@, k + 1));
        k = k + 1;
    }
    push_zeros(w, 2);
    assert(w@ =~= old(w)@ + record(tri@));
}

/// Appends the record of a flat triangle, given by the two coordinates of
/// each corner, lifted to the height `height`.
pub fn write_2d_triangle(w: &mut Vec<u8>, tri: &[u32], height: u32)
    requires
        tri@.len() == 6,
    ensures
        final(w)@ == old(w)@ + record(
            seq![tri@[0], tri@[1], height, tri@[2], tri@[3], height, tri@[4], tri@[5], height],
        ),
{
    let lifted: [u32; 9] = [tri[0], tri[1], height, tri[2], tri[3], height, tri[4], tri[5], height];
    assert(lifted@ =~= seq![
        tri@[0],
        tri@[1],
        height,
        tri@[2],
        tri@[3],
        height,
        tri@[4],
        tri@[5],
        height,
    ]);
    write_triangle(w, lifted.as_slice());
}

/// Appends the whole file for a list of triangles, nine coordinates each.
pub fn triangles_to_stl_writer(writer: &mut Vec<u8>, tris: &Vec<u32>)
    requires
        tris@.len() % 9 == 0,
        tris@.len() / 9 <= u32::MAX,
    ensures
        final(writer)@ == old(writer)@ + spec_stl(tris@),
        final(writer)@.len() == old(writer)@.len() + 84 + 50 * (tris@.len() / 9),
{
    let count: usize = tris.len() / 9;
    push_zeros(writer, HEADER_LEN);
    push_le_bytes(writer, count as u32);
    let ghost head = writer@;
    let mut k: usize = 0;
    assert(writer@ =~= head + records(tris@, 0));
    while k < count
        invariant
            k <= count,
            count == tris@.len() / 9,
            tris@.len() % 9 == 0,
            tris@.len() <= usize::MAX,
            writer@ == head + records(tris@, k as int),
        decreases count - k,
    {
        let ghost before = writer@;
        let tri = vstd::slice::slice_subrange(tris.as_slice(), 9 * k, 9 * k + 9);
        write_triangle(writer, tri);
        assert(writer@ =~= head + records(tris@, k + 1));
        k = k + 1;
    }
    proof {
        lemma_records_len(tris@, count as int);
        assert(writer@ =~= old(writer)@ + spec_stl(tris@));
    }
}

/// The coordinates that a record holds.
pub open spec fn record_coords(rec: Seq<u8>, k: int) -> Seq<u32>
    decreases k,
{
    if k <= 0 {
        Seq::empty()
    } else {
        record_coords(rec, k - 1).push(from_le_bytes(rec.subrange(12 + 4 * (k - 1), 12 + 4 * k)))
    }
}

/// The coordinates that the first `k` records after the count hold.
pub open spec fn parsed_upto(bytes: Seq<u8>, k: int) -> Seq<u32>
    decreases k,
{
    if k <= 0 {
        Seq::empty()
    } else {
        parsed_upto(bytes, k - 1) + record_coords(
            bytes.subrange(84 + 50 * (k - 1), 84 + 50 * k),
            9,
        )
    }
}

/// The triangles that a file holds, nine coordinates each; none when the
/// file is not as long as its count says. Header, normals and attributes
/// are passed over.
pub open spec fn spec_parse_stl(bytes: Seq<u8>) -> Option<Seq<u32>> {
    if bytes.len() < 84 {
        None
    } else {
        let count = from_le_bytes(bytes.subrange(80, 84)) as int;
        if bytes.len() != 84 + 50 * count {
            None
        } else {
            Some(parsed_upto(bytes, count))
        }
    }
}

fn read_le_bytes(bytes: &Vec<u8>, at: usize) -> (v: u32)
    requires
        at + 4 <= bytes@.len(),
    ensures
        v == from_le_bytes(bytes@.subrange(at as int, at + 4)),
{
    let _len: usize = bytes.len();
    let b0: u32 = bytes[at] as u32;
    let b1: u32 = bytes[at + 1] as u32;
    let b2: u32 = bytes[at + 2] as u32;
    let b3: u32 = bytes[at + 3] as u32;
    b0 + 256 * b1 + 65536 * b2 + 16777216 * b3
}

/// Reads the triangles of a file back.
pub fn parse_stl(bytes: &Vec<u8>) -> (r: Option<Vec<u32>>)
    ensures
        match r {
            Some(t) => spec_parse_stl(bytes@) == Some(t@),
            None => spec_parse_stl(bytes@) is None,
        },
{
    let n: usize = bytes.len();
    if n < 84 {
        return None;
    }
    let count: u32 = read_le_bytes(bytes, 80);
    if ((n - 84) as u64) != 50 * (count as u64) {
        return None;
    }
    let mut out: Vec<u32> = Vec::new();
    let mut k: usize = 0;
    while k < count as usize
        invariant
            k <= count,
            n == bytes@.len(),
            n == 84 + 50 * count,
            out@ == parsed_upto(bytes@, k as int),
        decreases count - k,
    {
        let ghost rec = bytes@.subrange(84 + 50 * k, 84 + 50 * (k + 1));
        let ghost before = out@;
        let mut c: usize = 0;
        while c < 9
            invariant
                c <= 9,
                k < count,
                n == bytes@.len(),
                n == 84 + 50 * count,
                rec == bytes@.subrange(84 + 50 * k, 84 + 50 * (k + 1)),
                out@ == before + record_coords(rec, c as int),
            decreases 9 - c,
        {
            let at: usize = 84 + 50 * k + 12 + 4 * c;
            let v: u32 = read_le_bytes(bytes, at);
            proof {
                assert(bytes@.subrange(at as int, at + 4) =~= rec.subrange(
                    12 + 4 * c,
                    12 + 4 * (c + 1),
                ));
            }
            out.push(v);
            assert(out@ =~= before + record_coords(rec, c + 1));
            c = c + 1;
        }
        k = k + 1;
    }
    Some(out)
}


/// The bytes of the `j`-th coordinate of a triangle stand in its record
/// at their place.
pub proof fn lemma_record_coord(tri: Seq<u32>, j: int)
    requires
        tri.len() == 9,
        0 <= j < 9,
    ensures
        record(tri).len() == 50,
        record(tri).subrange(12 + 4 * j, 12 + 4 * (j + 1)) == le_bytes(tri[j]),
{
    lemma_coords_bytes_len(tri, 9);
    lemma_coords_bytes_prefix(tri, j + 1, 9);
    lemma_coords_bytes_len(tri, j);
    lemma_coords_bytes_len(tri, j + 1);
    let all = coords_bytes(tri, 9);
    let upto = coords_bytes(tri, j + 1);
    assert(upto == coords_bytes(tri, j) + le_bytes(tri[j]));
    assert(all.subrange(0, 4 * (j + 1)) == upto);
    assert(record(tri).subrange(12 + 4 * j, 12 + 4 * (j + 1)) =~= le_bytes(tri[j])) by {
        assert forall|i: int| 0 <= i < 4 implies record(tri).subrange(
            12 + 4 * j,
            12 + 4 * (j + 1),
        )[i] == le_bytes(tri[j])[i] by {
            assert(record(tri)[12 + 4 * j + i] == all[4 * j + i]);
            assert(all[4 * j + i] == all.subrange(0, 4 * (j + 1))[4 * j + i]);
            assert(upto[4 * j + i] == le_bytes(tri[j])[i]);
        }
    }
}

/// The bytes of the first `k` coordinates open those of the first `m`.
pub proof fn lemma_coords_bytes_prefix(tri: Seq<u32>, k: int, m: int)
    requires
        0 <= k <= m,
    ensures
        coords_bytes(tri, m).len() == 4 * m,
        coords_bytes(tri, m).subrange(0, 4 * k) == coords_bytes(tri, k),
    decreases m,
{
    lemma_coords_bytes_len(tri, m);
    lemma_coords_bytes_len(tri, k);
    if k < m {
        lemma_coords_bytes_prefix(tri, k, m - 1);
        lemma_coords_bytes_len(tri, m - 1);
        assert(coords_bytes(tri, m).subrange(0, 4 * k) =~= coords_bytes(tri, m - 1).subrange(
            0,
            4 * k,
        ));
    } else {
        assert(coords_bytes(tri, m).subrange(0, 4 * k) =~= coords_bytes(tri, k));
    }
}

/// Reading the coordinates of a record gives the triangle it was made
/// from.
pub proof fn lemma_record_round_trip(tri: Seq<u32>, k: int)
    requires
        tri.len() == 9,
        0 <= k <= 9,
    ensures
        record_coords(record(tri), k) == tri.subrange(0, k),
    decreases k,
{
    if k > 0 {
        lemma_record_round_trip(tri, k - 1);
        lemma_record_coord(tri, k - 1);
        lemma_le_bytes_round_trip(tri[k - 1]);
        assert(record_coords(record(tri), k) =~= tri.subrange(0, k));
    } else {
        assert(record_coords(record(tri), k) =~= tri.subrange(0, k));
    }
}

/// The records of the first `k` triangles open those of the first `m`.
pub proof fn lemma_records_prefix(tris: Seq<u32>, k: int, m: int)
    requires
        0 <= k <= m,
    ensures
        records(tris, m).len() == 50 * m,
        records(tris, m).subrange(0, 50 * k) == records(tris, k),
    decreases m,
{
    lemma_records_len(tris, m);
    lemma_records_len(tris, k);
    if k < m {
        lemma_records_prefix(tris, k, m - 1);
        lemma_records_len(tris, m - 1);
        assert(records(tris, m).subrange(0, 50 * k) =~= records(tris, m - 1).subrange(0, 50 * k));
    } else {
        assert(records(tris, m).subrange(0, 50 * k) =~= records(tris, k));
    }
}

/// Writing triangles to a file and reading the file back gives the
/// triangles: every coordinate, bit for bit, in the same order.
pub proof fn lemma_stl_round_trip(tris: Seq<u32>)
    requires
        tris.len() % 9 == 0,
        tris.len() / 9 <= u32::MAX,
    ensures
        spec_parse_stl(spec_stl(tris)) == Some(tris),
{
    let count = tris.len() as int / 9;
    let bytes = spec_stl(tris);
    lemma_records_len(tris, count);
    lemma_le_bytes_round_trip(count as u32);
    assert(bytes.len() == 84 + 50 * count);
    assert(bytes.subrange(80, 84) =~= le_bytes(count as u32));
    lemma_parse_upto(tris, count);
    assert(tris.subrange(0, 9 * count) =~= tris);
}

/// Reading the first `k` records of a file gives the first `k` triangles
/// it was made from.
pub proof fn lemma_parse_upto(tris: Seq<u32>, k: int)
    requires
        tris.len() % 9 == 0,
        0 <= k <= tris.len() / 9,
    ensures
        parsed_upto(spec_stl(tris), k) == tris.subrange(0, 9 * k),
    decreases k,
{
    let count = tris.len() as int / 9;
    let bytes = spec_stl(tris);
    if k > 0 {
        lemma_parse_upto(tris, k - 1);
        let tri = tris.subrange(9 * (k - 1), 9 * k);
        lemma_records_prefix(tris, k, count);
        lemma_records_prefix(tris, k - 1, count);
        lemma_records_len(tris, k);
        lemma_records_len(tris, k - 1);
        lemma_coords_bytes_len(tri, 9);
        let rec = bytes.subrange(84 + 50 * (k - 1), 84 + 50 * k);
        assert(rec =~= record(tri)) by {
            let all = records(tris, count);
            let upto = records(tris, k);
            assert(upto == records(tris, k - 1) + record(tri));
            assert forall|i: int| 0 <= i < 50 implies rec[i] == record(tri)[i] by {
                assert(rec[i] == all[50 * (k - 1) + i]);
                assert(all[50 * (k - 1) + i] == all.subrange(0, 50 * k)[50 * (k - 1) + i]);
                assert(upto[50 * (k - 1) + i] == record(tri)[i]);
            }
        }
        lemma_record_round_trip(tri, 9);
        assert(tri.subrange(0, 9) =~= tri);
        assert(parsed_upto(bytes, k) =~= tris.subrange(0, 9 * k));
    } else {
        assert(parsed_upto(bytes, k) =~= tris.subrange(0, 9 * k));
    }
}

} // verus!
