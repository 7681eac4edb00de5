use vstd::prelude::*;

verus! {

/// The component types of glTF accessors.
#[derive(Clone, Copy, PartialEq, Eq, Structural)]
pub enum GLtypes {
    SignedByte,
    UnsignedByte,
    SignedShort,
    UnsignedShort,
    UnsignedInt,
    Float,
}

/// The kind of a chunk of a binary glTF file.
#[derive(Clone, Copy, PartialEq, Eq, Structural)]
pub enum ChunkType {
    JSON,
    BIN,
}

/// One chunk of a binary glTF file: its kind and its bytes.
pub struct GlChunk {
    pub chunk_type: ChunkType,
    pub data: Vec<u8>,
}

/// The distance from `i` to the end of `d`, or 0 past the end.
pub open spec fn rest(d: Seq<u8>, i: int) -> nat {
    if i >= d.len() { 0 } else { (d.len() - i) as nat }
}

/// The little-endian 32-bit number at `i`.
pub open spec fn u32_le_at(d: Seq<u8>, i: int) -> int {
    d[i] + 256 * d[i + 1] + 65536 * d[i + 2] + 16777216 * d[i + 3]
}

/// Whether the chunk header at `i` names a JSON chunk.
pub open spec fn is_json_at(d: Seq<u8>, i: int) -> bool {
    d[i + 4] == 0x4a && d[i + 5] == 0x53 && d[i + 6] == 0x4f && d[i + 7] == 0x4e
}

/// The chunks of a binary glTF file from position `i` on: each is a four-byte
/// little-endian length, a four-byte type (`JSON` or anything else, taken as binary), and
/// that many bytes of data.
pub open spec fn glb_chunks(d: Seq<u8>, i: int) -> Seq<(ChunkType, Seq<u8>)>
    decreases rest(d, i),
{
    if i < 0 || i >= d.len() {
        seq![]
    } else {
        let cl = u32_le_at(d, i);
        let kind = if is_json_at(d, i) { ChunkType::JSON } else { ChunkType::BIN };
        let data = if cl == 0 { seq![] } else { d.subrange(i + 8, i + 8 + cl) };
        seq![(kind, data)] + glb_chunks(d, i + 8 + cl)
    }
}

/// Whether reading the chunks from `i` on stays inside `d`: each header is present as
/// far as it is read, and each chunk's data ends inside `d`.
pub open spec fn glb_ok(d: Seq<u8>, i: int) -> bool
    decreases rest(d, i),
{
    if i < 0 || i >= d.len() {
        true
    } else {
        &&& i + 4 < d.len()
        &&& d[i + 4] == 0x4a ==> i + 5 < d.len()
        &&& d[i + 4] == 0x4a && d[i + 5] == 0x53 ==> i + 6 < d.len()
        &&& d[i + 4] == 0x4a && d[i + 5] == 0x53 && d[i + 6] == 0x4f ==> i + 7 < d.len()
        &&& i + 8 + u32_le_at(d, i) <= usize::MAX
        &&& u32_le_at(d, i) > 0 ==> i + 8 + u32_le_at(d, i) <= d.len()
        &&& glb_ok(d, i + 8 + u32_le_at(d, i))
    }
}

/// The abstract contents of a list of chunks.
pub open spec fn chunks_view(c: Seq<GlChunk>) -> Seq<(ChunkType, Seq<u8>)> {
    c.map_values(|g: GlChunk| (g.chunk_type, g.data@))
}

/// Splits a binary glTF file into its chunks, starting after the 12-byte file header.
pub fn split_glb_chunks(rglb: &[u8]) -> (r: Vec<GlChunk>)
    requires
        glb_ok(rglb@, 12),
    ensures
        chunks_view(r@) == glb_chunks(rglb@, 12),
{
    let ghost d = rglb@;
    let n = rglb.len();
    let mut chunks: Vec<GlChunk> = Vec::new();
    let mut i: usize = 12;
    while i < n
        invariant
            d == rglb@,
            n == d.len(),
            glb_ok(d, i as int),
            glb_chunks(d, 12) == chunks_view(chunks@) + glb_chunks(d, i as int),
        decreases rest(d, i as int),
    {
        let cl = (rglb[i] as u32) + (rglb[i + 1] as u32) * 256 + (rglb[i + 2] as u32) * 65536 + (rglb[i + 3] as u32)
            * 16777216;
        let kind = if rglb[i + 4] == 0x4a && rglb[i + 5] == 0x53 && rglb[i + 6] == 0x4f && rglb[i + 7] == 0x4e {
            ChunkType::JSON
        } else {
            ChunkType::BIN
        };
        i += 8;
        let ti = i;
        let end = ti + cl as usize;
        let mut data: Vec<u8> = Vec::new();
        let mut j: usize = ti;
        while j < end
            invariant
                d == rglb@,
                n == d.len(),
                ti <= j <= end,
                end == ti + cl,
                cl > 0 ==> end <= n && data@ == d.subrange(ti as int, j as int),
                cl == 0 ==> data@ == Seq::<u8>::empty(),
            decreases end - j,
        {
            data.push(rglb[j]);
            j += 1;
            assert(data@ =~= d.subrange(ti as int, j as int));
        }
        let ghost before = chunks@;
        chunks.push(GlChunk { chunk_type: kind, data });
        let ghost cdata = if cl == 0 { Seq::<u8>::empty() } else { d.subrange(ti as int, end as int) };
        assert(chunks_view(chunks@) =~= chunks_view(before) + seq![(kind, cdata)]);
        i += cl as usize;
    }
    assert(glb_chunks(d, i as int) =~= seq![]);
    assert(chunks_view(chunks@) + glb_chunks(d, i as int) =~= chunks_view(chunks@));
    chunks
}

/// The index of the last chunk of kind `k` among the first `n` of `c`, or `default` when
/// there is none.
pub open spec fn last_of_kind(c: Seq<GlChunk>, k: ChunkType, n: int, default: int) -> int
    decreases n,
{
    if n <= 0 {
        default
    } else if c[n - 1].chunk_type == k {
        n - 1
    } else {
        last_of_kind(c, k, n - 1, default)
    }
}

/// The indices of the binary and the JSON chunk: the last of each kind, or 1 and 0 when
/// there is none.
pub fn pick_chunks(chunks: &Vec<GlChunk>) -> (r: (usize, usize))
    ensures
        r.0 == last_of_kind(chunks@, ChunkType::BIN, chunks@.len() as int, 1),
        r.1 == last_of_kind(chunks@, ChunkType::JSON, chunks@.len() as int, 0),
{
    let mut bini: usize = 1;
    let mut jsoni: usize = 0;
    let mut i: usize = 0;
    while i < chunks.len()
        invariant
            i <= chunks@.len(),
            bini == last_of_kind(chunks@, ChunkType::BIN, i as int, 1),
            jsoni == last_of_kind(chunks@, ChunkType::JSON, i as int, 0),
        decreases chunks@.len() - i,
    {
        if chunks[i].chunk_type == ChunkType::BIN {
            bini = i;
        } else if chunks[i].chunk_type == ChunkType::JSON {
            jsoni = i;
        }
        i += 1;
    }
    (bini, jsoni)
}

/// A signed byte widened to 32 bits and read as unsigned.
pub open spec fn sext8(b: u8) -> u32 {
    if b < 128 { b as u32 } else { (b + 0xFFFF_FF00) as u32 }
}

/// A signed 16-bit number widened to 32 bits and read as unsigned.
pub open spec fn sext16(v: u16) -> u32 {
    if v < 0x8000 { v as u32 } else { (v + 0xFFFF_0000) as u32 }
}

/// The little-endian 16-bit number at `i`.
pub open spec fn u16_le_at(d: Seq<u8>, i: int) -> u16 {
    (d[i] + 256 * d[i + 1]) as u16
}

/// The indices that an index buffer of the given component type holds, as 32-bit numbers;
/// none for a float buffer.
pub open spec fn decoded_indices(d: Seq<u8>, ty: GLtypes) -> Seq<u32> {
    match ty {
        GLtypes::SignedByte => Seq::new(d.len(), |j: int| sext8(d[j])),
        GLtypes::UnsignedByte => Seq::new(d.len(), |j: int| d[j] as u32),
        GLtypes::SignedShort => Seq::new(d.len() / 2, |k: int| sext16(u16_le_at(d, 2 * k))),
        GLtypes::UnsignedShort => Seq::new(d.len() / 2, |k: int| u16_le_at(d, 2 * k) as u32),
        GLtypes::UnsignedInt => Seq::new(d.len() / 4, |k: int| u32_le_at(d, 4 * k) as u32),
        GLtypes::Float => seq![],
    }
}

/// Whether an index buffer of the given type has whole elements.
pub open spec fn indices_ok(d: Seq<u8>, ty: GLtypes) -> bool {
    match ty {
        GLtypes::SignedShort | GLtypes::UnsignedShort => d.len() % 2 == 0,
        GLtypes::UnsignedInt => d.len() % 4 == 0,
        _ => true,
    }
}

/// Decodes the little-endian elements of an index buffer of the given component type into
/// 32-bit indices, signed types wrapping as Rust's `as u32` does.
pub fn decode_indices(bytes: &[u8], ty: GLtypes) -> (r: Vec<u32>)
    requires
        indices_ok(bytes@, ty),
    ensures
        r@ == decoded_indices(bytes@, ty),
{
    let ghost d = bytes@;
    let n = bytes.len();
    let mut out: Vec<u32> = Vec::new();
    match ty {
        GLtypes::SignedByte | GLtypes::UnsignedByte => {
            let mut j: usize = 0;
            while j < n
                invariant
                    d == bytes@,
                    n == d.len(),
                    j <= n,
                    ty == GLtypes::SignedByte || ty == GLtypes::UnsignedByte,
                    out@ =~= decoded_indices(d, ty).take(j as int),
                decreases n - j,
            {
                let b = bytes[j];
                let v = if ty == GLtypes::SignedByte {
                    let w = (b as i8) as u32;
                    assert(w == if b < 128 { b as u32 } else { (b + 0xFFFF_FF00) as u32 }) by (bit_vector)
                        requires w == (b as i8) as u32;
                    w
                } else {
                    b as u32
                };
                out.push(v);
                j += 1;
                assert(out@ =~= decoded_indices(d, ty).take(j as int));
            }
            assert(decoded_indices(d, ty).take(j as int) =~= decoded_indices(d, ty));
        },
        GLtypes::SignedShort | GLtypes::UnsignedShort => {
            let mut k: usize = 0;
            while k < n / 2
                invariant
                    d == bytes@,
                    n == d.len(),
                    n % 2 == 0,
                    k <= n / 2,
                    ty == GLtypes::SignedShort || ty == GLtypes::UnsignedShort,
                    out@ =~= decoded_indices(d, ty).take(k as int),
                decreases n / 2 - k,
            {
                let a = bytes[2 * k];
                let c = bytes[2 * k + 1];
                let u: u16 = (a as u16) + (c as u16) * 256;
                assert(u == u16_le_at(d, 2 * k));
                let v = if ty == GLtypes::SignedShort {
                    let w = (u as i16) as u32;
                    assert(w == if u < 0x8000 { u as u32 } else { (u + 0xFFFF_0000) as u32 }) by (bit_vector)
                        requires w == (u as i16) as u32;
                    w
                } else {
                    u as u32
                };
                out.push(v);
                k += 1;
                assert(out@ =~= decoded_indices(d, ty).take(k as int));
            }
            assert(decoded_indices(d, ty).take(k as int) =~= decoded_indices(d, ty));
        },
        GLtypes::UnsignedInt => {
            let mut k: usize = 0;
            while k < n / 4
                invariant
                    d == bytes@,
                    n == d.len(),
                    n % 4 == 0,
                    k <= n / 4,
                    ty == GLtypes::UnsignedInt,
                    out@ =~= decoded_indices(d, ty).take(k as int),
                decreases n / 4 - k,
            {
                let p = 4 * k;
                let v = (bytes[p] as u32) + (bytes[p + 1] as u32) * 256 + (bytes[p + 2] as u32) * 65536
                    + (bytes[p + 3] as u32) * 16777216;
                out.push(v);
                k += 1;
                assert(out@ =~= decoded_indices(d, ty).take(k as int));
            }
            assert(decoded_indices(d, ty).take(k as int) =~= decoded_indices(d, ty));
        },
        GLtypes::Float => {
            assert(out@ =~= decoded_indices(d, ty));
        },
    }
    out
}

} // verus!
