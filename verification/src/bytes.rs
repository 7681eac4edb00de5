use vstd::prelude::*;

verus! {

/// The four bytes of `x`, least significant first.
pub open spec fn le32(x: u32) -> Seq<u8> {
    seq![
        (x % 256) as u8,
        ((x / 256) % 256) as u8,
        ((x / 65536) % 256) as u8,
        ((x / 16777216) % 256) as u8,
    ]
}

/// The number whose bytes, least significant first, are the first four of `b`.
pub open spec fn from_le32(b: Seq<u8>) -> int {
    b[0] + 256 * b[1] + 65536 * b[2] + 16777216 * b[3]
}

/// Decoding the four little-endian bytes of `x` gives `x` back.
pub proof fn lemma_le32_roundtrip(x: u32)
    ensures
        le32(x).len() == 4,
        from_le32(le32(x)) == x,
{
    let b = le32(x);
    assert(b[0] == x % 256);
    assert(b[1] == (x / 256) % 256);
    assert(b[2] == (x / 65536) % 256);
    assert(b[3] == (x / 16777216) % 256);
    assert(x == x % 256 + 256 * ((x / 256) % 256) + 65536 * ((x / 65536) % 256) + 16777216 * (
    (x / 16777216) % 256)) by (nonlinear_arith);
}

/// The little-endian bytes of `x`.
pub fn u32_le_bytes(x: u32) -> (r: [u8; 4])
    ensures
        r@ == le32(x),
{
    let r = [(x % 256) as u8, ((x / 256) % 256) as u8, ((x / 65536) % 256) as u8, ((x / 16777216) % 256) as u8];
    assert(r@ =~= le32(x));
    r
}

/// The eight bytes of `x`, least significant first.
#[verifier::opaque]
pub open spec fn le64(x: u64) -> Seq<u8> {
    seq![
        (x % 0x100) as u8,
        ((x / 0x100) % 0x100) as u8,
        ((x / 0x1_0000) % 0x100) as u8,
        ((x / 0x100_0000) % 0x100) as u8,
        ((x / 0x1_0000_0000) % 0x100) as u8,
        ((x / 0x100_0000_0000) % 0x100) as u8,
        ((x / 0x1_0000_0000_0000) % 0x100) as u8,
        ((x / 0x100_0000_0000_0000) % 0x100) as u8,
    ]
}

/// The eight bytes of `x` in the given byte order (most significant first when `big`).
pub open spec fn ne64(x: u64, big: bool) -> Seq<u8> {
    if big { le64(x).reverse() } else { le64(x) }
}

/// The number whose bytes, least significant first, are the first eight of `b`.
#[verifier::opaque]
pub open spec fn from_le64(b: Seq<u8>) -> int {
    b[0] + 0x100 * (b[1] + 0x100 * (b[2] + 0x100 * (b[3] + 0x100 * (b[4] + 0x100 * (b[5] + 0x100 * (b[6]
        + 0x100 * b[7]))))))
}

/// The number whose bytes are the first eight of `b` in the given byte order.
pub open spec fn from_ne64(b: Seq<u8>, big: bool) -> int {
    if big { from_le64(b.subrange(0, 8).reverse()) } else { from_le64(b) }
}

/// Decoding the eight bytes of `x`, in either byte order, gives `x` back.
pub proof fn lemma_ne64_roundtrip(x: u64, big: bool)
    ensures
        ne64(x, big).len() == 8,
        from_ne64(ne64(x, big), big) == x,
{
    reveal(le64);
    reveal(from_le64);
    let b = le64(x);
    let xi = x as int;
    assert(xi == xi % 0x100 + 0x100 * (xi / 0x100)) by (nonlinear_arith);
    assert(xi / 0x100 == (xi / 0x100) % 0x100 + 0x100 * (xi / 0x1_0000)) by (nonlinear_arith)
        requires xi >= 0;
    assert(xi / 0x1_0000 == (xi / 0x1_0000) % 0x100 + 0x100 * (xi / 0x100_0000)) by (nonlinear_arith)
        requires xi >= 0;
    assert(xi / 0x100_0000 == (xi / 0x100_0000) % 0x100 + 0x100 * (xi / 0x1_0000_0000)) by (nonlinear_arith)
        requires xi >= 0;
    assert(xi / 0x1_0000_0000 == (xi / 0x1_0000_0000) % 0x100 + 0x100 * (xi / 0x100_0000_0000))
        by (nonlinear_arith)
        requires xi >= 0;
    assert(xi / 0x100_0000_0000 == (xi / 0x100_0000_0000) % 0x100 + 0x100 * (xi / 0x1_0000_0000_0000))
        by (nonlinear_arith)
        requires xi >= 0;
    assert(xi / 0x1_0000_0000_0000 == (xi / 0x1_0000_0000_0000) % 0x100 + 0x100 * (xi
        / 0x100_0000_0000_0000)) by (nonlinear_arith)
        requires xi >= 0;
    assert(xi / 0x100_0000_0000_0000 == (xi / 0x100_0000_0000_0000) % 0x100) by (nonlinear_arith)
        requires 0 <= xi < 0x1_0000_0000_0000_0000;
    assert(from_le64(b) == x);
    if big {
        assert(ne64(x, big).subrange(0, 8).reverse() =~= b);
    }
}

/// The eight bytes of `x` in the given byte order.
pub fn u64_ne_bytes(x: u64, big: bool) -> (r: [u8; 8])
    ensures
        r@ == ne64(x, big),
{
    reveal(le64);
    let b0 = (x % 0x100) as u8;
    let b1 = ((x / 0x100) % 0x100) as u8;
    let b2 = ((x / 0x1_0000) % 0x100) as u8;
    let b3 = ((x / 0x100_0000) % 0x100) as u8;
    let b4 = ((x / 0x1_0000_0000) % 0x100) as u8;
    let b5 = ((x / 0x100_0000_0000) % 0x100) as u8;
    let b6 = ((x / 0x1_0000_0000_0000) % 0x100) as u8;
    let b7 = ((x / 0x100_0000_0000_0000) % 0x100) as u8;
    if big {
        let r = [b7, b6, b5, b4, b3, b2, b1, b0];
        assert(r@ =~= ne64(x, big));
        r
    } else {
        let r = [b0, b1, b2, b3, b4, b5, b6, b7];
        assert(r@ =~= ne64(x, big));
        r
    }
}

/// The number whose eight bytes, in the given byte order, start at `at` in `b`.
pub fn u64_from_ne_bytes(b: &[u8], at: usize, big: bool) -> (r: u64)
    requires
        at + 8 <= b@.len(),
    ensures
        r == from_ne64(b@.subrange(at as int, at + 8), big),
{
    reveal(from_le64);
    let ghost s = b@.subrange(at as int, at + 8);
    let n = b.len();
    assert(at + 8 <= n);
    let (c0, c1, c2, c3, c4, c5, c6, c7) = if big {
        (b[at + 7], b[at + 6], b[at + 5], b[at + 4], b[at + 3], b[at + 2], b[at + 1], b[at])
    } else {
        (b[at], b[at + 1], b[at + 2], b[at + 3], b[at + 4], b[at + 5], b[at + 6], b[at + 7])
    };
    let v7 = c7 as u64;
    let v6 = c6 as u64 + 0x100 * v7;
    let v5 = c5 as u64 + 0x100 * v6;
    let v4 = c4 as u64 + 0x100 * v5;
    let v3 = c3 as u64 + 0x100 * v4;
    let v2 = c2 as u64 + 0x100 * v3;
    let v1 = c1 as u64 + 0x100 * v2;
    let v0 = c0 as u64 + 0x100 * v1;
    proof {
        if big {
            assert(s.subrange(0, 8).reverse() =~= seq![c0, c1, c2, c3, c4, c5, c6, c7]);
        } else {
            assert(s =~= seq![c0, c1, c2, c3, c4, c5, c6, c7]);
        }
    }
    v0
}

} // verus!
