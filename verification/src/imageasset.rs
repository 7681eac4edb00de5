use vstd::prelude::*;
use crate::json::texts;
use crate::obj::{dec_i32, fields, parse_i32, split_fields};

verus! {

/// Decoded image pixels, four signed bytes (red, green, blue, alpha) per pixel, and the
/// image size.
pub struct ImageAsset {
    pub data: Vec<i8>,
    pub size: [u32; 2],
}

/// Pixels of an image read from a portable pixmap, and its size.
pub struct ImageLoader {
    pub data: Vec<i8>,
    pub size: [u32; 2],
}

/// The first `n` pixels of packed three-byte color triples starting at `base`, each
/// widened to four signed bytes with a fully opaque alpha of 127.
pub open spec fn rgb_pixels(t: Seq<u8>, base: int, n: nat) -> Seq<i8>
    decreases n,
{
    if n == 0 {
        seq![]
    } else {
        let q = base + 3 * (n - 1);
        rgb_pixels(t, base, (n - 1) as nat) + seq![t[q] as i8, t[q + 1] as i8, t[q + 2] as i8, 127i8]
    }
}

/// The width that the loader reads from a TGA header: byte 12 shifted up by 16 bits and
/// byte 13 by 8 bits.
pub open spec fn tga_width(t: Seq<u8>) -> int {
    t[12] * 65536 + t[13] * 256
}

/// The height that the loader reads from a TGA header: byte 14 shifted up by 16 bits and
/// byte 15 by 8 bits.
pub open spec fn tga_height(t: Seq<u8>) -> int {
    t[14] * 65536 + t[15] * 256
}

/// Whether the TGA loader can read `t`: the header is present, the byte count of the
/// pixels fits in 32 bits, and the pixel bytes after the 18-byte header are present.
pub open spec fn tga_ok(t: Seq<u8>) -> bool {
    &&& t.len() >= 16
    &&& tga_width(t) * tga_height(t) * 3 <= u32::MAX
    &&& tga_width(t) * tga_height(t) > 0 ==> 18 + 3 * (tga_width(t) * tga_height(t)) <= t.len()
}

/// The little-endian 16-bit number at `i`.
pub open spec fn u16_at(t: Seq<u8>, i: int) -> int {
    t[i] + 256 * t[i + 1]
}

/// The little-endian 32-bit number at `i`.
pub open spec fn u32_at(t: Seq<u8>, i: int) -> int {
    t[i] + 256 * t[i + 1] + 65536 * t[i + 2] + 16777216 * t[i + 3]
}

/// The offset of the first image-file directory of a TIFF file.
pub open spec fn tiff_ifd(t: Seq<u8>) -> int {
    u32_at(t, 4)
}

/// The position of the first of `count` twelve-byte directory entries from `i` on whose
/// tag is 256 (the image width).
pub open spec fn tiff_width_entry(t: Seq<u8>, i: int, count: nat) -> Option<int>
    decreases count,
{
    if count == 0 {
        None
    } else if u16_at(t, i) == 256 {
        Some(i)
    } else {
        tiff_width_entry(t, i + 12, (count - 1) as nat)
    }
}

/// Whether the directory scan from `i` reads only bytes of `t`, and the width it finds
/// is not zero.
pub open spec fn tiff_scan_ok(t: Seq<u8>, i: int, count: nat) -> bool
    decreases count,
{
    if count == 0 {
        true
    } else {
        &&& i + 1 < t.len()
        &&& u16_at(t, i) == 256 ==> i + 11 < t.len() && u32_at(t, i + 8) != 0
        &&& u16_at(t, i) != 256 ==> tiff_scan_ok(t, i + 12, (count - 1) as nat)
    }
}

/// The number of pixels stored before the directory: one per three bytes after the
/// 8-byte header, the last one possibly partial.
pub open spec fn tiff_pixel_count(t: Seq<u8>) -> nat {
    ((tiff_ifd(t) - 8 + 2) / 3) as nat
}

/// Whether the TIFF loader can read `t`: the header and directory count are present, the
/// directory lies after the header and its end fits in 32 bits, the scan stays in bounds,
/// and the pixel bytes are present.
pub open spec fn tiff_ok(t: Seq<u8>) -> bool {
    &&& t.len() >= 8
    &&& tiff_ifd(t) >= 8
    &&& tiff_ifd(t) + 2 <= t.len()
    &&& tiff_ifd(t) + 2 + u16_at(t, tiff_ifd(t)) * 12 <= u32::MAX
    &&& tiff_scan_ok(t, tiff_ifd(t) + 2, u16_at(t, tiff_ifd(t)) as nat)
    &&& tiff_pixel_count(t) > 0 ==> 8 + 3 * (tiff_pixel_count(t) - 1) + 2 < t.len()
}

fn rgb_to_rgba(t: &[u8], base: u64, n: u64) -> (r: Vec<i8>)
    requires
        n > 0 ==> base + 3 * (n - 1) + 2 < t@.len(),
    ensures
        r@ == rgb_pixels(t@, base as int, n as nat),
{
    let mut data: Vec<i8> = Vec::new();
    let tl = t.len();
    let mut p: u64 = 0;
    while p < n
        invariant
            p <= n,
            tl == t@.len(),
            n > 0 ==> base + 3 * (n - 1) + 2 < t@.len(),
            data@ == rgb_pixels(t@, base as int, p as nat),
        decreases n - p,
    {
        let q = (base + 3 * p) as usize;
        data.push(t[q] as i8);
        data.push(t[q + 1] as i8);
        data.push(t[q + 2] as i8);
        data.push(127);
        p += 1;
        assert(data@ =~= rgb_pixels(t@, base as int, p as nat));
    }
    data
}

impl ImageAsset {
    /// Whether `parse_tga` can decode `tga`.
    pub fn tga_readable(tga: &[u8]) -> (r: bool)
        ensures
            r == tga_ok(tga@),
    {
        if tga.len() < 16 {
            return false;
        }
        let w = (tga[12] as u64) * 65536 + (tga[13] as u64) * 256;
        let h = (tga[14] as u64) * 65536 + (tga[15] as u64) * 256;
        assert(w * h <= 0xFFFF_FFFF_FFFF) by (nonlinear_arith)
            requires w <= 0xFF_FFFF, h <= 0xFF_FFFF;
        let n = w * h;
        if n * 3 > 0xFFFF_FFFF {
            return false;
        }
        n == 0 || 18 + 3 * n <= tga.len() as u64
    }

    /// Whether `parse_tiff` can decode `tiff`.
    pub fn tiff_readable(tiff: &[u8]) -> (r: bool)
        ensures
            r == tiff_ok(tiff@),
    {
        let ghost t = tiff@;
        let n = tiff.len();
        if n < 8 {
            return false;
        }
        let ifd = (tiff[7] as u64) * 16777216 + (tiff[6] as u64) * 65536 + (tiff[5] as u64) * 256 + (tiff[4] as u64);
        assert(ifd == tiff_ifd(t));
        if ifd < 8 || ifd + 2 > n as u64 {
            return false;
        }
        let io = ifd as usize;
        let cnt = (tiff[io + 1] as u64) * 256 + (tiff[io] as u64);
        assert(cnt == u16_at(t, tiff_ifd(t)));
        if ifd + 2 + cnt * 12 > 0xFFFF_FFFF {
            return false;
        }
        let mut i: u64 = ifd + 2;
        let mut left: u64 = cnt;
        while left > 0
            invariant
                t == tiff@,
                n == t.len(),
                i + 12 * left <= 0xFFFF_FFFF + 12,
                ifd == tiff_ifd(t),
                cnt == u16_at(t, tiff_ifd(t)),
                8 <= ifd,
                ifd + 2 <= n,
                ifd + 2 + cnt * 12 <= 0xFFFF_FFFF,
                tiff_scan_ok(t, ifd + 2, cnt as nat) == tiff_scan_ok(t, i as int, left as nat),
            decreases left,
        {
            if i + 1 >= n as u64 {
                assert(!tiff_scan_ok(t, i as int, left as nat));
                return false;
            }
            let iu = i as usize;
            let tag = (tiff[iu + 1] as u64) * 256 + (tiff[iu] as u64);
            assert(tag == u16_at(t, i as int));
            if tag == 256 {
                if i + 11 >= n as u64 {
                    assert(!tiff_scan_ok(t, i as int, left as nat));
                    return false;
                }
                let w = (tiff[iu + 11] as u64) * 16777216 + (tiff[iu + 10] as u64) * 65536 + (tiff[iu + 9] as u64) * 256
                    + (tiff[iu + 8] as u64);
                if w == 0 {
                    return false;
                }
                left = 0;
                assert(tiff_scan_ok(t, i as int, 0));
            } else {
                i = i + 12;
                left = left - 1;
            }
        }
        let pc = (ifd - 8 + 2) / 3;
        pc == 0 || 8 + 3 * (pc - 1) + 2 < n as u64
    }

    /// Decodes the bytes of a TGA file: the size from header bytes 12 to 15 and one pixel
    /// per color triple after the 18-byte header.
    pub fn parse_tga(tga: &[u8]) -> (r: ImageAsset)
        requires
            tga_ok(tga@),
        ensures
            r.size[0] == tga_width(tga@),
            r.size[1] == tga_height(tga@),
            r.data@ == rgb_pixels(tga@, 18, (tga_width(tga@) * tga_height(tga@)) as nat),
    {
        let w = (tga[12] as u32) * 65536 + (tga[13] as u32) * 256;
        let h = (tga[14] as u32) * 65536 + (tga[15] as u32) * 256;
        assert(w * h * 3 <= u32::MAX);
        assert(w * h <= u32::MAX) by (nonlinear_arith)
            requires w * h * 3 <= u32::MAX;
        let n = w * h;
        let sz = n * 3;
        let data = rgb_to_rgba(tga, 18, sz as u64 / 3);
        assert(sz as u64 / 3 == n);
        ImageAsset { data, size: [w, h] }
    }

    /// Decodes the bytes of an uncompressed TIFF file: the width from the first directory
    /// entry tagged 256 and the height as the stored pixel count over the width (both zero
    /// when no such entry exists), and one pixel per color triple between the 8-byte header
    /// and the directory.
    pub fn parse_tiff(tiff: &[u8]) -> (r: ImageAsset)
        requires
            tiff_ok(tiff@),
        ensures
            match tiff_width_entry(tiff@, tiff_ifd(tiff@) + 2, u16_at(tiff@, tiff_ifd(tiff@)) as nat) {
                Some(i) => r.size[0] == u32_at(tiff@, i + 8) && r.size[1] == ((tiff_ifd(tiff@) - 8) / 3) / u32_at(
                    tiff@,
                    i + 8,
                ),
                None => r.size[0] == 0 && r.size[1] == 0,
            },
            r.data@ == rgb_pixels(tiff@, 8, tiff_pixel_count(tiff@)),
    {
        let ghost t = tiff@;
        let mut size: [u32; 2] = [0, 0];
        let idfoffset: u32 = (tiff[7] as u32) * 16777216 + (tiff[6] as u32) * 65536 + (tiff[5] as u32) * 256
            + (tiff[4] as u32);
        let pixelcnt = (idfoffset - 8) / 3;
        let io = idfoffset as usize;
        let argcnt = (tiff[io + 1] as u32) * 256 + (tiff[io] as u32);
        let end = idfoffset + 2 + argcnt * 12;
        let mut i: u32 = idfoffset + 2;
        let ghost mut left: nat = argcnt as nat;
        while i < end
            invariant_except_break
                size[0] == 0 && size[1] == 0,
            invariant
                t == tiff@,
                tiff_ok(t),
                end == tiff_ifd(t) + 2 + u16_at(t, tiff_ifd(t)) * 12,
                i + 12 * left == end,
                pixelcnt == (tiff_ifd(t) - 8) / 3,
                tiff_scan_ok(t, i as int, left),
                tiff_width_entry(t, tiff_ifd(t) + 2, u16_at(t, tiff_ifd(t)) as nat) == tiff_width_entry(
                    t,
                    i as int,
                    left,
                ),
            ensures
                match tiff_width_entry(t, tiff_ifd(t) + 2, u16_at(t, tiff_ifd(t)) as nat) {
                    Some(k) => size[0] == u32_at(t, k + 8) && size[1] == (pixelcnt as int) / u32_at(t, k + 8),
                    None => size[0] == 0 && size[1] == 0,
                },
            decreases end - i,
        {
            let iu = i as usize;
            let tag = (tiff[iu + 1] as u16) * 256 + tiff[iu] as u16;
            if tag == 256 {
                size[0] = (tiff[iu + 11] as u32) * 16777216 + (tiff[iu + 10] as u32) * 65536 + (tiff[iu + 9] as u32)
                    * 256 + (tiff[iu + 8] as u32);
                size[1] = pixelcnt / size[0];
                break;
            }
            i = i + 12;
            proof {
                left = (left - 1) as nat;
            }
        }
        let data = rgb_to_rgba(tiff, 8, ((idfoffset - 8) as u64 + 2) / 3);
        ImageAsset { data, size }
    }
}

/// What the PPM reader does with one line of a file.
#[derive(Clone, Copy, Debug, PartialEq, Eq, Structural)]
pub enum PpmLine {
    /// The line is passed over: the line after a two-number size line, a comment, or `P6`.
    Skip,
    /// The line gives the image size.
    Size(u32, u32),
    /// The line is image data.
    Data,
}

/// The PPM reader's state: the size read so far, whether the next line is passed over,
/// what it made of each line, and whether it met a size line it cannot read.
pub struct PpmState {
    pub size: (u32, u32),
    pub skipline: bool,
    pub out: Seq<PpmLine>,
    pub failed: bool,
}

/// The magic word of a binary PPM file.
pub open spec fn p6_word() -> Seq<u8> {
    seq![80u8, 54]
}

/// Whether every space-separated field of a line reads as an `i32`.
pub open spec fn all_i32(f: Seq<Seq<u8>>) -> bool {
    forall|k: int| 0 <= k < f.len() ==> #[trigger] dec_i32(f[k]) is Some
}

/// What the PPM reader makes of one line. After a size line of fewer than three fields the
/// next line is passed over; comments (`#`) and `P6` are passed over; while the size is
/// still 0 by 0 a line is a size line, all of whose space-separated fields must read as
/// `i32` and of which there must be two at least (the first two, taken as `u32`, are the
/// size); any other line is image data.
pub open spec fn ppm_line(st: PpmState, line: Seq<u8>) -> PpmState {
    let f = fields(line, 32);
    if st.failed {
        st
    } else if st.skipline {
        PpmState { skipline: false, out: st.out.push(PpmLine::Skip), ..st }
    } else if (line.len() > 0 && line[0] == 35) || line == p6_word() {
        PpmState { out: st.out.push(PpmLine::Skip), ..st }
    } else if st.size == (0u32, 0u32) {
        if !all_i32(f) || f.len() < 2 {
            PpmState { failed: true, ..st }
        } else {
            let w = (dec_i32(f[0])->0) as u32;
            let h = (dec_i32(f[1])->0) as u32;
            PpmState { size: (w, h), skipline: f.len() < 3, out: st.out.push(PpmLine::Size(w, h)), ..st }
        }
    } else {
        PpmState { out: st.out.push(PpmLine::Data), ..st }
    }
}

/// The PPM reader's state after the first `n` lines.
pub open spec fn ppm_prefix(lines: Seq<Seq<u8>>, n: nat) -> PpmState
    decreases n,
{
    if n == 0 {
        PpmState { size: (0u32, 0u32), skipline: false, out: seq![], failed: false }
    } else {
        ppm_line(ppm_prefix(lines, (n - 1) as nat), lines[n - 1])
    }
}

proof fn lemma_ppm_failed_stays(lines: Seq<Seq<u8>>, n: nat, m: nat)
    requires
        n <= m,
        ppm_prefix(lines, n).failed,
    ensures
        ppm_prefix(lines, m).failed,
    decreases m - n,
{
    if n < m {
        lemma_ppm_failed_stays(lines, n, (m - 1) as nat);
    }
}

impl ImageLoader {
    /// Goes through the lines of a PPM file (without their line breaks) as the engine's PPM
    /// reader does, saying for each what it is, or `None` where a size line cannot be read.
    pub fn scan_ppm(lines: &Vec<Vec<u8>>) -> (r: Option<Vec<PpmLine>>)
        ensures
            match r {
                Some(v) => !ppm_prefix(texts(lines@), lines@.len()).failed && v@ == ppm_prefix(
                    texts(lines@),
                    lines@.len(),
                ).out,
                None => ppm_prefix(texts(lines@), lines@.len()).failed,
            },
    {
        let ghost ls = texts(lines@);
        let mut out: Vec<PpmLine> = Vec::new();
        let mut size: (u32, u32) = (0, 0);
        let mut skipline = false;
        let mut i: usize = 0;
        while i < lines.len()
            invariant
                ls == texts(lines@),
                i <= lines@.len(),
                ppm_prefix(ls, i as nat) == (PpmState { size: size, skipline: skipline, out: out@, failed: false }),
            decreases lines@.len() - i,
        {
            let line = &lines[i];
            assert(ls[i as int] == line@);
            let p6: [u8; 2] = [80, 54];
            assert(p6@ == p6_word());
            if skipline {
                skipline = false;
                out.push(PpmLine::Skip);
            } else if (line.len() > 0 && line[0] == 35) || crate::mesh::bytes_equal(line.as_slice(), p6.as_slice()) {
                out.push(PpmLine::Skip);
            } else if size.0 == 0 && size.1 == 0 {
                let f = split_fields(line, 32);
                let mut vals: Vec<i32> = Vec::new();
                let mut k: usize = 0;
                while k < f.len()
                    invariant
                        i < lines@.len(),
                        ls == texts(lines@),
                        ls[i as int] == line@,
                        texts(f@) == fields(line@, 32),
                        ppm_prefix(ls, i as nat) == (PpmState { size: size, skipline: skipline, out: out@, failed: false }),
                        size == (0u32, 0u32),
                        !skipline,
                        !((line@.len() > 0 && line@[0] == 35) || line@ == p6_word()),
                        k <= f@.len(),
                        vals@.len() == k,
                        forall|j: int| 0 <= j < k ==> dec_i32(#[trigger] f@[j]@) == Some(vals@[j]),
                    decreases f@.len() - k,
                {
                    match parse_i32(&f[k]) {
                        None => {
                            proof {
                                assert(texts(f@)[k as int] == f@[k as int]@);
                                assert(!all_i32(texts(f@)));
                                lemma_ppm_failed_stays(ls, (i + 1) as nat, ls.len());
                            }
                            return None;
                        },
                        Some(v) => {
                            vals.push(v);
                        },
                    }
                    k = k + 1;
                }
                assert forall|j: int| 0 <= j < texts(f@).len() implies #[trigger] dec_i32(texts(f@)[j]) is Some by {
                    assert(texts(f@)[j] == f@[j]@);
                }
                if f.len() < 2 {
                    proof {
                        lemma_ppm_failed_stays(ls, (i + 1) as nat, ls.len());
                    }
                    return None;
                }
                assert(texts(f@)[0] == f@[0]@);
                assert(texts(f@)[1] == f@[1]@);
                assert(dec_i32(f@[0]@) == Some(vals@[0]));
                assert(dec_i32(f@[1]@) == Some(vals@[1]));
                size = (vals[0] as u32, vals[1] as u32);
                skipline = f.len() < 3;
                out.push(PpmLine::Size(size.0, size.1));
            } else {
                out.push(PpmLine::Data);
            }
            i += 1;
        }
        Some(out)
    }
}

} // verus!
