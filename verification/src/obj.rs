use vstd::prelude::*;

use crate::json::{copy_bytes, lemma_texts_push, texts};
use crate::mesh::bytes_equal;

verus! {

/// The pieces of `s` between the separators, in order: one more piece than there are
/// separators, empty pieces included.
pub open spec fn fields(s: Seq<u8>, sep: u8) -> Seq<Seq<u8>>
    decreases s.len(),
{
    if s.len() == 0 {
        seq![seq![]]
    } else {
        let f = fields(s.drop_last(), sep);
        if s.last() == sep {
            f.push(seq![])
        } else {
            f.update(f.len() - 1, f.last().push(s.last()))
        }
    }
}

proof fn lemma_fields_nonempty(s: Seq<u8>, sep: u8)
    ensures
        fields(s, sep).len() >= 1,
    decreases s.len(),
{
    if s.len() > 0 {
        lemma_fields_nonempty(s.drop_last(), sep);
    }
}

/// Splits `s` at every `sep`.
pub fn split_fields(s: &Vec<u8>, sep: u8) -> (r: Vec<Vec<u8>>)
    ensures
        texts(r@) == fields(s@, sep),
{
    let mut out: Vec<Vec<u8>> = Vec::new();
    let mut cur: Vec<u8> = Vec::new();
    let mut i: usize = 0;
    assert(s@.take(0) =~= seq![]);
    while i < s.len()
        invariant
            i <= s@.len(),
            texts(out@).push(cur@) == fields(s@.take(i as int), sep),
        decreases s@.len() - i,
    {
        let c = s[i];
        let ghost before = fields(s@.take(i as int), sep);
        proof {
            lemma_fields_nonempty(s@.take(i as int), sep);
            assert(s@.take(i + 1).drop_last() =~= s@.take(i as int));
            assert(s@.take(i + 1).last() == c);
        }
        if c == sep {
            let mut done: Vec<u8> = Vec::new();
            std::mem::swap(&mut done, &mut cur);
            let ghost old_out = out@;
            out.push(done);
            proof {
                assert(texts(old_out.push(done)) =~= texts(old_out).push(done@));
                assert(texts(out@).push(cur@) =~= before.push(seq![]));
            }
        } else {
            cur.push(c);
            proof {
                assert(texts(out@).push(cur@) =~= before.update(before.len() - 1, before.last().push(c)));
            }
        }
        i += 1;
    }
    assert(s@.take(i as int) =~= s@);
    let ghost old_out = out@;
    out.push(cur);
    proof {
        assert(texts(old_out.push(cur)) =~= texts(old_out).push(cur@));
    }
    out
}

/// The value of a string of decimal digits.
pub open spec fn digits_value(d: Seq<u8>) -> int
    decreases d.len(),
{
    if d.len() == 0 {
        0
    } else {
        digits_value(d.drop_last()) * 10 + (d.last() - 48)
    }
}

/// Whether every byte is a decimal digit.
pub open spec fn all_digits(d: Seq<u8>) -> bool {
    forall|i: int| 0 <= i < d.len() ==> 48 <= #[trigger] d[i] <= 57
}

/// What Rust's `u32` parsing makes of a text: an optional `+` before at least one decimal
/// digit, and nothing else, of a value that fits in 32 bits.
pub open spec fn dec_u32(t: Seq<u8>) -> Option<u32> {
    let d = if t.len() > 1 && t[0] == 43 { t.drop_first() } else { t };
    if d.len() == 0 || !all_digits(d) || digits_value(d) > u32::MAX {
        None
    } else {
        Some(digits_value(d) as u32)
    }
}

proof fn lemma_digits_grow(d: Seq<u8>, i: int)
    requires
        all_digits(d),
        0 <= i <= d.len(),
    ensures
        digits_value(d.take(i)) <= digits_value(d),
        0 <= digits_value(d.take(i)),
    decreases d.len() - i,
{
    if i < d.len() {
        lemma_digits_grow(d, i + 1);
        assert(d.take(i + 1).drop_last() =~= d.take(i));
        assert(d.take(i + 1).last() == d[i]);
        assert(0 <= digits_value(d.take(i)) ==> digits_value(d.take(i)) <= digits_value(d.take(i + 1))) by (nonlinear_arith)
            requires
                digits_value(d.take(i + 1)) == digits_value(d.take(i)) * 10 + (d[i] - 48),
                48 <= d[i],
        ;
        lemma_digits_nonneg(d.take(i));
    } else {
        assert(d.take(i) =~= d);
        lemma_digits_nonneg(d);
    }
}

proof fn lemma_digits_nonneg(d: Seq<u8>)
    requires
        all_digits(d),
    ensures
        0 <= digits_value(d),
    decreases d.len(),
{
    if d.len() > 0 {
        lemma_digits_nonneg(d.drop_last());
    }
}

/// Reads a decimal number as Rust's `u32` parsing does, `None` where that fails.
pub fn parse_u32(t: &Vec<u8>) -> (r: Option<u32>)
    ensures
        r == dec_u32(t@),
{
    let start: usize = if t.len() > 1 && t[0] == 43 { 1 } else { 0 };
    let ghost d = if t@.len() > 1 && t@[0] == 43 { t@.drop_first() } else { t@ };
    assert(d =~= t@.subrange(start as int, t@.len() as int));
    if start == t.len() {
        return None;
    }
    let mut value: u64 = 0;
    let mut i: usize = start;
    while i < t.len()
        invariant
            start <= i <= t@.len(),
            d == t@.subrange(start as int, t@.len() as int),
            d == (if t@.len() > 1 && t@[0] == 43 { t@.drop_first() } else { t@ }),
            all_digits(d.take(i - start)),
            value == digits_value(d.take(i - start)),
            value <= u32::MAX,
        decreases t@.len() - i,
    {
        let c = t[i];
        let ghost k = i - start;
        assert(d[k] == c);
        if c < 48 || c > 57 {
            assert(!all_digits(d));
            assert(dec_u32(t@) is None);
            return None;
        }
        assert(d.take(k + 1).drop_last() =~= d.take(k));
        assert(d.take(k + 1).last() == c);
        let next: u64 = value * 10 + (c - 48) as u64;
        assert(all_digits(d.take(k + 1)));
        if next > 4294967295 {
            proof {
                assert(next == digits_value(d.take(k + 1)));
                if all_digits(d) {
                    lemma_digits_grow(d, k + 1);
                    assert(digits_value(d) > u32::MAX);
                }
                assert(dec_u32(t@) is None);
            }
            return None;
        }
        value = next;
        i += 1;
    }
    assert(d.take(i - start) =~= d);
    Some(value as u32)
}

/// The word that names a material library.
pub open spec fn mtllib_word() -> Seq<u8> {
    seq![109u8, 116, 108, 108, 105, 98]
}

/// Index `c` of the slash-separated group in field `k` of a face line, as a number.
pub open spec fn face_part(spl: Seq<Seq<u8>>, k: int, c: int) -> Option<u32> {
    let parts = fields(spl[k], 47);
    if parts.len() <= c {
        None
    } else {
        dec_u32(parts[c])
    }
}

/// Whether a face line has three vertex groups of three readable indices each.
pub open spec fn face_ok(spl: Seq<Seq<u8>>) -> bool {
    &&& spl.len() >= 4
    &&& forall|k: int, c: int| 1 <= k <= 3 && 0 <= c <= 2 ==> #[trigger] face_part(spl, k, c) is Some
}

/// Index `c` of each of the three vertex groups of a face line.
pub open spec fn face_column(spl: Seq<Seq<u8>>, c: int) -> Seq<u32> {
    seq![face_part(spl, 1, c)->0, face_part(spl, 2, c)->0, face_part(spl, 3, c)->0]
}

/// What has been read of a Wavefront model: the coordinate texts of positions (three per
/// position), texture coordinates (two each) and normals (three each), the face indices,
/// where each object's face indices start, and the material libraries named.
pub struct ObjState {
    pub positions: Seq<Seq<u8>>,
    pub uvs: Seq<Seq<u8>>,
    pub normals: Seq<Seq<u8>>,
    pub ivert: Seq<u32>,
    pub iuv: Seq<u32>,
    pub inorm: Seq<u32>,
    pub starts: Seq<[usize; 3]>,
    pub mtllibs: Seq<Seq<u8>>,
    pub failed: bool,
}

pub open spec fn obj_empty() -> ObjState {
    ObjState {
        positions: seq![],
        uvs: seq![],
        normals: seq![],
        ivert: seq![],
        iuv: seq![],
        inorm: seq![],
        starts: seq![],
        mtllibs: seq![],
        failed: false,
    }
}

/// What one line of a Wavefront model adds. Comment lines (`#`) add nothing; `mtllib`
/// names a material library; `o ` starts an object; `v `, `vt` and `vn` give a position,
/// a texture coordinate and a normal; `f ` gives a triangle as three
/// position/texture/normal index groups. An empty line, a line of one `o`, `v` or `f`, or
/// one that lacks the fields its kind needs, cannot be read.
pub open spec fn obj_line(st: ObjState, line: Seq<u8>) -> ObjState {
    let spl = fields(line, 32);
    let fail = ObjState { failed: true, ..st };
    if st.failed {
        st
    } else if line.len() > 0 && line[0] == 35 {
        st
    } else if spl[0] == mtllib_word() {
        if spl.len() < 2 {
            fail
        } else {
            ObjState { mtllibs: st.mtllibs.push(spl[1]), ..st }
        }
    } else if line.len() == 0 {
        fail
    } else if line[0] == 111 {
        if line.len() < 2 {
            fail
        } else if line[1] == 32 {
            ObjState {
                starts: st.starts.push(
                    [st.ivert.len() as usize, st.iuv.len() as usize, st.inorm.len() as usize],
                ),
                ..st
            }
        } else {
            st
        }
    } else if line[0] == 118 {
        if line.len() < 2 {
            fail
        } else if line[1] == 32 {
            if spl.len() < 4 {
                fail
            } else {
                ObjState { positions: st.positions + seq![spl[1], spl[2], spl[3]], ..st }
            }
        } else if line[1] == 116 {
            if spl.len() < 3 {
                fail
            } else {
                ObjState { uvs: st.uvs + seq![spl[1], spl[2]], ..st }
            }
        } else if line[1] == 110 {
            if spl.len() < 4 {
                fail
            } else {
                ObjState { normals: st.normals + seq![spl[1], spl[2], spl[3]], ..st }
            }
        } else {
            st
        }
    } else if line[0] == 102 {
        if line.len() < 2 {
            fail
        } else if line[1] == 32 {
            if !face_ok(spl) {
                fail
            } else {
                ObjState {
                    ivert: st.ivert + face_column(spl, 0),
                    iuv: st.iuv + face_column(spl, 1),
                    inorm: st.inorm + face_column(spl, 2),
                    ..st
                }
            }
        } else {
            st
        }
    } else {
        st
    }
}

/// What the first `n` lines of a model give.
pub open spec fn obj_prefix(lines: Seq<Seq<u8>>, n: nat) -> ObjState
    decreases n,
{
    if n == 0 {
        obj_empty()
    } else {
        obj_line(obj_prefix(lines, (n - 1) as nat), lines[n - 1])
    }
}

/// What a whole model gives.
pub open spec fn obj_read(lines: Seq<Seq<u8>>) -> ObjState {
    obj_prefix(lines, lines.len())
}

/// A Wavefront model as read from its lines, coordinates still as text.
pub struct ObjData {
    pub positions: Vec<Vec<u8>>,
    pub uvs: Vec<Vec<u8>>,
    pub normals: Vec<Vec<u8>>,
    pub ivert: Vec<u32>,
    pub iuv: Vec<u32>,
    pub inorm: Vec<u32>,
    pub object_starts: Vec<[usize; 3]>,
    pub mtllibs: Vec<Vec<u8>>,
}

impl View for ObjData {
    type V = ObjState;

    open spec fn view(&self) -> ObjState {
        ObjState {
            positions: texts(self.positions@),
            uvs: texts(self.uvs@),
            normals: texts(self.normals@),
            ivert: self.ivert@,
            iuv: self.iuv@,
            inorm: self.inorm@,
            starts: self.object_starts@,
            mtllibs: texts(self.mtllibs@),
            failed: false,
        }
    }
}

impl ObjData {
    fn push_text(list: &mut Vec<Vec<u8>>, t: &Vec<u8>)
        ensures
            texts(final(list)@) == texts(old(list)@).push(t@),
    {
        let c = copy_bytes(t);
        let ghost before = list@;
        list.push(c);
        proof {
            lemma_texts_push(before, c);
        }
    }

    /// The three indices of one column of a face line, or `None` where one cannot be read.
    fn face_numbers(spl: &Vec<Vec<u8>>, c: usize) -> (r: Option<[u32; 3]>)
        requires
            spl@.len() >= 4,
            c <= 2,
        ensures
            match r {
                Some(a) => face_part(texts(spl@), 1, c as int) == Some(a[0]) && face_part(texts(spl@), 2, c as int)
                    == Some(a[1]) && face_part(texts(spl@), 3, c as int) == Some(a[2]),
                None => !face_ok(texts(spl@)),
            },
    {
        let mut out: [u32; 3] = [0, 0, 0];
        let mut k: usize = 1;
        while k <= 3
            invariant
                spl@.len() >= 4,
                c <= 2,
                1 <= k <= 4,
                forall|j: int| 0 <= j < k - 1 ==> face_part(texts(spl@), j + 1, c as int) == Some(#[trigger] out@[j]),
            decreases 4 - k,
        {
            let parts = split_fields(&spl[k], 47);
            assert(texts(spl@)[k as int] == spl@[k as int]@);
            if parts.len() <= c {
                assert(face_part(texts(spl@), k as int, c as int) is None);
                return None;
            }
            assert(texts(parts@)[c as int] == parts@[c as int]@);
            match parse_u32(&parts[c]) {
                None => {
                    assert(face_part(texts(spl@), k as int, c as int) is None);
                    return None;
                },
                Some(v) => {
                    out[k - 1] = v;
                },
            }
            k += 1;
        }
        assert(face_part(texts(spl@), 1, c as int) == Some(out@[0]));
        assert(face_part(texts(spl@), 2, c as int) == Some(out@[1]));
        assert(face_part(texts(spl@), 3, c as int) == Some(out@[2]));
        Some(out)
    }

    fn read_line(&mut self, line: &Vec<u8>) -> (ok: bool)
        ensures
            ok == !obj_line(old(self)@, line@).failed,
            ok ==> final(self)@ == obj_line(old(self)@, line@),
    {
        if line.len() > 0 && line[0] == 35 {
            return true;
        }
        let spl = split_fields(line, 32);
        proof {
            lemma_fields_nonempty(line@, 32);
        }
        assert(texts(spl@)[0] == spl@[0]@);
        let word: [u8; 6] = [109, 116, 108, 108, 105, 98];
        assert(word@ == mtllib_word());
        if bytes_equal(spl[0].as_slice(), word.as_slice()) {
            if spl.len() < 2 {
                return false;
            }
            assert(texts(spl@)[1] == spl@[1]@);
            ObjData::push_text(&mut self.mtllibs, &spl[1]);
            return true;
        }
        if line.len() == 0 {
            return false;
        }
        let c0 = line[0];
        if c0 == 111 {
            if line.len() < 2 {
                return false;
            }
            if line[1] == 32 {
                let at: [usize; 3] = [self.ivert.len(), self.iuv.len(), self.inorm.len()];
                self.object_starts.push(at);
            }
            return true;
        }
        if c0 == 118 {
            if line.len() < 2 {
                return false;
            }
            let c1 = line[1];
            if c1 == 32 || c1 == 110 {
                if spl.len() < 4 {
                    return false;
                }
                assert(texts(spl@)[1] == spl@[1]@);
                assert(texts(spl@)[2] == spl@[2]@);
                assert(texts(spl@)[3] == spl@[3]@);
                if c1 == 32 {
                    let ghost before = texts(self.positions@);
                    ObjData::push_text(&mut self.positions, &spl[1]);
                    ObjData::push_text(&mut self.positions, &spl[2]);
                    ObjData::push_text(&mut self.positions, &spl[3]);
                    assert(texts(self.positions@) =~= before + seq![spl@[1]@, spl@[2]@, spl@[3]@]);
                } else {
                    let ghost before = texts(self.normals@);
                    ObjData::push_text(&mut self.normals, &spl[1]);
                    ObjData::push_text(&mut self.normals, &spl[2]);
                    ObjData::push_text(&mut self.normals, &spl[3]);
                    assert(texts(self.normals@) =~= before + seq![spl@[1]@, spl@[2]@, spl@[3]@]);
                }
            } else if c1 == 116 {
                if spl.len() < 3 {
                    return false;
                }
                assert(texts(spl@)[1] == spl@[1]@);
                assert(texts(spl@)[2] == spl@[2]@);
                let ghost before = texts(self.uvs@);
                ObjData::push_text(&mut self.uvs, &spl[1]);
                ObjData::push_text(&mut self.uvs, &spl[2]);
                assert(texts(self.uvs@) =~= before + seq![spl@[1]@, spl@[2]@]);
            }
            return true;
        }
        if c0 == 102 {
            if line.len() < 2 {
                return false;
            }
            if line[1] == 32 {
                if spl.len() < 4 {
                    return false;
                }
                let posi = match ObjData::face_numbers(&spl, 0) {
                    Some(a) => a,
                    None => {
                        return false;
                    },
                };
                let uvi = match ObjData::face_numbers(&spl, 1) {
                    Some(a) => a,
                    None => {
                        return false;
                    },
                };
                let normali = match ObjData::face_numbers(&spl, 2) {
                    Some(a) => a,
                    None => {
                        return false;
                    },
                };
                assert(face_ok(texts(spl@)));
                let ghost s0 = self@;
                self.inorm.push(normali[0]);
                self.inorm.push(normali[1]);
                self.inorm.push(normali[2]);
                self.ivert.push(posi[0]);
                self.ivert.push(posi[1]);
                self.ivert.push(posi[2]);
                self.iuv.push(uvi[0]);
                self.iuv.push(uvi[1]);
                self.iuv.push(uvi[2]);
                assert(self.ivert@ =~= s0.ivert + face_column(texts(spl@), 0));
                assert(self.iuv@ =~= s0.iuv + face_column(texts(spl@), 1));
                assert(self.inorm@ =~= s0.inorm + face_column(texts(spl@), 2));
            }
            return true;
        }
        true
    }
}

proof fn lemma_obj_failed_stays(lines: Seq<Seq<u8>>, n: nat, m: nat)
    requires
        n <= m,
        obj_prefix(lines, n).failed,
    ensures
        obj_prefix(lines, m).failed,
    decreases m - n,
{
    if n < m {
        lemma_obj_failed_stays(lines, n, (m - 1) as nat);
    }
}

/// Reads a Wavefront model from its lines (without their line breaks), or `None` where a
/// line cannot be read.
pub fn read_obj_lines(lines: &Vec<Vec<u8>>) -> (r: Option<ObjData>)
    ensures
        match r {
            Some(d) => !obj_read(texts(lines@)).failed && d@ == obj_read(texts(lines@)),
            None => obj_read(texts(lines@)).failed,
        },
{
    let mut d = ObjData {
        positions: Vec::new(),
        uvs: Vec::new(),
        normals: Vec::new(),
        ivert: Vec::new(),
        iuv: Vec::new(),
        inorm: Vec::new(),
        object_starts: Vec::new(),
        mtllibs: Vec::new(),
    };
    assert(texts(d.positions@) =~= seq![]);
    assert(texts(d.uvs@) =~= seq![]);
    assert(texts(d.normals@) =~= seq![]);
    assert(texts(d.mtllibs@) =~= seq![]);
    assert(d@ == obj_empty());
    let ghost ls = texts(lines@);
    let mut i: usize = 0;
    while i < lines.len()
        invariant
            ls == texts(lines@),
            i <= lines@.len(),
            d@ == obj_prefix(ls, i as nat),
        decreases lines@.len() - i,
    {
        assert(ls[i as int] == lines@[i as int]@);
        if !d.read_line(&lines[i]) {
            proof {
                lemma_obj_failed_stays(ls, (i + 1) as nat, ls.len());
            }
            return None;
        }
        i += 1;
    }
    Some(d)
}

/// What Rust's `i32` parsing makes of a text: an optional `+` or `-` before at least one
/// decimal digit, and nothing else, of a value that fits in 32 signed bits.
pub open spec fn dec_i32(t: Seq<u8>) -> Option<i32> {
    let neg = t.len() > 1 && t[0] == 45;
    let d = if t.len() > 1 && (t[0] == 43 || t[0] == 45) { t.drop_first() } else { t };
    if d.len() == 0 || !all_digits(d) {
        None
    } else if neg {
        if digits_value(d) > 0x8000_0000 { None } else { Some((-digits_value(d)) as i32) }
    } else {
        if digits_value(d) > 0x7fff_ffff { None } else { Some(digits_value(d) as i32) }
    }
}

/// Reads a decimal number as Rust's `i32` parsing does, `None` where that fails.
pub fn parse_i32(t: &Vec<u8>) -> (r: Option<i32>)
    ensures
        r == dec_i32(t@),
{
    let signed = t.len() > 1 && (t[0] == 43 || t[0] == 45);
    let neg = t.len() > 1 && t[0] == 45;
    let start: usize = if signed { 1 } else { 0 };
    let ghost d = if t@.len() > 1 && (t@[0] == 43 || t@[0] == 45) { t@.drop_first() } else { t@ };
    assert(d =~= t@.subrange(start as int, t@.len() as int));
    if start == t.len() {
        return None;
    }
    let limit: u64 = if neg { 0x8000_0000 } else { 0x7fff_ffff };
    let mut value: u64 = 0;
    let mut i: usize = start;
    while i < t.len()
        invariant
            start <= i <= t@.len(),
            d == t@.subrange(start as int, t@.len() as int),
            d == (if t@.len() > 1 && (t@[0] == 43 || t@[0] == 45) { t@.drop_first() } else { t@ }),
            neg == (t@.len() > 1 && t@[0] == 45),
            limit == (if neg { 0x8000_0000u64 } else { 0x7fff_ffffu64 }),
            all_digits(d.take(i - start)),
            value == digits_value(d.take(i - start)),
            value <= limit,
        decreases t@.len() - i,
    {
        let c = t[i];
        let ghost k = i - start;
        assert(d[k] == c);
        if c < 48 || c > 57 {
            assert(!all_digits(d));
            assert(dec_i32(t@) is None);
            return None;
        }
        assert(d.take(k + 1).drop_last() =~= d.take(k));
        assert(d.take(k + 1).last() == c);
        let next: u64 = value * 10 + (c - 48) as u64;
        assert(all_digits(d.take(k + 1)));
        if next > limit {
            proof {
                assert(next == digits_value(d.take(k + 1)));
                if all_digits(d) {
                    lemma_digits_grow(d, k + 1);
                }
                assert(dec_i32(t@) is None);
            }
            return None;
        }
        value = next;
        i += 1;
    }
    assert(d.take(i - start) =~= d);
    if neg {
        if value == 0x8000_0000 {
            Some(-2147483648i32)
        } else {
            Some(-(value as i32))
        }
    } else {
        Some(value as i32)
    }
}

/// The slash-separated parts of vertex group `k` of a face line: its `k`-th
/// space-separated field split at `/`.
pub open spec fn group_parts(line: Seq<u8>, k: int) -> Seq<Seq<u8>> {
    fields(fields(line, 32)[k], 47)
}

/// The number written in part `c` of vertex group `k` of a face line.
pub open spec fn group_number(line: Seq<u8>, k: int, c: int) -> u32 {
    dec_u32(group_parts(line, k)[c])->0
}

/// A face line `f a/b/c d/e/f g/h/i` whose nine numbers can be read adds `a, d, g` to the
/// position indices, `b, e, h` to the texture-coordinate indices and `c, f, i` to the
/// normal indices, and changes nothing else.
pub proof fn lemma_face_line(st: ObjState, line: Seq<u8>)
    requires
        !st.failed,
        line.len() >= 2,
        line[0] == 102,
        line[1] == 32,
        fields(line, 32).len() >= 4,
        forall|k: int, c: int|
            1 <= k <= 3 && 0 <= c <= 2 ==> group_parts(line, k).len() > c && #[trigger] dec_u32(
                group_parts(line, k)[c],
            ) is Some,
    ensures
        !obj_line(st, line).failed,
        obj_line(st, line).ivert == st.ivert + seq![
            group_number(line, 1, 0),
            group_number(line, 2, 0),
            group_number(line, 3, 0),
        ],
        obj_line(st, line).iuv == st.iuv + seq![
            group_number(line, 1, 1),
            group_number(line, 2, 1),
            group_number(line, 3, 1),
        ],
        obj_line(st, line).inorm == st.inorm + seq![
            group_number(line, 1, 2),
            group_number(line, 2, 2),
            group_number(line, 3, 2),
        ],
        obj_line(st, line).positions == st.positions,
        obj_line(st, line).uvs == st.uvs,
        obj_line(st, line).normals == st.normals,
        obj_line(st, line).starts == st.starts,
        obj_line(st, line).mtllibs == st.mtllibs,
{
    let spl = fields(line, 32);
    assert forall|k: int, c: int| 1 <= k <= 3 && 0 <= c <= 2 implies #[trigger] face_part(spl, k, c) is Some
        && face_part(spl, k, c)->0 == group_number(line, k, c) by {
        assert(dec_u32(group_parts(line, k)[c]) is Some);
    }
    assert(face_ok(spl));
    assert(spl[0] != mtllib_word()) by {
        if spl[0] == mtllib_word() {
            lemma_first_field(line, 32);
            assert(spl[0][0] == 102);
        }
    }
    assert(face_column(spl, 0) =~= seq![group_number(line, 1, 0), group_number(line, 2, 0), group_number(line, 3, 0)]);
    assert(face_column(spl, 1) =~= seq![group_number(line, 1, 1), group_number(line, 2, 1), group_number(line, 3, 1)]);
    assert(face_column(spl, 2) =~= seq![group_number(line, 1, 2), group_number(line, 2, 2), group_number(line, 3, 2)]);
}

/// The first field of a line that does not start with the separator starts with the
/// line's first byte.
proof fn lemma_first_field(s: Seq<u8>, sep: u8)
    requires
        s.len() > 0,
        s[0] != sep,
    ensures
        fields(s, sep)[0].len() > 0,
        fields(s, sep)[0][0] == s[0],
    decreases s.len(),
{
    lemma_fields_nonempty(s, sep);
    if s.len() > 1 {
        lemma_first_field(s.drop_last(), sep);
        lemma_fields_nonempty(s.drop_last(), sep);
        let f = fields(s.drop_last(), sep);
        if s.last() != sep && f.len() == 1 {
            assert(f.last().push(s.last())[0] == f[0][0]);
        }
    } else {
        assert(s.drop_last() =~= Seq::<u8>::empty());
        assert(fields(s.drop_last(), sep) =~= seq![Seq::<u8>::empty()]);
    }
}

/// Reading one more line is reading the lines before it and then that line, so
/// `lemma_face_line` describes what `read_obj_lines` adds for each face line.
pub proof fn lemma_obj_read_push(lines: Seq<Seq<u8>>, line: Seq<u8>)
    ensures
        obj_read(lines.push(line)) == obj_line(obj_read(lines), line),
{
    let l2 = lines.push(line);
    assert(l2[l2.len() - 1] == line);
    lemma_obj_prefix_ext(lines, l2, lines.len());
}

proof fn lemma_obj_prefix_ext(a: Seq<Seq<u8>>, b: Seq<Seq<u8>>, n: nat)
    requires
        n <= a.len(),
        n <= b.len(),
        forall|i: int| 0 <= i < n ==> a[i] == b[i],
    ensures
        obj_prefix(a, n) == obj_prefix(b, n),
    decreases n,
{
    if n > 0 {
        lemma_obj_prefix_ext(a, b, (n - 1) as nat);
    }
}

} // verus!
