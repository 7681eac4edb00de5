use vstd::prelude::*;

verus! {

/// What a mesh attribute holds.
#[derive(Clone, Copy, Debug, PartialEq, Eq, Structural)]
pub enum Aus {
    POSITION,
    NORMAL,
    UV,
    INDICES,
    OTHER,
}

/// The attribute names that carry a meaning of their own.
pub open spec fn position_name() -> Seq<u8> {
    seq![80u8, 79, 83, 73, 84, 73, 79, 78]
}

pub open spec fn normal_name() -> Seq<u8> {
    seq![78u8, 79, 82, 77, 65, 76]
}

pub open spec fn texcoord_name() -> Seq<u8> {
    seq![84u8, 69, 88, 67, 79, 79, 82, 68, 95, 48]
}

/// The use of a glTF vertex attribute with the given name: `POSITION`, `NORMAL` and
/// `TEXCOORD_0` are understood, any other name is of no use here.
pub open spec fn use_of_name(name: Seq<u8>) -> Aus {
    if name == position_name() {
        Aus::POSITION
    } else if name == normal_name() {
        Aus::NORMAL
    } else if name == texcoord_name() {
        Aus::UV
    } else {
        Aus::OTHER
    }
}

pub(crate) fn bytes_equal(a: &[u8], b: &[u8]) -> (r: bool)
    ensures
        r == (a@ == b@),
{
    if a.len() != b.len() {
        return false;
    }
    let mut i: usize = 0;
    while i < a.len()
        invariant
            a@.len() == b@.len(),
            i <= a@.len(),
            a@.take(i as int) == b@.take(i as int),
        decreases a@.len() - i,
    {
        if a[i] != b[i] {
            assert(a@[i as int] != b@[i as int]);
            return false;
        }
        assert(a@.take(i + 1) == a@.take(i as int).push(a@[i as int]));
        assert(b@.take(i + 1) == b@.take(i as int).push(b@[i as int]));
        i += 1;
    }
    assert(a@ == a@.take(i as int));
    assert(b@ == b@.take(i as int));
    true
}

/// The use of a glTF vertex attribute, from its name.
pub fn attribute_use(name: &[u8]) -> (r: Aus)
    ensures
        r == use_of_name(name@),
{
    let position: [u8; 8] = [80, 79, 83, 73, 84, 73, 79, 78];
    let normal: [u8; 6] = [78, 79, 82, 77, 65, 76];
    let texcoord: [u8; 10] = [84, 69, 88, 67, 79, 79, 82, 68, 95, 48];
    assert(position@ == position_name());
    assert(normal@ == normal_name());
    assert(texcoord@ == texcoord_name());
    if bytes_equal(name, position.as_slice()) {
        Aus::POSITION
    } else if bytes_equal(name, normal.as_slice()) {
        Aus::NORMAL
    } else if bytes_equal(name, texcoord.as_slice()) {
        Aus::UV
    } else {
        Aus::OTHER
    }
}

/// The index of the last attribute of use `k` among the first `n`, or 0 when there is none.
pub open spec fn last_use(uses: Seq<Aus>, k: Aus, n: int) -> int
    decreases n,
{
    if n <= 0 {
        0
    } else if uses[n - 1] == k {
        n - 1
    } else {
        last_use(uses, k, n - 1)
    }
}

/// The attributes that a mesh's vertices are read from: the last position, normal, texture
/// coordinate and index attribute, in that order, each 0 when the mesh has none.
pub fn pick_attribute_slots(uses: &Vec<Aus>) -> (r: (usize, usize, usize, usize))
    ensures
        r.0 == last_use(uses@, Aus::POSITION, uses@.len() as int),
        r.1 == last_use(uses@, Aus::NORMAL, uses@.len() as int),
        r.2 == last_use(uses@, Aus::UV, uses@.len() as int),
        r.3 == last_use(uses@, Aus::INDICES, uses@.len() as int),
{
    let mut pi: usize = 0;
    let mut ni: usize = 0;
    let mut uvi: usize = 0;
    let mut ii: usize = 0;
    let mut i: usize = 0;
    while i < uses.len()
        invariant
            i <= uses@.len(),
            pi == last_use(uses@, Aus::POSITION, i as int),
            ni == last_use(uses@, Aus::NORMAL, i as int),
            uvi == last_use(uses@, Aus::UV, i as int),
            ii == last_use(uses@, Aus::INDICES, i as int),
        decreases uses@.len() - i,
    {
        let u = uses[i];
        if u == Aus::INDICES {
            ii = i;
        } else if u == Aus::POSITION {
            pi = i;
        } else if u == Aus::UV {
            uvi = i;
        } else if u == Aus::NORMAL {
            ni = i;
        }
        i += 1;
    }
    (pi, ni, uvi, ii)
}

/// The number of entries from `a` up to `b`: none when `b` is not past `a`.
pub open spec fn span(a: int, b: int) -> nat {
    if b > a { (b - a) as nat } else { 0 }
}

/// The components of the triples `v[idx[i] - base]` for `i` from `a` up to `b`, one after
/// the other.
pub open spec fn gather3<T>(v: Seq<[T; 3]>, idx: Seq<u32>, a: int, b: int, base: int) -> Seq<T> {
    Seq::new(3 * span(a, b), |k: int| v[idx[a + k / 3] - base]@[k % 3])
}

/// The components of the pairs `v[idx[i] - base]` for `i` from `a` up to `b`, one after
/// the other.
pub open spec fn gather2<T>(v: Seq<[T; 2]>, idx: Seq<u32>, a: int, b: int, base: int) -> Seq<T> {
    Seq::new(2 * span(a, b), |k: int| v[idx[a + k / 2] - base]@[k % 2])
}

/// Whether `idx[i] - base` picks an element of a table of `len` entries for every `i` from
/// `a` up to `b`.
pub open spec fn picks_ok(idx: Seq<u32>, a: int, b: int, base: int, len: nat) -> bool {
    forall|i: int| a <= i < b ==> 0 <= i < idx.len() && base <= #[trigger] idx[i] < len + base
}

fn push_gathered3<T: Copy>(
    out: &mut Vec<T>,
    v: &Vec<[T; 3]>,
    idx: &Vec<u32>,
    a: usize,
    b: usize,
    base: u32,
)
    requires
        base <= 1,
        picks_ok(idx@, a as int, b as int, base as int, v@.len()),
    ensures
        final(out)@ == old(out)@ + gather3(v@, idx@, a as int, b as int, base as int),
{
    let ghost start = out@;
    let mut i: usize = a;
    while i < b
        invariant
            base <= 1,
            picks_ok(idx@, a as int, b as int, base as int, v@.len()),
            out@ == start + gather3(v@, idx@, a as int, if i < b { i as int } else { b as int }, base as int),
            i >= a,
        decreases b - i,
    {
        assert(base <= idx@[i as int] < v@.len() + base);
        let e: [T; 3] = v[(idx[i] - base) as usize];
        out.push(e[0]);
        out.push(e[1]);
        out.push(e[2]);
        let ghost g = gather3(v@, idx@, a as int, i + 1, base as int);
        assert(g.len() == 3 * (i + 1 - a));
        assert(g == gather3(v@, idx@, a as int, i as int, base as int) + seq![e@[0], e@[1], e@[2]]);
        i += 1;
    }
    assert(out@ == start + gather3(v@, idx@, a as int, b as int, base as int));
}

fn push_gathered2<T: Copy>(
    out: &mut Vec<T>,
    v: &Vec<[T; 2]>,
    idx: &Vec<u32>,
    a: usize,
    b: usize,
    base: u32,
)
    requires
        base <= 1,
        picks_ok(idx@, a as int, b as int, base as int, v@.len()),
    ensures
        final(out)@ == old(out)@ + gather2(v@, idx@, a as int, b as int, base as int),
{
    let ghost start = out@;
    let mut i: usize = a;
    while i < b
        invariant
            base <= 1,
            picks_ok(idx@, a as int, b as int, base as int, v@.len()),
            out@ == start + gather2(v@, idx@, a as int, if i < b { i as int } else { b as int }, base as int),
            i >= a,
        decreases b - i,
    {
        assert(base <= idx@[i as int] < v@.len() + base);
        let e: [T; 2] = v[(idx[i] - base) as usize];
        out.push(e[0]);
        out.push(e[1]);
        let ghost g = gather2(v@, idx@, a as int, i + 1, base as int);
        assert(g == gather2(v@, idx@, a as int, i as int, base as int) + seq![e@[0], e@[1]]);
        i += 1;
    }
    assert(out@ == start + gather2(v@, idx@, a as int, b as int, base as int));
}

/// The vertex buffer of an indexed mesh: the position of every indexed vertex, then its
/// texture coordinate, then its normal.
pub open spec fn indexed_vertices<T>(
    pos: Seq<[T; 3]>,
    uv: Seq<[T; 2]>,
    nrm: Seq<[T; 3]>,
    idx: Seq<u32>,
) -> Seq<T> {
    gather3(pos, idx, 0, idx.len() as int, 0) + gather2(uv, idx, 0, idx.len() as int, 0)
        + gather3(nrm, idx, 0, idx.len() as int, 0)
}

/// Lays out the vertices of an indexed mesh as the renderer takes them: all positions,
/// then all texture coordinates, then all normals, each looked up by the index buffer.
pub fn assemble_indexed_vertices<T: Copy>(
    pos: &Vec<[T; 3]>,
    uv: &Vec<[T; 2]>,
    nrm: &Vec<[T; 3]>,
    idx: &Vec<u32>,
) -> (r: Vec<T>)
    requires
        forall|i: int|
            0 <= i < idx@.len() ==> #[trigger] idx@[i] < pos@.len() && idx@[i] < uv@.len()
                && idx@[i] < nrm@.len(),
    ensures
        r@ == indexed_vertices(pos@, uv@, nrm@, idx@),
{
    let mut out: Vec<T> = Vec::new();
    let n = idx.len();
    push_gathered3(&mut out, pos, idx, 0, n, 0);
    push_gathered2(&mut out, uv, idx, 0, n, 0);
    push_gathered3(&mut out, nrm, idx, 0, n, 0);
    assert(out@ == seq![] + gather3(pos@, idx@, 0, n as int, 0) + gather2(uv@, idx@, 0, n as int, 0)
        + gather3(nrm@, idx@, 0, n as int, 0));
    out
}

/// Where the index entries of object `j` end in index list `c`: at the next object's start,
/// or at the end of the list for the last object.
pub open spec fn object_end(starts: Seq<[usize; 3]>, ends: [usize; 3], j: int, c: int) -> int {
    if j + 1 < starts.len() { starts[j + 1]@[c] as int } else { ends@[c] as int }
}

/// The vertex buffer of object `j` of a Wavefront model: the positions its faces name, then
/// their texture coordinates, then their normals, the face indices counting from 1.
pub open spec fn object_vertices<T>(
    vert: Seq<[T; 3]>,
    uv: Seq<[T; 2]>,
    norm: Seq<[T; 3]>,
    ivert: Seq<u32>,
    iuv: Seq<u32>,
    inorm: Seq<u32>,
    starts: Seq<[usize; 3]>,
    j: int,
) -> Seq<T> {
    let ends = [ivert.len() as usize, iuv.len() as usize, inorm.len() as usize];
    gather3(vert, ivert, starts[j]@[0] as int, object_end(starts, ends, j, 0), 1)
        + gather2(uv, iuv, starts[j]@[1] as int, object_end(starts, ends, j, 1), 1)
        + gather3(norm, inorm, starts[j]@[2] as int, object_end(starts, ends, j, 2), 1)
}

/// Whether every face index of every object names an existing position, texture coordinate
/// and normal.
pub open spec fn objects_ok<T>(
    vert: Seq<[T; 3]>,
    uv: Seq<[T; 2]>,
    norm: Seq<[T; 3]>,
    ivert: Seq<u32>,
    iuv: Seq<u32>,
    inorm: Seq<u32>,
    starts: Seq<[usize; 3]>,
) -> bool {
    forall|j: int|
        0 <= j < starts.len() ==> #[trigger] object_ok(vert, uv, norm, ivert, iuv, inorm, starts, j)
}

/// Whether every face index of object `j` names an existing entry.
pub open spec fn object_ok<T>(
    vert: Seq<[T; 3]>,
    uv: Seq<[T; 2]>,
    norm: Seq<[T; 3]>,
    ivert: Seq<u32>,
    iuv: Seq<u32>,
    inorm: Seq<u32>,
    starts: Seq<[usize; 3]>,
    j: int,
) -> bool {
    let ends = [ivert.len() as usize, iuv.len() as usize, inorm.len() as usize];
    &&& picks_ok(ivert, starts[j]@[0] as int, object_end(starts, ends, j, 0), 1, vert.len())
    &&& picks_ok(iuv, starts[j]@[1] as int, object_end(starts, ends, j, 1), 1, uv.len())
    &&& picks_ok(inorm, starts[j]@[2] as int, object_end(starts, ends, j, 2), 1, norm.len())
}

/// Builds the vertex buffer of each object of a Wavefront model from the parsed positions,
/// texture coordinates, normals and face indices (counting from 1); object `j` owns the
/// face indices from its recorded start up to the next object's start.
pub fn assemble_obj_objects<T: Copy>(
    vert: &Vec<[T; 3]>,
    uv: &Vec<[T; 2]>,
    norm: &Vec<[T; 3]>,
    ivert: &Vec<u32>,
    iuv: &Vec<u32>,
    inorm: &Vec<u32>,
    object_starts: &Vec<[usize; 3]>,
) -> (r: Vec<Vec<T>>)
    requires
        objects_ok(vert@, uv@, norm@, ivert@, iuv@, inorm@, object_starts@),
    ensures
        r@.len() == object_starts@.len(),
        forall|j: int|
            0 <= j < r@.len() ==> (#[trigger] r@[j])@ == object_vertices(
                vert@,
                uv@,
                norm@,
                ivert@,
                iuv@,
                inorm@,
                object_starts@,
                j,
            ),
{
    let ends: [usize; 3] = [ivert.len(), iuv.len(), inorm.len()];
    let mut objects: Vec<Vec<T>> = Vec::new();
    let mut j: usize = 0;
    while j < object_starts.len()
        invariant
            j <= object_starts@.len(),
            ends@ == seq![ivert@.len() as usize, iuv@.len() as usize, inorm@.len() as usize],
            objects_ok(vert@, uv@, norm@, ivert@, iuv@, inorm@, object_starts@),
            objects@.len() == j,
            forall|k: int|
                0 <= k < j ==> (#[trigger] objects@[k])@ == object_vertices(
                    vert@,
                    uv@,
                    norm@,
                    ivert@,
                    iuv@,
                    inorm@,
                    object_starts@,
                    k,
                ),
        decreases object_starts@.len() - j,
    {
        let s: [usize; 3] = object_starts[j];
        let e: [usize; 3] = if j + 1 < object_starts.len() {
            object_starts[j + 1]
        } else {
            ends
        };
        let ghost ends_s = [ivert@.len() as usize, iuv@.len() as usize, inorm@.len() as usize];
        assert(ends_s@ == ends@);
        assert(e@[0] == object_end(object_starts@, ends_s, j as int, 0));
        assert(e@[1] == object_end(object_starts@, ends_s, j as int, 1));
        assert(e@[2] == object_end(object_starts@, ends_s, j as int, 2));
        assert(s@[0] == object_starts@[j as int]@[0]);
        assert(object_ok(vert@, uv@, norm@, ivert@, iuv@, inorm@, object_starts@, j as int));
        let mut fnvrt: Vec<T> = Vec::new();
        push_gathered3(&mut fnvrt, vert, ivert, s[0], e[0], 1);
        push_gathered2(&mut fnvrt, uv, iuv, s[1], e[1], 1);
        push_gathered3(&mut fnvrt, norm, inorm, s[2], e[2], 1);
        assert(fnvrt@ == object_vertices(vert@, uv@, norm@, ivert@, iuv@, inorm@, object_starts@, j as int));
        objects.push(fnvrt);
        j += 1;
    }
    objects
}

fn picks_fit(idx: &Vec<u32>, a: usize, b: usize, base: u32, len: usize) -> (r: bool)
    requires
        base <= 1,
    ensures
        r == picks_ok(idx@, a as int, b as int, base as int, len as nat),
{
    let mut i: usize = a;
    while i < b
        invariant
            base <= 1,
            a <= i,
            i == a || i <= idx@.len(),
            picks_ok(idx@, a as int, i as int, base as int, len as nat),
        decreases b - i,
    {
        if i >= idx.len() {
            assert(!(0 <= i < idx@.len()));
            return false;
        }
        let v = idx[i];
        if v < base || (v - base) as usize >= len {
            assert(!(base <= idx@[i as int] < len + base));
            return false;
        }
        assert forall|j: int| a <= j < i + 1 implies 0 <= j < idx@.len() && base <= #[trigger] idx@[j] < len + base by {
            if j < i {
                assert(picks_ok(idx@, a as int, i as int, base as int, len as nat));
            }
        }
        i += 1;
    }
    assert(i >= b);
    assert forall|j: int| a <= j < b implies 0 <= j < idx@.len() && base <= #[trigger] idx@[j] < len + base by {
        assert(a <= j < i);
        assert(picks_ok(idx@, a as int, i as int, base as int, len as nat));
        assert(base <= idx@[j] < len + base);
    }
    assert(picks_ok(idx@, a as int, b as int, base as int, len as nat));
    true
}

/// Whether every index names an entry of all three tables, as `assemble_indexed_vertices`
/// needs.
pub fn indices_fit<T>(pos: &Vec<[T; 3]>, uv: &Vec<[T; 2]>, nrm: &Vec<[T; 3]>, idx: &Vec<u32>) -> (r: bool)
    ensures
        r == forall|i: int|
            0 <= i < idx@.len() ==> #[trigger] idx@[i] < pos@.len() && idx@[i] < uv@.len()
                && idx@[i] < nrm@.len(),
{
    let mut i: usize = 0;
    while i < idx.len()
        invariant
            i <= idx@.len(),
            forall|j: int|
                0 <= j < i ==> #[trigger] idx@[j] < pos@.len() && idx@[j] < uv@.len() && idx@[j]
                    < nrm@.len(),
        decreases idx@.len() - i,
    {
        let v = idx[i] as usize;
        if v >= pos.len() || v >= uv.len() || v >= nrm.len() {
            return false;
        }
        i += 1;
    }
    true
}

/// Whether every face index of every object names an existing entry, as
/// `assemble_obj_objects` needs.
pub fn objects_fit<T>(
    vert: &Vec<[T; 3]>,
    uv: &Vec<[T; 2]>,
    norm: &Vec<[T; 3]>,
    ivert: &Vec<u32>,
    iuv: &Vec<u32>,
    inorm: &Vec<u32>,
    object_starts: &Vec<[usize; 3]>,
) -> (r: bool)
    ensures
        r == objects_ok(vert@, uv@, norm@, ivert@, iuv@, inorm@, object_starts@),
{
    let ends: [usize; 3] = [ivert.len(), iuv.len(), inorm.len()];
    let ghost ends_s = [ivert@.len() as usize, iuv@.len() as usize, inorm@.len() as usize];
    assert(ends_s@ == ends@);
    let mut j: usize = 0;
    while j < object_starts.len()
        invariant
            j <= object_starts@.len(),
            ends@ == ends_s@,
            ends_s == [ivert@.len() as usize, iuv@.len() as usize, inorm@.len() as usize],
            forall|m: int|
                0 <= m < j ==> #[trigger] object_ok(vert@, uv@, norm@, ivert@, iuv@, inorm@, object_starts@, m),
        decreases object_starts@.len() - j,
    {
        let s: [usize; 3] = object_starts[j];
        let e: [usize; 3] = if j + 1 < object_starts.len() {
            object_starts[j + 1]
        } else {
            ends
        };
        assert(e@[0] == object_end(object_starts@, ends_s, j as int, 0));
        assert(e@[1] == object_end(object_starts@, ends_s, j as int, 1));
        assert(e@[2] == object_end(object_starts@, ends_s, j as int, 2));
        assert(s@ == object_starts@[j as int]@);
        let s0 = s[0];
        let s1 = s[1];
        let s2 = s[2];
        let e0 = e[0];
        let e1 = e[1];
        let e2 = e[2];
        assert(s0 == object_starts@[j as int]@[0] && s1 == object_starts@[j as int]@[1] && s2
            == object_starts@[j as int]@[2]);
        assert(e0 == e@[0] && e1 == e@[1] && e2 == e@[2]);
        let f0 = picks_fit(ivert, s0, e0, 1, vert.len());
        let f1 = picks_fit(iuv, s1, e1, 1, uv.len());
        let f2 = picks_fit(inorm, s2, e2, 1, norm.len());
        if !f0 || !f1 || !f2 {
            assert(!object_ok(vert@, uv@, norm@, ivert@, iuv@, inorm@, object_starts@, j as int));
            return false;
        }
        assert(object_ok(vert@, uv@, norm@, ivert@, iuv@, inorm@, object_starts@, j as int));
        j += 1;
    }
    true
}

} // verus!
