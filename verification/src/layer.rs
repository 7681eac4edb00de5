use vstd::prelude::*;
use crate::bytes::{from_le32, le32, lemma_le32_roundtrip, u32_le_bytes};

verus! {

/// Bytes below this value start a leaf record; the others start a branch record.
pub const BRANCH_MARKER: u8 = 100;

/// The distance from `i` to the end of `d`, or 0 past the end.
pub open spec fn rest(d: Seq<u8>, i: int) -> nat {
    if i >= d.len() { 0 } else { (d.len() - i) as nat }
}

/// The position of the record after the one that starts at `i`: a leaf record has five
/// bytes; a branch record has a marker, a count `n`, and `4 * n` slot bytes.
pub open spec fn next_record(d: Seq<u8>, i: int) -> int {
    if d[i] < BRANCH_MARKER {
        i + 5
    } else {
        i + 4 * d[i + 1] + 2
    }
}

/// Whether every branch record from `i` on has its count byte inside `d`.
pub open spec fn walk_ok(d: Seq<u8>, i: int) -> bool
    decreases rest(d, i),
{
    if i < 0 || i >= d.len() {
        true
    } else if d[i] < BRANCH_MARKER {
        walk_ok(d, i + 5)
    } else {
        i + 1 < d.len() && walk_ok(d, next_record(d, i))
    }
}

/// The start positions of the records of `d` from position `i` on.
pub open spec fn record_starts(d: Seq<u8>, i: int) -> Seq<int>
    decreases rest(d, i),
{
    if i < 0 || i >= d.len() {
        seq![]
    } else if d[i] < BRANCH_MARKER || i + 1 < d.len() {
        seq![i] + record_starts(d, next_record(d, i))
    } else {
        seq![i]
    }
}

/// Whether every branch record from `i` on has a count of at most 63 and all its slot
/// bytes inside `d`.
pub open spec fn fill_ok(d: Seq<u8>, i: int) -> bool
    decreases rest(d, i),
{
    if i < 0 || i >= d.len() {
        true
    } else if d[i] < BRANCH_MARKER {
        fill_ok(d, i + 5)
    } else {
        &&& i + 1 < d.len()
        &&& d[i + 1] <= 63
        &&& i + 4 * d[i + 1] + 2 <= d.len()
        &&& fill_ok(d, next_record(d, i))
    }
}

/// The start positions of the four-byte slots of the branch records of `d` from `i` on.
pub open spec fn slots(d: Seq<u8>, i: int) -> Seq<int>
    decreases rest(d, i),
{
    if i < 0 || i >= d.len() {
        seq![]
    } else if d[i] < BRANCH_MARKER {
        slots(d, i + 5)
    } else if i + 1 < d.len() {
        Seq::new(d[i + 1] as nat, |j: int| i + 2 + 4 * j) + slots(d, next_record(d, i))
    } else {
        seq![]
    }
}

/// The four bytes of `v` from position `pos` on.
pub open spec fn slot_bytes(v: Seq<u8>, pos: int) -> Seq<u8> {
    v.subrange(pos, pos + 4)
}

/// Whether position `p` lies in one of the slots `s`.
pub open spec fn in_slot(s: Seq<int>, p: int) -> bool {
    exists|k: int| 0 <= k < s.len() && #[trigger] s[k] <= p < s[k] + 4
}

/// The slot of `s` that holds position `p`.
pub open spec fn slot_of(s: Seq<int>, p: int) -> int {
    choose|k: int| 0 <= k < s.len() && #[trigger] s[k] <= p < s[k] + 4
}

/// `d` with the `k`-th slot of its branch records holding the little-endian bytes of `idx[k]`.
pub open spec fn filled(d: Seq<u8>, idx: Seq<u32>) -> Seq<u8> {
    let s = slots(d, 0);
    Seq::new(
        d.len(),
        |p: int|
            if in_slot(s, p) {
                le32(idx[slot_of(s, p)])[p - s[slot_of(s, p)]]
            } else {
                d[p]
            },
    )
}

/// The record offsets of `d` as 32-bit numbers.
pub open spec fn starts32(d: Seq<u8>) -> Seq<u32> {
    record_starts(d, 0).map_values(|v: int| v as u32)
}

/// The offsets of the records of a layer buffer, in order.
pub fn compute_raw_data_indices(packed_data: &mut Vec<u8>) -> (indices: Vec<u32>)
    requires
        walk_ok(old(packed_data)@, 0),
        old(packed_data)@.len() + 1024 <= usize::MAX,
    ensures
        final(packed_data)@ == old(packed_data)@,
        indices@.len() == record_starts(old(packed_data)@, 0).len(),
        forall|k: int|
            0 <= k < indices@.len() ==> indices@[k] == record_starts(old(packed_data)@, 0)[k] as u32,
{
    let ghost d = packed_data@;
    let mut indices: Vec<u32> = Vec::new();
    let ghost mut done: Seq<int> = seq![];
    let mut i: usize = 0;
    while i < packed_data.len()
        invariant
            packed_data@ == d,
            d.len() + 1024 <= usize::MAX,
            walk_ok(d, i as int),
            record_starts(d, 0) == done + record_starts(d, i as int),
            indices@.len() == done.len(),
            forall|k: int| 0 <= k < indices@.len() ==> indices@[k] == done[k] as u32,
        decreases rest(d, i as int),
    {
        if packed_data[i] < BRANCH_MARKER {
            indices.push(i as u32);
            proof {
                done = done.push(i as int);
            }
            i += 4;
        } else {
            indices.push(i as u32);
            proof {
                done = done.push(i as int);
            }
            let chn = packed_data[i + 1];
            i += (chn as usize) * 4 + 1;
        }
        i += 1;
        assert(record_starts(d, 0) =~= done + record_starts(d, i as int));
    }
    indices
}

/// Writes the little-endian bytes of `indices[k]` into the `k`-th slot of the branch
/// records of `packed_data`, leaving every other byte as it is.
pub fn fill_indices(packed_data: &mut Vec<u8>, indices: Vec<u32>)
    requires
        fill_ok(old(packed_data)@, 0),
        slots(old(packed_data)@, 0).len() <= indices@.len(),
        old(packed_data)@.len() + 1024 <= usize::MAX,
    ensures
        final(packed_data)@.len() == old(packed_data)@.len(),
        forall|k: int|
            0 <= k < slots(old(packed_data)@, 0).len() ==> #[trigger] slot_bytes(
                final(packed_data)@,
                slots(old(packed_data)@, 0)[k],
            ) == le32(indices@[k]),
        forall|p: int|
            0 <= p < old(packed_data)@.len() && !in_slot(slots(old(packed_data)@, 0), p)
                ==> final(packed_data)@[p] == old(packed_data)@[p],
        final(packed_data)@ == filled(old(packed_data)@, indices@),
{
    let ghost d = packed_data@;
    let ilen = indices.len();
    proof {
        lemma_slots_shape(d, 0);
    }
    let mut ii: usize = 0;
    let mut i: usize = 0;
    while i < packed_data.len()
        invariant
            packed_data@.len() == d.len(),
            d.len() + 1024 <= usize::MAX,
            fill_ok(d, i as int),
            slots(d, 0).len() <= indices@.len(),
            ilen == indices@.len(),
            forall|k: int| 0 <= k < slots(d, 0).len() ==> #[trigger] slots(d, 0)[k] >= 2,
            slots(d, 0) == slots(d, 0).take(ii as int) + slots(d, i as int),
            ii <= slots(d, 0).len(),
            forall|p: int| i <= p < d.len() ==> packed_data@[p] == d[p],
            forall|k: int| 0 <= k < ii ==> #[trigger] slots(d, 0)[k] + 4 <= i,
            forall|k: int|
                0 <= k < ii ==> #[trigger] slot_bytes(packed_data@, slots(d, 0)[k]) == le32(indices@[k]),
            forall|p: int|
                0 <= p < d.len() && !in_slot(slots(d, 0), p) ==> packed_data@[p] == d[p],
        decreases rest(d, i as int),
    {
        if packed_data[i] < BRANCH_MARKER {
            proof {
                assert(slots(d, i as int) == slots(d, i as int + 5));
            }
            i += 4;
        } else {
            let chn = packed_data[i + 1];
            let ghost ii0 = ii as int;
            let ghost s0 = slots(d, 0);
            let ghost next = next_record(d, i as int);
            proof {
                assert(slots(d, i as int) == Seq::new(chn as nat, |t: int| i + 2 + 4 * t) + slots(d, next));
                assert forall|t: int| 0 <= t < chn implies #[trigger] s0[ii0 + t] == i + 2 + 4 * t by {
                    assert(s0[ii0 + t] == slots(d, i as int)[t]);
                }
                lemma_slots_shape(d, next);
            }
            let mut j: u8 = 0;
            while j < chn * 4
                invariant
                    chn <= 63,
                    chn == d[i + 1],
                    i + 4 * chn + 2 <= d.len(),
                    j <= chn * 4,
                    j == 4 * (ii - ii0),
                    ii0 + chn <= indices@.len(),
                    ilen == indices@.len(),
                    forall|k: int| 0 <= k < s0.len() ==> #[trigger] s0[k] >= 2,
                    d.len() + 1024 <= usize::MAX,
                    s0 == slots(d, 0),
                    s0.len() <= indices@.len(),
                    ii0 + chn <= s0.len(),
                    packed_data@.len() == d.len(),
                    forall|t: int| 0 <= t < chn ==> #[trigger] s0[ii0 + t] == i + 2 + 4 * t,
                    forall|p: int| i + 2 + j <= p < d.len() ==> packed_data@[p] == d[p],
                    forall|k: int|
                        0 <= k < ii ==> #[trigger] slot_bytes(packed_data@, s0[k]) == le32(indices@[k]),
                    forall|k: int| 0 <= k < ii ==> #[trigger] s0[k] + 4 <= i + 2 + j,
                    forall|p: int|
                        0 <= p < d.len() && !in_slot(s0, p) ==> packed_data@[p] == d[p],
                    forall|k: int| 0 <= k < ii0 ==> #[trigger] s0[k] + 4 <= i,
                decreases chn * 4 - j,
            {
                let ghost t = ii - ii0;
                assert(s0[ii0 + t] == i + 2 + j);
                let ghost before = packed_data@;
                let nextind = u32_le_bytes(indices[ii]);
                ii += 1;
                packed_data.set(i + 2 + j as usize, nextind[0]);
                packed_data.set(i + 3 + j as usize, nextind[1]);
                packed_data.set(i + 4 + j as usize, nextind[2]);
                packed_data.set(i + 5 + j as usize, nextind[3]);
                proof {
                    assert forall|p: int|
                        0 <= p < d.len() && !in_slot(s0, p) implies packed_data@[p] == d[p] by {
                        if i + 2 + j <= p < i + 6 + j {
                            assert(s0[ii0 + t] <= p < s0[ii0 + t] + 4);
                        }
                    }
                    assert forall|k: int|
                        0 <= k < ii implies #[trigger] slot_bytes(packed_data@, s0[k]) == le32(indices@[k]) by {
                        if k < ii - 1 {
                            assert(slot_bytes(before, s0[k]) == le32(indices@[k]));
                            assert(slot_bytes(packed_data@, s0[k]) =~= slot_bytes(before, s0[k]));
                        } else {
                            assert(s0[k] == i + 2 + j);
                            assert(slot_bytes(packed_data@, s0[k]) =~= le32(indices@[k]));
                        }
                    }
                }
                j = j + 4;
            }
            proof {
                assert(s0.take(ii as int) =~= s0.take(ii0) + Seq::new(chn as nat, |t: int| i + 2 + 4 * t));
                assert(s0 =~= s0.take(ii as int) + slots(d, next));
            }
            i += (chn as usize) * 4 + 1;
        }
        i += 1;
    }
    proof {
        let s0 = slots(d, 0);
        assert(s0.take(ii as int) + slots(d, i as int) == s0);
        assert(slots(d, i as int) =~= seq![]);
        assert(s0.take(ii as int) =~= s0);
        assert forall|p: int| 0 <= p < d.len() implies packed_data@[p] == filled(d, indices@)[p] by {
            if in_slot(s0, p) {
                let k = slot_of(s0, p);
                assert(slot_bytes(packed_data@, s0[k]) == le32(indices@[k]));
                assert(packed_data@[p] == slot_bytes(packed_data@, s0[k])[p - s0[k]]);
            }
        }
        assert(packed_data@ =~= filled(d, indices@));
    }
}

/// The slots of the branch records from `i` on lie inside `d`, in increasing order,
/// four bytes apart at least.
pub proof fn lemma_slots_shape(d: Seq<u8>, i: int)
    requires
        fill_ok(d, i),
    ensures
        forall|k: int|
            0 <= k < slots(d, i).len() ==> i + 2 <= #[trigger] slots(d, i)[k] && slots(d, i)[k] + 4 <= d.len(),
        forall|a: int, b: int|
            0 <= a < b < slots(d, i).len() ==> #[trigger] slots(d, i)[a] + 4 <= #[trigger] slots(d, i)[b],
    decreases rest(d, i),
{
    if i < 0 || i >= d.len() {
        assert(slots(d, i) =~= seq![]);
    } else if d[i] < BRANCH_MARKER {
        lemma_slots_shape(d, i + 5);
        assert(slots(d, i) == slots(d, i + 5));
    } else {
        let n = next_record(d, i);
        lemma_slots_shape(d, n);
        let c = d[i + 1];
        let a = Seq::new(c as nat, |t: int| i + 2 + 4 * t);
        let s = slots(d, i);
        assert(s == a + slots(d, n));
        assert forall|k: int| 0 <= k < s.len() implies i + 2 <= #[trigger] s[k] && s[k] + 4 <= d.len() by {
            if k >= a.len() {
                assert(s[k] == slots(d, n)[k - a.len()]);
            }
        }
        assert forall|x: int, y: int| 0 <= x < y < s.len() implies #[trigger] s[x] + 4 <= #[trigger] s[y] by {
            if y >= a.len() {
                assert(s[y] == slots(d, n)[y - a.len()]);
                if x >= a.len() {
                    assert(s[x] == slots(d, n)[x - a.len()]);
                }
            }
        }
    }
}

/// The slot that holds a position is the only one that does.
pub proof fn lemma_slot_of(d: Seq<u8>, k: int, p: int)
    requires
        fill_ok(d, 0),
        0 <= k < slots(d, 0).len(),
        slots(d, 0)[k] <= p < slots(d, 0)[k] + 4,
    ensures
        in_slot(slots(d, 0), p),
        slot_of(slots(d, 0), p) == k,
{
    let s = slots(d, 0);
    lemma_slots_shape(d, 0);
    let j = slot_of(s, p);
    assert(0 <= j < s.len() && s[j] <= p < s[j] + 4);
    if j < k {
        assert(s[j] + 4 <= s[k]);
    } else if j > k {
        assert(s[k] + 4 <= s[j]);
    }
}

proof fn lemma_same_outside_slots(d: Seq<u8>, e: Seq<u8>, i: int)
    requires
        fill_ok(d, i),
        e.len() == d.len(),
        forall|p: int| 0 <= i <= p < d.len() && !in_slot(slots(d, i), p) ==> e[p] == d[p],
    ensures
        fill_ok(e, i),
        walk_ok(e, i) == walk_ok(d, i),
        record_starts(e, i) == record_starts(d, i),
        slots(e, i) == slots(d, i),
    decreases rest(d, i),
{
    if i < 0 || i >= d.len() {
    } else {
        lemma_slots_shape(d, i);
        let s = slots(d, i);
        assert forall|q: int| i <= q < i + 2 implies !in_slot(s, q) by {
            if in_slot(s, q) {
                let k = choose|k: int| 0 <= k < s.len() && #[trigger] s[k] <= q < s[k] + 4;
                assert(s[k] >= i + 2);
            }
        }
        assert(e[i] == d[i]);
        if d[i] < BRANCH_MARKER {
            assert(slots(d, i) == slots(d, i + 5));
            lemma_same_outside_slots(d, e, i + 5);
        } else {
            assert(e[i + 1] == d[i + 1]);
            let n = next_record(d, i);
            assert(next_record(e, i) == n);
            let a = Seq::new(d[i + 1] as nat, |t: int| i + 2 + 4 * t);
            assert(s == a + slots(d, n));
            assert forall|p: int| 0 <= n <= p < d.len() && !in_slot(slots(d, n), p) implies e[p] == d[p] by {
                if in_slot(s, p) {
                    let k = choose|k: int| 0 <= k < s.len() && #[trigger] s[k] <= p < s[k] + 4;
                    if k < a.len() {
                        assert(s[k] + 4 <= n);
                    } else {
                        assert(s[k] == slots(d, n)[k - a.len()]);
                    }
                }
            }
            lemma_same_outside_slots(d, e, n);
        }
    }
}

/// Filling the slots of a layer buffer leaves its record structure as it was: the same
/// records at the same offsets, and the same slots.
pub proof fn lemma_fill_keeps_records(d: Seq<u8>, idx: Seq<u32>)
    requires
        fill_ok(d, 0),
        slots(d, 0).len() <= idx.len(),
    ensures
        filled(d, idx).len() == d.len(),
        fill_ok(filled(d, idx), 0),
        walk_ok(filled(d, idx), 0) == walk_ok(d, 0),
        record_starts(filled(d, idx), 0) == record_starts(d, 0),
        slots(filled(d, idx), 0) == slots(d, 0),
{
    lemma_same_outside_slots(d, filled(d, idx), 0);
}

/// Reading back slot `k` of a filled layer buffer gives `idx[k]`.
pub proof fn lemma_fill_readback(d: Seq<u8>, idx: Seq<u32>, k: int)
    requires
        fill_ok(d, 0),
        slots(d, 0).len() <= idx.len(),
        0 <= k < slots(d, 0).len(),
    ensures
        from_le32(slot_bytes(filled(d, idx), slots(d, 0)[k])) == idx[k],
{
    let s = slots(d, 0);
    lemma_slots_shape(d, 0);
    assert forall|b: int| 0 <= b < 4 implies #[trigger] slot_bytes(filled(d, idx), s[k])[b] == le32(idx[k])[b] by {
        lemma_slot_of(d, k, s[k] + b);
    }
    lemma_le32_roundtrip(idx[k]);
    assert(slot_bytes(filled(d, idx), s[k]) =~= le32(idx[k]));
}

/// Whether `r` is exactly one record: a five-byte leaf record with a marker below 100, or
/// a branch record with a marker of at least 100, a count of at most 63, and its slots.
pub open spec fn is_record(r: Seq<u8>) -> bool {
    ||| r.len() == 5 && r[0] < BRANCH_MARKER
    ||| r.len() >= 2 && r[0] >= BRANCH_MARKER && r[1] <= 63 && r.len() == 4 * r[1] + 2
}

/// The number of slots of a record.
pub open spec fn record_slots(r: Seq<u8>) -> nat {
    if r[0] < BRANCH_MARKER { 0 } else { r[1] as nat }
}

/// `s` with `n` added to each element.
pub open spec fn shifted(s: Seq<int>, n: int) -> Seq<int> {
    s.map_values(|v: int| v + n)
}

/// Walking `x + y` from a position inside `y` reads only `y`: the walk, the records and the
/// slots are those of `y`, moved by the length of `x`.
pub proof fn lemma_walk_shift(x: Seq<u8>, y: Seq<u8>, j: int)
    requires
        0 <= j,
    ensures
        walk_ok(x + y, x.len() + j) == walk_ok(y, j),
        fill_ok(x + y, x.len() + j) == fill_ok(y, j),
        record_starts(x + y, x.len() + j) == shifted(record_starts(y, j), x.len() as int),
        slots(x + y, x.len() + j) == shifted(slots(y, j), x.len() as int),
    decreases rest(y, j),
{
    let d = x + y;
    let i = x.len() + j;
    let n = x.len() as int;
    if j >= y.len() {
        assert(shifted(record_starts(y, j), n) =~= seq![]);
        assert(shifted(slots(y, j), n) =~= seq![]);
    } else {
        assert(d[i] == y[j]);
        if y[j] < BRANCH_MARKER {
            lemma_walk_shift(x, y, j + 5);
            assert(shifted(record_starts(y, j), n) =~= seq![i] + shifted(record_starts(y, j + 5), n));
            assert(slots(y, j) == slots(y, j + 5));
        } else if j + 1 < y.len() {
            assert(d[i + 1] == y[j + 1]);
            let m = next_record(y, j);
            assert(next_record(d, i) == n + m);
            lemma_walk_shift(x, y, m);
            assert(shifted(record_starts(y, j), n) =~= seq![i] + shifted(record_starts(y, m), n));
            let c = y[j + 1] as nat;
            assert(shifted(slots(y, j), n) =~= Seq::new(c, |t: int| i + 2 + 4 * t) + shifted(slots(y, m), n));
        } else {
            assert(shifted(record_starts(y, j), n) =~= seq![i]);
            assert(shifted(slots(y, j), n) =~= seq![]);
        }
    }
}

/// A record followed by more bytes: the walk reads the record, then goes on in the rest.
pub proof fn lemma_record_prefix(r: Seq<u8>, y: Seq<u8>)
    requires
        is_record(r),
    ensures
        walk_ok(r + y, 0) == walk_ok(y, 0),
        fill_ok(r + y, 0) == fill_ok(y, 0),
        record_starts(r + y, 0) == seq![0int] + shifted(record_starts(y, 0), r.len() as int),
        slots(r + y, 0) == Seq::new(record_slots(r), |t: int| 2 + 4 * t) + shifted(slots(y, 0), r.len() as int),
{
    let d = r + y;
    lemma_walk_shift(r, y, 0);
    assert(d[0] == r[0]);
    if r[0] < BRANCH_MARKER {
        assert(next_record(d, 0) == r.len() + 0);
        assert(Seq::new(record_slots(r), |t: int| 2 + 4 * t) =~= seq![]);
        assert(slots(d, 0) == slots(d, 5));
        assert(Seq::new(record_slots(r), |t: int| 2 + 4 * t) + shifted(slots(y, 0), r.len() as int) =~= shifted(
            slots(y, 0),
            r.len() as int,
        ));
    } else {
        assert(d[1] == r[1]);
        assert(next_record(d, 0) == r.len() + 0);
    }
}

/// Whether every branch record of `d` has its count byte inside `d`, as
/// `compute_raw_data_indices` needs.
pub fn walk_fits(d: &Vec<u8>) -> (r: bool)
    ensures
        r == walk_ok(d@, 0),
{
    let n = d.len();
    let mut i: usize = 0;
    while i < n
        invariant
            n == d@.len(),
            i <= n,
            walk_ok(d@, 0) == walk_ok(d@, i as int),
        decreases n - i,
    {
        if d[i] < BRANCH_MARKER {
            if n - i <= 5 {
                assert(walk_ok(d@, i + 5));
                return true;
            }
            i = i + 5;
        } else {
            if n - i < 2 {
                return false;
            }
            let step: usize = 4 * (d[i + 1] as usize) + 2;
            if n - i <= step {
                assert(walk_ok(d@, next_record(d@, i as int)));
                return true;
            }
            i = i + step;
        }
    }
    true
}

/// Whether every branch record of `d` has a count of at most 63 and its slots inside `d`,
/// and the records have at most `n` slots in all, as `fill_indices` needs with `n` indices.
pub fn fill_fits(d: &Vec<u8>, n: usize) -> (r: bool)
    ensures
        r == (fill_ok(d@, 0) && slots(d@, 0).len() <= n),
{
    let len = d.len();
    let mut i: usize = 0;
    let mut count: usize = 0;
    while i < len
        invariant
            len == d@.len(),
            i <= len,
            count <= i,
            fill_ok(d@, 0) == fill_ok(d@, i as int),
            fill_ok(d@, i as int) ==> slots(d@, 0).len() == count + slots(d@, i as int).len(),
        decreases len - i,
    {
        if d[i] < BRANCH_MARKER {
            if len - i <= 5 {
                assert(fill_ok(d@, i + 5));
                assert(slots(d@, i + 5) =~= Seq::<int>::empty());
                return count <= n;
            }
            i = i + 5;
        } else {
            if len - i < 2 {
                return false;
            }
            let c = d[i + 1];
            if c > 63 {
                return false;
            }
            let step: usize = 4 * (c as usize) + 2;
            if len - i < step {
                return false;
            }
            count = count + c as usize;
            i = i + step;
        }
    }
    assert(slots(d@, i as int) =~= Seq::<int>::empty());
    count <= n
}

} // verus!
