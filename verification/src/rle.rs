use vstd::prelude::*;

verus! {

/// One run of equal bytes in a run-length encoded buffer.
#[derive(Clone, Copy)]
pub struct Rledata {
    pub data: u8,
    pub location: u64,
    pub length: u64,
}

/// Runs longer than this many bytes become entries; shorter ones stay in the tail.
pub const MIN_RUN: usize = 17;

/// The distance from `i` to the end of `d`, or 0 past the end.
pub open spec fn rest(d: Seq<u8>, i: int) -> nat {
    if i >= d.len() { 0 } else { (d.len() - i) as nat }
}

/// The end of the run of bytes equal to `d[i]` that continues from position `j`.
pub open spec fn run_end(d: Seq<u8>, i: int, j: int) -> int
    decreases rest(d, j),
{
    if 0 <= j < d.len() && d[j] == d[i] {
        run_end(d, i, j + 1)
    } else {
        j
    }
}

/// The run-length encoding of `d` from position `i` on: every maximal run of more than
/// 17 equal bytes becomes an entry with its byte, position and length; the bytes of the
/// other runs are kept, in order, in the tail.
pub open spec fn compress_from(d: Seq<u8>, i: int) -> (Seq<Rledata>, Seq<u8>)
    decreases rest(d, i),
{
    if i < 0 || i >= d.len() {
        (seq![], seq![])
    } else {
        let e = run_end(d, i, i + 1);
        proof {
            lemma_run_end_after(d, i, i + 1);
        }
        let later = compress_from(d, e);
        if e - i > MIN_RUN {
            (seq![Rledata { data: d[i], location: i as u64, length: (e - i) as u64 }] + later.0, later.1)
        } else {
            (later.0, d.subrange(i, e) + later.1)
        }
    }
}

/// A run that continues from `j` ends at `j` or later.
pub proof fn lemma_run_end_after(d: Seq<u8>, i: int, j: int)
    ensures
        run_end(d, i, j) >= j,
    decreases rest(d, j),
{
    if 0 <= j < d.len() && d[j] == d[i] {
        lemma_run_end_after(d, i, j + 1);
    }
}

proof fn lemma_run_end(d: Seq<u8>, i: int, j: int)
    requires
        0 <= i < j <= d.len(),
        forall|k: int| i <= k < j ==> d[k] == d[i],
    ensures
        j <= run_end(d, i, j) <= d.len(),
        forall|k: int| i <= k < run_end(d, i, j) ==> d[k] == d[i],
        run_end(d, i, j) < d.len() ==> d[run_end(d, i, j)] != d[i],
    decreases rest(d, j),
{
    if j < d.len() && d[j] == d[i] {
        lemma_run_end(d, i, j + 1);
    }
}

/// Splits `data` into the entries for its runs of more than 17 equal bytes and the tail
/// of all other bytes.
pub fn compress_data_impl(data: &[u8]) -> (r: (Vec<Rledata>, Vec<u8>))
    ensures
        (r.0@, r.1@) == compress_from(data@, 0),
{
    let ghost d = data@;
    let mut entries: Vec<Rledata> = Vec::new();
    let mut tail: Vec<u8> = Vec::new();
    let n = data.len();
    let mut i: usize = 0;
    while i < n
        invariant
            d == data@,
            n == d.len(),
            i <= d.len(),
            compress_from(d, 0) == (entries@ + compress_from(d, i as int).0, tail@ + compress_from(d, i as int).1),
        decreases d.len() - i,
    {
        let current = data[i];
        let mut run_len: usize = 1;
        while i + run_len < n && data[i + run_len] == current
            invariant
                d == data@,
                n == d.len(),
                i < d.len(),
                1 <= run_len <= d.len() - i,
                current == d[i as int],
                forall|k: int| i <= k < i + run_len ==> d[k] == d[i as int],
                run_end(d, i as int, i + 1) == run_end(d, i as int, i + run_len),
            decreases d.len() - i - run_len,
        {
            run_len += 1;
        }
        proof {
            lemma_run_end(d, i as int, i + 1);
        }
        assert(run_end(d, i as int, i + 1) == i + run_len);
        let ghost later = compress_from(d, i + run_len);
        if run_len > MIN_RUN {
            entries.push(Rledata { data: current, location: i as u64, length: run_len as u64 });
            assert(compress_from(d, i as int).0 == seq![
                Rledata { data: current, location: i as u64, length: run_len as u64 },
            ] + later.0);
        } else {
            let ghost before = tail@;
            let mut k: usize = i;
            while k < i + run_len
                invariant
                    d == data@,
                    n == d.len(),
                    i <= k <= i + run_len <= d.len(),
                    tail@ == before + d.subrange(i as int, k as int),
                decreases i + run_len - k,
            {
                tail.push(data[k]);
                k += 1;
                assert(tail@ =~= before + d.subrange(i as int, k as int));
            }
        }
        i += run_len;
        assert(compress_from(d, 0) =~= (entries@ + compress_from(d, i as int).0, tail@ + compress_from(d, i as int).1));
    }
    assert(entries@ + compress_from(d, i as int).0 =~= entries@);
    assert(tail@ + compress_from(d, i as int).1 =~= tail@);
    (entries, tail)
}

/// `s` with `x` inserted after every element whose location is at most `x.location`
/// and that stands before the first element with a greater location, scanning from the end.
pub open spec fn insert_by_location(s: Seq<Rledata>, x: Rledata) -> Seq<Rledata>
    decreases s.len(),
{
    if s.len() == 0 {
        seq![x]
    } else if s.last().location <= x.location {
        s.push(x)
    } else {
        insert_by_location(s.drop_last(), x).push(s.last())
    }
}

/// The entries of `s` ordered by location; entries with equal locations keep their order.
pub open spec fn sort_by_location(s: Seq<Rledata>) -> Seq<Rledata>
    decreases s.len(),
{
    if s.len() == 0 {
        seq![]
    } else {
        insert_by_location(sort_by_location(s.drop_last()), s.last())
    }
}

/// The state of decompression: the output so far, how many tail bytes were used, and the
/// position after the last entry written.
pub struct DecodeState {
    pub out: Seq<u8>,
    pub raw: int,
    pub cursor: int,
}

/// `out` with the positions from `a` up to `b` set to `f` of the position.
pub open spec fn overwrite(out: Seq<u8>, a: int, b: int, f: spec_fn(int) -> u8) -> Seq<u8> {
    Seq::new(out.len(), |p: int| if a <= p < b { f(p) } else { out[p] })
}

/// The start of entry `e` as a buffer position.
pub open spec fn entry_start(e: Rledata) -> int {
    (e.location as usize) as int
}

/// The end of entry `e` as a buffer position.
pub open spec fn entry_end(e: Rledata) -> int {
    entry_start(e) + (e.length as usize) as int
}

/// Whether entry `e` can be applied to `st`: the gap before it is inside the output and
/// covered by the tail, and the entry ends inside the output.
pub open spec fn step_ok(st: DecodeState, e: Rledata, tail: Seq<u8>) -> bool {
    let start = entry_start(e);
    &&& start > st.cursor ==> start <= st.out.len() && st.raw + (start - st.cursor) <= tail.len()
    &&& entry_end(e) <= usize::MAX
    &&& entry_end(e) <= st.out.len()
}

/// Applies entry `e` to `st`: the gap from the cursor to the entry's start is copied from
/// the tail, the entry's span is filled with its byte, and the cursor moves to its end.
pub open spec fn step(st: DecodeState, e: Rledata, tail: Seq<u8>) -> DecodeState {
    let start = entry_start(e);
    let gap = if start > st.cursor { start - st.cursor } else { 0 };
    let out1 = if start > st.cursor {
        overwrite(st.out, st.cursor, start, |p: int| tail[st.raw + (p - st.cursor)])
    } else {
        st.out
    };
    DecodeState {
        out: overwrite(out1, start, entry_end(e), |p: int| e.data),
        raw: st.raw + gap,
        cursor: entry_end(e),
    }
}

/// The state after applying the entries `es` in order to `st`.
pub open spec fn apply_all(es: Seq<Rledata>, st: DecodeState, tail: Seq<u8>) -> DecodeState
    decreases es.len(),
{
    if es.len() == 0 {
        st
    } else {
        apply_all(es.drop_first(), step(st, es[0], tail), tail)
    }
}

/// Whether each entry of `es` can be applied in turn, starting from `st`.
pub open spec fn apply_all_ok(es: Seq<Rledata>, st: DecodeState, tail: Seq<u8>) -> bool
    decreases es.len(),
{
    if es.len() == 0 {
        true
    } else {
        step_ok(st, es[0], tail) && apply_all_ok(es.drop_first(), step(st, es[0], tail), tail)
    }
}

/// The output after the bytes from the cursor to the end are copied from the tail.
pub open spec fn finish(st: DecodeState, tail: Seq<u8>) -> Seq<u8> {
    if st.cursor < st.out.len() {
        overwrite(st.out, st.cursor, st.out.len() as int, |p: int| tail[st.raw + (p - st.cursor)])
    } else {
        st.out
    }
}

/// Whether the tail covers the bytes after the cursor.
pub open spec fn finish_ok(st: DecodeState, tail: Seq<u8>) -> bool {
    st.cursor < st.out.len() ==> st.raw + (st.out.len() - st.cursor) <= tail.len()
}

/// The state before any entry is applied: `total_len` zero bytes.
pub open spec fn initial(total_len: nat) -> DecodeState {
    DecodeState { out: Seq::new(total_len, |p: int| 0u8), raw: 0, cursor: 0 }
}

/// The buffer of `total_len` bytes that the entries and tail decode to.
pub open spec fn decompress_spec(entries: Seq<Rledata>, tail: Seq<u8>, total_len: nat) -> Seq<u8> {
    finish(apply_all(sort_by_location(entries), initial(total_len), tail), tail)
}

/// Whether decoding the entries and tail into `total_len` bytes stays inside the buffers.
pub open spec fn decompress_ok(entries: Seq<Rledata>, tail: Seq<u8>, total_len: nat) -> bool {
    &&& apply_all_ok(sort_by_location(entries), initial(total_len), tail)
    &&& finish_ok(apply_all(sort_by_location(entries), initial(total_len), tail), tail)
}

fn insert_sorted(v: &mut Vec<Rledata>, x: Rledata)
    ensures
        final(v)@ == insert_by_location(old(v)@, x),
{
    let ghost s = v@;
    let mut p: usize = v.len();
    assert(s.take(p as int) =~= s);
    assert(s.skip(p as int) =~= seq![]);
    assert(insert_by_location(s, x) =~= insert_by_location(s.take(p as int), x) + s.skip(p as int));
    while p > 0 && v[p - 1].location > x.location
        invariant
            v@ == s,
            p <= s.len(),
            insert_by_location(s, x) == insert_by_location(s.take(p as int), x) + s.skip(p as int),
        decreases p,
    {
        proof {
            assert(s.take(p as int).drop_last() =~= s.take(p - 1));
            assert(s.skip(p - 1) =~= seq![s[p - 1]] + s.skip(p as int));
            assert(insert_by_location(s.take(p as int), x) == insert_by_location(s.take(p - 1), x).push(s[p - 1]));
            assert(insert_by_location(s.take(p - 1), x).push(s[p - 1]) + s.skip(p as int) =~= insert_by_location(
                s.take(p - 1),
                x,
            ) + s.skip(p - 1));
        }
        p = p - 1;
    }
    v.insert(p, x);
    assert(v@ =~= s.take(p as int).push(x) + s.skip(p as int));
}

fn sort_entries(entries: &[Rledata]) -> (r: Vec<Rledata>)
    ensures
        r@ == sort_by_location(entries@),
{
    let mut r: Vec<Rledata> = Vec::new();
    let mut k: usize = 0;
    while k < entries.len()
        invariant
            k <= entries@.len(),
            r@ == sort_by_location(entries@.take(k as int)),
        decreases entries@.len() - k,
    {
        insert_sorted(&mut r, entries[k]);
        proof {
            assert(entries@.take(k + 1).drop_last() =~= entries@.take(k as int));
        }
        k += 1;
    }
    assert(entries@.take(k as int) =~= entries@);
    r
}

/// Whether `decompress_data_impl` can rebuild `total_len` bytes from `entries` and `tail`:
/// every gap before an entry lies in the buffer and is covered by the tail, every entry
/// ends inside the buffer, and the tail covers the bytes after the last entry.
pub fn decompress_fits(entries: &[Rledata], tail: &[u8], total_len: usize) -> (r: bool)
    ensures
        r == decompress_ok(entries@, tail@, total_len as nat),
{
    let sorted_entries = sort_entries(entries);
    let ghost es = sorted_entries@;
    let ghost mut st = initial(total_len as nat);
    let tl = tail.len();
    let mut raw: usize = 0;
    let mut cursor: usize = 0;
    assert(es.skip(0) =~= es);
    let mut k: usize = 0;
    while k < sorted_entries.len()
        invariant
            es == sorted_entries@,
            es == sort_by_location(entries@),
            k <= es.len(),
            tl == tail@.len(),
            st.raw == raw,
            st.cursor == cursor,
            st.out.len() == total_len,
            apply_all_ok(es, initial(total_len as nat), tail@) == apply_all_ok(es.skip(k as int), st, tail@),
            apply_all(es, initial(total_len as nat), tail@) == apply_all(es.skip(k as int), st, tail@),
        decreases es.len() - k,
    {
        let e = sorted_entries[k];
        assert(es.skip(k as int)[0] == e);
        assert(es.skip(k as int).drop_first() =~= es.skip(k + 1));
        let start = e.location as usize;
        let len = e.length as usize;
        if start > cursor && (start > total_len || (raw as u128) + ((start - cursor) as u128) > tl as u128) {
            return false;
        }
        if (start as u128) + (len as u128) > usize::MAX as u128 {
            return false;
        }
        let end = start + len;
        if end > total_len {
            return false;
        }
        assert(step_ok(st, e, tail@));
        if start > cursor {
            raw = raw + (start - cursor);
        }
        cursor = end;
        proof {
            st = step(st, e, tail@);
        }
        k += 1;
    }
    assert(es.skip(k as int) =~= seq![]);
    cursor >= total_len || (raw as u128) + ((total_len - cursor) as u128) <= tl as u128
}

/// Rebuilds a buffer of `total_len` bytes from run entries and the tail of other bytes:
/// the entries are applied in order of location, the gaps before them and after the last
/// one are filled from the tail in order.
pub fn decompress_data_impl(entries: &[Rledata], tail: &[u8], total_len: usize) -> (r: Vec<u8>)
    requires
        decompress_ok(entries@, tail@, total_len as nat),
    ensures
        r@ == decompress_spec(entries@, tail@, total_len as nat),
{
    let mut result = vec![0u8; total_len];
    let sorted_entries = sort_entries(entries);
    let ghost es = sorted_entries@;
    let mut raw_index: usize = 0;
    let mut cursor: usize = 0;
    assert(result@ =~= initial(total_len as nat).out);
    assert(DecodeState { out: result@, raw: 0, cursor: 0 } == initial(total_len as nat));
    assert(es.skip(0) =~= es);
    let tl = tail.len();
    let mut k: usize = 0;
    while k < sorted_entries.len()
        invariant
            es == sorted_entries@,
            es == sort_by_location(entries@),
            k <= es.len(),
            tl == tail@.len(),
            result@.len() == total_len,
            apply_all_ok(es.skip(k as int), DecodeState { out: result@, raw: raw_index as int, cursor: cursor as int }, tail@),
            apply_all(es, initial(total_len as nat), tail@) == apply_all(
                es.skip(k as int),
                DecodeState { out: result@, raw: raw_index as int, cursor: cursor as int },
                tail@,
            ),
        decreases es.len() - k,
    {
        let e = sorted_entries[k];
        let ghost st = DecodeState { out: result@, raw: raw_index as int, cursor: cursor as int };
        assert(es.skip(k as int)[0] == e);
        assert(es.skip(k as int).drop_first() =~= es.skip(k + 1));
        let ghost st2 = step(st, e, tail@);
        let start = e.location as usize;
        if start > cursor {
            let n = start - cursor;
            let ghost before = result@;
            let mut q: usize = 0;
            while q < n
                invariant
                    q <= n,
                    tl == tail@.len(),
                    n == start - cursor,
                    start <= before.len(),
                    raw_index + n <= tail@.len(),
                    result@.len() == before.len(),
                    forall|p: int|
                        0 <= p < before.len() ==> result@[p] == if cursor <= p < cursor + q {
                            tail@[raw_index + (p - cursor)]
                        } else {
                            before[p]
                        },
                decreases n - q,
            {
                result.set(cursor + q, tail[raw_index + q]);
                q += 1;
            }
            raw_index += n;
        }
        let end = start + e.length as usize;
        let ghost before = result@;
        let mut q: usize = start;
        while q < end
            invariant
                start <= q <= end,
                end <= before.len(),
                result@.len() == before.len(),
                forall|p: int|
                    0 <= p < before.len() ==> result@[p] == if start <= p < q {
                        e.data
                    } else {
                        before[p]
                    },
            decreases end - q,
        {
            result.set(q, e.data);
            q += 1;
        }
        cursor = end;
        assert(result@ =~= st2.out);
        k += 1;
    }
    let ghost stf = DecodeState { out: result@, raw: raw_index as int, cursor: cursor as int };
    assert(es.skip(k as int) =~= seq![]);
    if cursor < total_len {
        let n = total_len - cursor;
        let ghost before = result@;
        let mut q: usize = 0;
        while q < n
            invariant
                q <= n,
                tl == tail@.len(),
                n == total_len - cursor,
                raw_index + n <= tail@.len(),
                result@.len() == before.len(),
                before.len() == total_len,
                forall|p: int|
                    0 <= p < before.len() ==> result@[p] == if cursor <= p < cursor + q {
                        tail@[raw_index + (p - cursor)]
                    } else {
                        before[p]
                    },
            decreases n - q,
        {
            result.set(cursor + q, tail[raw_index + q]);
            q += 1;
        }
    }
    assert(result@ =~= finish(stf, tail@));
    result
}

/// Whether the locations of `s` never decrease.
pub open spec fn sorted_by_location(s: Seq<Rledata>) -> bool {
    forall|a: int, b: int| 0 <= a < b < s.len() ==> s[a].location <= s[b].location
}

/// Sorting entries that are already in order of location leaves them as they are.
pub proof fn lemma_sort_sorted(s: Seq<Rledata>)
    requires
        sorted_by_location(s),
    ensures
        sort_by_location(s) == s,
    decreases s.len(),
{
    if s.len() > 0 {
        let t = s.drop_last();
        assert(sorted_by_location(t));
        lemma_sort_sorted(t);
        if t.len() > 0 {
            assert(t.last().location <= s.last().location);
        }
        assert(t.push(s.last()) =~= s);
    }
}

proof fn lemma_compress_sorted(d: Seq<u8>, i: int)
    requires
        0 <= i,
        d.len() <= usize::MAX,
    ensures
        sorted_by_location(compress_from(d, i).0),
        forall|k: int|
            0 <= k < compress_from(d, i).0.len() ==> #[trigger] compress_from(d, i).0[k].location >= i,
    decreases rest(d, i),
{
    if i < d.len() {
        let e = run_end(d, i, i + 1);
        lemma_run_end_after(d, i, i + 1);
        lemma_compress_sorted(d, e);
        let later = compress_from(d, e).0;
        if e - i > MIN_RUN {
            let x = Rledata { data: d[i], location: i as u64, length: (e - i) as u64 };
            let es = seq![x] + later;
            assert(compress_from(d, i).0 == es);
            assert forall|k: int| 0 <= k < es.len() implies #[trigger] es[k].location >= i by {
                if k > 0 {
                    assert(es[k] == later[k - 1]);
                }
            }
            assert forall|a: int, b: int| 0 <= a < b < es.len() implies es[a].location <= es[b].location by {
                assert(es[b] == later[b - 1]);
                if a > 0 {
                    assert(es[a] == later[a - 1]);
                }
            }
        }
    }
}

proof fn lemma_decode_from(d: Seq<u8>, i: int, st: DecodeState, tail: Seq<u8>)
    requires
        d.len() <= usize::MAX,
        0 <= st.cursor <= i <= d.len(),
        0 <= st.raw <= tail.len(),
        st.out.len() == d.len(),
        forall|p: int| 0 <= p < st.cursor ==> st.out[p] == d[p],
        tail.subrange(st.raw, tail.len() as int) == d.subrange(st.cursor, i) + compress_from(d, i).1,
    ensures
        apply_all_ok(compress_from(d, i).0, st, tail),
        finish_ok(apply_all(compress_from(d, i).0, st, tail), tail),
        finish(apply_all(compress_from(d, i).0, st, tail), tail) == d,
    decreases rest(d, i),
{
    let rem = tail.subrange(st.raw, tail.len() as int);
    if i >= d.len() {
        assert(compress_from(d, i).0 =~= seq![]);
        assert forall|p: int| st.cursor <= p < d.len() implies tail[st.raw + (p - st.cursor)] == d[p] by {
            assert(rem[p - st.cursor] == d[p]);
        }
        assert(finish(st, tail) =~= d);
    } else {
        let e = run_end(d, i, i + 1);
        lemma_run_end(d, i, i + 1);
        let later = compress_from(d, e);
        assert(d.subrange(st.cursor, e) =~= d.subrange(st.cursor, i) + d.subrange(i, e));
        if e - i > MIN_RUN {
            let x = Rledata { data: d[i], location: i as u64, length: (e - i) as u64 };
            assert(compress_from(d, i).0 == seq![x] + later.0);
            assert(compress_from(d, i).1 == later.1);
            assert(rem == d.subrange(st.cursor, i) + later.1);
            assert(rem.len() == (i - st.cursor) + later.1.len());
            assert((seq![x] + later.0).drop_first() =~= later.0);
            assert(entry_start(x) == i);
            assert(entry_end(x) == e);
            assert(step_ok(st, x, tail));
            let st2 = step(st, x, tail);
            assert forall|p: int| 0 <= p < st2.cursor implies st2.out[p] == d[p] by {
                if st.cursor <= p < i {
                    assert(rem[p - st.cursor] == d[p]);
                }
            }
            assert(st2.raw == st.raw + (i - st.cursor));
            assert(tail.subrange(st2.raw, tail.len() as int) =~= rem.subrange(i - st.cursor, rem.len() as int));
            assert(rem.subrange(i - st.cursor, rem.len() as int) =~= later.1);
            assert(tail.subrange(st2.raw, tail.len() as int) =~= d.subrange(st2.cursor, e) + later.1);
            lemma_decode_from(d, e, st2, tail);
        } else {
            assert(compress_from(d, i).0 == later.0);
            assert(tail.subrange(st.raw, tail.len() as int) =~= d.subrange(st.cursor, e) + later.1);
            lemma_decode_from(d, e, st, tail);
        }
    }
}

/// Decompressing the entries and tail that `compress_data_impl` makes from `d`, into
/// `d.len()` bytes, stays inside the buffers and gives `d` back.
pub proof fn lemma_compress_decompress_roundtrip(d: Seq<u8>)
    requires
        d.len() <= usize::MAX,
    ensures
        decompress_ok(compress_from(d, 0).0, compress_from(d, 0).1, d.len()),
        decompress_spec(compress_from(d, 0).0, compress_from(d, 0).1, d.len()) == d,
{
    let (es, t) = compress_from(d, 0);
    lemma_compress_sorted(d, 0);
    lemma_sort_sorted(es);
    let st = initial(d.len());
    assert(t.subrange(0, t.len() as int) =~= d.subrange(0, 0) + t);
    lemma_decode_from(d, 0, st, t);
}

/// Compression makes at most one entry per input byte.
pub proof fn lemma_compress_entry_count(d: Seq<u8>, i: int)
    ensures
        compress_from(d, i).0.len() <= rest(d, i),
    decreases rest(d, i),
{
    if 0 <= i < d.len() {
        let e = run_end(d, i, i + 1);
        lemma_run_end_after(d, i, i + 1);
        lemma_compress_entry_count(d, e);
    }
}

} // verus!
