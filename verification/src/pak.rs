use vstd::prelude::*;
use crate::bytes::{from_ne64, lemma_ne64_roundtrip, ne64, u64_from_ne_bytes, u64_ne_bytes};
use crate::rle::{
    Rledata, compress_from, decompress_ok, decompress_spec, lemma_compress_decompress_roundtrip,
    lemma_compress_entry_count,
};

verus! {

/// The seventeen bytes of one entry: its byte, then its location and length in eight
/// bytes each, in the given byte order.
pub open spec fn entry_bytes(e: Rledata, big: bool) -> Seq<u8> {
    seq![e.data] + ne64(e.location, big) + ne64(e.length, big)
}

/// The concatenated encodings of the entries of `es`.
pub open spec fn entries_bytes(es: Seq<Rledata>, big: bool) -> Seq<u8>
    decreases es.len(),
{
    if es.len() == 0 {
        seq![]
    } else {
        entries_bytes(es.drop_last(), big) + entry_bytes(es.last(), big)
    }
}

/// The compressed payload of a voxel file: the number of entries in eight bytes, the
/// entries, then the tail bytes.
pub open spec fn encode_spec(es: Seq<Rledata>, tail: Seq<u8>, big: bool) -> Seq<u8> {
    ne64(es.len() as u64, big) + entries_bytes(es, big) + tail
}

/// The entry whose seventeen bytes start at `c` in `p`.
pub open spec fn entry_at(p: Seq<u8>, c: int, big: bool) -> Rledata {
    Rledata {
        data: p[c],
        location: from_ne64(p.subrange(c + 1, c + 9), big) as u64,
        length: from_ne64(p.subrange(c + 9, c + 17), big) as u64,
    }
}

/// The entries read from `p` at `c` on: at most `count` of them, stopping early when
/// fewer than seventeen bytes are left; and the position after the last one read.
pub open spec fn parse_entries(p: Seq<u8>, c: int, count: nat, big: bool) -> (Seq<Rledata>, int)
    decreases count,
{
    if count == 0 || c + 17 > p.len() {
        (seq![], c)
    } else {
        let later = parse_entries(p, c + 17, (count - 1) as nat, big);
        (seq![entry_at(p, c, big)] + later.0, later.1)
    }
}

/// The entries and tail of a compressed payload, or `None` when it is shorter than the
/// eight bytes of the entry count.
pub open spec fn decode_spec(p: Seq<u8>, big: bool) -> Option<(Seq<Rledata>, Seq<u8>)> {
    if p.len() < 8 {
        None
    } else {
        let r = parse_entries(p, 8, from_ne64(p.subrange(0, 8), big) as nat, big);
        Some((r.0, p.subrange(r.1, p.len() as int)))
    }
}

/// Writes the compressed payload of a voxel file: the entry count, each entry's byte,
/// location and length, and the tail, with numbers in the given byte order.
pub fn encode_rle_payload(entries: &[Rledata], tail: &[u8], big_endian: bool) -> (r: Vec<u8>)
    ensures
        r@ == encode_spec(entries@, tail@, big_endian),
{
    let mut payload: Vec<u8> = Vec::new();
    let count = u64_ne_bytes(entries.len() as u64, big_endian);
    payload.extend_from_slice(count.as_slice());
    let mut k: usize = 0;
    while k < entries.len()
        invariant
            k <= entries@.len(),
            payload@ == ne64(entries@.len() as u64, big_endian) + entries_bytes(entries@.take(k as int), big_endian),
        decreases entries@.len() - k,
    {
        let e = entries[k];
        let loc = u64_ne_bytes(e.location, big_endian);
        let len = u64_ne_bytes(e.length, big_endian);
        payload.push(e.data);
        payload.extend_from_slice(loc.as_slice());
        payload.extend_from_slice(len.as_slice());
        proof {
            assert(entries@.take(k + 1).drop_last() =~= entries@.take(k as int));
        }
        k += 1;
        assert(payload@ =~= ne64(entries@.len() as u64, big_endian) + entries_bytes(entries@.take(k as int), big_endian));
    }
    assert(entries@.take(k as int) =~= entries@);
    payload.extend_from_slice(tail);
    assert(payload@ =~= encode_spec(entries@, tail@, big_endian));
    payload
}

/// Reads the entries and tail of the compressed payload of a voxel file; `None` when the
/// payload is shorter than the eight bytes of the entry count.
pub fn decode_rle_payload(payload: &[u8], big_endian: bool) -> (r: Option<(Vec<Rledata>, Vec<u8>)>)
    requires
        payload@.len() + 17 <= usize::MAX,
    ensures
        match r {
            None => decode_spec(payload@, big_endian) is None,
            Some((es, t)) => decode_spec(payload@, big_endian) == Some((es@, t@)),
        },
{
    let n = payload.len();
    if n < 8 {
        return None;
    }
    let ghost p = payload@;
    let count = u64_from_ne_bytes(payload, 0, big_endian);
    let mut cursor: usize = 8;
    let mut entries: Vec<Rledata> = Vec::new();
    let mut read: u64 = 0;
    while read < count
        invariant
            read <= count,
            n == p.len(),
            p == payload@,
            n + 17 <= usize::MAX,
            8 <= cursor <= n,
            parse_entries(p, 8, count as nat, big_endian) == (
                entries@ + parse_entries(p, cursor as int, (count - read) as nat, big_endian).0,
                parse_entries(p, cursor as int, (count - read) as nat, big_endian).1,
            ),
        ensures
            read >= count || cursor + 17 > n,
        decreases count - read,
    {
        if cursor + 17 > n {
            break;
        }
        let e = Rledata {
            data: payload[cursor],
            location: u64_from_ne_bytes(payload, cursor + 1, big_endian),
            length: u64_from_ne_bytes(payload, cursor + 9, big_endian),
        };
        assert(e == entry_at(p, cursor as int, big_endian));
        entries.push(e);
        cursor += 17;
        read += 1;
        assert(parse_entries(p, 8, count as nat, big_endian).0 =~= entries@ + parse_entries(
            p,
            cursor as int,
            (count - read) as nat,
            big_endian,
        ).0);
    }
    assert(parse_entries(p, cursor as int, (count - read) as nat, big_endian).0 =~= seq![]);
    let mut tail: Vec<u8> = Vec::new();
    let mut q: usize = cursor;
    while q < n
        invariant
            n == p.len(),
            p == payload@,
            cursor <= q <= n,
            tail@ == p.subrange(cursor as int, q as int),
        decreases n - q,
    {
        tail.push(payload[q]);
        q += 1;
        assert(tail@ =~= p.subrange(cursor as int, q as int));
    }
    assert(entries@ + seq![] =~= entries@);
    Some((entries, tail))
}

/// Reading back a compressed payload gives the entries and tail it was written from.
pub proof fn lemma_payload_roundtrip(es: Seq<Rledata>, tail: Seq<u8>, big: bool)
    requires
        es.len() <= u64::MAX,
    ensures
        decode_spec(encode_spec(es, tail, big), big) == Some((es, tail)),
{
    let p = encode_spec(es, tail, big);
    lemma_ne64_roundtrip(es.len() as u64, big);
    assert(p.subrange(0, 8) =~= ne64(es.len() as u64, big));
    lemma_entries_bytes_len(es, big);
    lemma_parse_entries(es, tail, big, 0);
    assert(es.skip(0) =~= es);
    assert(from_ne64(p.subrange(0, 8), big) == es.len());
    assert(p.subrange(8 + 17 * es.len() as int, p.len() as int) =~= tail);
}

proof fn lemma_entries_bytes_len(es: Seq<Rledata>, big: bool)
    ensures
        entries_bytes(es, big).len() == 17 * es.len(),
    decreases es.len(),
{
    if es.len() > 0 {
        lemma_entries_bytes_len(es.drop_last(), big);
        lemma_ne64_roundtrip(es.last().location, big);
        lemma_ne64_roundtrip(es.last().length, big);
    }
}

proof fn lemma_entries_bytes_split(es: Seq<Rledata>, big: bool, k: int)
    requires
        0 <= k < es.len(),
    ensures
        entries_bytes(es, big) == entries_bytes(es.take(k), big) + entry_bytes(es[k], big) + entries_bytes(
            es.skip(k + 1),
            big,
        ),
    decreases es.len(),
{
    if k < es.len() - 1 {
        let t = es.drop_last();
        lemma_entries_bytes_split(t, big, k);
        assert(t.take(k) =~= es.take(k));
        assert(es.skip(k + 1).drop_last() =~= t.skip(k + 1));
        assert(es.skip(k + 1).last() == es.last());
        assert(es.skip(k + 1).len() > 0);
    } else {
        assert(es.take(k) =~= es.drop_last());
        assert(es.skip(k + 1) =~= seq![]);
    }
}

proof fn lemma_parse_entries(es: Seq<Rledata>, tail: Seq<u8>, big: bool, k: int)
    requires
        es.len() <= u64::MAX,
        0 <= k <= es.len(),
    ensures
        parse_entries(encode_spec(es, tail, big), 8 + 17 * k, (es.len() - k) as nat, big) == (
            es.skip(k),
            8 + 17 * es.len() as int,
        ),
    decreases es.len() - k,
{
    let p = encode_spec(es, tail, big);
    lemma_entries_bytes_len(es, big);
    lemma_ne64_roundtrip(es.len() as u64, big);
    if k < es.len() {
        lemma_parse_entries(es, tail, big, k + 1);
        lemma_entries_bytes_split(es, big, k);
        lemma_entries_bytes_len(es.take(k), big);
        let e = es[k];
        let c = 8 + 17 * k;
        let eb = entry_bytes(e, big);
        lemma_ne64_roundtrip(e.location, big);
        lemma_ne64_roundtrip(e.length, big);
        assert(p.subrange(c, c + 17) =~= eb);
        assert(p.subrange(c + 1, c + 9) =~= ne64(e.location, big));
        assert(p.subrange(c + 9, c + 17) =~= ne64(e.length, big));
        assert(entry_at(p, c, big) == e);
        assert(seq![e] + es.skip(k + 1) =~= es.skip(k));
    } else {
        assert(es.skip(k) =~= seq![]);
    }
}

/// Voxel data saved in compressed form loads back unchanged: the payload written from the
/// compressed data reads back as the same entries and tail, and these decompress to the
/// bytes they came from, in either byte order.
pub proof fn lemma_voxel_data_roundtrip(d: Seq<u8>, big: bool)
    requires
        d.len() <= usize::MAX,
    ensures
        decode_spec(encode_spec(compress_from(d, 0).0, compress_from(d, 0).1, big), big) == Some(
            compress_from(d, 0),
        ),
        decompress_ok(compress_from(d, 0).0, compress_from(d, 0).1, d.len()),
        decompress_spec(compress_from(d, 0).0, compress_from(d, 0).1, d.len()) == d,
{
    lemma_compress_entry_count(d, 0);
    lemma_payload_roundtrip(compress_from(d, 0).0, compress_from(d, 0).1, big);
    lemma_compress_decompress_roundtrip(d);
}

/// Whether a byte is blank in a scene header: a space, tab, carriage return or line feed.
pub open spec fn is_blank(c: u8) -> bool {
    c == 32 || c == 9 || c == 13 || c == 10
}

/// The first position from `j` on that holds no blank, or the end of `t`.
pub open spec fn skip_blanks(t: Seq<u8>, j: int) -> int
    decreases t.len() - j,
{
    if j < 0 || j >= t.len() {
        j
    } else if is_blank(t[j]) {
        skip_blanks(t, j + 1)
    } else {
        j
    }
}

/// The word `true`.
pub open spec fn true_word() -> Seq<u8> {
    seq![116u8, 114, 117, 101]
}

/// Whether the header `t` names `name` in quotes at position `i`, followed by blanks, a
/// colon, blanks and the word `true`.
pub open spec fn flag_true_at(t: Seq<u8>, name: Seq<u8>, i: int) -> bool {
    let e = i + name.len() + 2;
    &&& 0 <= i
    &&& e <= t.len()
    &&& t[i] == 34
    &&& t.subrange(i + 1, e - 1) == name
    &&& t[e - 1] == 34
    &&& skip_blanks(t, e) < t.len()
    &&& t[skip_blanks(t, e)] == 58
    &&& skip_blanks(t, skip_blanks(t, e) + 1) + 4 <= t.len()
    &&& t.subrange(skip_blanks(t, skip_blanks(t, e) + 1), skip_blanks(t, skip_blanks(t, e) + 1) + 4)
        == true_word()
}

/// Whether the header `t` sets the flag `name` to `true` anywhere.
pub open spec fn flag_true(t: Seq<u8>, name: Seq<u8>) -> bool {
    exists|i: int| #[trigger] flag_true_at(t, name, i)
}

fn skip_blanks_exec(t: &[u8], j: usize) -> (r: usize)
    requires
        j <= t@.len(),
    ensures
        r == skip_blanks(t@, j as int),
        j <= r <= t@.len(),
{
    let mut k = j;
    while k < t.len() && (t[k] == 32 || t[k] == 9 || t[k] == 13 || t[k] == 10)
        invariant
            j <= k <= t@.len(),
            skip_blanks(t@, j as int) == skip_blanks(t@, k as int),
        decreases t@.len() - k,
    {
        k = k + 1;
    }
    k
}

fn same_at(t: &[u8], at: usize, w: &[u8]) -> (r: bool)
    requires
        at + w@.len() <= t@.len(),
    ensures
        r == (t@.subrange(at as int, at + w@.len()) == w@),
{
    let n = t.len();
    let mut k: usize = 0;
    while k < w.len()
        invariant
            n == t@.len(),
            at + w@.len() <= t@.len(),
            k <= w@.len(),
            t@.subrange(at as int, at + k) == w@.take(k as int),
        decreases w@.len() - k,
    {
        if t[at + k] != w[k] {
            assert(t@.subrange(at as int, at + w@.len())[k as int] != w@[k as int]);
            return false;
        }
        assert(t@.subrange(at as int, at + k + 1) =~= t@.subrange(at as int, at + k).push(t@[at + k]));
        assert(w@.take(k + 1) =~= w@.take(k as int).push(w@[k as int]));
        k = k + 1;
    }
    assert(w@.take(k as int) =~= w@);
    true
}

fn flag_true_at_exec(t: &[u8], name: &[u8], i: usize) -> (r: bool)
    requires
        i <= t@.len(),
    ensures
        r == flag_true_at(t@, name@, i as int),
{
    let n = t.len();
    if n - i < 2 || n - i - 2 < name.len() {
        return false;
    }
    let e = i + name.len() + 2;
    if t[i] != 34 || t[e - 1] != 34 || !same_at(t, i + 1, name) {
        return false;
    }
    let c = skip_blanks_exec(t, e);
    if c >= n || t[c] != 58 {
        return false;
    }
    let v = skip_blanks_exec(t, c + 1);
    if n - v < 4 {
        return false;
    }
    let word: [u8; 4] = [116, 114, 117, 101];
    assert(word@ == true_word());
    same_at(t, v, word.as_slice())
}

/// Whether a scene header sets the flag `name` to `true`: the name in quotes, a colon and
/// the word `true`, with any blanks between them.
pub fn header_flag(text: &[u8], name: &[u8]) -> (r: bool)
    ensures
        r == flag_true(text@, name@),
{
    let mut i: usize = 0;
    while i < text.len()
        invariant
            i <= text@.len(),
            forall|k: int| 0 <= k < i ==> !#[trigger] flag_true_at(text@, name@, k),
        decreases text@.len() - i,
    {
        if flag_true_at_exec(text, name, i) {
            return true;
        }
        i = i + 1;
    }
    assert forall|k: int| !#[trigger] flag_true_at(text@, name@, k) by {
        if 0 <= k < i {
        }
    }
    false
}

} // verus!
