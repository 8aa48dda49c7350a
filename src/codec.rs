use vstd::prelude::*;
use vstd::utf8::{valid_utf8, decode_utf8, encode_utf8};
use vstd::slice::{slice_subrange, slice_to_vec};
use crate::range::{Range, RangeV, range_wf, range_le, range_lt};
use std::cmp::Ordering;
use crate::content::{Object, Bitmap, BitmapV, bitmap_fits};
use crate::index::{RangeIndex, index_wf, insert_point};
use crate::names::{bytes_lt, compare_bytes, lemma_bytes_lt_transitive};
use crate::error::{DBError, Fault};
use crate::db::TableModel;
use crate::wire::{
    enc_uint, enc_str_len, enc_array_len, enc_map_len, parse_uint, parse_str_len,
    parse_array_len, parse_map_len, rest_after, put_uint, put_str_len, put_array_len, take_uint,
    take_str_len, take_array_len, take_map_len, string_from_utf8, lemma_uint_round_trip,
    lemma_str_len_round_trip, lemma_array_len_round_trip, lemma_map_len_round_trip,
};

verus! {

// The layout: a byte string is a string header and the bytes; an object is its bytes; a
// bitmap is an array of its entry size and its bytes; an index is an array of three items per
// entry (lower end, upper end, value); a table collection is a map from table names to
// indexes; a database is an array of its object collection and its bitmap collection.

pub open spec fn enc_bytes(d: Seq<u8>) -> Seq<u8> {
    enc_str_len(d.len() as u32) + d
}

pub open spec fn enc_object_entry(e: (RangeV, Seq<u8>)) -> Seq<u8> {
    enc_uint(e.0.0) + enc_uint(e.0.1) + enc_bytes(e.1)
}

pub open spec fn enc_bitmap(b: BitmapV) -> Seq<u8> {
    enc_array_len(2) + enc_uint(b.0) + enc_bytes(b.1)
}

pub open spec fn enc_bitmap_entry(e: (RangeV, BitmapV)) -> Seq<u8> {
    enc_uint(e.0.0) + enc_uint(e.0.1) + enc_bitmap(e.1)
}

/// The encodings of the items of `s`, one after another.
pub open spec fn enc_all<T>(s: Seq<T>, f: spec_fn(T) -> Seq<u8>) -> Seq<u8>
    decreases s.len(),
{
    if s.len() == 0 {
        Seq::empty()
    } else {
        f(s[0]) + enc_all(s.drop_first(), f)
    }
}

pub open spec fn enc_index<T>(s: Seq<(RangeV, T)>, f: spec_fn((RangeV, T)) -> Seq<u8>) -> Seq<u8> {
    enc_array_len((3 * s.len()) as u32) + enc_all(s, f)
}

pub open spec fn object_enc() -> spec_fn((RangeV, Seq<u8>)) -> Seq<u8> {
    |e: (RangeV, Seq<u8>)| enc_object_entry(e)
}

pub open spec fn bitmap_enc() -> spec_fn((RangeV, BitmapV)) -> Seq<u8> {
    |e: (RangeV, BitmapV)| enc_bitmap_entry(e)
}

/// A table name followed by one of its indexes.
pub open spec fn enc_named<T>(t: (Seq<char>, Seq<(RangeV, T)>), f: spec_fn((RangeV, T)) -> Seq<u8>) -> Seq<u8> {
    enc_bytes(encode_utf8(t.0)) + enc_index(t.1, f)
}

/// A map from table names to indexes.
pub open spec fn enc_collection<T>(cs: Seq<(Seq<char>, Seq<(RangeV, T)>)>, f: spec_fn((RangeV, T)) -> Seq<u8>) -> Seq<u8> {
    enc_map_len(cs.len() as u32) + enc_all(cs, |c: (Seq<char>, Seq<(RangeV, T)>)| enc_named(c, f))
}

pub open spec fn objects_of(ts: Seq<(Seq<char>, TableModel)>) -> Seq<(Seq<char>, Seq<(RangeV, Seq<u8>)>)> {
    ts.map_values(|t: (Seq<char>, TableModel)| (t.0, t.1.objects))
}

pub open spec fn bitmaps_of(ts: Seq<(Seq<char>, TableModel)>) -> Seq<(Seq<char>, Seq<(RangeV, BitmapV)>)> {
    ts.map_values(|t: (Seq<char>, TableModel)| (t.0, t.1.bitmaps))
}

/// The encoding of a database whose tables, in name order, are `ts`.
pub open spec fn enc_db(ts: Seq<(Seq<char>, TableModel)>) -> Seq<u8> {
    enc_array_len(2) + enc_collection(objects_of(ts), object_enc()) + enc_collection(bitmaps_of(ts), bitmap_enc())
}

/// Every length that the encoding writes fits in its 32-bit header.
pub open spec fn wire_sized(ts: Seq<(Seq<char>, TableModel)>) -> bool {
    &&& ts.len() <= u32::MAX
    &&& forall|i: int|
        0 <= i < ts.len() ==> {
            &&& encode_utf8((#[trigger] ts[i]).0).len() <= u32::MAX
            &&& 3 * ts[i].1.objects.len() <= u32::MAX
            &&& 3 * ts[i].1.bitmaps.len() <= u32::MAX
            &&& forall|k: int| 0 <= k < ts[i].1.objects.len() ==> (#[trigger] ts[i].1.objects[k]).1.len() <= u32::MAX
            &&& forall|k: int| 0 <= k < ts[i].1.bitmaps.len() ==> (#[trigger] ts[i].1.bitmaps[k]).1.1.len() <= u32::MAX
        }
}

/// Names strictly in the order of their UTF-8 bytes, every index in key order, every bitmap
/// one entry per key.
pub open spec fn db_shaped(ts: Seq<(Seq<char>, TableModel)>) -> bool {
    &&& forall|i: int, j: int|
        0 <= i < j < ts.len() ==> bytes_lt(encode_utf8((#[trigger] ts[i]).0), encode_utf8((#[trigger] ts[j]).0))
    &&& forall|i: int| 0 <= i < ts.len() ==> index_wf((#[trigger] ts[i]).1.objects) && index_wf(ts[i].1.bitmaps)
    &&& forall|i: int, k: int|
        0 <= i < ts.len() && 0 <= k < ts[i].1.bitmaps.len() ==> bitmap_fits(
            (#[trigger] ts[i].1.bitmaps[k]).0,
            ts[i].1.bitmaps[k].1,
        )
}

/// The part of `s` after its first `k` bytes.
pub open spec fn skip(s: Seq<u8>, k: int) -> Seq<u8> {
    s.subrange(k, s.len() as int)
}

pub open spec fn parse_bytes(s: Seq<u8>) -> Result<(Seq<u8>, int), Fault> {
    match parse_str_len(s) {
        None => Err(Fault::Value),
        Some((n, k)) => if k + n <= s.len() {
            Ok((s.subrange(k, k + n), k + n))
        } else {
            Err(Fault::Format)
        },
    }
}

pub open spec fn parse_range(s: Seq<u8>) -> Result<(RangeV, int), Fault> {
    match parse_uint(s) {
        None => Err(Fault::Value),
        Some((a, k1)) => match parse_uint(skip(s, k1)) {
            None => Err(Fault::Value),
            Some((b, k2)) => if a <= b {
                Ok(((a, b), k1 + k2))
            } else {
                Err(Fault::Format)
            },
        },
    }
}

pub open spec fn parse_object_entry(s: Seq<u8>) -> Result<((RangeV, Seq<u8>), int), Fault> {
    match parse_range(s) {
        Err(f) => Err(f),
        Ok((r, k)) => match parse_bytes(skip(s, k)) {
            Err(f) => Err(f),
            Ok((d, k2)) => Ok(((r, d), k + k2)),
        },
    }
}

pub open spec fn parse_bitmap(s: Seq<u8>) -> Result<(BitmapV, int), Fault> {
    match parse_array_len(s) {
        None => Err(Fault::Value),
        Some((n, k)) => if n != 2 {
            Err(Fault::Format)
        } else {
            match parse_uint(skip(s, k)) {
                None => Err(Fault::Value),
                Some((es, k2)) => match parse_bytes(skip(s, k + k2)) {
                    Err(f) => Err(f),
                    Ok((d, k3)) => Ok(((es, d), k + k2 + k3)),
                },
            }
        },
    }
}

pub open spec fn parse_bitmap_entry(s: Seq<u8>) -> Result<((RangeV, BitmapV), int), Fault> {
    match parse_range(s) {
        Err(f) => Err(f),
        Ok((r, k)) => match parse_bitmap(skip(s, k)) {
            Err(f) => Err(f),
            Ok((b, k2)) => if bitmap_fits(r, b) {
                Ok(((r, b), k + k2))
            } else {
                Err(Fault::Format)
            },
        },
    }
}

/// `n` entries read with `pe`, in the order in which they come.
#[verifier::opaque]
pub open spec fn parse_entries<T>(
    s: Seq<u8>,
    n: nat,
    pe: spec_fn(Seq<u8>) -> Result<((RangeV, T), int), Fault>,
) -> Result<(Seq<(RangeV, T)>, int), Fault>
    decreases n,
{
    if n == 0 {
        Ok((Seq::empty(), 0))
    } else {
        match pe(s) {
            Err(f) => Err(f),
            Ok((e, k)) => match parse_entries(skip(s, k), (n - 1) as nat, pe) {
                Err(f) => Err(f),
                Ok((rest, k2)) => Ok((seq![e] + rest, k + k2)),
            },
        }
    }
}

/// Where an entry keyed `k` goes in `s`: after the last entry keyed no higher than `k`.
pub open spec fn upper_pos<T>(s: Seq<(RangeV, T)>, k: RangeV) -> int
    decreases s.len(),
{
    if s.len() == 0 {
        0
    } else if range_le(s.last().0, k) {
        s.len() as int
    } else {
        upper_pos(s.drop_last(), k)
    }
}

/// The index that filing the entries of `raw`, one after another, into an empty index gives.
pub open spec fn sorted_from<T>(raw: Seq<(RangeV, T)>) -> Seq<(RangeV, T)>
    decreases raw.len(),
{
    if raw.len() == 0 {
        raw
    } else {
        let s = sorted_from(raw.drop_last());
        s.insert(upper_pos(s, raw.last().0), raw.last())
    }
}

/// In an index in key order, `upper_pos` is where an entry keyed `k` goes.
pub proof fn lemma_upper_pos<T>(s: Seq<(RangeV, T)>, k: RangeV)
    requires
        index_wf(s),
    ensures
        insert_point(s, upper_pos(s, k), k),
    decreases s.len(),
{
    if s.len() > 0 {
        let d = s.drop_last();
        if range_le(s.last().0, k) {
            assert forall|j: int| 0 <= j < s.len() implies range_le(#[trigger] s[j].0, k) by {
                if j < s.len() - 1 {
                    assert(range_le(s[j].0, s[s.len() - 1].0));
                }
            }
        } else {
            assert(index_wf(d)) by {
                assert forall|a: int, b: int| 0 <= a < b < d.len() implies range_le(#[trigger] d[a].0, #[trigger] d[b].0) by {
                    assert(d[a] == s[a] && d[b] == s[b]);
                }
            }
            lemma_upper_pos(d, k);
            let p = upper_pos(d, k);
            assert forall|j: int| 0 <= j < p implies range_le(#[trigger] s[j].0, k) by {
                assert(d[j] == s[j]);
            }
            assert forall|j: int| p <= j < s.len() implies range_lt(k, #[trigger] s[j].0) by {
                if j < s.len() - 1 {
                    assert(d[j] == s[j]);
                }
            }
        }
    }
}

/// There is one place for an entry in an index.
pub proof fn lemma_insert_point_unique<T>(s: Seq<(RangeV, T)>, p: int, q: int, k: RangeV)
    requires
        insert_point(s, p, k),
        insert_point(s, q, k),
    ensures
        p == q,
{
    if p < q {
        assert(range_le(s[p].0, k));
    }
    if q < p {
        assert(range_le(s[q].0, k));
    }
}

/// Filing entries that come in key order gives them back in that order.
pub proof fn lemma_sorted_from_in_order<T>(s: Seq<(RangeV, T)>)
    requires
        index_wf(s),
    ensures
        sorted_from(s) == s,
    decreases s.len(),
{
    if s.len() > 0 {
        let d = s.drop_last();
        assert(index_wf(d)) by {
            assert forall|a: int, b: int| 0 <= a < b < d.len() implies range_le(#[trigger] d[a].0, #[trigger] d[b].0) by {
                assert(d[a] == s[a] && d[b] == s[b]);
            }
        }
        lemma_sorted_from_in_order(d);
        if d.len() > 0 {
            assert(range_le(d.last().0, s.last().0)) by {
                assert(d.last() == s[s.len() - 2]);
            }
        }
        assert(d.insert(d.len() as int, s.last()) =~= s);
    }
}

/// An index: an array header whose length counts three items per entry, then the entries,
/// each filed at its place in key order.
pub open spec fn parse_index<T>(s: Seq<u8>, pe: spec_fn(Seq<u8>) -> Result<((RangeV, T), int), Fault>) -> Result<(Seq<(RangeV, T)>, int), Fault> {
    match parse_array_len(s) {
        None => Err(Fault::Value),
        Some((l, k)) => match parse_entries(skip(s, k), (l / 3) as nat, pe) {
            Err(f) => Err(f),
            Ok((es, k2)) => Ok((sorted_from(es), k + k2)),
        },
    }
}

pub open spec fn parse_name(s: Seq<u8>) -> Result<(Seq<char>, int), Fault> {
    match parse_bytes(s) {
        Err(f) => Err(f),
        Ok((b, k)) => if valid_utf8(b) {
            Ok((decode_utf8(b), k))
        } else {
            Err(Fault::Utf8)
        },
    }
}

/// `n` named indexes, in the order in which they come.
#[verifier::opaque]
pub open spec fn parse_tables<T>(
    s: Seq<u8>,
    n: nat,
    pe: spec_fn(Seq<u8>) -> Result<((RangeV, T), int), Fault>,
) -> Result<(Seq<(Seq<char>, Seq<(RangeV, T)>)>, int), Fault>
    decreases n,
{
    if n == 0 {
        Ok((Seq::empty(), 0))
    } else {
        match parse_name(s) {
            Err(f) => Err(f),
            Ok((nm, k)) => match parse_index(skip(s, k), pe) {
                Err(f) => Err(f),
                Ok((es, k2)) => match parse_tables(skip(s, k + k2), (n - 1) as nat, pe) {
                    Err(f) => Err(f),
                    Ok((rest, k3)) => Ok((seq![(nm, es)] + rest, k + k2 + k3)),
                },
            },
        }
    }
}

/// Where a table named `nm` stands or goes in `ts`: after every name that comes before it
/// in byte order.
pub open spec fn name_pos<T>(ts: Seq<(Seq<char>, T)>, nm: Seq<char>) -> int
    decreases ts.len(),
{
    if ts.len() == 0 {
        0
    } else if bytes_lt(encode_utf8(ts.last().0), encode_utf8(nm)) {
        ts.len() as int
    } else {
        name_pos(ts.drop_last(), nm)
    }
}

/// `ts` with the table `t` put in: in place of the table of the same name, or else at its
/// place in name order.
pub open spec fn put_table<T>(ts: Seq<(Seq<char>, T)>, t: (Seq<char>, T)) -> Seq<(Seq<char>, T)> {
    let p = name_pos(ts, t.0);
    if p < ts.len() && ts[p].0 == t.0 {
        ts.update(p, t)
    } else {
        ts.insert(p, t)
    }
}

/// The tables that putting the tables of `raw` in, one after another, gives: one per name,
/// the last one read for each name, in name order.
pub open spec fn tables_from<T>(raw: Seq<(Seq<char>, T)>) -> Seq<(Seq<char>, T)>
    decreases raw.len(),
{
    if raw.len() == 0 {
        raw
    } else {
        put_table(tables_from(raw.drop_last()), raw.last())
    }
}

pub open spec fn parse_collection<T>(s: Seq<u8>, pe: spec_fn(Seq<u8>) -> Result<((RangeV, T), int), Fault>) -> Result<(Seq<(Seq<char>, Seq<(RangeV, T)>)>, int), Fault> {
    match parse_map_len(s) {
        None => Err(Fault::Value),
        Some((n, k)) => match parse_tables(skip(s, k), n as nat, pe) {
            Err(f) => Err(f),
            Ok((ts, k2)) => Ok((tables_from(ts), k + k2)),
        },
    }
}

pub open spec fn object_pe() -> spec_fn(Seq<u8>) -> Result<((RangeV, Seq<u8>), int), Fault> {
    |s: Seq<u8>| parse_object_entry(s)
}

pub open spec fn bitmap_pe() -> spec_fn(Seq<u8>) -> Result<((RangeV, BitmapV), int), Fault> {
    |s: Seq<u8>| parse_bitmap_entry(s)
}

/// The two collections name the same tables in the same order.
pub open spec fn same_names(
    ot: Seq<(Seq<char>, Seq<(RangeV, Seq<u8>)>)>,
    bt: Seq<(Seq<char>, Seq<(RangeV, BitmapV)>)>,
) -> bool {
    ot.len() == bt.len() && forall|i: int| 0 <= i < ot.len() ==> (#[trigger] ot[i]).0 == bt[i].0
}

pub open spec fn zip_tables(
    ot: Seq<(Seq<char>, Seq<(RangeV, Seq<u8>)>)>,
    bt: Seq<(Seq<char>, Seq<(RangeV, BitmapV)>)>,
) -> Seq<(Seq<char>, TableModel)> {
    Seq::new(ot.len(), |i: int| (ot[i].0, TableModel { objects: ot[i].1, bitmaps: bt[i].1 }))
}

/// The tables, in name order, of the database that `s` encodes, or the fault that stops it.
pub open spec fn parse_db(s: Seq<u8>) -> Result<Seq<(Seq<char>, TableModel)>, Fault> {
    match parse_array_len(s) {
        None => Err(Fault::Value),
        Some((n, k)) => if n != 2 {
            Err(Fault::Format)
        } else {
            match parse_collection(skip(s, k), object_pe()) {
                Err(f) => Err(f),
                Ok((ot, k2)) => match parse_collection(skip(s, k + k2), bitmap_pe()) {
                    Err(f) => Err(f),
                    Ok((bt, k3)) => if same_names(ot, bt) {
                        Ok(zip_tables(ot, bt))
                    } else {
                        Err(Fault::Format)
                    },
                },
            }
        },
    }
}


/// Encoding one more item appends its encoding.
pub proof fn lemma_enc_all_push<T>(s: Seq<T>, x: T, f: spec_fn(T) -> Seq<u8>)
    ensures
        enc_all(s.push(x), f) == enc_all(s, f) + f(x),
    decreases s.len(),
{
    if s.len() == 0 {
        assert(s.push(x).drop_first() =~= Seq::<T>::empty());
        assert(enc_all(Seq::<T>::empty(), f) =~= Seq::<u8>::empty());
        assert(enc_all(s.push(x), f) =~= f(x));
    } else {
        assert(s.push(x).drop_first() =~= s.drop_first().push(x));
        lemma_enc_all_push(s.drop_first(), x, f);
        assert(enc_all(s.push(x), f) =~= enc_all(s, f) + f(x));
    }
}

/// Appends the bytes of `d` one by one.
fn push_all(buf: &mut Vec<u8>, d: &[u8])
    ensures
        final(buf)@ == old(buf)@ + d@,
{
    let ghost b0 = buf@;
    let n = d.len();
    let mut i: usize = 0;
    while i < n
        invariant
            n == d@.len(),
            i <= n,
            buf@ == b0 + d@.subrange(0, i as int),
        decreases n - i,
    {
        buf.push(d[i]);
        i = i + 1;
        assert(buf@ =~= b0 + d@.subrange(0, i as int));
    }
    assert(d@.subrange(0, n as int) =~= d@);
}

/// Appends `d` as a byte string.
pub fn write_bytes(buf: &mut Vec<u8>, d: &[u8]) -> (r: Result<(), DBError>)
    ensures
        r is Ok <==> d@.len() <= u32::MAX,
        r is Ok ==> final(buf)@ == old(buf)@ + enc_bytes(d@),
{
    if d.len() > u32::MAX as usize {
        return Err(DBError::FileFormat(String::from_str("byte string too long")));
    }
    match put_str_len(buf, d.len() as u32) {
        Err(m) => Err(DBError::SendValue(m)),
        Ok(()) => {
            let ghost b1 = buf@;
            push_all(buf, d);
            assert(buf@ =~= b1 + d@);
            Ok(())
        },
    }
}

fn write_range(buf: &mut Vec<u8>, r: Range) -> (res: Result<(), DBError>)
    ensures
        res is Ok,
        final(buf)@ == old(buf)@ + enc_uint(r.min) + enc_uint(r.max),
{
    match put_uint(buf, r.min) {
        Err(m) => Err(DBError::SendValue(m)),
        Ok(()) => match put_uint(buf, r.max) {
            Err(m) => Err(DBError::SendValue(m)),
            Ok(()) => Ok(()),
        },
    }
}

/// Every length that encoding the objects `s` writes fits in its header.
pub open spec fn objects_sized(s: Seq<(RangeV, Seq<u8>)>) -> bool {
    3 * s.len() <= u32::MAX && forall|k: int| 0 <= k < s.len() ==> (#[trigger] s[k]).1.len() <= u32::MAX
}

/// Every length that encoding the bitmaps `s` writes fits in its header.
pub open spec fn bitmaps_sized(s: Seq<(RangeV, BitmapV)>) -> bool {
    3 * s.len() <= u32::MAX && forall|k: int| 0 <= k < s.len() ==> (#[trigger] s[k]).1.1.len() <= u32::MAX
}

/// Appends an index of objects.
#[verifier::rlimit(50)]
pub fn write_object_index(buf: &mut Vec<u8>, idx: &RangeIndex<Object>) -> (r: Result<(), DBError>)
    ensures
        r is Ok <==> objects_sized(idx@),
        r is Ok ==> final(buf)@ == old(buf)@ + enc_index(idx@, object_enc()),
{
    let ghost s = idx@;
    let ghost f = object_enc();
    let n = idx.len();
    if n > (u32::MAX / 3) as usize {
        return Err(DBError::FileFormat(String::from_str("index too large")));
    }
    match put_array_len(buf, (3 * n) as u32) {
        Err(m) => { return Err(DBError::SendValue(m)); },
        Ok(()) => {},
    }
    let ghost b1 = buf@;
    assert(enc_all(s.subrange(0, 0), f) =~= Seq::<u8>::empty());
    assert(b1 =~= b1 + enc_all(s.subrange(0, 0), f));
    let mut i: usize = 0;
    while i < n
        invariant
            n == s.len(),
            s == idx@,
            i <= n,
            f == object_enc(),
            forall|k: int| 0 <= k < i ==> (#[trigger] s[k]).1.len() <= u32::MAX,
            buf@ == b1 + enc_all(s.subrange(0, i as int), f),
        decreases n - i,
    {
        let e = idx.get(i);
        let ghost before = buf@;
        match write_range(buf, e.0) {
            Err(x) => { return Err(x); },
            Ok(()) => {},
        }
        match write_bytes(buf, e.1.data.as_slice()) {
            Err(x) => {
                assert(s[i as int].1 == e.1@);
                return Err(x);
            },
            Ok(()) => {},
        }
        proof {
            assert(s.subrange(0, i + 1) =~= s.subrange(0, i as int).push(s[i as int]));
            lemma_enc_all_push(s.subrange(0, i as int), s[i as int], f);
            assert(buf@ =~= b1 + enc_all(s.subrange(0, i + 1), f));
        }
        i = i + 1;
    }
    assert(s.subrange(0, n as int) =~= s);
    Ok(())
}

/// Appends an index of bitmaps.
#[verifier::rlimit(50)]
pub fn write_bitmap_index(buf: &mut Vec<u8>, idx: &RangeIndex<Bitmap>) -> (r: Result<(), DBError>)
    ensures
        r is Ok <==> bitmaps_sized(idx@),
        r is Ok ==> final(buf)@ == old(buf)@ + enc_index(idx@, bitmap_enc()),
{
    let ghost s = idx@;
    let ghost f = bitmap_enc();
    let n = idx.len();
    if n > (u32::MAX / 3) as usize {
        return Err(DBError::FileFormat(String::from_str("index too large")));
    }
    match put_array_len(buf, (3 * n) as u32) {
        Err(m) => { return Err(DBError::SendValue(m)); },
        Ok(()) => {},
    }
    let ghost b1 = buf@;
    assert(enc_all(s.subrange(0, 0), f) =~= Seq::<u8>::empty());
    assert(b1 =~= b1 + enc_all(s.subrange(0, 0), f));
    let mut i: usize = 0;
    while i < n
        invariant
            n == s.len(),
            s == idx@,
            i <= n,
            f == bitmap_enc(),
            forall|k: int| 0 <= k < i ==> (#[trigger] s[k]).1.1.len() <= u32::MAX,
            buf@ == b1 + enc_all(s.subrange(0, i as int), f),
        decreases n - i,
    {
        let e = idx.get(i);
        let ghost before = buf@;
        match write_range(buf, e.0) {
            Err(x) => { return Err(x); },
            Ok(()) => {},
        }
        match put_array_len(buf, 2) {
            Err(m) => { return Err(DBError::SendValue(m)); },
            Ok(()) => {},
        }
        match put_uint(buf, e.1.entry_size) {
            Err(m) => { return Err(DBError::SendValue(m)); },
            Ok(()) => {},
        }
        match write_bytes(buf, e.1.data.as_slice()) {
            Err(x) => {
                assert(s[i as int].1 == e.1@);
                return Err(x);
            },
            Ok(()) => {},
        }
        proof {
            assert(s.subrange(0, i + 1) =~= s.subrange(0, i as int).push(s[i as int]));
            lemma_enc_all_push(s.subrange(0, i as int), s[i as int], f);
            assert(buf@ =~= b1 + enc_all(s.subrange(0, i + 1), f));
        }
        i = i + 1;
    }
    assert(s.subrange(0, n as int) =~= s);
    Ok(())
}


/// The result of reading more after `acc`, already read over `c` bytes.
pub open spec fn then_read<T>(acc: Seq<T>, c: int, res: Result<(Seq<T>, int), Fault>) -> Result<(Seq<T>, int), Fault> {
    match res {
        Err(f) => Err(f),
        Ok((rest, k)) => Ok((acc + rest, c + k)),
    }
}

/// Reads a byte string.
pub fn read_bytes(rd: &[u8]) -> (r: Result<(Vec<u8>, &[u8]), DBError>)
    ensures
        r is Ok <==> parse_bytes(rd@) is Ok,
        r matches Ok((d, rest)) ==> (parse_bytes(rd@) matches Ok((x, k)) && x == d@ && k == rd@.len()
            - rest@.len() && rest_after(rd@, rest@, k)),
        r matches Err(e) ==> (parse_bytes(rd@) matches Err(f) && f == e.fault()),
{
    match take_str_len(rd) {
        Err(m) => Err(DBError::ParseValue(m)),
        Ok((n, rest)) => {
            if n as usize > rest.len() {
                return Err(DBError::FileFormat(String::from_str("unexpected end of input")));
            }
            let d = slice_to_vec(slice_subrange(rest, 0, n as usize));
            let after = slice_subrange(rest, n as usize, rest.len());
            let ghost k = rd@.len() - rest@.len();
            assert(d@ =~= rd@.subrange(k, k + n));
            assert(after@ =~= rd@.subrange(k + n, rd@.len() as int));
            Ok((d, after))
        },
    }
}

/// Reads the two ends of a range.
pub fn read_range(rd: &[u8]) -> (r: Result<(Range, &[u8]), DBError>)
    ensures
        r is Ok <==> parse_range(rd@) is Ok,
        r matches Ok((g, rest)) ==> (parse_range(rd@) matches Ok((x, k)) && x == g@ && k == rd@.len()
            - rest@.len() && rest_after(rd@, rest@, k)),
        r matches Err(e) ==> (parse_range(rd@) matches Err(f) && f == e.fault()),
{
    match take_uint(rd) {
        Err(m) => Err(DBError::ParseValue(m)),
        Ok((a, rest)) => {
            assert(rest@ == skip(rd@, rd@.len() - rest@.len()));
            match take_uint(rest) {
                Err(m) => Err(DBError::ParseValue(m)),
                Ok((b, rest2)) => {
                    if a > b {
                        return Err(DBError::FileFormat(String::from_str("range ends out of order")));
                    }
                    assert(rest2@ =~= rd@.subrange(rd@.len() - rest2@.len(), rd@.len() as int));
                    Ok((Range::new(a, b), rest2))
                },
            }
        },
    }
}

/// Reads one entry of an index of objects.
pub fn read_object_entry(rd: &[u8]) -> (r: Result<((Range, Object), &[u8]), DBError>)
    ensures
        r is Ok <==> parse_object_entry(rd@) is Ok,
        r matches Ok((g, rest)) ==> (parse_object_entry(rd@) matches Ok((x, k)) && x == (g.0@, g.1@)
            && k == rd@.len() - rest@.len() && rest_after(rd@, rest@, k)),
        r matches Err(e) ==> (parse_object_entry(rd@) matches Err(f) && f == e.fault()),
{
    match read_range(rd) {
        Err(e) => Err(e),
        Ok((g, rest)) => {
            assert(rest@ == skip(rd@, rd@.len() - rest@.len()));
            match read_bytes(rest) {
                Err(e) => Err(e),
                Ok((d, rest2)) => {
                    assert(rest2@ =~= rd@.subrange(rd@.len() - rest2@.len(), rd@.len() as int));
                    Ok(((g, Object::new(d)), rest2))
                },
            }
        },
    }
}

/// Whether a bitmap of entry size `es` and `n` bytes holds one entry per key of `r`.
fn fits(r: Range, es: u64, n: usize) -> (b: bool)
    requires
        r.wf(),
    ensures
        b == bitmap_fits(r@, (es, Seq::new(n as nat, |i: int| 0u8))),
{
    if es == 0 {
        return false;
    }
    let span = (r.max - r.min) as u128 + 1;
    assert((es as int) * (span as int) <= u128::MAX) by (nonlinear_arith)
        requires
            0 <= es <= u64::MAX,
            0 <= span <= u64::MAX + 1,
    ;
    let total = (es as u128) * span;
    total == n as u128
}

/// Reads one entry of an index of bitmaps.
#[verifier::rlimit(40)]
pub fn read_bitmap_entry(rd: &[u8]) -> (r: Result<((Range, Bitmap), &[u8]), DBError>)
    ensures
        r is Ok <==> parse_bitmap_entry(rd@) is Ok,
        r matches Ok((g, rest)) ==> (parse_bitmap_entry(rd@) matches Ok((x, k)) && x == (g.0@, g.1@)
            && k == rd@.len() - rest@.len() && rest_after(rd@, rest@, k)),
        r matches Err(e) ==> (parse_bitmap_entry(rd@) matches Err(f) && f == e.fault()),
{
    match read_range(rd) {
        Err(e) => Err(e),
        Ok((g, rest)) => {
            let ghost k1 = rd@.len() - rest@.len();
            assert(rest@ == skip(rd@, k1));
            match take_array_len(rest) {
                Err(m) => Err(DBError::ParseValue(m)),
                Ok((n, rest2)) => {
                    if n != 2 {
                        return Err(DBError::FileFormat(String::from_str("a bitmap is an array of two")));
                    }
                    assert(rest2@ =~= skip(rest@, rest@.len() - rest2@.len()));
                    match take_uint(rest2) {
                        Err(m) => Err(DBError::ParseValue(m)),
                        Ok((es, rest3)) => {
                            assert(rest3@ =~= skip(rest@, rest@.len() - rest3@.len()));
                            match read_bytes(rest3) {
                                Err(e) => Err(e),
                                Ok((d, rest4)) => {
                                    assert(rest4@ =~= skip(rest@, rest@.len() - rest4@.len()));
                                    assert(rest4@ =~= skip(rd@, rd@.len() - rest4@.len()));
                                    if !fits(g, es, d.len()) {
                                        return Err(DBError::FileFormat(String::from_str("bitmap length does not match its range")));
                                    }
                                    Ok(((g, Bitmap::new(es, d)), rest4))
                                },
                            }
                        },
                    }
                },
            }
        },
    }
}

/// One step of reading entries after `acc`: what the first entry decides.
pub proof fn lemma_entries_step<T>(
    acc: Seq<(RangeV, T)>,
    c: int,
    s: Seq<u8>,
    n: nat,
    pe: spec_fn(Seq<u8>) -> Result<((RangeV, T), int), Fault>,
)
    requires
        n > 0,
    ensures
        parse_entries(s, 0, pe) == Ok::<(Seq<(RangeV, T)>, int), Fault>((Seq::empty(), 0)),
        pe(s) matches Err(f) ==> then_read(acc, c, parse_entries(s, n, pe)) == Err::<(Seq<(RangeV, T)>, int), Fault>(f),
        pe(s) matches Ok((e, k)) ==> then_read(acc, c, parse_entries(s, n, pe)) == then_read(
            acc.push(e),
            c + k,
            parse_entries(skip(s, k), (n - 1) as nat, pe),
        ),
{
    reveal(parse_entries);
    match pe(s) {
        Err(f) => {},
        Ok((e, k)) => {
            match parse_entries(skip(s, k), (n - 1) as nat, pe) {
                Err(f) => {},
                Ok((rest, k2)) => {
                    assert(acc + (seq![e] + rest) =~= acc.push(e) + rest);
                },
            }
        },
    }
}

/// Reads an index of objects.
#[verifier::rlimit(50)]
pub fn read_object_index(rd: &[u8]) -> (r: Result<(RangeIndex<Object>, &[u8]), DBError>)
    ensures
        r is Ok <==> parse_index(rd@, object_pe()) is Ok,
        r matches Ok((idx, rest)) ==> idx.wf() && (parse_index(rd@, object_pe()) matches Ok((x, k)) && x
            == idx@ && k == rd@.len() - rest@.len() && rest_after(rd@, rest@, k)),
        r matches Err(e) ==> (parse_index(rd@, object_pe()) matches Err(f) && f == e.fault()),
{
    let ghost pe = object_pe();
    match take_array_len(rd) {
        Err(m) => Err(DBError::ParseValue(m)),
        Ok((l, body)) => {
            let ghost k0 = rd@.len() - body@.len();
            assert(body@ == skip(rd@, k0));
            let count = l / 3;
            assert(parse_index(rd@, pe) == match parse_entries(body@, count as nat, pe) {
                Err(f) => Err(f),
                Ok((es, k2)) => Ok((sorted_from(es), k0 + k2)),
            });
            let mut idx: RangeIndex<Object> = RangeIndex::new();
            let mut cur = body;
            let ghost mut acc: Seq<(RangeV, Seq<u8>)> = Seq::empty();
            let mut i: u32 = 0;
            assert(acc + Seq::<(RangeV, Seq<u8>)>::empty() =~= acc);
            assert(idx@ =~= sorted_from(acc));
            while i < count
                invariant
                    pe == object_pe(),
                    parse_index(rd@, pe) == match parse_entries(body@, count as nat, pe) {
                        Err(f) => Err(f),
                        Ok((es, k2)) => Ok((sorted_from(es), k0 + k2)),
                    },
                    body@ == skip(rd@, k0),
                    k0 == rd@.len() - body@.len(),
                    i <= count,
                    idx.wf(),
                    idx@ == sorted_from(acc),
                    cur@ == skip(body@, body@.len() - cur@.len()),
                    cur@.len() <= body@.len(),
                    parse_entries(body@, count as nat, pe) == then_read(
                        acc,
                        body@.len() - cur@.len(),
                        parse_entries(cur@, (count - i) as nat, pe),
                    ),
                decreases count - i,
            {
                let ghost c = body@.len() - cur@.len();
                proof {
                    lemma_entries_step(acc, c, cur@, (count - i) as nat, pe);
                }
                assert(pe(cur@) == parse_object_entry(cur@));
                match read_object_entry(cur) {
                    Err(e) => { return Err(e); },
                    Ok((g, next)) => {
                        let ghost k = cur@.len() - next@.len();
                        let ghost before = idx@;
                        let ghost e = (g.0@, g.1@);
                        idx.insert(g.0, g.1);
                        proof {
                            let p = choose|p: int| insert_point(before, p, g.0@) && idx@ == before.insert(p, e);
                            lemma_upper_pos(before, g.0@);
                            lemma_insert_point_unique(before, p, upper_pos(before, g.0@), g.0@);
                            assert(acc.push(e).drop_last() =~= acc);
                            acc = acc.push(e);
                            assert(next@ =~= skip(body@, body@.len() - next@.len()));
                            assert(skip(cur@, k) =~= next@);
                            assert(c + k == body@.len() - next@.len());
                        }
                        cur = next;
                    },
                }
                i = i + 1;
            }
            assert(acc + Seq::<(RangeV, Seq<u8>)>::empty() =~= acc);
            assert(cur@ =~= skip(rd@, rd@.len() - cur@.len()));
            assert(parse_entries(cur@, 0, pe) == Ok::<(Seq<(RangeV, Seq<u8>)>, int), Fault>((Seq::empty(), 0))) by {
                reveal(parse_entries);
            }
            Ok((idx, cur))
        },
    }
}

/// Reads an index of bitmaps; every bitmap holds one entry per key of its range.
#[verifier::rlimit(50)]
pub fn read_bitmap_index(rd: &[u8]) -> (r: Result<(RangeIndex<Bitmap>, &[u8]), DBError>)
    ensures
        r is Ok <==> parse_index(rd@, bitmap_pe()) is Ok,
        r matches Ok((idx, rest)) ==> idx.wf() && (forall|k: int|
            0 <= k < idx@.len() ==> bitmap_fits(#[trigger] idx@[k].0, idx@[k].1)) && (parse_index(rd@, bitmap_pe()) matches Ok((x, k)) && x
            == idx@ && k == rd@.len() - rest@.len() && rest_after(rd@, rest@, k)),
        r matches Err(e) ==> (parse_index(rd@, bitmap_pe()) matches Err(f) && f == e.fault()),
{
    let ghost pe = bitmap_pe();
    match take_array_len(rd) {
        Err(m) => Err(DBError::ParseValue(m)),
        Ok((l, body)) => {
            let ghost k0 = rd@.len() - body@.len();
            assert(body@ == skip(rd@, k0));
            let count = l / 3;
            assert(parse_index(rd@, pe) == match parse_entries(body@, count as nat, pe) {
                Err(f) => Err(f),
                Ok((es, k2)) => Ok((sorted_from(es), k0 + k2)),
            });
            let mut idx: RangeIndex<Bitmap> = RangeIndex::new();
            let mut cur = body;
            let ghost mut acc: Seq<(RangeV, BitmapV)> = Seq::empty();
            let mut i: u32 = 0;
            assert(acc + Seq::<(RangeV, BitmapV)>::empty() =~= acc);
            assert(idx@ =~= sorted_from(acc));
            while i < count
                invariant
                    pe == bitmap_pe(),
                    parse_index(rd@, pe) == match parse_entries(body@, count as nat, pe) {
                        Err(f) => Err(f),
                        Ok((es, k2)) => Ok((sorted_from(es), k0 + k2)),
                    },
                    body@ == skip(rd@, k0),
                    k0 == rd@.len() - body@.len(),
                    i <= count,
                    idx.wf(),
                    forall|k: int| 0 <= k < idx@.len() ==> bitmap_fits(#[trigger] idx@[k].0, idx@[k].1),
                    idx@ == sorted_from(acc),
                    cur@ == skip(body@, body@.len() - cur@.len()),
                    cur@.len() <= body@.len(),
                    parse_entries(body@, count as nat, pe) == then_read(
                        acc,
                        body@.len() - cur@.len(),
                        parse_entries(cur@, (count - i) as nat, pe),
                    ),
                decreases count - i,
            {
                let ghost c = body@.len() - cur@.len();
                proof {
                    lemma_entries_step(acc, c, cur@, (count - i) as nat, pe);
                }
                assert(pe(cur@) == parse_bitmap_entry(cur@));
                match read_bitmap_entry(cur) {
                    Err(e) => { return Err(e); },
                    Ok((g, next)) => {
                        let ghost k = cur@.len() - next@.len();
                        let ghost before = idx@;
                        let ghost e = (g.0@, g.1@);
                        idx.insert(g.0, g.1);
                        proof {
                            let p = choose|p: int| insert_point(before, p, g.0@) && idx@ == before.insert(p, e);
                            lemma_upper_pos(before, g.0@);
                            lemma_insert_point_unique(before, p, upper_pos(before, g.0@), g.0@);
                            assert(acc.push(e).drop_last() =~= acc);
                            acc = acc.push(e);
                            assert(next@ =~= skip(body@, body@.len() - next@.len()));
                            assert(skip(cur@, k) =~= next@);
                            assert(c + k == body@.len() - next@.len());
                        }
                        cur = next;
                    },
                }
                i = i + 1;
            }
            assert(acc + Seq::<(RangeV, BitmapV)>::empty() =~= acc);
            assert(cur@ =~= skip(rd@, rd@.len() - cur@.len()));
            assert(parse_entries(cur@, 0, pe) == Ok::<(Seq<(RangeV, BitmapV)>, int), Fault>((Seq::empty(), 0))) by {
                reveal(parse_entries);
            }
            Ok((idx, cur))
        },
    }
}

/// Reads a table name.
pub fn read_name(rd: &[u8]) -> (r: Result<(String, &[u8]), DBError>)
    ensures
        r is Ok <==> parse_name(rd@) is Ok,
        r matches Ok((g, rest)) ==> (parse_name(rd@) matches Ok((x, k)) && x == g@ && k == rd@.len()
            - rest@.len() && rest_after(rd@, rest@, k)),
        r matches Err(e) ==> (parse_name(rd@) matches Err(f) && f == e.fault()),
{
    match read_bytes(rd) {
        Err(e) => Err(e),
        Ok((d, rest)) => match string_from_utf8(d) {
            Err(e) => Err(DBError::UTF8(e)),
            Ok(name) => Ok((name, rest)),
        },
    }
}

/// What a list of named indexes holds.
pub open spec fn tables_view<V: View>(v: Seq<(String, RangeIndex<V>)>) -> Seq<(Seq<char>, Seq<(RangeV, V::V)>)> {
    v.map_values(|e: (String, RangeIndex<V>)| (e.0@, e.1@))
}

/// What a list of named object indexes holds.
pub open spec fn object_tables(v: Seq<(String, RangeIndex<Object>)>) -> Seq<(Seq<char>, Seq<(RangeV, Seq<u8>)>)> {
    tables_view(v)
}

/// What a list of named bitmap indexes holds.
pub open spec fn bitmap_tables(v: Seq<(String, RangeIndex<Bitmap>)>) -> Seq<(Seq<char>, Seq<(RangeV, BitmapV)>)> {
    tables_view(v)
}

/// Names strictly in the order of their UTF-8 bytes.
pub open spec fn names_sorted<T>(ts: Seq<(Seq<char>, T)>) -> bool {
    forall|i: int, j: int|
        0 <= i < j < ts.len() ==> bytes_lt(encode_utf8((#[trigger] ts[i]).0), encode_utf8((#[trigger] ts[j]).0))
}

/// One step of reading tables after `acc`: what the first name and index decide.
pub proof fn lemma_tables_step<T>(
    acc: Seq<(Seq<char>, Seq<(RangeV, T)>)>,
    c: int,
    s: Seq<u8>,
    n: nat,
    pe: spec_fn(Seq<u8>) -> Result<((RangeV, T), int), Fault>,
)
    requires
        n > 0,
    ensures
        parse_tables(s, 0, pe) == Ok::<(Seq<(Seq<char>, Seq<(RangeV, T)>)>, int), Fault>((Seq::empty(), 0)),
        parse_name(s) matches Err(f) ==> then_read(acc, c, parse_tables(s, n, pe)) == Err::<
            (Seq<(Seq<char>, Seq<(RangeV, T)>)>, int),
            Fault,
        >(f),
        parse_name(s) matches Ok((nm, k)) ==> {
            &&& parse_index(skip(s, k), pe) matches Err(f) ==> then_read(acc, c, parse_tables(s, n, pe))
                == Err::<(Seq<(Seq<char>, Seq<(RangeV, T)>)>, int), Fault>(f)
            &&& parse_index(skip(s, k), pe) matches Ok((es, k2)) ==> then_read(acc, c, parse_tables(s, n, pe))
                == then_read(acc.push((nm, es)), c + k + k2, parse_tables(skip(s, k + k2), (n - 1) as nat, pe))
        },
{
    reveal(parse_tables);
    match parse_name(s) {
        Err(f) => {},
        Ok((nm, k)) => {
            match parse_index(skip(s, k), pe) {
                Err(f) => {},
                Ok((es, k2)) => {
                    match parse_tables(skip(s, k + k2), (n - 1) as nat, pe) {
                        Err(f) => {},
                        Ok((rest, k3)) => {
                            assert(acc + (seq![(nm, es)] + rest) =~= acc.push((nm, es)) + rest);
                        },
                    }
                },
            }
        },
    }
}

/// In a list in name order, `name_pos` is after every name before `nm`, and at a name that
/// is not before it.
pub proof fn lemma_name_pos<T>(ts: Seq<(Seq<char>, T)>, nm: Seq<char>)
    requires
        names_sorted(ts),
    ensures
        0 <= name_pos(ts, nm) <= ts.len(),
        forall|j: int| 0 <= j < name_pos(ts, nm) ==> bytes_lt(encode_utf8(#[trigger] ts[j].0), encode_utf8(nm)),
        name_pos(ts, nm) < ts.len() ==> !bytes_lt(encode_utf8(ts[name_pos(ts, nm)].0), encode_utf8(nm)),
    decreases ts.len(),
{
    if ts.len() > 0 {
        let d = ts.drop_last();
        if bytes_lt(encode_utf8(ts.last().0), encode_utf8(nm)) {
            assert forall|j: int| 0 <= j < ts.len() implies bytes_lt(encode_utf8(#[trigger] ts[j].0), encode_utf8(nm)) by {
                if j < ts.len() - 1 {
                    lemma_bytes_lt_transitive(encode_utf8(ts[j].0), encode_utf8(ts[ts.len() - 1].0), encode_utf8(nm));
                }
            }
        } else {
            assert(names_sorted(d)) by {
                assert forall|a: int, b: int| 0 <= a < b < d.len() implies bytes_lt(
                    encode_utf8((#[trigger] d[a]).0),
                    encode_utf8((#[trigger] d[b]).0),
                ) by {
                    assert(d[a] == ts[a] && d[b] == ts[b]);
                }
            }
            lemma_name_pos(d, nm);
            assert forall|j: int| 0 <= j < name_pos(ts, nm) implies bytes_lt(encode_utf8(#[trigger] ts[j].0), encode_utf8(nm)) by {
                assert(d[j] == ts[j]);
            }
            if name_pos(d, nm) < d.len() {
                assert(d[name_pos(d, nm)] == ts[name_pos(d, nm)]);
            }
        }
    }
}

/// Putting in tables that come strictly in name order gives them back in that order.
pub proof fn lemma_tables_from_in_order<T>(ts: Seq<(Seq<char>, T)>)
    requires
        names_sorted(ts),
    ensures
        tables_from(ts) == ts,
    decreases ts.len(),
{
    if ts.len() > 0 {
        let d = ts.drop_last();
        assert(names_sorted(d)) by {
            assert forall|a: int, b: int| 0 <= a < b < d.len() implies bytes_lt(
                encode_utf8((#[trigger] d[a]).0),
                encode_utf8((#[trigger] d[b]).0),
            ) by {
                assert(d[a] == ts[a] && d[b] == ts[b]);
            }
        }
        lemma_tables_from_in_order(d);
        if d.len() > 0 {
            assert(d.last() == ts[ts.len() - 2]);
            assert(bytes_lt(encode_utf8(d.last().0), encode_utf8(ts.last().0)));
        }
        assert(name_pos(d, ts.last().0) == d.len());
        assert(d.insert(d.len() as int, ts.last()) =~= ts);
    }
}

/// Where the table named `name` stands or goes in `out`.
fn name_slot<V: View>(out: &Vec<(String, RangeIndex<V>)>, name: &String) -> (p: usize)
    ensures
        p <= out@.len(),
        forall|j: int| 0 <= j < p ==> bytes_lt(encode_utf8(#[trigger] out@[j].0@), encode_utf8(name@)),
        p < out@.len() ==> !bytes_lt(encode_utf8(out@[p as int].0@), encode_utf8(name@)),
{
    let n = out.len();
    let key = name.as_str().as_bytes();
    let mut j: usize = 0;
    while j < n
        invariant
            n == out@.len(),
            key@ == encode_utf8(name@),
            j <= n,
            forall|a: int| 0 <= a < j ==> bytes_lt(encode_utf8(#[trigger] out@[a].0@), encode_utf8(name@)),
        decreases n - j,
    {
        match compare_bytes(out[j].0.as_str().as_bytes(), key) {
            Ordering::Less => {},
            _ => {
                return j;
            },
        }
        j = j + 1;
    }
    n
}

/// Puts the index `idx`, named `name`, into `out`: in place of the index of the same name,
/// or else at its place in name order.
pub fn put_named<V: View>(out: &mut Vec<(String, RangeIndex<V>)>, name: String, idx: RangeIndex<V>)
    requires
        names_sorted(tables_view(old(out)@)),
    ensures
        tables_view(final(out)@) == put_table(tables_view(old(out)@), (name@, idx@)),
        names_sorted(tables_view(final(out)@)),
        forall|j: int|
            0 <= j < final(out)@.len() ==> #[trigger] final(out)@[j] == (name, idx) || exists|i: int|
                0 <= i < old(out)@.len() && old(out)@[i] == final(out)@[j],
{
    let ghost ts = tables_view(out@);
    let ghost o = out@;
    let p = name_slot(out, &name);
    proof {
        assert forall|j: int| 0 <= j < p implies bytes_lt(encode_utf8(#[trigger] ts[j].0), encode_utf8(name@)) by {
            assert(ts[j].0 == out@[j].0@);
        }
        if p < out@.len() {
            assert(ts[p as int].0 == out@[p as int].0@);
        }
        lemma_name_pos(ts, name@);
        let q = name_pos(ts, name@);
        if (p as int) < q {
            assert(bytes_lt(encode_utf8(ts[p as int].0), encode_utf8(name@)));
        }
        if q < p {
            assert(bytes_lt(encode_utf8(ts[q].0), encode_utf8(name@)));
        }
    }
    let same = p < out.len() && match compare_bytes(out[p].0.as_str().as_bytes(), name.as_str().as_bytes()) {
        Ordering::Equal => true,
        _ => false,
    };
    let ghost nm = name@;
    if same {
        proof {
            vstd::utf8::encode_utf8_decode_utf8(out@[p as int].0@);
            vstd::utf8::encode_utf8_decode_utf8(nm);
        }
        out.remove(p);
        out.insert(p, (name, idx));
        proof {
            assert(tables_view(out@) =~= ts.update(p as int, (nm, idx@)));
            assert forall|j: int| 0 <= j < out@.len() implies #[trigger] out@[j] == (name, idx) || exists|i: int|
                0 <= i < o.len() && o[i] == out@[j] by {
                if j != p {
                    assert(o[j] == out@[j]);
                }
            }
            assert forall|a: int, b: int| 0 <= a < b < out@.len() implies bytes_lt(
                encode_utf8((#[trigger] tables_view(out@)[a]).0),
                encode_utf8((#[trigger] tables_view(out@)[b]).0),
            ) by {
                assert(tables_view(out@)[a].0 == ts[a].0 && tables_view(out@)[b].0 == ts[b].0);
            }
        }
    } else {
        proof {
            if p < o.len() && ts[p as int].0 == nm {
                assert(encode_utf8(o[p as int].0@) == encode_utf8(nm));
            }
        }
        let ghost gt = p < o.len();
        proof {
            if p < o.len() {
                // not before, not equal: after
                assert(encode_utf8(o[p as int].0@) != encode_utf8(nm));
            }
        }
        out.insert(p, (name, idx));
        proof {
            assert(tables_view(out@) =~= ts.insert(p as int, (nm, idx@)));
            assert forall|j: int| 0 <= j < out@.len() implies #[trigger] out@[j] == (name, idx) || exists|i: int|
                0 <= i < o.len() && o[i] == out@[j] by {
                if j < p {
                    assert(o[j] == out@[j]);
                } else if j > p {
                    assert(o[j - 1] == out@[j]);
                }
            }
            let tv = tables_view(out@);
            assert forall|a: int, b: int| 0 <= a < b < tv.len() implies bytes_lt(
                encode_utf8((#[trigger] tv[a]).0),
                encode_utf8((#[trigger] tv[b]).0),
            ) by {
                if b < p {
                    assert(tv[a] == ts[a] && tv[b] == ts[b]);
                } else if b == p {
                    assert(tv[a] == ts[a]);
                } else if a > p {
                    assert(tv[a] == ts[a - 1] && tv[b] == ts[b - 1]);
                } else {
                    // a <= p < b
                    assert(tv[b] == ts[b - 1]);
                    assert(bytes_lt(encode_utf8(nm), encode_utf8(ts[p as int].0)));
                    if b - 1 > p {
                        lemma_bytes_lt_transitive(encode_utf8(nm), encode_utf8(ts[p as int].0), encode_utf8(ts[b - 1].0));
                    }
                    if a < p {
                        assert(tv[a] == ts[a]);
                        lemma_bytes_lt_transitive(encode_utf8(ts[a].0), encode_utf8(nm), encode_utf8(ts[b - 1].0));
                    }
                }
            }
        }
    }
}

/// Reads a collection of named object indexes: one index per name, the last one read for
/// each name, in name order.
#[verifier::rlimit(50)]
pub fn read_object_collection(rd: &[u8]) -> (r: Result<(Vec<(String, RangeIndex<Object>)>, &[u8]), DBError>)
    ensures
        r is Ok <==> parse_collection(rd@, object_pe()) is Ok,
        r matches Ok((v, rest)) ==> (forall|i: int| 0 <= i < v@.len() ==> (#[trigger] v@[i]).1.wf())
            && names_sorted(object_tables(v@)) && (parse_collection(rd@, object_pe()) matches Ok((x, k))
            && x == object_tables(v@) && k == rd@.len() - rest@.len() && rest_after(rd@, rest@, k)),
        r matches Err(e) ==> (parse_collection(rd@, object_pe()) matches Err(f) && f == e.fault()),
{
    let ghost pe = object_pe();
    match take_map_len(rd) {
        Err(m) => Err(DBError::ParseValue(m)),
        Ok((count, body)) => {
            let ghost k0 = rd@.len() - body@.len();
            assert(body@ == skip(rd@, k0));
            assert(parse_collection(rd@, pe) == match parse_tables(body@, count as nat, pe) {
                Err(f) => Err(f),
                Ok((ts, k2)) => Ok((tables_from(ts), k0 + k2)),
            });
            let mut out: Vec<(String, RangeIndex<Object>)> = Vec::new();
            let ghost mut acc: Seq<(Seq<char>, Seq<(RangeV, Seq<u8>)>)> = Seq::empty();
            assert(object_tables(out@) =~= tables_from(acc));
            assert(acc + Seq::<(Seq<char>, Seq<(RangeV, Seq<u8>)>)>::empty() =~= acc);
            let mut cur = body;
            let mut i: u32 = 0;
            while i < count
                invariant
                    pe == object_pe(),
                    parse_collection(rd@, pe) == match parse_tables(body@, count as nat, pe) {
                        Err(f) => Err(f),
                        Ok((ts, k2)) => Ok((tables_from(ts), k0 + k2)),
                    },
                    body@ == skip(rd@, k0),
                    k0 == rd@.len() - body@.len(),
                    i <= count,
                    forall|j: int| 0 <= j < out@.len() ==> (#[trigger] out@[j]).1.wf(),
                    names_sorted(object_tables(out@)),
                    object_tables(out@) == tables_from(acc),
                    cur@ == skip(body@, body@.len() - cur@.len()),
                    cur@.len() <= body@.len(),
                    parse_tables(body@, count as nat, pe) == then_read(
                        acc,
                        body@.len() - cur@.len(),
                        parse_tables(cur@, (count - i) as nat, pe),
                    ),
                decreases count - i,
            {
                let ghost c = body@.len() - cur@.len();
                proof {
                    lemma_tables_step(acc, c, cur@, (count - i) as nat, pe);
                }
                match read_name(cur) {
                    Err(e) => { return Err(e); },
                    Ok((name, after_name)) => {
                        let ghost k = cur@.len() - after_name@.len();
                        assert(after_name@ =~= skip(cur@, k));
                        match read_object_index(after_name) {
                            Err(e) => { return Err(e); },
                            Ok((idx, next)) => {
                                let ghost k2 = after_name@.len() - next@.len();
                                let ghost t = (name@, idx@);
                                proof {
                                    assert(skip(cur@, k + k2) =~= next@);
                                    assert(next@ =~= skip(body@, body@.len() - next@.len()));
                                }
                                put_named(&mut out, name, idx);
                                proof {
                                    assert(acc.push(t).drop_last() =~= acc);
                                    acc = acc.push(t);
                                }
                                cur = next;
                            },
                        }
                    },
                }
                i = i + 1;
            }
            assert(acc + Seq::<(Seq<char>, Seq<(RangeV, Seq<u8>)>)>::empty() =~= acc);
            assert(cur@ =~= skip(rd@, rd@.len() - cur@.len()));
            assert(parse_tables(cur@, 0, pe) == Ok::<
                (Seq<(Seq<char>, Seq<(RangeV, Seq<u8>)>)>, int),
                Fault,
            >((Seq::empty(), 0))) by {
                reveal(parse_tables);
            }
            Ok((out, cur))
        },
    }
}

/// Reads a collection of named bitmap indexes: one index per name, the last one read for
/// each name, in name order.
#[verifier::rlimit(50)]
pub fn read_bitmap_collection(rd: &[u8]) -> (r: Result<(Vec<(String, RangeIndex<Bitmap>)>, &[u8]), DBError>)
    ensures
        r is Ok <==> parse_collection(rd@, bitmap_pe()) is Ok,
        r matches Ok((v, rest)) ==> (forall|i: int| 0 <= i < v@.len() ==> (#[trigger] v@[i]).1.wf())
            && (forall|i: int, k: int|
            0 <= i < v@.len() && 0 <= k < v@[i].1@.len() ==> bitmap_fits(
                (#[trigger] v@[i].1@[k]).0,
                v@[i].1@[k].1,
            ))
            && names_sorted(bitmap_tables(v@)) && (parse_collection(rd@, bitmap_pe()) matches Ok((x, k))
            && x == bitmap_tables(v@) && k == rd@.len() - rest@.len() && rest_after(rd@, rest@, k)),
        r matches Err(e) ==> (parse_collection(rd@, bitmap_pe()) matches Err(f) && f == e.fault()),
{
    let ghost pe = bitmap_pe();
    match take_map_len(rd) {
        Err(m) => Err(DBError::ParseValue(m)),
        Ok((count, body)) => {
            let ghost k0 = rd@.len() - body@.len();
            assert(body@ == skip(rd@, k0));
            assert(parse_collection(rd@, pe) == match parse_tables(body@, count as nat, pe) {
                Err(f) => Err(f),
                Ok((ts, k2)) => Ok((tables_from(ts), k0 + k2)),
            });
            let mut out: Vec<(String, RangeIndex<Bitmap>)> = Vec::new();
            let ghost mut acc: Seq<(Seq<char>, Seq<(RangeV, BitmapV)>)> = Seq::empty();
            assert(bitmap_tables(out@) =~= tables_from(acc));
            assert(acc + Seq::<(Seq<char>, Seq<(RangeV, BitmapV)>)>::empty() =~= acc);
            let mut cur = body;
            let mut i: u32 = 0;
            while i < count
                invariant
                    pe == bitmap_pe(),
                    parse_collection(rd@, pe) == match parse_tables(body@, count as nat, pe) {
                        Err(f) => Err(f),
                        Ok((ts, k2)) => Ok((tables_from(ts), k0 + k2)),
                    },
                    body@ == skip(rd@, k0),
                    k0 == rd@.len() - body@.len(),
                    i <= count,
                    forall|j: int| 0 <= j < out@.len() ==> (#[trigger] out@[j]).1.wf(),
                    forall|j: int, k: int|
                        0 <= j < out@.len() && 0 <= k < out@[j].1@.len() ==> bitmap_fits(
                            (#[trigger] out@[j].1@[k]).0,
                            out@[j].1@[k].1,
                        ),
                    names_sorted(bitmap_tables(out@)),
                    bitmap_tables(out@) == tables_from(acc),
                    cur@ == skip(body@, body@.len() - cur@.len()),
                    cur@.len() <= body@.len(),
                    parse_tables(body@, count as nat, pe) == then_read(
                        acc,
                        body@.len() - cur@.len(),
                        parse_tables(cur@, (count - i) as nat, pe),
                    ),
                decreases count - i,
            {
                let ghost c = body@.len() - cur@.len();
                proof {
                    lemma_tables_step(acc, c, cur@, (count - i) as nat, pe);
                }
                match read_name(cur) {
                    Err(e) => { return Err(e); },
                    Ok((name, after_name)) => {
                        let ghost k = cur@.len() - after_name@.len();
                        assert(after_name@ =~= skip(cur@, k));
                        match read_bitmap_index(after_name) {
                            Err(e) => { return Err(e); },
                            Ok((idx, next)) => {
                                let ghost k2 = after_name@.len() - next@.len();
                                let ghost t = (name@, idx@);
                                proof {
                                    assert(skip(cur@, k + k2) =~= next@);
                                    assert(next@ =~= skip(body@, body@.len() - next@.len()));
                                }
                                put_named(&mut out, name, idx);
                                proof {
                                    assert(acc.push(t).drop_last() =~= acc);
                                    acc = acc.push(t);
                                }
                                cur = next;
                            },
                        }
                    },
                }
                i = i + 1;
            }
            assert(acc + Seq::<(Seq<char>, Seq<(RangeV, BitmapV)>)>::empty() =~= acc);
            assert(cur@ =~= skip(rd@, rd@.len() - cur@.len()));
            assert(parse_tables(cur@, 0, pe) == Ok::<
                (Seq<(Seq<char>, Seq<(RangeV, BitmapV)>)>, int),
                Fault,
            >((Seq::empty(), 0))) by {
                reveal(parse_tables);
            }
            Ok((out, cur))
        },
    }
}

proof fn lemma_skip_concat(x: Seq<u8>, rest: Seq<u8>)
    ensures
        skip(x + rest, x.len() as int) == rest,
{
    assert(skip(x + rest, x.len() as int) =~= rest);
}

/// Reading back a byte string gives its bytes.
pub proof fn lemma_bytes_round_trip(d: Seq<u8>, rest: Seq<u8>)
    requires
        d.len() <= u32::MAX,
    ensures
        parse_bytes(enc_bytes(d) + rest) == Ok::<(Seq<u8>, int), Fault>((d, enc_bytes(d).len() as int)),
{
    let h = enc_str_len(d.len() as u32);
    assert(enc_bytes(d) + rest =~= h + (d + rest));
    lemma_str_len_round_trip(d.len() as u32, d + rest);
    assert((enc_bytes(d) + rest).subrange(h.len() as int, (h.len() + d.len()) as int) =~= d);
}

proof fn lemma_range_round_trip(a: u64, b: u64, rest: Seq<u8>)
    requires
        a <= b,
    ensures
        parse_range(enc_uint(a) + enc_uint(b) + rest) == Ok::<(RangeV, int), Fault>(
            ((a, b), (enc_uint(a) + enc_uint(b)).len() as int),
        ),
{
    let x = enc_uint(a) + enc_uint(b) + rest;
    assert(x =~= enc_uint(a) + (enc_uint(b) + rest));
    lemma_uint_round_trip(a, enc_uint(b) + rest);
    lemma_skip_concat(enc_uint(a), enc_uint(b) + rest);
    lemma_uint_round_trip(b, rest);
}

/// Reading back an object entry gives the entry.
pub proof fn lemma_object_entry_round_trip(e: (RangeV, Seq<u8>), rest: Seq<u8>)
    requires
        range_wf(e.0),
        e.1.len() <= u32::MAX,
    ensures
        parse_object_entry(enc_object_entry(e) + rest) == Ok::<((RangeV, Seq<u8>), int), Fault>(
            (e, enc_object_entry(e).len() as int),
        ),
{
    let r = enc_uint(e.0.0) + enc_uint(e.0.1);
    assert(enc_object_entry(e) + rest =~= r + (enc_bytes(e.1) + rest));
    lemma_range_round_trip(e.0.0, e.0.1, enc_bytes(e.1) + rest);
    lemma_skip_concat(r, enc_bytes(e.1) + rest);
    lemma_bytes_round_trip(e.1, rest);
}

proof fn lemma_bitmap_round_trip(b: BitmapV, rest: Seq<u8>)
    requires
        b.1.len() <= u32::MAX,
    ensures
        parse_bitmap(enc_bitmap(b) + rest) == Ok::<(BitmapV, int), Fault>((b, enc_bitmap(b).len() as int)),
{
    let a = enc_array_len(2);
    let u = enc_uint(b.0);
    let tail = enc_bytes(b.1) + rest;
    assert(enc_bitmap(b) + rest =~= a + (u + tail));
    lemma_array_len_round_trip(2, u + tail);
    lemma_skip_concat(a, u + tail);
    lemma_uint_round_trip(b.0, tail);
    assert(skip(a + (u + tail), (a.len() + u.len()) as int) =~= tail);
    lemma_bytes_round_trip(b.1, rest);
}

/// Reading back a bitmap entry gives the entry.
#[verifier::rlimit(30)]
pub proof fn lemma_bitmap_entry_round_trip(e: (RangeV, BitmapV), rest: Seq<u8>)
    requires
        bitmap_fits(e.0, e.1),
        e.1.1.len() <= u32::MAX,
    ensures
        parse_bitmap_entry(enc_bitmap_entry(e) + rest) == Ok::<((RangeV, BitmapV), int), Fault>(
            (e, enc_bitmap_entry(e).len() as int),
        ),
{
    let r = enc_uint(e.0.0) + enc_uint(e.0.1);
    let tail = enc_bitmap(e.1) + rest;
    assert(enc_bitmap_entry(e) + rest =~= r + tail);
    lemma_range_round_trip(e.0.0, e.0.1, tail);
    lemma_skip_concat(r, tail);
    lemma_bitmap_round_trip(e.1, rest);
}

/// Every entry of `s` reads back as itself, whatever follows it.
pub open spec fn entries_read_back<T>(
    s: Seq<(RangeV, T)>,
    pe: spec_fn(Seq<u8>) -> Result<((RangeV, T), int), Fault>,
    f: spec_fn((RangeV, T)) -> Seq<u8>,
) -> bool {
    forall|i: int, r: Seq<u8>|
        0 <= i < s.len() ==> #[trigger] pe(f(s[i]) + r) == Ok::<((RangeV, T), int), Fault>((s[i], f(s[i]).len() as int))
}

#[verifier::rlimit(40)]
proof fn lemma_entries_round_trip<T>(
    s: Seq<(RangeV, T)>,
    rest: Seq<u8>,
    pe: spec_fn(Seq<u8>) -> Result<((RangeV, T), int), Fault>,
    f: spec_fn((RangeV, T)) -> Seq<u8>,
)
    requires
        entries_read_back(s, pe, f),
    ensures
        parse_entries(enc_all(s, f) + rest, s.len(), pe) == Ok::<(Seq<(RangeV, T)>, int), Fault>(
            (s, enc_all(s, f).len() as int),
        ),
    decreases s.len(),
{
    reveal(parse_entries);
    if s.len() > 0 {
        let d = s.drop_first();
        let x = f(s[0]);
        let tail = enc_all(d, f) + rest;
        assert(enc_all(s, f) + rest =~= x + tail);
        assert(pe(x + tail) == Ok::<((RangeV, T), int), Fault>((s[0], x.len() as int)));
        lemma_skip_concat(x, tail);
        assert forall|i: int, r: Seq<u8>| 0 <= i < d.len() implies #[trigger] pe(f(d[i]) + r) == Ok::<
            ((RangeV, T), int),
            Fault,
        >((d[i], f(d[i]).len() as int)) by {
            assert(d[i] == s[i + 1]);
            assert(pe(f(s[i + 1]) + r) == Ok::<((RangeV, T), int), Fault>((s[i + 1], f(s[i + 1]).len() as int)));
        }
        lemma_entries_round_trip(d, rest, pe, f);
        assert(seq![s[0]] + d =~= s);
    } else {
        assert(enc_all(s, f) =~= Seq::<u8>::empty());
        assert(s =~= Seq::<(RangeV, T)>::empty());
    }
}

proof fn lemma_index_round_trip<T>(
    s: Seq<(RangeV, T)>,
    rest: Seq<u8>,
    pe: spec_fn(Seq<u8>) -> Result<((RangeV, T), int), Fault>,
    f: spec_fn((RangeV, T)) -> Seq<u8>,
)
    requires
        index_wf(s),
        entries_read_back(s, pe, f),
        3 * s.len() <= u32::MAX,
    ensures
        parse_index(enc_index(s, f) + rest, pe) == Ok::<(Seq<(RangeV, T)>, int), Fault>(
            (s, enc_index(s, f).len() as int),
        ),
{
    let h = enc_array_len((3 * s.len()) as u32);
    let tail = enc_all(s, f) + rest;
    assert(enc_index(s, f) + rest =~= h + tail);
    lemma_array_len_round_trip((3 * s.len()) as u32, tail);
    lemma_skip_concat(h, tail);
    lemma_entries_round_trip(s, rest, pe, f);
    lemma_sorted_from_in_order(s);
}

proof fn lemma_name_round_trip(nm: Seq<char>, rest: Seq<u8>)
    requires
        encode_utf8(nm).len() <= u32::MAX,
    ensures
        parse_name(enc_bytes(encode_utf8(nm)) + rest) == Ok::<(Seq<char>, int), Fault>(
            (nm, enc_bytes(encode_utf8(nm)).len() as int),
        ),
{
    lemma_bytes_round_trip(encode_utf8(nm), rest);
    vstd::utf8::encode_utf8_valid_utf8(nm);
    vstd::utf8::encode_utf8_decode_utf8(nm);
}

/// Every named index of `cs` reads back as itself.
pub open spec fn tables_read_back<T>(
    cs: Seq<(Seq<char>, Seq<(RangeV, T)>)>,
    pe: spec_fn(Seq<u8>) -> Result<((RangeV, T), int), Fault>,
    f: spec_fn((RangeV, T)) -> Seq<u8>,
) -> bool {
    forall|i: int|
        0 <= i < cs.len() ==> {
            &&& encode_utf8((#[trigger] cs[i]).0).len() <= u32::MAX
            &&& index_wf(cs[i].1)
            &&& entries_read_back(cs[i].1, pe, f)
            &&& 3 * cs[i].1.len() <= u32::MAX
        }
}

proof fn lemma_tables_unfold<T>(
    s: Seq<u8>,
    n: nat,
    pe: spec_fn(Seq<u8>) -> Result<((RangeV, T), int), Fault>,
    nm: Seq<char>,
    k: int,
    es: Seq<(RangeV, T)>,
    k2: int,
    rest_ts: Seq<(Seq<char>, Seq<(RangeV, T)>)>,
    k3: int,
)
    requires
        n > 0,
        parse_name(s) == Ok::<(Seq<char>, int), Fault>((nm, k)),
        parse_index(skip(s, k), pe) == Ok::<(Seq<(RangeV, T)>, int), Fault>((es, k2)),
        parse_tables(skip(s, k + k2), (n - 1) as nat, pe) == Ok::<
            (Seq<(Seq<char>, Seq<(RangeV, T)>)>, int),
            Fault,
        >((rest_ts, k3)),
    ensures
        parse_tables(s, n, pe) == Ok::<(Seq<(Seq<char>, Seq<(RangeV, T)>)>, int), Fault>(
            (seq![(nm, es)] + rest_ts, k + k2 + k3),
        ),
{
    reveal(parse_tables);
}

proof fn lemma_tables_empty<T>(s: Seq<u8>, pe: spec_fn(Seq<u8>) -> Result<((RangeV, T), int), Fault>)
    ensures
        parse_tables(s, 0, pe) == Ok::<(Seq<(Seq<char>, Seq<(RangeV, T)>)>, int), Fault>((Seq::empty(), 0)),
{
    reveal(parse_tables);
}

#[verifier::rlimit(50)]
proof fn lemma_tables_round_trip<T>(
    cs: Seq<(Seq<char>, Seq<(RangeV, T)>)>,
    rest: Seq<u8>,
    pe: spec_fn(Seq<u8>) -> Result<((RangeV, T), int), Fault>,
    f: spec_fn((RangeV, T)) -> Seq<u8>,
)
    requires
        tables_read_back(cs, pe, f),
    ensures
        parse_tables(enc_all(cs, |c: (Seq<char>, Seq<(RangeV, T)>)| enc_named(c, f)) + rest, cs.len(), pe)
            == Ok::<(Seq<(Seq<char>, Seq<(RangeV, T)>)>, int), Fault>(
            (cs, enc_all(cs, |c: (Seq<char>, Seq<(RangeV, T)>)| enc_named(c, f)).len() as int),
        ),
    decreases cs.len(),
{
    let g = |c: (Seq<char>, Seq<(RangeV, T)>)| enc_named(c, f);
    if cs.len() > 0 {
        let d = cs.drop_first();
        let nb = enc_bytes(encode_utf8(cs[0].0));
        let ix = enc_index(cs[0].1, f);
        let tail = enc_all(d, g) + rest;
        let whole = enc_all(cs, g) + rest;
        assert(whole =~= nb + (ix + tail));
        assert(encode_utf8(cs[0].0).len() <= u32::MAX && index_wf(cs[0].1) && entries_read_back(cs[0].1, pe, f)
            && 3 * cs[0].1.len() <= u32::MAX);
        lemma_name_round_trip(cs[0].0, ix + tail);
        lemma_skip_concat(nb, ix + tail);
        lemma_index_round_trip(cs[0].1, tail, pe, f);
        assert(skip(whole, (nb.len() + ix.len()) as int) =~= tail);
        assert(tables_read_back(d, pe, f)) by {
            assert forall|i: int| 0 <= i < d.len() implies {
                &&& encode_utf8((#[trigger] d[i]).0).len() <= u32::MAX
                &&& index_wf(d[i].1)
                &&& entries_read_back(d[i].1, pe, f)
                &&& 3 * d[i].1.len() <= u32::MAX
            } by {
                assert(d[i] == cs[i + 1]);
            }
        }
        lemma_tables_round_trip(d, rest, pe, f);
        lemma_tables_unfold(
            whole,
            cs.len(),
            pe,
            cs[0].0,
            nb.len() as int,
            cs[0].1,
            ix.len() as int,
            d,
            enc_all(d, g).len() as int,
        );
        assert(seq![(cs[0].0, cs[0].1)] + d =~= cs);
        assert(enc_all(cs, g).len() == nb.len() + ix.len() + enc_all(d, g).len());
    } else {
        lemma_tables_empty(enc_all(cs, g) + rest, pe);
        assert(enc_all(cs, g) =~= Seq::<u8>::empty());
        assert(cs =~= Seq::<(Seq<char>, Seq<(RangeV, T)>)>::empty());
    }
}

proof fn lemma_collection_round_trip<T>(
    cs: Seq<(Seq<char>, Seq<(RangeV, T)>)>,
    rest: Seq<u8>,
    pe: spec_fn(Seq<u8>) -> Result<((RangeV, T), int), Fault>,
    f: spec_fn((RangeV, T)) -> Seq<u8>,
)
    requires
        cs.len() <= u32::MAX,
        names_sorted(cs),
        tables_read_back(cs, pe, f),
    ensures
        parse_collection(enc_collection(cs, f) + rest, pe) == Ok::<(Seq<(Seq<char>, Seq<(RangeV, T)>)>, int), Fault>(
            (cs, enc_collection(cs, f).len() as int),
        ),
{
    let g = |c: (Seq<char>, Seq<(RangeV, T)>)| enc_named(c, f);
    let h = enc_map_len(cs.len() as u32);
    let tail = enc_all(cs, g) + rest;
    assert(enc_collection(cs, f) + rest =~= h + tail);
    lemma_map_len_round_trip(cs.len() as u32, tail);
    lemma_skip_concat(h, tail);
    lemma_tables_round_trip(cs, rest, pe, f);
    lemma_tables_from_in_order(cs);
}

/// Reading back the encoding of a database gives its tables: the same names, and under
/// each the same objects and bitmaps, with the same ranges and bytes, in the same order.
#[verifier::rlimit(50)]
pub proof fn law_round_trip(ts: Seq<(Seq<char>, TableModel)>)
    requires
        db_shaped(ts),
        wire_sized(ts),
    ensures
        parse_db(enc_db(ts)) == Ok::<Seq<(Seq<char>, TableModel)>, Fault>(ts),
{
    let os = objects_of(ts);
    let bs = bitmaps_of(ts);
    assert forall|i: int| 0 <= i < os.len() implies {
        &&& encode_utf8((#[trigger] os[i]).0).len() <= u32::MAX
        &&& index_wf(os[i].1)
        &&& entries_read_back(os[i].1, object_pe(), object_enc())
        &&& 3 * os[i].1.len() <= u32::MAX
    } by {
        assert(os[i] == (ts[i].0, ts[i].1.objects));
        assert forall|k: int, r: Seq<u8>| 0 <= k < os[i].1.len() implies #[trigger] object_pe()(
            object_enc()(os[i].1[k]) + r,
        ) == Ok::<((RangeV, Seq<u8>), int), Fault>((os[i].1[k], object_enc()(os[i].1[k]).len() as int)) by {
            assert(ts[i].1.objects[k] == os[i].1[k]);
            lemma_object_entry_round_trip(os[i].1[k], r);
        }
    }
    assert forall|i: int| 0 <= i < bs.len() implies {
        &&& encode_utf8((#[trigger] bs[i]).0).len() <= u32::MAX
        &&& index_wf(bs[i].1)
        &&& entries_read_back(bs[i].1, bitmap_pe(), bitmap_enc())
        &&& 3 * bs[i].1.len() <= u32::MAX
    } by {
        assert(bs[i] == (ts[i].0, ts[i].1.bitmaps));
        assert forall|k: int, r: Seq<u8>| 0 <= k < bs[i].1.len() implies #[trigger] bitmap_pe()(
            bitmap_enc()(bs[i].1[k]) + r,
        ) == Ok::<((RangeV, BitmapV), int), Fault>((bs[i].1[k], bitmap_enc()(bs[i].1[k]).len() as int)) by {
            assert(ts[i].1.bitmaps[k] == bs[i].1[k]);
            lemma_bitmap_entry_round_trip(bs[i].1[k], r);
        }
    }
    assert(names_sorted(os)) by {
        assert forall|i: int, j: int| 0 <= i < j < os.len() implies bytes_lt(
            encode_utf8((#[trigger] os[i]).0),
            encode_utf8((#[trigger] os[j]).0),
        ) by {
            assert(os[i].0 == ts[i].0 && os[j].0 == ts[j].0);
        }
    }
    assert(names_sorted(bs)) by {
        assert forall|i: int, j: int| 0 <= i < j < bs.len() implies bytes_lt(
            encode_utf8((#[trigger] bs[i]).0),
            encode_utf8((#[trigger] bs[j]).0),
        ) by {
            assert(bs[i].0 == ts[i].0 && bs[j].0 == ts[j].0);
        }
    }
    let a = enc_array_len(2);
    let co = enc_collection(os, object_enc());
    let cb = enc_collection(bs, bitmap_enc());
    assert(enc_db(ts) =~= a + (co + cb));
    lemma_array_len_round_trip(2, co + cb);
    lemma_skip_concat(a, co + cb);
    lemma_collection_round_trip(os, cb, object_pe(), object_enc());
    assert(skip(a + (co + cb), (a.len() + co.len()) as int) =~= cb + Seq::<u8>::empty());
    lemma_collection_round_trip(bs, Seq::<u8>::empty(), bitmap_pe(), bitmap_enc());
    assert(zip_tables(os, bs) =~= ts);
}

} // verus!
