use vstd::prelude::*;
use vstd::slice::{slice_subrange, slice_to_vec};
use crate::range::{Range, RangeV, range_wf, range_len, range_meet, ranges_intersect, min_u64, max_u64};

verus! {

/// The mathematical form of a bitmap: its entry size and its bytes.
pub type BitmapV = (u64, Seq<u8>);

/// `d` written over `buf` from byte `off` on.
pub open spec fn splice(buf: Seq<u8>, off: int, d: Seq<u8>) -> Seq<u8> {
    buf.subrange(0, off) + d + buf.subrange(off + d.len(), buf.len() as int)
}

/// The bitmap `b`, filed under `r`, holds one entry of `b.0` bytes per key of `r`.
pub open spec fn bitmap_fits(r: RangeV, b: BitmapV) -> bool {
    &&& range_wf(r)
    &&& b.0 > 0
    &&& b.1.len() == b.0 * range_len(r)
}

/// The bytes of the entries that a bitmap filed under `r` holds for the keys of `w`.
pub open spec fn window(r: RangeV, b: BitmapV, w: RangeV) -> Seq<u8> {
    b.1.subrange((w.0 - r.0) * b.0, (w.1 - r.0 + 1) * b.0)
}

/// The smallest range covering `r` and the keys of every part.
pub open spec fn cover(r: RangeV, parts: Seq<(RangeV, BitmapV)>) -> RangeV
    decreases parts.len(),
{
    if parts.len() == 0 {
        r
    } else {
        let c = cover(r, parts.drop_last());
        let p = parts.last().0;
        (min_u64(c.0, p.0), max_u64(c.1, p.1))
    }
}

/// The bytes of every part written in turn into `buf`, whose first entry stands for key `base`.
pub open spec fn paint(buf: Seq<u8>, base: int, es: int, parts: Seq<(RangeV, BitmapV)>) -> Seq<u8>
    decreases parts.len(),
{
    if parts.len() == 0 {
        buf
    } else {
        splice(
            paint(buf, base, es, parts.drop_last()),
            (parts.last().0.0 - base) * es,
            parts.last().1.1,
        )
    }
}

/// The bytes of the merge of bitmap `b`, filed under `r`, with `parts`: a zeroed buffer over
/// their cover, each part written in turn, and `b` written last.
pub open spec fn merged_bytes(r: RangeV, b: BitmapV, parts: Seq<(RangeV, BitmapV)>) -> Seq<u8> {
    let u = cover(r, parts);
    splice(
        paint(Seq::new((range_len(u) * b.0) as nat, |i: int| 0u8), u.0 as int, b.0 as int, parts),
        (r.0 - u.0) * b.0,
        b.1,
    )
}

/// Views of a list of filed bitmaps.
pub open spec fn pairs_view(v: Seq<(Range, Bitmap)>) -> Seq<(RangeV, BitmapV)> {
    v.map_values(|e: (Range, Bitmap)| (e.0@, e.1@))
}

/// An opaque blob, stored verbatim.
#[derive(Debug)]
pub struct Object {
    pub data: Vec<u8>,
}

impl View for Object {
    type V = Seq<u8>;

    open spec fn view(&self) -> Seq<u8> {
        self.data@
    }
}

impl Object {
    pub fn new(data: Vec<u8>) -> (o: Object)
        ensures
            o@ == data@,
    {
        Object { data }
    }
}

/// A dense array of fixed-size entries, one per key of the range it is filed under.
#[derive(Clone, PartialEq, Debug)]
pub struct Bitmap {
    pub entry_size: u64,
    pub data: Vec<u8>,
}

impl View for Bitmap {
    type V = BitmapV;

    open spec fn view(&self) -> BitmapV {
        (self.entry_size, self.data@)
    }
}

/// Bytes that are either borrowed from a stored bitmap or owned.
pub enum SliceData<'a> {
    Borrowed(&'a [u8]),
    Owned(Vec<u8>),
}

impl<'a> View for SliceData<'a> {
    type V = Seq<u8>;

    open spec fn view(&self) -> Seq<u8> {
        match self {
            SliceData::Borrowed(s) => s@,
            SliceData::Owned(v) => v@,
        }
    }
}

impl<'a> SliceData<'a> {
    pub fn as_slice(&self) -> (s: &[u8])
        ensures
            s@ == self@,
    {
        match self {
            SliceData::Borrowed(s) => s,
            SliceData::Owned(v) => v.as_slice(),
        }
    }
}

/// A view of the entries of a bitmap for some of its keys.
pub struct BitmapSlice<'a> {
    pub entry_size: u64,
    pub data: SliceData<'a>,
}

impl<'a> View for BitmapSlice<'a> {
    type V = BitmapV;

    open spec fn view(&self) -> BitmapV {
        (self.entry_size, self.data@)
    }
}

impl<'a> BitmapSlice<'a> {
    /// An owned copy of the viewed entries.
    pub fn to_bitmap(&self) -> (b: Bitmap)
        ensures
            b@ == self@,
    {
        Bitmap { entry_size: self.entry_size, data: slice_to_vec(self.data.as_slice()) }
    }

    pub fn new_from_owned<'db>(b: Bitmap) -> (s: BitmapSlice<'db>)
        ensures
            s@ == b@,
    {
        BitmapSlice { entry_size: b.entry_size, data: SliceData::Owned(b.data) }
    }

    pub fn new_from_borrowed<'db>(b: &'db Bitmap) -> (s: BitmapSlice<'db>)
        ensures
            s@ == b@,
    {
        BitmapSlice { entry_size: b.entry_size, data: SliceData::Borrowed(b.data.as_slice()) }
    }
}

/// Where the entries for the keys of `w` start and end in a bitmap filed under `r`.
proof fn lemma_window_bounds(r: RangeV, es: int, w: RangeV)
    requires
        range_wf(r),
        range_wf(w),
        r.0 <= w.0,
        w.1 <= r.1,
        es > 0,
    ensures
        0 <= (w.0 - r.0) * es <= (w.1 - r.0 + 1) * es <= es * range_len(r),
        w.1 - r.0 + 1 <= (w.1 - r.0 + 1) * es,
{
    assert(0 <= (w.0 - r.0) * es <= (w.1 - r.0 + 1) * es <= es * (r.1 - r.0 + 1) && w.1 - r.0 + 1
        <= (w.1 - r.0 + 1) * es)
        by (nonlinear_arith)
        requires
            r.0 <= w.0 <= w.1 <= r.1,
            es > 0,
    ;
}


/// The cover of `r` and the parts holds `r` and every part.
pub proof fn lemma_cover_holds(r: RangeV, parts: Seq<(RangeV, BitmapV)>)
    requires
        range_wf(r),
    ensures
        range_wf(cover(r, parts)),
        cover(r, parts).0 <= r.0,
        r.1 <= cover(r, parts).1,
        forall|i: int|
            0 <= i < parts.len() ==> cover(r, parts).0 <= (#[trigger] parts[i]).0.0 && parts[i].0.1
                <= cover(r, parts).1,
    decreases parts.len(),
{
    if parts.len() > 0 {
        lemma_cover_holds(r, parts.drop_last());
        assert forall|i: int| 0 <= i < parts.len() implies cover(r, parts).0 <= (
        #[trigger] parts[i]).0.0 && parts[i].0.1 <= cover(r, parts).1 by {
            if i < parts.len() - 1 {
                assert(parts[i] == parts.drop_last()[i]);
            }
        }
    }
}

/// The entries of a range lying inside `u` fit in a buffer over `u`.
pub proof fn lemma_part_fits(u: RangeV, p: RangeV, es: int)
    requires
        u.0 <= p.0 <= p.1 <= u.1,
        es > 0,
    ensures
        0 <= (p.0 - u.0) * es,
        (p.0 - u.0) * es + es * range_len(p) == (p.1 - u.0 + 1) * es,
        (p.1 - u.0 + 1) * es <= range_len(u) * es,
        range_len(u) <= range_len(u) * es,
{
    assert(0 <= (p.0 - u.0) * es && (p.0 - u.0) * es + es * (p.1 - p.0 + 1) == (p.1 - u.0 + 1) * es
        && (p.1 - u.0 + 1) * es <= (u.1 - u.0 + 1) * es && (u.1 - u.0 + 1) <= (u.1 - u.0 + 1) * es)
        by (nonlinear_arith)
        requires
            u.0 <= p.0 <= p.1 <= u.1,
            es > 0,
    ;
}

/// Painting parts that lie inside the buffer keeps its length.
pub proof fn lemma_paint_len(buf: Seq<u8>, u: RangeV, es: int, parts: Seq<(RangeV, BitmapV)>)
    requires
        buf.len() == range_len(u) * es,
        es > 0,
        forall|i: int|
            0 <= i < parts.len() ==> u.0 <= (#[trigger] parts[i]).0.0 && bitmap_fits(parts[i].0, parts[i].1)
                && parts[i].1.0 == es && parts[i].0.1 <= u.1,
    ensures
        paint(buf, u.0 as int, es, parts).len() == buf.len(),
    decreases parts.len(),
{
    if parts.len() > 0 {
        let p = parts.last();
        assert(p == parts[parts.len() - 1]);
        lemma_paint_len(buf, u, es, parts.drop_last());
        lemma_part_fits(u, p.0, es);
    }
}

/// The entries of a bitmap for a sub-range of its range hold one entry per key of it.
pub proof fn lemma_window_len(r: RangeV, b: BitmapV, w: RangeV)
    requires
        bitmap_fits(r, b),
        range_wf(w),
        r.0 <= w.0,
        w.1 <= r.1,
    ensures
        window(r, b, w).len() == b.0 * range_len(w),
{
    let es = b.0 as int;
    lemma_window_bounds(r, es, w);
    assert((w.1 - r.0 + 1) * es - (w.0 - r.0) * es == es * (w.1 - w.0 + 1)) by (nonlinear_arith);
}

impl Bitmap {
    pub fn new(es: u64, data: Vec<u8>) -> (b: Bitmap)
        ensures
            b.entry_size == es,
            b.data@ == data@,
    {
        Bitmap { entry_size: es, data }
    }

    /// The entries of this bitmap, filed under `data_range`, for the keys that
    /// `data_range` shares with `restriction`.
    pub fn to_subslice(&self, data_range: Range, restriction: Range) -> (s: BitmapSlice)
        requires
            bitmap_fits(data_range@, self@),
            restriction.wf(),
            ranges_intersect(data_range@, restriction@),
        ensures
            s.entry_size == self.entry_size,
            s.data@ == window(data_range@, self@, range_meet(data_range@, restriction@)),
    {
        let w = restriction.intersection(&data_range);
        assert(w@ == range_meet(data_range@, restriction@));
        assert(data_range.min <= w.min && w.max <= data_range.max);
        proof {
            lemma_window_bounds(data_range@, self.entry_size as int, w@);
        }
        let dlen = self.data.len();
        assert(dlen as int == self.entry_size * range_len(data_range@));
        let start = (w.min - data_range.min) * self.entry_size;
        let end = (w.max - data_range.min + 1) * self.entry_size;
        let slice = slice_subrange(self.data.as_slice(), start as usize, end as usize);
        BitmapSlice { entry_size: self.entry_size, data: SliceData::Borrowed(slice) }
    }

    /// An owned copy of the entries that `to_subslice` views.
    pub fn to_subbitmap(&self, data_range: Range, restriction: Range) -> (b: Bitmap)
        requires
            bitmap_fits(data_range@, self@),
            restriction.wf(),
            ranges_intersect(data_range@, restriction@),
        ensures
            b.entry_size == self.entry_size,
            b.data@ == window(data_range@, self@, range_meet(data_range@, restriction@)),
    {
        let s = self.to_subslice(data_range, restriction);
        s.to_bitmap()
    }

    /// Writes the bytes of this bitmap into `buffer` from byte `offset` on.
    fn copy_to_buffer(&self, offset: u64, buffer: &mut Vec<u8>)
        requires
            offset + self.data@.len() <= old(buffer)@.len(),
        ensures
            final(buffer)@ == splice(old(buffer)@, offset as int, self.data@),
    {
        let ghost b0 = buffer@;
        let blen = buffer.len();
        let n = self.data.len();
        let off = offset as usize;
        let mut i: usize = 0;
        while i < n
            invariant
                n == self.data@.len(),
                off == offset,
                off + n <= b0.len(),
                blen == b0.len(),
                i <= n,
                buffer@.len() == b0.len(),
                forall|k: int| 0 <= k < off ==> buffer@[k] == b0[k],
                forall|k: int| off + n <= k < b0.len() ==> buffer@[k] == b0[k],
                forall|k: int| off <= k < off + i ==> buffer@[k] == self.data@[k - off],
            decreases n - i,
        {
            buffer.set(off + i, self.data[i]);
            i = i + 1;
        }
        assert(buffer@ =~= splice(b0, offset as int, self.data@));
    }

    /// Merges this bitmap, filed under `data_range`, with `merge_partners` of the same entry
    /// size into one bitmap over their cover: a zeroed buffer, each partner written in turn,
    /// and this bitmap written last, so that its bytes win where the ranges collide.
    #[verifier::rlimit(50)]
    pub fn merge_bitmaps(self, data_range: Range, merge_partners: Vec<(Range, Bitmap)>) -> (res: (
        Range,
        Bitmap,
    ))
        requires
            bitmap_fits(data_range@, self@),
            forall|i: int|
                0 <= i < merge_partners@.len() ==> bitmap_fits(
                    (#[trigger] pairs_view(merge_partners@)[i]).0,
                    pairs_view(merge_partners@)[i].1,
                ) && pairs_view(merge_partners@)[i].1.0 == self.entry_size,
            range_len(cover(data_range@, pairs_view(merge_partners@))) * self.entry_size
                <= usize::MAX,
        ensures
            res.0@ == cover(data_range@, pairs_view(merge_partners@)),
            res.1@ == (self.entry_size, merged_bytes(data_range@, self@, pairs_view(merge_partners@))),
            bitmap_fits(res.0@, res.1@),
    {
        let ghost parts = pairs_view(merge_partners@);
        let es = self.entry_size;
        let n = merge_partners.len();
        let mut new_range = data_range;
        let mut i: usize = 0;
        while i < n
            invariant
                n == merge_partners@.len(),
                parts == pairs_view(merge_partners@),
                i <= n,
                new_range@ == cover(data_range@, parts.subrange(0, i as int)),
            decreases n - i,
        {
            assert(parts.subrange(0, i + 1).drop_last() =~= parts.subrange(0, i as int));
            new_range = new_range.union(&merge_partners[i].0);
            i = i + 1;
        }
        assert(parts.subrange(0, n as int) =~= parts);
        let ghost u = new_range@;
        proof {
            lemma_cover_holds(data_range@, parts);
            lemma_part_fits(u, data_range@, es as int);
        }
        if new_range.min == data_range.min && new_range.max == data_range.max {
            proof {
                let z = Seq::new((range_len(u) * es) as nat, |k: int| 0u8);
                lemma_paint_len(z, u, es as int, parts);
                assert(range_len(u) * es == es * range_len(u)) by (nonlinear_arith);
                assert((data_range@.0 - u.0) * es == 0);
                assert(merged_bytes(data_range@, self@, parts) =~= self.data@);
            }
            return (data_range, self);
        }
        let combined_len = (new_range.len() * es) as usize;
        let mut combined: Vec<u8> = Vec::new();
        let mut k: usize = 0;
        while k < combined_len
            invariant
                k <= combined_len,
                combined@ =~= Seq::new(k as nat, |j: int| 0u8),
            decreases combined_len - k,
        {
            combined.push(0u8);
            k = k + 1;
        }
        let ghost zeros = combined@;
        let mut i: usize = 0;
        while i < n
            invariant
                n == merge_partners@.len(),
                parts == pairs_view(merge_partners@),
                new_range@ == u,
                u == cover(data_range@, parts),
                zeros.len() == range_len(u) * es,
                range_len(u) * es <= usize::MAX,
                es > 0,
                es == self.entry_size,
                i <= n,
                forall|j: int|
                    0 <= j < parts.len() ==> u.0 <= (#[trigger] parts[j]).0.0 && bitmap_fits(
                        parts[j].0,
                        parts[j].1,
                    ) && parts[j].1.0 == es && parts[j].0.1 <= u.1,
                combined@ == paint(zeros, u.0 as int, es as int, parts.subrange(0, i as int)),
            decreases n - i,
        {
            proof {
                assert(parts.subrange(0, i + 1).drop_last() =~= parts.subrange(0, i as int));
                lemma_paint_len(zeros, u, es as int, parts.subrange(0, i as int));
                lemma_part_fits(u, parts[i as int].0, es as int);
            }
            let rng = merge_partners[i].0;
            assert(rng@ == parts[i as int].0);
            let offset = (rng.min - new_range.min) * es;
            merge_partners[i].1.copy_to_buffer(offset, &mut combined);
            i = i + 1;
        }
        assert(parts.subrange(0, n as int) =~= parts);
        proof {
            lemma_paint_len(zeros, u, es as int, parts);
        }
        self.copy_to_buffer((data_range.min - new_range.min) * es, &mut combined);
        proof {
            assert(combined@.len() == range_len(u) * es);
            assert(range_len(u) * es == es * range_len(u)) by (nonlinear_arith);
        }
        (new_range, Bitmap::new(es, combined))
    }
}

} // verus!
