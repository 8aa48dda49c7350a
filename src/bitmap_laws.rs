use vstd::prelude::*;
use crate::range::{RangeV, range_wf, ranges_touch, ranges_intersect};
use crate::content::{BitmapV, cover, lemma_cover_holds, window};

verus! {

/// No two bitmaps of one entry size share or border a key.
pub open spec fn separated(bm: Seq<(RangeV, BitmapV)>) -> bool {
    forall|i: int, j: int|
        0 <= i < bm.len() && 0 <= j < bm.len() && i != j && (#[trigger] bm[i]).1.0 == (
        #[trigger] bm[j]).1.0 ==> !ranges_touch(bm[i].0, bm[j].0)
}

/// A stored bitmap that an insert of entry size `es` under `r` merges with.
pub open spec fn is_partner(e: (RangeV, BitmapV), r: RangeV, es: u64) -> bool {
    e.1.0 == es && ranges_touch(e.0, r)
}

/// A stored bitmap that a delete of entry size `es` over `h` cuts.
pub open spec fn is_victim(e: (RangeV, BitmapV), h: RangeV, es: u64) -> bool {
    e.1.0 == es && ranges_intersect(e.0, h)
}

pub open spec fn partners(bm: Seq<(RangeV, BitmapV)>, r: RangeV, es: u64) -> Seq<(RangeV, BitmapV)> {
    bm.filter(|e: (RangeV, BitmapV)| is_partner(e, r, es))
}

pub open spec fn non_partners(bm: Seq<(RangeV, BitmapV)>, r: RangeV, es: u64) -> Seq<(RangeV, BitmapV)> {
    bm.filter(|e: (RangeV, BitmapV)| !is_partner(e, r, es))
}

pub open spec fn victims(bm: Seq<(RangeV, BitmapV)>, h: RangeV, es: u64) -> Seq<(RangeV, BitmapV)> {
    bm.filter(|e: (RangeV, BitmapV)| is_victim(e, h, es))
}

pub open spec fn survivors(bm: Seq<(RangeV, BitmapV)>, h: RangeV, es: u64) -> Seq<(RangeV, BitmapV)> {
    bm.filter(|e: (RangeV, BitmapV)| !is_victim(e, h, es))
}

/// The bitmap that an insert of `b` under `r` files: the merge of `b` with its partners.
pub open spec fn merged_entry(bm: Seq<(RangeV, BitmapV)>, r: RangeV, b: BitmapV) -> (RangeV, BitmapV) {
    let parts = partners(bm, r, b.0);
    (cover(r, parts), (b.0, crate::content::merged_bytes(r, b, parts)))
}

/// The part of `v` below the hole `h`, if any.
pub open spec fn lower_piece(v: (RangeV, BitmapV), h: RangeV) -> Seq<(RangeV, BitmapV)> {
    if v.0.0 < h.0 {
        let sub = (v.0.0, (h.0 - 1) as u64);
        seq![(sub, (v.1.0, window(v.0, v.1, sub)))]
    } else {
        seq![]
    }
}

/// The part of `v` above the hole `h`, if any.
pub open spec fn upper_piece(v: (RangeV, BitmapV), h: RangeV) -> Seq<(RangeV, BitmapV)> {
    if h.1 < v.0.1 {
        let sub = ((h.1 + 1) as u64, v.0.1);
        seq![(sub, (v.1.0, window(v.0, v.1, sub)))]
    } else {
        seq![]
    }
}

/// What is left of the bitmaps `vs` once the hole `h` is cut out of each.
pub open spec fn residuals(vs: Seq<(RangeV, BitmapV)>, h: RangeV) -> Seq<(RangeV, BitmapV)>
    decreases vs.len(),
{
    if vs.len() == 0 {
        seq![]
    } else {
        residuals(vs.drop_last(), h) + lower_piece(vs.last(), h) + upper_piece(vs.last(), h)
    }
}

/// Keeping only some entries keeps them apart.
pub proof fn lemma_separated_filter(s: Seq<(RangeV, BitmapV)>, p: spec_fn((RangeV, BitmapV)) -> bool)
    requires
        separated(s),
    ensures
        separated(s.filter(p)),
    decreases s.len(),
{
    reveal(Seq::filter);
    if s.len() > 0 {
        let d = s.drop_last();
        assert(separated(d)) by {
            assert forall|i: int, j: int|
                0 <= i < d.len() && 0 <= j < d.len() && i != j && (#[trigger] d[i]).1.0 == (
                #[trigger] d[j]).1.0 implies !ranges_touch(d[i].0, d[j].0) by {
                assert(d[i] == s[i] && d[j] == s[j]);
            }
        }
        lemma_separated_filter(d, p);
        let f = d.filter(p);
        if p(s.last()) {
            let g = f.push(s.last());
            assert forall|i: int, j: int|
                0 <= i < g.len() && 0 <= j < g.len() && i != j && (#[trigger] g[i]).1.0 == (
                #[trigger] g[j]).1.0 implies !ranges_touch(g[i].0, g[j].0) by {
                if i < f.len() && j < f.len() {
                    assert(g[i] == f[i] && g[j] == f[j]);
                } else {
                    let k = if i < f.len() { i } else { j };
                    assert(g[k] == f[k]);
                    assert(f.contains(f[k]));
                    d.lemma_filter_contains_rev(p, f[k]);
                    let m = choose|m: int| 0 <= m < d.len() && d[m] == f[k];
                    assert(s[m] == d[m]);
                    assert(!ranges_touch(s[m].0, s[s.len() - 1].0));
                }
            }
        }
    }
}

/// Two distinct entries of a separated sequence with one entry size are apart.
pub proof fn lemma_separated_elements(s: Seq<(RangeV, BitmapV)>, x: (RangeV, BitmapV), y: (RangeV, BitmapV))
    requires
        separated(s),
        s.contains(x),
        s.contains(y),
        x != y,
        x.1.0 == y.1.0,
    ensures
        !ranges_touch(x.0, y.0),
{
    let i = choose|i: int| 0 <= i < s.len() && s[i] == x;
    let j = choose|j: int| 0 <= j < s.len() && s[j] == y;
    assert(!ranges_touch(s[i].0, s[j].0));
}

/// A range apart from `r` and from every part, each part touching `r`, is apart from their cover.
pub proof fn lemma_cover_apart(r: RangeV, parts: Seq<(RangeV, BitmapV)>, x: RangeV)
    requires
        range_wf(r),
        range_wf(x),
        !ranges_touch(x, r),
        forall|i: int|
            0 <= i < parts.len() ==> ranges_touch((#[trigger] parts[i]).0, r) && range_wf(parts[i].0)
                && !ranges_touch(x, parts[i].0),
    ensures
        !ranges_touch(x, cover(r, parts)),
    decreases parts.len(),
{
    if parts.len() > 0 {
        let d = parts.drop_last();
        assert forall|i: int| 0 <= i < d.len() implies ranges_touch((#[trigger] d[i]).0, r) && range_wf(
            d[i].0,
        ) && !ranges_touch(x, d[i].0) by {
            assert(d[i] == parts[i]);
        }
        lemma_cover_apart(r, d, x);
        lemma_cover_holds(r, d);
        assert(parts.last() == parts[parts.len() - 1]);
    }
}

} // verus!
