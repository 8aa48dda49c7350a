use vstd::prelude::*;
use crate::range::{RangeV, range_wf, range_len, range_le, range_lt, ranges_intersect, ranges_touch, range_contains};
use crate::index::{insert_point, hits, index_wf};
use crate::content::{BitmapV, bitmap_fits, cover, merged_bytes, window, lemma_cover_holds, lemma_paint_len, lemma_part_fits};
use crate::bitmap_laws::{lemma_separated_filter, lemma_separated_elements, lemma_cover_apart, non_partners, separated, partners, merged_entry, victims, survivors, residuals, is_partner, is_victim};

verus! {

/// An object filed under `r` is handed out, under `r`, by every query through a range
/// that shares a key with `r`.
pub proof fn law_insert_then_query(objs: Seq<(RangeV, Seq<u8>)>, p: int, r: RangeV, o: Seq<u8>, q: RangeV)
    requires
        insert_point(objs, p, r),
        ranges_intersect(r, q),
    ensures
        hits(objs.insert(p, (r, o)), q).contains((r, o)),
{
    let s = objs.insert(p, (r, o));
    assert(s[p] == (r, o));
    s.lemma_filter_contains(|e: (RangeV, Seq<u8>)| ranges_intersect(e.0, q), p);
}

/// After a bitmap `b` is filed under `r`, the bitmap that covers `r` holds the bytes of `b`
/// at the place of `r`, byte for byte.
#[verifier::rlimit(50)]
pub proof fn law_merge_overlay(bm: Seq<(RangeV, BitmapV)>, r: RangeV, b: BitmapV)
    requires
        bitmap_fits(r, b),
        forall|k: int| 0 <= k < bm.len() ==> bitmap_fits(#[trigger] bm[k].0, bm[k].1),
    ensures
        ({
            let me = merged_entry(bm, r, b);
            let off = (r.0 - me.0.0) * b.0;
            &&& me.0.0 <= r.0
            &&& r.1 <= me.0.1
            &&& me.1.0 == b.0
            &&& me.1.1.subrange(off, off + b.1.len()) == b.1
        }),
{
    let es = b.0;
    let parts = partners(bm, r, es);
    let u = cover(r, parts);
    lemma_cover_holds(r, parts);
    lemma_part_fits(u, r, es as int);
    let pred = |e: (RangeV, BitmapV)| is_partner(e, r, es);
    assert forall|i: int| 0 <= i < parts.len() implies u.0 <= (#[trigger] parts[i]).0.0
        && bitmap_fits(parts[i].0, parts[i].1) && parts[i].1.0 == es && parts[i].0.1 <= u.1 by {
        bm.lemma_filter_pred(pred, i);
        assert(parts.contains(parts[i]));
        bm.lemma_filter_contains_rev(pred, parts[i]);
    }
    let z = Seq::new((range_len(u) * es) as nat, |i: int| 0u8);
    lemma_paint_len(z, u, es as int, parts);
    let off = (r.0 - u.0) * es;
    assert(merged_bytes(r, b, parts).subrange(off, off + b.1.len()) =~= b.1);
}

/// Cutting a hole strictly inside the one bitmap of an entry size leaves two bitmaps: the
/// keys below the hole with the leading bytes, and the keys above it with the trailing bytes.
#[verifier::rlimit(50)]
pub proof fn law_delete_restore(r: RangeV, b: BitmapV, h: RangeV, nbm: Seq<(RangeV, BitmapV)>)
    requires
        bitmap_fits(r, b),
        range_wf(h),
        r.0 < h.0,
        h.1 < r.1,
        index_wf(nbm),
        nbm.to_multiset() == survivors(seq![(r, b)], h, b.0).to_multiset().add(
            residuals(victims(seq![(r, b)], h, b.0), h).to_multiset(),
        ),
    ensures
        nbm == seq![
            ((r.0, (h.0 - 1) as u64), (b.0, b.1.subrange(0, (h.0 - r.0) * b.0))),
            (((h.1 + 1) as u64, r.1), (b.0, b.1.subrange((h.1 - r.0 + 1) * b.0, b.1.len() as int))),
        ],
{
    let bm = seq![(r, b)];
    let lo = ((r.0, (h.0 - 1) as u64), (b.0, b.1.subrange(0, (h.0 - r.0) * b.0)));
    let hi = (((h.1 + 1) as u64, r.1), (b.0, b.1.subrange((h.1 - r.0 + 1) * b.0, b.1.len() as int)));
    reveal_with_fuel(Seq::filter, 2);
    assert(bm.drop_last() =~= Seq::<(RangeV, BitmapV)>::empty());
    assert(victims(bm, h, b.0) =~= bm);
    assert(survivors(bm, h, b.0) =~= Seq::<(RangeV, BitmapV)>::empty());
    assert(residuals(bm, h) =~= seq![lo, hi]) by {
        assert(bm.drop_last() =~= Seq::<(RangeV, BitmapV)>::empty());
        assert(range_len(r) == r.1 - r.0 + 1);
        assert(b.1.len() == b.0 * range_len(r));
        assert((r.1 - r.0 + 1) * b.0 == b.0 * range_len(r)) by (nonlinear_arith)
            requires
                range_len(r) == r.1 - r.0 + 1,
        ;
        assert((r.0 - r.0) * b.0 == 0) by (nonlinear_arith);
        assert(window(r, b, (r.0, (h.0 - 1) as u64)) =~= lo.1.1);
        reveal_with_fuel(residuals, 2);
        assert(bm.last() == (r, b));
        assert(window(r, b, ((h.1 + 1) as u64, r.1)) =~= hi.1.1);
    }
    broadcast use vstd::seq_lib::group_to_multiset_ensures;
    let ms = seq![lo, hi].to_multiset();
    assert(Seq::<(RangeV, BitmapV)>::empty().to_multiset().add(ms) =~= ms);
    assert(nbm.to_multiset() == ms);
    assert(ms.len() == seq![lo, hi].len());
    assert(nbm.to_multiset().len() == nbm.len());
    assert(nbm.len() == 2);
    assert(seq![lo, hi].contains(lo) && seq![lo, hi].contains(hi));
    assert(ms.count(lo) > 0 && ms.count(hi) > 0);
    assert(nbm.contains(lo) && nbm.contains(hi));
    assert(range_lt(lo.0, hi.0));
    if nbm[0] != lo {
        assert(nbm[1] == lo);
        assert(nbm[0] == hi);
        assert(range_le(nbm[0].0, nbm[1].0));
    }
    assert(nbm[0] == lo);
    if nbm[1] != hi {
        assert(nbm[0] == hi);
    }
    assert(nbm =~= seq![lo, hi]);
}

/// Among bitmaps kept apart, at most one bitmap of an entry size holds a given key. With the
/// ensures of `insert_bitmap`, the merged bitmap is the one bitmap of its size covering `r`.
pub proof fn law_one_cover(bm: Seq<(RangeV, BitmapV)>, i: int, j: int, k: int)
    requires
        separated(bm),
        0 <= i < bm.len(),
        0 <= j < bm.len(),
        bm[i].1.0 == bm[j].1.0,
        range_contains(bm[i].0, k),
        range_contains(bm[j].0, k),
    ensures
        i == j,
{
    if i != j {
        assert(!ranges_touch(bm[i].0, bm[j].0));
    }
}

/// Filtering keeps nothing when nothing passes.
proof fn lemma_filter_none<T>(s: Seq<T>, p: spec_fn(T) -> bool)
    requires
        forall|j: int| 0 <= j < s.len() ==> !p(#[trigger] s[j]),
    ensures
        s.filter(p) == Seq::<T>::empty(),
{
    s.lemma_all_neg_filter_empty(p);
    assert(s.filter(p) =~= Seq::<T>::empty());
}

/// Filtering keeps everything when everything passes.
proof fn lemma_filter_all<T>(s: Seq<T>, p: spec_fn(T) -> bool)
    requires
        forall|j: int| 0 <= j < s.len() ==> p(#[trigger] s[j]),
    ensures
        s.filter(p) == s,
    decreases s.len(),
{
    reveal(Seq::filter);
    if s.len() > 0 {
        let d = s.drop_last();
        assert forall|j: int| 0 <= j < d.len() implies p(#[trigger] d[j]) by {
            assert(d[j] == s[j]);
        }
        lemma_filter_all(d, p);
        assert(p(s[s.len() - 1]));
        assert(d.push(s.last()) =~= s);
    }
}

/// Cutting a hole strictly inside one bitmap, among bitmaps of its size kept apart, cuts that
/// bitmap alone: every other bitmap survives as it was, and the cut one leaves the keys
/// below the hole with the leading bytes and the keys above it with the trailing bytes.
pub proof fn law_delete_restore_among(bm: Seq<(RangeV, BitmapV)>, i: int, h: RangeV)
    requires
        separated(bm),
        0 <= i < bm.len(),
        bitmap_fits(bm[i].0, bm[i].1),
        range_wf(h),
        bm[i].0.0 < h.0,
        h.1 < bm[i].0.1,
    ensures
        victims(bm, h, bm[i].1.0) == seq![bm[i]],
        survivors(bm, h, bm[i].1.0) == bm.remove(i),
        residuals(victims(bm, h, bm[i].1.0), h) == seq![
            ((bm[i].0.0, (h.0 - 1) as u64), (bm[i].1.0, bm[i].1.1.subrange(0, (h.0 - bm[i].0.0) * bm[i].1.0))),
            (((h.1 + 1) as u64, bm[i].0.1), (bm[i].1.0, bm[i].1.1.subrange((h.1 - bm[i].0.0 + 1) * bm[i].1.0, bm[i].1.1.len() as int))),
        ],
{
    let (r, b) = bm[i];
    let es = b.0;
    let v = |e: (RangeV, BitmapV)| is_victim(e, h, es);
    let k = |e: (RangeV, BitmapV)| !is_victim(e, h, es);
    let pre = bm.subrange(0, i);
    let post = bm.subrange(i + 1, bm.len() as int);
    assert forall|j: int| 0 <= j < bm.len() && j != i implies !is_victim(#[trigger] bm[j], h, es) by {
        if bm[j].1.0 == es {
            assert(!ranges_touch(bm[j].0, r));
        }
    }
    assert forall|j: int| 0 <= j < pre.len() implies !v(#[trigger] pre[j]) && k(pre[j]) by {
        assert(pre[j] == bm[j]);
    }
    assert forall|j: int| 0 <= j < post.len() implies !v(#[trigger] post[j]) && k(post[j]) by {
        assert(post[j] == bm[i + 1 + j]);
    }
    assert(bm =~= pre + (seq![bm[i]] + post));
    Seq::filter_distributes_over_add(pre, seq![bm[i]] + post, v);
    Seq::filter_distributes_over_add(seq![bm[i]], post, v);
    Seq::filter_distributes_over_add(pre, seq![bm[i]] + post, k);
    Seq::filter_distributes_over_add(seq![bm[i]], post, k);
    lemma_filter_none(pre, v);
    lemma_filter_none(post, v);
    lemma_filter_all(pre, k);
    lemma_filter_all(post, k);
    reveal_with_fuel(Seq::filter, 2);
    assert(seq![bm[i]].drop_last() =~= Seq::<(RangeV, BitmapV)>::empty());
    assert(seq![bm[i]].filter(v) =~= seq![bm[i]]);
    assert(seq![bm[i]].filter(k) =~= Seq::<(RangeV, BitmapV)>::empty());
    assert(victims(bm, h, es) =~= seq![bm[i]]);
    assert(survivors(bm, h, es) =~= bm.remove(i));
    let lo = ((r.0, (h.0 - 1) as u64), (es, b.1.subrange(0, (h.0 - r.0) * es)));
    let hi = (((h.1 + 1) as u64, r.1), (es, b.1.subrange((h.1 - r.0 + 1) * es, b.1.len() as int)));
    let one = seq![(r, b)];
    assert((r.0 - r.0) * es == 0) by (nonlinear_arith);
    assert((r.1 - r.0 + 1) * es == es * range_len(r)) by (nonlinear_arith)
        requires
            range_len(r) == r.1 - r.0 + 1,
    ;
    assert(window(r, b, (r.0, (h.0 - 1) as u64)) =~= lo.1.1);
    assert(window(r, b, ((h.1 + 1) as u64, r.1)) =~= hi.1.1);
    reveal_with_fuel(residuals, 2);
    assert(one.drop_last() =~= Seq::<(RangeV, BitmapV)>::empty());
    assert(one.last() == (r, b));
    assert(residuals(one, h) =~= seq![lo, hi]);
}

/// Filing a bitmap among bitmaps kept apart keeps them apart: its partners go, and the
/// merged bitmap over their cover touches no bitmap of its size that stays.
#[verifier::rlimit(50)]
pub proof fn law_insert_keeps_apart(bm: Seq<(RangeV, BitmapV)>, r: RangeV, b: BitmapV, p: int)
    requires
        separated(bm),
        index_wf(bm),
        range_wf(r),
        insert_point(non_partners(bm, r, b.0), p, merged_entry(bm, r, b).0),
    ensures
        separated(non_partners(bm, r, b.0).insert(p, merged_entry(bm, r, b))),
{
    let es = b.0;
    let part = |e: (RangeV, BitmapV)| is_partner(e, r, es);
    let keep = |e: (RangeV, BitmapV)| !is_partner(e, r, es);
    let kept = bm.filter(keep);
    let parts = bm.filter(part);
    let me = merged_entry(bm, r, b);
    let g = kept.insert(p, me);
    lemma_separated_filter(bm, keep);
    assert forall|x: (RangeV, BitmapV)| kept.contains(x) && x.1.0 == es implies !ranges_touch(
        x.0,
        me.0,
    ) by {
        bm.lemma_filter_contains_rev(keep, x);
        assert forall|i: int| 0 <= i < parts.len() implies ranges_touch((#[trigger] parts[i]).0, r)
            && range_wf(parts[i].0) && !ranges_touch(x.0, parts[i].0) by {
            bm.lemma_filter_pred(part, i);
            assert(parts.contains(parts[i]));
            bm.lemma_filter_contains_rev(part, parts[i]);
            lemma_separated_elements(bm, x, parts[i]);
            let j = choose|j: int| 0 <= j < bm.len() && bm[j] == parts[i];
            assert(range_wf(bm[j].0));
        }
        let j = choose|j: int| 0 <= j < bm.len() && bm[j] == x;
        assert(range_wf(bm[j].0));
        lemma_cover_apart(r, parts, x.0);
    }
    assert forall|i: int, j: int|
        0 <= i < g.len() && 0 <= j < g.len() && i != j && (#[trigger] g[i]).1.0 == (
        #[trigger] g[j]).1.0 implies !ranges_touch(g[i].0, g[j].0) by {
        if i != p && j != p {
            let i0 = if i < p { i } else { i - 1 };
            let j0 = if j < p { j } else { j - 1 };
            assert(g[i] == kept[i0] && g[j] == kept[j0]);
        } else {
            let k = if i == p { j } else { i };
            let k0 = if k < p { k } else { k - 1 };
            assert(g[k] == kept[k0]);
            assert(kept.contains(kept[k0]));
        }
    }
}

/// The merged bitmap holds one entry per key of its cover, when the filed bitmap and every
/// stored bitmap hold one entry per key of their ranges.
pub proof fn law_insert_keeps_fit(bm: Seq<(RangeV, BitmapV)>, r: RangeV, b: BitmapV)
    requires
        bitmap_fits(r, b),
        forall|k: int| 0 <= k < bm.len() ==> bitmap_fits(#[trigger] bm[k].0, bm[k].1),
    ensures
        bitmap_fits(merged_entry(bm, r, b).0, merged_entry(bm, r, b).1),
{
    let es = b.0;
    let parts = partners(bm, r, es);
    let u = cover(r, parts);
    lemma_cover_holds(r, parts);
    lemma_part_fits(u, r, es as int);
    let pred = |e: (RangeV, BitmapV)| is_partner(e, r, es);
    assert forall|i: int| 0 <= i < parts.len() implies u.0 <= (#[trigger] parts[i]).0.0
        && bitmap_fits(parts[i].0, parts[i].1) && parts[i].1.0 == es && parts[i].0.1 <= u.1 by {
        bm.lemma_filter_pred(pred, i);
        assert(parts.contains(parts[i]));
        bm.lemma_filter_contains_rev(pred, parts[i]);
    }
    let z = Seq::new((range_len(u) * es) as nat, |i: int| 0u8);
    lemma_paint_len(z, u, es as int, parts);
    assert(range_len(u) * es == es * range_len(u)) by (nonlinear_arith);
}

} // verus!
