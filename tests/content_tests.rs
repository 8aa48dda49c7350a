use theban_db::content::SliceData;
use theban_db::{Bitmap, BitmapSlice, Object, Range};

#[test]
fn range_basics() {
    let r = Range::new(3, 7);
    assert_eq!(r.len(), 5);
    assert!(r.intersect(&Range::new(7, 9)));
    assert!(!r.intersect(&Range::new(8, 9)));
    assert_eq!(r.intersection(&Range::new(5, 20)), Range::new(5, 7));
    assert_eq!(r.union(&Range::new(10, 12)), Range::new(3, 12));
}

#[test]
fn range_extended_saturates() {
    assert_eq!(Range::new(3, 7).extended(), Range::new(2, 8));
    assert_eq!(Range::new(0, u64::MAX).extended(), Range::new(0, u64::MAX));
}

#[test]
fn range_difference_parts() {
    assert_eq!(Range::new(0, 10).difference(&Range::new(2, 3)), (Some(Range::new(0, 1)), Some(Range::new(4, 10))));
    assert_eq!(Range::new(0, 10).difference(&Range::new(0, 3)), (None, Some(Range::new(4, 10))));
    assert_eq!(Range::new(0, 10).difference(&Range::new(5, 12)), (Some(Range::new(0, 4)), None));
    assert_eq!(Range::new(4, 6).difference(&Range::new(0, 10)), (None, None));
}

#[test]
fn merge_overlays_the_new_bytes() {
    let b = Bitmap::new(1, vec![9, 9]);
    let partners = vec![(Range::new(0, 3), Bitmap::new(1, vec![1, 2, 3, 4]))];
    let (r, m) = b.merge_bitmaps(Range::new(2, 3), partners);
    assert_eq!(r, Range::new(0, 3));
    assert_eq!(m, Bitmap::new(1, vec![1, 2, 9, 9]));
}

#[test]
fn merge_zero_fills_gaps() {
    let b = Bitmap::new(2, vec![7, 7]);
    let partners = vec![(Range::new(0, 0), Bitmap::new(2, vec![1, 1]))];
    let (r, m) = b.merge_bitmaps(Range::new(2, 2), partners);
    assert_eq!(r, Range::new(0, 2));
    assert_eq!(m, Bitmap::new(2, vec![1, 1, 0, 0, 7, 7]));
}

#[test]
fn merge_inside_returns_self() {
    let b = Bitmap::new(1, vec![1, 2, 3]);
    let partners = vec![(Range::new(6, 6), Bitmap::new(1, vec![8]))];
    let (r, m) = b.merge_bitmaps(Range::new(5, 7), partners);
    assert_eq!(r, Range::new(5, 7));
    assert_eq!(m, Bitmap::new(1, vec![1, 2, 3]));
}

#[test]
fn subslices_window_the_entries() {
    let b = Bitmap::new(2, vec![0, 1, 2, 3, 4, 5]);
    let s = b.to_subslice(Range::new(10, 12), Range::new(11, 30));
    assert_eq!(s.entry_size, 2);
    assert_eq!(s.data.as_slice(), &[2u8, 3, 4, 5][..]);
    assert_eq!(b.to_subbitmap(Range::new(10, 12), Range::new(0, 10)), Bitmap::new(2, vec![0, 1]));
}

#[test]
fn slices_from_owned_and_borrowed() {
    let b = Bitmap::new(3, vec![1, 2, 3]);
    let borrowed = BitmapSlice::new_from_borrowed(&b);
    assert!(matches!(borrowed.data, SliceData::Borrowed(_)));
    assert_eq!(borrowed.to_bitmap(), b);
    let owned = BitmapSlice::new_from_owned(b.clone());
    assert!(matches!(owned.data, SliceData::Owned(_)));
    assert_eq!(owned.to_bitmap(), b);
    assert_eq!(Object::new(vec![4, 5]).data, vec![4, 5]);
}
