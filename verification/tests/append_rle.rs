use diamond_types::append_rle::{AppendRle, SpanSmallVec};
use diamond_types::rev_span::TimeSpanRev;
use diamond_types::rle::HasLength;

fn fwd(a: usize, b: usize) -> TimeSpanRev {
    TimeSpanRev { span: (a..b).into(), reversed: false }
}

fn rev(a: usize, b: usize) -> TimeSpanRev {
    TimeSpanRev { span: (a..b).into(), reversed: true }
}

#[test]
fn vec_push_rle_merges_continuing_runs() {
    let mut v: Vec<TimeSpanRev> = Vec::new();
    assert!(!v.push_rle(fwd(0, 2)));
    assert!(v.push_rle(fwd(2, 5)));
    assert_eq!(v, vec![fwd(0, 5)]);
    assert!(!v.push_rle(fwd(7, 8)));
    assert_eq!(v, vec![fwd(0, 5), fwd(7, 8)]);
    // A single item before the last one turns it into a backwards run.
    assert!(v.push_rle(rev(6, 7)));
    assert_eq!(v, vec![fwd(0, 5), rev(6, 8)]);
}

#[test]
fn vec_push_reversed_rle_merges_onto_the_front() {
    let mut v: Vec<TimeSpanRev> = Vec::new();
    assert!(!v.push_reversed_rle(fwd(5, 8)));
    assert!(v.push_reversed_rle(fwd(2, 5)));
    assert_eq!(v, vec![fwd(2, 8)]);
    assert!(!v.push_reversed_rle(fwd(0, 1)));
    assert_eq!(v, vec![fwd(2, 8), fwd(0, 1)]);
}

#[test]
fn small_vec_push_rle_matches_vec() {
    let mut sv = SpanSmallVec::new();
    let mut v: Vec<TimeSpanRev> = Vec::new();
    let items = [fwd(0, 2), fwd(2, 5), fwd(7, 8), rev(6, 7), fwd(10, 11), fwd(20, 21), fwd(30, 31), fwd(40, 41)];
    for item in items {
        assert_eq!(sv.push_rle(item), v.push_rle(item));
    }
    assert_eq!(sv.to_vec(), v);
    assert_eq!(sv.to_vec(), vec![fwd(0, 5), rev(6, 8), fwd(10, 11), fwd(20, 21), fwd(30, 31), fwd(40, 41)]);
}

#[test]
fn small_vec_push_reversed_rle_matches_vec() {
    let mut sv = SpanSmallVec::new();
    let mut v: Vec<TimeSpanRev> = Vec::new();
    let items = [fwd(5, 8), fwd(2, 5), fwd(0, 1), rev(9, 12), rev(12, 13)];
    for item in items {
        assert_eq!(sv.push_reversed_rle(item), v.push_reversed_rle(item));
    }
    assert_eq!(sv.to_vec(), v);
    assert_eq!(sv.to_vec(), vec![fwd(2, 8), fwd(0, 1), rev(9, 13)]);
}

fn times(items: &[TimeSpanRev]) -> Vec<usize> {
    items.iter().flat_map(|r| (0..r.len()).map(move |k| r.time_at_offset(k))).collect()
}

#[test]
fn push_rle_keeps_the_walked_times() {
    let mut v: Vec<TimeSpanRev> = Vec::new();
    let mut expected: Vec<usize> = Vec::new();
    for item in [fwd(0, 2), fwd(2, 4), rev(4, 6), rev(1, 4), fwd(9, 10), rev(8, 9)] {
        v.push_rle(item);
        expected.extend(times(&[item]));
        assert_eq!(times(&v), expected);
    }
    assert_eq!(v, vec![fwd(0, 4), rev(1, 6), rev(8, 10)]);
}
