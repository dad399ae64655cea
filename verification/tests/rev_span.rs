use diamond_types::dtrange::TimeSpan;
use diamond_types::rev_span::TimeSpanRev;
use diamond_types::rle::{HasLength, MergableSpan, SplitableSpan};

fn test_splitable_methods_valid(entry: TimeSpanRev) {
    assert!(entry.len() >= 2, "Call this with a larger entry");

    for i in 1..entry.len() {
        // Split here and make sure we get the expected results.
        let (start, end) = entry.clone().split(i);
        assert_eq!(start.len(), i);
        assert_eq!(end.len(), entry.len() - i);

        assert!(start.can_append(&end));

        let mut merge_append = start.clone();
        merge_append.append(end.clone());
        assert_eq!(merge_append, entry);

        let mut merge_prepend = end.clone();
        merge_prepend.prepend(start.clone());
        assert_eq!(merge_prepend, entry);

        // Split using truncate_keeping_right. We should get the same behaviour.
        let mut end2 = entry.clone();
        let start2 = end2.truncate_keeping_right(i);
        assert_eq!(end2, end);
        assert_eq!(start2, start);
    }
}

#[test]
fn split_fwd_rev() {
    let fwd = TimeSpanRev {
        span: (1..4).into(),
        reversed: false
    };
    assert_eq!(fwd.split(1), (
        TimeSpanRev {
            span: (1..2).into(),
            reversed: false
        },
        TimeSpanRev {
            span: (2..4).into(),
            reversed: false
        }
    ));

    let rev = TimeSpanRev {
        span: (1..4).into(),
        reversed: true
    };
    assert_eq!(rev.split(1), (
        TimeSpanRev {
            span: (3..4).into(),
            reversed: true
        },
        TimeSpanRev {
            span: (1..3).into(),
            reversed: true
        }
    ));
}

#[test]
fn splitable_mergable() {
    test_splitable_methods_valid(TimeSpanRev {
        span: (1..5).into(),
        reversed: false
    });

    test_splitable_methods_valid(TimeSpanRev {
        span: (1..5).into(),
        reversed: true
    });
}

#[test]
fn at_offset() {
    for rev in [true, false] {
        let span = TimeSpanRev {
            span: (1..5).into(),
            reversed: rev
        };

        for offset in 1..span.len() {
            let (a, b) = span.split(offset);
            assert_eq!(span.time_at_offset(offset - 1), a.time_at_offset(offset - 1));
            assert_eq!(span.time_at_offset(offset), b.time_at_offset(0));
        }
    }
}

#[test]
fn time_at_offset_walks_both_ways() {
    let fwd = TimeSpanRev { span: (10..13).into(), reversed: false };
    let rev = TimeSpanRev { span: (10..13).into(), reversed: true };
    assert_eq!((0..3).map(|i| fwd.time_at_offset(i)).collect::<Vec<_>>(), vec![10, 11, 12]);
    assert_eq!((0..3).map(|i| rev.time_at_offset(i)).collect::<Vec<_>>(), vec![12, 11, 10]);
}

#[test]
fn range_of_offsets() {
    let fwd = TimeSpanRev { span: (10..20).into(), reversed: false };
    let rev = TimeSpanRev { span: (10..20).into(), reversed: true };
    assert_eq!(fwd.range(2, 5), TimeSpan { start: 12, end: 15 });
    assert_eq!(rev.range(2, 5), TimeSpan { start: 15, end: 18 });
    assert_eq!(rev.range(0, 10), TimeSpan { start: 10, end: 20 });
    assert_eq!(fwd.range(3, 3), TimeSpan { start: 13, end: 13 });
}

#[test]
fn conversions_run_forwards() {
    let a: TimeSpanRev = TimeSpan { start: 3, end: 7 }.into();
    let b: TimeSpanRev = (3..7).into();
    assert_eq!(a.span, TimeSpan { start: 3, end: 7 });
    assert!(!a.reversed);
    assert_eq!(a, b);
    assert!(!b.reversed);
}

#[test]
fn equality_ignores_direction_of_short_spans() {
    let one_fwd = TimeSpanRev { span: (5..6).into(), reversed: false };
    let one_rev = TimeSpanRev { span: (5..6).into(), reversed: true };
    assert_eq!(one_fwd, one_rev);
    let two_fwd = TimeSpanRev { span: (5..7).into(), reversed: false };
    let two_rev = TimeSpanRev { span: (5..7).into(), reversed: true };
    assert_ne!(two_fwd, two_rev);
    assert_ne!(one_fwd, two_fwd);
}

#[test]
fn can_append_cases() {
    let fwd = |a: usize, b: usize| TimeSpanRev { span: (a..b).into(), reversed: false };
    let rev = |a: usize, b: usize| TimeSpanRev { span: (a..b).into(), reversed: true };
    assert!(fwd(1, 3).can_append(&fwd(3, 5)));
    assert!(!fwd(1, 3).can_append(&fwd(4, 5)));
    assert!(!fwd(1, 3).can_append(&rev(3, 5)));
    assert!(rev(3, 5).can_append(&rev(1, 3)));
    assert!(!rev(3, 5).can_append(&fwd(1, 3)));
    // Single items go either way.
    assert!(fwd(3, 4).can_append(&rev(1, 3)));
    assert!(rev(3, 4).can_append(&fwd(4, 6)));
}

#[test]
fn append_joins_walks() {
    let mut a = TimeSpanRev { span: (1..3).into(), reversed: false };
    a.append(TimeSpanRev { span: (3..5).into(), reversed: false });
    assert_eq!(a, TimeSpanRev { span: (1..5).into(), reversed: false });

    let mut b = TimeSpanRev { span: (5..6).into(), reversed: false };
    b.append(TimeSpanRev { span: (3..5).into(), reversed: true });
    assert_eq!(b, TimeSpanRev { span: (3..6).into(), reversed: true });
    assert_eq!((0..3).map(|i| b.time_at_offset(i)).collect::<Vec<_>>(), vec![5, 4, 3]);
}

#[test]
fn time_span_split_and_last() {
    let s = TimeSpan { start: 4, end: 9 };
    assert_eq!(s.len(), 5);
    assert_eq!(s.last(), 8);
    assert_eq!(s.split(2), (TimeSpan { start: 4, end: 6 }, TimeSpan { start: 6, end: 9 }));
    let mut t = s;
    let head = t.truncate_keeping_right(3);
    assert_eq!(head, TimeSpan { start: 4, end: 7 });
    assert_eq!(t, TimeSpan { start: 7, end: 9 });
}
