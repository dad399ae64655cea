use diamond_types::dtrange::TimeSpan;
use diamond_types::op_metrics::{KVPair, ListOpKind, ListOpMetrics, ListOperationCtx};
use diamond_types::rev_span::TimeSpanRev;
use diamond_types::rle::{HasLength, MergableSpan, SplitableSpan};
use diamond_types::textinfo::{TextInfo, TextOperation};

fn fwd(a: usize, b: usize) -> TimeSpanRev {
    TimeSpanRev { span: (a..b).into(), reversed: false }
}

fn ins(a: usize, b: usize, s: &str) -> TextOperation {
    TextOperation { loc: fwd(a, b), kind: ListOpKind::Ins, content: Some(s.to_string()) }
}

fn key_and_loc(ops: &[KVPair<ListOpMetrics>]) -> Vec<(usize, TimeSpanRev, Option<TimeSpan>)> {
    ops.iter().map(|e| (e.0, e.1.loc, e.1.content_pos)).collect()
}

#[test]
fn ctx_push_and_get_str() {
    let mut ctx = ListOperationCtx::new();
    let a = ctx.push_str(ListOpKind::Ins, "héllo");
    let b = ctx.push_str(ListOpKind::Del, "xy");
    let c = ctx.push_str(ListOpKind::Ins, "!");
    assert_eq!(a, TimeSpan { start: 0, end: 5 });
    assert_eq!(b, TimeSpan { start: 0, end: 2 });
    assert_eq!(c, TimeSpan { start: 5, end: 6 });
    assert_eq!(ctx.get_str(ListOpKind::Ins, TimeSpan { start: 1, end: 3 }), "él");
    assert_eq!(ctx.get_str(ListOpKind::Del, b), "xy");
    assert_eq!(ctx.get_str(ListOpKind::Ins, c), "!");
}

#[test]
fn local_pushes_merge_and_read_back() {
    let mut info = TextInfo::default();
    info.local_push_op(ins(0, 3, "abc"), TimeSpan { start: 0, end: 3 });
    assert_eq!(info.frontier, vec![2]);
    assert_eq!(info.ops.len(), 1);

    // The next insert continues the first one, so the two runs are joined.
    info.local_push_op(ins(3, 5, "de"), TimeSpan { start: 3, end: 5 });
    assert_eq!(info.frontier, vec![4]);
    assert_eq!(key_and_loc(&info.ops), vec![(0, fwd(0, 5), Some(TimeSpan { start: 0, end: 5 }))]);

    // A delete does not join an insert.
    let del = TextOperation { loc: fwd(1, 2), kind: ListOpKind::Del, content: None };
    info.local_push_op(del, TimeSpan { start: 5, end: 6 });
    assert_eq!(info.frontier, vec![5]);
    assert_eq!(
        key_and_loc(&info.ops),
        vec![(0, fwd(0, 5), Some(TimeSpan { start: 0, end: 5 })), (5, fwd(1, 2), None)]
    );

    let ops = info.iter();
    assert_eq!(ops.len(), 2);
    assert_eq!(ops[0].loc, fwd(0, 5));
    assert_eq!(ops[0].kind, ListOpKind::Ins);
    assert_eq!(ops[0].content.as_deref(), Some("abcde"));
    assert_eq!(ops[1].loc, fwd(1, 2));
    assert_eq!(ops[1].kind, ListOpKind::Del);
    assert_eq!(ops[1].content, None);
}

#[test]
fn pushed_op_reads_back_alone() {
    let mut info = TextInfo::default();
    info.local_push_op(ins(10, 14, "wxyz"), TimeSpan { start: 0, end: 4 });
    let ops = info.iter();
    assert_eq!(ops.len(), 1);
    assert_eq!(ops[0].loc, fwd(10, 14));
    assert_eq!(ops[0].content.as_deref(), Some("wxyz"));
}

#[test]
fn metrics_range_cuts_runs() {
    let mut info = TextInfo::default();
    info.local_push_op(ins(0, 5, "abcde"), TimeSpan { start: 0, end: 5 });
    let del = TextOperation { loc: fwd(1, 3), kind: ListOpKind::Del, content: Some("bc".to_string()) };
    info.local_push_op(del, TimeSpan { start: 5, end: 7 });

    assert_eq!(
        key_and_loc(&info.iter_metrics_range(TimeSpan { start: 1, end: 4 })),
        vec![(1, fwd(1, 4), Some(TimeSpan { start: 1, end: 4 }))]
    );
    assert_eq!(
        key_and_loc(&info.iter_metrics_range(TimeSpan { start: 4, end: 6 })),
        vec![(4, fwd(4, 5), Some(TimeSpan { start: 4, end: 5 })), (5, fwd(1, 2), Some(TimeSpan { start: 0, end: 1 }))]
    );
    assert!(info.iter_metrics_range(TimeSpan { start: 7, end: 9 }).is_empty());
    assert!(info.iter_metrics_range(TimeSpan { start: 2, end: 2 }).is_empty());
    assert_eq!(key_and_loc(&info.iter_metrics()), key_and_loc(&info.ops));

    let fast = info.iter_fast();
    assert_eq!(fast.len(), 2);
    assert_eq!(fast[0].1.as_deref(), Some("abcde"));
    assert_eq!(fast[1].1.as_deref(), Some("bc"));
}

#[test]
fn reversed_delete_range_cut() {
    let mut info = TextInfo::default();
    // Backspacing over positions 4, 3, 2.
    let del = TextOperation {
        loc: TimeSpanRev { span: (2..5).into(), reversed: true },
        kind: ListOpKind::Del,
        content: None,
    };
    info.local_push_op(del, TimeSpan { start: 0, end: 3 });
    let part = info.iter_metrics_range(TimeSpan { start: 1, end: 3 });
    assert_eq!(key_and_loc(&part), vec![(1, TimeSpanRev { span: (2..4).into(), reversed: true }, None)]);
}

#[test]
fn op_metrics_split_and_join() {
    let m = ListOpMetrics { loc: fwd(0, 4), kind: ListOpKind::Ins, content_pos: Some(TimeSpan { start: 10, end: 14 }) };
    let (a, b) = m.split(1);
    assert_eq!(a.len(), 1);
    assert_eq!(b.len(), 3);
    assert_eq!(a.content_pos, Some(TimeSpan { start: 10, end: 11 }));
    assert_eq!(b.content_pos, Some(TimeSpan { start: 11, end: 14 }));
    assert!(a.can_append(&b));
    let mut joined = a;
    joined.append(b);
    assert_eq!(joined.loc, m.loc);
    assert_eq!(joined.content_pos, m.content_pos);

    let kv = KVPair(100, m);
    let (x, y) = kv.split(3);
    assert_eq!(x.0, 100);
    assert_eq!(y.0, 103);
    assert!(x.can_append(&y));
    assert!(!y.can_append(&x));
}
