//! Where a run spends its time.

use std::cell::RefCell;

use hematite::timing::{span, Span, Timings};

/// Records a span when it goes out of scope.
struct Guard<'a> {
    timings: &'a RefCell<Timings>,
    span: Option<Span>,
    ends: u64,
}

impl<'a> Drop for Guard<'a> {
    fn drop(&mut self) {
        if let Some(s) = self.span.take() {
            self.timings.borrow_mut().measure(s, self.ends, ());
        }
    }
}

#[test]
fn spans_accumulate_across_calls() {
    let timings = RefCell::new(Timings::new());
    for i in 0..3u64 {
        let _s = Guard { timings: &timings, span: Some(span("test::accumulate", i * 10)), ends: i * 10 + 1 };
    }
    let rows = timings.borrow().report();
    let row = rows.iter().find(|r| r.label == "test::accumulate").expect("recorded");
    assert_eq!(row.calls, 3);
    assert!(row.total >= 3);
}

#[test]
fn a_span_records_on_early_return() {
    let timings = RefCell::new(Timings::new());
    fn bail(timings: &RefCell<Timings>) -> Option<()> {
        let _s = Guard { timings, span: Some(span("test::early", 5)), ends: 9 };
        None
    }
    assert!(timings.borrow().is_empty());
    assert!(bail(&timings).is_none());
    assert!(timings.borrow().report().iter().any(|r| r.label == "test::early"));
    assert!(!timings.borrow().is_empty());
}

#[test]
fn the_slowest_comes_first() {
    let mut timings = Timings::new();
    timings.record("quick", 1);
    timings.record("slow", 50);
    timings.record("quick", 2);
    let rows = timings.report();
    assert_eq!(rows[0].label, "slow");
    assert_eq!(rows[1].label, "quick");
    assert_eq!(rows[1].total, 3);
    assert_eq!(rows[1].calls, 2);
}

#[test]
fn a_clock_that_runs_back_counts_nothing() {
    let s = span("x", 10);
    assert_eq!(s.elapsed(4), 0);
    assert_eq!(s.elapsed(14), 4);
    assert_eq!(Timings::new().measure(s, 14, 7), 7);
}

#[test]
fn a_report_has_a_row_per_label() {
    let mut t = Timings::new();
    t.record("a", 2);
    t.record("b", 7);
    t.record("a", 3);
    let rows: Vec<(String, u64, u64)> = t.report().into_iter().map(|r| (r.label, r.total, r.calls)).collect();
    assert_eq!(rows, vec![("b".to_string(), 7, 1), ("a".to_string(), 5, 2)]);
}
