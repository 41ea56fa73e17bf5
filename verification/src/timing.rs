//! Phase timing: named spans, accumulated over a run, slowest first.

use vstd::prelude::*;
use vstd::string::*;
use crate::text::same;

verus! {

/// The running total of one span.
#[derive(Debug)]
pub struct Record {
    pub label: String,
    /// Total time in nanoseconds.
    pub total: u64,
    pub calls: u64,
}

/// What a record says: the label, the total and the number of calls.
pub open spec fn row(r: Record) -> (Seq<char>, u64, u64) {
    (r.label@, r.total, r.calls)
}

/// What a list of records says.
pub open spec fn rows(v: Seq<Record>) -> Seq<(Seq<char>, u64, u64)> {
    v.map_values(|r: Record| row(r))
}

/// A span that has begun.
#[derive(Debug)]
pub struct Span {
    pub label: String,
    /// When it began, in nanoseconds of some clock.
    pub started: u64,
}

impl Span {
    /// A span that begins now.
    pub fn new(label: &str, now: u64) -> (r: Span)
        ensures
            r.label@ == label@,
            r.started == now,
    {
        Span { label: label.to_owned(), started: now }
    }

    /// The time since the span began. A clock that went back counts as no time.
    pub fn elapsed(&self, now: u64) -> (r: u64)
        ensures
            r == (if now >= self.started { (now - self.started) as u64 } else { 0 }),
    {
        if now >= self.started {
            now - self.started
        } else {
            0
        }
    }
}

/// Start timing a named span.
pub fn span(label: &str, now: u64) -> (r: Span)
    ensures
        r.label@ == label@,
        r.started == now,
{
    Span::new(label, now)
}

/// The spans of a run. No label occurs twice.
#[derive(Debug)]
pub struct Timings {
    pub records: Vec<Record>,
}

/// The sum of two numbers, which stops at the largest.
pub open spec fn total(a: u64, b: u64) -> u64 {
    if a + b > u64::MAX {
        u64::MAX
    } else {
        (a + b) as u64
    }
}

fn plus(a: u64, b: u64) -> (r: u64)
    ensures
        r == total(a, b),
{
    if a > u64::MAX - b {
        u64::MAX
    } else {
        a + b
    }
}

/// The row of a label stands at `i`.
pub open spec fn row_at(rs: Seq<(Seq<char>, u64, u64)>, label: Seq<char>, i: int) -> bool {
    0 <= i < rs.len() && rs[i].0 == label && forall|j: int| 0 <= j < i ==> (#[trigger] rs[j]).0 != label
}

/// The rows with a span added to its running total.
pub open spec fn recorded(rs: Seq<(Seq<char>, u64, u64)>, label: Seq<char>, elapsed: u64) -> Seq<(Seq<char>, u64, u64)> {
    if exists|i: int| row_at(rs, label, i) {
        let i = choose|i: int| row_at(rs, label, i);
        rs.update(i, (label, total(rs[i].1, elapsed), total(rs[i].2, 1)))
    } else {
        rs.push((label, elapsed, 1))
    }
}

/// No row is slower than one before it.
pub open spec fn slowest_first(rs: Seq<(Seq<char>, u64, u64)>) -> bool {
    forall|i: int, j: int| 0 <= i < j < rs.len() ==> (#[trigger] rs[i]).1 >= (#[trigger] rs[j]).1
}

impl View for Timings {
    type V = Seq<(Seq<char>, u64, u64)>;

    open spec fn view(&self) -> Seq<(Seq<char>, u64, u64)> {
        rows(self.records@)
    }
}

impl Timings {
    /// No span yet.
    pub fn new() -> (r: Timings)
        ensures
            r@ == Seq::<(Seq<char>, u64, u64)>::empty(),
    {
        let r = Timings { records: Vec::new() };
        assert(r@ =~= Seq::empty());
        r
    }

    /// Add to a span's running total.
    pub fn record(&mut self, label: &str, elapsed: u64)
        ensures
            final(self)@ == recorded(old(self)@, label@, elapsed),
    {
        let ghost rs = self@;
        let mut i: usize = 0;
        while i < self.records.len()
            invariant
                rs == self@,
                self.records == old(self).records,
                i <= self.records@.len(),
                forall|j: int| 0 <= j < i ==> (#[trigger] rs[j]).0 != label@,
            decreases self.records@.len() - i,
        {
            assert(rs[i as int] == row(self.records@[i as int]));
            if same(self.records[i].label.as_str(), label) {
                proof {
                    assert(row_at(rs, label@, i as int));
                    let k = choose|k: int| row_at(rs, label@, k);
                    assert(row_at(rs, label@, k));
                    if k < i {
                        assert(rs[k].0 != label@);
                    }
                    if i < k {
                        assert(rs[i as int].0 != label@);
                    }
                }
                self.records[i].total = plus(self.records[i].total, elapsed);
                self.records[i].calls = plus(self.records[i].calls, 1);
                assert(self@ =~= recorded(rs, label@, elapsed));
                return;
            }
            i = i + 1;
        }
        assert(forall|k: int| !row_at(rs, label@, k));
        self.records.push(Record { label: label.to_owned(), total: elapsed, calls: 1 });
        assert(self@ =~= rs.push((label@, elapsed, 1)));
    }

    /// Add a span that ends now to its running total, and hand on what was measured.
    pub fn measure<T>(&mut self, span: Span, now: u64, value: T) -> (r: T)
        ensures
            r == value,
            final(self)@ == recorded(
                old(self)@,
                span.label@,
                if now >= span.started { (now - span.started) as u64 } else { 0 },
            ),
    {
        let elapsed = span.elapsed(now);
        self.record(span.label.as_str(), elapsed);
        value
    }

    /// Every recorded span, slowest first.
    pub fn report(&self) -> (r: Vec<Record>)
        ensures
            slowest_first(rows(r@)),
            rows(r@).to_multiset() == self@.to_multiset(),
    {
        let ghost all = self@;
        let mut out: Vec<Record> = Vec::new();
        let mut i: usize = 0;
        proof {
            assert(rows(out@) =~= Seq::empty());
            assert(all.take(0) =~= Seq::empty());
        }
        while i < self.records.len()
            invariant
                all == self@,
                i <= self.records@.len(),
                slowest_first(rows(out@)),
                rows(out@).to_multiset() == all.take(i as int).to_multiset(),
                rows(out@).len() == i,
            decreases self.records@.len() - i,
        {
            let r = &self.records[i];
            let copy = Record { label: r.label.clone(), total: r.total, calls: r.calls };
            let ghost before = rows(out@);
            let ghost x = row(copy);
            // The place behind everything that is at least as slow.
            let mut k: usize = out.len();
            while k > 0 && out[k - 1].total < copy.total
                invariant
                    k <= out@.len(),
                    before == rows(out@),
                    x == row(copy),
                    forall|j: int| k <= j < out@.len() ==> (#[trigger] before[j]).1 < x.1,
                decreases k,
            {
                assert(before[k - 1] == row(out@[k - 1]));
                k = k - 1;
            }
            proof {
                if k > 0 {
                    assert(before[k - 1] == row(out@[k - 1]));
                    assert(before[k - 1].1 >= x.1);
                }
            }
            out.insert(k, copy);
            proof {
                let now = rows(out@);
                assert(now =~= before.insert(k as int, x));
                before.to_multiset_ensures();
                lemma_insert_multiset(before, k as int, x);
                assert(all.take(i + 1) =~= all.take(i as int).push(x)) by {
                    assert(all[i as int] == x);
                }
                all.take(i as int).to_multiset_ensures();
                assert forall|a: int, b: int| 0 <= a < b < now.len() implies (#[trigger] now[a]).1 >= (#[trigger] now[b]).1 by {
                    let before_k = if k > 0 { before[k - 1].1 } else { 0 };
                    if a < k && b == k {
                        if a < k - 1 {
                            assert(before[a].1 >= before[k - 1].1);
                        }
                        assert(now[a] == before[a]);
                    } else if a == k {
                        assert(now[b] == before[b - 1]);
                        assert(before[b - 1].1 < x.1);
                    } else {
                        let a0 = if a < k { a } else { a - 1 };
                        let b0 = if b < k { b } else { b - 1 };
                        assert(now[a] == before[a0]);
                        assert(now[b] == before[b0]);
                        assert(before[a0].1 >= before[b0].1);
                    }
                }
            }
            i = i + 1;
        }
        assert(all.take(i as int) =~= all);
        out
    }

    /// Whether nothing was recorded.
    pub fn is_empty(&self) -> (r: bool)
        ensures
            r == (self@.len() == 0),
    {
        self.records.len() == 0
    }
}

proof fn lemma_insert_multiset(s: Seq<(Seq<char>, u64, u64)>, k: int, x: (Seq<char>, u64, u64))
    requires
        0 <= k <= s.len(),
    ensures
        s.insert(k, x).to_multiset() == s.to_multiset().insert(x),
    decreases s.len() - k,
{
    s.to_multiset_ensures();
    if k == s.len() {
        assert(s.insert(k, x) =~= s.push(x));
    } else {
        let head = s.drop_last();
        let last = s.last();
        lemma_insert_multiset(head, k, x);
        head.to_multiset_ensures();
        head.insert(k, x).to_multiset_ensures();
        assert(s =~= head.push(last));
        assert(s.insert(k, x) =~= head.insert(k, x).push(last));
        assert(head.to_multiset().insert(last).insert(x) =~= head.to_multiset().insert(x).insert(last));
    }
}

/// Recording a span leaves the totals of all others alone, and counts the call.
pub proof fn law_recording_adds_up(rs: Seq<(Seq<char>, u64, u64)>, label: Seq<char>, elapsed: u64, i: int)
    requires
        0 <= i < rs.len(),
    ensures
        rs[i].0 != label ==> recorded(rs, label, elapsed)[i] == rs[i],
        row_at(rs, label, i) ==> recorded(rs, label, elapsed)[i] == (
            label,
            total(rs[i].1, elapsed),
            total(rs[i].2, 1),
        ),
{
    if exists|k: int| row_at(rs, label, k) {
        let k = choose|k: int| row_at(rs, label, k);
        assert(row_at(rs, label, k));
        if row_at(rs, label, i) {
            if k < i {
                assert(rs[k].0 != label);
            }
            if i < k {
                assert(rs[i].0 != label);
            }
        }
    }
}

/// The rows after some calls of `record`, each with its label and its time.
pub open spec fn all_recorded(calls: Seq<(Seq<char>, u64)>) -> Seq<(Seq<char>, u64, u64)>
    decreases calls.len(),
{
    if calls.len() == 0 {
        Seq::empty()
    } else {
        recorded(all_recorded(calls.drop_last()), calls.last().0, calls.last().1)
    }
}

/// The number of calls for a label.
pub open spec fn calls_for(calls: Seq<(Seq<char>, u64)>, label: Seq<char>) -> nat
    decreases calls.len(),
{
    if calls.len() == 0 {
        0
    } else {
        calls_for(calls.drop_last(), label) + (if calls.last().0 == label { 1nat } else { 0nat })
    }
}

/// The time of all calls for a label.
pub open spec fn time_for(calls: Seq<(Seq<char>, u64)>, label: Seq<char>) -> nat
    decreases calls.len(),
{
    if calls.len() == 0 {
        0
    } else {
        time_for(calls.drop_last(), label) + (if calls.last().0 == label { calls.last().1 as nat } else { 0nat })
    }
}

/// A number that stops at the largest one that a row can hold.
pub open spec fn limited(n: nat) -> u64 {
    if n > u64::MAX {
        u64::MAX
    } else {
        n as u64
    }
}

/// The row that a label has after some calls.
pub open spec fn row_of(calls: Seq<(Seq<char>, u64)>, label: Seq<char>) -> (Seq<char>, u64, u64) {
    (label, limited(time_for(calls, label)), limited(calls_for(calls, label)))
}

proof fn lemma_rows(calls: Seq<(Seq<char>, u64)>)
    ensures
        forall|i: int| 0 <= i < all_recorded(calls).len() ==> {
            let r = #[trigger] all_recorded(calls)[i];
            r == row_of(calls, r.0) && calls_for(calls, r.0) > 0
        },
        forall|i: int, j: int| 0 <= i < j < all_recorded(calls).len() ==> (#[trigger] all_recorded(calls)[i]).0 != (
        #[trigger] all_recorded(calls)[j]).0,
        forall|label: Seq<char>|
            calls_for(calls, label) > 0 ==> exists|i: int| #[trigger] row_at(all_recorded(calls), label, i),
    decreases calls.len(),
{
    if calls.len() > 0 {
        let before = calls.drop_last();
        lemma_rows(before);
        let rs = all_recorded(before);
        let now = all_recorded(calls);
        let label = calls.last().0;
        let elapsed = calls.last().1;
        if exists|i: int| row_at(rs, label, i) {
            let k = choose|i: int| row_at(rs, label, i);
            assert(row_at(rs, label, k));
            assert(rs[k] == row_of(before, label));
            assert forall|i: int| 0 <= i < now.len() implies {
                let r = #[trigger] now[i];
                r == row_of(calls, r.0) && calls_for(calls, r.0) > 0
            } by {
                assert(rs[i].0 == now[i].0);
                if i != k {
                    assert(rs[i].0 != rs[k].0);
                }
            }
            assert forall|i: int, j: int| 0 <= i < j < now.len() implies (#[trigger] now[i]).0 != (#[trigger] now[j]).0 by {
                assert(rs[i].0 != rs[j].0);
            }
        } else {
            assert(calls_for(before, label) == 0);
            lemma_no_time(before, label);
            assert forall|i: int| 0 <= i < now.len() implies {
                let r = #[trigger] now[i];
                r == row_of(calls, r.0) && calls_for(calls, r.0) > 0
            } by {
                if i < rs.len() {
                    assert(now[i] == rs[i]);
                    assert(calls_for(before, rs[i].0) > 0);
                }
            }
            assert forall|i: int, j: int| 0 <= i < j < now.len() implies (#[trigger] now[i]).0 != (#[trigger] now[j]).0 by {
                assert(now[i] == rs[i]);
                if j < rs.len() {
                    assert(now[j] == rs[j]);
                } else {
                    assert(calls_for(before, rs[i].0) > 0);
                }
            }
        }
        assert forall|l: Seq<char>| calls_for(calls, l) > 0 implies exists|i: int| #[trigger] row_at(now, l, i) by {
            if calls_for(before, l) > 0 {
                let i = choose|i: int| row_at(rs, l, i);
                assert(row_at(rs, l, i));
                assert(now[i].0 == l);
                assert forall|j: int| 0 <= j < i implies (#[trigger] now[j]).0 != l by {
                    assert(now[j].0 != now[i].0);
                }
                assert(row_at(now, l, i));
            } else {
                assert(l == label);
                assert(!(exists|i: int| row_at(rs, label, i))) by {
                    if exists|i: int| row_at(rs, label, i) {
                        let i = choose|i: int| row_at(rs, label, i);
                        assert(row_at(rs, label, i));
                        assert(calls_for(before, rs[i].0) > 0);
                    }
                }
                let i = rs.len() as int;
                assert forall|j: int| 0 <= j < i implies (#[trigger] now[j]).0 != l by {
                    assert(now[j].0 != now[i].0);
                }
                assert(row_at(now, l, i));
            }
        }
    }
}

proof fn lemma_no_time(calls: Seq<(Seq<char>, u64)>, label: Seq<char>)
    requires
        calls_for(calls, label) == 0,
    ensures
        time_for(calls, label) == 0,
    decreases calls.len(),
{
    if calls.len() > 0 {
        lemma_no_time(calls.drop_last(), label);
    }
}

/// A report has one row for each label that was ever recorded and no other, slowest first;
/// the row counts the calls for the label and adds up their times.
pub proof fn law_report_has_a_row_per_label(calls: Seq<(Seq<char>, u64)>, report: Seq<(Seq<char>, u64, u64)>)
    requires
        slowest_first(report),
        report.to_multiset() == all_recorded(calls).to_multiset(),
    ensures
        forall|label: Seq<char>| calls_for(calls, label) > 0 <==> #[trigger] report.contains(row_of(calls, label)),
        forall|i: int| 0 <= i < report.len() ==> (#[trigger] report[i]) == row_of(calls, report[i].0),
        forall|i: int, j: int| 0 <= i < j < report.len() ==> (#[trigger] report[i]).0 != (#[trigger] report[j]).0,
        forall|i: int, j: int| 0 <= i < j < report.len() ==> (#[trigger] report[i]).1 >= (#[trigger] report[j]).1,
{
    let rs = all_recorded(calls);
    lemma_rows(calls);
    rs.to_multiset_ensures();
    report.to_multiset_ensures();
    assert(rs.no_duplicates());
    rs.lemma_multiset_has_no_duplicates();
    assert forall|x: (Seq<char>, u64, u64)| report.to_multiset().contains(x) implies report.to_multiset().count(x) == 1 by {
        assert(rs.to_multiset().contains(x));
    }
    report.lemma_multiset_has_no_duplicates_conv();
    assert forall|i: int| 0 <= i < report.len() implies (#[trigger] report[i]) == row_of(calls, report[i].0) && calls_for(
        calls,
        report[i].0,
    ) > 0 by {
        assert(report.contains(report[i]));
        assert(report.to_multiset().count(report[i]) > 0);
        assert(rs.contains(report[i]));
        let k = choose|k: int| 0 <= k < rs.len() && rs[k] == report[i];
        assert(rs[k] == row_of(calls, rs[k].0));
    }
    assert forall|label: Seq<char>| calls_for(calls, label) > 0 <==> #[trigger] report.contains(row_of(calls, label)) by {
        if calls_for(calls, label) > 0 {
            let i = choose|i: int| row_at(rs, label, i);
            assert(row_at(rs, label, i));
            assert(rs[i] == row_of(calls, label));
            assert(rs.contains(rs[i]));
            assert(rs.to_multiset().count(rs[i]) > 0);
        }
        if report.contains(row_of(calls, label)) {
            let i = choose|i: int| 0 <= i < report.len() && report[i] == row_of(calls, label);
            assert(report[i].0 == label);
        }
    }
    assert forall|i: int, j: int| 0 <= i < j < report.len() implies (#[trigger] report[i]).0 != (#[trigger] report[j]).0 by {
        assert(report[i] == row_of(calls, report[i].0) && report[j] == row_of(calls, report[j].0));
        assert(report[i] != report[j]);
    }
}

} // verus!
