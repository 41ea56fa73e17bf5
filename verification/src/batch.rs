//! Checking many mods in one run: which files are mods, how many workers check them, and
//! how the outcomes are told.

use vstd::prelude::*;
use vstd::string::*;
use crate::diagnostic::{badness, findings, of_severity, worst_of, CheckReport, Finding, ReasonCatalog, Severity};
use crate::sorting::{is_less, lemma_less_total, lemma_less_trans, sort_texts, text_less, texts_ascend};
use crate::text::{
    ends, ends_with, join, joined, lemma_take_next, lemma_texts_push, lowered, pieces, same, split, starts_with, texts, to_lower,
};

verus! {

/// The outcome of one mod.
#[derive(Debug)]
pub struct BatchEntry {
    pub path: String,
    pub report: Option<CheckReport>,
    pub error: Option<String>,
}

/// The worst finding of a mod; none where it could not be read.
pub open spec fn worst_in(e: BatchEntry) -> Option<Severity> {
    match e.report {
        Some(r) => worst_of(findings(r.diagnostics@)),
        None => None,
    }
}

impl BatchEntry {
    /// The worst finding of the mod.
    pub fn worst(&self) -> (r: Option<Severity>)
        ensures
            r == worst_in(*self),
    {
        match &self.report {
            Some(r) => r.worst(),
            None => None,
        }
    }
}

/// What one mod came to: its report, each finding once, or why it could not be read.
pub fn batch_entry(path: &str, outcome: Result<CheckReport, String>) -> (r: BatchEntry)
    ensures
        r.path@ == path@,
        outcome matches Ok(report) ==> r.error is None && r.report is Some && findings(r.report->0.diagnostics@)
            == crate::diagnostic::deduped(findings(report.diagnostics@)) && r.report->0.skipped == report.skipped
            && r.report->0.ran == report.ran && r.report->0.reasons == report.reasons,
        outcome matches Err(e) ==> r.report is None && r.error == Some(e),
{
    match outcome {
        Ok(report) => {
            let mut report = report;
            report.dedupe();
            BatchEntry { path: path.to_owned(), report: Some(report), error: None }
        },
        Err(e) => BatchEntry { path: path.to_owned(), report: None, error: Some(e) },
    }
}

/// A directory entry of this name is a mod.
pub open spec fn is_mod(name: Seq<char>, is_dir: bool) -> bool {
    let lower = lowered(name);
    ends(lower, ".fantome"@) || ends(lower, ".zip"@) || ends(lower, ".modpkg"@) || (is_dir && ends(lower, ".wad.client"@))
}

/// Whether a directory entry of this name is a mod.
pub fn is_mod_name(name: &str, is_dir: bool) -> (r: bool)
    ensures
        r == is_mod(name@, is_dir),
{
    let lower = to_lower(name);
    let l = lower.as_str();
    ends_with(l, ".fantome") || ends_with(l, ".zip") || ends_with(l, ".modpkg") || (is_dir && ends_with(l, ".wad.client"))
}

/// The mods of a directory, from the names of its entries: sorted, each once.
pub fn discover(names: &Vec<(String, bool)>) -> (r: Vec<String>)
    ensures
        texts_ascend(texts(r@)),
        forall|s: Seq<char>| #[trigger]
            texts(r@).contains(s) <==> exists|i: int|
                0 <= i < names@.len() && (#[trigger] names@[i]).0@ == s && is_mod(s, names@[i].1),
{
    let mut out: Vec<String> = Vec::new();
    let mut i: usize = 0;
    while i < names.len()
        invariant
            i <= names@.len(),
            forall|s: Seq<char>| #[trigger]
                texts(out@).contains(s) <==> exists|j: int|
                    0 <= j < i && (#[trigger] names@[j]).0@ == s && is_mod(s, names@[j].1),
        decreases names@.len() - i,
    {
        let ghost before = texts(out@);
        let ghost o = out@;
        let hit = is_mod_name(names[i].0.as_str(), names[i].1);
        if hit {
            let s = names[i].0.clone();
            out.push(s);
            proof {
                lemma_texts_push(o, s);
            }
        }
        proof {
            let x = names@[i as int].0@;
            assert forall|s: Seq<char>| #[trigger] texts(out@).contains(s) <==> exists|j: int|
                0 <= j < i + 1 && (#[trigger] names@[j]).0@ == s && is_mod(s, names@[j].1) by {
                if texts(out@).contains(s) {
                    let k = choose|k: int| 0 <= k < texts(out@).len() && texts(out@)[k] == s;
                    if k < before.len() {
                        assert(before[k] == s);
                        assert(before.contains(s));
                    } else {
                        assert(names@[i as int].0@ == s);
                    }
                }
                if exists|j: int| 0 <= j < i + 1 && (#[trigger] names@[j]).0@ == s && is_mod(s, names@[j].1) {
                    let j = choose|j: int| 0 <= j < i + 1 && (#[trigger] names@[j]).0@ == s && is_mod(s, names@[j].1);
                    if j < i {
                        assert(before.contains(s));
                        let k = choose|k: int| 0 <= k < before.len() && before[k] == s;
                        assert(texts(out@)[k] == s);
                    } else {
                        assert(texts(out@)[before.len() as int] == s);
                    }
                }
            }
        }
        i = i + 1;
    }
    let r = sort_texts(out);
    proof {
        assert forall|s: Seq<char>| #[trigger] texts(r@).contains(s) <==> exists|i: int|
            0 <= i < names@.len() && (#[trigger] names@[i]).0@ == s && is_mod(s, names@[i].1) by {
            assert(texts(r@).contains(s) <==> texts(out@).contains(s));
        }
    }
    r
}

/// How many workers check the mods: as many as asked for, or one per core (four, where
/// that is not known), but no more than there are mods.
pub fn worker_count(requested: usize, cores: Option<usize>, mods: usize) -> (r: usize)
    ensures
        ({
            let wanted = if requested == 0 {
                match cores {
                    Some(n) => n as int,
                    None => 4,
                }
            } else {
                requested as int
            };
            let cap = if mods == 0 { 1 } else { mods as int };
            r == (if wanted < cap { wanted } else { cap })
        }),
{
    let wanted: usize = if requested == 0 {
        match cores {
            Some(n) => n,
            None => 4,
        }
    } else {
        requested
    };
    let cap: usize = if mods == 0 { 1 } else { mods };
    if wanted < cap {
        wanted
    } else {
        cap
    }
}

/// How urgent an outcome is: what could not be read first, then the worst.
pub open spec fn rank_of(e: BatchEntry) -> int {
    if e.error is Some {
        0
    } else {
        match worst_in(e) {
            Some(Severity::Crash) => 1,
            Some(Severity::Unplayable) => 2,
            Some(Severity::Warning) => 3,
            _ => 4,
        }
    }
}

/// How urgent an outcome is.
pub fn rank(e: &BatchEntry) -> (r: u8)
    ensures
        r as int == rank_of(*e),
{
    if e.error.is_some() {
        return 0;
    }
    match e.worst() {
        Some(Severity::Crash) => 1,
        Some(Severity::Unplayable) => 2,
        Some(Severity::Warning) => 3,
        _ => 4,
    }
}

/// The components of a path below its root, each with its kind: where the path is (only at
/// its start), the folder above, a name. Components of a lower kind come first.
pub open spec fn named_components(parts: Seq<Seq<char>>) -> Seq<(u8, Seq<char>)>
    decreases parts.len(),
{
    if parts.len() == 0 {
        Seq::empty()
    } else {
        let before = named_components(parts.drop_last());
        let p = parts.last();
        if p.len() == 0 {
            before
        } else if p == "."@ {
            if parts.len() == 1 { before.push((1u8, p)) } else { before }
        } else if p == ".."@ {
            before.push((2u8, p))
        } else {
            before.push((3u8, p))
        }
    }
}

/// The components of a path: its root, where it has one, and what is below.
pub open spec fn path_components(path: Seq<char>) -> Seq<(u8, Seq<char>)> {
    let below = named_components(pieces(path, '/'));
    if path.len() > 0 && path[0] == '/' {
        seq![(0u8, Seq::empty())] + below
    } else {
        below
    }
}

/// One component stands before another.
pub open spec fn component_less(a: (u8, Seq<char>), b: (u8, Seq<char>)) -> bool {
    a.0 < b.0 || (a.0 == b.0 && text_less(a.1, b.1))
}

/// `a` stands before `b`, compared component by component.
pub open spec fn components_less(a: Seq<(u8, Seq<char>)>, b: Seq<(u8, Seq<char>)>) -> bool
    decreases a.len(),
{
    if b.len() == 0 {
        false
    } else if a.len() == 0 {
        true
    } else if a[0] == b[0] {
        components_less(a.skip(1), b.skip(1))
    } else {
        component_less(a[0], b[0])
    }
}

/// One path stands before another.
pub open spec fn path_less(a: Seq<char>, b: Seq<char>) -> bool {
    components_less(path_components(a), path_components(b))
}

proof fn lemma_components_total(a: Seq<(u8, Seq<char>)>, b: Seq<(u8, Seq<char>)>)
    ensures
        components_less(a, b) || a == b || components_less(b, a),
        !(components_less(a, b) && components_less(b, a)),
        !components_less(a, a),
    decreases a.len(),
{
    if a.len() > 0 {
        lemma_components_total(a.skip(1), a.skip(1));
    }
    if a.len() > 0 && b.len() > 0 {
        lemma_components_total(a.skip(1), b.skip(1));
        lemma_less_total(a[0].1, b[0].1);
        if a[0] == b[0] && a.skip(1) == b.skip(1) {
            assert(a =~= seq![a[0]] + a.skip(1));
            assert(b =~= seq![b[0]] + b.skip(1));
        }
    } else if a.len() == 0 && b.len() == 0 {
        assert(a =~= b);
    }
}

proof fn lemma_components_trans(a: Seq<(u8, Seq<char>)>, b: Seq<(u8, Seq<char>)>, c: Seq<(u8, Seq<char>)>)
    requires
        components_less(a, b),
        components_less(b, c),
    ensures
        components_less(a, c),
    decreases a.len(),
{
    if a.len() > 0 && b.len() > 0 && c.len() > 0 {
        if a[0] == b[0] && b[0] == c[0] {
            lemma_components_trans(a.skip(1), b.skip(1), c.skip(1));
        } else {
            lemma_less_total(a[0].1, b[0].1);
            lemma_less_total(b[0].1, c[0].1);
            lemma_less_total(a[0].1, c[0].1);
            if text_less(a[0].1, b[0].1) && text_less(b[0].1, c[0].1) {
                lemma_less_trans(a[0].1, b[0].1, c[0].1);
            }
        }
    }
}

/// What a list of components is.
pub open spec fn component_list(v: Seq<(u8, String)>) -> Seq<(u8, Seq<char>)> {
    v.map_values(|c: (u8, String)| (c.0, c.1@))
}

fn list_components(path: &str) -> (r: Vec<(u8, String)>)
    ensures
        component_list(r@) == path_components(path@),
{
    let parts = split(path, '/');
    let ghost all = texts(parts@);
    let mut out: Vec<(u8, String)> = Vec::new();
    let rooted = starts_with(path, "/");
    proof {
        reveal_strlit("/");
        assert(rooted == (path@.len() > 0 && path@[0] == '/')) by {
            if path@.len() > 0 {
                assert(path@.subrange(0, 1) =~= seq![path@[0]]);
                assert("/"@ =~= seq!['/']);
                if path@.subrange(0, 1) == "/"@ {
                    assert(path@.subrange(0, 1)[0] == '/');
                }
            }
        }
    }
    let ghost root: Seq<(u8, Seq<char>)> = if rooted { seq![(0u8, Seq::empty())] } else { Seq::empty() };
    if rooted {
        out.push((0, String::new()));
    }
    assert(component_list(out@) =~= root + named_components(all.take(0)));
    let mut i: usize = 0;
    while i < parts.len()
        invariant
            all == texts(parts@),
            i <= parts@.len(),
            component_list(out@) == root + named_components(all.take(i as int)),
        decreases parts@.len() - i,
    {
        proof {
            lemma_take_next(all, i as int);
        }
        let p = parts[i].as_str();
        let ghost before = named_components(all.take(i as int));
        assert(p@ == all[i as int]);
        let kind: u8 = if p.is_empty() {
            0
        } else if same(p, ".") {
            if i == 0 { 1 } else { 0 }
        } else if same(p, "..") {
            2
        } else {
            3
        };
        if kind > 0 {
            let ghost o = component_list(out@);
            out.push((kind, p.to_owned()));
            assert(component_list(out@) =~= o.push((kind, p@)));
            assert(o.push((kind, p@)) =~= root + before.push((kind, p@)));
        }
        i = i + 1;
    }
    assert(all.take(i as int) =~= all);
    assert(component_list(out@) =~= path_components(path@));
    out
}

/// Whether one path stands before another, compared component by component.
pub fn is_path_less(a: &str, b: &str) -> (r: bool)
    ensures
        r == path_less(a@, b@),
{
    let x = list_components(a);
    let y = list_components(b);
    let ghost p = component_list(x@);
    let ghost q = component_list(y@);
    let mut i: usize = 0;
    assert(p.skip(0) =~= p);
    assert(q.skip(0) =~= q);
    while i < x.len() && i < y.len()
        invariant
            p == component_list(x@),
            q == component_list(y@),
            p == path_components(a@),
            q == path_components(b@),
            i <= x@.len(),
            i <= y@.len(),
            components_less(p, q) == components_less(p.skip(i as int), q.skip(i as int)),
        decreases x@.len() - i,
    {
        assert(p.skip(i as int)[0] == (x@[i as int].0, x@[i as int].1@));
        assert(q.skip(i as int)[0] == (y@[i as int].0, y@[i as int].1@));
        assert(p.skip(i as int).skip(1) =~= p.skip(i + 1));
        assert(q.skip(i as int).skip(1) =~= q.skip(i + 1));
        if x[i].0 != y[i].0 {
            return x[i].0 < y[i].0;
        }
        if !same(x[i].1.as_str(), y[i].1.as_str()) {
            return is_less(x[i].1.as_str(), y[i].1.as_str());
        }
        i = i + 1;
    }
    i < y.len()
}

/// One outcome is told before another: it is more urgent, or as urgent and its path comes
/// first.
pub open spec fn told_before(a: BatchEntry, b: BatchEntry) -> bool {
    rank_of(a) < rank_of(b) || (rank_of(a) == rank_of(b) && path_less(a.path@, b.path@))
}

fn is_told_before(a: &BatchEntry, b: &BatchEntry) -> (r: bool)
    ensures
        r == told_before(*a, *b),
{
    let x = rank(a);
    let y = rank(b);
    x < y || (x == y && is_path_less(a.path.as_str(), b.path.as_str()))
}

/// The outcomes at `order` are told in order: none should come before one that precedes
/// it, and of two that are alike the earlier comes first.
pub open spec fn in_order(es: Seq<BatchEntry>, order: Seq<usize>) -> bool {
    forall|i: int, j: int|
        0 <= i < j < order.len() ==> follows(es, #[trigger] order[i], #[trigger] order[j])
}

/// The outcome at `b` may be told behind that at `a`.
pub open spec fn follows(es: Seq<BatchEntry>, a: usize, b: usize) -> bool {
    told_before(es[a as int], es[b as int]) || (!told_before(es[b as int], es[a as int]) && a < b)
}

/// Every place below `n` stands in `order`, and none twice.
pub open spec fn covers(order: Seq<usize>, n: int) -> bool {
    &&& order.len() == n
    &&& order.no_duplicates()
    &&& forall|i: int| 0 <= i < order.len() ==> #[trigger] order[i] < n
}

proof fn lemma_told_before_is_transitive(a: BatchEntry, b: BatchEntry, c: BatchEntry)
    requires
        !told_before(b, a),
        !told_before(c, b),
    ensures
        !told_before(c, a),
{
    let x = path_components(a.path@);
    let y = path_components(b.path@);
    let z = path_components(c.path@);
    lemma_components_total(x, y);
    lemma_components_total(y, z);
    lemma_components_total(x, z);
    if components_less(x, y) && components_less(y, z) {
        lemma_components_trans(x, y, z);
    }
}

/// In which order the outcomes are told: the most urgent first, then by path.
pub fn order_entries(es: &Vec<BatchEntry>) -> (r: Vec<usize>)
    ensures
        covers(r@, es@.len() as int),
        in_order(es@, r@),
{
    let mut out: Vec<usize> = Vec::new();
    let mut i: usize = 0;
    while i < es.len()
        invariant
            i <= es@.len(),
            covers(out@, i as int),
            in_order(es@, out@),
        decreases es@.len() - i,
    {
        let ghost before = out@;
        let mut k: usize = out.len();
        while k > 0 && is_told_before(&es[i], &es[out[k - 1]])
            invariant
                i < es@.len(),
                out@ == before,
                covers(before, i as int),
                k <= out@.len(),
                forall|j: int| k <= j < before.len() ==> told_before(es@[i as int], es@[#[trigger] before[j] as int]),
            decreases k,
        {
            k = k - 1;
        }
        out.insert(k, i);
        proof {
            let now = out@;
            assert(now =~= before.insert(k as int, i));
            assert forall|a: int, b: int| 0 <= a < b < now.len() implies follows(es@, #[trigger] now[a], #[trigger] now[b]) by {
                let x = es@[i as int];
                if a == k {
                    assert(now[b] == before[b - 1]);
                    let y = es@[before[b - 1] as int];
                    assert(told_before(x, y));
                } else if b == k {
                    assert(now[a] == before[a]);
                    let y = es@[before[a] as int];
                    let last = es@[before[k - 1] as int];
                    assert(!told_before(x, last));
                    assert(before[a] < i);
                    if a < k - 1 {
                        assert(follows(es@, before[a], before[k - 1]));
                        if told_before(y, last) {
                            lemma_told_before_asymmetric(y, last);
                        }
                        lemma_told_before_is_transitive(y, last, x);
                    }
                } else {
                    let a0 = if a < k { a } else { a - 1 };
                    let b0 = if b < k { b } else { b - 1 };
                    assert(now[a] == before[a0]);
                    assert(now[b] == before[b0]);
                }
            }
            assert(now.no_duplicates()) by {
                assert forall|a: int, b: int| 0 <= a < now.len() && 0 <= b < now.len() && a != b implies now[a] != now[b] by {
                    if a != k && b != k {
                        let a0 = if a < k { a } else { a - 1 };
                        let b0 = if b < k { b } else { b - 1 };
                        assert(now[a] == before[a0]);
                        assert(now[b] == before[b0]);
                    } else if a == k {
                        let b0 = if b < k { b } else { b - 1 };
                        assert(now[b] == before[b0]);
                        assert(before[b0] < i);
                    } else {
                        let a0 = if a < k { a } else { a - 1 };
                        assert(now[a] == before[a0]);
                        assert(before[a0] < i);
                    }
                }
            }
            assert forall|a: int| 0 <= a < now.len() implies #[trigger] now[a] < i + 1 by {
                if a != k {
                    let a0 = if a < k { a } else { a - 1 };
                    assert(now[a] == before[a0]);
                    assert(before[a0] < i);
                }
            }
        }
        i = i + 1;
    }
    out
}

proof fn lemma_told_before_asymmetric(a: BatchEntry, b: BatchEntry)
    requires
        told_before(a, b),
    ensures
        !told_before(b, a),
{
    lemma_components_total(path_components(a.path@), path_components(b.path@));
}

/// How many mods came out how.
#[derive(Clone, Copy, Debug, PartialEq, Eq, Structural)]
pub struct BatchTally {
    pub crashing: usize,
    pub unplayable: usize,
    pub clean: usize,
    pub unreadable: usize,
}

/// The tally of some outcomes. A mod that could not be read is not clean.
pub open spec fn tally_of(es: Seq<BatchEntry>) -> (nat, nat, nat, nat)
    decreases es.len(),
{
    if es.len() == 0 {
        (0, 0, 0, 0)
    } else {
        let t = tally_of(es.drop_last());
        let e = es.last();
        (
            t.0 + (if worst_in(e) == Some(Severity::Crash) { 1nat } else { 0nat }),
            t.1 + (if worst_in(e) == Some(Severity::Unplayable) { 1nat } else { 0nat }),
            t.2 + (if e.error is None && worst_in(e) is None { 1nat } else { 0nat }),
            t.3 + (if e.error is Some { 1nat } else { 0nat }),
        )
    }
}

/// Count how the mods came out.
pub fn tally(es: &Vec<BatchEntry>) -> (r: BatchTally)
    ensures
        tally_of(es@) == (r.crashing as nat, r.unplayable as nat, r.clean as nat, r.unreadable as nat),
{
    let mut t = BatchTally { crashing: 0, unplayable: 0, clean: 0, unreadable: 0 };
    let mut i: usize = 0;
    assert(tally_of(es@.take(0)) == (0nat, 0nat, 0nat, 0nat));
    while i < es.len()
        invariant
            i <= es@.len(),
            t.crashing <= i,
            t.unplayable <= i,
            t.clean <= i,
            t.unreadable <= i,
            tally_of(es@.take(i as int)) == (
                t.crashing as nat,
                t.unplayable as nat,
                t.clean as nat,
                t.unreadable as nat,
            ),
        decreases es@.len() - i,
    {
        proof {
            lemma_take_next(es@, i as int);
        }
        let e = &es[i];
        let failed = e.error.is_some();
        match e.worst() {
            Some(Severity::Crash) => {
                t.crashing = t.crashing + 1;
            },
            Some(Severity::Unplayable) => {
                t.unplayable = t.unplayable + 1;
            },
            None => {
                if !failed {
                    t.clean = t.clean + 1;
                }
            },
            _ => {},
        }
        if failed {
            t.unreadable = t.unreadable + 1;
        }
        i = i + 1;
    }
    assert(es@.take(i as int) =~= es@);
    t
}

/// The titles of findings, in order.
pub open spec fn titles(fs: Seq<Finding>, reasons: ReasonCatalog) -> Seq<Seq<char>> {
    fs.map_values(|f: Finding| reasons.title_of(f.reason))
}

/// `s` is what is told of a mod: the titles of its worst findings, sorted, each once.
pub open spec fn summary_is(e: BatchEntry, s: Seq<char>) -> bool {
    match (e.report, worst_in(e)) {
        (Some(r), Some(worst)) => exists|list: Seq<Seq<char>>|
            {
                &&& #[trigger] texts_ascend(list)
                &&& forall|t: Seq<char>|
                    list.contains(t) <==> titles(of_severity(findings(r.diagnostics@), worst), r.reasons).contains(t)
                &&& s == joined(list, ", "@)
            },
        _ => s.len() == 0,
    }
}

/// The titles of the worst findings of a mod in one line: what is actually wrong with it.
pub fn summarise(e: &BatchEntry) -> (r: String)
    ensures
        summary_is(*e, r@),
{
    let report = match &e.report {
        Some(r) => r,
        None => {
            return String::new();
        },
    };
    let worst = match report.worst() {
        Some(w) => w,
        None => {
            return String::new();
        },
    };
    let list = report.at(worst);
    let ghost fs = findings(list@);
    let mut names: Vec<String> = Vec::new();
    let mut i: usize = 0;
    while i < list.len()
        invariant
            fs == findings(list@),
            i <= list@.len(),
            names@.len() == i,
            forall|j: int| 0 <= j < i ==> (#[trigger] names@[j])@ == titles(fs, report.reasons)[j],
        decreases list@.len() - i,
    {
        let t = report.reasons.title(list[i].reason.as_str());
        assert(fs[i as int] == list@[i as int]@);
        names.push(t);
        i = i + 1;
    }
    assert(texts(names@) =~= titles(fs, report.reasons));
    let sorted = sort_texts(names);
    let s = join(&sorted, ", ");
    assert(texts_ascend(texts(sorted@)));
    s
}

/// A mod that could not be read is never counted as clean.
pub proof fn law_unreadable_is_not_clean(es: Seq<BatchEntry>)
    ensures
        tally_of(es).2 + tally_of(es).3 <= es.len(),
    decreases es.len(),
{
    if es.len() > 0 {
        law_unreadable_is_not_clean(es.drop_last());
    }
}

/// A mod that cannot be read comes first, then those that crash, are unplayable, have
/// warnings, and the rest; among equals the paths decide.
pub proof fn law_worst_mods_come_first(a: BatchEntry, b: BatchEntry)
    ensures
        a.error is Some && b.error is None ==> told_before(a, b) && !told_before(b, a),
        a.error is None && b.error is None && worst_in(a) is Some && worst_in(b) is None && worst_in(a) != Some(Severity::Info)
            ==> told_before(a, b),
        a.error is None && b.error is None && worst_in(a) is Some && worst_in(b) is Some && badness(worst_in(a)->0) < badness(
            worst_in(b)->0,
        ) && worst_in(b) != Some(Severity::Info) ==> told_before(a, b) && !told_before(b, a),
        a.error is None && b.error is None && worst_in(a) == Some(Severity::Crash) && worst_in(b) == Some(Severity::Info)
            ==> told_before(a, b),
        worst_in(a) == worst_in(b) && (a.error is Some <==> b.error is Some) ==> (told_before(a, b) <==> path_less(a.path@, b.path@)),
{
}

/// The tally of two lists is the sum of their tallies, and a single mod is counted by its
/// worst finding: as clean only where it could be read and nothing was found.
pub proof fn law_tally_counts_each_mod(a: Seq<BatchEntry>, b: Seq<BatchEntry>, e: BatchEntry)
    ensures
        tally_of(a + b) == (
            tally_of(a).0 + tally_of(b).0,
            tally_of(a).1 + tally_of(b).1,
            tally_of(a).2 + tally_of(b).2,
            tally_of(a).3 + tally_of(b).3,
        ),
        worst_in(e) == Some(Severity::Crash) ==> tally_of(seq![e]).0 == 1,
        worst_in(e) == Some(Severity::Unplayable) ==> tally_of(seq![e]).1 == 1,
        tally_of(seq![e]).2 == 1 <==> e.error is None && worst_in(e) is None,
        tally_of(seq![e]).3 == 1 <==> e.error is Some,
    decreases b.len(),
{
    assert(seq![e].drop_last() =~= Seq::<BatchEntry>::empty());
    assert(seq![e].last() == e);
    reveal_with_fuel(tally_of, 2);
    if b.len() > 0 {
        law_tally_counts_each_mod(a, b.drop_last(), e);
        assert((a + b).drop_last() =~= a + b.drop_last());
        assert((a + b).last() == b.last());
    } else {
        assert(a + b =~= a);
    }
}

proof fn lemma_order_whole(xs: Seq<(u8, Seq<char>)>)
    ensures
        !components_less(xs, xs),
    decreases xs.len(),
{
    if xs.len() > 0 {
        lemma_order_whole(xs.skip(1));
    }
}

/// No path comes before itself, and a folder comes before what lies in it.
pub proof fn law_folders_come_before_their_contents(a: Seq<(u8, Seq<char>)>, more: Seq<(u8, Seq<char>)>)
    ensures
        !components_less(a, a),
        more.len() > 0 ==> components_less(a, a + more) && !components_less(a + more, a),
    decreases a.len(),
{
    lemma_order_whole(a);
    if a.len() > 0 {
        law_folders_come_before_their_contents(a.skip(1), more);
        assert((a + more).skip(1) =~= a.skip(1) + more);
    }
}

} // verus!
