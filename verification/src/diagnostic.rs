//! Findings about a mod, and the report that collects them.

use vstd::prelude::*;
use vstd::string::*;
use crate::text::{lemma_push_contains, same, texts};

verus! {

/// How bad a finding is, the worst first.
#[derive(Clone, Copy, Debug, PartialEq, Eq, Structural)]
pub enum Severity {
    Crash,
    Unplayable,
    Warning,
    Info,
}

/// What a reason id means to a player.
#[derive(Debug)]
pub struct ReasonDef {
    pub severity: Severity,
    pub title: String,
    pub explain: String,
    pub remedy: Option<String>,
    pub author: Option<String>,
}

/// What a reason's definition says.
#[verifier::ext_equal]
pub struct Reason {
    pub severity: Severity,
    pub title: Seq<char>,
    pub explain: Seq<char>,
    pub remedy: Option<Seq<char>>,
    pub author: Option<Seq<char>>,
}

impl View for ReasonDef {
    type V = Reason;

    open spec fn view(&self) -> Reason {
        Reason {
            severity: self.severity,
            title: self.title@,
            explain: self.explain@,
            remedy: opt_text(self.remedy),
            author: opt_text(self.author),
        }
    }
}

/// The known reasons by id. No id occurs twice.
#[derive(Debug)]
pub struct ReasonCatalog {
    pub reasons: Vec<(String, ReasonDef)>,
}

/// Why a check could not run.
#[derive(Clone, Copy, Debug, PartialEq, Eq, Structural)]
pub enum SkipReason {
    NoShaderList,
    NoGameDir,
    NoHashDictionary,
}

/// One finding.
#[derive(Debug)]
pub struct Diagnostic {
    pub reason: String,
    pub severity: Severity,
    pub fix_id: String,
    pub entry: Option<String>,
    pub field: Option<String>,
    pub detail: Option<String>,
}

/// What a finding is.
#[verifier::ext_equal]
pub struct Finding {
    pub reason: Seq<char>,
    pub severity: Severity,
    pub fix_id: Seq<char>,
    pub entry: Option<Seq<char>>,
    pub field: Option<Seq<char>>,
    pub detail: Option<Seq<char>>,
}

/// The contents of an optional string.
pub open spec fn opt_text(o: Option<String>) -> Option<Seq<char>> {
    match o {
        Some(s) => Some(s@),
        None => None,
    }
}

/// A copy of an optional string.
pub fn copy_opt(o: &Option<String>) -> (r: Option<String>)
    ensures
        opt_text(r) == opt_text(*o),
{
    match o {
        Some(s) => Some(s.clone()),
        None => None,
    }
}

impl View for Diagnostic {
    type V = Finding;

    open spec fn view(&self) -> Finding {
        Finding {
            reason: self.reason@,
            severity: self.severity,
            fix_id: self.fix_id@,
            entry: opt_text(self.entry),
            field: opt_text(self.field),
            detail: opt_text(self.detail),
        }
    }
}

/// The contents of a list of findings.
pub open spec fn findings(v: Seq<Diagnostic>) -> Seq<Finding> {
    v.map_values(|d: Diagnostic| d@)
}

/// `i` is where `id` stands in the catalog.
pub open spec fn reason_at(reasons: Seq<(String, ReasonDef)>, id: Seq<char>, i: int) -> bool {
    0 <= i < reasons.len() && reasons[i].0@ == id && forall|j: int| 0 <= j < i ==> (#[trigger] reasons[j]).0@ != id
}

impl ReasonCatalog {
    /// The catalog defines `id`.
    pub open spec fn defines(&self, id: Seq<char>) -> bool {
        exists|i: int| reason_at(self.reasons@, id, i)
    }

    /// The severity of a reason; an unknown one counts as a warning.
    pub open spec fn severity_of(&self, id: Seq<char>) -> Severity {
        if self.defines(id) {
            self.reasons@[choose|i: int| reason_at(self.reasons@, id, i)].1.severity
        } else {
            Severity::Warning
        }
    }

    /// The definition of `id`.
    pub fn get(&self, id: &str) -> (r: Option<&ReasonDef>)
        ensures
            r is Some <==> self.defines(id@),
            r matches Some(d) ==> self.severity_of(id@) == d.severity
                && exists|i: int| reason_at(self.reasons@, id@, i) && *d == (#[trigger] self.reasons@[i]).1,
    {
        let mut i: usize = 0;
        while i < self.reasons.len()
            invariant
                i <= self.reasons@.len(),
                forall|j: int| 0 <= j < i ==> (#[trigger] self.reasons@[j]).0@ != id@,
            decreases self.reasons@.len() - i,
        {
            if same(self.reasons[i].0.as_str(), id) {
                assert(reason_at(self.reasons@, id@, i as int));
                let ghost k = choose|k: int| reason_at(self.reasons@, id@, k);
                assert(reason_at(self.reasons@, id@, k));
                assert(k == i) by {
                    if k < i {
                        assert(self.reasons@[k].0@ != id@);
                    }
                    if k > i {
                        assert(self.reasons@[i as int].0@ != id@);
                    }
                }
                return Some(&self.reasons[i].1);
            }
            i = i + 1;
        }
        assert(forall|k: int| !reason_at(self.reasons@, id@, k));
        None
    }

    /// Those of `ids` that the catalog does not define, in order.
    pub fn unknown_ids(&self, ids: &Vec<String>) -> (r: Vec<String>)
        ensures
            texts(r@) == undefined_ids(*self, texts(ids@)),
    {
        let ghost all = texts(ids@);
        let mut out: Vec<String> = Vec::new();
        let mut i: usize = 0;
        assert(texts(out@) =~= undefined_ids(*self, all.take(0)));
        while i < ids.len()
            invariant
                all == texts(ids@),
                i <= ids@.len(),
                texts(out@) == undefined_ids(*self, all.take(i as int)),
            decreases ids@.len() - i,
        {
            proof {
                crate::text::lemma_take_next(all, i as int);
            }
            if self.get(ids[i].as_str()).is_none() && !crate::text::is_listed(&out, ids[i].as_str()) {
                proof {
                    crate::text::lemma_listed(out@, ids@[i as int]@);
                }
                let ghost before = out@;
                out.push(ids[i].clone());
                assert(texts(out@) =~= texts(before).push(ids@[i as int]@));
            } else {
                proof {
                    crate::text::lemma_listed(out@, ids@[i as int]@);
                }
            }
            i = i + 1;
        }
        assert(all.take(i as int) =~= all);
        out
    }
}

impl View for ReasonCatalog {
    type V = Seq<(Seq<char>, Reason)>;

    open spec fn view(&self) -> Seq<(Seq<char>, Reason)> {
        self.reasons@.map_values(|e: (String, ReasonDef)| (e.0@, e.1@))
    }
}

impl ReasonCatalog {
    /// A copy of the catalog.
    pub fn copy(&self) -> (r: ReasonCatalog)
        ensures
            r@ == self@,
    {
        let mut out: Vec<(String, ReasonDef)> = Vec::new();
        let mut i: usize = 0;
        while i < self.reasons.len()
            invariant
                i <= self.reasons@.len(),
                out@.len() == i,
                forall|j: int| 0 <= j < i ==> (#[trigger] out@[j]).0@ == self.reasons@[j].0@ && out@[j].1@
                    == self.reasons@[j].1@,
            decreases self.reasons@.len() - i,
        {
            let d = &self.reasons[i].1;
            out.push(
                (
                    self.reasons[i].0.clone(),
                    ReasonDef {
                        severity: d.severity,
                        title: d.title.clone(),
                        explain: d.explain.clone(),
                        remedy: copy_opt(&d.remedy),
                        author: copy_opt(&d.author),
                    },
                ),
            );
            i = i + 1;
        }
        let r = ReasonCatalog { reasons: out };
        assert(r@ =~= self@);
        r
    }

    /// The title of a reason; an unknown one is called by its id.
    pub open spec fn title_of(&self, id: Seq<char>) -> Seq<char> {
        if self.defines(id) {
            self.reasons@[choose|i: int| reason_at(self.reasons@, id, i)].1.title@
        } else {
            id
        }
    }

    /// The title under which a reason is shown.
    pub fn title(&self, id: &str) -> (r: String)
        ensures
            r@ == self.title_of(id@),
    {
        match self.get(id) {
            Some(d) => {
                proof {
                    let i = choose|i: int| reason_at(self.reasons@, id@, i) && *d == (#[trigger] self.reasons@[i]).1;
                    let k = choose|k: int| reason_at(self.reasons@, id@, k);
                    assert(i == k) by {
                        if k < i {
                            assert(self.reasons@[k].0@ != id@);
                        }
                        if i < k {
                            assert(self.reasons@[i].0@ != id@);
                        }
                    }
                }
                d.title.clone()
            },
            None => id.to_owned(),
        }
    }
}

/// Those of `ids` that the catalog does not define, each once, in order.
pub open spec fn undefined_ids(catalog: ReasonCatalog, ids: Seq<Seq<char>>) -> Seq<Seq<char>>
    decreases ids.len(),
{
    if ids.len() == 0 {
        Seq::empty()
    } else {
        let before = undefined_ids(catalog, ids.drop_last());
        if catalog.defines(ids.last()) || before.contains(ids.last()) {
            before
        } else {
            before.push(ids.last())
        }
    }
}

/// A finding with the severity that the catalog gives its reason.
pub open spec fn finding(catalog: ReasonCatalog, reason: Seq<char>, fix_id: Seq<char>) -> Finding {
    Finding { reason, severity: catalog.severity_of(reason), fix_id, entry: None, field: None, detail: None }
}

impl Diagnostic {
    /// A finding with the severity that the catalog gives its reason.
    pub fn new(catalog: &ReasonCatalog, reason: &str, fix_id: &str) -> (r: Diagnostic)
        ensures
            r@ == finding(*catalog, reason@, fix_id@),
    {
        let severity = match catalog.get(reason) {
            Some(d) => d.severity,
            None => Severity::Warning,
        };
        Diagnostic {
            reason: reason.to_owned(),
            severity,
            fix_id: fix_id.to_owned(),
            entry: None,
            field: None,
            detail: None,
        }
    }

    /// A finding with a given severity.
    pub fn with_resolved_severity(reason: &str, severity: Severity, fix_id: &str) -> (r: Diagnostic)
        ensures
            r@ == (Finding { reason: reason@, severity, fix_id: fix_id@, entry: None, field: None, detail: None }),
    {
        Diagnostic {
            reason: reason.to_owned(),
            severity,
            fix_id: fix_id.to_owned(),
            entry: None,
            field: None,
            detail: None,
        }
    }

    /// The finding, with the file it was made in.
    pub fn with_entry(self, entry: &str) -> (r: Diagnostic)
        ensures
            r@ == (Finding { entry: Some(entry@), ..self@ }),
    {
        let mut d = self;
        d.entry = Some(entry.to_owned());
        d
    }

    /// The finding, with the field that it is about.
    pub fn with_field(self, field: &str) -> (r: Diagnostic)
        ensures
            r@ == (Finding { field: Some(field@), ..self@ }),
    {
        let mut d = self;
        d.field = Some(field.to_owned());
        d
    }

    /// The finding, with a detail.
    pub fn with_detail(self, detail: &str) -> (r: Diagnostic)
        ensures
            r@ == (Finding { detail: Some(detail@), ..self@ }),
    {
        let mut d = self;
        d.detail = Some(detail.to_owned());
        d
    }

    /// A copy of the finding.
    pub fn copy(&self) -> (r: Diagnostic)
        ensures
            r@ == self@,
    {
        Diagnostic {
            reason: self.reason.clone(),
            severity: self.severity,
            fix_id: self.fix_id.clone(),
            entry: copy_opt(&self.entry),
            field: copy_opt(&self.field),
            detail: copy_opt(&self.detail),
        }
    }
}

/// What is known about a mod: its findings, and which checks ran or could not.
#[derive(Debug)]
pub struct CheckReport {
    pub diagnostics: Vec<Diagnostic>,
    pub skipped: Vec<(String, SkipReason)>,
    pub ran: Vec<String>,
    /// What the reasons mean, so a reader of the report needs no other source.
    pub reasons: ReasonCatalog,
}

/// The contents of a list of skipped checks.
pub open spec fn skips(v: Seq<(String, SkipReason)>) -> Seq<(Seq<char>, SkipReason)> {
    v.map_values(|e: (String, SkipReason)| (e.0@, e.1))
}

/// A finding of this severity is among `fs`.
pub open spec fn has_severity(fs: Seq<Finding>, s: Severity) -> bool {
    exists|i: int| 0 <= i < fs.len() && (#[trigger] fs[i]).severity == s
}

/// The findings of one severity, in order.
pub open spec fn of_severity(fs: Seq<Finding>, s: Severity) -> Seq<Finding>
    decreases fs.len(),
{
    if fs.len() == 0 {
        Seq::empty()
    } else {
        let before = of_severity(fs.drop_last(), s);
        if fs.last().severity == s {
            before.push(fs.last())
        } else {
            before
        }
    }
}

/// The worst severity among findings.
pub open spec fn worst_of(fs: Seq<Finding>) -> Option<Severity> {
    if has_severity(fs, Severity::Crash) {
        Some(Severity::Crash)
    } else if has_severity(fs, Severity::Unplayable) {
        Some(Severity::Unplayable)
    } else if has_severity(fs, Severity::Warning) {
        Some(Severity::Warning)
    } else if has_severity(fs, Severity::Info) {
        Some(Severity::Info)
    } else {
        None
    }
}

/// The findings, each once, in order of first occurrence.
pub open spec fn deduped(fs: Seq<Finding>) -> Seq<Finding>
    decreases fs.len(),
{
    if fs.len() == 0 {
        Seq::empty()
    } else {
        let before = deduped(fs.drop_last());
        if before.contains(fs.last()) {
            before
        } else {
            before.push(fs.last())
        }
    }
}

fn same_opt(a: &Option<String>, b: &Option<String>) -> (r: bool)
    ensures
        r == (opt_text(*a) == opt_text(*b)),
{
    match (a, b) {
        (Some(x), Some(y)) => same(x.as_str(), y.as_str()),
        (None, None) => true,
        _ => false,
    }
}

impl CheckReport {
    /// An empty report.
    pub fn new() -> (r: CheckReport)
        ensures
            r.diagnostics@.len() == 0,
            r.skipped@.len() == 0,
            r.ran@.len() == 0,
            r.reasons.reasons@.len() == 0,
    {
        CheckReport {
            diagnostics: Vec::new(),
            skipped: Vec::new(),
            ran: Vec::new(),
            reasons: ReasonCatalog { reasons: Vec::new() },
        }
    }

    /// Add a finding.
    pub fn push(&mut self, d: Diagnostic)
        ensures
            findings(final(self).diagnostics@) == findings(old(self).diagnostics@).push(d@),
            final(self).skipped == old(self).skipped,
            final(self).ran == old(self).ran,
            final(self).reasons == old(self).reasons,
    {
        let ghost before = self.diagnostics@;
        self.diagnostics.push(d);
        assert(findings(self.diagnostics@) =~= findings(before).push(d@));
    }

    /// Note that a check could not run.
    pub fn mark_skipped(&mut self, id: &str, why: SkipReason)
        ensures
            skips(final(self).skipped@) == skips(old(self).skipped@).push((id@, why)),
            final(self).diagnostics == old(self).diagnostics,
            final(self).ran == old(self).ran,
            final(self).reasons == old(self).reasons,
    {
        let ghost before = self.skipped@;
        self.skipped.push((id.to_owned(), why));
        assert(skips(self.skipped@) =~= skips(before).push((id@, why)));
    }

    /// Note that a check ran.
    pub fn mark_ran(&mut self, id: &str)
        ensures
            texts(final(self).ran@) == texts(old(self).ran@).push(id@),
            final(self).diagnostics == old(self).diagnostics,
            final(self).skipped == old(self).skipped,
            final(self).reasons == old(self).reasons,
    {
        let ghost before = self.ran@;
        self.ran.push(id.to_owned());
        assert(texts(self.ran@) =~= texts(before).push(id@));
    }

    /// Attach the meaning of the reasons.
    pub fn attach_catalog(&mut self, catalog: &ReasonCatalog)
        ensures
            final(self).reasons@ == catalog@,
            final(self).diagnostics == old(self).diagnostics,
            final(self).skipped == old(self).skipped,
            final(self).ran == old(self).ran,
    {
        self.reasons = catalog.copy();
    }

    /// Add what another report says. The meaning of the reasons is taken over where
    /// there is none yet.
    pub fn absorb(&mut self, other: CheckReport)
        ensures
            findings(final(self).diagnostics@) == findings(old(self).diagnostics@) + findings(other.diagnostics@),
            skips(final(self).skipped@) == skips(old(self).skipped@) + skips(other.skipped@),
            texts(final(self).ran@) == texts(old(self).ran@) + texts(other.ran@),
            final(self).reasons == (if old(self).reasons.reasons@.len() == 0 { other.reasons } else { old(self).reasons }),
    {
        let ghost d = self.diagnostics@;
        let ghost s = self.skipped@;
        let ghost r = self.ran@;
        let mut more = other;
        let ghost o = more;
        self.diagnostics.append(&mut more.diagnostics);
        self.skipped.append(&mut more.skipped);
        self.ran.append(&mut more.ran);
        if self.reasons.reasons.len() == 0 {
            self.reasons = more.reasons;
        }
        assert(findings(self.diagnostics@) =~= findings(d) + findings(o.diagnostics@));
        assert(skips(self.skipped@) =~= skips(s) + skips(o.skipped@));
        assert(texts(self.ran@) =~= texts(r) + texts(o.ran@));
    }

    /// The findings of one severity, in order.
    pub fn at(&self, severity: Severity) -> (r: Vec<Diagnostic>)
        ensures
            findings(r@) == of_severity(findings(self.diagnostics@), severity),
    {
        let ghost all = findings(self.diagnostics@);
        let mut out: Vec<Diagnostic> = Vec::new();
        let mut i: usize = 0;
        assert(findings(out@) =~= of_severity(all.take(0), severity));
        while i < self.diagnostics.len()
            invariant
                all == findings(self.diagnostics@),
                i <= self.diagnostics@.len(),
                findings(out@) == of_severity(all.take(i as int), severity),
            decreases self.diagnostics@.len() - i,
        {
            proof {
                crate::text::lemma_take_next(all, i as int);
                assert(all[i as int] == self.diagnostics@[i as int]@);
            }
            if self.diagnostics[i].severity == severity {
                let ghost before = out@;
                out.push(self.diagnostics[i].copy());
                assert(findings(out@) =~= findings(before).push(all[i as int]));
            }
            i = i + 1;
        }
        assert(all.take(i as int) =~= all);
        out
    }

    /// Whether some check could not run.
    pub fn incomplete(&self) -> (r: bool)
        ensures
            r == (self.skipped@.len() > 0),
    {
        self.skipped.len() > 0
    }

    fn has(&self, s: Severity) -> (r: bool)
        ensures
            r == has_severity(findings(self.diagnostics@), s),
    {
        let mut i: usize = 0;
        let ghost fs = findings(self.diagnostics@);
        while i < self.diagnostics.len()
            invariant
                fs == findings(self.diagnostics@),
                i <= self.diagnostics@.len(),
                forall|j: int| 0 <= j < i ==> (#[trigger] fs[j]).severity != s,
            decreases self.diagnostics@.len() - i,
        {
            assert(fs[i as int].severity == self.diagnostics@[i as int].severity);
            if self.diagnostics[i].severity == s {
                return true;
            }
            i = i + 1;
        }
        false
    }

    /// The worst severity found.
    pub fn worst(&self) -> (r: Option<Severity>)
        ensures
            r == worst_of(findings(self.diagnostics@)),
    {
        if self.has(Severity::Crash) {
            Some(Severity::Crash)
        } else if self.has(Severity::Unplayable) {
            Some(Severity::Unplayable)
        } else if self.has(Severity::Warning) {
            Some(Severity::Warning)
        } else if self.has(Severity::Info) {
            Some(Severity::Info)
        } else {
            None
        }
    }

    /// Collapse findings that say the same.
    pub fn dedupe(&mut self)
        ensures
            findings(final(self).diagnostics@) == deduped(findings(old(self).diagnostics@)),
            final(self).skipped == old(self).skipped,
            final(self).ran == old(self).ran,
            final(self).reasons == old(self).reasons,
    {
        let ghost all = findings(self.diagnostics@);
        let mut out: Vec<Diagnostic> = Vec::new();
        let mut i: usize = 0;
        assert(findings(out@) =~= deduped(all.take(0)));
        while i < self.diagnostics.len()
            invariant
                all == findings(self.diagnostics@),
                i <= self.diagnostics@.len(),
                self.skipped == old(self).skipped,
                self.ran == old(self).ran,
                self.reasons == old(self).reasons,
                findings(out@) == deduped(all.take(i as int)),
            decreases self.diagnostics@.len() - i,
        {
            proof {
                crate::text::lemma_take_next(all, i as int);
                assert(all[i as int] == self.diagnostics@[i as int]@);
            }
            if !contains_finding(&out, &self.diagnostics[i]) {
                let ghost before = out@;
                out.push(self.diagnostics[i].copy());
                assert(findings(out@) =~= findings(before).push(all[i as int]));
            }
            i = i + 1;
        }
        assert(all.take(i as int) =~= all);
        self.diagnostics = out;
    }
}

/// Whether two findings say the same.
fn same_finding(a: &Diagnostic, b: &Diagnostic) -> (r: bool)
    ensures
        r == (a@ == b@),
{
    let r = a.severity == b.severity && same(a.reason.as_str(), b.reason.as_str()) && same(
        a.fix_id.as_str(),
        b.fix_id.as_str(),
    ) && same_opt(&a.entry, &b.entry) && same_opt(&a.field, &b.field) && same_opt(&a.detail, &b.detail);
    r
}

fn contains_finding(v: &Vec<Diagnostic>, d: &Diagnostic) -> (r: bool)
    ensures
        r == findings(v@).contains(d@),
{
    let mut i: usize = 0;
    while i < v.len()
        invariant
            i <= v@.len(),
            forall|j: int| 0 <= j < i ==> findings(v@)[j] != d@,
        decreases v@.len() - i,
    {
        if same_finding(&v[i], d) {
            assert(findings(v@)[i as int] == d@);
            return true;
        }
        assert(findings(v@)[i as int] != d@);
        i = i + 1;
    }
    false
}

/// No finding is reported twice, and none is lost.
pub proof fn law_deduped(fs: Seq<Finding>)
    ensures
        deduped(fs).no_duplicates(),
        forall|f: Finding| deduped(fs).contains(f) <==> fs.contains(f),
        worst_of(deduped(fs)) == worst_of(fs),
    decreases fs.len(),
{
    if fs.len() > 0 {
        let head = fs.drop_last();
        law_deduped(head);
        let before = deduped(head);
        let now = deduped(fs);
        assert forall|f: Finding| now.contains(f) <==> fs.contains(f) by {
            if fs.contains(f) {
                let i = choose|i: int| 0 <= i < fs.len() && fs[i] == f;
                if i < head.len() {
                    assert(head[i] == f);
                    assert(head.contains(f));
                    assert(before.contains(f));
                    let k = choose|k: int| 0 <= k < before.len() && before[k] == f;
                    assert(now[k] == f);
                } else {
                    if !before.contains(f) {
                        assert(now[now.len() - 1] == f);
                    }
                }
            }
            if now.contains(f) {
                if before.contains(f) {
                    assert(head.contains(f));
                    let k = choose|k: int| 0 <= k < head.len() && head[k] == f;
                    assert(fs[k] == f);
                } else {
                    assert(fs[fs.len() - 1] == f);
                }
            }
        }
    }
    let now = deduped(fs);
    assert forall|s: Severity| has_severity(now, s) <==> has_severity(fs, s) by {
        if has_severity(now, s) {
            let i = choose|i: int| 0 <= i < now.len() && (#[trigger] now[i]).severity == s;
            assert(now.contains(now[i]));
            let k = choose|k: int| 0 <= k < fs.len() && fs[k] == now[i];
            assert(fs[k].severity == s);
        }
        if has_severity(fs, s) {
            let i = choose|i: int| 0 <= i < fs.len() && (#[trigger] fs[i]).severity == s;
            assert(fs.contains(fs[i]));
            let k = choose|k: int| 0 <= k < now.len() && now[k] == fs[i];
            assert(now[k].severity == s);
        }
    }
}

/// A reason has the severity and the title of its first definition, and one without a
/// definition is a warning under its own name.
pub proof fn law_reasons_have_their_severity(catalog: ReasonCatalog, id: Seq<char>, i: int)
    ensures
        reason_at(catalog.reasons@, id, i) ==> catalog.severity_of(id) == catalog.reasons@[i].1.severity && catalog.title_of(id)
            == catalog.reasons@[i].1.title@,
        (forall|j: int| 0 <= j < catalog.reasons@.len() ==> (#[trigger] catalog.reasons@[j]).0@ != id) ==> catalog.severity_of(id)
            == Severity::Warning && catalog.title_of(id) == id,
{
    if reason_at(catalog.reasons@, id, i) {
        let k = choose|k: int| reason_at(catalog.reasons@, id, k);
        assert(catalog.reasons@[k].0@ == id && catalog.reasons@[i].0@ == id);
        assert(k == i);
    }
}

/// How bad a severity is, the worst first.
pub open spec fn badness(s: Severity) -> int {
    match s {
        Severity::Crash => 0,
        Severity::Unplayable => 1,
        Severity::Warning => 2,
        Severity::Info => 3,
    }
}

/// The worst severity is that of a finding, and no finding is worse.
pub proof fn law_worst_is_the_worst(fs: Seq<Finding>, i: int)
    ensures
        fs.len() == 0 ==> worst_of(fs) is None,
        0 <= i < fs.len() ==> worst_of(fs) is Some && badness(worst_of(fs)->0) <= badness(fs[i].severity),
        worst_of(fs) matches Some(w) ==> exists|k: int| 0 <= k < fs.len() && (#[trigger] fs[k]).severity == w,
{
}

/// The findings of a severity are those of all findings that have it.
pub proof fn law_findings_by_severity(fs: Seq<Finding>, s: Severity, f: Finding)
    ensures
        of_severity(fs, s).contains(f) <==> fs.contains(f) && f.severity == s,
    decreases fs.len(),
{
    if fs.len() > 0 {
        let head = fs.drop_last();
        law_findings_by_severity(head, s, f);
        assert(head.push(fs.last()) =~= fs);
        lemma_push_contains(head, fs.last(), f);
        lemma_push_contains(of_severity(head, s), fs.last(), f);
    }
}

/// The unknown ids are those that the catalog does not define, each once.
pub proof fn law_unknown_ids_have_no_definition(catalog: ReasonCatalog, ids: Seq<Seq<char>>, id: Seq<char>)
    ensures
        undefined_ids(catalog, ids).contains(id) <==> ids.contains(id) && !catalog.defines(id),
        undefined_ids(catalog, ids).no_duplicates(),
    decreases ids.len(),
{
    if ids.len() > 0 {
        let head = ids.drop_last();
        law_unknown_ids_have_no_definition(catalog, head, id);
        assert(head.push(ids.last()) =~= ids);
        lemma_push_contains(head, ids.last(), id);
        lemma_push_contains(undefined_ids(catalog, head), ids.last(), id);
    }
}

} // verus!
