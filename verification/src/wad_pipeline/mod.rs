//! Fixes on the level of archive files, before any BIN is read: removal, conversion,
//! renaming and addition of files.

pub mod detect;
pub mod transform;

use std::collections::HashSet;
use vstd::prelude::*;
use vstd::string::*;
use crate::archive::WadEntry;
use crate::config::{find_rule, rule_of, AssetInjection, FixConfig, WadDetectionRule, WadFixRule, WadTransformAction};
use crate::diagnostic::{finding, findings, Diagnostic, Finding};
use crate::patterns::regex_replaced_first;
use crate::text::{
    cat, decimal, decimal_text, is_listed, lemma_push_contains, lemma_sum_contains, lemma_take_next, listed, lowered, normal, normalize, replace_text, replaced, same, texts,
    to_lower,
};
use crate::wad_pipeline::detect::{check_file, file_matches, WadError};
use crate::wad_pipeline::transform::{action_on, apply_action, ActionResult, FileAction};
use crate::walk::{add_count, capped};

verus! {

/// What applying a single rule came to.
#[derive(Debug)]
pub struct WadFixResult {
    pub fix_id: String,
    pub fix_name: String,
    pub files_affected: u32,
}

/// A file to convert.
#[derive(Debug)]
pub struct FileConversion {
    pub path: String,
    pub from_ext: String,
    pub to_ext: String,
    pub converter: String,
}

/// A file whose bytes are to be changed in place.
#[derive(Debug)]
pub struct InPlaceTransform {
    pub path: String,
    pub converter: String,
    pub fix_id: String,
    pub fix_name: String,
}

/// A file to add.
#[derive(Debug)]
pub struct FileAddition {
    /// Name of the asset in the registry.
    pub asset: String,
    /// Where it goes in the archive.
    pub path: String,
    /// Skip when the archive already has a file at `path`.
    pub only_if_missing: bool,
}

/// Everything the mod's own BINs point at: lower-case paths, and path hashes.
#[derive(Debug)]
pub struct ReferencedAssets {
    pub paths: Vec<String>,
    pub hashes: HashSet<u64>,
}

impl ReferencedAssets {
    /// Something points at the file.
    pub open spec fn refers(&self, path: Seq<char>, hash: u64) -> bool {
        self.hashes@.contains(hash) || listed(self.paths@, normal(path))
    }

    /// No references at all.
    pub fn new() -> (r: ReferencedAssets)
        ensures
            forall|path: Seq<char>, hash: u64| !r.refers(path, hash),
    {
        broadcast use vstd::std_specs::hash::group_hash_axioms;
        let r = ReferencedAssets { paths: Vec::new(), hashes: HashSet::new() };
        assert forall|path: Seq<char>, hash: u64| !r.refers(path, hash) by {
            assert(!r.hashes@.contains(hash));
            assert(!listed(r.paths@, normal(path)));
        }
        r
    }

    /// Whether something points at the file.
    pub fn contains(&self, path: &str, hash: u64) -> (r: bool)
        ensures
            r == self.refers(path@, hash),
    {
        broadcast use vstd::std_specs::hash::group_hash_axioms;
        if self.hashes.contains(&hash) {
            return true;
        }
        let key = normalize(path);
        is_listed(&self.paths, key.as_str())
    }
}

/// What is to be done with an archive.
#[derive(Debug)]
pub struct WadFixOutput {
    pub files_to_remove: Vec<String>,
    pub files_to_convert: Vec<FileConversion>,
    pub files_to_transform: Vec<InPlaceTransform>,
    /// Old path, new path.
    pub files_to_rename: Vec<(String, String)>,
    pub files_to_add: Vec<FileAddition>,
    pub applied_fixes: Vec<WadFixResult>,
    /// What the rules found.
    pub diagnostics: Vec<Diagnostic>,
}

/// What is to be done with an archive, as a value.
#[verifier::ext_equal]
pub struct WadPlan {
    pub remove: Seq<Seq<char>>,
    /// Path, old and new extension, converter.
    pub convert: Seq<(Seq<char>, Seq<char>, Seq<char>, Seq<char>)>,
    /// Path, converter, rule id and name.
    pub change: Seq<(Seq<char>, Seq<char>, Seq<char>, Seq<char>)>,
    pub rename: Seq<(Seq<char>, Seq<char>)>,
    /// Asset, path, only where it is missing.
    pub addition: Seq<(Seq<char>, Seq<char>, bool)>,
    /// Rule id and name, files affected.
    pub applied: Seq<(Seq<char>, Seq<char>, u32)>,
    pub found: Seq<Finding>,
}

impl View for WadFixOutput {
    type V = WadPlan;

    open spec fn view(&self) -> WadPlan {
        WadPlan {
            remove: texts(self.files_to_remove@),
            convert: self.files_to_convert@.map_values(
                |c: FileConversion| (c.path@, c.from_ext@, c.to_ext@, c.converter@),
            ),
            change: self.files_to_transform@.map_values(
                |t: InPlaceTransform| (t.path@, t.converter@, t.fix_id@, t.fix_name@),
            ),
            rename: self.files_to_rename@.map_values(|p: (String, String)| (p.0@, p.1@)),
            addition: self.files_to_add@.map_values(|a: FileAddition| (a.asset@, a.path@, a.only_if_missing)),
            applied: self.applied_fixes@.map_values(|a: WadFixResult| (a.fix_id@, a.fix_name@, a.files_affected)),
            found: findings(self.diagnostics@),
        }
    }
}

/// Nothing is to be done.
pub open spec fn no_plan() -> WadPlan {
    WadPlan {
        remove: Seq::empty(),
        convert: Seq::empty(),
        change: Seq::empty(),
        rename: Seq::empty(),
        addition: Seq::empty(),
        applied: Seq::empty(),
        found: Seq::empty(),
    }
}

/// One plan, then another.
pub open spec fn plan_then(a: WadPlan, b: WadPlan) -> WadPlan {
    WadPlan {
        remove: a.remove + b.remove,
        convert: a.convert + b.convert,
        change: a.change + b.change,
        rename: a.rename + b.rename,
        addition: a.addition + b.addition,
        applied: a.applied + b.applied,
        found: a.found + b.found,
    }
}

impl WadFixOutput {
    /// Nothing to do.
    pub fn new() -> (r: WadFixOutput)
        ensures
            r@ == no_plan(),
    {
        let r = WadFixOutput {
            files_to_remove: Vec::new(),
            files_to_convert: Vec::new(),
            files_to_transform: Vec::new(),
            files_to_rename: Vec::new(),
            files_to_add: Vec::new(),
            applied_fixes: Vec::new(),
            diagnostics: Vec::new(),
        };
        assert(r@ =~= no_plan());
        r
    }

    /// Put another plan behind this one.
    pub fn merge(&mut self, other: WadFixOutput)
        ensures
            final(self)@ == plan_then(old(self)@, other@),
    {
        let ghost a = self@;
        let mut more = other;
        let ghost b = more@;
        self.files_to_remove.append(&mut more.files_to_remove);
        self.files_to_convert.append(&mut more.files_to_convert);
        self.files_to_transform.append(&mut more.files_to_transform);
        self.files_to_rename.append(&mut more.files_to_rename);
        self.files_to_add.append(&mut more.files_to_add);
        self.applied_fixes.append(&mut more.applied_fixes);
        self.diagnostics.append(&mut more.diagnostics);
        assert(self@ =~= plan_then(a, b));
    }
}

/// A file of the archive has this path, in any case.
pub open spec fn has_file(files: Seq<WadEntry>, path: Seq<char>) -> bool {
    exists|i: int| 0 <= i < files.len() && lowered((#[trigger] files[i]).1@) == lowered(path)
}

fn is_file(files: &Vec<WadEntry>, path: &str) -> (r: bool)
    ensures
        r == has_file(files@, path@),
{
    let lower = to_lower(path);
    let mut i: usize = 0;
    while i < files.len()
        invariant
            lower@ == lowered(path@),
            i <= files@.len(),
            forall|j: int| 0 <= j < i ==> lowered((#[trigger] files@[j]).1@) != lowered(path@),
        decreases files@.len() - i,
    {
        let other = to_lower(files[i].1.as_str());
        if same(other.as_str(), lower.as_str()) {
            return true;
        }
        i = i + 1;
    }
    false
}

/// The additions of a rule to an archive, in order.
pub open spec fn additions(files: Seq<WadEntry>, assets: Seq<AssetInjection>) -> Seq<(Seq<char>, Seq<char>, bool)>
    decreases assets.len(),
{
    if assets.len() == 0 {
        Seq::empty()
    } else {
        let before = additions(files, assets.drop_last());
        let a = assets.last();
        if a.only_if_missing && has_file(files, a.path@) {
            before
        } else {
            before.push((a.asset@, a.path@, a.only_if_missing))
        }
    }
}

/// The plan with the note of how many files a rule affected, where it did any.
pub open spec fn with_note(p: WadPlan, id: Seq<char>, name: Seq<char>, n: nat) -> WadPlan {
    if n > 0 {
        WadPlan { applied: p.applied.push((id, name, capped(n))), ..p }
    } else {
        p
    }
}

/// The path that a converted file would have.
pub open spec fn converted_path(path: Seq<char>, from_ext: Seq<char>, to_ext: Seq<char>) -> Seq<char> {
    replaced(path, "."@ + from_ext, "."@ + to_ext)
}

/// What a rule plans for one file that it is about, and the number of files affected.
pub open spec fn acted(
    so_far: (WadPlan, nat),
    files: Seq<WadEntry>,
    file: WadEntry,
    action: FileAction,
    id: Seq<char>,
    name: Seq<char>,
    referenced: ReferencedAssets,
) -> (WadPlan, nat) {
    let (p, n) = so_far;
    let path = file.1@;
    match action {
        FileAction::Remove { unless_referenced } => if unless_referenced && referenced.refers(path, file.0) {
            (p, n)
        } else {
            (WadPlan { remove: p.remove.push(path), ..p }, n + 1)
        },
        FileAction::Convert { from_ext, to_ext, converter } => if from_ext != to_ext && has_file(
            files,
            converted_path(path, from_ext, to_ext),
        ) {
            (p, n)
        } else {
            (WadPlan { convert: p.convert.push((path, from_ext, to_ext, converter)), ..p }, n + 1)
        },
        FileAction::Transform { converter } => (WadPlan { change: p.change.push((path, converter, id, name)), ..p }, n),
        FileAction::Rename { new_path } => (WadPlan { rename: p.rename.push((path, new_path)), ..p }, n + 1),
        FileAction::Nothing => (p, n),
    }
}

/// What a rule plans for the first files of an archive, and the number of files affected.
pub open spec fn scanned(
    some: Seq<WadEntry>,
    files: Seq<WadEntry>,
    rule: WadFixRule,
    id: Seq<char>,
    referenced: ReferencedAssets,
) -> Result<(WadPlan, nat), WadError>
    decreases some.len(),
{
    if some.len() == 0 {
        Ok((no_plan(), 0))
    } else {
        match scanned(some.drop_last(), files, rule, id, referenced) {
            Err(e) => Err(e),
            Ok(so_far) => {
                let file = some.last();
                match file_matches(file.1@, file.2@, rule.detect) {
                    Err(e) => Err(e),
                    Ok(false) => Ok(so_far),
                    Ok(true) => match action_on(file.1@, rule.apply) {
                        Err(e) => Err(e),
                        Ok(action) => Ok(acted(so_far, files, file, action, id, rule.name@, referenced)),
                    },
                }
            },
        }
    }
}

/// What a rule plans for an archive.
pub open spec fn single_plan(files: Seq<WadEntry>, rule: WadFixRule, id: Seq<char>, referenced: ReferencedAssets) -> Result<
    WadPlan,
    WadError,
> {
    if rule.detect is Always {
        match rule.apply {
            WadTransformAction::AddFiles { assets } => {
                let added = additions(files, assets@);
                Ok(with_note(WadPlan { addition: added, ..no_plan() }, id, rule.name@, added.len()))
            },
            _ => Ok(no_plan()),
        }
    } else {
        match scanned(files, files, rule, id, referenced) {
            Ok((p, n)) => Ok(with_note(p, id, rule.name@, n)),
            Err(e) => Err(e),
        }
    }
}

fn note_rule(output: &mut WadFixOutput, id: &str, name: &str, n: u32, Ghost(total): Ghost<nat>)
    requires
        n == capped(total),
    ensures
        final(output)@ == with_note(old(output)@, id@, name@, total),
{
    let ghost before = output@;
    if n > 0 {
        output.applied_fixes.push(
            WadFixResult { fix_id: id.to_owned(), fix_name: name.to_owned(), files_affected: n },
        );
    }
    assert(output@ =~= with_note(before, id@, name@, total));
}

fn plan_additions(files: &Vec<WadEntry>, assets: &Vec<AssetInjection>) -> (r: Vec<FileAddition>)
    ensures
        r@.map_values(|a: FileAddition| (a.asset@, a.path@, a.only_if_missing)) == additions(files@, assets@),
{
    let mut out: Vec<FileAddition> = Vec::new();
    let mut i: usize = 0;
    assert(out@.map_values(|a: FileAddition| (a.asset@, a.path@, a.only_if_missing)) =~= additions(files@, assets@.take(0)));
    while i < assets.len()
        invariant
            i <= assets@.len(),
            out@.map_values(|a: FileAddition| (a.asset@, a.path@, a.only_if_missing)) == additions(
                files@,
                assets@.take(i as int),
            ),
        decreases assets@.len() - i,
    {
        proof {
            lemma_take_next(assets@, i as int);
        }
        let a = &assets[i];
        if !(a.only_if_missing && is_file(files, a.path.as_str())) {
            let ghost before = out@;
            out.push(
                FileAddition { asset: a.asset.clone(), path: a.path.clone(), only_if_missing: a.only_if_missing },
            );
            assert(out@.map_values(|a: FileAddition| (a.asset@, a.path@, a.only_if_missing)) =~= before.map_values(
                |a: FileAddition| (a.asset@, a.path@, a.only_if_missing),
            ).push((a.asset@, a.path@, a.only_if_missing)));
        }
        i = i + 1;
    }
    assert(assets@.take(i as int) =~= assets@);
    out
}

fn act(
    output: &mut WadFixOutput,
    affected: u32,
    files: &Vec<WadEntry>,
    file: &WadEntry,
    action: ActionResult,
    fix_id: &str,
    fix_name: &str,
    referenced: &ReferencedAssets,
    Ghost(n): Ghost<nat>,
) -> (r: u32)
    requires
        affected == capped(n),
    ensures
        ({
            let w = acted((old(output)@, n), files@, *file, action@, fix_id@, fix_name@, *referenced);
            final(output)@ == w.0 && r == capped(w.1)
        }),
{
    let ghost p = output@;
    let path = file.1.as_str();
    assert(capped(1) == 1u32);
    let one_more = add_count(affected, 1);
    assert(one_more == capped(n + 1));
    match action {
        ActionResult::RemoveFile { unless_referenced } => {
            if unless_referenced && referenced.contains(path, file.0) {
                return affected;
            }
            output.files_to_remove.push(path.to_owned());
            assert(output@ =~= (WadPlan { remove: p.remove.push(path@), ..p }));
            one_more
        },
        ActionResult::ConvertFile { from_ext, to_ext, converter } => {
            if !same(from_ext.as_str(), to_ext.as_str()) {
                proof {
                    reveal_strlit(".");
                }
                let old_end = cat(".", from_ext.as_str());
                let new_end = cat(".", to_ext.as_str());
                let converted = replace_text(path, old_end.as_str(), new_end.as_str());
                if is_file(files, converted.as_str()) {
                    return affected;
                }
            }
            let ghost entry = (path@, from_ext@, to_ext@, converter@);
            output.files_to_convert.push(FileConversion { path: path.to_owned(), from_ext, to_ext, converter });
            assert(output@ =~= (WadPlan { convert: p.convert.push(entry), ..p }));
            one_more
        },
        ActionResult::TransformInPlace { converter } => {
            let ghost entry = (path@, converter@, fix_id@, fix_name@);
            output.files_to_transform.push(
                InPlaceTransform {
                    path: path.to_owned(),
                    converter,
                    fix_id: fix_id.to_owned(),
                    fix_name: fix_name.to_owned(),
                },
            );
            assert(output@ =~= (WadPlan { change: p.change.push(entry), ..p }));
            affected
        },
        ActionResult::RenameFile { new_path } => {
            let ghost entry = (path@, new_path@);
            output.files_to_rename.push((path.to_owned(), new_path));
            assert(output@ =~= (WadPlan { rename: p.rename.push(entry), ..p }));
            one_more
        },
        ActionResult::NoOp => affected,
    }
}

proof fn lemma_scan_error_stays(
    some: Seq<WadEntry>,
    files: Seq<WadEntry>,
    rule: WadFixRule,
    id: Seq<char>,
    referenced: ReferencedAssets,
    n: int,
)
    requires
        0 <= n <= some.len(),
        scanned(some.take(n), files, rule, id, referenced) is Err,
    ensures
        scanned(some, files, rule, id, referenced) == scanned(some.take(n), files, rule, id, referenced),
    decreases some.len(),
{
    if n < some.len() {
        assert(some.drop_last().take(n) =~= some.take(n));
        lemma_scan_error_stays(some.drop_last(), files, rule, id, referenced, n);
    } else {
        assert(some.take(n) =~= some);
    }
}

/// Plan what one rule does to an archive.
pub fn apply_single_fix(files: &Vec<WadEntry>, fix_rule: &WadFixRule, fix_id: &str, referenced: &ReferencedAssets) -> (r: Result<
    WadFixOutput,
    WadError,
>)
    ensures
        r is Ok <==> single_plan(files@, *fix_rule, fix_id@, *referenced) is Ok,
        r matches Ok(out) ==> single_plan(files@, *fix_rule, fix_id@, *referenced) == Ok::<WadPlan, WadError>(out@),
        r matches Err(e) ==> single_plan(files@, *fix_rule, fix_id@, *referenced) == Err::<WadPlan, WadError>(e),
{
    let mut output = WadFixOutput::new();
    let always = match &fix_rule.detect {
        WadDetectionRule::Always => true,
        _ => false,
    };
    if always {
        match &fix_rule.apply {
            WadTransformAction::AddFiles { assets } => {
                output.files_to_add = plan_additions(files, assets);
                let ghost added = additions(files@, assets@);
                assert(output@ =~= (WadPlan { addition: added, ..no_plan() }));
                assert(output.files_to_add@.len() == added.len());
                let n = output.files_to_add.len();
                let count: u32 = if n >= u32::MAX as usize { u32::MAX } else { n as u32 };
                note_rule(&mut output, fix_id, fix_rule.name.as_str(), count, Ghost(added.len()));
            },
            _ => {},
        }
        return Ok(output);
    }
    let mut affected: u32 = 0;
    let ghost mut total: nat = 0;
    let mut i: usize = 0;
    while i < files.len()
        invariant
            i <= files@.len(),
            !(fix_rule.detect is Always),
            affected == capped(total),
            scanned(files@.take(i as int), files@, *fix_rule, fix_id@, *referenced) == Ok::<(WadPlan, nat), WadError>(
                (output@, total),
            ),
        decreases files@.len() - i,
    {
        proof {
            lemma_take_next(files@, i as int);
        }
        let file = &files[i];
        match check_file(file.1.as_str(), file.2.as_slice(), &fix_rule.detect) {
            Err(e) => {
                proof {
                    lemma_scan_error_stays(files@, files@, *fix_rule, fix_id@, *referenced, i + 1);
                }
                return Err(e);
            },
            Ok(true) => {
                match apply_action(file.1.as_str(), file.2.as_slice(), &fix_rule.apply) {
                    Err(e) => {
                        proof {
                            lemma_scan_error_stays(files@, files@, *fix_rule, fix_id@, *referenced, i + 1);
                        }
                        return Err(e);
                    },
                    Ok(action) => {
                        let ghost w = acted(
                            (output@, total),
                            files@,
                            *file,
                            action@,
                            fix_id@,
                            fix_rule.name@,
                            *referenced,
                        );
                        affected = act(
                            &mut output,
                            affected,
                            files,
                            file,
                            action,
                            fix_id,
                            fix_rule.name.as_str(),
                            referenced,
                            Ghost(total),
                        );
                        proof {
                            total = w.1;
                        }
                    },
                }
            },
            Ok(false) => {},
        }
        i = i + 1;
    }
    assert(files@.take(i as int) =~= files@);
    note_rule(&mut output, fix_id, fix_rule.name.as_str(), affected, Ghost(total));
    Ok(output)
}

/// What a rule reports: the number of files, where it is more than one.
pub open spec fn wad_finding(config: FixConfig, reason: Seq<char>, id: Seq<char>, n: u32) -> Finding {
    if n > 1 {
        Finding { detail: Some(decimal(n as nat) + " files"@), ..finding(config.reasons, reason, id) }
    } else {
        finding(config.reasons, reason, id)
    }
}

/// What the rules that affected files report.
pub open spec fn wad_findings(
    config: FixConfig,
    reason: Seq<char>,
    id: Seq<char>,
    applied: Seq<(Seq<char>, Seq<char>, u32)>,
) -> Seq<Finding>
    decreases applied.len(),
{
    if applied.len() == 0 {
        Seq::empty()
    } else {
        let before = wad_findings(config, reason, id, applied.drop_last());
        if applied.last().2 == 0 {
            before
        } else {
            before.push(wad_finding(config, reason, id, applied.last().2))
        }
    }
}

/// A plan with what its rule reports.
pub open spec fn reported(p: WadPlan, config: FixConfig, rule: WadFixRule, id: Seq<char>) -> WadPlan {
    match rule.reason {
        Some(reason) => WadPlan { found: p.found + wad_findings(config, reason@, id, p.applied), ..p },
        None => p,
    }
}

/// What the rules `ids` plan for an archive.
pub open spec fn wad_plan(files: Seq<WadEntry>, config: FixConfig, ids: Seq<Seq<char>>, referenced: ReferencedAssets) -> Result<
    WadPlan,
    WadError,
>
    decreases ids.len(),
{
    if ids.len() == 0 {
        Ok(no_plan())
    } else {
        match wad_plan(files, config, ids.drop_last(), referenced) {
            Err(e) => Err(e),
            Ok(before) => match rule_of(config.wad_fixes@, ids.last()) {
                None => Ok(before),
                Some(rule) => if !config.enabled(ids.last()) {
                    Ok(before)
                } else {
                    match single_plan(files, rule, ids.last(), referenced) {
                        Err(e) => Err(e),
                        Ok(p) => Ok(plan_then(before, reported(p, config, rule, ids.last()))),
                    }
                },
            },
        }
    }
}

proof fn lemma_plan_error_stays(
    files: Seq<WadEntry>,
    config: FixConfig,
    ids: Seq<Seq<char>>,
    referenced: ReferencedAssets,
    n: int,
)
    requires
        0 <= n <= ids.len(),
        wad_plan(files, config, ids.take(n), referenced) is Err,
    ensures
        wad_plan(files, config, ids, referenced) == wad_plan(files, config, ids.take(n), referenced),
    decreases ids.len(),
{
    if n < ids.len() {
        assert(ids.drop_last().take(n) =~= ids.take(n));
        lemma_plan_error_stays(files, config, ids.drop_last(), referenced, n);
    } else {
        assert(ids.take(n) =~= ids);
    }
}

fn report_rule(output: &mut WadFixOutput, config: &FixConfig, rule: &WadFixRule, id: &str)
    ensures
        final(output)@ == reported(old(output)@, *config, *rule, id@),
{
    let ghost p = output@;
    if let Some(reason) = &rule.reason {
        let mut i: usize = 0;
        assert(p.found + wad_findings(*config, reason@, id@, p.applied.take(0)) =~= p.found);
        while i < output.applied_fixes.len()
            invariant
                i <= output.applied_fixes@.len(),
                output@ == (WadPlan {
                    found: p.found + wad_findings(*config, reason@, id@, p.applied.take(i as int)),
                    ..p
                }),
            decreases output.applied_fixes@.len() - i,
        {
            let n = output.applied_fixes[i].files_affected;
            proof {
                assert(output@.applied == p.applied);
                assert(p.applied[i as int].2 == n);
                lemma_take_next(p.applied, i as int);
            }
            let ghost before = output@;
            if n > 0 {
                let mut d = Diagnostic::new(&config.reasons, reason.as_str(), id);
                if n > 1 {
                    let mut detail = decimal_text(n as u64);
                    detail.append(" files");
                    d = d.with_detail(detail.as_str());
                }
                let ghost view = d@;
                output.diagnostics.push(d);
                assert(output@.found =~= before.found.push(view));
            }
            assert(output@ =~= (WadPlan {
                found: p.found + wad_findings(*config, reason@, id@, p.applied.take(i + 1)),
                ..p
            }));
            i = i + 1;
        }
        assert(p.applied.take(i as int) =~= p.applied);
    }
}

/// Plan what the selected rules do to an archive: files to remove, convert, rename and
/// add, with what was found.
pub fn apply_wad_fixes(
    files: &Vec<WadEntry>,
    config: &FixConfig,
    selected_fix_ids: &Vec<String>,
    referenced: &ReferencedAssets,
) -> (r: Result<WadFixOutput, WadError>)
    ensures
        ({
            let w = wad_plan(files@, *config, texts(selected_fix_ids@), *referenced);
            &&& r is Ok <==> w is Ok
            &&& r matches Ok(out) ==> w == Ok::<WadPlan, WadError>(out@)
            &&& r matches Err(e) ==> w == Err::<WadPlan, WadError>(e)
        }),
{
    let ghost ids = texts(selected_fix_ids@);
    let mut output = WadFixOutput::new();
    let mut i: usize = 0;
    while i < selected_fix_ids.len()
        invariant
            ids == texts(selected_fix_ids@),
            i <= selected_fix_ids@.len(),
            wad_plan(files@, *config, ids.take(i as int), *referenced) == Ok::<WadPlan, WadError>(output@),
        decreases selected_fix_ids@.len() - i,
    {
        let id = selected_fix_ids[i].as_str();
        proof {
            lemma_take_next(ids, i as int);
            assert(ids[i as int] == id@);
        }
        if let Some(rule) = find_rule(&config.wad_fixes, id) {
            if config.is_fix_enabled(id) {
                match apply_single_fix(files, rule, id, referenced) {
                    Err(e) => {
                        proof {
                            lemma_plan_error_stays(files@, *config, ids, *referenced, i + 1);
                        }
                        return Err(e);
                    },
                    Ok(plan) => {
                        let mut plan = plan;
                        report_rule(&mut plan, config, rule, id);
                        output.merge(plan);
                    },
                }
            }
        }
        i = i + 1;
    }
    assert(ids.take(i as int) =~= ids);
    Ok(output)
}

/// A file that the mod's BINs point at is not removed by a rule that spares such files.
pub proof fn law_referenced_files_stay(
    some: Seq<WadEntry>,
    files: Seq<WadEntry>,
    rule: WadFixRule,
    id: Seq<char>,
    referenced: ReferencedAssets,
    path: Seq<char>,
)
    requires
        rule.apply == (WadTransformAction::RemoveFile { unless_referenced: true }),
        forall|i: int|
            0 <= i < some.len() && (#[trigger] some[i]).1@ == path ==> referenced.refers(path, some[i].0),
        scanned(some, files, rule, id, referenced) is Ok,
    ensures
        !scanned(some, files, rule, id, referenced)->Ok_0.0.remove.contains(path),
    decreases some.len(),
{
    if some.len() > 0 {
        let head = some.drop_last();
        assert forall|i: int| 0 <= i < head.len() && (#[trigger] head[i]).1@ == path implies referenced.refers(
            path,
            head[i].0,
        ) by {
            assert(head[i] == some[i]);
        }
        law_referenced_files_stay(head, files, rule, id, referenced, path);
        let before = scanned(head, files, rule, id, referenced)->Ok_0.0.remove;
        let now = scanned(some, files, rule, id, referenced)->Ok_0.0.remove;
        assert(some[some.len() - 1] == some.last());
        assert(!now.contains(path)) by {
            if now.contains(path) {
                let k = choose|k: int| 0 <= k < now.len() && now[k] == path;
                if k < before.len() {
                    assert(before[k] == path);
                    assert(before.contains(path));
                }
            }
        }
    }
}

/// A file is not converted onto one that the archive already has.
pub proof fn law_conversions_do_not_clobber(
    so_far: (WadPlan, nat),
    files: Seq<WadEntry>,
    file: WadEntry,
    from_ext: Seq<char>,
    to_ext: Seq<char>,
    converter: Seq<char>,
    id: Seq<char>,
    name: Seq<char>,
    referenced: ReferencedAssets,
)
    requires
        from_ext != to_ext,
        has_file(files, converted_path(file.1@, from_ext, to_ext)),
    ensures
        acted(so_far, files, file, FileAction::Convert { from_ext, to_ext, converter }, id, name, referenced) == so_far,
{
}

proof fn lemma_scan_grows(some: Seq<WadEntry>, files: Seq<WadEntry>, rule: WadFixRule, id: Seq<char>, referenced: ReferencedAssets, i: int)
    requires
        0 <= i < some.len(),
        scanned(some, files, rule, id, referenced) is Ok,
        file_matches(some[i].1@, some[i].2@, rule.detect) == Ok::<bool, WadError>(true),
    ensures
        action_on(some[i].1@, rule.apply) is Ok,
        forall|so_far: (WadPlan, nat)|
            {
                let p = #[trigger] acted(so_far, files, some[i], action_on(some[i].1@, rule.apply)->Ok_0, id, rule.name@, referenced).0;
                let all = scanned(some, files, rule, id, referenced)->Ok_0.0;
                &&& p.remove.len() > so_far.0.remove.len() ==> all.remove.contains(p.remove.last())
                &&& p.convert.len() > so_far.0.convert.len() ==> all.convert.contains(p.convert.last())
                &&& p.change.len() > so_far.0.change.len() ==> all.change.contains(p.change.last())
                &&& p.rename.len() > so_far.0.rename.len() ==> all.rename.contains(p.rename.last())
            },
    decreases some.len(),
{
    let head = some.drop_last();
    let before = scanned(head, files, rule, id, referenced)->Ok_0;
    let all = scanned(some, files, rule, id, referenced)->Ok_0.0;
    if i < head.len() {
        assert(head[i] == some[i]);
        lemma_scan_grows(head, files, rule, id, referenced, i);
        assert forall|so_far: (WadPlan, nat)|
            {
                let p = #[trigger] acted(so_far, files, some[i], action_on(some[i].1@, rule.apply)->Ok_0, id, rule.name@, referenced).0;
                &&& p.remove.len() > so_far.0.remove.len() ==> all.remove.contains(p.remove.last())
                &&& p.convert.len() > so_far.0.convert.len() ==> all.convert.contains(p.convert.last())
                &&& p.change.len() > so_far.0.change.len() ==> all.change.contains(p.change.last())
                &&& p.rename.len() > so_far.0.rename.len() ==> all.rename.contains(p.rename.last())
            } by {
            let p = acted(so_far, files, some[i], action_on(some[i].1@, rule.apply)->Ok_0, id, rule.name@, referenced).0;
            lemma_push_contains(before.0.remove, some.last().1@, p.remove.last());
            if all.convert.len() > before.0.convert.len() {
                lemma_push_contains(before.0.convert, all.convert.last(), p.convert.last());
            }
            if all.change.len() > before.0.change.len() {
                lemma_push_contains(before.0.change, all.change.last(), p.change.last());
            }
            if all.rename.len() > before.0.rename.len() {
                lemma_push_contains(before.0.rename, all.rename.last(), p.rename.last());
            }
        }
    } else {
        assert(some.last() == some[i]);
        assert forall|so_far: (WadPlan, nat)|
            {
                let p = #[trigger] acted(so_far, files, some[i], action_on(some[i].1@, rule.apply)->Ok_0, id, rule.name@, referenced).0;
                &&& p.remove.len() > so_far.0.remove.len() ==> all.remove.contains(p.remove.last())
                &&& p.convert.len() > so_far.0.convert.len() ==> all.convert.contains(p.convert.last())
                &&& p.change.len() > so_far.0.change.len() ==> all.change.contains(p.change.last())
                &&& p.rename.len() > so_far.0.rename.len() ==> all.rename.contains(p.rename.last())
            } by {
            let p = acted(so_far, files, some[i], action_on(some[i].1@, rule.apply)->Ok_0, id, rule.name@, referenced).0;
            if p.remove.len() > so_far.0.remove.len() {
                assert(all.remove[all.remove.len() - 1] == p.remove.last());
            }
            if p.convert.len() > so_far.0.convert.len() {
                assert(all.convert[all.convert.len() - 1] == p.convert.last());
            }
            if p.change.len() > so_far.0.change.len() {
                assert(all.change[all.change.len() - 1] == p.change.last());
            }
            if p.rename.len() > so_far.0.rename.len() {
                assert(all.rename[all.rename.len() - 1] == p.rename.last());
            }
        }
    }
}

/// Every file that a rule matches is dealt with as the rule says: it is removed, unless
/// something refers to it and that counts; it is converted, unless the archive has the file
/// that would come of it; it is changed in place; or it is renamed as the pattern says,
/// where that gives another path.
pub proof fn law_matching_files_are_dealt_with(
    files: Seq<WadEntry>,
    rule: WadFixRule,
    id: Seq<char>,
    referenced: ReferencedAssets,
    i: int,
)
    requires
        0 <= i < files.len(),
        single_plan(files, rule, id, referenced) is Ok,
        file_matches(files[i].1@, files[i].2@, rule.detect) == Ok::<bool, WadError>(true),
    ensures
        ({
            let plan = single_plan(files, rule, id, referenced)->Ok_0;
            let path = files[i].1@;
            match rule.apply {
                WadTransformAction::RemoveFile { unless_referenced } => !(unless_referenced && (referenced.hashes@.contains(
                    files[i].0,
                ) || listed(referenced.paths@, normal(path)))) ==> plan.remove.contains(path),
                WadTransformAction::ConvertFormat { from_ext, to_ext, converter } => from_ext@ == to_ext@ || (forall|j: int|
                    0 <= j < files.len() ==> lowered((#[trigger] files[j]).1@) != lowered(converted_path(path, from_ext@, to_ext@)))
                    ==> plan.convert.contains((path, from_ext@, to_ext@, converter@)),
                WadTransformAction::TransformBytes { converter } => plan.change.contains((path, converter@, id, rule.name@)),
                WadTransformAction::RenameFile { pattern, replacement } => regex_replaced_first(pattern@, path, replacement@) != path
                    ==> plan.rename.contains((path, regex_replaced_first(pattern@, path, replacement@))),
                WadTransformAction::AddFiles { .. } => true,
            }
        }),
{
    lemma_scan_grows(files, files, rule, id, referenced, i);
    let p = acted((no_plan(), 0), files, files[i], action_on(files[i].1@, rule.apply)->Ok_0, id, rule.name@, referenced).0;
    assert(p.remove.len() > 0 ==> p.remove.last() == p.remove[0]);
}

/// A file that a rule does not match is not planned for removal or a new name, unless
/// another of the same path is matched.
pub proof fn law_other_files_are_left_alone(
    some: Seq<WadEntry>,
    files: Seq<WadEntry>,
    rule: WadFixRule,
    id: Seq<char>,
    referenced: ReferencedAssets,
    path: Seq<char>,
)
    requires
        scanned(some, files, rule, id, referenced) is Ok,
        forall|i: int|
            0 <= i < some.len() && (#[trigger] some[i]).1@ == path ==> file_matches(path, some[i].2@, rule.detect) != Ok::<
                bool,
                WadError,
            >(true),
    ensures
        ({
            let plan = scanned(some, files, rule, id, referenced)->Ok_0.0;
            &&& !plan.remove.contains(path)
            &&& forall|k: int| 0 <= k < plan.convert.len() ==> (#[trigger] plan.convert[k]).0 != path
            &&& forall|k: int| 0 <= k < plan.change.len() ==> (#[trigger] plan.change[k]).0 != path
            &&& forall|k: int| 0 <= k < plan.rename.len() ==> (#[trigger] plan.rename[k]).0 != path
            &&& plan.addition.len() == 0
        }),
    decreases some.len(),
{
    if some.len() > 0 {
        let head = some.drop_last();
        assert forall|i: int| 0 <= i < head.len() && (#[trigger] head[i]).1@ == path implies file_matches(
            path,
            head[i].2@,
            rule.detect,
        ) != Ok::<bool, WadError>(true) by {
            assert(head[i] == some[i]);
        }
        law_other_files_are_left_alone(head, files, rule, id, referenced, path);
        let before = scanned(head, files, rule, id, referenced)->Ok_0.0;
        let plan = scanned(some, files, rule, id, referenced)->Ok_0.0;
        assert(some[some.len() - 1] == some.last());
        lemma_push_contains(before.remove, some.last().1@, path);
    }
}

/// A rule that adds files plans for each of them, but for one that is only for archives
/// that lack it, where a file has its path in any case.
pub proof fn law_additions_are_planned(files: Seq<WadEntry>, assets: Seq<AssetInjection>, k: int)
    requires
        0 <= k < assets.len(),
        !assets[k].only_if_missing || (forall|i: int|
            0 <= i < files.len() ==> lowered((#[trigger] files[i]).1@) != lowered(assets[k].path@)),
    ensures
        additions(files, assets).contains((assets[k].asset@, assets[k].path@, assets[k].only_if_missing)),
    decreases assets.len(),
{
    let head = assets.drop_last();
    let x = (assets[k].asset@, assets[k].path@, assets[k].only_if_missing);
    let a = assets.last();
    lemma_push_contains(additions(files, head), (a.asset@, a.path@, a.only_if_missing), x);
    if k < head.len() {
        assert(head[k] == assets[k]);
        law_additions_are_planned(files, head, k);
    }
}

/// What a selected and enabled rule plans is part of the whole plan, and the whole plan
/// fails where the rule does.
pub proof fn law_selected_rules_take_part(
    files: Seq<WadEntry>,
    config: FixConfig,
    ids: Seq<Seq<char>>,
    referenced: ReferencedAssets,
    k: int,
    path: Seq<char>,
)
    requires
        0 <= k < ids.len(),
        rule_of(config.wad_fixes@, ids[k]) is Some,
        config.enabled(ids[k]),
        wad_plan(files, config, ids, referenced) is Ok,
    ensures
        ({
            let part = single_plan(files, rule_of(config.wad_fixes@, ids[k])->0, ids[k], referenced);
            let all = wad_plan(files, config, ids, referenced)->Ok_0;
            &&& part is Ok
            &&& part->Ok_0.remove.contains(path) ==> all.remove.contains(path)
            &&& forall|x: (Seq<char>, Seq<char>, Seq<char>, Seq<char>)| #[trigger]
                part->Ok_0.convert.contains(x) ==> all.convert.contains(x)
            &&& forall|x: (Seq<char>, Seq<char>, Seq<char>, Seq<char>)| #[trigger]
                part->Ok_0.change.contains(x) ==> all.change.contains(x)
            &&& forall|x: (Seq<char>, Seq<char>)| #[trigger] part->Ok_0.rename.contains(x) ==> all.rename.contains(x)
            &&& forall|x: (Seq<char>, Seq<char>, bool)| #[trigger] part->Ok_0.addition.contains(x) ==> all.addition.contains(x)
            &&& forall|x: (Seq<char>, Seq<char>, u32)| #[trigger] part->Ok_0.applied.contains(x) ==> all.applied.contains(x)
        }),
    decreases ids.len(),
{
    let head = ids.drop_last();
    let part = single_plan(files, rule_of(config.wad_fixes@, ids[k])->0, ids[k], referenced)->Ok_0;
    let all = wad_plan(files, config, ids, referenced)->Ok_0;
    let before = wad_plan(files, config, head, referenced)->Ok_0;
    if k < head.len() {
        assert(head[k] == ids[k]);
        law_selected_rules_take_part(files, config, head, referenced, k, path);
        if let Some(rule) = rule_of(config.wad_fixes@, ids.last()) {
            if config.enabled(ids.last()) {
                let last = reported(single_plan(files, rule, ids.last(), referenced)->Ok_0, config, rule, ids.last());
                lemma_then(before, last);
                lemma_sum_contains(before.remove, last.remove, path);
            }
        }
    } else {
        let rule = rule_of(config.wad_fixes@, ids[k])->0;
        let last = reported(part, config, rule, ids[k]);
        lemma_then(before, last);
        lemma_sum_contains(before.remove, last.remove, path);
    }
}

proof fn lemma_then(a: WadPlan, b: WadPlan)
    ensures
        forall|x: (Seq<char>, Seq<char>, Seq<char>, Seq<char>)| #[trigger]
            plan_then(a, b).convert.contains(x) <==> a.convert.contains(x) || b.convert.contains(x),
        forall|x: (Seq<char>, Seq<char>, Seq<char>, Seq<char>)| #[trigger]
            plan_then(a, b).change.contains(x) <==> a.change.contains(x) || b.change.contains(x),
        forall|x: (Seq<char>, Seq<char>)| #[trigger] plan_then(a, b).rename.contains(x) <==> a.rename.contains(x) || b.rename.contains(x),
        forall|x: (Seq<char>, Seq<char>, bool)| #[trigger]
            plan_then(a, b).addition.contains(x) <==> a.addition.contains(x) || b.addition.contains(x),
        forall|x: (Seq<char>, Seq<char>, u32)| #[trigger]
            plan_then(a, b).applied.contains(x) <==> a.applied.contains(x) || b.applied.contains(x),
{
    assert forall|x: (Seq<char>, Seq<char>, Seq<char>, Seq<char>)| #[trigger] plan_then(a, b).convert.contains(x) <==> a.convert.contains(
        x,
    ) || b.convert.contains(x) by {
        lemma_sum_contains(a.convert, b.convert, x);
    }
    assert forall|x: (Seq<char>, Seq<char>, Seq<char>, Seq<char>)| #[trigger] plan_then(a, b).change.contains(x) <==> a.change.contains(
        x,
    ) || b.change.contains(x) by {
        lemma_sum_contains(a.change, b.change, x);
    }
    assert forall|x: (Seq<char>, Seq<char>)| #[trigger] plan_then(a, b).rename.contains(x) <==> a.rename.contains(x)
        || b.rename.contains(x) by {
        lemma_sum_contains(a.rename, b.rename, x);
    }
    assert forall|x: (Seq<char>, Seq<char>, bool)| #[trigger] plan_then(a, b).addition.contains(x) <==> a.addition.contains(x)
        || b.addition.contains(x) by {
        lemma_sum_contains(a.addition, b.addition, x);
    }
    assert forall|x: (Seq<char>, Seq<char>, u32)| #[trigger] plan_then(a, b).applied.contains(x) <==> a.applied.contains(x)
        || b.applied.contains(x) by {
        lemma_sum_contains(a.applied, b.applied, x);
    }
}

/// Without an enabled rule nothing is planned.
pub proof fn law_disabled_rules_plan_nothing(files: Seq<WadEntry>, config: FixConfig, ids: Seq<Seq<char>>, referenced: ReferencedAssets)
    requires
        forall|k: int| 0 <= k < ids.len() ==> !config.enabled(#[trigger] ids[k]),
    ensures
        wad_plan(files, config, ids, referenced) == Ok::<WadPlan, WadError>(no_plan()),
    decreases ids.len(),
{
    if ids.len() > 0 {
        let head = ids.drop_last();
        assert forall|k: int| 0 <= k < head.len() implies !config.enabled(#[trigger] head[k]) by {
            assert(head[k] == ids[k]);
        }
        law_disabled_rules_plan_nothing(files, config, head, referenced);
        assert(!config.enabled(ids[ids.len() - 1]));
    }
}

/// A rule with a reason that did anything is reported with it, with the number of files
/// where there were several.
pub proof fn law_file_rules_are_reported(p: WadPlan, config: FixConfig, rule: WadFixRule, id: Seq<char>, i: int)
    requires
        0 <= i < p.applied.len(),
        p.applied[i].2 > 0,
        rule.reason is Some,
    ensures
        exists|k: int|
            0 <= k < reported(p, config, rule, id).found.len() && (#[trigger] reported(p, config, rule, id).found[k]).reason
                == rule.reason->0@ && reported(p, config, rule, id).found[k].fix_id == id && (p.applied[i].2 > 1 ==> reported(
                p,
                config,
                rule,
                id,
            ).found[k].detail == Some(decimal(p.applied[i].2 as nat) + " files"@)),
{
    let fs = wad_findings(config, rule.reason->0@, id, p.applied);
    lemma_wad_findings(config, rule.reason->0@, id, p.applied, i);
    let n = choose|n: int| 0 <= n < fs.len() && fs[n] == wad_finding(config, rule.reason->0@, id, p.applied[i].2);
    assert(reported(p, config, rule, id).found[p.found.len() + n] == fs[n]);
}

proof fn lemma_wad_findings(config: FixConfig, reason: Seq<char>, id: Seq<char>, applied: Seq<(Seq<char>, Seq<char>, u32)>, i: int)
    requires
        0 <= i < applied.len(),
        applied[i].2 > 0,
    ensures
        wad_findings(config, reason, id, applied).contains(wad_finding(config, reason, id, applied[i].2)),
    decreases applied.len(),
{
    let head = applied.drop_last();
    let x = wad_finding(config, reason, id, applied[i].2);
    lemma_push_contains(wad_findings(config, reason, id, head), wad_finding(config, reason, id, applied.last().2), x);
    if i < head.len() {
        assert(head[i] == applied[i]);
        lemma_wad_findings(config, reason, id, head, i);
    }
}

} // verus!
