//! What a run does with a mod: with one BIN file, or with all files of an archive.

pub mod bins;
pub mod changes;
pub mod fantome;
pub mod linked;
pub mod missing;
pub mod moving;

use vstd::prelude::*;
use vstd::string::*;
use crate::archive::{bins_of, copy_bins, entries, list_paths, path_at, paths_of, Entry, WadEntry};
use crate::assets::AssetRegistry;
use crate::bin::{bin, Bin};
use crate::config::FixPhase;
use crate::diagnostic::{findings, Finding, Reason};
use crate::hashing::path_hash;
use crate::process::bins::{bin_items, bins_done, fix_bins, fresh, progressed, trailed, BinItem, Progress, Session};
use crate::process::changes::{
    added_all, additions_of, apply_additions, apply_conversions, apply_in_place, apply_renames, conversions, converted_all, in_place,
    law_additions_keep_files, law_conversions_keep_paths, law_named_files_are_converted, rename_at, renamed_all, renames_of, Converters,
};
use crate::process::linked::{bins, copy_linked_only, followed, linked_only, read_bins, read_linked};
use crate::process::missing::{all_refs, extract_missing_from_game_wad, pulled, unshipped};
use crate::process::moving::{indexes, repath_archive, repath_done, RepathOutcome};
use crate::repath::{RepathOptions, WadIndex};
use crate::result::{fix_names, sum, CheckInfo, ProcessResult};
use crate::seeds::{champions_of, discover_seeds, discovered, law_discovered_in_order, seed_of, seeds, sorted_champions};
use crate::sorting::{lemma_less_total, texts_ascend};
use crate::skinlite::copy_strings;
use crate::text::{
    distinct, ends, ends_with, last_at, last_position, lemma_last_position, lemma_take_next, lowered, rfind_char, same, slice, texts, to_lower,
};
use crate::traits::{BinProvider, GameProvider, HashProvider, WadProvider};
use crate::wad_pipeline::detect::WadError;
use crate::wad_pipeline::{apply_wad_fixes, wad_plan, ReferencedAssets, WadFixResult, WadPlan};
use crate::walk::{add_count, capped};

verus! {

/// What kind of input a file is.
#[derive(Clone, Copy, Debug, PartialEq, Eq, Structural)]
pub enum FileKind {
    Bin,
    Wad,
    /// A `.fantome` or `.zip` archive of archives.
    Fantome,
}

/// The extension of a file name: what follows its last dot, unless the name begins with
/// that dot or has none.
pub open spec fn extension_of(name: Seq<char>) -> Seq<char> {
    match last_position(name, '.') {
        Some(i) => if i > 0 { name.skip(i + 1) } else { Seq::empty() },
        None => Seq::empty(),
    }
}

/// What kind of input a file of this name is, if it is one.
pub open spec fn kind_of(name: Seq<char>) -> Option<FileKind> {
    let ext = lowered(extension_of(name));
    if ext == "bin"@ {
        Some(FileKind::Bin)
    } else if ends(lowered(name), ".wad.client"@) {
        Some(FileKind::Wad)
    } else if ext == "fantome"@ || ext == "zip"@ {
        Some(FileKind::Fantome)
    } else {
        None
    }
}

/// What kind of input a file of this name is, if it is one.
pub fn file_kind(name: &str) -> (r: Option<FileKind>)
    ensures
        r == kind_of(name@),
{
    let n = name.unicode_len();
    let ext = match rfind_char(name, '.') {
        Some(i) => if i > 0 { slice(name, i + 1, n) } else { String::new() },
        None => String::new(),
    };
    assert(ext@ =~= extension_of(name@));
    let ext = to_lower(ext.as_str());
    let lower = to_lower(name);
    if same(ext.as_str(), "bin") {
        Some(FileKind::Bin)
    } else if ends_with(lower.as_str(), ".wad.client") {
        Some(FileKind::Wad)
    } else if same(ext.as_str(), "fantome") || same(ext.as_str(), "zip") {
        Some(FileKind::Fantome)
    } else {
        None
    }
}

/// Check if a file of this name is a supported input.
pub fn is_supported_file(name: &str) -> (r: bool)
    ensures
        r == (kind_of(name@) is Some),
{
    file_kind(name).is_some()
}

/// Why a BIN file could not be processed.
#[derive(Debug)]
pub enum ProcessError {
    /// The bytes are no BIN file.
    Unreadable,
    /// The repaired BIN file cannot be written.
    Unwritable,
}

/// What a run on one BIN file comes to.
#[derive(Debug)]
pub struct BinOutcome {
    pub result: ProcessResult,
    /// The repaired file, where there is anything to write.
    pub bytes: Option<Vec<u8>>,
}

/// A result with what check mode tells of it: nothing of a champion, since a BIN file on
/// its own stands in no archive.
pub open spec fn checked_bin(before: ProcessResult, after: ProcessResult, check: bool) -> bool {
    &&& after.files_processed == before.files_processed
    &&& after.fixes_applied == before.fixes_applied
    &&& after.fixes_failed == before.fixes_failed
    &&& after.files_removed == before.files_removed
    &&& after.errors == before.errors
    &&& after.applied_fixes == before.applied_fixes
    &&& after.report == before.report
    &&& if check {
        after.check_info matches Some(info) && info.champion is None && info.skin_number is None && info.is_binless
            && texts(info.detected_issues@) == fix_names(before.applied_fixes@)
    } else {
        after.check_info == before.check_info
    }
}

/// A run on one BIN file: the standard rules run on it, and it is written where any
/// repaired something.
pub open spec fn bin_file_done<H: HashProvider, W: WadProvider, G: GameProvider, P: BinProvider>(
    s: Session<H, W, G, P>,
    path: Seq<char>,
    b: Bin,
    check: bool,
    r: Result<BinOutcome, ProcessError>,
) -> bool {
    exists|before: crate::context::FixContext<H, W, G>, after: crate::context::FixContext<H, W, G>, own: ProcessResult|
        {
            &&& #[trigger] fresh(s, before, path, 0, b, Seq::empty())
            &&& #[trigger] crate::pipeline::phase_done(
                *s.config,
                texts(s.selected_fixes@),
                FixPhase::Standard,
                s.dry_run,
                before,
                after,
                own,
            )
            &&& if !s.dry_run && own.fixes_applied > 0 {
                match s.provider.written(bin(after.tree)) {
                    Some(bytes) => r matches Ok(o) && checked_bin(own, o.result, check) && crate::deep_repair::chunk_bytes(
                        o.bytes,
                    ) == Some(bytes),
                    None => r == Err::<BinOutcome, ProcessError>(ProcessError::Unwritable),
                }
            } else {
                r matches Ok(o) && checked_bin(own, o.result, check) && o.bytes is None
            }
        }
}

/// Process the bytes of a BIN file on its own.
///
/// The session's archive is that of a file without one: see [`crate::traits::NullWad`].
pub fn process_bin_file<H: HashProvider, W: WadProvider, G: GameProvider, P: BinProvider>(
    s: &Session<H, W, G, P>,
    path: &str,
    data: &[u8],
    check: bool,
) -> (r: Result<BinOutcome, ProcessError>)
    ensures
        s.provider.parsed(data@) is None ==> r == Err::<BinOutcome, ProcessError>(ProcessError::Unreadable),
        s.provider.parsed(data@) matches Some(b) ==> bin_file_done(*s, path@, b, check, r),
{
    let tree = match s.provider.parse_bytes(data) {
        Ok(t) => t,
        Err(_) => {
            return Err(ProcessError::Unreadable);
        },
    };
    let ghost b = bin(tree);
    let mut ctx: crate::context::FixContext<H, W, G> = crate::context::FixContext {
        tree,
        hashes: s.hashes,
        wad: s.wad,
        champions: s.champions,
        file_path: path.to_owned(),
        files_to_remove: Vec::new(),
        linked_trees: Vec::new(),
        valid_shaders: s.valid_shaders,
        game: s.game,
        additional_bins: Vec::new(),
        scope: crate::context::BinScope {
            chunk_hash: 0,
            reachable: s.reachable,
            animation_bins: s.animation_bins,
        },
        renames: Vec::new(),
    };
    let ghost before = ctx;
    proof {
        assert(bins(before.linked_trees@) =~= Seq::empty());
        assert(fresh(*s, before, path@, 0, b, Seq::empty()));
    }
    let own = crate::pipeline::apply_fixes(&mut ctx, s.config, s.selected_fixes, s.dry_run);
    let ghost after = ctx;
    let ghost own_result = own;
    let mut result = own;
    if check {
        let detected = result.detected_issues();
        result.check_info = Some(
            CheckInfo { champion: None, skin_number: None, is_binless: true, detected_issues: detected },
        );
    }
    assert(checked_bin(own_result, result, check));
    if !s.dry_run && result.fixes_applied > 0 {
        match s.provider.write_bytes(&ctx.tree) {
            Ok(bytes) => {
                let r = Ok(BinOutcome { result, bytes: Some(bytes) });
                assert(bin_file_done(*s, path@, b, check, r));
                r
            },
            Err(_) => {
                let r = Err(ProcessError::Unwritable);
                assert(bin_file_done(*s, path@, b, check, r));
                r
            },
        }
    } else {
        let r = Ok(BinOutcome { result, bytes: None });
        assert(bin_file_done(*s, path@, b, check, r));
        r
    }
}

/// The number of files that archive rules affected.
pub open spec fn affected(applied: Seq<(Seq<char>, Seq<char>, u32)>) -> u32
    decreases applied.len(),
{
    if applied.len() == 0 {
        0
    } else {
        sum(affected(applied.drop_last()), applied.last().2)
    }
}

fn count_affected(applied: &Vec<WadFixResult>) -> (r: u32)
    ensures
        r == affected(applied@.map_values(|a: WadFixResult| (a.fix_id@, a.fix_name@, a.files_affected))),
{
    let ghost all = applied@.map_values(|a: WadFixResult| (a.fix_id@, a.fix_name@, a.files_affected));
    let mut n: u32 = 0;
    let mut i: usize = 0;
    while i < applied.len()
        invariant
            all == applied@.map_values(|a: WadFixResult| (a.fix_id@, a.fix_name@, a.files_affected)),
            i <= applied@.len(),
            n == affected(all.take(i as int)),
        decreases applied@.len() - i,
    {
        proof {
            lemma_take_next(all, i as int);
        }
        n = add_count(n, applied[i].files_affected);
        i = i + 1;
    }
    assert(all.take(i as int) =~= all);
    n
}

/// The files of an archive after its plan is carried out, and the number of changes.
pub open spec fn carried_out<C: Converters>(
    es: Seq<Entry>,
    plan: WadPlan,
    converters: C,
    assets: Seq<(Seq<char>, Seq<u8>)>,
) -> (Seq<Entry>, u32) {
    let a = converted_all(es, plan.convert.map_values(|c: (Seq<char>, Seq<char>, Seq<char>, Seq<char>)| (c.0, c.3)), converters, false);
    let b = converted_all(a.0, plan.change.map_values(|c: (Seq<char>, Seq<char>, Seq<char>, Seq<char>)| (c.0, c.1)), converters, true);
    let c = added_all(renamed_all(b.0, plan.rename, plan.remove), plan.addition, assets);
    (c.0, sum(sum(sum(affected(plan.applied), capped(a.1)), capped(b.1)), capped(c.1)))
}

/// A run that has done nothing but some repairs, and found this.
pub open spec fn only_repairs(r: ProcessResult, n: u32, found: Seq<Finding>, catalog: Seq<(Seq<char>, Reason)>) -> bool {
    &&& r.files_processed == 0
    &&& r.fixes_applied == n
    &&& r.fixes_failed == 0
    &&& r.files_removed == 0
    &&& r.errors@.len() == 0
    &&& r.applied_fixes@.len() == 0
    &&& findings(r.report.diagnostics@) == found
    &&& r.report.skipped@.len() == 0
    &&& r.report.ran@.len() == 0
    &&& r.report.reasons@ == catalog
    &&& r.check_info is None
}

/// The standard rules have run on some BIN files of an archive whose plan is carried out.
pub open spec fn fixed<H: HashProvider, W: WadProvider, G: GameProvider, P: BinProvider>(
    s: Session<H, W, G, P>,
    chunks: Seq<Entry>,
    start: Progress,
    end: Progress,
) -> bool {
    let table = followed(start.files, read_bins(chunks, *s.provider), *s.provider);
    bins_done(
        s,
        FixPhase::Standard,
        bin_items(chunks, table),
        linked_only(table, paths_of(chunks)),
        start,
        end,
    )
}

/// The files of a mod with those of the game that they refer to and do not ship, where
/// the game's files are given.
pub open spec fn completed<P: BinProvider>(es: Seq<Entry>, skip_vo: bool, game: Option<Seq<Entry>>, provider: P) -> Seq<Entry> {
    match game {
        Some(g) => es + pulled(unshipped(distinct(all_refs(es, provider, skip_vo)), es), g),
        None => es,
    }
}

/// The repath stage, where there is one: files of the game are added first, where they
/// are given. The flag tells whether anything was repathed.
pub open spec fn repath_stage<P: BinProvider>(
    opts: Option<RepathOptions>,
    dry_run: bool,
    game: Option<Seq<Entry>>,
    provider: P,
    es: Seq<Entry>,
    out: Seq<Entry>,
    moved: bool,
) -> bool {
    match opts {
        Some(o) => if dry_run {
            out == es && !moved
        } else {
            exists|index: WadIndex, r: RepathOutcome|
                {
                    &&& #[trigger] indexes(index, completed(es, o.skip_vo, game, provider))
                    &&& #[trigger] repath_done(o, index, completed(es, o.skip_vo, game, provider), out, provider, r)
                    &&& moved == (r.strings > 0 || r.renamed > 0)
                }
        },
        None => out == es && !moved,
    }
}

/// What check mode tells of a mod: the champion and skin of its first skin BIN, and the
/// names of the rules that fired.
pub open spec fn mod_info(info: CheckInfo, paths: Seq<Seq<char>>, names: Seq<Seq<char>>) -> bool {
    let found = discovered(paths);
    &&& texts(info.detected_issues@) == names
    &&& info.is_binless == (found.len() == 0)
    &&& if found.len() == 0 {
        info.champion is None && info.skin_number is None
    } else {
        info.champion matches Some(c) && c@ == found[0].champion && info.skin_number == Some(found[0].skin_no)
    }
}

/// What check mode tells of a mod.
pub fn describe_mod(files: &Vec<WadEntry>, result: &ProcessResult) -> (r: CheckInfo)
    ensures
        mod_info(r, paths_of(entries(files@)), fix_names(result.applied_fixes@)),
{
    let paths = list_paths(files);
    let found = discover_seeds(&paths);
    let detected_issues = result.detected_issues();
    assert(seeds(found@).len() == found@.len());
    if found.len() == 0 {
        CheckInfo { champion: None, skin_number: None, is_binless: true, detected_issues }
    } else {
        assert(seeds(found@)[0] == found@[0]@);
        CheckInfo {
            champion: Some(found[0].champion.clone()),
            skin_number: Some(found[0].skin_no),
            is_binless: false,
            detected_issues,
        }
    }
}

/// The characters that an archive has skins of, where there is more than one: a champion
/// and the forms that it takes or summons. In ascending order.
pub fn subchampion_forms(files: &Vec<WadEntry>) -> (r: Vec<String>)
    ensures
        texts_ascend(texts(r@)),
        r@.len() != 1,
        ({
            let champs = champions_of(discovered(paths_of(entries(files@))));
            if exists|a: Seq<char>, b: Seq<char>| a != b && #[trigger] champs.contains(a) && #[trigger] champs.contains(b) {
                forall|c: Seq<char>| #[trigger] texts(r@).contains(c) <==> champs.contains(c)
            } else {
                r@.len() == 0
            }
        }),
{
    let found = discover_seeds(&list_paths(files));
    let names = sorted_champions(&found);
    let ghost champs = champions_of(discovered(paths_of(entries(files@))));
    let ghost ns = texts(names@);
    assert(ns.len() == names@.len());
    if names.len() > 1 {
        proof {
            assert(ns[0] != ns[1]) by {
                lemma_less_total(ns[0], ns[1]);
            }
            assert(ns.contains(ns[0]) && ns.contains(ns[1]));
            assert(champs.contains(ns[0]) && champs.contains(ns[1]));
        }
        names
    } else {
        proof {
            if exists|a: Seq<char>, b: Seq<char>| a != b && champs.contains(a) && champs.contains(b) {
                let (a, b) = choose|a: Seq<char>, b: Seq<char>| a != b && champs.contains(a) && champs.contains(b);
                assert(ns.contains(a) && ns.contains(b));
            }
        }
        Vec::new()
    }
}

/// The result of a run from what the rules did: one repair more where anything was
/// repathed, the number of files to remove, and what check mode tells.
pub open spec fn rounded(
    a: ProcessResult,
    r: ProcessResult,
    moved: bool,
    removed: nat,
    check: bool,
    out: Seq<Entry>,
) -> bool {
    &&& r.files_processed == a.files_processed
    &&& r.fixes_applied == (if moved { sum(a.fixes_applied, 1) } else { a.fixes_applied })
    &&& r.fixes_failed == a.fixes_failed
    &&& r.files_removed == removed as u32
    &&& r.errors == a.errors
    &&& r.applied_fixes == a.applied_fixes
    &&& r.report == a.report
    &&& if check {
        r.check_info matches Some(info) && mod_info(info, paths_of(out), fix_names(a.applied_fixes@))
    } else {
        r.check_info == a.check_info
    }
}

/// A run on an archive: the plan of the archive rules is carried out and what they found
/// is reported, the standard rules run on its BIN files under their new paths, and its
/// assets are repathed.
pub open spec fn archive_done<H: HashProvider, W: WadProvider, G: GameProvider, P: BinProvider, C: Converters>(
    s: Session<H, W, G, P>,
    plan: WadPlan,
    opts: Option<RepathOptions>,
    check: bool,
    game: Option<Seq<Entry>>,
    assets: Seq<(Seq<char>, Seq<u8>)>,
    converters: C,
    es: Seq<Entry>,
    out: Seq<Entry>,
    removed: Seq<Seq<char>>,
    r: ProcessResult,
) -> bool {
    let prepared = carried_out(es, plan, converters, assets);
    exists|start: Progress, end: Progress, moved: bool|
        {
            &&& start.files == prepared.0
            &&& start.removed == plan.remove
            &&& only_repairs(start.result, prepared.1, plan.found, s.config.reasons@)
            &&& #[trigger] fixed(s, renamed_all(bins_of(es), plan.rename, plan.remove), start, end)
            &&& end.removed == removed
            &&& #[trigger] repath_stage(opts, s.dry_run, game, *s.provider, end.files, out, moved)
            &&& rounded(end.result, r, moved, removed.len(), check, out)
        }
}

/// What a run on an archive comes to.
#[derive(Debug)]
pub struct ArchiveOutcome {
    pub result: ProcessResult,
    /// Paths of files that are to go.
    pub removals: Vec<String>,
}

/// Process the files of an archive: archive rules, BIN rules and repathing, in this
/// order, so that the rules see the original paths.
///
/// `game_files` are the files of the game's archive of the champion, where the run is to
/// take missing files from it. An error comes from a faulty archive rule, before
/// anything is changed.
pub fn process_wad_file<H: HashProvider, W: WadProvider, G: GameProvider, P: BinProvider, C: Converters>(
    s: &Session<H, W, G, P>,
    all_files: &mut Vec<WadEntry>,
    referenced: &ReferencedAssets,
    repath_opts: Option<&RepathOptions>,
    check: bool,
    game_files: Option<&Vec<WadEntry>>,
    assets: &AssetRegistry,
    converters: &C,
) -> (r: Result<ArchiveOutcome, WadError>)
    ensures
        ({
            let w = wad_plan(old(all_files)@, *s.config, texts(s.selected_fixes@), *referenced);
            match w {
                Err(e) => r == Err::<ArchiveOutcome, WadError>(e) && *final(all_files) == *old(all_files),
                Ok(plan) => r matches Ok(o) && archive_done(
                    *s,
                    plan,
                    match repath_opts {
                        Some(o) => Some(*o),
                        None => None,
                    },
                    check,
                    match game_files {
                        Some(g) => Some(entries(g@)),
                        None => None,
                    },
                    assets@,
                    *converters,
                    entries(old(all_files)@),
                    entries(final(all_files)@),
                    texts(o.removals@),
                    o.result,
                ),
            }
        }),
{
    let ghost es = entries(all_files@);
    let ghost opts = match repath_opts {
        Some(o) => Some(*o),
        None => None,
    };
    let ghost game = match game_files {
        Some(g) => Some(entries(g@)),
        None => None,
    };
    let mut chunks = copy_bins(all_files);
    let plan = match apply_wad_fixes(all_files, s.config, s.selected_fixes, referenced) {
        Ok(p) => p,
        Err(e) => {
            return Err(e);
        },
    };
    let ghost p = plan@;
    proof {
        assert(conversions(plan.files_to_convert@) =~= p.convert.map_values(
            |c: (Seq<char>, Seq<char>, Seq<char>, Seq<char>)| (c.0, c.3),
        ));
        assert(in_place(plan.files_to_transform@) =~= p.change.map_values(
            |c: (Seq<char>, Seq<char>, Seq<char>, Seq<char>)| (c.0, c.1),
        ));
        assert(additions_of(plan.files_to_add@) =~= p.addition);
        assert(renames_of(plan.files_to_rename@) =~= p.rename);
    }
    let mut result = ProcessResult::new();
    result.fixes_applied = count_affected(&plan.applied_fixes);
    let converted = apply_conversions(all_files, &plan.files_to_convert, converters);
    result.fixes_applied = add_count(result.fixes_applied, converted);
    let changed = apply_in_place(all_files, &plan.files_to_transform, converters);
    result.fixes_applied = add_count(result.fixes_applied, changed);
    apply_renames(all_files, &plan.files_to_rename, &plan.files_to_remove);
    apply_renames(&mut chunks, &plan.files_to_rename, &plan.files_to_remove);
    let added = apply_additions(all_files, &plan.files_to_add, assets);
    result.fixes_applied = add_count(result.fixes_applied, added);
    let mut removals = copy_strings(&plan.files_to_remove);
    result.report.diagnostics = plan.diagnostics;
    result.report.attach_catalog(&s.config.reasons);
    let ghost start = Progress { files: entries(all_files@), removed: texts(removals@), result };
    assert(start.files == carried_out(es, p, *converters, assets@).0);
    assert(only_repairs(start.result, carried_out(es, p, *converters, assets@).1, p.found, s.config.reasons@));
    let table = read_linked(all_files, &chunks, s.provider);
    let linked = copy_linked_only(&table, &chunks);
    fix_bins(s, FixPhase::Standard, &chunks, &table, &linked, all_files, &mut removals, &mut result);
    let ghost end = Progress { files: entries(all_files@), removed: texts(removals@), result };
    assert(fixed(*s, renamed_all(bins_of(es), p.rename, p.remove), start, end));
    let ghost ended = result;
    let mut moved = false;
    if let Some(o) = repath_opts {
        if !s.dry_run {
            if let Some(g) = game_files {
                let _n = extract_missing_from_game_wad(all_files, g, s.provider, o.skip_vo);
            }
            let ghost all = entries(all_files@);
            assert(all == completed(end.files, o.skip_vo, game, *s.provider));
            let done = repath_archive(all_files, o, s.provider);
            proof {
                let index = choose|index: WadIndex| #[trigger]
                    indexes(index, all) && repath_done(*o, index, all, entries(all_files@), *s.provider, done);
                assert(indexes(index, all));
                assert(repath_done(*o, index, all, entries(all_files@), *s.provider, done));
            }
            if done.strings > 0 || done.renamed > 0 {
                moved = true;
            }
        }
    }
    assert(repath_stage(opts, s.dry_run, game, *s.provider, end.files, entries(all_files@), moved));
    if moved {
        result.fixes_applied = add_count(result.fixes_applied, 1);
    }
    assert(texts(removals@).len() == removals@.len());
    result.files_removed = removals.len() as u32;
    if check {
        result.check_info = Some(describe_mod(all_files, &result));
    }
    assert(rounded(ended, result, moved, texts(removals@).len(), check, entries(all_files@)));
    Ok(ArchiveOutcome { result, removals })
}

proof fn lemma_findings_stay<H: HashProvider, W: WadProvider, G: GameProvider, P: BinProvider>(
    s: Session<H, W, G, P>,
    phase: FixPhase,
    items: Seq<BinItem>,
    shelf: Seq<(Seq<char>, Bin)>,
    trail: Seq<Progress>,
    k: int,
)
    requires
        trailed(s, phase, items, shelf, trail),
        0 <= k <= items.len(),
    ensures
        findings(trail[0].result.report.diagnostics@).is_prefix_of(findings(trail[k].result.report.diagnostics@)),
    decreases k,
{
    if k > 0 {
        lemma_findings_stay(s, phase, items, shelf, trail, k - 1);
        assert(progressed(s, phase, items[k - 1], shelf, trail[k - 1], trail[k - 1 + 1]));
    }
}

/// What the archive rules find is reported, whether the archive holds a BIN or not: it
/// opens the report of the run.
pub proof fn law_archive_findings_are_reported<
    H: HashProvider,
    W: WadProvider,
    G: GameProvider,
    P: BinProvider,
    C: Converters,
>(
    s: Session<H, W, G, P>,
    plan: WadPlan,
    opts: Option<RepathOptions>,
    check: bool,
    game: Option<Seq<Entry>>,
    assets: Seq<(Seq<char>, Seq<u8>)>,
    converters: C,
    es: Seq<Entry>,
    out: Seq<Entry>,
    removed: Seq<Seq<char>>,
    r: ProcessResult,
)
    requires
        archive_done(s, plan, opts, check, game, assets, converters, es, out, removed, r),
    ensures
        plan.found.is_prefix_of(findings(r.report.diagnostics@)),
{
    let chunks = renamed_all(bins_of(es), plan.rename, plan.remove);
    let (start, end, moved) = choose|start: Progress, end: Progress, moved: bool|
        {
            &&& start.files == carried_out(es, plan, converters, assets).0
            &&& start.removed == plan.remove
            &&& only_repairs(start.result, carried_out(es, plan, converters, assets).1, plan.found, s.config.reasons@)
            &&& #[trigger] fixed(s, chunks, start, end)
            &&& end.removed == removed
            &&& #[trigger] repath_stage(opts, s.dry_run, game, *s.provider, end.files, out, moved)
            &&& rounded(end.result, r, moved, removed.len(), check, out)
        };
    let table = followed(start.files, read_bins(chunks, *s.provider), *s.provider);
    let items = bin_items(chunks, table);
    let shelf = linked_only(table, paths_of(chunks));
    let trail = choose|trail: Seq<Progress>| #[trigger]
        trailed(s, FixPhase::Standard, items, shelf, trail) && trail[0] == start && trail[items.len() as int] == end;
    lemma_findings_stay(s, FixPhase::Standard, items, shelf, trail, items.len() as int);
}

/// Whether an archive is to be rebuilt: something was repaired or is to go, and this is no
/// dry run.
pub fn needs_rebuild(dry_run: bool, fixes_applied: u32, removals: &Vec<String>) -> (r: bool)
    ensures
        r == (!dry_run && (fixes_applied > 0 || removals@.len() > 0)),
{
    !dry_run && (fixes_applied > 0 || removals.len() > 0)
}

/// The rules of the later phase have run on the BIN files of an archive.
pub open spec fn late_done<H: HashProvider, W: WadProvider, G: GameProvider, P: BinProvider>(
    s: Session<H, W, G, P>,
    start: Progress,
    end: Progress,
) -> bool {
    let chunks = bins_of(start.files);
    let table = followed(start.files, read_bins(chunks, *s.provider), *s.provider);
    bins_done(
        s,
        FixPhase::PostRepath,
        bin_items(chunks, table),
        linked_only(table, paths_of(chunks)),
        start,
        end,
    )
}

/// Run the rules of the later phase on the BIN files of an archive, once its assets are
/// repathed.
pub fn fix_late<H: HashProvider, W: WadProvider, G: GameProvider, P: BinProvider>(
    s: &Session<H, W, G, P>,
    all_files: &mut Vec<WadEntry>,
    removals: &mut Vec<String>,
    result: &mut ProcessResult,
)
    ensures
        late_done(
            *s,
            (Progress { files: entries(old(all_files)@), removed: texts(old(removals)@), result: *old(result) }),
            (Progress { files: entries(final(all_files)@), removed: texts(final(removals)@), result: *final(result) }),
        ),
        s.dry_run ==> entries(final(all_files)@) == entries(old(all_files)@),
{
    let chunks = copy_bins(all_files);
    let table = read_linked(all_files, &chunks, s.provider);
    let linked = copy_linked_only(&table, &chunks);
    fix_bins(s, FixPhase::PostRepath, &chunks, &table, &linked, all_files, removals, result);
}

/// Every kind of input is supported, and nothing else.
pub proof fn law_supported_files_have_a_kind(name: Seq<char>)
    ensures
        kind_of(name) is Some <==> (lowered(extension_of(name)) == "bin"@ || lowered(extension_of(name)) == "fantome"@
            || lowered(extension_of(name)) == "zip"@ || ends(lowered(name), ".wad.client"@)),
{
}

/// Carrying out a plan leaves a file that it does not name as it is, gives one that it
/// renames and does not remove its new path with the same bytes, and keeps all files in
/// their places.
pub proof fn law_plans_are_carried_out<C: Converters>(
    es: Seq<Entry>,
    plan: WadPlan,
    converters: C,
    assets: Seq<(Seq<char>, Seq<u8>)>,
    i: int,
    k: int,
)
    requires
        0 <= i < es.len(),
        forall|j: int| 0 <= j < plan.convert.len() ==> (#[trigger] plan.convert[j]).0 != es[i].path,
        forall|j: int| 0 <= j < plan.change.len() ==> (#[trigger] plan.change[j]).0 != es[i].path,
    ensures
        carried_out(es, plan, converters, assets).0.len() >= es.len(),
        (forall|j: int| 0 <= j < plan.rename.len() ==> (#[trigger] plan.rename[j]).0 != es[i].path) ==> carried_out(
            es,
            plan,
            converters,
            assets,
        ).0[i] == es[i],
        rename_at(plan.rename, es[i].path, k) && !plan.remove.contains(es[i].path) ==> carried_out(es, plan, converters, assets).0[i] == (
        Entry { hash: path_hash(plan.rename[k].1), path: plan.rename[k].1, bytes: es[i].bytes }),
{
    let list = plan.convert.map_values(|c: (Seq<char>, Seq<char>, Seq<char>, Seq<char>)| (c.0, c.3));
    let more = plan.change.map_values(|c: (Seq<char>, Seq<char>, Seq<char>, Seq<char>)| (c.0, c.1));
    let a = converted_all(es, list, converters, false).0;
    law_conversions_keep_paths(es, list, converters, false);
    assert forall|j: int| 0 <= j < list.len() implies (#[trigger] list[j]).0 != es[i].path by {
        assert(plan.convert[j].0 == list[j].0);
    }
    law_named_files_are_converted(es, list, converters, false, i, 0);
    assert(a[i] == es[i]);
    assert forall|j: int| 0 <= j < more.len() implies (#[trigger] more[j]).0 != a[i].path by {
        assert(plan.change[j].0 == more[j].0);
    }
    law_conversions_keep_paths(a, more, converters, true);
    law_named_files_are_converted(a, more, converters, true, i, 0);
    let b = converted_all(a, more, converters, true).0;
    assert(b[i] == es[i]);
    let c = renamed_all(b, plan.rename, plan.remove);
    law_additions_keep_files(c, plan.addition, assets);
    let out = added_all(c, plan.addition, assets).0;
    assert(out.take(c.len() as int)[i] == out[i]);
    if rename_at(plan.rename, es[i].path, k) {
        let m = choose|m: int| rename_at(plan.rename, es[i].path, m);
        assert(plan.rename[m].0 == plan.rename[k].0);
        assert(m == k);
    }
}

/// A file that the plan converts once and does nothing else with, the first of its path, has
/// the converted bytes in its place.
pub proof fn law_planned_conversions_are_made<C: Converters>(
    es: Seq<Entry>,
    plan: WadPlan,
    converters: C,
    assets: Seq<(Seq<char>, Seq<u8>)>,
    i: int,
    k: int,
    bytes: Seq<u8>,
)
    requires
        path_at(es, es[i].path, i),
        0 <= k < plan.convert.len(),
        plan.convert[k].0 == es[i].path,
        forall|j: int| 0 <= j < plan.convert.len() && j != k ==> (#[trigger] plan.convert[j]).0 != es[i].path,
        forall|j: int| 0 <= j < plan.change.len() ==> (#[trigger] plan.change[j]).0 != es[i].path,
        forall|j: int| 0 <= j < plan.rename.len() ==> (#[trigger] plan.rename[j]).0 != es[i].path,
        converters.converted(plan.convert[k].3, es[i].bytes) == Some(bytes),
    ensures
        carried_out(es, plan, converters, assets).0.len() >= es.len(),
        carried_out(es, plan, converters, assets).0[i] == (Entry { hash: es[i].hash, path: es[i].path, bytes }),
{
    let list = plan.convert.map_values(|c: (Seq<char>, Seq<char>, Seq<char>, Seq<char>)| (c.0, c.3));
    let more = plan.change.map_values(|c: (Seq<char>, Seq<char>, Seq<char>, Seq<char>)| (c.0, c.1));
    let a = converted_all(es, list, converters, false).0;
    law_conversions_keep_paths(es, list, converters, false);
    assert forall|j: int| 0 <= j < list.len() && j != k implies (#[trigger] list[j]).0 != es[i].path by {
        assert(plan.convert[j].0 == list[j].0);
    }
    assert(list[k] == (plan.convert[k].0, plan.convert[k].3));
    law_named_files_are_converted(es, list, converters, false, i, k);
    assert forall|j: int| 0 <= j < more.len() implies (#[trigger] more[j]).0 != a[i].path by {
        assert(plan.change[j].0 == more[j].0);
    }
    law_conversions_keep_paths(a, more, converters, true);
    law_named_files_are_converted(a, more, converters, true, i, 0);
    let b = converted_all(a, more, converters, true).0;
    assert(b[i] == a[i]);
    let c = renamed_all(b, plan.rename, plan.remove);
    law_additions_keep_files(c, plan.addition, assets);
    let out = added_all(c, plan.addition, assets).0;
    assert(out.take(c.len() as int)[i] == out[i]);
}

/// A mod is described by its first skin: the champion's folder and the skin's number. One
/// without a skin is told as such.
pub proof fn law_mods_are_described_by_their_first_skin(
    info: CheckInfo,
    paths: Seq<Seq<char>>,
    names: Seq<Seq<char>>,
    i: int,
)
    requires
        mod_info(info, paths, names),
    ensures
        (forall|j: int| 0 <= j < paths.len() ==> seed_of(#[trigger] paths[j]) is None) ==> info.is_binless && info.champion is None
            && info.skin_number is None,
        0 <= i < paths.len() && seed_of(paths[i]) is Some && (forall|j: int|
            0 <= j < i ==> seed_of(#[trigger] paths[j]) is None) ==> !info.is_binless && info.champion is Some && info.champion->0@
            == seed_of(paths[i])->0.champion && info.skin_number == Some(seed_of(paths[i])->0.skin_no),
{
    if forall|j: int| 0 <= j < paths.len() ==> seed_of(#[trigger] paths[j]) is None {
        lemma_no_seeds(paths);
    }
    if 0 <= i < paths.len() && seed_of(paths[i]) is Some && (forall|j: int| 0 <= j < i ==> seed_of(#[trigger] paths[j]) is None) {
        let some = paths.take(i + 1);
        assert(some.drop_last() =~= paths.take(i));
        assert(forall|j: int| 0 <= j < i ==> #[trigger] paths.take(i)[j] == paths[j]);
        lemma_no_seeds(paths.take(i));
        assert(some.last() == paths[i]);
        assert(discovered(some) =~= seq![seed_of(paths[i])->0]);
        law_discovered_in_order(paths, i + 1);
        let all = discovered(paths);
        assert(all.subrange(0, 1)[0] == all[0]);
    }
}

proof fn lemma_no_seeds(paths: Seq<Seq<char>>)
    requires
        forall|j: int| 0 <= j < paths.len() ==> seed_of(#[trigger] paths[j]) is None,
    ensures
        discovered(paths).len() == 0,
    decreases paths.len(),
{
    if paths.len() > 0 {
        let head = paths.drop_last();
        assert(forall|j: int| 0 <= j < head.len() ==> #[trigger] head[j] == paths[j]);
        lemma_no_seeds(head);
        assert(seed_of(paths[paths.len() - 1]) is None);
    }
}

/// A file is a BIN by its extension, an archive by its double extension, and an archive of
/// archives by either of two extensions, in any case.
pub proof fn law_kinds_go_by_extension(stem: Seq<char>, ext: Seq<char>)
    requires
        stem.len() > 0,
        !ext.contains('.'),
    ensures
        lowered(ext) == "bin"@ ==> kind_of(stem + seq!['.'] + ext) == Some(FileKind::Bin),
        ends(lowered(stem + seq!['.'] + ext), ".wad.client"@) && lowered(ext) != "bin"@ ==> kind_of(stem + seq!['.'] + ext) == Some(
            FileKind::Wad,
        ),
        (lowered(ext) == "fantome"@ || lowered(ext) == "zip"@) && lowered(ext) != "bin"@ && !ends(
            lowered(stem + seq!['.'] + ext),
            ".wad.client"@,
        ) ==> kind_of(stem + seq!['.'] + ext) == Some(FileKind::Fantome),
{
    let name = stem + seq!['.'] + ext;
    let n = stem.len() as int;
    assert forall|j: int| n < j < name.len() implies name[j] != '.' by {
        assert(ext.contains(ext[j - n - 1]));
    }
    assert(last_at(name, '.', n));
    lemma_last_position(name, '.', n);
    assert(name.skip(n + 1) =~= ext);
}

} // verus!
