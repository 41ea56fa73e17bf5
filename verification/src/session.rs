//! What a run decides before and after its work: how it was started, whether it may run,
//! which rules it applies, whether and how it repaths, and what it tells in the end.

use vstd::prelude::*;
use vstd::string::*;
use crate::args::{collect_selected_fixes, selected, Cli, Verbosity};
use crate::assets::{asset_bytes, AssetRegistry};
use crate::config::RepathConfig;
use crate::diagnostic::{copy_opt, opt_text};
use crate::repath::{derived_prefix, RepathOptions};
use crate::result::ProcessResult;
use crate::skinlite::copy_strings;
use crate::text::{
    begins, chars, find_digits, first_digits, is_listed, lemma_listed, lemma_push_contains, lemma_take_next, lemma_texts_push, number, parse_number, same, slice,
    starts_with, texts,
};
use crate::ui::Mode;
use crate::version_check::{is_blocked, is_current, stops, VersionStatus};

verus! {

/// How the program was started.
#[derive(Debug)]
pub enum EntryMode {
    /// Without arguments: show the menu.
    Interactive,
    /// With one existing path: fix it.
    DragDrop(String),
    /// With options.
    Flagged,
}

/// How the program was started, by its arguments. The first is the program itself.
pub open spec fn entry_mode_is(raw: Seq<String>, only_exists: bool, mode: EntryMode) -> bool {
    if raw.len() <= 1 {
        mode is Interactive
    } else if raw.len() == 2 && !begins(raw[1]@, "-"@) && only_exists {
        mode matches EntryMode::DragDrop(p) && p@ == raw[1]@
    } else {
        mode is Flagged
    }
}

/// How the program was started. `only_exists` tells whether the only argument is the path
/// of something that exists.
pub fn detect_entry_mode(raw: &Vec<String>, only_exists: bool) -> (r: EntryMode)
    ensures
        entry_mode_is(raw@, only_exists, r),
{
    if raw.len() <= 1 {
        return EntryMode::Interactive;
    }
    if raw.len() == 2 && !starts_with(raw[1].as_str(), "-") && only_exists {
        return EntryMode::DragDrop(raw[1].clone());
    }
    EntryMode::Flagged
}

/// Whether the program waits for a key before its window closes: unless a machine reads
/// its output, or that was switched off.
pub fn needs_pause(raw: &Vec<String>) -> (r: bool)
    ensures
        r == (!texts(raw@).contains("--json"@) && !texts(raw@).contains("--no-pause"@)),
{
    proof {
        lemma_listed(raw@, "--json"@);
        lemma_listed(raw@, "--no-pause"@);
    }
    !is_listed(raw, "--json") && !is_listed(raw, "--no-pause")
}

/// How much a run tells. A batch tells one line per mod, so it is quiet unless more was
/// asked for.
pub fn effective_verbosity(cli: &Cli) -> (r: Verbosity)
    ensures
        r == (if cli.batch is Some && cli.verbosity == Verbosity::Normal { Verbosity::Quiet } else { cli.verbosity }),
{
    if cli.batch.is_some() && cli.verbosity == Verbosity::Normal {
        Verbosity::Quiet
    } else {
        cli.verbosity
    }
}

/// What a run does after the version check.
#[derive(Clone, Copy, Debug, PartialEq, Eq, Structural)]
pub enum Gate {
    /// Tell the version status and end; the flag says that there is nothing to update.
    ShowVersion { up_to_date: bool },
    /// The program is too old.
    Refuse,
    /// Check every mod of a directory.
    Batch,
    /// There is nothing to process.
    MissingInput,
    /// Process the input.
    Run,
}

/// What a run does after the version check.
pub open spec fn gate_of(cli: Cli, status: VersionStatus) -> Gate {
    if cli.check_version {
        Gate::ShowVersion { up_to_date: status is UpToDate || status is Unknown }
    } else if stops(status, cli.skip_version_check) {
        Gate::Refuse
    } else if cli.batch is Some {
        Gate::Batch
    } else if cli.input is None {
        Gate::MissingInput
    } else {
        Gate::Run
    }
}

/// What a run does after the version check.
pub fn pass_gate(cli: &Cli, status: &VersionStatus) -> (r: Gate)
    ensures
        r == gate_of(*cli, *status),
{
    if cli.check_version {
        return Gate::ShowVersion { up_to_date: is_current(status) };
    }
    if is_blocked(status, cli.skip_version_check) {
        return Gate::Refuse;
    }
    if cli.batch.is_some() {
        return Gate::Batch;
    }
    if cli.input.is_none() {
        return Gate::MissingInput;
    }
    Gate::Run
}

/// An ASCII letter.
pub open spec fn is_letter(c: char) -> bool {
    ('a' <= c && c <= 'z') || ('A' <= c && c <= 'Z')
}

/// A text from its first letter on.
pub open spec fn from_letter(s: Seq<char>) -> Seq<char>
    decreases s.len(),
{
    if s.len() == 0 || is_letter(s[0]) {
        s
    } else {
        from_letter(s.skip(1))
    }
}

/// The letters at the start of a text.
pub open spec fn letters(s: Seq<char>) -> Seq<char>
    decreases s.len(),
{
    if s.len() > 0 && is_letter(s[0]) {
        seq![s[0]] + letters(s.skip(1))
    } else {
        Seq::empty()
    }
}

/// A text behind the letters at its start.
pub open spec fn behind_letters(s: Seq<char>) -> Seq<char>
    decreases s.len(),
{
    if s.len() > 0 && is_letter(s[0]) {
        behind_letters(s.skip(1))
    } else {
        s
    }
}

/// The prefix for a file of this name: from its first run of letters, and the first run
/// of digits behind it.
pub open spec fn prefix_for(stem: Seq<char>) -> Seq<char> {
    let rest = from_letter(stem);
    let digits = first_digits(behind_letters(rest));
    derived_prefix(
        letters(rest),
        match number(digits, 10, u32::MAX as nat) {
            Some(n) => n as u32,
            None => 0,
        },
    )
}

/// The prefix for a file of this name without its extension: the first run of letters is
/// taken as the champion, and the first run of digits behind it as the skin.
pub fn derive_prefix_from_input(stem: &str) -> (r: String)
    ensures
        r@ == prefix_for(stem@),
{
    let v = chars(stem);
    let n = v.len();
    let ghost s = stem@;
    let mut a: usize = 0;
    assert(s.skip(0) =~= s);
    while a < n && !(('a' <= v[a] && v[a] <= 'z') || ('A' <= v[a] && v[a] <= 'Z'))
        invariant
            v@ == s,
            n == v@.len(),
            a <= n,
            from_letter(s) == from_letter(s.skip(a as int)),
        decreases n - a,
    {
        assert(s.skip(a as int).skip(1) =~= s.skip(a + 1));
        a = a + 1;
    }
    let ghost rest = s.skip(a as int);
    assert(from_letter(s) == rest);
    let mut b: usize = a;
    assert(s.subrange(a as int, a as int) + letters(s.skip(b as int)) =~= letters(rest));
    while b < n && (('a' <= v[b] && v[b] <= 'z') || ('A' <= v[b] && v[b] <= 'Z'))
        invariant
            v@ == s,
            n == v@.len(),
            a <= b <= n,
            rest == s.skip(a as int),
            s.subrange(a as int, b as int) + letters(s.skip(b as int)) == letters(rest),
            behind_letters(rest) == behind_letters(s.skip(b as int)),
        decreases n - b,
    {
        proof {
            assert(s.skip(b as int).skip(1) =~= s.skip(b + 1));
            assert(s.subrange(a as int, b as int) + (seq![s[b as int]] + letters(s.skip(b + 1))) =~= s.subrange(
                a as int,
                b + 1,
            ) + letters(s.skip(b + 1)));
        }
        b = b + 1;
    }
    let champion = slice(stem, a, b);
    let tail = slice(stem, b, n);
    proof {
        assert(letters(s.skip(b as int)) =~= Seq::empty());
        assert(champion@ =~= letters(rest));
        assert(tail@ =~= s.skip(b as int));
        assert(behind_letters(rest) == tail@);
    }
    let digits = find_digits(tail.as_str());
    let skin: u32 = match parse_number(digits.as_str(), 10, u32::MAX as u64) {
        Some(k) => k as u32,
        None => 0,
    };
    RepathOptions::derive_prefix(champion.as_str(), skin)
}

/// A configured prefix that stands for none.
pub open spec fn is_placeholder(p: Seq<char>) -> bool {
    p.len() == 0 || p == "bum"@ || p == "hematite"@
}

/// The repath prefix of a run: the option, or else the configured one, or else that of
/// the input's name.
pub open spec fn prefix_of(cli: Cli, config: RepathConfig, stem: Seq<char>) -> Seq<char> {
    match cli.repath_prefix {
        Some(p) => p@,
        None => if is_placeholder(config.prefix@) {
            prefix_for(stem)
        } else {
            config.prefix@
        },
    }
}

/// The repath options of a run; `None` where it does not repath.
pub open spec fn repath_options_are(cli: Cli, config: RepathConfig, stem: Seq<char>, opts: Option<RepathOptions>) -> bool {
    if !cli.no_repath && (cli.repath || config.enabled) {
        &&& opts is Some
        &&& opts->0.prefix@ == prefix_of(cli, config, stem)
        &&& opts->0.layout == cli.repath_layout.named()
        &&& opts->0.invis_texture == (cli.invis_texture || config.invis_texture)
        &&& opts->0.skip_vo == config.skip_vo
        &&& opt_text(opts->0.game_wad) == opt_text(cli.game_wad)
        &&& texts(opts->0.placeholder_rules@) == texts(config.placeholder_rules@)
    } else {
        opts is None
    }
}

/// The repath options of a run on an input of this name. Options of the run win over the
/// configuration.
pub fn repath_options(cli: &Cli, config: &RepathConfig, stem: &str) -> (r: Option<RepathOptions>)
    ensures
        repath_options_are(*cli, *config, stem@, r),
{
    if cli.no_repath || !(cli.repath || config.enabled) {
        return None;
    }
    let prefix = match &cli.repath_prefix {
        Some(p) => p.clone(),
        None => {
            let p = config.prefix.as_str();
            if p.is_empty() || same(p, "bum") || same(p, "hematite") {
                derive_prefix_from_input(stem)
            } else {
                p.to_owned()
            }
        },
    };
    let mut opts = RepathOptions::new(prefix.as_str());
    opts.layout = cli.repath_layout.layout();
    opts.invis_texture = cli.invis_texture || config.invis_texture;
    opts.skip_vo = config.skip_vo;
    opts.game_wad = copy_opt(&cli.game_wad);
    opts.placeholder_rules = copy_strings(&config.placeholder_rules);
    Some(opts)
}

/// What a run tells in the end.
#[derive(Clone, Copy, Debug, PartialEq, Eq, Structural)]
pub enum Output {
    /// Whether the mod crashes.
    CrashReport,
    CheckJson,
    CheckSummary,
    SessionJson,
    SessionSummary,
}

/// What a run does.
#[derive(Debug)]
pub struct SessionPlan {
    pub selected_fixes: Vec<String>,
    /// Restore missing animation files.
    pub restore_anm: bool,
    pub ui_mode: Mode,
    /// Show what is about to be done.
    pub show_banner: bool,
    /// Change nothing.
    pub dry_run: bool,
    pub check: bool,
    pub repath: Option<RepathOptions>,
    pub relocate_combo_bins: bool,
    pub output: Output,
}

/// The texts without one.
pub open spec fn without(ss: Seq<Seq<char>>, x: Seq<char>) -> Seq<Seq<char>>
    decreases ss.len(),
{
    if ss.len() == 0 {
        Seq::empty()
    } else {
        let before = without(ss.drop_last(), x);
        if ss.last() == x {
            before
        } else {
            before.push(ss.last())
        }
    }
}

/// Missing animation files are restored: where that was asked for, and not their removal.
pub open spec fn restores(cli: Cli) -> bool {
    cli.restore_anm && !cli.remove_anm
}

/// The rules that a run applies: what restores animation files does not remove them.
pub open spec fn applied_ids(cli: Cli) -> Seq<Seq<char>> {
    if restores(cli) {
        without(selected(cli), "anm_remover"@)
    } else {
        selected(cli)
    }
}

/// What a run tells in the end.
pub open spec fn output_of(cli: Cli) -> Output {
    if cli.crashcheck {
        Output::CrashReport
    } else if cli.check {
        if cli.json {
            Output::CheckJson
        } else {
            Output::CheckSummary
        }
    } else if cli.json {
        Output::SessionJson
    } else {
        Output::SessionSummary
    }
}

/// The plan is that of a run with these options.
pub open spec fn plan_is(cli: Cli, config: RepathConfig, stem: Seq<char>, p: SessionPlan) -> bool {
    &&& texts(p.selected_fixes@) == applied_ids(cli)
    &&& p.restore_anm == restores(cli)
    &&& p.ui_mode == (if !cli.json && cli.verbosity == Verbosity::Normal { Mode::Live } else { Mode::Silent })
    &&& p.show_banner == (!cli.json && cli.verbosity != Verbosity::Normal)
    &&& p.dry_run == (cli.dry_run || cli.check || cli.crashcheck)
    &&& p.check == (cli.check || cli.crashcheck)
    &&& repath_options_are(cli, config, stem, p.repath)
    &&& p.relocate_combo_bins == applied_ids(cli).contains("combo_bin_relocate"@)
    &&& p.output == output_of(cli)
}

fn drop_text(v: &Vec<String>, x: &str) -> (r: Vec<String>)
    ensures
        texts(r@) == without(texts(v@), x@),
{
    let ghost all = texts(v@);
    let mut out: Vec<String> = Vec::new();
    let mut i: usize = 0;
    assert(texts(out@) =~= without(all.take(0), x@));
    while i < v.len()
        invariant
            all == texts(v@),
            i <= v@.len(),
            texts(out@) == without(all.take(i as int), x@),
        decreases v@.len() - i,
    {
        proof {
            lemma_take_next(all, i as int);
        }
        if !same(v[i].as_str(), x) {
            let ghost before = out@;
            let s = v[i].clone();
            out.push(s);
            proof {
                lemma_texts_push(before, s);
            }
        }
        i = i + 1;
    }
    assert(all.take(i as int) =~= all);
    out
}

/// Plan a run with these options on an input of this name.
pub fn plan_session(cli: &Cli, config: &RepathConfig, stem: &str) -> (r: SessionPlan)
    ensures
        plan_is(*cli, *config, stem@, r),
{
    let mut selected_fixes = collect_selected_fixes(cli);
    let restore_anm = cli.restore_anm && !cli.remove_anm;
    if restore_anm {
        selected_fixes = drop_text(&selected_fixes, "anm_remover");
    }
    let ui_mode = Mode::from_args(&cli.verbosity, cli.json);
    let show_banner = !cli.json && ui_mode == Mode::Silent;
    let repath = repath_options(cli, config, stem);
    proof {
        lemma_listed(selected_fixes@, "combo_bin_relocate"@);
    }
    let relocate_combo_bins = is_listed(&selected_fixes, "combo_bin_relocate");
    let output = if cli.crashcheck {
        Output::CrashReport
    } else if cli.check {
        if cli.json {
            Output::CheckJson
        } else {
            Output::CheckSummary
        }
    } else if cli.json {
        Output::SessionJson
    } else {
        Output::SessionSummary
    };
    SessionPlan {
        selected_fixes,
        restore_anm,
        ui_mode,
        show_banner,
        dry_run: cli.dry_run || cli.check || cli.crashcheck,
        check: cli.check || cli.crashcheck,
        repath,
        relocate_combo_bins,
        output,
    }
}

/// How a run ends: with the number of its errors, where there are any.
pub fn finish(result: &ProcessResult) -> (r: Result<(), usize>)
    ensures
        r is Ok <==> result.errors@.len() == 0,
        r matches Err(n) ==> n == result.errors@.len(),
{
    if result.errors.len() == 0 {
        Ok(())
    } else {
        Err(result.errors.len())
    }
}

/// The fallback textures that a program registers at its start.
pub struct FallbackAssets {
    pub colorwhiteplaceholder_dds: Vec<u8>,
    pub colorwhiteplaceholder_tex: Vec<u8>,
    pub outlinetonemap_dds: Vec<u8>,
    pub outlinetonemap_tex: Vec<u8>,
    pub toonshading_dds: Vec<u8>,
    pub toonshading_tex: Vec<u8>,
}

/// The names under which the fallback textures are registered.
pub open spec fn fallback_names() -> Seq<Seq<char>> {
    seq![
        "colorwhiteplaceholder_dds"@,
        "colorwhiteplaceholder_tex"@,
        "outlinetonemap_dds"@,
        "outlinetonemap_tex"@,
        "toonshading_dds"@,
        "toonshading_tex"@,
    ]
}

/// Register the fallback textures. Whatever else is registered stays.
pub fn register_deep_repair_assets(registry: &mut AssetRegistry, assets: FallbackAssets)
    ensures
        asset_bytes(final(registry)@, "colorwhiteplaceholder_dds"@) == Some(assets.colorwhiteplaceholder_dds@),
        asset_bytes(final(registry)@, "colorwhiteplaceholder_tex"@) == Some(assets.colorwhiteplaceholder_tex@),
        asset_bytes(final(registry)@, "outlinetonemap_dds"@) == Some(assets.outlinetonemap_dds@),
        asset_bytes(final(registry)@, "outlinetonemap_tex"@) == Some(assets.outlinetonemap_tex@),
        asset_bytes(final(registry)@, "toonshading_dds"@) == Some(assets.toonshading_dds@),
        asset_bytes(final(registry)@, "toonshading_tex"@) == Some(assets.toonshading_tex@),
        forall|other: Seq<char>|
            !fallback_names().contains(other) ==> #[trigger] asset_bytes(final(registry)@, other) == asset_bytes(
                old(registry)@,
                other,
            ),
{
    proof {
        reveal_strlit("colorwhiteplaceholder_dds");
        reveal_strlit("colorwhiteplaceholder_tex");
        reveal_strlit("outlinetonemap_dds");
        reveal_strlit("outlinetonemap_tex");
        reveal_strlit("toonshading_dds");
        reveal_strlit("toonshading_tex");
        assert("colorwhiteplaceholder_dds"@[22] != "colorwhiteplaceholder_tex"@[22]);
        assert("outlinetonemap_dds"@[15] != "outlinetonemap_tex"@[15]);
        assert("toonshading_dds"@[12] != "toonshading_tex"@[12]);
    }
    registry.register("colorwhiteplaceholder_dds", assets.colorwhiteplaceholder_dds);
    registry.register("colorwhiteplaceholder_tex", assets.colorwhiteplaceholder_tex);
    registry.register("outlinetonemap_dds", assets.outlinetonemap_dds);
    registry.register("outlinetonemap_tex", assets.outlinetonemap_tex);
    registry.register("toonshading_dds", assets.toonshading_dds);
    registry.register("toonshading_tex", assets.toonshading_tex);
    proof {
        let names = fallback_names();
        assert forall|other: Seq<char>| !names.contains(other) implies #[trigger] asset_bytes(registry@, other)
            == asset_bytes(old(registry)@, other) by {
            assert(names[0] != other && names[1] != other && names[2] != other && names[3] != other && names[4] != other
                && names[5] != other);
        }
    }
}

/// A run that only checks changes nothing.
pub proof fn law_checks_never_write(cli: Cli, config: RepathConfig, stem: Seq<char>, p: SessionPlan)
    requires
        plan_is(cli, config, stem, p),
        cli.check || cli.crashcheck,
    ensures
        p.dry_run,
        p.check,
{
}

/// What restores animation files does not remove them, and asking for both removes them.
pub proof fn law_removal_wins_over_restoring(cli: Cli, config: RepathConfig, stem: Seq<char>, p: SessionPlan)
    requires
        plan_is(cli, config, stem, p),
    ensures
        p.restore_anm ==> !texts(p.selected_fixes@).contains("anm_remover"@),
        cli.remove_anm ==> !p.restore_anm,
{
    if p.restore_anm {
        lemma_without(selected(cli), "anm_remover"@);
    }
}

proof fn lemma_without(ss: Seq<Seq<char>>, x: Seq<char>)
    ensures
        !without(ss, x).contains(x),
    decreases ss.len(),
{
    if ss.len() > 0 {
        lemma_without(ss.drop_last(), x);
        let before = without(ss.drop_last(), x);
        let now = without(ss, x);
        if now.contains(x) {
            let i = choose|i: int| 0 <= i < now.len() && now[i] == x;
            if i < before.len() {
                assert(before[i] == x);
            }
        }
    }
}

/// A version that is too old is refused, unless the check is skipped; one that is not goes
/// on to the batch that was asked for, or to the input, and without either to neither.
pub proof fn law_gate_lets_current_versions_through(cli: Cli, status: VersionStatus)
    requires
        !cli.check_version,
    ensures
        status is Outdated && !cli.skip_version_check <==> gate_of(cli, status) is Refuse,
        !(status is Outdated) || cli.skip_version_check ==> (cli.batch is Some <==> gate_of(cli, status) is Batch) && (cli.batch is None
            && cli.input is Some <==> gate_of(cli, status) is Run) && (cli.batch is None && cli.input is None <==> gate_of(
            cli,
            status,
        ) is MissingInput),
{
}

/// Paths are moved where that was asked for or configured and not forbidden; a prefix that
/// was given wins over the configured one, and that over the one made from the file's name,
/// unless it is a placeholder.
pub proof fn law_given_prefix_wins(cli: Cli, config: RepathConfig, stem: Seq<char>, opts: Option<RepathOptions>)
    requires
        repath_options_are(cli, config, stem, opts),
    ensures
        cli.no_repath ==> opts is None,
        !cli.no_repath && (cli.repath || config.enabled) <==> opts is Some,
        opts is Some && cli.repath_prefix is Some ==> opts->0.prefix@ == cli.repath_prefix->0@,
        opts is Some && cli.repath_prefix is None && config.prefix@.len() > 0 && config.prefix@ != "bum"@ && config.prefix@ != "hematite"@
            ==> opts->0.prefix@ == config.prefix@,
        opts is Some && (cli.invis_texture || config.invis_texture) ==> opts->0.invis_texture,
        opts is Some ==> opts->0.skip_vo == config.skip_vo,
{
}

/// What is left out is the one id, and nothing else.
pub proof fn law_only_one_id_is_left_out(ss: Seq<Seq<char>>, x: Seq<char>, y: Seq<char>)
    ensures
        without(ss, x).contains(y) <==> ss.contains(y) && y != x,
    decreases ss.len(),
{
    if ss.len() > 0 {
        let head = ss.drop_last();
        law_only_one_id_is_left_out(head, x, y);
        assert(head.push(ss.last()) =~= ss);
        lemma_push_contains(head, ss.last(), y);
        lemma_push_contains(without(head, x), ss.last(), y);
    }
}

/// A session applies the selected rules, all of them but the remover of animations where
/// those are restored; it writes unless that was ruled out, and speaks JSON where asked to.
pub proof fn law_sessions_follow_the_flags(cli: Cli, config: RepathConfig, stem: Seq<char>, p: SessionPlan, id: Seq<char>)
    requires
        plan_is(cli, config, stem, p),
    ensures
        id != "anm_remover"@ ==> (texts(p.selected_fixes@).contains(id) <==> selected(cli).contains(id)),
        !cli.restore_anm || cli.remove_anm ==> texts(p.selected_fixes@) == selected(cli),
        cli.restore_anm && !cli.remove_anm <==> p.restore_anm,
        !cli.dry_run && !cli.check && !cli.crashcheck ==> !p.dry_run && !p.check,
        cli.dry_run ==> p.dry_run,
        p.relocate_combo_bins <==> selected(cli).contains("combo_bin_relocate"@),
        cli.crashcheck <==> p.output is CrashReport,
        cli.json && !cli.check && !cli.crashcheck <==> p.output is SessionJson,
        cli.json && cli.check && !cli.crashcheck <==> p.output is CheckJson,
{
    reveal_strlit("anm_remover");
    reveal_strlit("combo_bin_relocate");
    law_only_one_id_is_left_out(selected(cli), "anm_remover"@, id);
    law_only_one_id_is_left_out(selected(cli), "anm_remover"@, "combo_bin_relocate"@);
    assert("anm_remover"@.len() != "combo_bin_relocate"@.len());
}

/// The letters of a name and the number behind them make the prefix, whatever stands before
/// the first letter.
pub proof fn law_prefix_ignores_leading_marks(junk: Seq<char>, stem: Seq<char>)
    requires
        forall|i: int| 0 <= i < junk.len() ==> !is_letter(#[trigger] junk[i]),
    ensures
        prefix_for(junk + stem) == prefix_for(stem),
    decreases junk.len(),
{
    if junk.len() > 0 {
        let rest = junk.skip(1);
        assert forall|i: int| 0 <= i < rest.len() implies !is_letter(#[trigger] rest[i]) by {
            assert(rest[i] == junk[i + 1]);
        }
        law_prefix_ignores_leading_marks(rest, stem);
        assert((junk + stem).skip(1) =~= rest + stem);
        assert(!is_letter(junk[0]));
        assert((junk + stem)[0] == junk[0]);
    } else {
        assert(junk + stem =~= stem);
    }
}

proof fn lemma_letters(a: Seq<char>, rest: Seq<char>)
    requires
        forall|i: int| 0 <= i < a.len() ==> is_letter(#[trigger] a[i]),
        rest.len() > 0 ==> !is_letter(rest[0]),
    ensures
        letters(a + rest) == a,
        behind_letters(a + rest) == rest,
    decreases a.len(),
{
    let s = a + rest;
    if a.len() > 0 {
        let tail = a.skip(1);
        assert forall|i: int| 0 <= i < tail.len() implies is_letter(#[trigger] tail[i]) by {
            assert(tail[i] == a[i + 1]);
        }
        lemma_letters(tail, rest);
        assert(s.skip(1) =~= tail + rest);
        assert(is_letter(a[0]) && s[0] == a[0]);
        assert(seq![a[0]] + tail =~= a);
    } else {
        assert(s =~= rest);
        assert(letters(s) =~= a);
    }
}

/// The prefix for a file is that of the letters its name begins with and of the first number
/// behind them, or of zero where there is none.
pub proof fn law_prefix_follows_the_name(name: Seq<char>, rest: Seq<char>)
    requires
        name.len() > 0,
        forall|i: int| 0 <= i < name.len() ==> is_letter(#[trigger] name[i]),
        rest.len() > 0 ==> !is_letter(rest[0]),
    ensures
        number(first_digits(rest), 10, u32::MAX as nat) matches Some(n) ==> prefix_for(name + rest) == derived_prefix(name, n as u32),
        number(first_digits(rest), 10, u32::MAX as nat) is None ==> prefix_for(name + rest) == derived_prefix(name, 0),
{
    lemma_letters(name, rest);
    assert(is_letter(name[0]));
    assert((name + rest)[0] == name[0]);
}

} // verus!
