//! The options of a run, and which rules they select.

use vstd::prelude::*;
use vstd::string::*;
use crate::repath::RepathLayout;
use crate::text::{lemma_push_contains, lemma_take_next, lemma_texts_push, texts};

verus! {

/// How much a run tells.
#[derive(Clone, Copy, Debug, PartialEq, Eq, Structural)]
pub enum Verbosity {
    Quiet,
    Normal,
    Verbose,
    Trace,
}

/// Where the repath prefix goes.
#[derive(Clone, Copy, Debug, PartialEq, Eq, Structural)]
pub enum RepathLayoutArg {
    /// `ROOT/{prefix}{first}/rest`.
    InFolder,
    /// `root/{prefix}/first/rest`.
    Nested,
}

impl RepathLayoutArg {
    /// The layout that the option names.
    pub open spec fn named(&self) -> RepathLayout {
        match *self {
            RepathLayoutArg::InFolder => RepathLayout::InFolder,
            RepathLayoutArg::Nested => RepathLayout::Nested,
        }
    }

    /// The layout that the option names.
    pub fn layout(&self) -> (r: RepathLayout)
        ensures
            r == self.named(),
    {
        match *self {
            RepathLayoutArg::InFolder => RepathLayout::InFolder,
            RepathLayoutArg::Nested => RepathLayout::Nested,
        }
    }
}

/// The options of a run.
#[derive(Debug)]
pub struct Cli {
    /// File or directory to process.
    pub input: Option<String>,
    pub output: Option<String>,
    /// Fix missing health bars.
    pub healthbar: bool,
    /// Fix white models.
    pub white_model: bool,
    /// Fix black or missing icons.
    pub black_icons: bool,
    /// Fix broken particle textures.
    pub particles: bool,
    /// Remove outdated champion data BINs.
    pub remove_champion_bins: bool,
    /// Remove incompatible audio files.
    pub remove_bnk: bool,
    /// Migrate effect shapes.
    pub vfx_shape: bool,
    /// Remove animation files.
    pub remove_anm: bool,
    /// Replace invalid shader references.
    pub fix_shaders: bool,
    /// Remove unreferenced entries.
    pub validate_entries: bool,
    /// Convert DDS textures to TEX.
    pub fix_textures: bool,
    /// Convert SCO meshes to SCB.
    pub fix_meshes: bool,
    /// Fix texture dimensions that are no whole blocks.
    pub fix_tex_dimensions: bool,
    /// Pull missing gear entries from the game.
    pub pull_gear: bool,
    /// Pull missing voice-over entries from the game.
    pub pull_cac: bool,
    /// Rewrite dead asset references.
    pub fix_refs: bool,
    /// Relocate legacy combo BINs.
    pub relocate_bins: bool,
    /// Turn migrated paths into file references.
    pub file_refs: bool,
    /// Enable all fixes.
    pub all: bool,
    /// Output for machines.
    pub json: bool,
    /// Tell what would be fixed, and change nothing.
    pub dry_run: bool,
    /// Detect and describe, and change nothing.
    pub check: bool,
    /// Tell whether the mod crashes the game, and change nothing.
    pub crashcheck: bool,
    /// Check every mod of a directory.
    pub batch: Option<String>,
    /// Workers of a batch; zero picks one per core.
    pub jobs: usize,
    /// Move the mod's assets under a prefix.
    pub repath: bool,
    pub no_repath: bool,
    pub repath_prefix: Option<String>,
    pub repath_layout: RepathLayoutArg,
    /// Add invisible placeholders for missing textures.
    pub invis_texture: bool,
    /// The game's archive of the champion.
    pub game_wad: Option<String>,
    pub small_mod: bool,
    pub all_skins: bool,
    pub verbosity: Verbosity,
    /// Run although a newer version is required.
    pub skip_version_check: bool,
    /// Tell the version status, and do nothing else.
    pub check_version: bool,
    /// Where the game is installed.
    pub game_path: Option<String>,
    /// Leave the installed game alone.
    pub no_live: bool,
    /// Restore missing animation files from the game.
    pub restore_anm: bool,
    /// Tell where the time went.
    pub timings: bool,
}

/// The ids of all rules, in the order in which they are applied. What pulls entries from
/// the game stands before what deletes unreferenced ones.
pub open spec fn all_ids() -> Seq<Seq<char>> {
    seq![
        "healthbar_fix"@,
        "staticmat_texturepath"@,
        "staticmat_samplername"@,
        "black_icons"@,
        "dds_to_tex"@,
        "resolve_dead_refs"@,
        "champion_bin_remover"@,
        "combo_bin_relocate"@,
        "bnk_remover"@,
        "anm_remover"@,
        "dds_texture_converter"@,
        "sco_mesh_converter"@,
        "fix_tex_dimensions"@,
        "vfx_shape_fix"@,
        "shader_fallback"@,
        "gear_pull"@,
        "cac_pull"@,
        "entry_validator"@,
        "file_ref_migration"@,
    ]
}

/// The ids of all rules, in the order in which they are applied.
pub fn all_fix_ids() -> (r: Vec<String>)
    ensures
        texts(r@) == all_ids(),
{
    let mut v: Vec<String> = Vec::new();
    v.push("healthbar_fix".to_owned());
    v.push("staticmat_texturepath".to_owned());
    v.push("staticmat_samplername".to_owned());
    v.push("black_icons".to_owned());
    v.push("dds_to_tex".to_owned());
    v.push("resolve_dead_refs".to_owned());
    v.push("champion_bin_remover".to_owned());
    v.push("combo_bin_relocate".to_owned());
    v.push("bnk_remover".to_owned());
    v.push("anm_remover".to_owned());
    v.push("dds_texture_converter".to_owned());
    v.push("sco_mesh_converter".to_owned());
    v.push("fix_tex_dimensions".to_owned());
    v.push("vfx_shape_fix".to_owned());
    v.push("shader_fallback".to_owned());
    v.push("gear_pull".to_owned());
    v.push("cac_pull".to_owned());
    v.push("entry_validator".to_owned());
    v.push("file_ref_migration".to_owned());
    assert(texts(v@) =~= all_ids());
    v
}

/// The flags for single rules, each with the id that it stands for, in the order in which
/// the rules are applied.
pub open spec fn flags(cli: Cli) -> Seq<(bool, Seq<char>)> {
    early_flags(cli) + late_flags(cli)
}

/// The flags of the rules that are applied first.
pub open spec fn early_flags(cli: Cli) -> Seq<(bool, Seq<char>)> {
    seq![
        (cli.healthbar, "healthbar_fix"@),
        (cli.white_model, "staticmat_texturepath"@),
        (cli.white_model, "staticmat_samplername"@),
        (cli.black_icons, "black_icons"@),
        (cli.particles, "dds_to_tex"@),
        (cli.fix_refs, "resolve_dead_refs"@),
        (cli.remove_champion_bins, "champion_bin_remover"@),
        (cli.relocate_bins, "combo_bin_relocate"@),
        (cli.remove_bnk, "bnk_remover"@),
        (cli.remove_anm, "anm_remover"@),
    ]
}

/// The flags of the rules that are applied last.
pub open spec fn late_flags(cli: Cli) -> Seq<(bool, Seq<char>)> {
    seq![
        (cli.fix_textures, "dds_texture_converter"@),
        (cli.fix_meshes, "sco_mesh_converter"@),
        (cli.fix_tex_dimensions, "fix_tex_dimensions"@),
        (cli.vfx_shape, "vfx_shape_fix"@),
        (cli.fix_shaders, "shader_fallback"@),
        (cli.pull_gear, "gear_pull"@),
        (cli.pull_cac, "cac_pull"@),
        (cli.validate_entries, "entry_validator"@),
        (cli.file_refs, "file_ref_migration"@),
    ]
}

/// The ids whose flags are set, in order.
pub open spec fn chosen(list: Seq<(bool, Seq<char>)>) -> Seq<Seq<char>>
    decreases list.len(),
{
    if list.len() == 0 {
        Seq::empty()
    } else {
        let before = chosen(list.drop_last());
        if list.last().0 {
            before.push(list.last().1)
        } else {
            before
        }
    }
}

/// The ids whose flags are set.
pub open spec fn flagged(cli: Cli) -> Seq<Seq<char>> {
    chosen(flags(cli))
}

/// The ids that a run applies: those whose flags are set, or all of them.
pub open spec fn selected(cli: Cli) -> Seq<Seq<char>> {
    if cli.all || flagged(cli).len() == 0 {
        all_ids()
    } else {
        flagged(cli)
    }
}

/// A list of flags and ids.
pub open spec fn flag_list(v: Seq<(bool, String)>) -> Seq<(bool, Seq<char>)> {
    v.map_values(|e: (bool, String)| (e.0, e.1@))
}

fn list_early_flags(cli: &Cli) -> (r: Vec<(bool, String)>)
    ensures
        flag_list(r@) == early_flags(*cli),
{
    let v: Vec<(bool, String)> = vec![
        (cli.healthbar, "healthbar_fix".to_owned()),
        (cli.white_model, "staticmat_texturepath".to_owned()),
        (cli.white_model, "staticmat_samplername".to_owned()),
        (cli.black_icons, "black_icons".to_owned()),
        (cli.particles, "dds_to_tex".to_owned()),
        (cli.fix_refs, "resolve_dead_refs".to_owned()),
        (cli.remove_champion_bins, "champion_bin_remover".to_owned()),
        (cli.relocate_bins, "combo_bin_relocate".to_owned()),
        (cli.remove_bnk, "bnk_remover".to_owned()),
        (cli.remove_anm, "anm_remover".to_owned()),
    ];
    assert(flag_list(v@) =~= early_flags(*cli));
    v
}

fn list_late_flags(cli: &Cli) -> (r: Vec<(bool, String)>)
    ensures
        flag_list(r@) == late_flags(*cli),
{
    let v: Vec<(bool, String)> = vec![
        (cli.fix_textures, "dds_texture_converter".to_owned()),
        (cli.fix_meshes, "sco_mesh_converter".to_owned()),
        (cli.fix_tex_dimensions, "fix_tex_dimensions".to_owned()),
        (cli.vfx_shape, "vfx_shape_fix".to_owned()),
        (cli.fix_shaders, "shader_fallback".to_owned()),
        (cli.pull_gear, "gear_pull".to_owned()),
        (cli.pull_cac, "cac_pull".to_owned()),
        (cli.validate_entries, "entry_validator".to_owned()),
        (cli.file_refs, "file_ref_migration".to_owned()),
    ];
    assert(flag_list(v@) =~= late_flags(*cli));
    v
}

/// Collect the ids of the rules that a run applies, in the order in which they are
/// applied. Without a flag, or with the one for all, these are all of them.
pub fn collect_selected_fixes(cli: &Cli) -> (r: Vec<String>)
    ensures
        texts(r@) == selected(*cli),
{
    let mut list = list_early_flags(cli);
    let mut more = list_late_flags(cli);
    let ghost first = list@;
    let ghost second = more@;
    list.append(&mut more);
    let ghost all = flag_list(list@);
    assert(all =~= flag_list(first) + flag_list(second));
    let mut v: Vec<String> = Vec::new();
    let mut i: usize = 0;
    assert(texts(v@) =~= chosen(all.take(0)));
    while i < list.len()
        invariant
            all == flag_list(list@),
            i <= list@.len(),
            texts(v@) == chosen(all.take(i as int)),
        decreases list@.len() - i,
    {
        proof {
            lemma_take_next(all, i as int);
        }
        if list[i].0 {
            let ghost before = v@;
            let id = list[i].1.clone();
            v.push(id);
            proof {
                lemma_texts_push(before, id);
            }
        }
        i = i + 1;
    }
    assert(all.take(i as int) =~= all);
    assert(texts(v@).len() == v@.len());
    if cli.all || v.len() == 0 {
        return all_fix_ids();
    }
    v
}

/// `x` stands before `y` in a list.
pub open spec fn stands_before(list: Seq<Seq<char>>, x: Seq<char>, y: Seq<char>) -> bool {
    exists|i: int, j: int| 0 <= i < j < list.len() && #[trigger] list[i] == x && #[trigger] list[j] == y
}

/// Where the id at place `k` of the chosen ones comes from.
spec fn source(list: Seq<(bool, Seq<char>)>, k: int) -> int
    decreases list.len(),
{
    if list.len() == 0 {
        0
    } else if k < chosen(list.drop_last()).len() {
        source(list.drop_last(), k)
    } else {
        list.len() - 1
    }
}

proof fn lemma_chosen(list: Seq<(bool, Seq<char>)>, k: int)
    requires
        0 <= k < chosen(list).len(),
    ensures
        0 <= source(list, k) < list.len(),
        list[source(list, k)].1 == chosen(list)[k],
        forall|h: int| 0 <= h < k ==> #[trigger] source(list, h) < source(list, k),
    decreases list.len(),
{
    let before = list.drop_last();
    if k < chosen(before).len() {
        lemma_chosen(before, k);
        assert(list[source(before, k)] == before[source(before, k)]);
        assert forall|h: int| 0 <= h < k implies #[trigger] source(list, h) < source(list, k) by {
            assert(source(list, h) == source(before, h));
        }
    } else {
        assert forall|h: int| 0 <= h < k implies #[trigger] source(list, h) < source(list, k) by {
            lemma_chosen(before, h);
        }
    }
}

proof fn lemma_flags_follow_the_ids(cli: Cli)
    ensures
        flags(cli).len() == all_ids().len(),
        forall|i: int| 0 <= i < all_ids().len() ==> (#[trigger] flags(cli)[i]).1 == all_ids()[i],
{
    assert(flags(cli).map_values(|f: (bool, Seq<char>)| f.1) =~= all_ids());
    assert forall|i: int| 0 <= i < all_ids().len() implies (#[trigger] flags(cli)[i]).1 == all_ids()[i] by {
        assert(flags(cli).map_values(|f: (bool, Seq<char>)| f.1)[i] == all_ids()[i]);
    }
}

/// Every id that a run applies is a known one.
pub proof fn law_selected_ids_are_known(cli: Cli, id: Seq<char>)
    requires
        selected(cli).contains(id),
    ensures
        all_ids().contains(id),
{
    if !cli.all && flagged(cli).len() > 0 {
        let k = choose|k: int| 0 <= k < selected(cli).len() && selected(cli)[k] == id;
        lemma_chosen(flags(cli), k);
        lemma_flags_follow_the_ids(cli);
        assert(all_ids()[source(flags(cli), k)] == id);
    }
}

/// Whatever is selected comes in the order in which rules are applied.
pub proof fn law_selected_ids_come_in_order(cli: Cli, a: int, b: int)
    requires
        0 <= a < b < selected(cli).len(),
    ensures
        stands_before(all_ids(), selected(cli)[a], selected(cli)[b]),
{
    if cli.all || flagged(cli).len() == 0 {
        assert(all_ids()[a] == selected(cli)[a] && all_ids()[b] == selected(cli)[b]);
    } else {
        let list = flags(cli);
        lemma_chosen(list, a);
        lemma_chosen(list, b);
        lemma_flags_follow_the_ids(cli);
        let i = source(list, a);
        let j = source(list, b);
        assert(i < j);
        assert(all_ids()[i] == selected(cli)[a] && all_ids()[j] == selected(cli)[b]);
    }
}

/// Whatever is selected, entries are pulled from the game before unreferenced ones are
/// deleted.
pub proof fn law_pulls_come_before_the_validator(cli: Cli, pull: int, validator: int)
    requires
        0 <= pull < selected(cli).len(),
        0 <= validator < selected(cli).len(),
        selected(cli)[pull] == "gear_pull"@ || selected(cli)[pull] == "cac_pull"@,
        selected(cli)[validator] == "entry_validator"@,
    ensures
        pull < validator,
{
    reveal_strlit("healthbar_fix");
    reveal_strlit("staticmat_texturepath");
    reveal_strlit("staticmat_samplername");
    reveal_strlit("black_icons");
    reveal_strlit("dds_to_tex");
    reveal_strlit("resolve_dead_refs");
    reveal_strlit("champion_bin_remover");
    reveal_strlit("combo_bin_relocate");
    reveal_strlit("bnk_remover");
    reveal_strlit("anm_remover");
    reveal_strlit("dds_texture_converter");
    reveal_strlit("sco_mesh_converter");
    reveal_strlit("fix_tex_dimensions");
    reveal_strlit("vfx_shape_fix");
    reveal_strlit("shader_fallback");
    reveal_strlit("gear_pull");
    reveal_strlit("cac_pull");
    reveal_strlit("entry_validator");
    reveal_strlit("file_ref_migration");
    let ids = all_ids();
    assert("gear_pull"@.len() == 9 && "cac_pull"@.len() == 8 && "entry_validator"@.len() == 15);
    if validator < pull {
        law_selected_ids_come_in_order(cli, validator, pull);
        let (i, j) = choose|i: int, j: int|
            0 <= i < j < ids.len() && #[trigger] ids[i] == selected(cli)[validator] && #[trigger] ids[j] == selected(
                cli,
            )[pull];
        assert(i == 17) by {
            assert(ids[i].len() == 15 && ids[i][0] == 'e');
        }
        assert(j == 18);
        assert(ids[j].len() == 18);
    }
}

proof fn lemma_flag_chosen(list: Seq<(bool, Seq<char>)>, k: int)
    requires
        0 <= k < list.len(),
    ensures
        list[k].0 ==> chosen(list).contains(list[k].1),
    decreases list.len(),
{
    let head = list.drop_last();
    let before = chosen(head);
    if k < head.len() {
        assert(head[k] == list[k]);
        lemma_flag_chosen(head, k);
    }
    lemma_push_contains(before, list.last().1, list[k].1);
}

proof fn lemma_none_chosen(list: Seq<(bool, Seq<char>)>)
    requires
        forall|k: int| 0 <= k < list.len() ==> !(#[trigger] list[k]).0,
    ensures
        chosen(list).len() == 0,
    decreases list.len(),
{
    if list.len() > 0 {
        let head = list.drop_last();
        assert(forall|k: int| 0 <= k < head.len() ==> #[trigger] head[k] == list[k]);
        lemma_none_chosen(head);
        assert(!list[list.len() - 1].0);
    }
}

/// Every switch selects its rules, whatever else is selected.
pub proof fn law_switches_select_their_rules(cli: Cli)
    ensures
        cli.healthbar ==> selected(cli).contains("healthbar_fix"@),
        cli.white_model ==> selected(cli).contains("staticmat_texturepath"@),
        cli.white_model ==> selected(cli).contains("staticmat_samplername"@),
        cli.black_icons ==> selected(cli).contains("black_icons"@),
        cli.particles ==> selected(cli).contains("dds_to_tex"@),
        cli.fix_refs ==> selected(cli).contains("resolve_dead_refs"@),
        cli.remove_champion_bins ==> selected(cli).contains("champion_bin_remover"@),
        cli.relocate_bins ==> selected(cli).contains("combo_bin_relocate"@),
        cli.remove_bnk ==> selected(cli).contains("bnk_remover"@),
        cli.remove_anm ==> selected(cli).contains("anm_remover"@),
        cli.fix_textures ==> selected(cli).contains("dds_texture_converter"@),
        cli.fix_meshes ==> selected(cli).contains("sco_mesh_converter"@),
        cli.fix_tex_dimensions ==> selected(cli).contains("fix_tex_dimensions"@),
        cli.vfx_shape ==> selected(cli).contains("vfx_shape_fix"@),
        cli.fix_shaders ==> selected(cli).contains("shader_fallback"@),
        cli.pull_gear ==> selected(cli).contains("gear_pull"@),
        cli.pull_cac ==> selected(cli).contains("cac_pull"@),
        cli.validate_entries ==> selected(cli).contains("entry_validator"@),
        cli.file_refs ==> selected(cli).contains("file_ref_migration"@),
{
    assert(flags(cli)[0] == (cli.healthbar, "healthbar_fix"@));
    assert(all_ids()[0] == "healthbar_fix"@);
    assert(flags(cli)[1] == (cli.white_model, "staticmat_texturepath"@));
    assert(all_ids()[1] == "staticmat_texturepath"@);
    assert(flags(cli)[2] == (cli.white_model, "staticmat_samplername"@));
    assert(all_ids()[2] == "staticmat_samplername"@);
    assert(flags(cli)[3] == (cli.black_icons, "black_icons"@));
    assert(all_ids()[3] == "black_icons"@);
    assert(flags(cli)[4] == (cli.particles, "dds_to_tex"@));
    assert(all_ids()[4] == "dds_to_tex"@);
    assert(flags(cli)[5] == (cli.fix_refs, "resolve_dead_refs"@));
    assert(all_ids()[5] == "resolve_dead_refs"@);
    assert(flags(cli)[6] == (cli.remove_champion_bins, "champion_bin_remover"@));
    assert(all_ids()[6] == "champion_bin_remover"@);
    assert(flags(cli)[7] == (cli.relocate_bins, "combo_bin_relocate"@));
    assert(all_ids()[7] == "combo_bin_relocate"@);
    assert(flags(cli)[8] == (cli.remove_bnk, "bnk_remover"@));
    assert(all_ids()[8] == "bnk_remover"@);
    assert(flags(cli)[9] == (cli.remove_anm, "anm_remover"@));
    assert(all_ids()[9] == "anm_remover"@);
    assert(flags(cli)[10] == (cli.fix_textures, "dds_texture_converter"@));
    assert(all_ids()[10] == "dds_texture_converter"@);
    assert(flags(cli)[11] == (cli.fix_meshes, "sco_mesh_converter"@));
    assert(all_ids()[11] == "sco_mesh_converter"@);
    assert(flags(cli)[12] == (cli.fix_tex_dimensions, "fix_tex_dimensions"@));
    assert(all_ids()[12] == "fix_tex_dimensions"@);
    assert(flags(cli)[13] == (cli.vfx_shape, "vfx_shape_fix"@));
    assert(all_ids()[13] == "vfx_shape_fix"@);
    assert(flags(cli)[14] == (cli.fix_shaders, "shader_fallback"@));
    assert(all_ids()[14] == "shader_fallback"@);
    assert(flags(cli)[15] == (cli.pull_gear, "gear_pull"@));
    assert(all_ids()[15] == "gear_pull"@);
    assert(flags(cli)[16] == (cli.pull_cac, "cac_pull"@));
    assert(all_ids()[16] == "cac_pull"@);
    assert(flags(cli)[17] == (cli.validate_entries, "entry_validator"@));
    assert(all_ids()[17] == "entry_validator"@);
    assert(flags(cli)[18] == (cli.file_refs, "file_ref_migration"@));
    assert(all_ids()[18] == "file_ref_migration"@);
    lemma_flag_chosen(flags(cli), 0);
    lemma_flag_chosen(flags(cli), 1);
    lemma_flag_chosen(flags(cli), 2);
    lemma_flag_chosen(flags(cli), 3);
    lemma_flag_chosen(flags(cli), 4);
    lemma_flag_chosen(flags(cli), 5);
    lemma_flag_chosen(flags(cli), 6);
    lemma_flag_chosen(flags(cli), 7);
    lemma_flag_chosen(flags(cli), 8);
    lemma_flag_chosen(flags(cli), 9);
    lemma_flag_chosen(flags(cli), 10);
    lemma_flag_chosen(flags(cli), 11);
    lemma_flag_chosen(flags(cli), 12);
    lemma_flag_chosen(flags(cli), 13);
    lemma_flag_chosen(flags(cli), 14);
    lemma_flag_chosen(flags(cli), 15);
    lemma_flag_chosen(flags(cli), 16);
    lemma_flag_chosen(flags(cli), 17);
    lemma_flag_chosen(flags(cli), 18);
}

/// Without a switch, as with the one for all, every rule is selected.
pub proof fn law_no_switch_selects_all(cli: Cli)
    requires
        cli.all || (!cli.healthbar && !cli.white_model && !cli.black_icons && !cli.particles && !cli.fix_refs && !cli.remove_champion_bins && !cli.relocate_bins && !cli.remove_bnk && !cli.remove_anm && !cli.fix_textures && !cli.fix_meshes && !cli.fix_tex_dimensions && !cli.vfx_shape && !cli.fix_shaders && !cli.pull_gear && !cli.pull_cac && !cli.validate_entries && !cli.file_refs),
    ensures
        selected(cli) == all_ids(),
{
    if !cli.all {
        assert forall|k: int| 0 <= k < flags(cli).len() implies !(#[trigger] flags(cli)[k]).0 by {
            if k < early_flags(cli).len() {
                assert(flags(cli)[k] == early_flags(cli)[k]);
            } else {
                assert(flags(cli)[k] == late_flags(cli)[k - early_flags(cli).len()]);
            }
        }
        lemma_none_chosen(flags(cli));
    }
}

/// With a switch, and without the one for all, a rule of another switch is not selected.
pub proof fn law_only_switched_rules_are_selected(cli: Cli, id: Seq<char>)
    requires
        !cli.all,
        flagged(cli).len() > 0,
        selected(cli).contains(id),
    ensures
        exists|k: int| 0 <= k < flags(cli).len() && (#[trigger] flags(cli)[k]).0 && flags(cli)[k].1 == id,
{
    lemma_chosen_from(flags(cli), id);
}

proof fn lemma_chosen_from(list: Seq<(bool, Seq<char>)>, id: Seq<char>)
    requires
        chosen(list).contains(id),
    ensures
        exists|k: int| 0 <= k < list.len() && (#[trigger] list[k]).0 && list[k].1 == id,
    decreases list.len(),
{
    if list.len() > 0 {
        let head = list.drop_last();
        lemma_push_contains(chosen(head), list.last().1, id);
        if chosen(head).contains(id) {
            lemma_chosen_from(head, id);
            let k = choose|k: int| 0 <= k < head.len() && (#[trigger] head[k]).0 && head[k].1 == id;
            assert(list[k] == head[k]);
        } else {
            assert(list[list.len() - 1] == list.last());
        }
    }
}

} // verus!
