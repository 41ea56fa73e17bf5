//! The menu that is shown without arguments: what an answer means, and which options the
//! choices stand for.

use vstd::prelude::*;
use vstd::string::*;
use crate::args::{Cli, RepathLayoutArg, Verbosity};
use crate::text::{lowered, number, parse_number, same, slice, to_lower, trim, trimmed};

verus! {

/// A choice of the menu.
#[derive(Clone, Copy, Debug, PartialEq, Eq, Structural)]
pub enum Action {
    FixAll,
    Check,
    FixOnlyNoRepath,
    UpdateCheck,
    Quit,
}

/// What an answer to the menu means.
#[derive(Clone, Copy, Debug, PartialEq, Eq, Structural)]
pub enum MenuAnswer {
    /// Nothing was typed: ask again.
    Empty,
    Choice(Action),
    /// No choice: say so, and ask again.
    Invalid,
}

/// The choice at a place of the menu, counted from one.
pub open spec fn action_at(n: nat) -> Action {
    if n == 1 {
        Action::FixAll
    } else if n == 2 {
        Action::Check
    } else if n == 3 {
        Action::FixOnlyNoRepath
    } else if n == 4 {
        Action::UpdateCheck
    } else {
        Action::Quit
    }
}

/// What an answer to the menu means: a number of the menu, or a word for quitting.
pub open spec fn menu_answer(raw: Seq<char>) -> MenuAnswer {
    let t = trimmed(raw);
    let lower = lowered(t);
    if t.len() == 0 {
        MenuAnswer::Empty
    } else if lower == "q"@ || lower == "quit"@ || lower == "exit"@ {
        MenuAnswer::Choice(Action::Quit)
    } else {
        match number(t, 10, 5) {
            Some(n) => if n >= 1 {
                MenuAnswer::Choice(action_at(n))
            } else {
                MenuAnswer::Invalid
            },
            None => MenuAnswer::Invalid,
        }
    }
}

/// Read an answer to the menu.
pub fn parse_action(raw: &str) -> (r: MenuAnswer)
    ensures
        r == menu_answer(raw@),
{
    let t = trim(raw);
    let s = t.as_str();
    if s.is_empty() {
        return MenuAnswer::Empty;
    }
    let lower = to_lower(s);
    if same(lower.as_str(), "q") || same(lower.as_str(), "quit") || same(lower.as_str(), "exit") {
        return MenuAnswer::Choice(Action::Quit);
    }
    match parse_number(s, 10, 5) {
        Some(n) => {
            if n == 0 {
                MenuAnswer::Invalid
            } else if n == 1 {
                MenuAnswer::Choice(Action::FixAll)
            } else if n == 2 {
                MenuAnswer::Choice(Action::Check)
            } else if n == 3 {
                MenuAnswer::Choice(Action::FixOnlyNoRepath)
            } else if n == 4 {
                MenuAnswer::Choice(Action::UpdateCheck)
            } else {
                MenuAnswer::Choice(Action::Quit)
            }
        },
        None => MenuAnswer::Invalid,
    }
}

/// What an answer to a yes-or-no question means; `None` where it is neither.
pub open spec fn yes_no(raw: Seq<char>, default_yes: bool) -> Option<bool> {
    let t = lowered(trimmed(raw));
    if t.len() == 0 {
        Some(default_yes)
    } else if t == "y"@ || t == "yes"@ {
        Some(true)
    } else if t == "n"@ || t == "no"@ {
        Some(false)
    } else {
        None
    }
}

/// Read an answer to a yes-or-no question.
pub fn parse_yes_no(raw: &str, default_yes: bool) -> (r: Option<bool>)
    ensures
        r == yes_no(raw@, default_yes),
{
    let t = trim(raw);
    let lower = to_lower(t.as_str());
    let s = lower.as_str();
    if s.is_empty() {
        Some(default_yes)
    } else if same(s, "y") || same(s, "yes") {
        Some(true)
    } else if same(s, "n") || same(s, "no") {
        Some(false)
    } else {
        None
    }
}

/// A line without the line ends behind it.
pub open spec fn without_line_end(s: Seq<char>) -> Seq<char>
    decreases s.len(),
{
    if s.len() > 0 && (s.last() == '\n' || s.last() == '\r') {
        without_line_end(s.drop_last())
    } else {
        s
    }
}

/// A line without the line ends behind it.
pub fn strip_line_end(s: &str) -> (r: String)
    ensures
        r@ == without_line_end(s@),
{
    let n = s.unicode_len();
    let mut k: usize = n;
    assert(s@.subrange(0, n as int) =~= s@);
    while k > 0 && (s.get_char(k - 1) == '\n' || s.get_char(k - 1) == '\r')
        invariant
            n == s@.len(),
            k <= n,
            without_line_end(s@) == without_line_end(s@.subrange(0, k as int)),
        decreases k,
    {
        assert(s@.subrange(0, k as int).drop_last() =~= s@.subrange(0, k - 1));
        k = k - 1;
    }
    slice(s, 0, k)
}

/// The text is wrapped in a pair of quotes.
pub open spec fn is_quoted(s: Seq<char>) -> bool {
    s.len() >= 2 && ((s[0] == '"' && s.last() == '"') || (s[0] == '\'' && s.last() == '\''))
}

/// Strip a matching outer pair of quotes, as terminals put them round dropped paths.
pub fn strip_path_quotes(s: &str) -> (r: String)
    ensures
        r@ == (if is_quoted(s@) { s@.subrange(1, s@.len() - 1) } else { s@ }),
{
    let n = s.unicode_len();
    if n >= 2 {
        let first = s.get_char(0);
        let last = s.get_char(n - 1);
        if (first == '"' && last == '"') || (first == '\'' && last == '\'') {
            return slice(s, 1, n - 1);
        }
    }
    s.to_owned()
}

/// The options of a run in which nothing is chosen.
pub open spec fn is_baseline(cli: Cli, input: Seq<char>) -> bool {
    &&& cli.input matches Some(p) && p@ == input
    &&& cli.output is None
    &&& no_flags(cli)
    &&& !cli.all
    &&& !cli.check
    &&& !cli.repath
    &&& cli.repath_prefix is None
    &&& cli.repath_layout == RepathLayoutArg::InFolder
    &&& plain_surroundings(cli)
}

/// No rule is chosen on its own.
pub open spec fn no_flags(cli: Cli) -> bool {
    &&& !cli.healthbar && !cli.white_model && !cli.black_icons && !cli.particles && !cli.remove_champion_bins
    &&& !cli.remove_bnk && !cli.vfx_shape && !cli.remove_anm && !cli.fix_shaders && !cli.validate_entries
    &&& !cli.fix_textures && !cli.fix_meshes && !cli.fix_tex_dimensions && !cli.pull_gear && !cli.pull_cac
    &&& !cli.fix_refs && !cli.relocate_bins && !cli.file_refs
}

/// Everything that the menu never sets is at its default.
pub open spec fn plain_surroundings(cli: Cli) -> bool {
    &&& !cli.json && !cli.dry_run && !cli.crashcheck && cli.batch is None && cli.jobs == 0 && !cli.no_repath
    &&& !cli.invis_texture && cli.game_wad is None && !cli.small_mod && !cli.all_skins
    &&& cli.verbosity == Verbosity::Normal && !cli.skip_version_check && !cli.check_version
    &&& cli.game_path is None && !cli.no_live && !cli.restore_anm && !cli.timings
}

/// The options of a run on `input` in which nothing is chosen.
pub fn baseline_cli(input: &str) -> (r: Cli)
    ensures
        is_baseline(r, input@),
{
    Cli {
        input: Some(input.to_owned()),
        output: None,
        healthbar: false,
        white_model: false,
        black_icons: false,
        particles: false,
        remove_champion_bins: false,
        remove_bnk: false,
        vfx_shape: false,
        remove_anm: false,
        fix_shaders: false,
        validate_entries: false,
        fix_textures: false,
        fix_meshes: false,
        fix_tex_dimensions: false,
        pull_gear: false,
        pull_cac: false,
        fix_refs: false,
        relocate_bins: false,
        file_refs: false,
        all: false,
        json: false,
        dry_run: false,
        check: false,
        crashcheck: false,
        batch: None,
        jobs: 0,
        repath: false,
        no_repath: false,
        repath_prefix: None,
        repath_layout: RepathLayoutArg::InFolder,
        invis_texture: false,
        game_wad: None,
        small_mod: false,
        all_skins: false,
        verbosity: Verbosity::Normal,
        skip_version_check: false,
        check_version: false,
        game_path: None,
        no_live: false,
        restore_anm: false,
        timings: false,
    }
}

/// All fixes, and the assets moved to a folder `hematite`: what dropping a mod on the
/// program does.
pub fn build_fix_all_cli(input: &str) -> (r: Cli)
    ensures
        r.input matches Some(p) && p@ == input@,
        r.output is None,
        no_flags(r),
        plain_surroundings(r),
        r.all,
        !r.check,
        r.repath,
        r.repath_prefix matches Some(p) && p@ == "hematite"@,
        r.repath_layout == RepathLayoutArg::Nested,
{
    let mut cli = baseline_cli(input);
    cli.all = true;
    cli.repath = true;
    cli.repath_prefix = Some("hematite".to_owned());
    cli.repath_layout = RepathLayoutArg::Nested;
    cli
}

/// Detection only.
pub fn build_check_cli(input: &str) -> (r: Cli)
    ensures
        r.check,
        is_baseline((Cli { check: false, ..r }), input@),
{
    let mut cli = baseline_cli(input);
    cli.check = true;
    cli
}

/// All fixes, and the paths kept.
pub fn build_fix_no_repath_cli(input: &str) -> (r: Cli)
    ensures
        r.all,
        is_baseline((Cli { all: false, ..r }), input@),
{
    let mut cli = baseline_cli(input);
    cli.all = true;
    cli
}

} // verus!
