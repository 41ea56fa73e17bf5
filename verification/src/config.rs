//! The fix configuration: which defects are looked for, and what is done about each.

use vstd::prelude::*;
use vstd::string::*;
use crate::diagnostic::ReasonCatalog;
use crate::factory::JsonValue;
use crate::text::{is_listed, listed, same};

verus! {

/// Entries of one type that a main entry must refer to.
#[derive(Debug)]
pub struct EntryValidationTarget {
    pub entry_type: String,
    /// Hexadecimal class hash, for a class that no dictionary names.
    pub type_hash: Option<String>,
    pub reference_field: String,
    /// Hexadecimal hash of the field that holds the links.
    pub link_field: String,
}

/// A field of a class that moved from text to a hashed file reference.
#[derive(Debug)]
pub struct ClassFieldTarget {
    pub class: String,
    pub field: String,
    pub reason: Option<String>,
}

/// In which direction a replaced BIN differs dangerously.
#[derive(Clone, Copy, Debug, PartialEq, Eq, Structural)]
pub enum ReplacedBinMode {
    Added,
    Dropped,
}

/// Entries of one class that a replaced BIN must not add, or must not drop.
#[derive(Debug)]
pub struct ReplacedBinTarget {
    pub class: String,
    pub label: Option<String>,
    pub mode: ReplacedBinMode,
    /// Where it is not empty, only these keys count.
    pub lethal_keys: Vec<String>,
    pub reason: Option<String>,
}

/// What a rule looks for.
#[allow(inconsistent_fields)]
#[derive(Debug)]
pub enum DetectionRule {
    MissingOrWrongField {
        entry_type: String,
        embed_path: Option<String>,
        embed_type: Option<String>,
        field: String,
        expected_value: Option<JsonValue>,
    },
    FieldHashExists { entry_type: String, path: String },
    StringExtensionNotInWad { entry_type: String, fields: Vec<String>, extension: String },
    RecursiveStringExtensionNotInWad { extension: String, path_prefixes: Vec<String> },
    EntryTypeExistsAny { entry_types: Vec<String> },
    BnkVersionNotIn { allowed_versions: Vec<u32> },
    VfxShapeNeedsFix { entry_type: String },
    InvalidShaderReference { shader_def_type: String, shader_link_field: String },
    UnreferencedEntryOfType { main_entry_type: String, targets: Vec<EntryValidationTarget> },
    DeadEntryLink { main_entry_type: String, targets: Vec<EntryValidationTarget> },
    ClassFieldIsString { targets: Vec<ClassFieldTarget> },
    ReplacedBinEntryDiff { targets: Vec<ReplacedBinTarget> },
    DeadShaderLink,
    DeadAssetReference {
        extensions: Vec<String>,
        path_prefixes: Vec<String>,
        downgrade_markers: Vec<String>,
        downgrade_reason: Option<String>,
        latent_reason: Option<String>,
        suppress_never_loaded: bool,
    },
    StaleCharacterRecord {
        entry_type: String,
        fields: Vec<String>,
        critical_field: Option<String>,
        critical_reason: Option<String>,
    },
}

/// What a rule does about the defect that it found.
#[allow(inconsistent_fields)]
#[derive(Debug)]
pub enum TransformAction {
    /// Nothing: the finding is reported, and there is no repair.
    ReportOnly,
    RenameHash { from: String, to: String, only_asset_paths: bool },
    ReplaceStringExtension { from: String, to: String, path_prefixes: Vec<String>, field_filter: Option<String> },
    RegexReplace { pattern: String, replacement: String, field_filter: Option<String> },
    RegexRenameField { pattern: String, replacement: String },
    MergeLinkedBins,
    SplitEntriesByType { entry_types: Vec<String>, output_path: String, link_in_source: bool },
    VfxShapeFix,
    PullEntriesFromGame {
        main_entry_type: String,
        targets: Vec<EntryValidationTarget>,
        nuke_fallback_field: Option<String>,
    },
    ResolveDeadRefs { extensions: Vec<String> },
    RetypeStringToFile { targets: Vec<ClassFieldTarget> },
}

/// When in a run a rule is applied.
#[derive(Clone, Copy, Debug, PartialEq, Eq, Structural)]
pub enum FixPhase {
    Standard,
    /// After the repath stage.
    PostRepath,
}

/// One rule for BIN files.
#[derive(Debug)]
pub struct FixRule {
    pub name: String,
    /// The reason under which a finding is reported; without one the rule only repairs.
    pub reason: Option<String>,
    pub detect: DetectionRule,
    pub apply: TransformAction,
    pub phase: FixPhase,
    pub main_character_only: bool,
    pub loaded_bins_only: bool,
}

/// Byte order of a number in a file header.
#[derive(Clone, Copy, Debug, PartialEq, Eq, Structural)]
pub enum Endian {
    Little,
    Big,
}

/// A condition on the bytes of a file.
#[derive(Debug)]
pub enum BinaryHeaderCheck {
    /// The number of `size` bytes at `offset` is none of the allowed versions.
    VersionAtOffset { offset: usize, size: usize, endian: Endian, allowed_versions: Vec<u32> },
    /// The file begins with these bytes.
    MagicSignature { signature: Vec<u8> },
    /// The file begins with `magic`, its format byte is one of the block formats, and its
    /// width or height is no multiple of the block size.
    BlockAlignment {
        magic: Vec<u8>,
        width_offset: usize,
        height_offset: usize,
        format_offset: usize,
        block_formats: Vec<u8>,
        block_size: u32,
    },
}

/// Which archive files a rule looks for.
#[derive(Debug)]
pub enum WadDetectionRule {
    FileExtension { extension: String, binary_check: Option<BinaryHeaderCheck>, exclude_files: Vec<String> },
    FilePattern { pattern: String, binary_check: Option<BinaryHeaderCheck> },
    Always,
}

/// A file to add to an archive.
#[derive(Debug)]
pub struct AssetInjection {
    pub asset: String,
    pub path: String,
    pub only_if_missing: bool,
}

/// What a rule does with an archive file.
#[derive(Debug)]
pub enum WadTransformAction {
    RemoveFile { unless_referenced: bool },
    ConvertFormat { from_ext: String, to_ext: String, converter: String },
    TransformBytes { converter: String },
    RenameFile { pattern: String, replacement: String },
    AddFiles { assets: Vec<AssetInjection> },
}

/// One rule for archive files.
#[derive(Debug)]
pub struct WadFixRule {
    pub name: String,
    pub reason: Option<String>,
    pub detect: WadDetectionRule,
    pub apply: WadTransformAction,
}

/// A check on the share of referenced art that is missing. Shares are in parts per
/// million.
#[derive(Debug)]
pub struct RatioCheckConfig {
    pub id: String,
    pub enabled: bool,
    pub extensions: Vec<String>,
    /// The smallest number of references that means anything.
    pub min_total: usize,
    /// The check warns above this share.
    pub warn_at: u32,
    /// The check fails from this share on.
    pub fail_at: u32,
    pub warn_reason: Option<String>,
    pub fail_reason: Option<String>,
}

/// The check on the share of a champion's ability effects that is missing. Shares are
/// in parts per million.
#[derive(Debug)]
pub struct VfxRatioConfig {
    pub enabled: bool,
    pub warn_at: u32,
    pub fail_at: u32,
    pub warn_reason: Option<String>,
    pub fail_reason: Option<String>,
    pub legacy_markers: Vec<String>,
    pub audio_markers: Vec<String>,
    pub cosmetic_markers: Vec<String>,
    pub subhelper_markers: Vec<String>,
}

/// Effects that one champion cannot be played without.
#[derive(Debug)]
pub struct SignatureVfxConfig {
    pub enabled: bool,
    pub champion: String,
    /// What the names of the effects contain.
    pub contains: String,
    /// The share of missing effects from which it is reported, in parts per million.
    pub dead_at: u32,
    pub reason: Option<String>,
}

/// A field whose texture the client cannot do without.
#[derive(Debug)]
pub struct RequiredTextureConfig {
    pub enabled: bool,
    pub field: String,
    pub reason: Option<String>,
}

/// The repath section of the configuration.
#[derive(Debug)]
pub struct RepathConfig {
    pub enabled: bool,
    pub prefix: String,
    pub invis_texture: bool,
    pub skip_vo: bool,
    /// Rules about placeholders, as they are written. They are handed on unread.
    pub placeholder_rules: Vec<String>,
}

/// The fix configuration. No rule id occurs twice.
#[derive(Debug)]
pub struct FixConfig {
    pub version: String,
    pub fixes: Vec<(String, FixRule)>,
    pub wad_fixes: Vec<(String, WadFixRule)>,
    pub reasons: ReasonCatalog,
    /// The rules that are switched on; without the list, all of them.
    pub enabled_fixes: Option<Vec<String>>,
    pub repath: RepathConfig,
}

/// `i` is where `id` stands in a table of rules.
pub open spec fn rule_at<R>(rules: Seq<(String, R)>, id: Seq<char>, i: int) -> bool {
    0 <= i < rules.len() && rules[i].0@ == id && forall|j: int| 0 <= j < i ==> (#[trigger] rules[j]).0@ != id
}

/// The rule named `id`.
pub open spec fn rule_of<R>(rules: Seq<(String, R)>, id: Seq<char>) -> Option<R> {
    if exists|i: int| rule_at(rules, id, i) {
        Some(rules[choose|i: int| rule_at(rules, id, i)].1)
    } else {
        None
    }
}

/// Look up the rule named `id`.
pub fn find_rule<'a, R>(rules: &'a Vec<(String, R)>, id: &str) -> (r: Option<&'a R>)
    ensures
        r is Some <==> rule_of(rules@, id@) is Some,
        r matches Some(x) ==> rule_of(rules@, id@) == Some(*x),
{
    let mut i: usize = 0;
    while i < rules.len()
        invariant
            i <= rules@.len(),
            forall|j: int| 0 <= j < i ==> (#[trigger] rules@[j]).0@ != id@,
        decreases rules@.len() - i,
    {
        if same(rules[i].0.as_str(), id) {
            assert(rule_at(rules@, id@, i as int));
            let ghost k = choose|k: int| rule_at(rules@, id@, k);
            assert(rule_at(rules@, id@, k));
            assert(k == i) by {
                if k < i {
                    assert(rules@[k].0@ != id@);
                }
                if k > i {
                    assert(rules@[i as int].0@ != id@);
                }
            }
            return Some(&rules[i].1);
        }
        i = i + 1;
    }
    assert(forall|k: int| !rule_at(rules@, id@, k));
    None
}

impl FixConfig {
    /// The rule named `id` is switched on.
    pub open spec fn enabled(&self, id: Seq<char>) -> bool {
        match self.enabled_fixes {
            Some(list) => listed(list@, id),
            None => true,
        }
    }

    /// Whether the rule named `id` is switched on.
    pub fn is_fix_enabled(&self, id: &str) -> (r: bool)
        ensures
            r == self.enabled(id@),
    {
        match &self.enabled_fixes {
            Some(list) => is_listed(list, id),
            None => true,
        }
    }
}

} // verus!
