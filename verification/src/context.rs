//! The runtime state of a fix session on one BIN file.

use std::collections::{HashMap, HashSet};
use vstd::prelude::*;
use vstd::string::*;
use crate::bin::BinTree;
use crate::reachability::Reachability;
use crate::text::{is_listed, listed};
use crate::traits::{GameProvider, HashProvider, WadProvider};
use crate::transform::rename_hash::Rename;

verus! {

/// The playable champions. Every other character is a form that one of them summons.
#[derive(Debug)]
pub struct CharacterRelations {
    /// Lower-cased champion names.
    pub champions: Vec<String>,
}

impl CharacterRelations {
    /// Whether `name` is a playable champion (case-insensitive).
    pub fn is_champion(&self, name: &str) -> (r: bool)
        ensures
            r == listed(self.champions@, crate::text::lowered(name@)),
    {
        let lower = crate::text::to_lower(name);
        is_listed(&self.champions, lower.as_str())
    }
}

/// Where the BIN under inspection sits in the mod's load graph.
#[derive(Clone, Copy)]
pub struct BinScope<'a> {
    /// Chunk path hash of this BIN.
    pub chunk_hash: u64,
    /// What the mod actually loads, when it could be determined. `None` means that
    /// everything must be taken to load.
    pub reachable: Option<&'a Reachability>,
    /// Animation BIN chunk hash to slot, for the mod's characters.
    pub animation_bins: Option<&'a HashMap<u64, u32>>,
}

impl<'a> BinScope<'a> {
    /// The BIN is one of the mod's animation BINs.
    pub open spec fn animation(&self) -> bool {
        match self.animation_bins {
            Some(m) => m@.contains_key(self.chunk_hash),
            None => false,
        }
    }

    /// The BIN is to be inspected, by a rule that is for loaded BINs only or for all.
    pub open spec fn inspected(&self, require_reachable: bool) -> bool {
        !require_reachable || match self.reachable {
            None => true,
            Some(reach) => self.animation() || reach.reachable@.contains(self.chunk_hash),
        }
    }

    /// The slot of which this BIN is the skin root.
    pub open spec fn root_slot(&self) -> Option<u32> {
        match self.reachable {
            Some(r) => if r.skin_slot@.contains_key(self.chunk_hash) {
                Some(r.skin_slot@[self.chunk_hash])
            } else {
                None
            },
            None => None,
        }
    }

    /// A scope of which nothing is known.
    pub fn unknown() -> (r: BinScope<'a>)
        ensures
            r.chunk_hash == 0,
            r.reachable is None,
            r.animation_bins is None,
    {
        BinScope { chunk_hash: 0, reachable: None, animation_bins: None }
    }

    /// Whether this BIN should be inspected under the given scope.
    pub fn should_inspect(&self, require_reachable: bool) -> (r: bool)
        ensures
            r == self.inspected(require_reachable),
    {
        if !require_reachable {
            return true;
        }
        match self.reachable {
            None => true,
            Some(reach) => self.is_animation_bin() || reach.loads(self.chunk_hash),
        }
    }

    /// Whether this BIN is one of the mod's animation BINs.
    pub fn is_animation_bin(&self) -> (r: bool)
        ensures
            r == self.animation(),
    {
        broadcast use vstd::std_specs::hash::group_hash_axioms;
        match self.animation_bins {
            Some(m) => m.contains_key(&self.chunk_hash),
            None => false,
        }
    }

    /// Slot this BIN is the skin root of, if any.
    pub fn skin_slot(&self) -> (r: Option<u32>)
        ensures
            r == self.root_slot(),
    {
        match self.reachable {
            Some(reach) => reach.slot_of(self.chunk_hash),
            None => None,
        }
    }

    /// Slot of the animation BIN this is, if it is one.
    pub fn animation_slot(&self) -> (r: Option<u32>)
        ensures
            r is Some <==> self.animation(),
            r matches Some(n) ==> self.animation_bins->0@[self.chunk_hash] == n,
    {
        broadcast use vstd::std_specs::hash::group_hash_axioms;
        match self.animation_bins {
            Some(m) => match m.get(&self.chunk_hash) {
                Some(n) => Some(*n),
                None => None,
            },
            None => None,
        }
    }
}

/// Load information only ever shrinks what is inspected: without it, or for a rule that
/// does not ask for it, every BIN is; and an animation BIN is in any case.
pub proof fn law_scope_fails_open(scope: BinScope, require_reachable: bool)
    ensures
        scope.reachable is None ==> scope.inspected(require_reachable),
        scope.inspected(false),
        scope.animation() ==> scope.inspected(require_reachable),
{
}

/// Runtime state for a fix session on a single BIN file.
pub struct FixContext<'a, H: HashProvider, W: WadProvider, G: GameProvider> {
    /// The BIN tree being processed.
    pub tree: BinTree,
    /// Hash dictionary.
    pub hashes: &'a H,
    /// The mod's archive.
    pub wad: &'a W,
    /// The playable champions.
    pub champions: &'a CharacterRelations,
    /// Path of the current file.
    pub file_path: String,
    /// Files marked for removal from the archive.
    pub files_to_remove: Vec<String>,
    /// Linked BIN trees that the mod ships, by path.
    pub linked_trees: Vec<(String, BinTree)>,
    /// The valid shaders, where a list of them is available.
    pub valid_shaders: Option<&'a HashSet<u32>>,
    /// The installed game, if there is one.
    pub game: Option<&'a G>,
    /// BIN files that this session has split off.
    pub additional_bins: Vec<(String, BinTree)>,
    /// Where this BIN sits in the mod.
    pub scope: BinScope<'a>,
    /// The renames that this session has made, each once. One that was in another's way is
    /// tried again after it.
    pub renames: Vec<Rename>,
}

/// Two sessions agree in everything but the tree.
pub open spec fn same_but_tree<H: HashProvider, W: WadProvider, G: GameProvider>(
    a: FixContext<H, W, G>,
    b: FixContext<H, W, G>,
) -> bool {
    &&& same_surroundings(a, b)
    &&& a.files_to_remove == b.files_to_remove
    &&& a.additional_bins == b.additional_bins
    &&& a.renames == b.renames
}

/// Two sessions agree in what a repair never touches.
pub open spec fn same_surroundings<H: HashProvider, W: WadProvider, G: GameProvider>(
    a: FixContext<H, W, G>,
    b: FixContext<H, W, G>,
) -> bool {
    &&& a.hashes == b.hashes
    &&& a.wad == b.wad
    &&& a.champions == b.champions
    &&& a.file_path == b.file_path
    &&& a.linked_trees == b.linked_trees
    &&& a.valid_shaders == b.valid_shaders
    &&& a.game == b.game
    &&& a.scope == b.scope
}

/// Where it is known what the mod loads, a rule for loaded files is checked on the files that
/// load and on those of animations, and on no other.
pub proof fn law_only_loaded_files_are_inspected(scope: BinScope)
    requires
        scope.reachable is Some,
    ensures
        scope.inspected(true) <==> scope.reachable->0.reachable@.contains(scope.chunk_hash) || (scope.animation_bins is Some
            && scope.animation_bins->0@.contains_key(scope.chunk_hash)),
        scope.root_slot() is Some <==> scope.reachable->0.skin_slot@.contains_key(scope.chunk_hash),
        scope.root_slot() matches Some(n) ==> n == scope.reachable->0.skin_slot@[scope.chunk_hash],
{
}

} // verus!
