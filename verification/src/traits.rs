//! What the engine asks of the world around it.
//!
//! The engine works against these traits alone. An implementation answers the same
//! question in the same way for as long as it is borrowed: the spec functions name its
//! answers. Where an implementation defines none, they are those of one that knows
//! nothing.

use std::collections::HashSet;
use vstd::prelude::*;
use crate::text::{is_listed, listed};
use crate::bin::{bin, tree, Bin, BinTree, FieldHash, GameHash, PathHash, Tree, TypeHash};

verus! {

/// Why a BIN file could not be read or written.
#[derive(Debug)]
pub struct BinFault {
    pub message: String,
}

/// Reading and writing of the BIN format.
pub trait BinProvider {
    /// The BIN file that some bytes hold, where they hold one.
    open spec fn parsed(&self, bytes: Seq<u8>) -> Option<Bin> {
        None
    }

    /// The bytes of a BIN file, where it can be written.
    open spec fn written(&self, b: Bin) -> Option<Seq<u8>> {
        None
    }

    /// Parse a BIN file from raw bytes.
    fn parse_bytes(&self, data: &[u8]) -> (r: Result<BinTree, BinFault>)
        ensures
            r is Ok <==> self.parsed(data@) is Some,
            r matches Ok(t) ==> self.parsed(data@) == Some(bin(t)),
    ;

    /// Serialize a BIN file.
    fn write_bytes(&self, tree: &BinTree) -> (r: Result<Vec<u8>, BinFault>)
        ensures
            r is Ok <==> self.written(bin(*tree)) is Some,
            r matches Ok(v) ==> self.written(bin(*tree)) == Some(v@),
    ;
}

/// The hash dictionary: names of hashes, and hashes of names.
pub trait HashProvider {
    /// The name of a class hash.
    open spec fn name_of_type(&self, hash: u32) -> Option<Seq<char>> {
        None
    }

    /// The name of a field hash.
    open spec fn name_of_field(&self, hash: u32) -> Option<Seq<char>> {
        None
    }

    /// The path of an entry hash.
    open spec fn path_of_entry(&self, hash: u32) -> Option<Seq<char>> {
        None
    }

    /// The path of a game asset hash.
    open spec fn path_of_game(&self, hash: u64) -> Option<Seq<char>> {
        None
    }

    /// The hash of a class name.
    open spec fn hash_of_type(&self, name: Seq<char>) -> Option<u32> {
        None
    }

    /// The hash of a field name.
    open spec fn hash_of_field(&self, name: Seq<char>) -> Option<u32> {
        None
    }

    /// The path is that of a known game asset.
    open spec fn knows_game_path(&self, path: Seq<char>) -> bool {
        false
    }

    /// The dictionary holds anything.
    open spec fn loaded(&self) -> bool {
        false
    }

    /// Resolve a class hash to its type name.
    fn resolve_type(&self, hash: TypeHash) -> (r: Option<&str>)
        ensures
            r is Some <==> self.name_of_type(hash.0) is Some,
            r matches Some(s) ==> self.name_of_type(hash.0) == Some(s@),
    ;

    /// Resolve a field hash to its field name.
    fn resolve_field(&self, hash: FieldHash) -> (r: Option<&str>)
        ensures
            r is Some <==> self.name_of_field(hash.0) is Some,
            r matches Some(s) ==> self.name_of_field(hash.0) == Some(s@),
    ;

    /// Resolve an entry path hash to its path.
    fn resolve_entry(&self, hash: PathHash) -> (r: Option<&str>)
        ensures
            r is Some <==> self.path_of_entry(hash.0) is Some,
            r matches Some(s) ==> self.path_of_entry(hash.0) == Some(s@),
    ;

    /// Resolve a game asset hash to its path.
    fn resolve_game_path(&self, hash: GameHash) -> (r: Option<&str>)
        ensures
            r is Some <==> self.path_of_game(hash.0) is Some,
            r matches Some(s) ==> self.path_of_game(hash.0) == Some(s@),
    ;

    /// Reverse lookup: type name to type hash.
    fn type_hash(&self, name: &str) -> (r: Option<TypeHash>)
        ensures
            r is Some <==> self.hash_of_type(name@) is Some,
            r matches Some(h) ==> self.hash_of_type(name@) == Some(h.0),
    ;

    /// Reverse lookup: field name to field hash.
    fn field_hash(&self, name: &str) -> (r: Option<FieldHash>)
        ensures
            r is Some <==> self.hash_of_field(name@) is Some,
            r matches Some(h) ==> self.hash_of_field(name@) == Some(h.0),
    ;

    /// Whether a game asset path is in the dictionary.
    fn has_game_path(&self, path: &str) -> (r: bool)
        ensures
            r == self.knows_game_path(path@),
    ;

    /// Whether any hashes are loaded.
    fn is_loaded(&self) -> (r: bool)
        ensures
            r == self.loaded(),
    ;
}

/// Which files a mod's archive holds.
pub trait WadProvider {
    /// The archive holds this path.
    open spec fn holds_path(&self, path: Seq<char>) -> bool {
        false
    }

    /// The archive holds this path hash.
    open spec fn holds_hash(&self, hash: u64) -> bool {
        false
    }

    /// Check if a file path exists in the archive.
    fn has_path(&self, path: &str) -> (r: bool)
        ensures
            r == self.holds_path(path@),
    ;

    /// Check if a raw path hash exists in the archive.
    fn has_hash(&self, hash: u64) -> (r: bool)
        ensures
            r == self.holds_hash(hash),
    ;
}

/// An archive that holds nothing: the surroundings of a BIN file on its own.
#[derive(Clone, Copy, Debug)]
pub struct NullWad;

impl WadProvider for NullWad {
    open spec fn holds_path(&self, path: Seq<char>) -> bool {
        false
    }

    open spec fn holds_hash(&self, hash: u64) -> bool {
        false
    }

    fn has_path(&self, path: &str) -> (r: bool) {
        false
    }

    fn has_hash(&self, hash: u64) -> (r: bool) {
        false
    }
}

/// The files of the installed game.
pub trait GameProvider {
    /// The game ships this path.
    open spec fn ships_path(&self, path: Seq<char>) -> bool {
        false
    }

    /// The bytes that the game ships at a path, where it does and they can be read.
    open spec fn bytes_at(&self, path: Seq<char>) -> Option<Seq<u8>> {
        None
    }

    /// The BIN that the game ships at a path, where it does and it can be read.
    open spec fn bin_at(&self, path: Seq<char>) -> Option<Tree> {
        None
    }

    /// The entry keys of the game's shaders, where they could be read.
    open spec fn shader_set(&self) -> Option<Set<u32>> {
        None
    }

    /// Does the base game ship this path?
    fn has_path(&self, path: &str) -> (r: bool)
        ensures
            r == self.ships_path(path@),
    ;

    /// Raw bytes of a game file.
    fn pull_raw(&self, path: &str) -> (r: Option<Vec<u8>>)
        ensures
            r is Some <==> self.bytes_at(path@) is Some,
            r matches Some(v) ==> self.bytes_at(path@) == Some(v@),
    ;

    /// Pull and parse a game BIN.
    fn game_bin(&self, path: &str) -> (r: Option<BinTree>)
        ensures
            r is Some <==> self.bin_at(path@) is Some,
            r matches Some(t) ==> self.bin_at(path@) == Some(tree(t)),
    ;

    /// Entry keys of every shader the game defines.
    fn shader_defs(&self) -> (r: Option<HashSet<u32>>)
        ensures
            r is Some <==> self.shader_set() is Some,
            r matches Some(s) ==> self.shader_set() == Some(s@),
    ;
}

/// A set of names or paths.
pub trait NameSet {
    /// The set has this name.
    open spec fn holds(&self, name: Seq<char>) -> bool {
        false
    }

    /// Whether the set has this name.
    fn contains(&self, name: &str) -> (r: bool)
        ensures
            r == self.holds(name@),
    ;
}

/// The paths that the mod or the game ships.
pub struct ModOrGame<'a, W: WadProvider, G: GameProvider> {
    pub wad: &'a W,
    pub game: Option<&'a G>,
}

impl<'a, W: WadProvider, G: GameProvider> NameSet for ModOrGame<'a, W, G> {
    open spec fn holds(&self, name: Seq<char>) -> bool {
        self.wad.holds_path(name) || match self.game {
            Some(g) => g.ships_path(name),
            None => false,
        }
    }

    fn contains(&self, name: &str) -> (r: bool) {
        self.wad.has_path(name) || match self.game {
            Some(g) => g.has_path(name),
            None => false,
        }
    }
}

/// The names of a list.
#[derive(Debug)]
pub struct NameList {
    pub names: Vec<String>,
}

impl NameSet for NameList {
    open spec fn holds(&self, name: Seq<char>) -> bool {
        listed(self.names@, name)
    }

    fn contains(&self, name: &str) -> (r: bool) {
        is_listed(&self.names, name)
    }
}

} // verus!
