//! Hematite: finds and repairs what breaks in League of Legends custom skin mods.
//!
//! Every rule the fixer applies lives here as a function on plain values with a
//! contract: how paths are read and rewritten, how property trees are searched and
//! edited, which rules fire, and what a run decides to do with each file. Reading
//! archives, talking to the network and printing belong to the program around it.

pub mod archive;
pub mod args;
pub mod assets;
pub mod batch;
pub mod bin;
pub mod check;
pub mod combo_relocate;
pub mod config;
pub mod context;
pub mod crashcheck;
pub mod deep_repair;
pub mod detect;
pub mod diagnostic;
pub mod factory;
pub mod hash_downloader;
pub mod hashing;
pub mod interactive;
pub mod links;
pub mod patterns;
pub mod pipeline;
pub mod process;
pub mod reachability;
pub mod remote;
pub mod repath;
pub mod result;
pub mod seeds;
pub mod session;
pub mod skinlite;
pub mod sorting;
pub mod strings;
pub mod text;
pub mod timing;
pub mod traits;
pub mod transform;
pub mod ui;
pub mod version_check;
pub mod wad_pipeline;
pub mod walk;
