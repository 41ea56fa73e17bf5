# Hematite

Finds and repairs what breaks League of Legends custom skins: stale property trees, dead
asset references, files that the client no longer reads, and paths that collide with the
base game.

The library under `src/` is verified with Verus. It works on property trees (BIN files),
on the file lists of archives (WAD files) and on plain text and numbers. The program under
`app/` reads and writes files, fetches configurations and talks to the user.

## Layout

| Where | What |
|---|---|
| `src/text.rs`, `src/strings.rs`, `src/hashing.rs`, `src/sorting.rs`, `src/patterns.rs` | text, names, hashes, order, patterns |
| `src/bin.rs`, `src/walk.rs`, `src/links.rs`, `src/factory.rs` | property trees, walks over them, values |
| `src/config.rs`, `src/context.rs`, `src/traits.rs`, `src/diagnostic.rs`, `src/result.rs` | rules, sessions, what the engine asks of its surroundings, findings |
| `src/detect/`, `src/transform/`, `src/pipeline.rs` | defects, repairs, and the run of rules on one file |
| `src/check/`, `src/crashcheck.rs`, `src/batch.rs` | checks of a whole mod, and how they are told |
| `src/archive.rs`, `src/wad_pipeline/`, `src/process/` | archives: rules, conversions, repathing, extraction |
| `src/repath.rs`, `src/seeds.rs`, `src/skinlite.rs`, `src/reachability.rs`, `src/deep_repair.rs`, `src/combo_relocate.rs` | paths, skins, what a mod loads, what it lacks |
| `src/args.rs`, `src/session.rs`, `src/interactive.rs`, `src/remote.rs`, `src/version_check.rs`, `src/hash_downloader.rs`, `src/timing.rs`, `src/ui.rs` | what a run decides |

Each function states what it returns over a mathematical model of its arguments. The public
proof functions whose names begin with `law_` state what holds of several functions
together: that a repath can be undone, that a check never writes, that a moved file keeps its bytes.

What comes from `regex`, `semver`, `xxhash-rust`, `zstd` and the standard library is called
through small wrappers; the comment above each says what is taken from it unproved.

Single precision numbers are held as their bit patterns, and shares in parts per million.
