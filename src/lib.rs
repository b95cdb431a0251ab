//! Brace-aware editing of Gradle build scripts and selection of mod releases
//! from the CurseForge and Modrinth registries.
//!
//! - `gradle`: locating top-level blocks and declaring Maven repositories.
//! - `deps`: composing dependency lines and upserting them into a script.
//! - `update`: the whole edit for one chosen release.
//! - `cf`, `mr`: registry records, version extraction, and release selection.
//! - `mojang`: ordering game versions by the manifest's version index.
//! - `choices`, `options`: the lists a user picks versions and loaders from.
//! - `cache`, `util`, `text`: cache names, retry pauses, small conversions, text helpers.
//! - `deps_lemmas`: proofs about the upsert scanner.

pub mod cache;
pub mod cf;
pub mod choices;
pub mod deps;
pub mod deps_lemmas;
pub mod gradle;
pub mod mojang;
pub mod mr;
pub mod options;
pub mod text;
pub mod update;
pub mod util;
