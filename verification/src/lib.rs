//! Core of a small package manager for Node-style registries: specifier
//! parsing, version selection against registry metadata, a persisted lock
//! graph with an atomic text format, a content-keyed tarball cache, a
//! work-queue dependency resolver, and a module linker that hoists
//! non-conflicting dependencies and nests conflicting versions.

pub mod cache;
pub mod command;
pub mod linker;
pub mod lock_text;
pub mod lockfile;
pub mod package_json;
pub mod registry;
pub mod resolver;
pub mod specifier;
