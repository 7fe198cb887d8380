//! Core logic of the `vee` package manager: npm version ranges, `.npmrc`
//! configuration, subresource integrity, dependency resolution, lockfiles and
//! the install plan, with contracts checked by Verus.

pub mod cache;
pub mod cli;
pub mod integrity;
pub mod linker;
pub mod lockfile;
pub mod npmrc;
pub mod package_json;
pub mod registry;
pub mod resolver;
pub mod scripts;
pub mod semver_npm;
pub mod strmap;
pub mod text;
