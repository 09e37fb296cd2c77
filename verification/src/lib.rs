//! Verified core of a PNPM-style package installer for Composer projects.

pub mod text;
pub mod json;
pub mod error;
pub mod composer;
pub mod semver;
pub mod lines;
pub mod platform;
pub mod packagist;
pub mod order;
pub mod lockfile;
pub mod version_set;
pub mod resolver;
pub mod collection;
pub mod solver;
pub mod resolution;
pub mod installer;
pub mod output;
pub mod store;
pub mod perf;
pub mod autoload;
