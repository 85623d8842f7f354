//! Module resolution for JavaScript-style specifiers, with every rule
//! stated as a contract and proved.
//!
//! A [`resolver::Resolver`] takes a start directory and a specifier such as
//! `./x`, `lodash`, `@scope/pkg/sub` or `#imports/x` and gives the absolute
//! path of the file that the specifier names, together with every path it
//! looked at on the way. It works over a [`fs::FileSystem`], a snapshot held
//! in memory.
//!
//! The steps, each in a module of its own:
//! - [`specifier`] sorts the raw specifier into its kind and parts;
//! - [`alias`] rewrites the request by the configured rules, and [`fields`]
//!   by the alias fields of the enclosing package;
//! - [`package`] finds the installed package and what it exports, with the
//!   matching of [`exports`];
//! - [`search`] goes from a candidate path to a file, by extensions, main
//!   fields and index files;
//! - [`resolver`] puts the steps in order and follows symbolic links.
//!
//! [`descriptor`] reads and caches package descriptors, which [`json`]
//! parses; [`context`] holds the record of paths looked at; [`world`] says
//! what a resolver sees of the filesystem through its cache.

pub mod alias;
pub mod bytes;
pub mod context;
pub mod descriptor;
pub mod error;
pub mod exports;
pub mod fields;
pub mod fs;
pub mod json;
pub mod options;
pub mod package;
pub mod path;
pub mod resolver;
pub mod search;
pub mod specifier;
pub mod world;
