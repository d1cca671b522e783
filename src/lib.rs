//! Hot reloading of a fixed set of named functions.
//!
//! The verified core keeps, for every hot-reloadable function, the token that
//! currently dispatches to it, counts the calls that are in flight on every
//! token, and decides when a superseded code module can be released without
//! any call still running inside it.
//!
//! Around it stand the build-time pieces: the descriptors of hot-reloadable
//! functions, the rewriting of a crate's modules for the library and the
//! binary build, the text of the call sites, and the names of module files.

pub mod token;
pub mod table;
pub mod retire;
pub mod runtime;
pub mod laws;
pub mod codegen;
pub mod artifact;
pub mod syntax;
pub mod expand;
