//! Requires of Roblox instances for Lua modules.
//!
//! A Lua file that requires another file by its path can require the Roblox instance of that file
//! instead. Which instance that is comes from a Rojo sourcemap, if there is one, or from the
//! relative path of the required file.
//!
//! - [`paths`], [`path_utils`]: file paths as sequences of components, normal and relative paths;
//!   [`path_laws`] holds what is proved of them.
//! - [`host_path`]: paths with the text that is shown for them.
//! - [`instance_path`]: paths from one instance to another.
//! - [`rojo_sourcemap`], [`path_index`]: sourcemaps, the instance of each file, and the path from
//!   one to another; [`sourcemap_model`] holds their model, [`sourcemap_laws`] and
//!   [`tree_laws`] what is proved of them.
//! - [`parsed_sourcemap`]: the last sourcemap that was parsed, kept for as long as it fits.
//! - [`require_mode`], [`roblox_require_mode`]: what a require becomes; [`require_laws`] holds
//!   what is proved of it.
//! - [`error`]: what can go wrong.
pub mod error;
pub mod host_path;
pub mod instance_path;
pub mod parsed_sourcemap;
pub mod path_index;
pub mod path_laws;
pub mod path_utils;
pub mod paths;
pub mod require_laws;
pub mod require_mode;
pub mod roblox_require_mode;
pub mod rojo_sourcemap;
pub mod sourcemap_laws;
pub mod sourcemap_model;
pub mod tree_laws;
