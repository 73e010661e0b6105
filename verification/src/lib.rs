//! Unpacking of packed script addons.
//!
//! A packer bundles the scripts of an addon into containers: one legacy
//! container for the server-side scripts, and chunk files, in which a
//! container hides in the comment lines of scripts, for the client-side
//! and the shared ones. This library undoes that: it decodes both formats,
//! strips the comments of chunk files, and decides for each entry of an
//! addon's tree whether a copy of the addon takes it along.
//!
//! The library reads and writes no file. It is handed names and bytes, and
//! hands back decisions and the files to write.

pub mod comment;
pub mod container;
pub mod copier;
pub mod error;
pub mod hex;
pub mod packer;
pub mod patterns;
pub mod scan;
pub mod unpack;
pub mod utf8;
