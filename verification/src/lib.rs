//! A read-side library for the loose-object database of a git repository:
//! revision resolution, loose-object and commit decoding, index decoding,
//! and the small amount of pure logic behind the derived commands.
//!
//! The library itself never touches the filesystem.  Every function here
//! works on plain values (strings, byte vectors); the thin executable layer
//! that reads files, lists directories and prints results lives outside and
//! feeds those values in.

pub mod text;
pub mod objects;
pub mod commits;
pub mod revisions;
pub mod index;
pub mod branch;
pub mod cli;
pub mod config;
