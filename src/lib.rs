//! A small content-addressed version store: objects, trees, the staging
//! index and the `HEAD` reference, with their byte formats proved.

pub mod checksum;
pub mod commit;
pub mod database;
pub mod digest;
pub mod encode;
pub mod error;
pub mod hex;
pub mod index;
pub mod lockfile;
pub mod object;
pub mod path;
pub mod refs;
pub mod repository;
mod text;
pub mod tree;
pub mod workspace;
