//! A small content-addressed version-control core compatible with Git's
//! loose-object and index (version 2) formats.

pub mod codec;
pub mod commands;
pub mod database;
pub mod errors;
pub mod id;
pub mod index;
pub mod lockfile;
pub mod objects;
pub mod order;
pub mod refs;
pub mod repository;
pub mod status;
pub mod workspace;

pub use commands::{Command, CommitResult, Execution, Init, Session, StatusResult};
pub use repository::Repository;
