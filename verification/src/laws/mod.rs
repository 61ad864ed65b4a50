//! What the operations of the library are for, as laws over their inputs and
//! results.

pub mod db;
pub mod fusion;
pub mod infer;
pub mod mentions;
pub mod model;
pub mod remote;
pub mod repo;
pub mod search;
pub mod text;
pub mod token;
pub mod unix;
pub mod windows;
