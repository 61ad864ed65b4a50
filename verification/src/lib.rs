//! Conversations with coding tools, kept in one encrypted index and found again.
//!
//! This library holds the rules: how an index is sealed, opened and converted,
//! how a conversation is attached to a repository and to the files it talked
//! about, and how a search is phrased and its results are ranked. It does no
//! input or output. What it needs from the disk, the keychain or the database it
//! asks for, and what is to be done there it hands back as plain values.
//!
//! Paths are text, read by the rules of the platform that they belong to.

// Text and paths.
pub mod path;
pub mod text;
pub mod token;
pub mod unix;
pub mod windows;

// Repositories and files.
pub mod disk;
pub mod infer;
pub mod mentions;
pub mod remote;
pub mod repo;

// The index.
pub mod cipher;
pub mod db;
pub mod durability;
pub mod error;
pub mod schema;
pub mod steps;

// Search.
pub mod fusion;
pub mod model;
pub mod rank;
pub mod score;
pub mod search;

// What all of it is for.
pub mod laws;

pub use error::Error;
pub use fusion::{SearchHit, SearchResponse};
pub use model::{Conversation, SourceId};
pub use repo::{Origin, RepoRef};
pub use search::{MatchedVia, SearchQuery};
