//! A vector index of the HNSW family: a layered graph of neighbor lists, on
//! the pages of a store with a log, or in memory and in snapshot files.
//!
//! - [`params`], [`graph`], [`node`], [`rng`]: identities, parameters, metrics,
//!   the layout of node entries, and the level draw.
//! - [`storage`], [`page`], [`meta`], [`dir`]: pages and records, page types,
//!   the meta page, and the directory that maps node ids to places.
//! - [`apply`], [`validate`], [`redo`]: what a record does to a page, when a
//!   record is valid, and its replay after a crash.
//! - [`index`], [`model`], [`paged`], [`audit`]: creation, opening, insertion,
//!   search and audit of an index on its pages.
//! - [`encoding`], [`snapshot`]: the snapshot byte stream, and graphs in
//!   memory.
//! - [`dataset`]: vector files and recall.
//! - [`error`], [`fault`], [`text`]: errors and their words.
//!
//! Laws that span functions stand in modules of their own:
//!
//! - [`entry_laws`], [`layout`], [`soundness`]: what operations on pages do to
//!   entries and to the graph that they hold.
//! - [`index_laws`], [`graph_laws`], [`search_laws`]: what an insertion does to
//!   the graph and what it keeps.
//! - [`open_laws`], [`audit_laws`]: what reading and opening give, and what the
//!   audit decides.
//! - [`redo_laws`], [`recovery_laws`], [`crash_laws`]: that replay can be
//!   repeated, that the log gives the pages, and that an insertion can stop
//!   anywhere.
//! - [`image_laws`]: that since a checkpoint no record changes a page that has
//!   not been logged whole before.
//! - [`encoding_laws`]: the round trips of the snapshot format.
//! - [`insert_laws`], [`success_laws`]: which lists an insertion changes and
//!   how, what it asks its search, and when it succeeds.
//! - [`replay_laws`]: when each record is replayed, and what it changes.
//! - [`check_laws`], [`open_rules`], [`audit_rules`], [`load_laws`],
//!   [`dataset_laws`], [`recall_laws`]: what is admitted and what is refused,
//!   and what the answers count.
//! - [`page_rules`]: where things stand on a page, in bytes.
//!
//! Vectors are carried as the bits of their `f32` components. Whether a
//! component is finite or zero is decided on the bits; distances are left to
//! the caller.

pub mod apply;
pub mod audit;
pub mod audit_laws;
pub mod audit_rules;
pub mod bytes;
pub mod check_laws;
pub mod crash_laws;
pub mod crc;
pub mod dataset;
pub mod dataset_laws;
pub mod dir;
pub mod encoding;
pub mod encoding_laws;
pub mod entry_laws;
pub mod error;
pub mod fault;
pub mod graph;
pub mod graph_laws;
pub mod image_laws;
pub mod index;
pub mod index_laws;
pub mod insert_laws;
pub mod layout;
pub mod load_laws;
pub mod meta;
pub mod model;
pub mod node;
pub mod open_laws;
pub mod open_rules;
pub mod page;
pub mod page_rules;
pub mod paged;
pub mod params;
pub mod recall_laws;
pub mod recovery_laws;
pub mod redo;
pub mod redo_laws;
pub mod replay_laws;
pub mod rng;
pub mod search_laws;
pub mod snapshot;
pub mod soundness;
pub mod storage;
pub mod success_laws;
pub mod text;
pub mod validate;

pub use error::HnswError;
pub use graph::Metric;
pub use graph::NeighborSelection;
pub use index::HnswIndex;
pub use index::OpenOutcome;
pub use meta::ExpectedParams;
pub use params::HnswParams;
pub use params::NodeId;
pub use snapshot::Hnsw;
