//! Tracks the subset of a blockchain's state that touches a set of watched
//! output scripts: which transactions and outputs are relevant, how they sit
//! in the locally known best chain, and which unspent outputs exist
//! canonically at the current tip.  State survives reorganizations and
//! mempool eviction, and every mutation is exposed as an incrementally
//! mergeable [`changeset::ChangeSet`] for persistence.

pub mod types;
pub mod changeset;
pub mod chain;
pub mod graph;
pub mod canonical;
pub mod tracker;

pub use changeset::ChangeSet;
pub use tracker::SpkTracker;
pub use tracker::BlockData;
pub use tracker::BlockEvent;
pub use tracker::MempoolEvent;
pub use types::Anchor;
pub use types::Checkpoint;
pub use types::FullOut;
pub use types::Network;
pub use types::OutPoint;
pub use types::Position;
pub use types::TrackerError;
pub use types::Tx;
pub use types::TxOut;
