//! A content-addressed delta index: fixed-width nodes mapped to where their
//! payloads lie in a pack file, found through a fanout table and bisection
//! over sorted 40-byte records; and the parents of revisions in a packed
//! revision log with an in-memory tail.
use vstd::prelude::*;

pub mod codec;
pub mod node;
pub mod error;
pub mod entry;
pub mod dataindex;
pub mod writer;
pub mod revlog;
pub mod layout;

pub use dataindex::{DataIndex, DataIndexOptions};
pub use entry::{DeltaBaseOffset, DeltaLocation, IndexEntry};
pub use error::{DataIndexError, HeaderFault};
pub use node::Node;
pub use revlog::{Phase, RevlogIndex};

verus! {

} // verus!
