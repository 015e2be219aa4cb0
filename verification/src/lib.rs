//! OrbitDB-compatible oplog entries: the canonical dag-cbor encoding of an
//! entry and of its signed projection, the entry hash (a CIDv1 over the
//! encoding), secp256k1 signature checks, the clock order that settles
//! conflicts, and a content-addressed entry store.

pub mod bytes;
pub mod ipld;
pub mod cbor;
pub mod hexcodec;
pub mod multiformats;
pub mod secp256k1;
pub mod entry;
pub mod order;
pub mod store;

pub use cbor::EncodeError;
pub use entry::{cid_of, verify_secp256k1, Clock, Entry, EntryError};
pub use hexcodec::HexError;
pub use ipld::Ipld;
pub use order::{compare_clocks, last_write_wins, no_zeroes, NoZeroError};
pub use store::{EntryStore, MemoryStore};
pub mod canonical;
pub mod injectivity;
