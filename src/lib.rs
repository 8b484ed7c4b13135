// A transactional, ordered key-value index engine.
//
// `key` orders keys and records, `store` keeps the records of one index in that
// order, `lock` grants index locks and detects cycles of waits, and `engine` ties
// them into a catalog of named indexes with handles, cursors and transactions.
// `laws` states what a scan and a deletion guarantee across calls.
use vstd::prelude::*;

pub mod engine;
pub mod key;
pub mod laws;
pub mod lock;
pub mod store;

pub use engine::{
    abort_transaction, begin_transaction, close_index, commit_transaction, create, delete_record, drop,
    get, get_next, insert_record, open_index, Database, IdxState, TxnState,
};
pub use key::{Key, KeyType};

verus! {

/// A payload: a UTF-8 string stored with a key.
pub type Payload = String;

/// Status of a failed engine operation.
#[derive(Debug, Clone, Copy, PartialEq, Eq, Structural)]
pub enum ErrCode {
    DbDne,
    DbExists,
    DbEnd,
    KeyNotFound,
    TxnExists,
    TxnDne,
    EntryExists,
    EntryDne,
    Deadlock,
    Failure,
    /// A lock is held by another transaction: the wait is recorded, and the call
    /// is to be made again once that transaction ends.
    WouldBlock,
}

} // verus!
