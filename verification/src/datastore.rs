use vstd::prelude::*;

verus! {

/// Position of a committed transaction in the datastore's transaction history.
#[derive(Clone, Copy, Debug, PartialEq, Eq, Structural, Hash)]
pub struct TxOffset(pub u64);

/// Identifier of a table of the datastore.
#[derive(Clone, Copy, Debug, PartialEq, Eq, Structural, Hash)]
pub struct TableId(pub u64);

/// The encoded bytes of one row.
#[derive(Clone, Debug, PartialEq, Eq)]
pub struct RowData(pub Vec<u8>);

/// Rows inserted into one table by a transaction.
#[derive(Clone, Debug, PartialEq, Eq)]
pub struct InsertList {
    pub table_id: TableId,
    pub inserts: Vec<RowData>,
}

/// Rows deleted from one table by a transaction.
#[derive(Clone, Debug, PartialEq, Eq)]
pub struct DeleteList {
    pub table_id: TableId,
    pub deletes: Vec<RowData>,
}

/// Everything a committed transaction changed: inserted rows, deleted rows and truncated tables.
#[derive(Clone, Debug, PartialEq, Eq)]
pub struct TxData {
    pub inserts: Vec<InsertList>,
    pub deletes: Vec<DeleteList>,
    pub truncs: Vec<TableId>,
}

/// The outcome of committing a mutable transaction: where it landed and what it changed.
#[derive(Clone, Debug)]
pub struct TxResult {
    pub tx_offset: TxOffset,
    pub tx_data: TxData,
}

/// How durable the state seen by a read transaction must be.
#[derive(Clone, Copy, Debug, PartialEq, Eq, Structural)]
pub enum DurabilityLevel {
    /// Everything committed locally, including transactions not yet replicated.
    Memory,
    /// Only transactions that the replicated log has decided.
    Replicated,
}

/// Errors the node reports to the datastore's clients.
#[derive(Clone, Copy, Debug, PartialEq, Eq, Structural)]
pub enum DatastoreError {
    /// Mutable transactions may only be started and committed on the leader.
    NotLeader,
}

} // verus!
