//! What compaction knows of a sorted string table.

use crate::key::KeyVec;
use vstd::prelude::*;

verus! {

/// The id of a table, the range of its keys and the size of its file.
pub struct SsTable {
    pub id: usize,
    pub first_key: KeyVec,
    pub last_key: KeyVec,
    pub table_size: u64,
}

impl Clone for SsTable {
    fn clone(&self) -> (r: SsTable)
        ensures
            r.id == self.id,
            r.first_key@ == self.first_key@,
            r.last_key@ == self.last_key@,
            r.table_size == self.table_size,
    {
        SsTable {
            id: self.id,
            first_key: self.first_key.clone(),
            last_key: self.last_key.clone(),
            table_size: self.table_size,
        }
    }
}

impl SsTable {
    pub fn sst_id(&self) -> (r: usize)
        ensures
            r == self.id,
    {
        self.id
    }

    pub fn first_key(&self) -> (r: &KeyVec)
        ensures
            *r == self.first_key,
    {
        &self.first_key
    }

    pub fn last_key(&self) -> (r: &KeyVec)
        ensures
            *r == self.last_key,
    {
        &self.last_key
    }

    pub fn table_size(&self) -> (r: u64)
        ensures
            r == self.table_size,
    {
        self.table_size
    }
}

} // verus!
