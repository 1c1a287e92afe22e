//! The writes that come from the peer.
use vstd::prelude::*;

use crate::state;
use crate::state::KvsState;
use crate::wal::{OpType, OpTypeV, Operation};

verus! {

/// Carries out a write of the peer. Like a local write it may move entries out of memory: they
/// are handed out, to be kept elsewhere, and which they are is open.
pub fn apply_operation(state: &mut KvsState, op: Operation) -> (spilled: Vec<(Vec<u8>, Vec<u8>)>)
    ensures
        match op@.op {
            OpTypeV::Put { key, value } => state::raw_put(
                old(state)@,
                final(state)@,
                op@.db,
                op@.table,
                key,
                value,
                state::entry_views(spilled@),
            ),
            OpTypeV::Delete { key } => {
                &&& final(state)@ == state::raw_removed(old(state)@, op@.db, op@.table, key)
                &&& spilled@.len() == 0
            },
        },
{
    match op.op {
        OpType::Put { key, value } => state.put_raw(op.db_id, op.table.as_str(), key, value),
        OpType::Delete { key } => {
            state.remove_raw(op.db_id, op.table.as_str(), &key);
            Vec::new()
        },
    }
}

} // verus!
