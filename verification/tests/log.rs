use skvs::config::DatabaseConfig;
use skvs::replication::apply_operation;
use skvs::state::KvsState;
use skvs::wal::{frame_record, group_batch, OpType, Operation, WalBatch, WalEvent};

fn put(db_id: u32, key: u8, value: u8) -> Operation {
    Operation { db_id, table: "t".into(), op: OpType::Put { key: vec![key], value: vec![value] } }
}

fn key_of(o: &Operation) -> u8 {
    match &o.op {
        OpType::Put { key, .. } => key[0],
        OpType::Delete { key } => key[0],
    }
}

#[test]
fn a_batch_is_written_when_it_is_full() {
    let mut batch = WalBatch::new(2);
    let first = batch.step(WalEvent::Received(put(0, 1, 1)));
    assert!(first.write.is_none() && !first.snapshot);
    let second = batch.step(WalEvent::Received(put(0, 2, 2)));
    let written = second.write.unwrap();
    assert_eq!(written.iter().map(key_of).collect::<Vec<_>>(), vec![1, 2]);
    assert!(!second.snapshot);
    assert!(batch.ops.is_empty());
}

#[test]
fn a_tick_writes_what_waits_and_asks_for_a_snapshot() {
    let mut batch = WalBatch::new(10);
    let idle = batch.step(WalEvent::Tick);
    assert!(idle.write.is_none() && idle.snapshot);
    batch.step(WalEvent::Received(put(0, 1, 1)));
    let ticked = batch.step(WalEvent::Tick);
    assert_eq!(ticked.write.unwrap().len(), 1);
    assert!(ticked.snapshot);
    assert!(batch.ops.is_empty());
}

#[test]
fn a_flush_writes_what_waits_and_asks_for_no_snapshot() {
    let mut batch = WalBatch::new(10);
    let idle = batch.step(WalEvent::Flush);
    assert!(idle.write.is_none() && !idle.snapshot);
    batch.step(WalEvent::Received(put(0, 1, 1)));
    let flushed = batch.step(WalEvent::Flush);
    assert_eq!(flushed.write.unwrap().len(), 1);
    assert!(!flushed.snapshot);
    assert!(batch.ops.is_empty());
}

#[test]
fn writes_are_grouped_by_database_in_order() {
    let groups = group_batch(&vec![put(1, 1, 0), put(0, 2, 0), put(1, 3, 0), put(1, 4, 0)]);
    assert_eq!(groups.len(), 2);
    assert_eq!(groups[0].0, 1);
    assert_eq!(groups[0].1.iter().map(key_of).collect::<Vec<_>>(), vec![1, 3, 4]);
    assert_eq!(groups[1].0, 0);
    assert_eq!(groups[1].1.iter().map(key_of).collect::<Vec<_>>(), vec![2]);
}

#[test]
fn a_record_starts_with_its_length() {
    assert_eq!(frame_record(&vec![9, 8, 7]), vec![3, 0, 0, 0, 9, 8, 7]);
    let long = frame_record(&vec![5; 258]);
    assert_eq!(&long[..4], &[2, 1, 0, 0]);
    assert_eq!(long.len(), 262);
}

#[test]
fn the_writes_of_a_peer_are_carried_out() {
    let mut state = KvsState::new(&[DatabaseConfig { id: 0, name: "default".into() }]);
    assert!(apply_operation(&mut state, put(0, 1, 10)).is_empty());
    assert_eq!(state.get_raw(0, "t", &vec![1]), Some(vec![10]));
    let gone = Operation { db_id: 0, table: "t".into(), op: OpType::Delete { key: vec![1] } };
    apply_operation(&mut state, gone.clone());
    assert_eq!(state.get_raw(0, "t", &vec![1]), None);
}
