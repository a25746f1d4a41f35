use clarity_db::epoch::{
    BurnStateDB, EpochTable, ExecutionCost, SortitionDB, StacksEpoch, StacksEpochId, PEER_VERSION_EPOCH_1_0,
    PEER_VERSION_EPOCH_2_0, PEER_VERSION_EPOCH_2_05, STACKS_EPOCH_MAX,
};

fn epoch(id: StacksEpochId, start: u64, end: u64, network: u8) -> StacksEpoch {
    StacksEpoch {
        epoch_id: id,
        start_height: start,
        end_height: end,
        block_limit: ExecutionCost::max_value(),
        network_epoch: network,
    }
}

fn three_epochs() -> Vec<StacksEpoch> {
    vec![
        epoch(StacksEpochId::Epoch10, 0, 8, PEER_VERSION_EPOCH_1_0),
        epoch(StacksEpochId::Epoch20, 8, 12, PEER_VERSION_EPOCH_2_0),
        epoch(StacksEpochId::Epoch2_05, 12, STACKS_EPOCH_MAX, PEER_VERSION_EPOCH_2_05),
    ]
}

fn test_burnstatedb_epoch<T: BurnStateDB>(
    burnstatedb: &T,
    height_start: u32,
    height_end: u32,
    epoch_20_height: u32,
    epoch_2_05_height: u32,
) {
    for height in height_start..height_end {
        let cur_epoch = burnstatedb.get_stacks_epoch(height).unwrap();
        if height < epoch_20_height {
            assert_eq!(cur_epoch.epoch_id, StacksEpochId::Epoch10);
        } else if height < epoch_2_05_height {
            assert_eq!(cur_epoch.epoch_id, StacksEpochId::Epoch20);
        } else {
            assert_eq!(cur_epoch.epoch_id, StacksEpochId::Epoch2_05);
        }
    }
}

#[test]
fn test_vm_epoch_switch() {
    let mut db = SortitionDB::connect(0, three_epochs()).unwrap();
    let start_height = db.tip_height() as u32;
    let mut end_height = 0;
    for _ in 0..20 {
        end_height = db.append_snapshot() as u32;
    }
    assert_eq!(end_height, 20);

    {
        let burndb = db.index_conn();
        test_burnstatedb_epoch(&burndb, start_height, end_height, 8, 12);
    }

    {
        let burntx = db.tx_handle_begin();
        test_burnstatedb_epoch(&burntx, start_height, end_height, 8, 12);
    }
}

#[test]
fn epoch_boundaries_are_exact() {
    let table = EpochTable::new(three_epochs()).unwrap();
    for h in 0..8u32 {
        assert_eq!(table.epoch_at(h).unwrap().epoch_id, StacksEpochId::Epoch10);
    }
    for h in 8..12u32 {
        assert_eq!(table.epoch_at(h).unwrap().epoch_id, StacksEpochId::Epoch20);
    }
    for h in [12u32, 13, 1000, u32::MAX] {
        assert_eq!(table.epoch_at(h).unwrap().epoch_id, StacksEpochId::Epoch2_05);
    }
    assert_eq!(table.epoch_at(7).unwrap().network_epoch, PEER_VERSION_EPOCH_1_0);
    assert_eq!(table.epoch_at(12).unwrap().network_epoch, PEER_VERSION_EPOCH_2_05);
    assert_eq!(table.epoch_at(11).unwrap().end_height, 12);
}

#[test]
fn handles_agree_on_every_height() {
    let mut db = SortitionDB::connect(0, three_epochs()).unwrap();
    let conn = db.index_conn();
    let mut tx = db.tx_handle_begin();
    assert_eq!(tx.append_snapshot(), 1);
    assert_eq!(tx.append_snapshot(), 2);
    assert_eq!(tx.pending_snapshots(), 2);
    for h in 0..64u32 {
        assert_eq!(conn.get_stacks_epoch(h), tx.get_stacks_epoch(h));
        assert!(conn.get_stacks_epoch(h).is_some());
    }
    db.append_snapshot();
    let later = db.index_conn();
    assert_eq!(later.get_stacks_epoch(9), conn.get_stacks_epoch(9));
}

#[test]
fn malformed_tables_are_refused() {
    assert!(EpochTable::new(vec![]).is_none());
    let mut gap = three_epochs();
    gap[1].start_height = 9;
    assert!(EpochTable::new(gap).is_none());
    let mut overlap = three_epochs();
    overlap[1].start_height = 7;
    assert!(EpochTable::new(overlap).is_none());
    let mut late_start = three_epochs();
    late_start[0].start_height = 1;
    assert!(EpochTable::new(late_start).is_none());
    let mut short = three_epochs();
    short[2].end_height = 100;
    assert!(EpochTable::new(short).is_none());
    let mut empty_interval = three_epochs();
    empty_interval[1].end_height = 8;
    empty_interval[2].start_height = 8;
    assert!(EpochTable::new(empty_interval).is_none());
    assert!(SortitionDB::connect(0, vec![epoch(StacksEpochId::Epoch10, 0, 8, 0)]).is_none());
    let single = vec![epoch(StacksEpochId::Epoch20, 0, STACKS_EPOCH_MAX, 0)];
    assert!(EpochTable::new(single).is_some());
}

#[test]
fn unlimited_budget() {
    let c = ExecutionCost::max_value();
    assert_eq!(c.runtime, u64::MAX);
    assert_eq!(c.read_count, u64::MAX);
    assert_eq!(c.write_length, u64::MAX);
}
