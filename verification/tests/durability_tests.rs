use omni_spacetimedb::bonustask::AccessLogEntry;
use omni_spacetimedb::datastore::{InsertList, RowData, TableId, TxData, TxOffset};
use omni_spacetimedb::durability::{
    omnipaxos_config, DatabaseLogEntry, DurabilityError, LogSlot, LogView,
};

fn tx_data(tag: u8) -> TxData {
    TxData {
        inserts: vec![InsertList { table_id: TableId(7), inserts: vec![RowData(vec![tag, tag])] }],
        deletes: vec![],
        truncs: vec![TableId(tag as u64)],
    }
}

fn access_entry() -> AccessLogEntry {
    // 10.223.157.186 - - [15/Jul/2009:14:58:59 -0700] "GET / HTTP/1.1" 403 202
    AccessLogEntry {
        ip: "10.223.157.186".to_string(),
        day: 15,
        month: "Jul".to_string(),
        year: 2009,
        time: "14:58:59".to_string(),
        offset: -700,
        method: "GET".to_string(),
        url: "/".to_string(),
        protocol: "HTTP/1.1".to_string(),
        status_code: 403,
        response_size: 202,
    }
}

fn entry(offset: u64, tag: u8) -> DatabaseLogEntry {
    DatabaseLogEntry::new(TxOffset(offset), tx_data(tag), AccessLogEntry::default())
}

fn log(decided_idx: usize, entries: Vec<LogSlot>) -> LogView {
    LogView { node_id: 2, current_leader: Some(1), decided_idx, entries }
}

#[test]
fn log_entry_combines_access_log_fields() {
    let e = DatabaseLogEntry::new(TxOffset(3), tx_data(1), access_entry());
    assert_eq!(e.tx_offset, TxOffset(3));
    assert_eq!(e.tx_data, tx_data(1));
    assert_eq!(e.ip, "10.223.157.186");
    assert_eq!(e.date, "15 - Jul - 2009");
    assert_eq!(e.time, "14:58:59");
    assert_eq!(e.offset, -700);
    assert_eq!(e.url, "/");
    assert_eq!(e.method_protocol_status, "GET - HTTP/1.1 - 403");
    assert_eq!(e.response_size, 202);
}

#[test]
fn log_entry_renders_small_and_zero_numbers() {
    let mut ale = access_entry();
    ale.day = 5;
    ale.year = 0;
    ale.status_code = 65535;
    let e = DatabaseLogEntry::new(TxOffset(0), tx_data(0), ale);
    assert_eq!(e.date, "5 - Jul - 0");
    assert_eq!(e.method_protocol_status, "GET - HTTP/1.1 - 65535");
}

#[test]
fn log_entry_from_default_access_entry() {
    let e = entry(9, 2);
    assert_eq!(e.date, "0 -  - 0");
    assert_eq!(e.method_protocol_status, " -  - 0");
    assert_eq!(e.ip, "");
}

#[test]
fn durable_offset_is_last_decided_position() {
    let l = log(3, vec![
        LogSlot::Decided(entry(0, 0)),
        LogSlot::Decided(entry(1, 1)),
        LogSlot::Decided(entry(2, 2)),
        LogSlot::Undecided(entry(3, 3)),
    ]);
    assert_eq!(l.get_durable_tx_offset(), TxOffset(2));
    assert_eq!(l.get_durable_tx_offset_optional(), Some(TxOffset(2)));
}

#[test]
fn durable_offset_with_nothing_decided() {
    let empty = log(0, vec![]);
    assert_eq!(empty.get_durable_tx_offset(), TxOffset(0));
    assert_eq!(empty.get_durable_tx_offset_optional(), None);
    let undecided = log(0, vec![LogSlot::Undecided(entry(0, 0))]);
    assert_eq!(undecided.get_durable_tx_offset(), TxOffset(0));
    assert_eq!(undecided.get_durable_tx_offset_optional(), None);
}

#[test]
fn durable_offset_optional_needs_decided_entry() {
    let trimmed = log(2, vec![LogSlot::Trimmed, LogSlot::Snapshotted]);
    // no decided entry at the durable position: its position
    assert_eq!(trimmed.get_durable_tx_offset(), TxOffset(1));
    assert_eq!(trimmed.get_durable_tx_offset_optional(), None);
    // the durable offset is the transaction's own offset, not its position
    let shifted = log(2, vec![LogSlot::Decided(entry(40, 0)), LogSlot::Decided(entry(41, 1))]);
    assert_eq!(shifted.get_durable_tx_offset_optional(), Some(TxOffset(41)));
    assert_eq!(shifted.get_durable_tx_offset(), TxOffset(41));
    // every entry appended with offset 0
    let zeros = log(3, vec![
        LogSlot::Decided(entry(0, 0)),
        LogSlot::Decided(entry(0, 1)),
        LogSlot::Decided(entry(0, 2)),
    ]);
    assert_eq!(zeros.get_durable_tx_offset(), TxOffset(0));
    assert_eq!(Some(zeros.get_durable_tx_offset()), zeros.get_durable_tx_offset_optional());
    // at most one decided transaction: 0
    let one = log(1, vec![LogSlot::Decided(entry(5, 0))]);
    assert_eq!(one.get_durable_tx_offset(), TxOffset(0));
    assert_eq!(one.get_durable_tx_offset_optional(), Some(TxOffset(5)));
}

#[test]
fn read_decided_only_returns_decided() {
    let l = log(1, vec![LogSlot::Decided(entry(0, 4)), LogSlot::Undecided(entry(1, 5)), LogSlot::StopSign]);
    assert_eq!(l.read_decided_at_position(0), Some((TxOffset(0), &tx_data(4))));
    assert_eq!(l.read_decided_at_position(1), None);
    assert_eq!(l.read_decided_at_position(2), None);
}

#[test]
fn replay_starts_after_offset_and_stops_at_decided_index() {
    let l = log(3, vec![
        LogSlot::Decided(entry(0, 0)),
        LogSlot::Decided(entry(1, 1)),
        LogSlot::Decided(entry(2, 2)),
        LogSlot::Decided(entry(3, 3)),
        LogSlot::Decided(entry(4, 4)),
    ]);
    let txs = l.iter_starting_from_offset(TxOffset(0));
    let got: Vec<(TxOffset, TxData)> = txs.into_iter().map(|(o, d)| (o, d.clone())).collect();
    // positions 1..=3
    assert_eq!(got, vec![(TxOffset(1), tx_data(1)), (TxOffset(2), tx_data(2)), (TxOffset(3), tx_data(3))]);
    let from_two: Vec<TxOffset> = l.iter_starting_from_offset(TxOffset(2)).into_iter().map(|(o, _)| o).collect();
    assert_eq!(from_two, vec![TxOffset(3)]);
    assert!(l.iter_starting_from_offset(TxOffset(3)).is_empty());
    assert!(l.iter_starting_from_offset(TxOffset(10)).is_empty());
}

#[test]
fn replay_skips_undecided_and_missing_positions() {
    let l = log(4, vec![
        LogSlot::Decided(entry(0, 0)),
        LogSlot::Trimmed,
        LogSlot::Decided(entry(2, 2)),
        LogSlot::Undecided(entry(3, 3)),
    ]);
    let offsets: Vec<TxOffset> = l.iter().into_iter().map(|(o, _)| o).collect();
    assert_eq!(offsets, vec![TxOffset(2)]);
    let all: Vec<TxOffset> = l.replay_all().into_iter().map(|(o, _)| o).collect();
    assert_eq!(all, vec![TxOffset(0), TxOffset(2)]);
}

#[test]
fn replay_with_nothing_decided_reads_the_offset_itself() {
    let l = log(0, vec![LogSlot::Decided(entry(0, 0)), LogSlot::Undecided(entry(1, 1))]);
    let offsets: Vec<TxOffset> = l.iter_starting_from_offset(TxOffset(0)).into_iter().map(|(o, _)| o).collect();
    assert_eq!(offsets, vec![TxOffset(0)]);
    assert!(l.iter_starting_from_offset(TxOffset(1)).is_empty());
}

#[test]
fn leader_queries() {
    let mut l = log(0, vec![]);
    assert_eq!(l.get_current_leader(), Some(1));
    assert!(!l.is_leader());
    l.current_leader = Some(2);
    assert!(l.is_leader());
    l.current_leader = None;
    assert!(!l.is_leader());
    assert_eq!(l.get_current_leader(), None);
}

#[test]
fn config_accepted_for_member_of_cluster() {
    let nodes = vec![1, 2, 3, 4, 5];
    assert!(omnipaxos_config(3, &nodes).is_ok());
    let c = omnipaxos_config(1, &nodes).unwrap();
    assert_eq!(c.cluster_config.configuration_id, 1);
    assert_eq!(c.cluster_config.nodes, nodes);
    assert_eq!(c.server_config.pid, 1);
    assert_eq!(c.server_config.election_tick_timeout, 5);
}

#[test]
fn config_refused_outside_cluster() {
    assert_eq!(omnipaxos_config(6, &vec![1, 2, 3]).err(), Some(DurabilityError::InvalidConfig));
    assert_eq!(omnipaxos_config(1, &vec![1]).err(), Some(DurabilityError::InvalidConfig));
    assert_eq!(omnipaxos_config(0, &vec![0, 1]).err(), Some(DurabilityError::InvalidConfig));
    assert!(omnipaxos_config(1, &vec![1, 2]).is_ok());
}

#[test]
fn durable_offset_agrees_with_read_at_durable_position() {
    let logs = vec![
        log(2, vec![LogSlot::Decided(entry(10, 0)), LogSlot::Decided(entry(11, 1))]),
        log(2, vec![LogSlot::Decided(entry(10, 0)), LogSlot::Trimmed]),
        log(1, vec![LogSlot::Undecided(entry(10, 0))]),
    ];
    for l in &logs {
        let pos = (l.decided_idx - 1) as u64;
        let read = l.read_decided_at_position(pos).map(|(o, _)| o);
        assert_eq!(l.get_durable_tx_offset_optional(), read);
        let expected = if l.decided_idx <= 1 {
            TxOffset(0)
        } else {
            read.unwrap_or(TxOffset(pos))
        };
        assert_eq!(l.get_durable_tx_offset(), expected);
    }
}

#[test]
fn replay_all_yields_every_decided_transaction_in_order() {
    let l = log(3, vec![
        LogSlot::Decided(entry(0, 0)),
        LogSlot::Decided(entry(1, 1)),
        LogSlot::Decided(entry(2, 2)),
        LogSlot::Undecided(entry(3, 3)),
    ]);
    let got: Vec<(TxOffset, TxData)> = l.replay_all().into_iter().map(|(o, d)| (o, d.clone())).collect();
    assert_eq!(got, vec![(TxOffset(0), tx_data(0)), (TxOffset(1), tx_data(1)), (TxOffset(2), tx_data(2))]);
    // iter is the replay after offset 0
    assert_eq!(l.iter(), l.iter_starting_from_offset(TxOffset(0)));
    // a replay after an offset yields a suffix of it
    let after_one: Vec<TxOffset> = l.iter_starting_from_offset(TxOffset(1)).into_iter().map(|(o, _)| o).collect();
    assert_eq!(after_one, vec![TxOffset(2)]);
    let nothing = log(0, vec![LogSlot::Undecided(entry(0, 0))]);
    assert!(nothing.iter().is_empty());
    assert!(nothing.replay_all().is_empty());
}
