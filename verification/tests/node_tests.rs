use omni_spacetimedb::bonustask::AccessLogEntry;
use omni_spacetimedb::datastore::{DatastoreError, TxData, TxOffset};
use omni_spacetimedb::durability::{DatabaseLogEntry, LogSlot, LogView};
use omni_spacetimedb::node::{mutation_permitted, ApplyAction, LeaderAction, NodeState};

fn data(tag: u64) -> TxData {
    TxData { inserts: vec![], deletes: vec![], truncs: vec![omni_spacetimedb::datastore::TableId(tag)] }
}

fn decided(offset: u64) -> LogSlot {
    LogSlot::Decided(DatabaseLogEntry::new(TxOffset(offset), data(offset), AccessLogEntry::default()))
}

fn view(node_id: u64, leader: Option<u64>, decided_idx: usize, entries: Vec<LogSlot>) -> LogView {
    LogView { node_id, current_leader: leader, decided_idx, entries }
}

fn offsets(a: &ApplyAction) -> Option<Vec<TxOffset>> {
    match a {
        ApplyAction::Replay(txs) => Some(txs.iter().map(|(o, _)| *o).collect()),
        _ => None,
    }
}

#[test]
fn new_node_is_running_without_leader() {
    let n = NodeState::new(3);
    assert_eq!(*n.node_id(), 3);
    assert!(n.is_running());
    assert_eq!(n.current_leader(), None);
    assert_eq!(n.last_applied_index(), None);
    assert_eq!(n.received_messages_size(), 0);
    assert!(!n.got_promoted_leader());
}

#[test]
fn stop_marks_node_stopped() {
    let mut n = NodeState::new(3);
    n.stop();
    assert!(!n.is_running());
    assert_eq!(*n.node_id(), 3);
}

#[test]
fn received_sizes_add_up() {
    let mut n = NodeState::new(1);
    n.record_received(120);
    n.record_received(30);
    assert_eq!(n.received_messages_size(), 150);
}

#[test]
fn first_leader_is_adopted_without_action() {
    let mut n = NodeState::new(1);
    assert_eq!(n.update_leader(None), LeaderAction::Nothing);
    assert_eq!(n.current_leader(), None);
    assert_eq!(n.update_leader(Some(2)), LeaderAction::Nothing);
    assert_eq!(n.current_leader(), Some(2));
    // no leader seen: the known one is kept
    assert_eq!(n.update_leader(None), LeaderAction::Nothing);
    assert_eq!(n.current_leader(), Some(2));
}

#[test]
fn losing_leadership_asks_for_rollback() {
    let mut n = NodeState::new(1);
    n.update_leader(Some(1));
    assert_eq!(n.update_leader(Some(3)), LeaderAction::RollbackUnreplicated);
    assert_eq!(n.current_leader(), Some(3));
    assert!(!n.got_promoted_leader());
}

#[test]
fn promotion_asks_for_apply_and_marks_node() {
    let mut n = NodeState::new(1);
    n.update_leader(Some(2));
    assert_eq!(n.update_leader(Some(1)), LeaderAction::ApplyReplicated);
    assert_eq!(n.current_leader(), Some(1));
    assert!(n.got_promoted_leader());
    // seeing the same leader again does nothing
    assert_eq!(n.update_leader(Some(1)), LeaderAction::Nothing);
    assert!(n.got_promoted_leader());
}

#[test]
fn change_between_other_nodes_only_follows() {
    let mut n = NodeState::new(1);
    n.update_leader(Some(2));
    assert_eq!(n.update_leader(Some(3)), LeaderAction::Nothing);
    assert_eq!(n.current_leader(), Some(3));
}

#[test]
fn nothing_to_apply_without_decided_entry() {
    let mut n = NodeState::new(2);
    let log = view(2, Some(1), 0, vec![]);
    assert!(n.can_apply(&log, None));
    assert!(matches!(n.apply_replicated_txns(&log, None), ApplyAction::Nothing));
    assert_eq!(n.last_applied_index(), None);
}

#[test]
fn follower_replays_decided_transactions() {
    let mut n = NodeState::new(2);
    let log = view(2, Some(1), 3, vec![decided(0), decided(1), decided(2), LogSlot::Undecided(
        DatabaseLogEntry::new(TxOffset(3), data(3), AccessLogEntry::default()),
    )]);
    let a = n.apply_replicated_txns(&log, None);
    assert_eq!(offsets(&a), Some(vec![TxOffset(0), TxOffset(1), TxOffset(2)]));
    if let ApplyAction::Replay(txs) = &a {
        assert_eq!(*txs[0].1, data(0));
    }
    assert_eq!(n.last_applied_index(), Some(TxOffset(2)));
    // caught up: the next round does nothing
    assert!(matches!(n.apply_replicated_txns(&log, None), ApplyAction::Nothing));
}

#[test]
fn follower_continues_after_last_applied() {
    let mut n = NodeState::new(2);
    let log1 = view(2, Some(1), 2, vec![decided(0), decided(1)]);
    n.apply_replicated_txns(&log1, None);
    assert_eq!(n.last_applied_index(), Some(TxOffset(1)));
    let log2 = view(2, Some(1), 4, vec![decided(0), decided(1), decided(2), decided(3)]);
    let a = n.apply_replicated_txns(&log2, None);
    assert_eq!(offsets(&a), Some(vec![TxOffset(2), TxOffset(3)]));
    assert_eq!(n.last_applied_index(), Some(TxOffset(3)));
}

#[test]
fn leader_advances_replicated_offset() {
    let mut n = NodeState::new(1);
    n.update_leader(Some(1));
    let log = view(1, Some(1), 2, vec![decided(0), decided(1)]);
    assert!(matches!(n.apply_replicated_txns(&log, Some(TxOffset(1))), ApplyAction::AdvanceReplicated(TxOffset(1))));
    assert_eq!(n.last_applied_index(), Some(TxOffset(1)));
    assert!(matches!(n.apply_replicated_txns(&log, Some(TxOffset(1))), ApplyAction::Nothing));
}

#[test]
fn promoted_leader_behind_the_log_replays() {
    let mut n = NodeState::new(1);
    n.update_leader(Some(2));
    assert_eq!(n.update_leader(Some(1)), LeaderAction::ApplyReplicated);
    let log = view(1, Some(1), 3, vec![decided(0), decided(1), decided(2)]);
    // its datastore only reached offset 1: replay instead of advancing
    assert!(n.can_apply(&log, Some(TxOffset(1))));
    let a = n.apply_replicated_txns(&log, Some(TxOffset(1)));
    assert_eq!(offsets(&a), Some(vec![TxOffset(0), TxOffset(1), TxOffset(2)]));
    assert!(!n.got_promoted_leader());
    assert_eq!(n.last_applied_index(), Some(TxOffset(2)));
}

#[test]
fn promoted_leader_in_step_advances() {
    let mut n = NodeState::new(1);
    n.update_leader(Some(2));
    n.update_leader(Some(1));
    let log = view(1, Some(1), 3, vec![decided(0), decided(1), decided(2)]);
    assert!(matches!(n.apply_replicated_txns(&log, Some(TxOffset(2))), ApplyAction::AdvanceReplicated(TxOffset(2))));
    assert!(!n.got_promoted_leader());
}

#[test]
fn promoted_leader_needs_store_offset() {
    let mut n = NodeState::new(1);
    n.update_leader(Some(2));
    n.update_leader(Some(1));
    let log = view(1, Some(1), 1, vec![decided(0)]);
    assert!(!n.can_apply(&log, None));
    assert!(n.can_apply(&log, Some(TxOffset(0))));
}

#[test]
fn only_the_leader_may_mutate() {
    assert_eq!(mutation_permitted(&view(1, Some(1), 0, vec![])), Ok(()));
    assert_eq!(mutation_permitted(&view(2, Some(1), 0, vec![])), Err(DatastoreError::NotLeader));
    assert_eq!(mutation_permitted(&view(2, None, 0, vec![])), Err(DatastoreError::NotLeader));
}

#[test]
fn follower_replays_the_first_decided_transaction() {
    let mut n = NodeState::new(2);
    let log = view(2, Some(1), 1, vec![decided(0)]);
    let a = n.apply_replicated_txns(&log, None);
    assert_eq!(offsets(&a), Some(vec![TxOffset(0)]));
    assert_eq!(n.last_applied_index(), Some(TxOffset(0)));
    assert!(matches!(n.apply_replicated_txns(&log, None), ApplyAction::Nothing));
}

#[test]
fn follower_past_durable_position_replays_nothing_twice() {
    // offsets that differ from positions: the replay after offset 5 finds nothing
    let mut n = NodeState::new(2);
    let first = view(2, Some(1), 1, vec![decided(5)]);
    n.apply_replicated_txns(&first, None);
    assert_eq!(n.last_applied_index(), Some(TxOffset(5)));
    let log = view(2, Some(1), 2, vec![decided(5), decided(6)]);
    assert_eq!(offsets(&n.apply_replicated_txns(&log, None)), Some(vec![]));
    assert_eq!(offsets(&n.apply_replicated_txns(&log, None)), Some(vec![]));
    assert_eq!(n.last_applied_index(), Some(TxOffset(5)));
}
