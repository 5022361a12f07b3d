use omni_spacetimedb::connections::ConnectionTable;
use std::collections::HashMap;

fn channels(ids: &[u64]) -> HashMap<u64, String> {
    ids.iter().map(|id| (*id, format!("channel-{}", id))).collect()
}

fn peers_of(ids: &[u64], own: u64) -> HashMap<u64, String> {
    let mut all = channels(ids);
    all.remove(&own);
    all
}

fn tables(ids: &[u64]) -> HashMap<u64, ConnectionTable<String>> {
    ids.iter().map(|id| (*id, ConnectionTable::new(peers_of(ids, *id)))).collect()
}

fn delete(tables: &mut HashMap<u64, ConnectionTable<String>>, a: u64, b: u64) {
    tables.get_mut(&a).unwrap().disconnect(b);
    tables.get_mut(&b).unwrap().disconnect(a);
}

#[test]
fn new_table_connects_every_other_node() {
    let t = ConnectionTable::new(peers_of(&[1, 2, 3, 4, 5], 3));
    assert_eq!(t.len(), 4);
    assert!(!t.contains_key(3));
    assert!(t.contains_key(1));
    assert_eq!(t.route(5), Some(&"channel-5".to_string()));
    assert_eq!(t.route(3), None);
    assert_eq!(t.disconnected_len(), 0);
}

#[test]
fn new_table_keeps_the_channels_as_given() {
    let t = ConnectionTable::new(channels(&[1, 2]));
    assert_eq!(t.len(), 2);
    assert_eq!(t.route(1), Some(&"channel-1".to_string()));
    let mut peers = t.peers();
    peers.sort();
    assert_eq!(peers, vec![1, 2]);
}

#[test]
fn disconnect_and_reconnect_one_peer() {
    let mut t = ConnectionTable::new(peers_of(&[1, 2, 3], 1));
    t.disconnect(2);
    assert_eq!(t.len(), 1);
    assert_eq!(t.route(2), None);
    assert_eq!(t.disconnected_len(), 1);
    t.disconnect(2);
    assert_eq!(t.len(), 1);
    assert_eq!(t.disconnected_len(), 1);
    t.reconnect(2);
    assert_eq!(t.len(), 2);
    assert_eq!(t.route(2), Some(&"channel-2".to_string()));
    assert_eq!(t.disconnected_len(), 0);
}

#[test]
fn reconnect_all_restores_every_channel() {
    let mut t = ConnectionTable::new(peers_of(&[1, 2, 3, 4, 5], 1));
    t.disconnect(2);
    t.disconnect(4);
    t.disconnect(5);
    assert_eq!(t.len(), 1);
    t.reconnect_all();
    assert_eq!(t.len(), 4);
    assert_eq!(t.disconnected_len(), 0);
    for p in [2, 3, 4, 5] {
        assert_eq!(t.route(p), Some(&format!("channel-{}", p)));
    }
}

#[test]
fn chained_partial_connectivity_counts() {
    let servers = [1, 2, 3, 4];
    let mut ts = tables(&servers);
    for id in servers {
        assert_eq!(ts[&id].len(), servers.len() - 1);
    }
    let (leader, f) = (1u64, [2u64, 3, 4]);
    let keep = [(leader, f[0]), (f[0], f[1]), (f[1], f[2])];
    for a in servers {
        for b in servers {
            if a != b && !keep.contains(&(a, b)) && !keep.contains(&(b, a)) {
                delete(&mut ts, a, b);
            }
        }
    }
    for id in servers {
        if id == leader || id == f[2] {
            assert_eq!(ts[&id].len(), 1);
        } else {
            assert_eq!(ts[&id].len(), 2);
        }
    }
}

#[test]
fn quorum_loss_connectivity_counts() {
    let servers = [1, 2, 3, 4, 5];
    let mut ts = tables(&servers);
    let hub = 3u64;
    for a in servers {
        for b in servers {
            if a != b && a != hub && b != hub {
                delete(&mut ts, a, b);
            }
        }
    }
    for id in servers {
        assert_eq!(ts[&id].len(), if id == hub { 4 } else { 1 });
    }
    for t in ts.values_mut() {
        t.reconnect_all();
    }
    for id in servers {
        assert_eq!(ts[&id].len(), 4);
    }
}
