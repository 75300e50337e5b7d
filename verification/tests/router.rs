use engula::descriptor::{
    CollectionDesc, CollectionPartition, DatabaseDesc, DeleteEvent, GroupDesc, GroupState,
    HashPartition, NodeDesc, RaftRole, RangePartition, ReplicaDesc, ReplicaRole, ReplicaState,
    ShardDesc, ShardPartition, UpdateEvent, WatchResponse,
};
use engula::error::ErrorKind;
use engula::router::state::{leader_state, RouterGroupState, State};
use engula::router::updater::{is_applicable, is_defined, Backoff, Step};

fn shard(id: u64) -> ShardDesc {
    ShardDesc {
        id,
        collection_id: 1,
        partition: Some(ShardPartition::Hash(HashPartition { slot_id: 1, slots: 1 })),
    }
}

fn descriptor(id: u64, epoch: u64) -> GroupDesc {
    GroupDesc { id, epoch, shards: vec![], replicas: vec![] }
}

fn descriptor_with(id: u64, epoch: u64, shards: &[u64]) -> GroupDesc {
    GroupDesc { id, epoch, shards: shards.iter().map(|s| shard(*s)).collect(), replicas: vec![] }
}

fn replica(replica_id: u64, term: u64, role: RaftRole) -> ReplicaState {
    ReplicaState { replica_id, group_id: 1, term, voted_for: 0, role, node_id: replica_id }
}

fn hashed(co: u64, id: u64, slot_id: u32, slots: u32) -> ShardDesc {
    ShardDesc {
        id,
        collection_id: co,
        partition: Some(ShardPartition::Hash(HashPartition { slot_id, slots })),
    }
}

fn ranged(co: u64, id: u64, start: &[u8], end: &[u8]) -> ShardDesc {
    ShardDesc {
        id,
        collection_id: co,
        partition: Some(ShardPartition::Range(RangePartition {
            start: start.to_vec(),
            end: end.to_vec(),
        })),
    }
}

fn collection(id: u64, partition: Option<CollectionPartition>) -> CollectionDesc {
    CollectionDesc { id, name: format!("co{}", id), db: 1, partition }
}

#[test]
fn update_shard_by_group_descriptor() {
    // Shard 1 migrated from group 1 to group 2.

    // The report of group 2 as the new owner is lost.
    {
        let mut state = State::new();
        let mut desc = descriptor(1, 1);
        desc.shards.push(shard(1));
        state.apply_group_descriptor(desc);
        state.apply_group_descriptor(descriptor(2, 1));
        let find = state.find_group_by_shard(1);
        assert!(matches!(find, Some(RouterGroupState { id, .. }) if id == 1));

        // shard migrated to group 2.
        let group_1 = descriptor(1, 1 + (1 << 32));
        state.apply_group_descriptor(group_1);
        assert!(state.find_group_by_shard(1).is_none());
    }

    // Group 2 reports before group 1.
    {
        let mut state = State::new();
        let mut desc = descriptor(1, 1);
        desc.shards.push(shard(1));
        state.apply_group_descriptor(desc);
        state.apply_group_descriptor(descriptor(2, 1));
        let find = state.find_group_by_shard(1);
        assert!(matches!(find, Some(RouterGroupState { id, .. }) if id == 1));

        // shard migrated to group 2.
        let mut group_2 = descriptor(2, 1 + (1 << 32));
        group_2.shards.push(shard(1));
        state.apply_group_descriptor(group_2);
        let find = state.find_group_by_shard(1);
        assert!(matches!(find, Some(RouterGroupState { id, .. }) if id == 2));

        let group_1 = descriptor(1, 1 + (1 << 32));
        state.apply_group_descriptor(group_1);
        let find = state.find_group_by_shard(1);
        assert!(matches!(find, Some(RouterGroupState { id, .. }) if id == 2));
    }

    // Group 1 changes its configuration before the migration has finished.
    {
        let mut state = State::new();
        let mut desc = descriptor(1, 1);
        desc.shards.push(shard(1));
        state.apply_group_descriptor(desc);
        state.apply_group_descriptor(descriptor(2, 1));
        let find = state.find_group_by_shard(1);
        assert!(matches!(find, Some(RouterGroupState { id, .. }) if id == 1));

        // shard migrated to group 2.
        let mut group_2 = descriptor(2, 1 + (1 << 32));
        group_2.shards.push(shard(1));
        state.apply_group_descriptor(group_2);
        let find = state.find_group_by_shard(1);
        assert!(matches!(find, Some(RouterGroupState { id, .. }) if id == 2));

        // group 1 change configs before migration finished.
        let group_1 = descriptor(1, 2);
        state.apply_group_descriptor(group_1);

        let find = state.find_group_by_shard(1);
        assert!(matches!(find, Some(RouterGroupState { id, .. }) if id == 2));

        // group 1 finish migration.
        let group_1 = descriptor(1, 2 + (1 << 32));
        state.apply_group_descriptor(group_1);
        let find = state.find_group_by_shard(1);
        assert!(matches!(find, Some(RouterGroupState { id, .. }) if id == 2));
    }
}

#[test]
fn router_migration_donor_reports_alone() {
    let mut state = State::new();
    state.apply_group_descriptor(descriptor_with(1, 1, &[1]));
    state.apply_group_descriptor(descriptor_with(2, 1, &[]));
    assert_eq!(state.find_group_by_shard(1).unwrap().id, 1);
    state.apply_group_descriptor(descriptor_with(1, 1 + (1 << 32), &[]));
    assert!(state.find_group_by_shard(1).is_none());
    let missing = state.find_group_of_shard(1).unwrap_err();
    assert_eq!(missing.kind(), ErrorKind::NotFound);
    assert_eq!(missing.message(), "group (shard=1)");
}

#[test]
fn router_migration_receiver_reports_first() {
    let mut state = State::new();
    state.apply_group_descriptor(descriptor_with(1, 1, &[1]));
    state.apply_group_descriptor(descriptor_with(2, 1, &[]));
    state.apply_group_descriptor(descriptor_with(2, 1 + (1 << 32), &[1]));
    assert_eq!(state.find_group_by_shard(1).unwrap().id, 2);
    state.apply_group_descriptor(descriptor_with(1, 1 + (1 << 32), &[]));
    assert_eq!(state.find_group_by_shard(1).unwrap().id, 2);
    assert_eq!(state.find_group_of_shard(1).unwrap().epoch, 1 + (1 << 32));
}

#[test]
fn router_config_change_before_migration_ends() {
    let mut state = State::new();
    state.apply_group_descriptor(descriptor_with(1, 1, &[1]));
    state.apply_group_descriptor(descriptor_with(2, 1, &[]));
    state.apply_group_descriptor(descriptor_with(2, 1 + (1 << 32), &[1]));
    state.apply_group_descriptor(descriptor_with(1, 2, &[]));
    assert_eq!(state.find_group_by_shard(1).unwrap().id, 2);
}

#[test]
fn router_epoch_never_goes_down() {
    // The owner recorded for a shard is the one that listed it at the highest epoch,
    // in whatever order the descriptors arrive.
    let orders: [[(u64, u64); 4]; 3] = [
        [(1, 5), (2, 9), (3, 7), (1, 8)],
        [(2, 9), (1, 5), (1, 8), (3, 7)],
        [(3, 7), (1, 8), (2, 9), (1, 5)],
    ];
    for order in orders {
        let mut state = State::new();
        for (group, epoch) in order {
            state.apply_group_descriptor(descriptor_with(group, epoch, &[4]));
        }
        let owner = state.find_group_by_shard(4).unwrap();
        assert_eq!((owner.id, owner.epoch), (2, 9));
    }
}

#[test]
fn router_equal_epoch_does_not_take_over() {
    let mut state = State::new();
    state.apply_group_descriptor(descriptor_with(1, 3, &[4]));
    state.apply_group_descriptor(descriptor_with(2, 3, &[4]));
    assert_eq!(state.find_group_by_shard(4).unwrap().id, 1);
}

#[test]
fn router_descriptor_keeps_leader_and_report_replaces_it() {
    let mut state = State::new();
    state.apply_group_descriptor(descriptor(1, 1));
    assert_eq!(state.find_group(1).unwrap().leader_state, None);
    state.apply_update_event(UpdateEvent::GroupState(GroupState {
        group_id: 1,
        leader_id: Some(7),
        replicas: vec![replica(7, 3, RaftRole::Leader), replica(8, 3, RaftRole::Follower)],
    }));
    assert_eq!(state.find_group(1).unwrap().leader_state, Some((7, 3)));
    state.apply_group_descriptor(descriptor(1, 2));
    let group = state.find_group(1).unwrap();
    assert_eq!((group.epoch, group.leader_state), (2, Some((7, 3))));
    state.apply_update_event(UpdateEvent::GroupState(GroupState {
        group_id: 1,
        leader_id: Some(8),
        replicas: vec![replica(7, 3, RaftRole::Leader), replica(8, 4, RaftRole::Leader)],
    }));
    assert_eq!(state.find_group(1).unwrap().leader_state, Some((8, 4)));
}

#[test]
fn router_report_before_descriptor_is_kept_for_it() {
    let mut state = State::new();
    state.apply_update_event(UpdateEvent::GroupState(GroupState {
        group_id: 5,
        leader_id: Some(2),
        replicas: vec![replica(2, 6, RaftRole::Leader)],
    }));
    assert!(state.find_group(5).is_err());
    state.apply_update_event(UpdateEvent::Group(GroupDesc {
        id: 5,
        epoch: 1,
        shards: vec![],
        replicas: vec![
            ReplicaDesc { id: 2, node_id: 20, role: ReplicaRole::Voter },
            ReplicaDesc { id: 3, node_id: 30, role: ReplicaRole::Learner },
            ReplicaDesc { id: 2, node_id: 21, role: ReplicaRole::Voter },
        ],
    }));
    let group = state.find_group(5).unwrap();
    assert_eq!(group.leader_state, Some((2, 6)));
    assert_eq!(group.replicas.len(), 2);
    assert_eq!(group.replicas[&2].node_id, 21);
    assert_eq!(group.replicas[&3].role, ReplicaRole::Learner);
}

#[test]
fn leader_state_picks_highest_term_and_last_of_equals() {
    let report = |leader_id, replicas| GroupState { group_id: 1, leader_id, replicas };
    assert_eq!(leader_state(&report(None, vec![replica(1, 9, RaftRole::Leader)])), None);
    assert_eq!(leader_state(&report(Some(1), vec![])), None);
    assert_eq!(leader_state(&report(Some(1), vec![replica(1, 9, RaftRole::Follower)])), None);
    let mixed = vec![
        replica(1, 4, RaftRole::Leader),
        replica(2, 9, RaftRole::Candidate),
        replica(3, 6, RaftRole::Leader),
        replica(4, 5, RaftRole::Leader),
        replica(5, 6, RaftRole::Leader),
        replica(6, 7, RaftRole::PreCandidate),
    ];
    // The leader id of the report plays no part.
    assert_eq!(leader_state(&report(Some(1), mixed)), Some((5, 6)));
}

fn hash_state(slots: u32) -> State {
    let mut state = State::new();
    let shards = (0..slots).map(|s| hashed(1, 100 + s as u64, s, slots)).collect();
    state.apply_group_descriptor(GroupDesc { id: 9, epoch: 1, shards, replicas: vec![] });
    state
}

#[test]
fn find_shard_by_hash_uses_crc32_of_the_key() {
    let state = hash_state(16);
    let desc = collection(1, Some(CollectionPartition::Hash { slots: 16 }));
    // The CRC-32 of "123456789" is 0xCBF43926, and 0xCBF43926 % 16 == 6.
    let (group, shard) = state.find_shard(desc, b"123456789").unwrap();
    assert_eq!(group.id, 9);
    assert_eq!(shard.id, 106);
    assert_eq!(shard.collection_id, 1);
    // The CRC-32 of the empty string is 0.
    let desc = collection(1, Some(CollectionPartition::Hash { slots: 16 }));
    assert_eq!(state.find_shard(desc, b"").unwrap().1.id, 100);
}

#[test]
fn find_shard_by_hash_resolves_every_key_to_one_shard() {
    let state = hash_state(7);
    for i in 0u32..500 {
        let key = i.to_be_bytes();
        let desc = collection(1, Some(CollectionPartition::Hash { slots: 7 }));
        let (_, shard) = state.find_shard(desc, &key).unwrap();
        let slot = crc32fast::hash(&key) % 7;
        assert_eq!(shard.id, 100 + slot as u64);
        let again = state.find_shard_by_hash(1, 7, &key, crc32fast::hash(&key)).unwrap().1;
        assert_eq!(again.id, shard.id);
    }
}

#[test]
fn find_shard_by_hash_errors() {
    let state = hash_state(4);
    let stale = state.find_shard(collection(1, Some(CollectionPartition::Hash { slots: 5 })), b"k");
    let stale = stale.unwrap_err();
    assert_eq!(stale.kind(), ErrorKind::ExpiredShardInfo);
    assert_eq!(stale.message(), "expired shard info");
    let unknown =
        state.find_shard(collection(2, Some(CollectionPartition::Hash { slots: 4 })), &[1, 2, 30]);
    let unknown = unknown.unwrap_err();
    assert_eq!(unknown.kind(), ErrorKind::NotFound);
    assert_eq!(unknown.message(), "shard (key=[1, 2, 30])");

    // A collection whose shards do not cover the slot.
    let mut gap = State::new();
    gap.apply_group_descriptor(GroupDesc {
        id: 1,
        epoch: 1,
        shards: vec![hashed(1, 10, 7, 1)],
        replicas: vec![],
    });
    let miss = gap.find_shard(collection(1, Some(CollectionPartition::Hash { slots: 1 })), b"");
    assert_eq!(miss.unwrap_err().message(), "shard (key=[])");

    // No slots at all.
    let mut none = State::new();
    none.apply_group_descriptor(GroupDesc {
        id: 1,
        epoch: 1,
        shards: vec![hashed(1, 10, 0, 1)],
        replicas: vec![],
    });
    let zero = none.find_shard(collection(1, Some(CollectionPartition::Hash { slots: 0 })), b"k");
    assert_eq!(zero.unwrap_err().kind(), ErrorKind::ExpiredShardInfo);
}

#[test]
fn find_shard_without_serving_group() {
    let mut state = hash_state(1);
    // The group moves on without the shard: the shard is known, its group is not.
    state.apply_group_descriptor(descriptor(9, 2));
    let lost = state.find_shard(collection(1, Some(CollectionPartition::Hash { slots: 1 })), &[255]);
    let lost = lost.unwrap_err();
    assert_eq!(lost.kind(), ErrorKind::NotFound);
    assert_eq!(lost.message(), "shard (key=[255]) group");
}

#[test]
fn find_shard_by_range() {
    let mut state = State::new();
    state.apply_group_descriptor(GroupDesc {
        id: 3,
        epoch: 1,
        shards: vec![ranged(1, 11, b"", b"g"), ranged(1, 12, b"g", b"p"), ranged(1, 13, b"p", b"")],
        replicas: vec![],
    });
    let find = |key: &[u8]| state.find_shard(collection(1, Some(CollectionPartition::Range)), key);
    assert_eq!(find(b"").unwrap().1.id, 11);
    assert_eq!(find(b"apple").unwrap().1.id, 11);
    assert_eq!(find(b"g").unwrap().1.id, 12);
    assert_eq!(find(b"house").unwrap().1.id, 12);
    assert_eq!(find(b"p").unwrap().1.id, 13);
    assert_eq!(find(b"zebra").unwrap().1.id, 13);
    assert_eq!(find(b"zebra").unwrap().0.id, 3);
    // A collection without a partition goes by range too.
    assert_eq!(state.find_shard(collection(1, None), b"h").unwrap().1.id, 12);
    assert_eq!(state.find_shard_by_range(1, b"h").unwrap().1.id, 12);
}

#[test]
fn find_shard_by_range_misses() {
    let mut state = State::new();
    state.apply_group_descriptor(GroupDesc {
        id: 3,
        epoch: 1,
        shards: vec![ranged(1, 12, b"g", b"p"), hashed(1, 14, 0, 1)],
        replicas: vec![],
    });
    let find = |key: &[u8]| state.find_shard(collection(1, Some(CollectionPartition::Range)), key);
    assert_eq!(find(b"a").unwrap_err().message(), "shard (key=[97])");
    assert_eq!(find(b"p").unwrap_err().kind(), ErrorKind::NotFound);
    let other = state.find_shard(collection(8, Some(CollectionPartition::Range)), b"h");
    assert_eq!(other.unwrap_err().message(), "shard (key=[104])");
}

#[test]
fn shard_replaces_its_earlier_entry() {
    let mut state = State::new();
    state.apply_group_descriptor(GroupDesc {
        id: 3,
        epoch: 1,
        shards: vec![ranged(1, 11, b"", b"g"), ranged(1, 12, b"g", b"")],
        replicas: vec![],
    });
    // Shard 11 shrinks: its new range takes the place of the old one.
    state.apply_group_descriptor(GroupDesc {
        id: 3,
        epoch: 2,
        shards: vec![ranged(1, 12, b"g", b""), ranged(1, 11, b"", b"c")],
        replicas: vec![],
    });
    let find = |key: &[u8]| state.find_shard(collection(1, None), key);
    assert_eq!(find(b"b").unwrap().1.id, 11);
    assert_eq!(find(b"d").unwrap_err().message(), "shard (key=[100])");
    assert_eq!(find(b"h").unwrap().1.id, 12);
}

#[test]
fn shard_left_out_by_its_group_has_no_group() {
    let mut state = State::new();
    state.apply_group_descriptor(GroupDesc {
        id: 3,
        epoch: 1,
        shards: vec![ranged(1, 11, b"", b"g"), ranged(1, 12, b"g", b"")],
        replicas: vec![],
    });
    state.apply_group_descriptor(GroupDesc {
        id: 3,
        epoch: 2,
        shards: vec![ranged(1, 11, b"", b"g")],
        replicas: vec![],
    });
    let find = |key: &[u8]| state.find_shard(collection(1, None), key);
    assert_eq!(find(b"b").unwrap().0.epoch, 2);
    assert_eq!(find(b"h").unwrap_err().message(), "shard (key=[104]) group");
}

#[test]
fn node_events() {
    let mut state = State::new();
    assert_eq!(state.total_nodes(), 0);
    state.apply_update_event(UpdateEvent::Node(NodeDesc { id: 1, addr: "10.0.0.1:21805".into(), capacity: None }));
    state.apply_update_event(UpdateEvent::Node(NodeDesc { id: 2, addr: "10.0.0.2:21805".into(), capacity: None }));
    state.apply_update_event(UpdateEvent::Node(NodeDesc { id: 1, addr: "10.0.0.9:21805".into(), capacity: None }));
    assert_eq!(state.total_nodes(), 2);
    assert_eq!(state.find_node_addr(1).unwrap(), "10.0.0.9:21805");
    let missing = state.find_node_addr(3).unwrap_err();
    assert_eq!(missing.kind(), ErrorKind::NotFound);
    assert_eq!(missing.message(), "node_addr (node_id=3)");
    state.apply_delete_event(DeleteEvent::Node(1));
    state.apply_delete_event(DeleteEvent::Node(7));
    assert_eq!(state.total_nodes(), 1);
    assert!(state.find_node_addr(1).is_err());
}

#[test]
fn find_group_misses() {
    let state = State::new();
    let missing = state.find_group(18446744073709551615).unwrap_err();
    assert_eq!(missing.kind(), ErrorKind::NotFound);
    assert_eq!(missing.message(), "group (id=18446744073709551615)");
    assert_eq!(state.find_group(0).unwrap_err().message(), "group (id=0)");
}

#[test]
fn database_and_collection_events_do_not_disturb_routing() {
    let mut state = hash_state(2);
    state.apply_update_event(UpdateEvent::Database(DatabaseDesc { id: 1, name: "a".into() }));
    state.apply_update_event(UpdateEvent::Database(DatabaseDesc { id: 1, name: "b".into() }));
    state.apply_update_event(UpdateEvent::Collection(collection(1, None)));
    state.apply_update_event(UpdateEvent::Collection(CollectionDesc {
        id: 1,
        name: "renamed".into(),
        db: 1,
        partition: None,
    }));
    state.apply_delete_event(DeleteEvent::Collection(1));
    state.apply_delete_event(DeleteEvent::Collection(1));
    state.apply_delete_event(DeleteEvent::Database(1));
    state.apply_delete_event(DeleteEvent::Database(2));
    let desc = collection(1, Some(CollectionPartition::Hash { slots: 2 }));
    assert_eq!(state.find_shard(desc, b"").unwrap().0.id, 9);
}

#[test]
fn watch_response_applies_updates_then_deletes() {
    let mut state = State::new();
    state.apply_response(WatchResponse {
        updates: vec![
            Some(UpdateEvent::Node(NodeDesc { id: 1, addr: "a".into(), capacity: None })),
            None,
            Some(UpdateEvent::Node(NodeDesc { id: 2, addr: "b".into(), capacity: None })),
            Some(UpdateEvent::Node(NodeDesc { id: 1, addr: "c".into(), capacity: None })),
            Some(UpdateEvent::Group(descriptor_with(1, 1, &[1]))),
        ],
        deletes: vec![Some(DeleteEvent::Node(2)), None],
    });
    assert_eq!(state.total_nodes(), 1);
    assert_eq!(state.find_node_addr(1).unwrap(), "c");
    assert_eq!(state.find_group_by_shard(1).unwrap().id, 1);
    let epochs = state.group_epochs();
    assert_eq!(epochs.len(), 1);
    assert_eq!(epochs[&1], 1);
}

#[test]
fn removals_of_groups_and_reports_are_not_defined() {
    assert!(is_defined(&DeleteEvent::Node(1)));
    assert!(is_defined(&DeleteEvent::Database(1)));
    assert!(is_defined(&DeleteEvent::Collection(1)));
    assert!(!is_defined(&DeleteEvent::Group(1)));
    assert!(!is_defined(&DeleteEvent::GroupState(1)));
    let response = |deletes| WatchResponse { updates: vec![], deletes };
    assert!(is_applicable(&response(vec![])));
    assert!(is_applicable(&response(vec![None, Some(DeleteEvent::Node(1))])));
    assert!(!is_applicable(&response(vec![Some(DeleteEvent::Node(1)), Some(DeleteEvent::Group(1))])));
}

#[test]
fn group_epochs_is_the_watermark() {
    let mut state = State::new();
    assert!(state.group_epochs().is_empty());
    state.apply_group_descriptor(descriptor(1, 4));
    state.apply_group_descriptor(descriptor(2, 6));
    state.apply_group_descriptor(descriptor(1, 3));
    let epochs = state.group_epochs();
    assert_eq!(epochs.len(), 2);
    assert_eq!((epochs[&1], epochs[&2]), (3, 6));
}

#[test]
fn backoff_doubles_up_to_a_second_and_resets() {
    let mut backoff = Backoff::new();
    let mut pauses = Vec::new();
    for _ in 0..13 {
        match backoff.on_attempt(false) {
            Step::Sleep(ms) => pauses.push(ms),
            Step::Watch => panic!("a failed attempt must sleep"),
        }
    }
    assert_eq!(pauses, vec![1, 2, 4, 8, 16, 32, 64, 128, 256, 512, 1000, 1000, 1000]);
    assert_eq!(backoff.on_attempt(true), Step::Watch);
    assert_eq!(backoff.on_attempt(false), Step::Sleep(1));
    assert_eq!(backoff.on_attempt(false), Step::Sleep(2));
}
