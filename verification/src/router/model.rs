//! The routing cache as a mathematical value, and what each event does to it.

use crate::descriptor::{
    CollectionDesc, CollectionPartition, DatabaseDesc, DeleteEvent, GroupDesc, GroupState, RaftRole,
    ReplicaDesc, ReplicaState, ShardDesc, ShardPartition, UpdateEvent,
};
use crate::error::ErrorKind;
use crate::lex::{lex_le, lex_lt};
use crate::text::{byte_list, decimal};
use vstd::prelude::*;

verus! {

/// What the cache knows of one replica group.
pub struct GroupView {
    pub id: u64,
    pub epoch: u64,
    /// The leader's replica id and term, where one is known.
    pub leader_state: Option<(u64, u64)>,
    pub replicas: Map<u64, ReplicaDesc>,
}

/// The routing cache.
pub struct StateView {
    /// node id to address
    pub nodes: Map<u64, String>,
    pub databases: Map<u64, DatabaseDesc>,
    pub database_names: Map<Seq<char>, u64>,
    pub collections: Map<u64, CollectionDesc>,
    /// (database id, collection name) to collection id
    pub collection_names: Map<(u64, Seq<char>), u64>,
    /// collection id to its shards
    pub collection_shards: Map<u64, Seq<ShardDesc>>,
    /// shard id to the group that owns it and the epoch at which it was seen to
    pub shard_owners: Map<u64, (u64, u64)>,
    pub groups: Map<u64, GroupView>,
    /// leadership reports for groups whose descriptor has not arrived yet
    pub pending: Map<u64, GroupState>,
}

/// An error as a contract states it: its kind and its text.
pub struct Failure {
    pub kind: ErrorKind,
    pub text: Seq<char>,
}

/// The replicas of a descriptor keyed by id; of two with one id the later stays.
pub open spec fn replica_map(replicas: Seq<ReplicaDesc>) -> Map<u64, ReplicaDesc>
    decreases replicas.len(),
{
    if replicas.len() == 0 {
        Map::empty()
    } else {
        replica_map(replicas.drop_last()).insert(replicas.last().id, replicas.last())
    }
}

/// The leader that a sequence of replica reports names: of the replicas that
/// call themselves leader, the one with the highest term, and of several with
/// that term the last.
pub open spec fn best_leader(replicas: Seq<ReplicaState>) -> Option<(u64, u64)>
    decreases replicas.len(),
{
    if replicas.len() == 0 {
        None
    } else {
        let before = best_leader(replicas.drop_last());
        let r = replicas.last();
        let outranked = match before {
            Some((_, term)) => term > r.term,
            None => false,
        };
        if r.role == RaftRole::Leader && !outranked {
            Some((r.replica_id, r.term))
        } else {
            before
        }
    }
}

/// The leader that a group's report names. A report without a leader id
/// names none, whatever its replicas say.
pub open spec fn leader_of(state: GroupState) -> Option<(u64, u64)> {
    if state.leader_id is None {
        None
    } else {
        best_leader(state.replicas@)
    }
}

/// Group `group` at `epoch` lists `shard`: it becomes the owner unless the
/// shard is already known at that epoch or a later one.
pub open spec fn claim_one(
    owners: Map<u64, (u64, u64)>,
    shard: u64,
    group: u64,
    epoch: u64,
) -> Map<u64, (u64, u64)> {
    if owners.contains_key(shard) && owners[shard].1 >= epoch {
        owners
    } else {
        owners.insert(shard, (group, epoch))
    }
}

/// `claim_one` for each of `shards` in turn.
pub open spec fn claim_all(
    owners: Map<u64, (u64, u64)>,
    shards: Seq<ShardDesc>,
    group: u64,
    epoch: u64,
) -> Map<u64, (u64, u64)>
    decreases shards.len(),
{
    if shards.len() == 0 {
        owners
    } else {
        claim_one(claim_all(owners, shards.drop_last(), group, epoch), shards.last().id, group, epoch)
    }
}

/// `shards` without those whose id is `id`.
pub open spec fn without_shard(shards: Seq<ShardDesc>, id: u64) -> Seq<ShardDesc> {
    shards.filter(|s: ShardDesc| s.id != id)
}

/// Files `shard` under its collection, in place of any shard with its id.
pub open spec fn place_one(
    lists: Map<u64, Seq<ShardDesc>>,
    shard: ShardDesc,
) -> Map<u64, Seq<ShardDesc>> {
    if lists.contains_key(shard.collection_id) {
        lists.insert(
            shard.collection_id,
            without_shard(lists[shard.collection_id], shard.id).push(shard),
        )
    } else {
        lists.insert(shard.collection_id, seq![shard])
    }
}

/// `place_one` for each of `shards` in turn.
pub open spec fn place_all(
    lists: Map<u64, Seq<ShardDesc>>,
    shards: Seq<ShardDesc>,
) -> Map<u64, Seq<ShardDesc>>
    decreases shards.len(),
{
    if shards.len() == 0 {
        lists
    } else {
        place_one(place_all(lists, shards.drop_last()), shards.last())
    }
}

/// The shard holds hash slot `slot`.
pub open spec fn holds_slot(shard: ShardDesc, slot: u32) -> bool {
    shard.partition matches Some(ShardPartition::Hash(p)) && p.slot_id == slot
}

/// The shard holds a key range that contains `key`.
pub open spec fn holds_key(shard: ShardDesc, key: Seq<u8>) -> bool {
    shard.partition matches Some(ShardPartition::Range(r)) && lex_le(r.start@, key) && (lex_lt(
        key,
        r.end@,
    ) || r.end@.len() == 0)
}

/// The first of `shards` that holds hash slot `slot`.
pub open spec fn first_in_slot(shards: Seq<ShardDesc>, slot: u32) -> Option<ShardDesc>
    decreases shards.len(),
{
    if shards.len() == 0 {
        None
    } else if holds_slot(shards[0], slot) {
        Some(shards[0])
    } else {
        first_in_slot(shards.skip(1), slot)
    }
}

/// The first of `shards` whose key range contains `key`.
pub open spec fn first_in_range(shards: Seq<ShardDesc>, key: Seq<u8>) -> Option<ShardDesc>
    decreases shards.len(),
{
    if shards.len() == 0 {
        None
    } else if holds_key(shards[0], key) {
        Some(shards[0])
    } else {
        first_in_range(shards.skip(1), key)
    }
}

/// No shard is known for `key`.
pub open spec fn missing_shard(key: Seq<u8>) -> Failure {
    Failure { kind: ErrorKind::NotFound, text: "shard (key="@ + byte_list(key) + ")"@ }
}

/// The shard for `key` is known, but no group that serves it.
pub open spec fn missing_shard_group(key: Seq<u8>) -> Failure {
    Failure { kind: ErrorKind::NotFound, text: "shard (key="@ + byte_list(key) + ") group"@ }
}

/// The cached shard list does not match the collection's slot count.
pub open spec fn expired_shards() -> Failure {
    Failure { kind: ErrorKind::ExpiredShardInfo, text: "expired shard info"@ }
}

/// No group is known to serve `shard`.
pub open spec fn missing_group_of_shard(shard: u64) -> Failure {
    Failure { kind: ErrorKind::NotFound, text: "group (shard="@ + decimal(shard as nat) + ")"@ }
}

/// No group with this id is known.
pub open spec fn missing_group(id: u64) -> Failure {
    Failure { kind: ErrorKind::NotFound, text: "group (id="@ + decimal(id as nat) + ")"@ }
}

/// No node with this id is known.
pub open spec fn missing_node(id: u64) -> Failure {
    Failure { kind: ErrorKind::NotFound, text: "node_addr (node_id="@ + decimal(id as nat) + ")"@ }
}

impl StateView {
    /// The cache before any event.
    pub open spec fn empty() -> StateView {
        StateView {
            nodes: Map::empty(),
            databases: Map::empty(),
            database_names: Map::empty(),
            collections: Map::empty(),
            collection_names: Map::empty(),
            collection_shards: Map::empty(),
            shard_owners: Map::empty(),
            groups: Map::empty(),
            pending: Map::empty(),
        }
    }

    /// The group that serves `shard`: the recorded owner, unless that group
    /// has since moved to a later epoch than the one at which it was seen
    /// to own the shard.
    pub open spec fn find_group_by_shard(self, shard: u64) -> Option<GroupView> {
        if !self.shard_owners.contains_key(shard) {
            None
        } else {
            let (group, epoch) = self.shard_owners[shard];
            if !self.groups.contains_key(group) || self.groups[group].epoch > epoch {
                None
            } else {
                Some(self.groups[group])
            }
        }
    }

    /// The shard of a hash-partitioned collection with `slots` slots that
    /// holds the key whose checksum is `crc`, and the group that serves it.
    pub open spec fn locate_by_hash(self, collection: u64, slots: u32, key: Seq<u8>, crc: u32) -> Result<
        (GroupView, ShardDesc),
        Failure,
    > {
        if !self.collection_shards.contains_key(collection) {
            Err(missing_shard(key))
        } else {
            let shards = self.collection_shards[collection];
            if shards.len() != slots {
                Err(expired_shards())
            } else if slots == 0 {
                Err(missing_shard(key))
            } else {
                match first_in_slot(shards, crc % slots) {
                    None => Err(missing_shard(key)),
                    Some(shard) => match self.find_group_by_shard(shard.id) {
                        None => Err(missing_shard_group(key)),
                        Some(group) => Ok((group, shard)),
                    },
                }
            }
        }
    }

    /// The shard of a range-partitioned collection that holds `key`, and the
    /// group that serves it.
    pub open spec fn locate_by_range(self, collection: u64, key: Seq<u8>) -> Result<
        (GroupView, ShardDesc),
        Failure,
    > {
        if !self.collection_shards.contains_key(collection) {
            Err(missing_shard(key))
        } else {
            match first_in_range(self.collection_shards[collection], key) {
                None => Err(missing_shard(key)),
                Some(shard) => match self.find_group_by_shard(shard.id) {
                    None => Err(missing_shard_group(key)),
                    Some(group) => Ok((group, shard)),
                },
            }
        }
    }

    /// The shard of `desc` that holds `key`, whose checksum is `crc`, and the
    /// group that serves it.
    pub open spec fn locate(self, desc: CollectionDesc, key: Seq<u8>, crc: u32) -> Result<
        (GroupView, ShardDesc),
        Failure,
    > {
        match desc.partition {
            Some(CollectionPartition::Hash { slots }) => self.locate_by_hash(
                desc.id,
                slots,
                key,
                crc,
            ),
            _ => self.locate_by_range(desc.id, key),
        }
    }

    /// The cache after a group descriptor.
    pub open spec fn apply_group(self, desc: GroupDesc) -> StateView {
        let known = self.groups.contains_key(desc.id);
        let leader_state = if known {
            self.groups[desc.id].leader_state
        } else if self.pending.contains_key(desc.id) {
            leader_of(self.pending[desc.id])
        } else {
            None
        };
        let group = GroupView {
            id: desc.id,
            epoch: desc.epoch,
            leader_state,
            replicas: replica_map(desc.replicas@),
        };
        StateView {
            groups: self.groups.insert(desc.id, group),
            pending: if known {
                self.pending
            } else {
                self.pending.remove(desc.id)
            },
            shard_owners: claim_all(self.shard_owners, desc.shards@, desc.id, desc.epoch),
            collection_shards: place_all(self.collection_shards, desc.shards@),
            ..self
        }
    }

    /// The cache after a leadership report.
    pub open spec fn apply_group_state(self, state: GroupState) -> StateView {
        if self.groups.contains_key(state.group_id) {
            let group = self.groups[state.group_id];
            StateView {
                groups: self.groups.insert(
                    state.group_id,
                    GroupView { leader_state: leader_of(state), ..group },
                ),
                ..self
            }
        } else {
            StateView { pending: self.pending.insert(state.group_id, state), ..self }
        }
    }

    /// The cache after a database descriptor.
    pub open spec fn apply_database(self, desc: DatabaseDesc) -> StateView {
        let names = if self.databases.contains_key(desc.id) && self.databases[desc.id].name@
            != desc.name@ {
            self.database_names.remove(self.databases[desc.id].name@)
        } else {
            self.database_names
        };
        StateView {
            databases: self.databases.insert(desc.id, desc),
            database_names: names.insert(desc.name@, desc.id),
            ..self
        }
    }

    /// The cache after a collection descriptor.
    pub open spec fn apply_collection(self, desc: CollectionDesc) -> StateView {
        let names = if self.collections.contains_key(desc.id) && self.collections[desc.id].name@
            != desc.name@ {
            self.collection_names.remove((desc.db, self.collections[desc.id].name@))
        } else {
            self.collection_names
        };
        StateView {
            collections: self.collections.insert(desc.id, desc),
            collection_names: names.insert((desc.db, desc.name@), desc.id),
            ..self
        }
    }

    /// The cache after an update event.
    pub open spec fn apply_update(self, event: UpdateEvent) -> StateView {
        match event {
            UpdateEvent::Node(desc) => StateView {
                nodes: self.nodes.insert(desc.id, desc.addr),
                ..self
            },
            UpdateEvent::Group(desc) => self.apply_group(desc),
            UpdateEvent::GroupState(state) => self.apply_group_state(state),
            UpdateEvent::Database(desc) => self.apply_database(desc),
            UpdateEvent::Collection(desc) => self.apply_collection(desc),
        }
    }

    /// Whether the removal that `event` asks for is defined. Removing a group
    /// or a leadership report is not.
    pub open spec fn can_delete(event: DeleteEvent) -> bool {
        !(event is Group) && !(event is GroupState)
    }

    /// The cache after a delete event.
    pub open spec fn apply_delete(self, event: DeleteEvent) -> StateView {
        match event {
            DeleteEvent::Node(id) => StateView { nodes: self.nodes.remove(id), ..self },
            DeleteEvent::Database(id) => if self.databases.contains_key(id) {
                StateView {
                    databases: self.databases.remove(id),
                    database_names: self.database_names.remove(self.databases[id].name@),
                    ..self
                }
            } else {
                self
            },
            DeleteEvent::Collection(id) => if self.collections.contains_key(id) {
                StateView {
                    collections: self.collections.remove(id),
                    collection_names: self.collection_names.remove(
                        (self.collections[id].db, self.collections[id].name@),
                    ),
                    ..self
                }
            } else {
                self
            },
            _ => self,
        }
    }
}

} // verus!
