//! Descriptors of the cluster's members, as the root service publishes them,
//! and the events that carry them.

use vstd::prelude::*;

verus! {

/// What a node carries.
#[derive(Clone, Copy, Debug, PartialEq, Eq, Structural)]
pub struct NodeCapacity {
    /// The number of replicas that the node hosts.
    pub replica_count: u64,
    /// The number of leaders among them.
    pub leader_count: u64,
}

/// A node, the address it serves on, and what it carries where that is
/// known.
#[derive(Debug)]
pub struct NodeDesc {
    pub id: u64,
    pub addr: String,
    pub capacity: Option<NodeCapacity>,
}

/// The part a replica plays in its group's consensus.
#[derive(Clone, Copy, Debug, PartialEq, Eq, Structural)]
pub enum RaftRole {
    Follower,
    Candidate,
    Leader,
    PreCandidate,
}

/// The membership status of a replica.
#[derive(Clone, Copy, Debug, PartialEq, Eq, Structural)]
pub enum ReplicaRole {
    Voter,
    Learner,
    IncomingVoter,
    DemotingVoter,
}

/// A replica of a group and the node that hosts it.
#[derive(Clone, Copy, Debug, PartialEq, Eq, Structural)]
pub struct ReplicaDesc {
    pub id: u64,
    pub node_id: u64,
    pub role: ReplicaRole,
}

/// One slot of a hash-partitioned collection.
#[derive(Clone, Copy, Debug, PartialEq, Eq, Structural)]
pub struct HashPartition {
    pub slot_id: u32,
    pub slots: u32,
}

/// A key range `[start, end)`; an empty `end` stands for no upper bound.
#[derive(Debug)]
pub struct RangePartition {
    pub start: Vec<u8>,
    pub end: Vec<u8>,
}

/// The part of a collection's key space that one shard holds.
#[derive(Debug)]
pub enum ShardPartition {
    Hash(HashPartition),
    Range(RangePartition),
}

/// The mathematical value of a [`ShardPartition`].
pub enum ShardPartitionView {
    Hash(HashPartition),
    Range { start: Seq<u8>, end: Seq<u8> },
}

impl View for ShardPartition {
    type V = ShardPartitionView;

    open spec fn view(&self) -> ShardPartitionView {
        match self {
            ShardPartition::Hash(p) => ShardPartitionView::Hash(*p),
            ShardPartition::Range(r) => ShardPartitionView::Range { start: r.start@, end: r.end@ },
        }
    }
}

/// A shard: the unit of partitioning within a collection.
#[derive(Debug)]
pub struct ShardDesc {
    pub id: u64,
    pub collection_id: u64,
    pub partition: Option<ShardPartition>,
}

/// The mathematical value of a [`ShardDesc`].
pub struct ShardView {
    pub id: u64,
    pub collection_id: u64,
    pub partition: Option<ShardPartitionView>,
}

impl View for ShardDesc {
    type V = ShardView;

    open spec fn view(&self) -> ShardView {
        ShardView {
            id: self.id,
            collection_id: self.collection_id,
            partition: match self.partition {
                Some(p) => Some(p@),
                None => None,
            },
        }
    }
}

impl Clone for ShardDesc {
    fn clone(&self) -> (out: ShardDesc)
        ensures
            out@ == self@,
    {
        let partition = match &self.partition {
            Some(ShardPartition::Hash(p)) => Some(ShardPartition::Hash(*p)),
            Some(ShardPartition::Range(r)) => Some(
                ShardPartition::Range(
                    RangePartition { start: r.start.clone(), end: r.end.clone() },
                ),
            ),
            None => None,
        };
        ShardDesc { id: self.id, collection_id: self.collection_id, partition }
    }
}

/// A replica group: its version, the shards it owns and its members.
#[derive(Debug)]
pub struct GroupDesc {
    pub id: u64,
    pub epoch: u64,
    pub shards: Vec<ShardDesc>,
    pub replicas: Vec<ReplicaDesc>,
}

/// What one replica reports of itself.
#[derive(Clone, Copy, Debug, PartialEq, Eq, Structural)]
pub struct ReplicaState {
    pub replica_id: u64,
    pub group_id: u64,
    pub term: u64,
    pub voted_for: u64,
    pub role: RaftRole,
    pub node_id: u64,
}

/// What the replicas of a group report of the group's leadership.
#[derive(Debug)]
pub struct GroupState {
    pub group_id: u64,
    pub leader_id: Option<u64>,
    pub replicas: Vec<ReplicaState>,
}

/// A database.
#[derive(Debug)]
pub struct DatabaseDesc {
    pub id: u64,
    pub name: String,
}

/// How a collection spreads its keys over shards.
#[derive(Clone, Copy, Debug, PartialEq, Eq, Structural)]
pub enum CollectionPartition {
    Hash { slots: u32 },
    Range,
}

/// A collection: a namespace of shards within a database.
#[derive(Debug)]
pub struct CollectionDesc {
    pub id: u64,
    pub name: String,
    pub db: u64,
    pub partition: Option<CollectionPartition>,
}

/// An addition or a replacement that the root service announces.
#[derive(Debug)]
pub enum UpdateEvent {
    Node(NodeDesc),
    Group(GroupDesc),
    GroupState(GroupState),
    Database(DatabaseDesc),
    Collection(CollectionDesc),
}

/// A removal that the root service announces, by the id of what is removed.
#[derive(Clone, Copy, Debug, PartialEq, Eq, Structural)]
pub enum DeleteEvent {
    Node(u64),
    Group(u64),
    GroupState(u64),
    Database(u64),
    Collection(u64),
}

/// One message of the root service's subscription. A slot of either list
/// may be empty.
#[derive(Debug)]
pub struct WatchResponse {
    pub updates: Vec<Option<UpdateEvent>>,
    pub deletes: Vec<Option<DeleteEvent>>,
}

} // verus!
