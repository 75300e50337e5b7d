//! The routing cache itself: lookups, and the application of events.

use crate::checksum::{crc32, crc32_of};
use crate::descriptor::{
    CollectionDesc, CollectionPartition, DatabaseDesc, DeleteEvent, GroupDesc, GroupState,
    RaftRole, ReplicaDesc, ShardDesc, ShardPartition, UpdateEvent,
};
use crate::error::{Error, ErrorKind};
use crate::lex::{compare, lemma_lex_trichotomy, Order};
use crate::router::model::{
    best_leader, claim_all, claim_one, first_in_range, first_in_slot, leader_of, missing_group,
    missing_group_of_shard, missing_node, missing_shard, missing_shard_group, place_all, place_one,
    replica_map, without_shard, Failure, GroupView, StateView,
};
use crate::text::{push_byte_list, push_decimal};
use crate::vecs::reverse;
use std::collections::HashMap;
use vstd::hash_map::StringHashMap;
use vstd::prelude::*;

verus! {

/// What the cache holds of one replica group.
#[derive(Debug)]
pub struct RouterGroupState {
    pub id: u64,
    pub epoch: u64,
    /// The leader's replica id and term, where one is known.
    pub leader_state: Option<(u64, u64)>,
    pub replicas: HashMap<u64, ReplicaDesc>,
}

impl View for RouterGroupState {
    type V = GroupView;

    open spec fn view(&self) -> GroupView {
        GroupView {
            id: self.id,
            epoch: self.epoch,
            leader_state: self.leader_state,
            replicas: self.replicas@,
        }
    }
}

impl Default for RouterGroupState {
    fn default() -> (out: RouterGroupState)
        ensures
            out@ == (GroupView { id: 0, epoch: 0, leader_state: None, replicas: Map::empty() }),
    {
        RouterGroupState { id: 0, epoch: 0, leader_state: None, replicas: HashMap::new() }
    }
}

impl Clone for RouterGroupState {
    fn clone(&self) -> (out: RouterGroupState)
        ensures
            out@ == self@,
    {
        RouterGroupState {
            id: self.id,
            epoch: self.epoch,
            leader_state: self.leader_state,
            replicas: self.replicas.clone(),
        }
    }
}

/// The error `e` is the failure `f`.
pub open spec fn fails_with(e: Error, f: Failure) -> bool {
    e.kind() == f.kind && e.text() == f.text
}

/// The result `got` of a group lookup is what the model asks for.
pub open spec fn group_found(got: Result<RouterGroupState, Error>, want: Option<GroupView>, or: Failure) -> bool {
    match got {
        Ok(group) => want == Some(group@),
        Err(e) => want is None && fails_with(e, or),
    }
}

/// The result `got` of a shard lookup is what the model asks for.
pub open spec fn shard_found(
    got: Result<(RouterGroupState, ShardDesc), Error>,
    want: Result<(GroupView, ShardDesc), Failure>,
) -> bool {
    match got {
        Ok((group, shard)) => want matches Ok((g, s)) && group@ == g && shard@ == s@,
        Err(e) => want matches Err(f) && fails_with(e, f),
    }
}

fn missing_shard_error(key: &[u8]) -> (e: Error)
    ensures
        fails_with(e, missing_shard(key@)),
{
    let mut text = String::from_str("shard (key=");
    push_byte_list(&mut text, key);
    text.append(")");
    Error::NotFound(text)
}

fn missing_shard_group_error(key: &[u8]) -> (e: Error)
    ensures
        fails_with(e, missing_shard_group(key@)),
{
    let mut text = String::from_str("shard (key=");
    push_byte_list(&mut text, key);
    text.append(") group");
    Error::NotFound(text)
}

fn numbered_error(prefix: &str, id: u64) -> (e: Error)
    ensures
        e.kind() == ErrorKind::NotFound,
        e.text() == prefix@ + crate::text::decimal(id as nat) + ")"@,
{
    let mut text = String::from_str(prefix);
    push_decimal(&mut text, id);
    text.append(")");
    Error::NotFound(text)
}

/// The leader that a group's report names: of the replicas that call
/// themselves leader, the one with the highest term, and of several with that
/// term the last. A report without a leader id names none.
pub fn leader_state(group_state: &GroupState) -> (leader: Option<(u64, u64)>)
    ensures
        leader == leader_of(*group_state),
{
    if group_state.leader_id.is_none() {
        return None;
    }
    let mut best: Option<(u64, u64)> = None;
    let mut i: usize = 0;
    while i < group_state.replicas.len()
        invariant
            i <= group_state.replicas.len(),
            best == best_leader(group_state.replicas@.take(i as int)),
        decreases group_state.replicas.len() - i,
    {
        let r = &group_state.replicas[i];
        proof {
            let next = group_state.replicas@.take(i + 1);
            assert(next.drop_last() =~= group_state.replicas@.take(i as int));
        }
        let outranked = match best {
            Some((_, term)) => term > r.term,
            None => false,
        };
        if r.role == RaftRole::Leader && !outranked {
            best = Some((r.replica_id, r.term));
        }
        i += 1;
    }
    proof {
        assert(group_state.replicas@.take(i as int) =~= group_state.replicas@);
    }
    best
}

fn collect_replicas(replicas: &Vec<ReplicaDesc>) -> (out: HashMap<u64, ReplicaDesc>)
    ensures
        out@ == replica_map(replicas@),
{
    let mut out: HashMap<u64, ReplicaDesc> = HashMap::new();
    let mut i: usize = 0;
    while i < replicas.len()
        invariant
            i <= replicas.len(),
            out@ == replica_map(replicas@.take(i as int)),
        decreases replicas.len() - i,
    {
        let r = replicas[i];
        proof {
            let next = replicas@.take(i + 1);
            assert(next.drop_last() =~= replicas@.take(i as int));
        }
        out.insert(r.id, r);
        i += 1;
    }
    proof {
        assert(replicas@.take(i as int) =~= replicas@);
    }
    out
}

/// The routing cache.
pub struct State {
    node_id_lookup: HashMap<u64, String>,
    db_id_lookup: HashMap<u64, DatabaseDesc>,
    db_name_lookup: StringHashMap<u64>,
    co_id_lookup: HashMap<u64, CollectionDesc>,
    co_name_lookup: HashMap<u64, StringHashMap<u64>>,
    co_shards_lookup: HashMap<u64, Vec<ShardDesc>>,
    shard_group_lookup: HashMap<u64, (u64, u64)>,
    group_id_lookup: HashMap<u64, RouterGroupState>,
    cached_group_states: HashMap<u64, GroupState>,
}

/// The two-level name table as one map from (database, name).
pub open spec fn flat_names(names: Map<u64, StringHashMap<u64>>) -> Map<(u64, Seq<char>), u64> {
    Map::new(
        |k: (u64, Seq<char>)| names.contains_key(k.0) && names[k.0]@.contains_key(k.1),
        |k: (u64, Seq<char>)| names[k.0]@[k.1],
    )
}

impl View for State {
    type V = StateView;

    closed spec fn view(&self) -> StateView {
        StateView {
            nodes: self.node_id_lookup@,
            databases: self.db_id_lookup@,
            database_names: self.db_name_lookup@,
            collections: self.co_id_lookup@,
            collection_names: flat_names(self.co_name_lookup@),
            collection_shards: self.co_shards_lookup@.map_values(|v: Vec<ShardDesc>| v@),
            shard_owners: self.shard_group_lookup@,
            groups: self.group_id_lookup@.map_values(|g: RouterGroupState| g@),
            pending: self.cached_group_states@,
        }
    }
}

impl Default for State {
    fn default() -> (state: State)
        ensures
            state@ == StateView::empty(),
    {
        State::new()
    }
}

impl State {
    /// An empty cache.
    pub fn new() -> (state: State)
        ensures
            state@ == StateView::empty(),
    {
        let state = State {
            node_id_lookup: HashMap::new(),
            db_id_lookup: HashMap::new(),
            db_name_lookup: StringHashMap::new(),
            co_id_lookup: HashMap::new(),
            co_name_lookup: HashMap::new(),
            co_shards_lookup: HashMap::new(),
            shard_group_lookup: HashMap::new(),
            group_id_lookup: HashMap::new(),
            cached_group_states: HashMap::new(),
        };
        proof {
            assert(state@.collection_names =~= Map::empty());
            assert(state@.collection_shards =~= Map::empty());
            assert(state@.groups =~= Map::empty());
        }
        state
    }

    /// The group that serves `shard_id`, if the cache knows one.
    pub fn find_group_by_shard(&self, shard_id: u64) -> (found: Option<RouterGroupState>)
        ensures
            match found {
                Some(group) => self@.find_group_by_shard(shard_id) == Some(group@),
                None => self@.find_group_by_shard(shard_id) is None,
            },
    {
        let (group_id, epoch) = match self.shard_group_lookup.get(&shard_id) {
            Some(owner) => *owner,
            None => {
                return None;
            },
        };
        match self.group_id_lookup.get(&group_id) {
            Some(group) => {
                if group.epoch > epoch {
                    None
                } else {
                    Some(group.clone())
                }
            },
            None => None,
        }
    }

    /// The group `id`, or `NotFound`.
    pub fn find_group(&self, id: u64) -> (found: Result<RouterGroupState, Error>)
        ensures
            match found {
                Ok(group) => self@.groups.contains_key(id) && self@.groups[id] == group@,
                Err(e) => !self@.groups.contains_key(id) && fails_with(e, missing_group(id)),
            },
    {
        match self.group_id_lookup.get(&id) {
            Some(group) => Ok(group.clone()),
            None => Err(numbered_error("group (id=", id)),
        }
    }

    /// The group that serves `shard`, or `NotFound`.
    pub fn find_group_of_shard(&self, shard: u64) -> (found: Result<RouterGroupState, Error>)
        ensures
            group_found(found, self@.find_group_by_shard(shard), missing_group_of_shard(shard)),
    {
        match self.find_group_by_shard(shard) {
            Some(group) => Ok(group),
            None => Err(numbered_error("group (shard=", shard)),
        }
    }

    /// The address of node `id`, or `NotFound`.
    pub fn find_node_addr(&self, id: u64) -> (found: Result<String, Error>)
        ensures
            match found {
                Ok(addr) => self@.nodes.contains_key(id) && self@.nodes[id] == addr,
                Err(e) => !self@.nodes.contains_key(id) && fails_with(e, missing_node(id)),
            },
    {
        match self.node_id_lookup.get(&id) {
            Some(addr) => Ok(addr.clone()),
            None => Err(numbered_error("node_addr (node_id=", id)),
        }
    }

    /// The number of nodes that the cache knows.
    pub fn total_nodes(&self) -> (n: usize)
        ensures
            n == self@.nodes.len(),
    {
        self.node_id_lookup.len()
    }

    fn group_for(&self, shard: &ShardDesc, key: &[u8]) -> (found: Result<
        (RouterGroupState, ShardDesc),
        Error,
    >)
        ensures
            shard_found(
                found,
                match self@.find_group_by_shard(shard.id) {
                    None => Err(missing_shard_group(key@)),
                    Some(group) => Ok((group, *shard)),
                },
            ),
    {
        match self.find_group_by_shard(shard.id) {
            Some(group) => Ok((group, shard.clone())),
            None => Err(missing_shard_group_error(key)),
        }
    }

    /// The shard of a hash-partitioned collection that holds the key whose
    /// checksum is `crc`, and the group that serves it.
    pub fn find_shard_by_hash(&self, collection: u64, slots: u32, key: &[u8], crc: u32) -> (found:
        Result<(RouterGroupState, ShardDesc), Error>)
        ensures
            shard_found(found, self@.locate_by_hash(collection, slots, key@, crc)),
    {
        let shards = match self.co_shards_lookup.get(&collection) {
            Some(shards) => shards,
            None => {
                return Err(missing_shard_error(key));
            },
        };
        if shards.len() > u32::MAX as usize || slots != shards.len() as u32 {
            return Err(Error::ExpiredShardInfo(String::from_str("expired shard info")));
        }
        if slots == 0 {
            return Err(missing_shard_error(key));
        }
        let slot = crc % slots;
        let mut i: usize = 0;
        proof {
            assert(shards@.skip(0) =~= shards@);
        }
        while i < shards.len()
            invariant
                i <= shards.len(),
                slots != 0,
                slot == crc % slots,
                shards@.len() == slots,
                self@.collection_shards.contains_key(collection),
                self@.collection_shards[collection] == shards@,
                first_in_slot(shards@, slot) == first_in_slot(shards@.skip(i as int), slot),
            decreases shards.len() - i,
        {
            let shard = &shards[i];
            let hit = match &shard.partition {
                Some(ShardPartition::Hash(p)) => p.slot_id == slot,
                _ => false,
            };
            proof {
                assert(shards@.skip(i as int)[0] == *shard);
                assert(shards@.skip(i as int).skip(1) =~= shards@.skip(i + 1));
            }
            if hit {
                return self.group_for(shard, key);
            }
            i += 1;
        }
        Err(missing_shard_error(key))
    }

    /// The shard of a range-partitioned collection that holds `key`, and the
    /// group that serves it.
    pub fn find_shard_by_range(&self, collection: u64, key: &[u8]) -> (found: Result<
        (RouterGroupState, ShardDesc),
        Error,
    >)
        ensures
            shard_found(found, self@.locate_by_range(collection, key@)),
    {
        let shards = match self.co_shards_lookup.get(&collection) {
            Some(shards) => shards,
            None => {
                return Err(missing_shard_error(key));
            },
        };
        let mut i: usize = 0;
        proof {
            assert(shards@.skip(0) =~= shards@);
        }
        while i < shards.len()
            invariant
                i <= shards.len(),
                self@.collection_shards.contains_key(collection),
                self@.collection_shards[collection] == shards@,
                first_in_range(shards@, key@) == first_in_range(shards@.skip(i as int), key@),
            decreases shards.len() - i,
        {
            let shard = &shards[i];
            let hit = match &shard.partition {
                Some(ShardPartition::Range(r)) => {
                    proof {
                        lemma_lex_trichotomy(r.start@, key@);
                        lemma_lex_trichotomy(key@, r.end@);
                    }
                    match compare(r.start.as_slice(), key) {
                        Order::Greater => false,
                        _ => r.end.len() == 0 || matches!(
                            compare(key, r.end.as_slice()),
                            Order::Less
                        ),
                    }
                },
                _ => false,
            };
            proof {
                assert(shards@.skip(i as int)[0] == *shard);
                assert(shards@.skip(i as int).skip(1) =~= shards@.skip(i + 1));
            }
            if hit {
                return self.group_for(shard, key);
            }
            i += 1;
        }
        Err(missing_shard_error(key))
    }

    /// The shard of collection `desc` that holds `key`, and the group that
    /// serves it. A hash-partitioned collection goes by the key's CRC-32
    /// checksum modulo its slot count, any other by the shards' key ranges.
    pub fn find_shard(&self, desc: CollectionDesc, key: &[u8]) -> (found: Result<
        (RouterGroupState, ShardDesc),
        Error,
    >)
        ensures
            shard_found(found, self@.locate(desc, key@, crc32(key@))),
    {
        match desc.partition {
            Some(CollectionPartition::Hash { slots }) => {
                let crc = crc32_of(key);
                self.find_shard_by_hash(desc.id, slots, key, crc)
            },
            _ => self.find_shard_by_range(desc.id, key),
        }
    }

    /// The epoch of every group that the cache holds: the watermark that a
    /// new subscription starts from.
    pub fn group_epochs(&self) -> (epochs: HashMap<u64, u64>)
        ensures
            epochs@.dom() == self@.groups.dom(),
            forall|id: u64| #[trigger] epochs@.contains_key(id) ==> epochs@[id] == self@.groups[id].epoch,
    {
        let mut epochs: HashMap<u64, u64> = HashMap::new();
        for id in it: self.group_id_lookup.keys()
            invariant
                it.seq().unref().to_set() == self.group_id_lookup@.dom(),
                forall|k: u64| #[trigger]
                    self.group_id_lookup@.contains_key(k) ==> epochs@.contains_key(k) || exists|
                        j: int,
                    |
                        it.index() <= j < it.seq().len() && #[trigger] it.seq().unref()[j] == k,
                forall|k: u64| #[trigger]
                    epochs@.contains_key(k) ==> self.group_id_lookup@.contains_key(k) && epochs@[k]
                        == self.group_id_lookup@[k].epoch,
        {
            proof {
                assert(it.seq().unref()[it.index()] == *id);
                assert(it.seq().unref().to_set().contains(*id));
            }
            match self.group_id_lookup.get(id) {
                Some(group) => {
                    epochs.insert(*id, group.epoch);
                },
                None => {},
            }
        }
        proof {
            assert(epochs@.dom() =~= self@.groups.dom());
        }
        epochs
    }

    fn claim_shard(&mut self, shard: u64, group: u64, epoch: u64)
        ensures
            final(self)@ == (StateView {
                shard_owners: claim_one(old(self)@.shard_owners, shard, group, epoch),
                ..old(self)@
            }),
    {
        let claim = match self.shard_group_lookup.get(&shard) {
            Some(owner) => owner.1 < epoch,
            None => true,
        };
        if claim {
            self.shard_group_lookup.insert(shard, (group, epoch));
        }
    }

    fn place_shard(&mut self, shard: ShardDesc)
        ensures
            final(self)@ == (StateView {
                collection_shards: place_one(old(self)@.collection_shards, shard),
                ..old(self)@
            }),
    {
        let collection = shard.collection_id;
        let ghost before = self.co_shards_lookup@;
        let mut list = match self.co_shards_lookup.remove(&collection) {
            Some(list) => drop_shard(list, shard.id),
            None => Vec::new(),
        };
        list.push(shard);
        self.co_shards_lookup.insert(collection, list);
        proof {
            assert(self.co_shards_lookup@ =~= before.insert(collection, list));
            assert(self@.collection_shards =~= place_one(old(self)@.collection_shards, shard));
        }
    }

    /// Takes in a group descriptor. The group's entry is replaced, keeping the
    /// leader it had, or taking the one that an earlier report named. Each
    /// shard that the descriptor lists is filed under its collection, and
    /// passes to this group unless it is already known at this epoch or a
    /// later one.
    pub fn apply_group_descriptor(&mut self, group_desc: GroupDesc)
        ensures
            final(self)@ == old(self)@.apply_group(group_desc),
    {
        let id = group_desc.id;
        let epoch = group_desc.epoch;
        let replicas = collect_replicas(&group_desc.replicas);
        let mut group_state = RouterGroupState { id, epoch, leader_state: None, replicas };
        match self.group_id_lookup.get(&id) {
            Some(old_state) => {
                group_state.leader_state = old_state.leader_state;
            },
            None => {
                match self.cached_group_states.remove(&id) {
                    Some(cached) => {
                        group_state.leader_state = leader_state(&cached);
                    },
                    None => {},
                }
            },
        }
        let ghost group = group_state@;
        self.group_id_lookup.insert(id, group_state);
        let ghost mid = self@;
        let ghost all = group_desc.shards@;
        proof {
            assert(mid.groups =~= old(self)@.groups.insert(id, group));
            assert(mid.pending =~= old(self)@.apply_group(group_desc).pending);
        }
        let shards = group_desc.shards;
        let mut i: usize = 0;
        let mut shards = shards;
        let n = shards.len();
        // The descriptor's shards are taken from the back of a reversed
        // list, so that each is moved, not copied, and all keep their order.
        reverse(&mut shards);
        while i < n
            invariant
                i <= n,
                n == all.len(),
                shards@ == all.skip(i as int).reverse(),
                self@ == (StateView {
                    shard_owners: claim_all(mid.shard_owners, all.take(i as int), id, epoch),
                    collection_shards: place_all(mid.collection_shards, all.take(i as int)),
                    ..mid
                }),
            decreases n - i,
        {
            let shard = shards.pop().unwrap();
            proof {
                assert(shard == all[i as int]);
                assert(all.take(i + 1).drop_last() =~= all.take(i as int));
                assert(shards@ =~= all.skip(i + 1).reverse());
            }
            self.claim_shard(shard.id, id, epoch);
            self.place_shard(shard);
            i += 1;
        }
        proof {
            assert(all.take(n as int) =~= all);
        }
    }

    fn apply_group_state(&mut self, group_state: GroupState)
        ensures
            final(self)@ == old(self)@.apply_group_state(group_state),
    {
        let id = group_state.group_id;
        let ghost before = self.group_id_lookup@;
        match self.group_id_lookup.remove(&id) {
            Some(group) => {
                let updated = RouterGroupState {
                    id: group.id,
                    epoch: group.epoch,
                    leader_state: leader_state(&group_state),
                    replicas: group.replicas,
                };
                self.group_id_lookup.insert(id, updated);
                proof {
                    assert(self.group_id_lookup@ =~= before.insert(id, updated));
                    assert(self@.groups =~= old(self)@.apply_group_state(group_state).groups);
                }
            },
            None => {
                proof {
                    assert(self.group_id_lookup@ =~= before);
                }
                self.cached_group_states.insert(id, group_state);
            },
        }
    }

    fn apply_database(&mut self, desc: DatabaseDesc)
        ensures
            final(self)@ == old(self)@.apply_database(desc),
    {
        let id = desc.id;
        let name = desc.name.clone();
        match self.db_id_lookup.insert(id, desc) {
            Some(old_desc) => {
                if old_desc.name != name {
                    self.db_name_lookup.remove(old_desc.name.as_str());
                }
            },
            None => {},
        }
        self.db_name_lookup.insert(name, id);
    }

    fn apply_collection(&mut self, desc: CollectionDesc)
        ensures
            final(self)@ == old(self)@.apply_collection(desc),
    {
        let id = desc.id;
        let db = desc.db;
        let name = desc.name.clone();
        let ghost names = self@.collection_names;
        match self.co_id_lookup.insert(id, desc) {
            Some(old_desc) => {
                if old_desc.name != name {
                    self.forget_collection_name(db, old_desc.name.as_str());
                }
            },
            None => {},
        }
        let ghost table = self.co_name_lookup@;
        let mut under_db = match self.co_name_lookup.remove(&db) {
            Some(under_db) => under_db,
            None => StringHashMap::new(),
        };
        under_db.insert(name, id);
        self.co_name_lookup.insert(db, under_db);
        proof {
            assert(self.co_name_lookup@ =~= table.insert(db, under_db));
            assert(self@.collection_names =~= flat_names(table).insert((db, desc.name@), id));
        }
    }

    fn forget_collection_name(&mut self, db: u64, name: &str)
        ensures
            final(self)@ == (StateView {
                collection_names: old(self)@.collection_names.remove((db, name@)),
                ..old(self)@
            }),
    {
        let ghost table = self.co_name_lookup@;
        match self.co_name_lookup.remove(&db) {
            Some(under_db) => {
                let mut under_db = under_db;
                under_db.remove(name);
                self.co_name_lookup.insert(db, under_db);
                proof {
                    assert(self.co_name_lookup@ =~= table.insert(db, under_db));
                    assert(self@.collection_names =~= flat_names(table).remove((db, name@)));
                }
            },
            None => {
                proof {
                    assert(self.co_name_lookup@ =~= table);
                    assert(self@.collection_names =~= flat_names(table).remove((db, name@)));
                }
            },
        }
    }

    /// Takes in an addition or a replacement.
    pub fn apply_update_event(&mut self, event: UpdateEvent)
        ensures
            final(self)@ == old(self)@.apply_update(event),
    {
        match event {
            UpdateEvent::Node(node_desc) => {
                self.node_id_lookup.insert(node_desc.id, node_desc.addr);
            },
            UpdateEvent::Group(group_desc) => {
                self.apply_group_descriptor(group_desc);
            },
            UpdateEvent::GroupState(group_state) => {
                self.apply_group_state(group_state);
            },
            UpdateEvent::Database(db_desc) => {
                self.apply_database(db_desc);
            },
            UpdateEvent::Collection(co_desc) => {
                self.apply_collection(co_desc);
            },
        }
    }

    /// Takes in a removal. What removing a group or a leadership report
    /// should do is not settled, so such events are not accepted.
    pub fn apply_delete_event(&mut self, event: DeleteEvent)
        requires
            StateView::can_delete(event),
        ensures
            final(self)@ == old(self)@.apply_delete(event),
    {
        match event {
            DeleteEvent::Node(node) => {
                self.node_id_lookup.remove(&node);
            },
            DeleteEvent::Database(db) => {
                let ghost before = self.db_id_lookup@;
                match self.db_id_lookup.remove(&db) {
                    Some(desc) => {
                        self.db_name_lookup.remove(desc.name.as_str());
                    },
                    None => {
                        proof {
                            assert(self.db_id_lookup@ =~= before);
                        }
                    },
                }
            },
            DeleteEvent::Collection(co) => {
                let ghost before = self.co_id_lookup@;
                match self.co_id_lookup.remove(&co) {
                    Some(desc) => {
                        self.forget_collection_name(desc.db, desc.name.as_str());
                    },
                    None => {
                        proof {
                            assert(self.co_id_lookup@ =~= before);
                        }
                    },
                }
            },
            _ => {},
        }
    }
}

fn drop_shard(list: Vec<ShardDesc>, id: u64) -> (out: Vec<ShardDesc>)
    ensures
        out@ == without_shard(list@, id),
{
    let ghost all = list@;
    let mut list = list;
    reverse(&mut list);
    let n = list.len();
    let mut out: Vec<ShardDesc> = Vec::new();
    let mut i: usize = 0;
    while i < n
        invariant
            i <= n,
            n == all.len(),
            list@ == all.skip(i as int).reverse(),
            out@ == without_shard(all.take(i as int), id),
        decreases n - i,
    {
        let shard = list.pop().unwrap();
        proof {
            reveal(Seq::filter);
            assert(shard == all[i as int]);
            assert(all.take(i + 1).drop_last() =~= all.take(i as int));
            assert(list@ =~= all.skip(i + 1).reverse());
        }
        if shard.id != id {
            out.push(shard);
        }
        i += 1;
    }
    proof {
        assert(all.take(n as int) =~= all);
    }
    out
}

} // verus!
