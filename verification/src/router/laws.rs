//! What holds of the routing cache whatever events arrive, and in whatever order.

use crate::descriptor::{GroupDesc, GroupState, RaftRole, ReplicaState, ShardDesc, ShardPartition};
use crate::router::model::{best_leader, claim_all, first_in_slot, holds_slot, leader_of, StateView};
use vstd::prelude::*;

verus! {

/// The descriptor lists the shard.
pub open spec fn lists_shard(desc: GroupDesc, shard: u64) -> bool {
    exists|i: int| 0 <= i < desc.shards@.len() && #[trigger] desc.shards@[i].id == shard
}

/// The cache after each of `descs` in turn.
pub open spec fn apply_groups(state: StateView, descs: Seq<GroupDesc>) -> StateView
    decreases descs.len(),
{
    if descs.len() == 0 {
        state
    } else {
        apply_groups(state, descs.drop_last()).apply_group(descs.last())
    }
}

/// What one descriptor does to the owner of one shard: a shard that it lists
/// passes to its group if the shard was unknown or known at an earlier
/// epoch; every other shard keeps its owner.
pub proof fn lemma_claim_all(
    owners: Map<u64, (u64, u64)>,
    shards: Seq<ShardDesc>,
    group: u64,
    epoch: u64,
    shard: u64,
)
    ensures
        ({
            let after = claim_all(owners, shards, group, epoch);
            let listed = exists|i: int| 0 <= i < shards.len() && #[trigger] shards[i].id == shard;
            &&& after.contains_key(shard) <==> owners.contains_key(shard) || listed
            &&& after.contains_key(shard) ==> after[shard] == if listed && !(owners.contains_key(
                shard,
            ) && owners[shard].1 >= epoch) {
                (group, epoch)
            } else {
                owners[shard]
            }
        }),
    decreases shards.len(),
{
    if shards.len() > 0 {
        let front = shards.drop_last();
        lemma_claim_all(owners, front, group, epoch, shard);
        let listed_front = exists|i: int| 0 <= i < front.len() && #[trigger] front[i].id == shard;
        let listed = exists|i: int| 0 <= i < shards.len() && #[trigger] shards[i].id == shard;
        if listed_front {
            let i = choose|i: int| 0 <= i < front.len() && #[trigger] front[i].id == shard;
            assert(shards[i].id == shard);
        }
        if shards.last().id == shard {
            assert(shards[shards.len() - 1].id == shard);
        }
        if listed {
            let i = choose|i: int| 0 <= i < shards.len() && #[trigger] shards[i].id == shard;
            if i < front.len() {
                assert(front[i].id == shard);
            }
        }
    }
}

/// Epochs never go down: after any sequence of group descriptors the epoch
/// recorded for a shard is at least the epoch it had before and at least
/// the epoch of every descriptor that listed it, and it is the epoch of the
/// group recorded with it, which is either the owner from before or a
/// descriptor that listed the shard. A shard is known afterwards exactly if
/// it was known before or some descriptor listed it.
pub proof fn lemma_shard_epoch_is_maximum(state: StateView, descs: Seq<GroupDesc>, shard: u64)
    ensures
        ({
            let after = apply_groups(state, descs).shard_owners;
            let before = state.shard_owners;
            &&& after.contains_key(shard) <==> before.contains_key(shard) || exists|i: int|
                0 <= i < descs.len() && lists_shard(#[trigger] descs[i], shard)
            &&& before.contains_key(shard) ==> after[shard].1 >= before[shard].1
            &&& forall|i: int|
                0 <= i < descs.len() && lists_shard(#[trigger] descs[i], shard) ==> after[shard].1
                    >= descs[i].epoch
            &&& after.contains_key(shard) ==> (before.contains_key(shard) && after[shard]
                == before[shard]) || exists|i: int|
                0 <= i < descs.len() && lists_shard(#[trigger] descs[i], shard) && after[shard] == (
                    descs[i].id,
                    descs[i].epoch,
                )
        }),
    decreases descs.len(),
{
    if descs.len() > 0 {
        let front = descs.drop_last();
        let last = descs.last();
        let mid = apply_groups(state, front).shard_owners;
        let after = apply_groups(state, descs).shard_owners;
        lemma_shard_epoch_is_maximum(state, front, shard);
        lemma_claim_all(mid, last.shards@, last.id, last.epoch, shard);
        assert(after == claim_all(mid, last.shards@, last.id, last.epoch));
        assert(forall|i: int| 0 <= i < front.len() ==> front[i] == descs[i]);
        if lists_shard(last, shard) {
            assert(lists_shard(descs[descs.len() - 1], shard));
        }
        if exists|i: int| 0 <= i < front.len() && lists_shard(#[trigger] front[i], shard) {
            let i = choose|i: int| 0 <= i < front.len() && lists_shard(#[trigger] front[i], shard);
            assert(lists_shard(descs[i], shard));
        }
        if after.contains_key(shard) && !(state.shard_owners.contains_key(shard) && after[shard]
            == state.shard_owners[shard]) {
            if after[shard] == mid[shard] && mid.contains_key(shard) {
                let i = choose|i: int|
                    0 <= i < front.len() && lists_shard(#[trigger] front[i], shard) && mid[shard]
                        == (front[i].id, front[i].epoch);
                assert(lists_shard(descs[i], shard) && after[shard] == (descs[i].id, descs[i].epoch));
            } else {
                assert(lists_shard(descs[descs.len() - 1], shard));
            }
        }
        assert forall|i: int|
            0 <= i < descs.len() && lists_shard(#[trigger] descs[i], shard) implies after[shard].1
            >= descs[i].epoch by {
            if i < front.len() {
                assert(lists_shard(front[i], shard));
            }
        }
    }
}

/// A group descriptor leaves the leader of a group that the cache already
/// holds as it was, and leaves every other group untouched.
pub proof fn lemma_descriptor_keeps_leader(state: StateView, desc: GroupDesc, group: u64)
    requires
        state.groups.contains_key(group),
    ensures
        state.apply_group(desc).groups.contains_key(group),
        state.apply_group(desc).groups[group].leader_state == state.groups[group].leader_state,
        group != desc.id ==> state.apply_group(desc).groups[group] == state.groups[group],
{
}

/// What `best_leader` picks: nothing exactly if no replica calls itself
/// leader; else a replica that does, whose term no such replica exceeds and
/// none after it reaches.
pub proof fn lemma_best_leader(replicas: Seq<ReplicaState>)
    ensures
        best_leader(replicas) is None <==> forall|i: int|
            0 <= i < replicas.len() ==> (#[trigger] replicas[i]).role != RaftRole::Leader,
        best_leader(replicas) matches Some((id, term)) ==> exists|j: int|
            {
                &&& 0 <= j < replicas.len()
                &&& (#[trigger] replicas[j]).role == RaftRole::Leader
                &&& replicas[j].replica_id == id
                &&& replicas[j].term == term
                &&& forall|k: int|
                    0 <= k < replicas.len() && (#[trigger] replicas[k]).role == RaftRole::Leader
                        ==> replicas[k].term <= term
                &&& forall|k: int|
                    j < k < replicas.len() && (#[trigger] replicas[k]).role == RaftRole::Leader
                        ==> replicas[k].term < term
            },
    decreases replicas.len(),
{
    if replicas.len() > 0 {
        let front = replicas.drop_last();
        let last = replicas.last();
        lemma_best_leader(front);
        assert(forall|i: int| 0 <= i < front.len() ==> front[i] == replicas[i]);
        match best_leader(replicas) {
            None => {
                assert(best_leader(front) is None);
            },
            Some((id, term)) => {
                if best_leader(front) == Some((id, term)) && !(last.role == RaftRole::Leader
                    && last.term >= term) {
                    let j = choose|j: int|
                        {
                            &&& 0 <= j < front.len()
                            &&& (#[trigger] front[j]).role == RaftRole::Leader
                            &&& front[j].replica_id == id
                            &&& front[j].term == term
                            &&& forall|k: int|
                                0 <= k < front.len() && (#[trigger] front[k]).role
                                    == RaftRole::Leader ==> front[k].term <= term
                            &&& forall|k: int|
                                j < k < front.len() && (#[trigger] front[k]).role
                                    == RaftRole::Leader ==> front[k].term < term
                        };
                    assert(replicas[j].role == RaftRole::Leader);
                    assert forall|k: int|
                        0 <= k < replicas.len() && (#[trigger] replicas[k]).role
                            == RaftRole::Leader implies replicas[k].term <= term by {
                        if k < front.len() {
                            assert(front[k].role == RaftRole::Leader);
                        }
                    }
                    assert forall|k: int|
                        j < k < replicas.len() && (#[trigger] replicas[k]).role
                            == RaftRole::Leader implies replicas[k].term < term by {
                        if k < front.len() {
                            assert(front[k].role == RaftRole::Leader);
                        }
                    }
                } else {
                    let j = replicas.len() - 1;
                    assert(replicas[j].role == RaftRole::Leader);
                    assert forall|k: int|
                        0 <= k < replicas.len() && (#[trigger] replicas[k]).role
                            == RaftRole::Leader implies replicas[k].term <= term by {
                        if k < front.len() {
                            assert(front[k].role == RaftRole::Leader);
                        }
                    }
                }
            },
        }
        if best_leader(replicas) is None {
            assert forall|i: int| 0 <= i < replicas.len() implies (#[trigger] replicas[i]).role
                != RaftRole::Leader by {
                if i < front.len() {
                    assert(front[i].role != RaftRole::Leader);
                }
            }
        } else if forall|i: int|
            0 <= i < replicas.len() ==> (#[trigger] replicas[i]).role != RaftRole::Leader {
            assert(replicas[replicas.len() - 1].role != RaftRole::Leader);
            assert forall|i: int| 0 <= i < front.len() implies (#[trigger] front[i]).role
                != RaftRole::Leader by {
                assert(replicas[i].role != RaftRole::Leader);
            }
        }
    }
}

/// A leadership report for a group that the cache holds replaces the
/// group's leader by the one that the report names. Where the report names a
/// leader id and replica `i` calls itself leader, the new leader is a
/// replica of the report that calls itself leader, at a term no earlier than
/// that of replica `i`: a report with a later term wins.
pub proof fn lemma_report_replaces_leader(state: StateView, report: GroupState, i: int)
    requires
        state.groups.contains_key(report.group_id),
        report.leader_id is Some,
        0 <= i < report.replicas@.len(),
        report.replicas@[i].role == RaftRole::Leader,
    ensures
        ({
            let after = state.apply_group_state(report).groups[report.group_id];
            &&& after.leader_state == leader_of(report)
            &&& after.leader_state matches Some((id, term)) && (term >= report.replicas@[i].term
                && exists|j: int|
                0 <= j < report.replicas@.len() && (#[trigger] report.replicas@[j]).role
                    == RaftRole::Leader && report.replicas@[j].replica_id == id
                    && report.replicas@[j].term == term)
        }),
{
    lemma_best_leader(report.replicas@);
}

/// The shards are those of a hash-partitioned collection with `slots`
/// slots: each holds one slot below `slots`, and no two hold the same.
pub open spec fn hash_shards(shards: Seq<ShardDesc>, slots: u32) -> bool {
    &&& forall|i: int| 0 <= i < shards.len() ==> 0 <= slot_of(#[trigger] shards[i]) < slots
    &&& forall|i: int, j: int|
        0 <= i < j < shards.len() ==> slot_of(#[trigger] shards[i]) != slot_of(
            #[trigger] shards[j],
        )
}

/// The slot that a shard holds, for a shard of a hash-partitioned collection.
pub open spec fn slot_of(shard: ShardDesc) -> int {
    match shard.partition {
        Some(ShardPartition::Hash(p)) => p.slot_id as int,
        _ => -1,
    }
}

/// What `first_in_slot` picks: a shard that holds the slot, with none before
/// it that does; nothing exactly if no shard holds the slot.
pub proof fn lemma_first_in_slot(shards: Seq<ShardDesc>, slot: u32)
    ensures
        first_in_slot(shards, slot) is None <==> forall|i: int|
            0 <= i < shards.len() ==> !holds_slot(#[trigger] shards[i], slot),
        first_in_slot(shards, slot) matches Some(shard) ==> exists|i: int|
            0 <= i < shards.len() && #[trigger] shards[i] == shard && holds_slot(shard, slot)
                && forall|j: int| 0 <= j < i ==> !holds_slot(#[trigger] shards[j], slot),
    decreases shards.len(),
{
    if shards.len() > 0 {
        if holds_slot(shards[0], slot) {
            assert(shards[0] == shards[0]);
        } else {
            let rest = shards.skip(1);
            lemma_first_in_slot(rest, slot);
            assert(forall|i: int| 0 <= i < rest.len() ==> rest[i] == shards[i + 1]);
            match first_in_slot(rest, slot) {
                Some(shard) => {
                    let i = choose|i: int|
                        0 <= i < rest.len() && #[trigger] rest[i] == shard && holds_slot(shard, slot)
                            && forall|j: int| 0 <= j < i ==> !holds_slot(#[trigger] rest[j], slot);
                    assert(shards[i + 1] == shard);
                    assert forall|j: int| 0 <= j < i + 1 implies !holds_slot(
                        #[trigger] shards[j],
                        slot,
                    ) by {
                        if j > 0 {
                            assert(!holds_slot(rest[j - 1], slot));
                        }
                    }
                },
                None => {
                    assert forall|i: int| 0 <= i < shards.len() implies !holds_slot(
                        #[trigger] shards[i],
                        slot,
                    ) by {
                        if i > 0 {
                            assert(!holds_slot(rest[i - 1], slot));
                        }
                    }
                },
            }
            if forall|i: int| 0 <= i < shards.len() ==> !holds_slot(#[trigger] shards[i], slot) {
                assert forall|i: int| 0 <= i < rest.len() implies !holds_slot(
                    #[trigger] rest[i],
                    slot,
                ) by {
                    assert(!holds_slot(shards[i + 1], slot));
                }
            }
        }
    }
}

/// With as many shards as slots, every checksum falls to exactly one shard:
/// one shard holds the slot of `crc`, no other does, and the lookup by hash
/// finds that one.
pub proof fn lemma_hash_locator_total(shards: Seq<ShardDesc>, slots: u32, crc: u32)
    requires
        shards.len() == slots,
        hash_shards(shards, slots),
        slots > 0,
    ensures
        exists|i: int|
            {
                &&& 0 <= i < shards.len()
                &&& holds_slot(#[trigger] shards[i], crc % slots)
                &&& first_in_slot(shards, crc % slots) == Some(shards[i])
                &&& forall|j: int|
                    0 <= j < shards.len() && holds_slot(#[trigger] shards[j], crc % slots) ==> j
                        == i
            },
{
    let slot = crc % slots;
    let held = shards.map_values(|s: ShardDesc| slot_of(s));
    let all = Set::new(|x: int| 0 <= x < slots as int);
    assert(held.no_duplicates()) by {
        assert forall|i: int, j: int| 0 <= i < held.len() && 0 <= j < held.len() && i != j implies held[i]
            != held[j] by {
            if i < j {
                assert(slot_of(shards[i]) != slot_of(shards[j]));
            } else {
                assert(slot_of(shards[j]) != slot_of(shards[i]));
            }
        }
    }
    held.unique_seq_to_set();
    vstd::set_lib::lemma_int_range(0, slots as int);
    assert(all =~= vstd::set_lib::set_int_range(0, slots as int));
    assert(held.to_set().subset_of(all)) by {
        assert forall|x: int| held.to_set().contains(x) implies all.contains(x) by {
            let i = choose|i: int| 0 <= i < held.len() && held[i] == x;
            assert(0 <= slot_of(shards[i]) < slots);
        }
    }
    vstd::set_lib::lemma_subset_equality(held.to_set(), all);
    assert(all.contains(slot as int));
    assert(held.to_set().contains(slot as int));
    let i = choose|i: int| 0 <= i < held.len() && held[i] == slot as int;
    assert(holds_slot(shards[i], slot));
    lemma_first_in_slot(shards, slot);
    assert forall|j: int| 0 <= j < shards.len() && holds_slot(#[trigger] shards[j], slot) implies j
        == i by {
        if j < i {
            assert(slot_of(shards[j]) != slot_of(shards[i]));
        } else if i < j {
            assert(slot_of(shards[i]) != slot_of(shards[j]));
        }
    }
    let found = first_in_slot(shards, slot);
    assert(found is Some);
    let k = choose|k: int|
        0 <= k < shards.len() && #[trigger] shards[k] == found->0 && holds_slot(found->0, slot)
            && forall|j: int| 0 <= j < k ==> !holds_slot(#[trigger] shards[j], slot);
    assert(holds_slot(shards[k], slot));
    assert(k == i);
}

} // verus!
