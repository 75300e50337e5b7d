//! Serving a request on a replica: what to do with each outcome of an
//! attempt, and whether a request can be served again under a newer group
//! descriptor. The attempts themselves, and the waiting between them, are
//! the caller's.

use crate::checksum::{crc32, crc32_of};
use crate::descriptor::{GroupDesc, ShardDesc, ShardPartition};
use crate::error::Error;
use crate::lex::{compare, lemma_lex_trichotomy, Order};
use crate::router::model::holds_key;
use vstd::prelude::*;

verus! {

/// The pause before an attempt is repeated because the replica was busy or
/// not ready, in microseconds.
pub const RETRY_PAUSE_MICROS: u64 = 200;

/// A key, and the shard in which a request expects it.
#[derive(Debug)]
pub struct ShardKey {
    pub shard_id: u64,
    pub key: Vec<u8>,
}

/// A request to a group, as far as serving it again depends on it.
#[derive(Debug)]
pub enum Request {
    Get(ShardKey),
    Put(ShardKey),
    Delete(ShardKey),
    /// The key is the prefix to list.
    PrefixList(ShardKey),
    BatchWrite { deletes: Vec<ShardKey>, puts: Vec<ShardKey> },
    /// A request that changes the group itself: its shards, its replicas or
    /// its leader.
    ChangeMeta,
}

/// The shard holds the key whose checksum is `crc`: the key's hash slot is
/// the shard's, or the key lies in the shard's range.
pub open spec fn holds(shard: ShardDesc, key: Seq<u8>, crc: u32) -> bool {
    match shard.partition {
        Some(ShardPartition::Hash(p)) => p.slots != 0 && crc % p.slots == p.slot_id,
        Some(ShardPartition::Range(_)) => holds_key(shard, key),
        None => false,
    }
}

/// The descriptor lists shard `shard_id`, and the first shard that it lists
/// under that id holds the key.
pub open spec fn targets(shards: Seq<ShardDesc>, shard_id: u64, key: Seq<u8>, crc: u32) -> bool
    decreases shards.len(),
{
    if shards.len() == 0 {
        false
    } else if shards[0].id == shard_id {
        holds(shards[0], key, crc)
    } else {
        targets(shards.skip(1), shard_id, key, crc)
    }
}

/// The descriptor has the target of each of `keys`.
pub open spec fn targets_all(shards: Seq<ShardDesc>, keys: Seq<ShardKey>) -> bool {
    forall|i: int|
        0 <= i < keys.len() ==> targets(
            shards,
            (#[trigger] keys[i]).shard_id,
            keys[i].key@,
            crc32(keys[i].key@),
        )
}

/// The request can be served under the descriptor: it does not change the
/// group, and the descriptor has the target of each of its keys.
pub open spec fn executable(descriptor: GroupDesc, request: Request) -> bool {
    match request {
        Request::Get(k) | Request::Put(k) | Request::Delete(k) | Request::PrefixList(k) => targets(
            descriptor.shards@,
            k.shard_id,
            k.key@,
            crc32(k.key@),
        ),
        Request::BatchWrite { deletes, puts } => targets_all(descriptor.shards@, deletes@)
            && targets_all(descriptor.shards@, puts@),
        Request::ChangeMeta => false,
    }
}

/// Whether the shard holds `key`, whose checksum is `crc`.
pub fn belongs_to(shard: &ShardDesc, key: &[u8], crc: u32) -> (held: bool)
    ensures
        held == holds(*shard, key@, crc),
{
    match &shard.partition {
        Some(ShardPartition::Hash(p)) => p.slots != 0 && crc % p.slots == p.slot_id,
        Some(ShardPartition::Range(r)) => {
            proof {
                lemma_lex_trichotomy(r.start@, key@);
                lemma_lex_trichotomy(key@, r.end@);
            }
            match compare(r.start.as_slice(), key) {
                Order::Greater => false,
                _ => r.end.len() == 0 || matches!(compare(key, r.end.as_slice()), Order::Less),
            }
        },
        None => false,
    }
}

/// Whether the descriptor has shard `shard_id` and that shard holds `key`,
/// whose checksum is `crc`.
pub fn has_target(desc: &GroupDesc, shard_id: u64, key: &[u8], crc: u32) -> (found: bool)
    ensures
        found == targets(desc.shards@, shard_id, key@, crc),
{
    let mut i: usize = 0;
    proof {
        assert(desc.shards@.skip(0) =~= desc.shards@);
    }
    while i < desc.shards.len()
        invariant
            i <= desc.shards.len(),
            targets(desc.shards@, shard_id, key@, crc) == targets(
                desc.shards@.skip(i as int),
                shard_id,
                key@,
                crc,
            ),
        decreases desc.shards.len() - i,
    {
        proof {
            assert(desc.shards@.skip(i as int)[0] == desc.shards@[i as int]);
            assert(desc.shards@.skip(i as int).skip(1) =~= desc.shards@.skip(i + 1));
        }
        if desc.shards[i].id == shard_id {
            return belongs_to(&desc.shards[i], key, crc);
        }
        i += 1;
    }
    false
}

/// Whether the descriptor has shard `shard_id` and that shard holds `key`.
pub fn is_target_shard_exists(desc: &GroupDesc, shard_id: u64, key: &[u8]) -> (found: bool)
    ensures
        found == targets(desc.shards@, shard_id, key@, crc32(key@)),
{
    has_target(desc, shard_id, key, crc32_of(key))
}

fn has_all_targets(desc: &GroupDesc, keys: &Vec<ShardKey>) -> (found: bool)
    ensures
        found == targets_all(desc.shards@, keys@),
{
    let mut i: usize = 0;
    while i < keys.len()
        invariant
            i <= keys.len(),
            targets_all(desc.shards@, keys@.take(i as int)),
        decreases keys.len() - i,
    {
        if !is_target_shard_exists(desc, keys[i].shard_id, keys[i].key.as_slice()) {
            return false;
        }
        proof {
            let done = keys@.take(i + 1);
            assert forall|j: int| 0 <= j < done.len() implies targets(
                desc.shards@,
                (#[trigger] done[j]).shard_id,
                done[j].key@,
                crc32(done[j].key@),
            ) by {
                if j < i {
                    assert(keys@.take(i as int)[j] == done[j]);
                }
            }
        }
        i += 1;
    }
    proof {
        assert(keys@.take(i as int) =~= keys@);
    }
    true
}

/// Whether the request can be served under a descriptor that the replica
/// reported in place of serving it.
pub fn is_executable(descriptor: &GroupDesc, request: &Request) -> (can: bool)
    ensures
        can == executable(*descriptor, *request),
{
    match request {
        Request::Get(k) => is_target_shard_exists(descriptor, k.shard_id, k.key.as_slice()),
        Request::Put(k) => is_target_shard_exists(descriptor, k.shard_id, k.key.as_slice()),
        Request::Delete(k) => is_target_shard_exists(descriptor, k.shard_id, k.key.as_slice()),
        Request::PrefixList(k) => is_target_shard_exists(descriptor, k.shard_id, k.key.as_slice()),
        Request::BatchWrite { deletes, puts } => has_all_targets(descriptor, deletes)
            && has_all_targets(descriptor, puts),
        Request::ChangeMeta => false,
    }
}

/// How an attempt to serve a request ended.
#[derive(Debug)]
pub enum Outcome {
    /// The replica served the request.
    Served,
    /// The shard is on its way to another group, which has to serve the
    /// request.
    Forward,
    /// The replica was busy, or its group was not ready.
    Busy,
    /// The request named an epoch that is not the group's; the group's
    /// descriptor comes with the refusal.
    EpochNotMatch(GroupDesc),
    /// The replica's group does not hold the shard.
    ShardNotFound(u64),
    /// Any other error.
    Failed,
}

/// What to do after an attempt.
#[derive(Debug)]
pub enum Action {
    /// Hand the response to the caller.
    Reply,
    /// Hand the response to the caller, and with it the descriptor under
    /// which the request was served, as an epoch mismatch.
    ReplyWithDescriptor(GroupDesc),
    /// Hand the request to the migration controller and return what it
    /// returns.
    HandOver,
    /// Pause for `RETRY_PAUSE_MICROS`, then try again.
    RetryAfterPause,
    /// Try again at once, at the epoch that the state now holds.
    RetryAtNewEpoch,
    /// Fail with an epoch mismatch that carries this descriptor.
    FailWithDescriptor(GroupDesc),
    /// Fail with an epoch mismatch that carries the replica's own
    /// descriptor.
    FailWithOwnDescriptor,
    /// Fail with the error of the attempt.
    Fail,
}

/// What carries over from one attempt to the next.
#[derive(Debug)]
pub struct Attempts {
    /// The epoch at which the next attempt is made.
    pub epoch: u64,
    /// The descriptor from which that epoch was taken, if the request's own
    /// epoch was refused.
    pub refreshed: Option<GroupDesc>,
}

/// The state before the first attempt at a request that names `epoch`. A
/// group request without a request in it is refused.
pub fn begin(epoch: u64, request: Option<Request>) -> (started: Result<(Attempts, Request), Error>)
    ensures
        match started {
            Ok((attempts, r)) => request == Some(r) && attempts.epoch == epoch
                && attempts.refreshed is None,
            Err(e) => request is None && e.kind() == crate::error::ErrorKind::InvalidArgument
                && e.text() == "GroupRequest::request is None"@,
        },
{
    match request {
        Some(request) => Ok((Attempts { epoch, refreshed: None }, request)),
        None => Err(Error::InvalidArgument(String::from_str("GroupRequest::request is None"))),
    }
}

/// Whether the outcome is one that the caller prepared for. A request can
/// only be forwarded where there is a migration controller, and a shard can
/// only be missing where the request was itself forwarded here.
pub open spec fn expected(outcome: Outcome, can_forward: bool, forwarded: bool) -> bool {
    &&& outcome is Forward ==> can_forward
    &&& outcome is ShardNotFound ==> forwarded
}

/// What follows from `outcome`, as a value: the action, and the state for
/// the next attempt.
pub open spec fn decide(attempts: Attempts, request: Request, outcome: Outcome) -> (Action, Attempts) {
    match outcome {
        Outcome::Served => match attempts.refreshed {
            Some(descriptor) => (
                Action::ReplyWithDescriptor(descriptor),
                Attempts { epoch: attempts.epoch, refreshed: None },
            ),
            None => (Action::Reply, attempts),
        },
        Outcome::Forward => (Action::HandOver, attempts),
        Outcome::Busy => (Action::RetryAfterPause, attempts),
        Outcome::EpochNotMatch(descriptor) => if executable(descriptor, request) {
            (
                Action::RetryAtNewEpoch,
                Attempts { epoch: descriptor.epoch, refreshed: Some(descriptor) },
            )
        } else {
            (Action::FailWithDescriptor(descriptor), attempts)
        },
        Outcome::ShardNotFound(_) => (Action::FailWithOwnDescriptor, attempts),
        Outcome::Failed => (Action::Fail, attempts),
    }
}

/// Takes in the outcome of an attempt and says what to do next.
///
/// A served request is answered; if it was served at an epoch taken from a
/// refusal, the answer carries that refusal's descriptor. A busy replica is
/// tried again after a pause. An epoch mismatch is tried again at the
/// reported epoch if the request can be served under the reported
/// descriptor, and fails otherwise.
pub fn on_outcome(
    attempts: &mut Attempts,
    request: &Request,
    outcome: Outcome,
    can_forward: bool,
    forwarded: bool,
) -> (action: Action)
    requires
        expected(outcome, can_forward, forwarded),
    ensures
        (action, *final(attempts)) == decide(*old(attempts), *request, outcome),
{
    match outcome {
        Outcome::Served => {
            match attempts.refreshed.take() {
                Some(descriptor) => Action::ReplyWithDescriptor(descriptor),
                None => Action::Reply,
            }
        },
        Outcome::Forward => Action::HandOver,
        Outcome::Busy => Action::RetryAfterPause,
        Outcome::EpochNotMatch(descriptor) => {
            if is_executable(&descriptor, request) {
                attempts.epoch = descriptor.epoch;
                attempts.refreshed = Some(descriptor);
                Action::RetryAtNewEpoch
            } else {
                Action::FailWithDescriptor(descriptor)
            }
        },
        Outcome::ShardNotFound(_) => Action::FailWithOwnDescriptor,
        Outcome::Failed => Action::Fail,
    }
}

} // verus!
