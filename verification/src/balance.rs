//! Evening out the number of leaders that each node hosts: how nodes are
//! ranked by their load, and which leader is moved where. Whether a node's
//! load is above or below the mean is for the caller to say.

use crate::descriptor::{
    GroupDesc, NodeDesc, RaftRole, ReplicaDesc, ReplicaRole, ReplicaState,
};
use crate::error::{Error, ErrorKind};
use std::collections::HashMap;
use std::sync::Arc;
use vstd::prelude::*;

verus! {

/// The group that holds the cluster's own metadata. Its leader is never
/// moved for balance.
pub const ROOT_GROUP_ID: u64 = 0;

/// How a node's load compares with the mean.
#[derive(Clone, Copy, Debug, PartialEq, Eq, Structural)]
pub enum BalanceStatus {
    Overfull,
    Balanced,
    Underfull,
}

/// A node as the policy sees it.
#[derive(Clone, Copy, Debug, PartialEq, Eq, Structural)]
pub struct NodeLoad {
    pub id: u64,
    /// The number of leaders that the node hosts.
    pub leader_count: u64,
    pub status: BalanceStatus,
    /// With one leader more the node would not be overfull.
    pub takes_one_more: bool,
}

/// A replica that a node hosts, with its group and what it last reported.
#[derive(Clone, Copy, Debug, PartialEq, Eq, Structural)]
pub struct HostedReplica {
    pub replica: ReplicaDesc,
    pub group_id: u64,
    pub state: Option<ReplicaState>,
}

/// A leadership to move.
#[derive(Clone, Copy, Debug, PartialEq, Eq, Structural)]
pub struct TransferLeader {
    pub group: u64,
    pub src_node: u64,
    pub src_replica: u64,
    pub target_node: u64,
    pub target_replica: u64,
}

/// What the policy asks for.
#[derive(Clone, Copy, Debug, PartialEq, Eq, Structural)]
pub enum LeaderAction {
    Noop,
    Shed(TransferLeader),
}

/// `a` ranks behind `b`: `b` is overfull and `a` is not; or, where that
/// does not decide and `a` is underfull or `b` is not, `b` hosts more
/// leaders.
pub open spec fn ranks_behind(a: NodeLoad, b: NodeLoad) -> bool {
    if b.status is Overfull && !(a.status is Overfull) {
        true
    } else if b.status is Underfull && !(a.status is Underfull) {
        false
    } else {
        b.leader_count > a.leader_count
    }
}

/// `ranked` with `node` put in: behind every node of `ranked` that it does
/// not outrank from the end on, and otherwise as far back as it can go.
pub open spec fn placed(ranked: Seq<NodeLoad>, node: NodeLoad) -> Seq<NodeLoad>
    decreases ranked.len(),
{
    if ranked.len() > 0 && ranks_behind(ranked.last(), node) {
        placed(ranked.drop_last(), node).push(ranked.last())
    } else {
        ranked.push(node)
    }
}

/// The nodes in rank order: each in turn is put in among those before it.
pub open spec fn ranking(nodes: Seq<NodeLoad>) -> Seq<NodeLoad>
    decreases nodes.len(),
{
    if nodes.len() == 0 {
        Seq::empty()
    } else {
        placed(ranking(nodes.drop_last()), nodes.last())
    }
}

/// The statuses agree with the loads: an overfull node hosts more leaders
/// than a node that is not, and an underfull node fewer.
pub open spec fn statuses_agree(nodes: Seq<NodeLoad>) -> bool {
    forall|i: int, j: int|
        0 <= i < nodes.len() && 0 <= j < nodes.len() ==> {
            let a = #[trigger] nodes[i];
            let b = #[trigger] nodes[j];
            &&& a.status is Overfull && !(b.status is Overfull) ==> a.leader_count > b.leader_count
            &&& a.status is Underfull && !(b.status is Underfull) ==> a.leader_count
                < b.leader_count
        }
}

/// From the most leaders to the fewest.
pub open spec fn descending(nodes: Seq<NodeLoad>) -> bool {
    forall|i: int, j: int|
        0 <= i < j < nodes.len() ==> (#[trigger] nodes[i]).leader_count >= (
        #[trigger] nodes[j]).leader_count
}

/// Where `node` goes in `ranked`: everything from there on ranks behind
/// it, and what stands just before does not.
pub open spec fn is_place(ranked: Seq<NodeLoad>, node: NodeLoad, at: int) -> bool {
    &&& 0 <= at <= ranked.len()
    &&& forall|i: int| at <= i < ranked.len() ==> ranks_behind(#[trigger] ranked[i], node)
    &&& at > 0 ==> !ranks_behind(ranked[at - 1], node)
}

/// Putting a node in is inserting it at its place.
pub proof fn lemma_placed(ranked: Seq<NodeLoad>, node: NodeLoad, at: int)
    requires
        is_place(ranked, node, at),
    ensures
        placed(ranked, node) == ranked.insert(at, node),
    decreases ranked.len(),
{
    if ranked.len() > 0 && ranks_behind(ranked.last(), node) {
        let front = ranked.drop_last();
        assert(at < ranked.len()) by {
            if at == ranked.len() {
                assert(!ranks_behind(ranked[at - 1], node));
            }
        }
        assert(is_place(front, node, at)) by {
            assert forall|i: int| at <= i < front.len() implies ranks_behind(
                #[trigger] front[i],
                node,
            ) by {
                assert(front[i] == ranked[i]);
            }
            if at > 0 {
                assert(front[at - 1] == ranked[at - 1]);
            }
        }
        lemma_placed(front, node, at);
        assert(front.insert(at, node).push(ranked.last()) =~= ranked.insert(at, node));
    } else {
        if ranked.len() > 0 && at < ranked.len() {
            assert(ranks_behind(ranked[ranked.len() - 1], node));
        }
        assert(ranked.push(node) =~= ranked.insert(ranked.len() as int, node));
    }
}

/// Ranking loses no node and adds none.
pub proof fn lemma_ranking_keeps_nodes(nodes: Seq<NodeLoad>)
    ensures
        ranking(nodes).to_multiset() == nodes.to_multiset(),
        ranking(nodes).len() == nodes.len(),
    decreases nodes.len(),
{
    broadcast use vstd::seq_lib::group_to_multiset_ensures;

    if nodes.len() > 0 {
        let front = nodes.drop_last();
        let node = nodes.last();
        lemma_ranking_keeps_nodes(front);
        lemma_placed_keeps_nodes(ranking(front), node);
        assert(front.push(node) =~= nodes);
    } else {
        assert(ranking(nodes) =~= nodes);
    }
}

/// Putting a node in adds that node and nothing else.
pub proof fn lemma_placed_keeps_nodes(ranked: Seq<NodeLoad>, node: NodeLoad)
    ensures
        placed(ranked, node).to_multiset() == ranked.to_multiset().insert(node),
        placed(ranked, node).len() == ranked.len() + 1,
    decreases ranked.len(),
{
    broadcast use vstd::seq_lib::group_to_multiset_ensures;

    if ranked.len() > 0 && ranks_behind(ranked.last(), node) {
        let front = ranked.drop_last();
        lemma_placed_keeps_nodes(front, node);
        assert(front.push(ranked.last()) =~= ranked);
        assert(placed(ranked, node).to_multiset() =~= ranked.to_multiset().insert(node));
    }
}

/// Where the statuses agree with the loads, the ranking runs from the most
/// leaders to the fewest.
pub proof fn lemma_ranking_descends(nodes: Seq<NodeLoad>)
    requires
        statuses_agree(nodes),
    ensures
        descending(ranking(nodes)),
        forall|i: int|
            0 <= i < ranking(nodes).len() ==> nodes.contains(#[trigger] ranking(nodes)[i]),
    decreases nodes.len(),
{
    if nodes.len() > 0 {
        let front = nodes.drop_last();
        let node = nodes.last();
        assert(statuses_agree(front)) by {
            assert forall|i: int, j: int| 0 <= i < front.len() && 0 <= j < front.len() implies {
                let a = #[trigger] front[i];
                let b = #[trigger] front[j];
                &&& a.status is Overfull && !(b.status is Overfull) ==> a.leader_count
                    > b.leader_count
                &&& a.status is Underfull && !(b.status is Underfull) ==> a.leader_count
                    < b.leader_count
            } by {
                assert(front[i] == nodes[i] && front[j] == nodes[j]);
            }
        }
        lemma_ranking_descends(front);
        let ranked = ranking(front);
        assert forall|i: int| 0 <= i < ranked.len() implies nodes.contains(#[trigger] ranked[i]) by {
            let k = choose|k: int| 0 <= k < front.len() && front[k] == ranked[i];
            assert(nodes[k] == ranked[i]);
        }
        assert(nodes[nodes.len() - 1] == node);
        lemma_placed_descends(nodes, ranked, node);
    }
}

/// Putting a node into a descending run keeps it descending, where the
/// statuses of all of them agree with their loads.
pub proof fn lemma_placed_descends(all: Seq<NodeLoad>, ranked: Seq<NodeLoad>, node: NodeLoad)
    requires
        statuses_agree(all),
        descending(ranked),
        all.contains(node),
        forall|i: int| 0 <= i < ranked.len() ==> all.contains(#[trigger] ranked[i]),
    ensures
        descending(placed(ranked, node)),
        forall|i: int|
            0 <= i < placed(ranked, node).len() ==> all.contains(#[trigger] placed(ranked, node)[i]),
    decreases ranked.len(),
{
    let k = choose|k: int| 0 <= k < all.len() && all[k] == node;
    assert forall|e: NodeLoad| all.contains(e) implies (ranks_behind(e, node) <==> node.leader_count
        > e.leader_count) by {
        let m = choose|m: int| 0 <= m < all.len() && all[m] == e;
        assert(all[m] == e && all[k] == node);
    }
    if ranked.len() > 0 && ranks_behind(ranked.last(), node) {
        let front = ranked.drop_last();
        let last = ranked.last();
        assert(all.contains(ranked[ranked.len() - 1]));
        assert forall|i: int| 0 <= i < front.len() implies all.contains(#[trigger] front[i]) by {
            assert(front[i] == ranked[i]);
        }
        assert(descending(front)) by {
            assert forall|i: int, j: int| 0 <= i < j < front.len() implies (
            #[trigger] front[i]).leader_count >= (#[trigger] front[j]).leader_count by {
                assert(front[i] == ranked[i] && front[j] == ranked[j]);
            }
        }
        lemma_placed_descends(all, front, node);
        lemma_placed_keeps_nodes(front, node);
        let inner = placed(front, node);
        let out = inner.push(last);
        assert forall|i: int, j: int| 0 <= i < j < out.len() implies (
        #[trigger] out[i]).leader_count >= (#[trigger] out[j]).leader_count by {
            if j == out.len() - 1 {
                assert(out[i] == inner[i]);
                // every node of `inner` is `node` or a node of `front`
                lemma_placed_members(front, node, i);
                if inner[i] != node {
                    let m = choose|m: int| 0 <= m < front.len() && front[m] == inner[i];
                    assert(ranked[m].leader_count >= ranked[ranked.len() - 1].leader_count);
                }
            } else {
                assert(out[i] == inner[i] && out[j] == inner[j]);
            }
        }
        assert forall|i: int| 0 <= i < out.len() implies all.contains(#[trigger] out[i]) by {
            if i < inner.len() {
                assert(out[i] == inner[i]);
            }
        }
    } else {
        let out = ranked.push(node);
        assert forall|i: int, j: int| 0 <= i < j < out.len() implies (
        #[trigger] out[i]).leader_count >= (#[trigger] out[j]).leader_count by {
            if j == out.len() - 1 {
                assert(out[i] == ranked[i]);
                assert(ranked[i].leader_count >= ranked[ranked.len() - 1].leader_count);
                assert(all.contains(ranked[ranked.len() - 1]));
            } else {
                assert(out[i] == ranked[i] && out[j] == ranked[j]);
            }
        }
        assert forall|i: int| 0 <= i < out.len() implies all.contains(#[trigger] out[i]) by {
            if i < ranked.len() {
                assert(out[i] == ranked[i]);
            }
        }
    }
}

/// A node of `placed(ranked, node)` is `node` or a node of `ranked`.
pub proof fn lemma_placed_members(ranked: Seq<NodeLoad>, node: NodeLoad, i: int)
    requires
        0 <= i < placed(ranked, node).len(),
    ensures
        placed(ranked, node)[i] == node || exists|m: int|
            0 <= m < ranked.len() && ranked[m] == placed(ranked, node)[i],
    decreases ranked.len(),
{
    if ranked.len() > 0 && ranks_behind(ranked.last(), node) {
        let front = ranked.drop_last();
        let inner = placed(front, node);
        if i < inner.len() {
            lemma_placed_members(front, node, i);
            if inner[i] != node {
                let m = choose|m: int| 0 <= m < front.len() && front[m] == inner[i];
                assert(ranked[m] == inner[i]);
            }
        } else {
            assert(ranked[ranked.len() - 1] == ranked.last());
        }
    } else {
        if i < ranked.len() {
            assert(ranked[i] == placed(ranked, node)[i]);
        }
    }
}

/// Whether `a` ranks behind `b`.
pub fn is_behind(a: &NodeLoad, b: &NodeLoad) -> (behind: bool)
    ensures
        behind == ranks_behind(*a, *b),
{
    let a_over = matches!(a.status, BalanceStatus::Overfull);
    let b_over = matches!(b.status, BalanceStatus::Overfull);
    let a_under = matches!(a.status, BalanceStatus::Underfull);
    let b_under = matches!(b.status, BalanceStatus::Underfull);
    if b_over && !a_over {
        true
    } else if b_under && !a_under {
        false
    } else {
        b.leader_count > a.leader_count
    }
}

/// Ranks the nodes for shedding leaders: the overfull first, the underfull
/// last, and within each the one with more leaders first. Nodes that rank
/// alike keep their order.
pub fn rank_nodes_for_leader(nodes: Vec<NodeLoad>) -> (ranked: Vec<NodeLoad>)
    ensures
        ranked@ == ranking(nodes@),
{
    let mut ranked: Vec<NodeLoad> = Vec::new();
    let mut i: usize = 0;
    while i < nodes.len()
        invariant
            i <= nodes.len(),
            ranked@ == ranking(nodes@.take(i as int)),
        decreases nodes.len() - i,
    {
        let node = nodes[i];
        let mut at: usize = ranked.len();
        while at > 0 && is_behind(&ranked[at - 1], &node)
            invariant
                at <= ranked.len(),
                forall|k: int| at <= k < ranked.len() ==> ranks_behind(#[trigger] ranked@[k], node),
            decreases at,
        {
            at -= 1;
        }
        proof {
            lemma_placed(ranked@, node, at as int);
            assert(nodes@.take(i + 1).drop_last() =~= nodes@.take(i as int));
        }
        ranked.insert(at, node);
        i += 1;
    }
    proof {
        assert(nodes@.take(i as int) =~= nodes@);
    }
    ranked
}

/// The replica leads its group from this node, and the group's leader may
/// be moved: it is a voter of a group other than the root group, and it
/// last reported itself as leader.
pub open spec fn leads_here(hosted: HostedReplica) -> bool {
    &&& hosted.group_id != ROOT_GROUP_ID
    &&& hosted.replica.role == ReplicaRole::Voter
    &&& hosted.state matches Some(state) && state.role == RaftRole::Leader
}

/// The replicas of a group other than replica `except`, by the node that
/// hosts them; of several on one node the last.
pub open spec fn others_by_node(replicas: Seq<ReplicaDesc>, except: u64) -> Map<u64, ReplicaDesc>
    decreases replicas.len(),
{
    if replicas.len() == 0 {
        Map::empty()
    } else {
        let before = others_by_node(replicas.drop_last(), except);
        let last = replicas.last();
        if last.id != except {
            before.insert(last.node_id, last)
        } else {
            before
        }
    }
}

/// The node can take over a leadership from among `others`: it is
/// underfull, would not be overfull with one leader more, and hosts one of
/// them.
pub open spec fn can_take(node: NodeLoad, others: Map<u64, ReplicaDesc>) -> bool {
    node.status is Underfull && node.takes_one_more && others.contains_key(node.id)
}

/// The replica that takes over: that of the last node of `ranked` that can
/// take a leadership from among `others`.
pub open spec fn taker(ranked: Seq<NodeLoad>, others: Map<u64, ReplicaDesc>) -> Option<ReplicaDesc>
    decreases ranked.len(),
{
    if ranked.len() == 0 {
        None
    } else if can_take(ranked.last(), others) {
        Some(others[ranked.last().id])
    } else {
        taker(ranked.drop_last(), others)
    }
}

/// The transfer that relieves a node of the leadership of `hosted`, if
/// there is a node to take it.
pub open spec fn transfer_of(
    hosted: HostedReplica,
    groups: Map<u64, GroupDesc>,
    ranked: Seq<NodeLoad>,
) -> Option<TransferLeader> {
    if leads_here(hosted) {
        match taker(ranked, others_by_node(groups[hosted.group_id].replicas@, hosted.replica.id)) {
            Some(target) => Some(
                TransferLeader {
                    group: hosted.group_id,
                    src_node: hosted.replica.node_id,
                    src_replica: hosted.replica.id,
                    target_node: target.node_id,
                    target_replica: target.id,
                },
            ),
            None => None,
        }
    } else {
        None
    }
}

/// The transfer that relieves a node: that of the first of the replicas it
/// hosts for which there is one.
pub open spec fn first_transfer(
    hosted: Seq<HostedReplica>,
    groups: Map<u64, GroupDesc>,
    ranked: Seq<NodeLoad>,
) -> Option<TransferLeader>
    decreases hosted.len(),
{
    if hosted.len() == 0 {
        None
    } else {
        match transfer_of(hosted[0], groups, ranked) {
            Some(transfer) => Some(transfer),
            None => first_transfer(hosted.skip(1), groups, ranked),
        }
    }
}

/// Every group that one of the replicas leads is known.
pub open spec fn groups_known(hosted: Seq<HostedReplica>, groups: Map<u64, GroupDesc>) -> bool {
    forall|i: int|
        0 <= i < hosted.len() && leads_here(#[trigger] hosted[i]) ==> groups.contains_key(
            hosted[i].group_id,
        )
}

fn collect_others(replicas: &Vec<ReplicaDesc>, except: u64) -> (others: HashMap<u64, ReplicaDesc>)
    ensures
        others@ == others_by_node(replicas@, except),
{
    let mut others: HashMap<u64, ReplicaDesc> = HashMap::new();
    let mut i: usize = 0;
    while i < replicas.len()
        invariant
            i <= replicas.len(),
            others@ == others_by_node(replicas@.take(i as int), except),
        decreases replicas.len() - i,
    {
        let r = replicas[i];
        proof {
            assert(replicas@.take(i + 1).drop_last() =~= replicas@.take(i as int));
        }
        if r.id != except {
            others.insert(r.node_id, r);
        }
        i += 1;
    }
    proof {
        assert(replicas@.take(i as int) =~= replicas@);
    }
    others
}

fn find_taker(ranked: &Vec<NodeLoad>, others: &HashMap<u64, ReplicaDesc>) -> (found: Option<
    ReplicaDesc,
>)
    ensures
        found == taker(ranked@, others@),
{
    let mut n: usize = ranked.len();
    proof {
        assert(ranked@.take(n as int) =~= ranked@);
    }
    while n > 0
        invariant
            n <= ranked.len(),
            taker(ranked@, others@) == taker(ranked@.take(n as int), others@),
        decreases n,
    {
        let node = &ranked[n - 1];
        proof {
            assert(ranked@.take(n as int).drop_last() =~= ranked@.take(n - 1));
        }
        if matches!(node.status, BalanceStatus::Underfull) && node.takes_one_more {
            match others.get(&node.id) {
                Some(target) => {
                    return Some(*target);
                },
                None => {},
            }
        }
        n -= 1;
    }
    None
}

/// Whether every group that one of the replicas leads is known.
pub fn are_groups_known(hosted: &Vec<HostedReplica>, groups: &HashMap<u64, GroupDesc>) -> (known:
    bool)
    ensures
        known == groups_known(hosted@, groups@),
{
    let mut i: usize = 0;
    while i < hosted.len()
        invariant
            i <= hosted.len(),
            groups_known(hosted@.take(i as int), groups@),
        decreases hosted.len() - i,
    {
        if is_leader_here(&hosted[i]) && !groups.contains_key(&hosted[i].group_id) {
            return false;
        }
        proof {
            let done = hosted@.take(i + 1);
            assert forall|j: int|
                0 <= j < done.len() && leads_here(#[trigger] done[j]) implies groups@.contains_key(
                done[j].group_id,
            ) by {
                if j < i {
                    assert(hosted@.take(i as int)[j] == done[j]);
                }
            }
        }
        i += 1;
    }
    proof {
        assert(hosted@.take(i as int) =~= hosted@);
    }
    true
}

/// Whether the replica leads its group from this node, and the group's
/// leader may be moved.
pub fn is_leader_here(hosted: &HostedReplica) -> (leads: bool)
    ensures
        leads == leads_here(*hosted),
{
    if hosted.group_id == ROOT_GROUP_ID {
        return false;
    }
    if !matches!(hosted.replica.role, ReplicaRole::Voter) {
        return false;
    }
    match &hosted.state {
        Some(state) => matches!(state.role, RaftRole::Leader),
        None => false,
    }
}

/// Picks the leadership that an overfull node sheds, and the node that
/// takes it. The node's replicas are tried in order. One is passed over
/// unless it is a voter that leads a group other than the root group. Its
/// leadership goes to the lowest-ranking node that is underfull, would not
/// be overfull with it, and hosts another replica of the group; if there is
/// no such node, the next replica is tried.
pub fn try_decrease_node_leader_count(
    hosted: &Vec<HostedReplica>,
    groups: &HashMap<u64, GroupDesc>,
    ranked: &Vec<NodeLoad>,
) -> (transfer: Option<TransferLeader>)
    requires
        groups_known(hosted@, groups@),
    ensures
        transfer == first_transfer(hosted@, groups@, ranked@),
{
    let mut i: usize = 0;
    proof {
        assert(hosted@.skip(0) =~= hosted@);
    }
    while i < hosted.len()
        invariant
            i <= hosted.len(),
            groups_known(hosted@, groups@),
            first_transfer(hosted@, groups@, ranked@) == first_transfer(
                hosted@.skip(i as int),
                groups@,
                ranked@,
            ),
        decreases hosted.len() - i,
    {
        let candidate = &hosted[i];
        proof {
            assert(hosted@.skip(i as int)[0] == hosted@[i as int]);
            assert(hosted@.skip(i as int).skip(1) =~= hosted@.skip(i + 1));
        }
        if is_leader_here(candidate) {
            match groups.get(&candidate.group_id) {
                Some(group) => {
                    let others = collect_others(&group.replicas, candidate.replica.id);
                    match find_taker(ranked, &others) {
                        Some(target) => {
                            return Some(
                                TransferLeader {
                                    group: candidate.group_id,
                                    src_node: candidate.replica.node_id,
                                    src_replica: candidate.replica.id,
                                    target_node: target.node_id,
                                    target_replica: target.id,
                                },
                            );
                        },
                        None => {},
                    }
                },
                None => {},
            }
        }
        i += 1;
    }
    None
}

/// The text of the error for a source that names a group it does not know.
pub open spec fn unknown_group_text() -> Seq<char> {
    "group inconsistent with node-group index"@
}

/// Decides for one overfull node, from what the source answered for it:
/// the replicas that the node hosts and the groups. Where the answers name
/// a group for a leader and do not hold that group, they are in error.
/// Else the node sheds the leadership that `try_decrease_node_leader_count`
/// picks, if it picks one.
pub fn relieve_node(
    hosted: &Vec<HostedReplica>,
    groups: &HashMap<u64, GroupDesc>,
    ranked: &Vec<NodeLoad>,
) -> (shed: Result<Option<TransferLeader>, Error>)
    ensures
        match shed {
            Ok(transfer) => groups_known(hosted@, groups@) && transfer == first_transfer(
                hosted@,
                groups@,
                ranked@,
            ),
            Err(e) => !groups_known(hosted@, groups@) && e.kind() == ErrorKind::InvalidArgument
                && e.text() == unknown_group_text(),
        },
{
    if !are_groups_known(hosted, groups) {
        return Err(
            Error::InvalidArgument(String::from_str("group inconsistent with node-group index")),
        );
    }
    Ok(try_decrease_node_leader_count(hosted, groups, ranked))
}

/// Which nodes to ask for.
#[derive(Clone, Copy, Debug, PartialEq, Eq, Structural)]
pub enum NodeFilter {
    All,
    Schedulable,
}

/// What the policy can find out about the cluster.
pub trait AllocSource {
    /// The nodes that pass the filter.
    fn nodes(&self, filter: NodeFilter) -> Vec<NodeDesc>;

    /// Every group, by id.
    fn groups(&self) -> HashMap<u64, GroupDesc>;

    /// The replicas that the node hosts, each with the id of its group.
    fn node_replicas(&self, node_id: &u64) -> Vec<(ReplicaDesc, u64)>;

    /// What the replica last reported, if it has reported.
    fn replica_state(&self, replica_id: &u64) -> Option<ReplicaState>;
}

/// The policy that moves leaders from nodes with many to nodes with few.
pub struct LeaderCountPolicy<T: AllocSource> {
    alloc_source: Arc<T>,
}

impl<T: AllocSource> LeaderCountPolicy<T> {
    /// The source that the policy asks.
    pub closed spec fn source(&self) -> Arc<T> {
        self.alloc_source
    }

    /// A policy that asks `alloc_source`.
    pub fn with(alloc_source: Arc<T>) -> (policy: Self)
        ensures
            policy.source() == alloc_source,
    {
        Self { alloc_source }
    }

    /// What one node hosts, with what each replica last reported.
    fn hosted_on(&self, node_id: u64) -> (hosted: Vec<HostedReplica>) {
        let replicas = self.alloc_source.node_replicas(&node_id);
        let mut hosted: Vec<HostedReplica> = Vec::new();
        let mut i: usize = 0;
        while i < replicas.len()
            invariant
                i <= replicas.len(),
            decreases replicas.len() - i,
        {
            let (replica, group_id) = replicas[i];
            let state = self.alloc_source.replica_state(&replica.id);
            hosted.push(HostedReplica { replica, group_id, state });
            i += 1;
        }
        hosted
    }

    /// Decides whether to move a leader. The nodes are ranked, and the
    /// overfull ones are asked in rank order for a leadership to shed; the
    /// first that has one decides. What each node hosts, and the groups,
    /// are asked of the source when the node's turn comes, so that the
    /// outcome rests on what the source answers. Whatever it answers: a
    /// leader is only moved if some node is overfull, and only to a node
    /// that is underfull and would not be overfull with one leader more. A
    /// source that names a group for a leader and does not know that group
    /// is in error.
    pub fn compute_balance(&self, nodes: Vec<NodeLoad>) -> (action: Result<LeaderAction, Error>)
        ensures
            match action {
                Ok(LeaderAction::Noop) => true,
                Ok(LeaderAction::Shed(transfer)) => {
                    &&& exists|i: int| 0 <= i < nodes@.len() && (#[trigger] nodes@[i]).status is Overfull
                    &&& exists|j: int|
                        0 <= j < nodes@.len() && (#[trigger] nodes@[j]).id == transfer.target_node
                            && nodes@[j].status is Underfull && nodes@[j].takes_one_more
                },
                Err(e) => {
                    &&& e.kind() == ErrorKind::InvalidArgument
                    &&& exists|i: int| 0 <= i < nodes@.len() && (#[trigger] nodes@[i]).status is Overfull
                },
            },
    {
        let ranked_nodes = rank_nodes_for_leader(nodes);
        let mut i: usize = 0;
        while i < ranked_nodes.len()
            invariant
                i <= ranked_nodes.len(),
                ranked_nodes@ == ranking(nodes@),
            decreases ranked_nodes.len() - i,
        {
            if matches!(ranked_nodes[i].status, BalanceStatus::Overfull) {
                proof {
                    lemma_ranking_member(nodes@, i as int);
                }
                let hosted = self.hosted_on(ranked_nodes[i].id);
                let groups = self.alloc_source.groups();
                let shed = match relieve_node(&hosted, &groups, &ranked_nodes) {
                    Ok(shed) => shed,
                    Err(error) => {
                        return Err(error);
                    },
                };
                match shed {
                    Some(transfer) => {
                        proof {
                            lemma_first_transfer(hosted@, groups@, ranked_nodes@);
                            let k = choose|k: int|
                                0 <= k < ranked_nodes@.len() && (#[trigger] ranked_nodes@[k]).id
                                    == transfer.target_node && ranked_nodes@[k].status is Underfull
                                    && ranked_nodes@[k].takes_one_more;
                            lemma_ranking_member(nodes@, k);
                        }
                        return Ok(LeaderAction::Shed(transfer));
                    },
                    None => {},
                }
            }
            i += 1;
        }
        Ok(LeaderAction::Noop)
    }
}

/// Every node of the ranking is one of the nodes ranked.
pub proof fn lemma_ranking_member(nodes: Seq<NodeLoad>, i: int)
    requires
        0 <= i < ranking(nodes).len(),
    ensures
        exists|k: int| 0 <= k < nodes.len() && #[trigger] nodes[k] == ranking(nodes)[i],
    decreases nodes.len(),
{
    if nodes.len() > 0 {
        let front = nodes.drop_last();
        let node = nodes.last();
        lemma_placed_members(ranking(front), node, i);
        if ranking(nodes)[i] == node {
            assert(nodes[nodes.len() - 1] == node);
        } else {
            let m = choose|m: int|
                0 <= m < ranking(front).len() && ranking(front)[m] == ranking(nodes)[i];
            lemma_ranking_member(front, m);
            let k = choose|k: int| 0 <= k < front.len() && #[trigger] front[k] == ranking(front)[m];
            assert(nodes[k] == front[k]);
        }
    }
}

/// Each of the others is filed under the node that hosts it.
pub proof fn lemma_others_by_node(replicas: Seq<ReplicaDesc>, except: u64, node: u64)
    requires
        others_by_node(replicas, except).contains_key(node),
    ensures
        others_by_node(replicas, except)[node].node_id == node,
        others_by_node(replicas, except)[node].id != except,
    decreases replicas.len(),
{
    if replicas.len() > 0 {
        let last = replicas.last();
        if !(last.id != except && last.node_id == node) {
            lemma_others_by_node(replicas.drop_last(), except, node);
        }
    }
}

/// The taker is hosted by a node of the ranking that can take.
pub proof fn lemma_taker(ranked: Seq<NodeLoad>, others: Map<u64, ReplicaDesc>)
    requires
        taker(ranked, others) is Some,
    ensures
        exists|k: int|
            0 <= k < ranked.len() && can_take(#[trigger] ranked[k], others) && taker(ranked, others)
                == Some(others[ranked[k].id]),
    decreases ranked.len(),
{
    if ranked.len() > 0 {
        if can_take(ranked.last(), others) {
            assert(can_take(ranked[ranked.len() - 1], others));
        } else {
            let front = ranked.drop_last();
            lemma_taker(front, others);
            let k = choose|k: int|
                0 <= k < front.len() && can_take(#[trigger] front[k], others) && taker(
                    front,
                    others,
                ) == Some(others[front[k].id]);
            assert(ranked[k] == front[k]);
        }
    }
}

/// A transfer takes a leadership from a replica that leads on the node,
/// and gives it to another replica of the group, on a node of the ranking
/// that is underfull and would not be overfull with one leader more.
pub proof fn lemma_first_transfer(
    hosted: Seq<HostedReplica>,
    groups: Map<u64, GroupDesc>,
    ranked: Seq<NodeLoad>,
)
    requires
        first_transfer(hosted, groups, ranked) is Some,
    ensures
        ({
            let transfer = first_transfer(hosted, groups, ranked)->0;
            &&& exists|i: int|
                0 <= i < hosted.len() && leads_here(#[trigger] hosted[i]) && transfer.group
                    == hosted[i].group_id && transfer.src_replica == hosted[i].replica.id
                    && transfer.src_node == hosted[i].replica.node_id
            &&& transfer.target_replica != transfer.src_replica
            &&& exists|k: int|
                0 <= k < ranked.len() && (#[trigger] ranked[k]).id == transfer.target_node
                    && ranked[k].status is Underfull && ranked[k].takes_one_more
        }),
    decreases hosted.len(),
{
    if hosted.len() > 0 {
        match transfer_of(hosted[0], groups, ranked) {
            Some(transfer) => {
                let others = others_by_node(
                    groups[hosted[0].group_id].replicas@,
                    hosted[0].replica.id,
                );
                lemma_taker(ranked, others);
                let k = choose|k: int|
                    0 <= k < ranked.len() && can_take(#[trigger] ranked[k], others) && taker(
                        ranked,
                        others,
                    ) == Some(others[ranked[k].id]);
                lemma_others_by_node(
                    groups[hosted[0].group_id].replicas@,
                    hosted[0].replica.id,
                    ranked[k].id,
                );
                assert(leads_here(hosted[0]));
            },
            None => {
                let rest = hosted.skip(1);
                lemma_first_transfer(rest, groups, ranked);
                let transfer = first_transfer(rest, groups, ranked)->0;
                let i = choose|i: int|
                    0 <= i < rest.len() && leads_here(#[trigger] rest[i]) && transfer.group
                        == rest[i].group_id && transfer.src_replica == rest[i].replica.id
                        && transfer.src_node == rest[i].replica.node_id;
                assert(hosted[i + 1] == rest[i]);
            },
        }
    }
}

} // verus!
