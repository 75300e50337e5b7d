use std::collections::HashMap;
use std::sync::Arc;

use engula::balance::{
    are_groups_known, is_behind, is_leader_here, rank_nodes_for_leader, relieve_node,
    try_decrease_node_leader_count, AllocSource, BalanceStatus, HostedReplica, LeaderAction,
    LeaderCountPolicy, NodeFilter, NodeLoad, TransferLeader, ROOT_GROUP_ID,
};
use engula::descriptor::{GroupDesc, NodeDesc, RaftRole, ReplicaDesc, ReplicaRole, ReplicaState};
use engula::error::ErrorKind;

fn status_of(leader_count: u64, mean_times_two: u64) -> BalanceStatus {
    if 2 * leader_count > mean_times_two + 1 {
        BalanceStatus::Overfull
    } else if 2 * leader_count + 1 < mean_times_two {
        BalanceStatus::Underfull
    } else {
        BalanceStatus::Balanced
    }
}

fn load(id: u64, leader_count: u64) -> NodeLoad {
    // The mean is 5.
    NodeLoad {
        id,
        leader_count,
        status: status_of(leader_count, 10),
        takes_one_more: status_of(leader_count + 1, 10) != BalanceStatus::Overfull,
    }
}

fn voter(id: u64, node_id: u64) -> ReplicaDesc {
    ReplicaDesc { id, node_id, role: ReplicaRole::Voter }
}

fn state_of(replica: &ReplicaDesc, group_id: u64, role: RaftRole) -> ReplicaState {
    ReplicaState {
        replica_id: replica.id,
        group_id,
        term: 1,
        voted_for: 0,
        role,
        node_id: replica.node_id,
    }
}

fn leading(replica: ReplicaDesc, group_id: u64) -> HostedReplica {
    HostedReplica { replica, group_id, state: Some(state_of(&replica, group_id, RaftRole::Leader)) }
}

fn group(id: u64, replicas: Vec<ReplicaDesc>) -> GroupDesc {
    GroupDesc { id, epoch: 1, shards: vec![], replicas }
}

#[test]
fn nodes_rank_from_the_most_leaders_to_the_fewest() {
    let nodes = vec![load(1, 5), load(2, 9), load(3, 1), load(4, 7), load(5, 5), load(6, 0)];
    let ranked = rank_nodes_for_leader(nodes);
    let ids: Vec<u64> = ranked.iter().map(|n| n.id).collect();
    assert_eq!(ids, vec![2, 4, 1, 5, 3, 6]);
    assert_eq!(ranked[0].status, BalanceStatus::Overfull);
    assert_eq!(ranked[2].status, BalanceStatus::Balanced);
    assert_eq!(ranked[5].status, BalanceStatus::Underfull);
    assert!(rank_nodes_for_leader(vec![]).is_empty());
}

#[test]
fn rank_order_of_two_nodes() {
    assert!(is_behind(&load(1, 5), &load(2, 9)));
    assert!(!is_behind(&load(2, 9), &load(1, 5)));
    assert!(is_behind(&load(3, 1), &load(1, 5)));
    assert!(!is_behind(&load(1, 5), &load(3, 1)));
    assert!(!is_behind(&load(1, 5), &load(5, 5)));
    assert!(is_behind(&load(6, 0), &load(3, 1)));
    assert!(is_behind(&load(4, 7), &load(2, 9)));
}

#[test]
fn a_leader_moves_to_the_emptiest_node_that_has_a_replica() {
    let ranked = rank_nodes_for_leader(vec![load(1, 9), load(2, 5), load(3, 2), load(4, 1), load(5, 0)]);
    let follower = HostedReplica {
        replica: voter(10, 1),
        group_id: 7,
        state: Some(state_of(&voter(10, 1), 7, RaftRole::Follower)),
    };
    let silent = HostedReplica { replica: voter(11, 1), group_id: 7, state: None };
    let learner = HostedReplica {
        replica: ReplicaDesc { id: 12, node_id: 1, role: ReplicaRole::Learner },
        group_id: 7,
        state: Some(state_of(&voter(12, 1), 7, RaftRole::Leader)),
    };
    let root = leading(voter(13, 1), ROOT_GROUP_ID);
    let stuck = leading(voter(14, 1), 8);
    let movable = leading(voter(15, 1), 9);
    assert!(!is_leader_here(&follower));
    assert!(!is_leader_here(&silent));
    assert!(!is_leader_here(&learner));
    assert!(!is_leader_here(&root));
    assert!(is_leader_here(&stuck));
    let hosted = vec![follower, silent, learner, root, stuck, movable];
    let mut groups = HashMap::new();
    // Group 8 has its other replica on a balanced node only.
    groups.insert(8, group(8, vec![voter(14, 1), voter(24, 2)]));
    // Group 9 has replicas on nodes 3 and 4; node 4 holds fewer leaders.
    groups.insert(9, group(9, vec![voter(15, 1), voter(25, 3), voter(35, 4)]));
    assert!(are_groups_known(&hosted, &groups));
    let transfer = try_decrease_node_leader_count(&hosted, &groups, &ranked);
    assert_eq!(
        transfer,
        Some(TransferLeader {
            group: 9,
            src_node: 1,
            src_replica: 15,
            target_node: 4,
            target_replica: 35,
        })
    );
    assert_eq!(try_decrease_node_leader_count(&hosted[..5].to_vec(), &groups, &ranked), None);
    groups.remove(&9);
    assert!(!are_groups_known(&hosted, &groups));
}

#[test]
fn a_node_that_one_more_leader_would_overfill_takes_none() {
    // With a mean of 5 a node with 4 leaders is balanced, and one with 3 is underfull
    // and still takes one more.
    let mut reluctant = load(3, 3);
    reluctant.takes_one_more = false;
    let ranked = rank_nodes_for_leader(vec![load(1, 9), reluctant]);
    let hosted = vec![leading(voter(15, 1), 9)];
    let mut groups = HashMap::new();
    groups.insert(9, group(9, vec![voter(15, 1), voter(25, 3)]));
    assert_eq!(try_decrease_node_leader_count(&hosted, &groups, &ranked), None);
    let ranked = rank_nodes_for_leader(vec![load(1, 9), load(3, 3)]);
    let transfer = try_decrease_node_leader_count(&hosted, &groups, &ranked).unwrap();
    assert_eq!((transfer.target_node, transfer.target_replica), (3, 25));
}

#[test]
fn a_node_is_relieved_by_what_the_source_answered_for_it() {
    let ranked = rank_nodes_for_leader(vec![load(1, 9), load(3, 2), load(4, 1)]);
    let hosted = vec![leading(voter(15, 1), 9)];
    let mut groups = HashMap::new();
    // The group of the leader is not among the groups.
    let unknown = relieve_node(&hosted, &groups, &ranked).unwrap_err();
    assert_eq!(unknown.kind(), ErrorKind::InvalidArgument);
    assert_eq!(unknown.message(), "group inconsistent with node-group index");
    // A group without a replica on an underfull node gives nothing to shed.
    groups.insert(9, group(9, vec![voter(15, 1)]));
    assert_eq!(relieve_node(&hosted, &groups, &ranked).unwrap(), None);
    groups.insert(9, group(9, vec![voter(15, 1), voter(25, 3), voter(35, 4)]));
    assert_eq!(
        relieve_node(&hosted, &groups, &ranked).unwrap(),
        Some(TransferLeader {
            group: 9,
            src_node: 1,
            src_replica: 15,
            target_node: 4,
            target_replica: 35,
        })
    );
    assert_eq!(relieve_node(&vec![], &HashMap::new(), &ranked).unwrap(), None);
}

struct Cluster {
    groups: Vec<(u64, Vec<ReplicaDesc>)>,
    leaders: Vec<u64>,
}

impl AllocSource for Cluster {
    fn nodes(&self, _: NodeFilter) -> Vec<NodeDesc> {
        Vec::new()
    }

    fn groups(&self) -> HashMap<u64, GroupDesc> {
        self.groups.iter().map(|(id, replicas)| (*id, group(*id, replicas.clone()))).collect()
    }

    fn node_replicas(&self, node_id: &u64) -> Vec<(ReplicaDesc, u64)> {
        let mut hosted = Vec::new();
        for (id, replicas) in &self.groups {
            for r in replicas {
                if r.node_id == *node_id {
                    hosted.push((*r, *id));
                }
            }
        }
        // A replica of a group that the source does not list.
        if *node_id == 99 {
            hosted.push((voter(990, 99), 990));
        }
        hosted
    }

    fn replica_state(&self, replica_id: &u64) -> Option<ReplicaState> {
        let role = if self.leaders.contains(replica_id) { RaftRole::Leader } else { RaftRole::Follower };
        Some(ReplicaState { replica_id: *replica_id, group_id: 0, term: 1, voted_for: 0, role, node_id: 0 })
    }
}

#[test]
fn policy_sheds_a_leader_of_the_fullest_node_that_can_give_one() {
    let cluster = Arc::new(Cluster {
        groups: vec![
            (7, vec![voter(70, 1), voter(71, 2)]),
            (8, vec![voter(80, 2), voter(81, 3), voter(82, 4)]),
        ],
        leaders: vec![70, 80, 990],
    });
    let policy = LeaderCountPolicy::with(cluster);
    // Node 1 is the fullest, but its only leader has nowhere to go; node 2 gives one to node 4.
    let nodes = vec![load(3, 2), load(2, 8), load(1, 9), load(4, 1)];
    match policy.compute_balance(nodes).unwrap() {
        LeaderAction::Shed(transfer) => assert_eq!(
            transfer,
            TransferLeader { group: 8, src_node: 2, src_replica: 80, target_node: 4, target_replica: 82 }
        ),
        LeaderAction::Noop => panic!("a leader could have moved"),
    }
    assert_eq!(policy.compute_balance(vec![]).unwrap(), LeaderAction::Noop);
    assert_eq!(policy.compute_balance(vec![load(1, 5), load(2, 5)]).unwrap(), LeaderAction::Noop);
    assert_eq!(policy.compute_balance(vec![load(1, 9), load(4, 1)]).unwrap(), LeaderAction::Noop);
    let unknown = policy.compute_balance(vec![load(99, 9)]).unwrap_err();
    assert_eq!(unknown.kind(), ErrorKind::InvalidArgument);
    assert_eq!(unknown.message(), "group inconsistent with node-group index");
}
