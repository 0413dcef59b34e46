use replay_core::blockstore_processor::{BlockError, BlockstoreProcessorError};
use replay_core::progress_map::{EpochStakes, ForkProgress, ProgressMap, ValidatorStakeInfo};
use replay_core::replay_stage::{
    check_propagation_for_start_leader, confirm_forks, find_authorized_voter, fork_block_counts,
    get_unlock_switch_vote_slot, handle_new_root, is_partition_detected, log_leader_change,
    mark_dead_slot, mark_slots_confirmed, maybe_start_leader, new_child_slots,
    process_gossip_duplicate_confirmed_slots, record_bank_stats, record_tower_checks,
    record_vote_signature, select_heaviest, select_vote_and_reset_forks, should_refresh_last_vote,
    should_retransmit, steps_after_record, update_fork_propagated_threshold_from_votes,
    update_partition_status, update_propagation_status,
    update_slot_propagated_threshold_from_votes, ClusterType, ComputedBankState, Finalizer,
    HeaviestForkFailures, LatestValidatorVotesForFrozenBanks, LeaderChange, LeaderSlotDecision,
    PartitionEvent, ReplayTiming, SkippedSlotsInfo, SwitchForkDecision, TowerChecks,
    UnfrozenGossipVerifiedVoteHashes, VoteStep, MAX_VOTE_SIGNATURES, after_replay, on_frozen,
    pass_steps, process_gossip_verified_vote_hashes, replay_decision, reset_step, AfterReplay,
    LoopStep, ReplayDecision, compute_bank_stats, FrozenBankStats, UnlockSwitchVoteSlots,
    NUM_CONSECUTIVE_LEADER_SLOTS,
};
use std::collections::{HashMap, HashSet};
use std::sync::atomic::{AtomicBool, Ordering};
use std::sync::Arc;

/// Ancestors of the forks 0 -> 1 -> {2 -> 4, 3 -> 5 -> 6}.
fn default_ancestors() -> HashMap<u64, HashSet<u64>> {
    let mut ancestors = HashMap::new();
    ancestors.insert(0, HashSet::new());
    ancestors.insert(1, [0].into_iter().collect());
    ancestors.insert(2, [0, 1].into_iter().collect());
    ancestors.insert(3, [0, 1].into_iter().collect());
    ancestors.insert(4, [0, 1, 2].into_iter().collect());
    ancestors.insert(5, [0, 1, 3].into_iter().collect());
    ancestors.insert(6, [0, 1, 3, 5].into_iter().collect());
    ancestors
}

/// Validators `i` in `0..n`, node `1000 + i` operating vote account `2000 + i`,
/// each with `stake`.
fn epoch_stakes(n: u64, stake: u64) -> EpochStakes {
    let mut epoch = EpochStakes {
        vote_account_stakes: HashMap::new(),
        node_vote_accounts: HashMap::new(),
        total_stake: n * stake,
    };
    for i in 0..n {
        epoch.vote_account_stakes.insert(2000 + i, stake);
        epoch.node_vote_accounts.insert(1000 + i, vec![2000 + i]);
    }
    epoch
}

fn epoch_stakes_for_slots(slots: std::ops::RangeInclusive<u64>, n: u64, stake: u64) -> HashMap<u64, EpochStakes> {
    slots.map(|s| (s, epoch_stakes(n, stake))).collect()
}

fn plain_progress(prev_leader_slot: Option<u64>) -> ForkProgress {
    ForkProgress::new(0, prev_leader_slot, None, 0, 0)
}

fn leader_progress(prev_leader_slot: Option<u64>, total_epoch_stake: u64) -> ForkProgress {
    ForkProgress::new(
        0,
        prev_leader_slot,
        Some(ValidatorStakeInfo {
            total_epoch_stake,
            ..ValidatorStakeInfo::default()
        }),
        0,
        0,
    )
}

fn update_progress(progress: &mut ProgressMap, slot: u64, f: impl FnOnce(&mut ForkProgress)) {
    let mut fork_progress = progress.remove(slot).unwrap();
    f(&mut fork_progress);
    progress.insert(slot, fork_progress);
}

#[test]
fn test_is_partition_detected() {
    let ancestors = default_ancestors();
    // Last vote 1 is an ancestor of the heaviest slot 3, no partition
    assert!(!is_partition_detected(&ancestors, 1, 3));
    // The last vote is the heaviest slot, no partition
    assert!(!is_partition_detected(&ancestors, 3, 3));
    // Last vote 2 is not an ancestor of the heaviest slot 3
    assert!(is_partition_detected(&ancestors, 2, 3));
    // Last vote 4 is not an ancestor of the heaviest slot 3
    assert!(is_partition_detected(&ancestors, 4, 3));
}

#[test]
fn test_partition_unknown_heaviest_is_not_partition() {
    let ancestors = default_ancestors();
    assert!(!is_partition_detected(&ancestors, 2, 99));
}

#[test]
fn test_partition_detection_scenario() {
    // heaviest = 3 with ancestors {0, 1}, last vote 2
    let ancestors = default_ancestors();
    let mut partition_exists = false;
    let detected = is_partition_detected(&ancestors, 2, 3);
    assert!(detected);
    assert_eq!(update_partition_status(&mut partition_exists, detected), PartitionEvent::Detected);
    assert!(partition_exists);
    assert_eq!(update_partition_status(&mut partition_exists, true), PartitionEvent::Unchanged);
    // The last vote moves to 1, an ancestor of 3
    let detected = is_partition_detected(&ancestors, 1, 3);
    assert!(!detected);
    assert_eq!(update_partition_status(&mut partition_exists, detected), PartitionEvent::Resolved);
    assert!(!partition_exists);
}

#[test]
fn test_should_retransmit() {
    let poh_slot = 4;
    let mut last_retransmit_slot = 4;
    assert!(!should_retransmit(poh_slot, &mut last_retransmit_slot));
    assert_eq!(last_retransmit_slot, 4);

    for poh_slot in 4..4 + NUM_CONSECUTIVE_LEADER_SLOTS {
        assert!(!should_retransmit(poh_slot, &mut last_retransmit_slot));
        assert_eq!(last_retransmit_slot, 4);
    }

    let poh_slot = 4 + NUM_CONSECUTIVE_LEADER_SLOTS;
    last_retransmit_slot = 4;
    assert!(should_retransmit(poh_slot, &mut last_retransmit_slot));
    assert_eq!(last_retransmit_slot, poh_slot);

    let poh_slot = 3;
    last_retransmit_slot = 4;
    assert!(should_retransmit(poh_slot, &mut last_retransmit_slot));
    assert_eq!(last_retransmit_slot, poh_slot);
}

#[test]
fn test_should_retransmit_near_max_slot() {
    let mut last_retransmit_slot = u64::MAX - 1;
    assert!(!should_retransmit(u64::MAX, &mut last_retransmit_slot));
    assert_eq!(last_retransmit_slot, u64::MAX - 1);
}

#[test]
fn test_update_slot_propagated_threshold_from_votes() {
    let new_vote_pubkeys: Vec<u64> = (0..10).map(|i| 2000 + i).collect();
    let new_node_pubkeys: Vec<u64> = (0..10).map(|i| 1000 + i).collect();

    // Once 4/10 validators have voted, the threshold is reached
    run_test_update_slot_propagated_threshold_from_votes(&new_vote_pubkeys, &[], 4);
    // The node pubkeys of the same validators are equivalent
    run_test_update_slot_propagated_threshold_from_votes(&[], &new_node_pubkeys, 4);
    // Both for the same validators reach it no sooner
    run_test_update_slot_propagated_threshold_from_votes(&new_vote_pubkeys, &new_node_pubkeys, 4);
    // Different validators through each list reach it twice as fast
    run_test_update_slot_propagated_threshold_from_votes(
        &new_vote_pubkeys[0..5],
        &new_node_pubkeys[5..],
        2,
    );
}

fn run_test_update_slot_propagated_threshold_from_votes(
    new_vote_pubkeys: &[u64],
    new_node_pubkeys: &[u64],
    success_index: usize,
) {
    let stake = 10_000;
    let epoch = epoch_stakes(10, stake);
    let mut propagated_stats = replay_core::progress_map::PropagatedStats {
        total_epoch_stake: stake * 10,
        ..replay_core::progress_map::PropagatedStats::default()
    };

    let child_reached_threshold = false;
    for i in 0..std::cmp::max(new_vote_pubkeys.len(), new_node_pubkeys.len()) {
        propagated_stats.is_propagated = false;
        let len = std::cmp::min(i, new_vote_pubkeys.len());
        let mut voted_pubkeys: Vec<u64> = new_vote_pubkeys[..len].to_vec();
        let len = std::cmp::min(i, new_node_pubkeys.len());
        let mut node_pubkeys: Vec<u64> = new_node_pubkeys[..len].to_vec();
        let did_newly_reach_threshold = update_slot_propagated_threshold_from_votes(
            &mut voted_pubkeys,
            &mut node_pubkeys,
            &epoch,
            &mut propagated_stats,
            child_reached_threshold,
        );

        // Only the last pubkey of each list is new
        let remaining_vote_pubkeys = if i == 0 || i >= new_vote_pubkeys.len() {
            vec![]
        } else {
            vec![new_vote_pubkeys[i - 1]]
        };
        let remaining_node_pubkeys = if i == 0 || i >= new_node_pubkeys.len() {
            vec![]
        } else {
            vec![new_node_pubkeys[i - 1]]
        };
        assert_eq!(voted_pubkeys, remaining_vote_pubkeys);
        assert_eq!(node_pubkeys, remaining_node_pubkeys);

        if i >= success_index {
            assert!(propagated_stats.is_propagated);
            assert!(did_newly_reach_threshold);
        } else {
            assert!(!propagated_stats.is_propagated);
            assert!(!did_newly_reach_threshold);
        }
    }
}

#[test]
fn test_update_slot_propagated_threshold_from_votes2() {
    let mut empty: Vec<u64> = vec![];
    let epoch = epoch_stakes(10, 10_000);
    let stake = 10_000;
    // A child reached the threshold: the parent is propagated too, even
    // without new pubkeys
    let mut propagated_stats = replay_core::progress_map::PropagatedStats {
        total_epoch_stake: stake * 10,
        ..replay_core::progress_map::PropagatedStats::default()
    };
    propagated_stats.total_epoch_stake = stake * 10;
    let child_reached_threshold = true;
    let mut newly_voted_pubkeys: Vec<u64> = vec![];

    assert!(update_slot_propagated_threshold_from_votes(
        &mut newly_voted_pubkeys,
        &mut empty,
        &epoch,
        &mut propagated_stats,
        child_reached_threshold,
    ));

    // Already propagated: always false
    propagated_stats = replay_core::progress_map::PropagatedStats {
        total_epoch_stake: stake * 10,
        ..replay_core::progress_map::PropagatedStats::default()
    };
    propagated_stats.is_propagated = true;
    newly_voted_pubkeys = vec![];
    assert!(!update_slot_propagated_threshold_from_votes(
        &mut newly_voted_pubkeys,
        &mut empty,
        &epoch,
        &mut propagated_stats,
        child_reached_threshold,
    ));

    let child_reached_threshold = false;
    assert!(!update_slot_propagated_threshold_from_votes(
        &mut newly_voted_pubkeys,
        &mut empty,
        &epoch,
        &mut propagated_stats,
        child_reached_threshold,
    ));
}

#[test]
fn test_update_propagation_status() {
    let stake = 10_000;
    let vote_pubkey = 2000;
    let epoch_stakes = epoch_stakes_for_slots(0..=10, 1, stake);
    let total_epoch_stake = stake;
    let mut progress_map = ProgressMap::default();
    progress_map.insert(0, plain_progress(None));
    progress_map.insert(10, leader_progress(Some(9), total_epoch_stake));
    progress_map.insert(9, leader_progress(Some(8), total_epoch_stake));

    assert!(!progress_map.is_propagated(10));

    update_propagation_status(&mut progress_map, 10, vec![vote_pubkey], vec![], 9, &epoch_stakes);

    let propagated_stats = &progress_map.get(10).unwrap().propagated_stats;
    assert!(propagated_stats.propagated_validators.contains(&vote_pubkey));
    assert_eq!(propagated_stats.propagated_validators_stake, stake);
}

#[test]
fn test_chain_update_propagation_status() {
    let stake_per_validator = 10_000;
    let vote_pubkeys: Vec<u64> = (0..10).map(|i| 2000 + i).collect();
    let epoch_stakes = epoch_stakes_for_slots(0..=10, 10, stake_per_validator);
    let total_epoch_stake = 10 * stake_per_validator;
    let mut progress_map = ProgressMap::default();
    progress_map.insert(0, plain_progress(None));
    update_progress(&mut progress_map, 0, |p| p.propagated_stats.is_leader_slot = true);

    // Slots 1..=10; only the even ones are leader slots
    for i in 1..=10 {
        let prev_leader_slot = ((i - 1) / 2) * 2;
        progress_map.insert(
            i,
            if i % 2 == 0 {
                leader_progress(Some(prev_leader_slot), total_epoch_stake)
            } else {
                plain_progress(Some(prev_leader_slot))
            },
        );
    }

    // Every voter votes on the last slot, which propagates back through the
    // earlier leader slots
    update_propagation_status(&mut progress_map, 10, vote_pubkeys, vec![], 0, &epoch_stakes);

    for i in 1..=10 {
        let propagated_stats = &progress_map.get(i).unwrap().propagated_stats;
        if i % 2 == 0 {
            assert!(propagated_stats.is_propagated);
        } else {
            assert!(!propagated_stats.is_propagated);
        }
    }
}

#[test]
fn test_chain_update_propagation_status2() {
    let num_validators = 6;
    let stake_per_validator = 10_000;
    let vote_pubkeys: Vec<u64> = (0..num_validators).map(|i| 2000 + i).collect();
    let epoch_stakes = epoch_stakes_for_slots(0..=10, num_validators, stake_per_validator);
    let total_epoch_stake = num_validators * stake_per_validator;
    let mut progress_map = ProgressMap::default();
    progress_map.insert(0, plain_progress(None));
    update_progress(&mut progress_map, 0, |p| p.propagated_stats.is_leader_slot = true);

    for i in 1..=10 {
        let mut fork_progress = leader_progress(Some(i - 1), total_epoch_stake);
        // The earlier slots are one pubkey away from propagation, the later two
        let end_range = if i < 5 { 2 } else { 1 };
        fork_progress.propagated_stats.propagated_validators =
            vote_pubkeys[0..end_range].iter().copied().collect();
        fork_progress.propagated_stats.propagated_validators_stake =
            end_range as u64 * stake_per_validator;
        progress_map.insert(i, fork_progress);
    }

    update_propagation_status(&mut progress_map, 10, vec![vote_pubkeys[2]], vec![], 0, &epoch_stakes);

    // Only the first slots reach the threshold
    for i in 1..=10 {
        let propagated_stats = &progress_map.get(i).unwrap().propagated_stats;
        if i < 5 {
            assert!(propagated_stats.is_propagated);
        } else {
            assert!(!propagated_stats.is_propagated);
        }
    }
}

#[test]
fn test_propagation_walk_stops_below_root() {
    let epoch_stakes = epoch_stakes_for_slots(0..=4, 3, 10);
    let mut progress_map = ProgressMap::default();
    progress_map.insert(2, leader_progress(None, 30));
    progress_map.insert(4, leader_progress(Some(2), 30));
    update_fork_propagated_threshold_from_votes(
        &mut progress_map,
        vec![2000, 2001],
        vec![],
        4,
        3,
        &epoch_stakes,
    );
    assert!(progress_map.get(4).unwrap().propagated_stats.is_propagated);
    // Slot 2 lies below the root: untouched
    assert!(!progress_map.get(2).unwrap().propagated_stats.is_propagated);
}

#[test]
fn test_check_propagation_for_start_leader() {
    let mut progress_map = ProgressMap::default();
    let poh_slot = 5;
    let parent_slot = poh_slot - NUM_CONSECUTIVE_LEADER_SLOTS;

    // No previous leader slot: succeeds
    progress_map.insert(parent_slot, ForkProgress::new(0, None, None, 0, 0));
    assert!(check_propagation_for_start_leader(poh_slot, parent_slot, &progress_map));

    // The parent was itself a leader slot, a full run away: needs propagation
    progress_map.insert(
        parent_slot,
        ForkProgress::new(0, None, Some(ValidatorStakeInfo::default()), 0, 0),
    );
    assert!(!check_propagation_for_start_leader(poh_slot, parent_slot, &progress_map));
    update_progress(&mut progress_map, parent_slot, |p| p.propagated_stats.is_propagated = true);
    assert!(check_propagation_for_start_leader(poh_slot, parent_slot, &progress_map));

    // The previous leader slot of the parent is `parent_slot - 1`
    let previous_leader_slot = parent_slot - 1;
    progress_map.insert(parent_slot, ForkProgress::new(0, Some(previous_leader_slot), None, 0, 0));
    progress_map.insert(
        previous_leader_slot,
        ForkProgress::new(0, None, Some(ValidatorStakeInfo::default()), 0, 0),
    );

    assert!(!check_propagation_for_start_leader(poh_slot, parent_slot, &progress_map));

    update_progress(&mut progress_map, previous_leader_slot, |p| {
        p.propagated_stats.is_propagated = true
    });
    assert!(check_propagation_for_start_leader(poh_slot, parent_slot, &progress_map));

    // Rooting at `parent_slot` drops `previous_leader_slot`, which then counts
    // as confirmed; the block tree holds the parent and slot 5
    progress_map.handle_new_root(&vec![parent_slot, 5]);
    assert!(check_propagation_for_start_leader(poh_slot, parent_slot, &progress_map));
}

#[test]
fn test_check_propagation_skip_propagation_check() {
    let mut progress_map = ProgressMap::default();
    let poh_slot = 4;
    let mut parent_slot = poh_slot - 1;

    progress_map.insert(3, ForkProgress::new(0, None, Some(ValidatorStakeInfo::default()), 0, 0));

    // The previous leader slot is the direct parent: consecutive leader slots
    assert!(check_propagation_for_start_leader(poh_slot, parent_slot, &progress_map));

    update_progress(&mut progress_map, 3, |p| p.propagated_stats.is_propagated = true);
    assert!(check_propagation_for_start_leader(poh_slot, parent_slot, &progress_map));

    parent_slot = poh_slot - NUM_CONSECUTIVE_LEADER_SLOTS + 1;
    progress_map.insert(
        parent_slot,
        ForkProgress::new(0, None, Some(ValidatorStakeInfo::default()), 0, 0),
    );
    assert!(check_propagation_for_start_leader(poh_slot, parent_slot, &progress_map));

    parent_slot = poh_slot - NUM_CONSECUTIVE_LEADER_SLOTS;
    progress_map.insert(
        parent_slot,
        ForkProgress::new(0, None, Some(ValidatorStakeInfo::default()), 0, 0),
    );
    assert!(!check_propagation_for_start_leader(poh_slot, parent_slot, &progress_map));
}

#[test]
fn test_handle_new_root() {
    let root = 3;
    let mut progress = ProgressMap::default();
    for i in 0..=root {
        progress.insert(i, ForkProgress::new(0, None, None, 0, 0));
    }
    let mut duplicate_slots_tracker = vec![root - 1, root, root + 1];
    let mut gossip_duplicate_confirmed_slots: Vec<(u64, u64)> =
        vec![root - 1, root, root + 1].into_iter().map(|s| (s, 0)).collect();
    let mut unfrozen_gossip_verified_vote_hashes = UnfrozenGossipVerifiedVoteHashes {
        votes: vec![root - 1, root, root + 1].into_iter().map(|s| (s, 0, 7)).collect(),
    };
    // After rooting at 3 the block tree holds 3 alone
    handle_new_root(
        root,
        &vec![root],
        &HashSet::new(),
        &mut progress,
        &mut duplicate_slots_tracker,
        &mut gossip_duplicate_confirmed_slots,
        &mut unfrozen_gossip_verified_vote_hashes,
        &mut true,
        &mut Vec::new(),
    );
    assert_eq!(progress.len(), 1);
    assert!(progress.get(root).is_some());
    assert_eq!(duplicate_slots_tracker, vec![root, root + 1]);
    assert_eq!(
        gossip_duplicate_confirmed_slots.iter().map(|e| e.0).collect::<Vec<u64>>(),
        vec![root, root + 1]
    );
    assert_eq!(
        unfrozen_gossip_verified_vote_hashes.votes.iter().map(|e| e.0).collect::<Vec<u64>>(),
        vec![root, root + 1]
    );
}

#[test]
fn test_handle_new_root_ahead_of_highest_confirmed_root() {
    let confirmed_root = 1;
    let fork = 2;
    let root = 3;
    let mut progress = ProgressMap::default();
    for i in 0..=root {
        progress.insert(i, ForkProgress::new(0, None, None, 0, 0));
    }
    // The block tree keeps the highest confirmed root below the new root, but
    // progress keeps nothing below the new root
    handle_new_root(
        root,
        &vec![confirmed_root, root],
        &HashSet::new(),
        &mut progress,
        &mut Vec::new(),
        &mut Vec::new(),
        &mut UnfrozenGossipVerifiedVoteHashes::new(),
        &mut true,
        &mut Vec::new(),
    );
    assert_eq!(progress.len(), 1);
    assert!(progress.get(root).is_some());
    assert!(progress.get(confirmed_root).is_none());
    assert!(progress.get(fork).is_none());
}

#[test]
fn test_handle_new_root_detects_landed_vote() {
    let mut progress = ProgressMap::default();
    let mut has_new_vote_been_rooted = false;
    let mut voted_signatures = vec![5, 6, 7];
    let landed: HashSet<u64> = [9].into_iter().collect();
    handle_new_root(
        1,
        &vec![1],
        &landed,
        &mut progress,
        &mut Vec::new(),
        &mut Vec::new(),
        &mut UnfrozenGossipVerifiedVoteHashes::new(),
        &mut has_new_vote_been_rooted,
        &mut voted_signatures,
    );
    assert!(!has_new_vote_been_rooted);
    assert_eq!(voted_signatures, vec![5, 6, 7]);
    let landed: HashSet<u64> = [6].into_iter().collect();
    handle_new_root(
        2,
        &vec![2],
        &landed,
        &mut progress,
        &mut Vec::new(),
        &mut Vec::new(),
        &mut UnfrozenGossipVerifiedVoteHashes::new(),
        &mut has_new_vote_been_rooted,
        &mut voted_signatures,
    );
    assert!(has_new_vote_been_rooted);
    assert!(voted_signatures.is_empty());
}

#[test]
fn test_handle_new_root_twice_same_as_once() {
    let mut progress = ProgressMap::default();
    for i in 0..=6 {
        progress.insert(i, ForkProgress::new(0, None, None, 0, 0));
    }
    let mut duplicates = vec![1, 4, 2, 6];
    let mut confirmed = vec![(2, 20), (5, 50)];
    let mut unfrozen = UnfrozenGossipVerifiedVoteHashes::new();
    let live = vec![3, 4, 5, 6];
    for _ in 0..2 {
        handle_new_root(
            3,
            &live,
            &HashSet::new(),
            &mut progress,
            &mut duplicates,
            &mut confirmed,
            &mut unfrozen,
            &mut true,
            &mut Vec::new(),
        );
        assert_eq!(progress.len(), 4);
        assert_eq!(duplicates, vec![4, 6]);
        assert_eq!(confirmed, vec![(5, 50)]);
    }
}

#[test]
fn test_single_fork_happy_path_root_advance() {
    // 0 -> 1 -> ... -> 6, all frozen; the heaviest leaf is 6
    let mut progress = ProgressMap::default();
    for i in 0..=6 {
        progress.insert(i, ForkProgress::new(0, if i == 0 { None } else { Some(0) }, None, 0, 0));
    }
    let candidates = vec![(6, 10)];
    assert_eq!(select_heaviest(&candidates), Some(6));
    let mut ancestors = HashMap::new();
    ancestors.insert(6u64, (0..6).collect::<HashSet<u64>>());
    assert!(!is_partition_detected(&ancestors, 5, 6));
    // A vote roots slot 3
    let mut duplicates = vec![];
    let mut confirmed = vec![];
    handle_new_root(
        3,
        &vec![3, 4, 5, 6],
        &HashSet::new(),
        &mut progress,
        &mut duplicates,
        &mut confirmed,
        &mut UnfrozenGossipVerifiedVoteHashes::new(),
        &mut true,
        &mut Vec::new(),
    );
    let mut keys: Vec<u64> = (0..=6).filter(|s| progress.contains_key(*s)).collect();
    keys.sort();
    assert_eq!(keys, vec![3, 4, 5, 6]);
}

#[test]
fn test_dead_slot_contained() {
    let mut progress = ProgressMap::default();
    for i in 0..=5 {
        progress.insert(i, ForkProgress::new(0, None, None, 0, 0));
    }
    let serious = mark_dead_slot(
        &mut progress,
        2,
        &BlockstoreProcessorError::InvalidBlock(BlockError::TrailingEntry),
    );
    assert!(serious);
    assert_eq!(progress.is_dead(2), Some(true));
    assert!(progress.get(2).is_some());
    for slot in [0, 1, 3, 4, 5] {
        assert_eq!(progress.is_dead(slot), Some(false));
    }
    let serious = mark_dead_slot(
        &mut progress,
        4,
        &BlockstoreProcessorError::InvalidBlock(BlockError::TooFewTicks),
    );
    assert!(!serious);
    assert_eq!(select_heaviest(&vec![(5, 3), (3, 1)]), Some(5));
}

#[test]
fn test_same_weight_selects_lower_slot() {
    assert_eq!(select_heaviest(&vec![(4, 7), (2, 7)]), Some(2));
    assert_eq!(select_heaviest(&vec![(2, 7), (4, 7)]), Some(2));
    assert_eq!(select_heaviest(&vec![(2, 7), (4, 8)]), Some(4));
    assert_eq!(select_heaviest(&vec![]), None);
}

fn votable_progress(slots: &[u64]) -> ProgressMap {
    let mut progress = ProgressMap::default();
    for slot in slots {
        let mut p = ForkProgress::new(0, None, None, 0, 0);
        p.fork_stats.vote_threshold = true;
        progress.insert(*slot, p);
    }
    progress
}

#[test]
fn test_select_vote_same_fork_votes() {
    let progress = votable_progress(&[3, 5]);
    let r = select_vote_and_reset_forks(5, Some(3), SwitchForkDecision::SameFork, &progress);
    assert_eq!(r.vote_bank, Some((5, SwitchForkDecision::SameFork)));
    assert_eq!(r.reset_bank, Some(5));
    assert!(r.heaviest_fork_failures.is_empty());
}

#[test]
fn test_select_vote_failed_switch_resets_to_voted_fork() {
    let progress = votable_progress(&[3, 5]);
    let decision = SwitchForkDecision::FailedSwitchThreshold(1, 10);
    let r = select_vote_and_reset_forks(5, Some(3), decision, &progress);
    assert_eq!(r.vote_bank, None);
    assert_eq!(r.reset_bank, Some(3));
    assert_eq!(r.heaviest_fork_failures, vec![HeaviestForkFailures::FailedSwitchThreshold(5)]);
    let r = select_vote_and_reset_forks(5, None, decision, &progress);
    assert_eq!(r.vote_bank, None);
    assert_eq!(r.reset_bank, None);
}

#[test]
fn test_select_vote_duplicate_rollback_resets_to_heaviest() {
    let progress = votable_progress(&[3, 5]);
    let decision = SwitchForkDecision::FailedSwitchDuplicateRollback(2);
    let r = select_vote_and_reset_forks(5, Some(3), decision, &progress);
    assert_eq!(r.vote_bank, None);
    assert_eq!(r.reset_bank, Some(5));
    assert_eq!(r.heaviest_fork_failures, vec![HeaviestForkFailures::FailedSwitchThreshold(5)]);
}

#[test]
fn test_select_vote_locked_out_threshold_and_propagation() {
    let mut progress = votable_progress(&[1]);
    let mut p = ForkProgress::new(0, Some(1), None, 0, 0);
    p.fork_stats.is_locked_out = true;
    progress.insert(4, p);
    // Slot 1 is a leader slot that has not propagated
    update_progress(&mut progress, 1, |p| p.propagated_stats.is_leader_slot = true);
    let r = select_vote_and_reset_forks(4, None, SwitchForkDecision::SameFork, &progress);
    assert_eq!(r.vote_bank, None);
    assert_eq!(r.reset_bank, Some(4));
    assert_eq!(
        r.heaviest_fork_failures,
        vec![
            HeaviestForkFailures::LockedOut(4),
            HeaviestForkFailures::FailedThreshold(4),
            HeaviestForkFailures::NoPropagatedConfirmation(4),
        ]
    );
}

#[test]
fn test_duplicate_confirmed_restores_candidate_but_lockout_holds() {
    // Slot 4 is the heaviest again after its duplicate confirmation, still locked out
    let mut confirmed = vec![];
    let newly = process_gossip_duplicate_confirmed_slots(&vec![(4, 44)], 0, &mut confirmed);
    assert_eq!(newly, Ok(vec![4]));
    let mut progress = votable_progress(&[4, 6]);
    update_progress(&mut progress, 4, |p| p.fork_stats.is_locked_out = true);
    let r = select_vote_and_reset_forks(4, Some(4), SwitchForkDecision::SameFork, &progress);
    assert_eq!(r.vote_bank, None);
    assert_eq!(r.reset_bank, Some(4));
    assert_eq!(r.heaviest_fork_failures, vec![HeaviestForkFailures::LockedOut(4)]);
}

#[test]
fn test_process_gossip_duplicate_confirmed_slots() {
    let mut confirmed = vec![(5, 50)];
    let newly = process_gossip_duplicate_confirmed_slots(&vec![(2, 20), (3, 30), (7, 70), (8, 80)], 3, &mut confirmed);
    assert_eq!(newly, Ok(vec![3, 7, 8]));
    assert_eq!(confirmed, vec![(5, 50), (3, 30), (7, 70), (8, 80)]);
    // A slot seen before with the same hash is skipped
    let newly = process_gossip_duplicate_confirmed_slots(&vec![(9, 90), (7, 70), (10, 100)], 3, &mut confirmed);
    assert_eq!(newly, Ok(vec![9, 10]));
    assert_eq!(confirmed, vec![(5, 50), (3, 30), (7, 70), (8, 80), (9, 90), (10, 100)]);
    // Another hash for a confirmed slot is a conflict
    let newly = process_gossip_duplicate_confirmed_slots(&vec![(11, 110), (7, 71)], 3, &mut confirmed);
    assert_eq!(newly, Err(7));
    assert_eq!(confirmed.last(), Some(&(11, 110)));
}

#[test]
fn test_mark_slots_and_confirm_forks() {
    let mut progress = votable_progress(&[1, 2, 3]);
    let mut voted_stakes = HashMap::new();
    voted_stakes.insert(1u64, 7u64);
    voted_stakes.insert(2, 6);
    voted_stakes.insert(3, 9);
    // 3 is not frozen; 2 has exactly two thirds, which is not enough
    let confirmed = confirm_forks(&voted_stakes, 9, &progress, &vec![1, 2]);
    assert_eq!(confirmed, vec![1]);
    let newly = mark_slots_confirmed(&vec![1, 1, 7], &mut progress);
    assert_eq!(newly, vec![1]);
    assert_eq!(progress.is_supermajority_confirmed(1), Some(true));
    // Confirmed slots are not reported again
    assert!(confirm_forks(&voted_stakes, 9, &progress, &vec![1, 2]).is_empty());
    assert!(mark_slots_confirmed(&vec![1], &mut progress).is_empty());
}

#[test]
fn test_record_bank_stats_once() {
    let mut progress = votable_progress(&[4]);
    let state = ComputedBankState { total_stake: 100, my_latest_landed_vote: Some(3) };
    assert!(record_bank_stats(&mut progress, 4, 444, 12, state));
    assert_eq!(progress.get_hash(4), Some(444));
    assert_eq!(progress.my_latest_landed_vote(4), Some(3));
    assert_eq!(progress.get_fork_stats(4).unwrap().block_height, 12);
    assert_eq!(progress.get_fork_stats(4).unwrap().total_stake, 100);
    // Computed statistics are not recomputed
    assert!(!record_bank_stats(&mut progress, 4, 555, 13, state));
    assert_eq!(progress.get_hash(4), Some(444));
    record_tower_checks(
        &mut progress,
        4,
        TowerChecks { vote_threshold: false, is_locked_out: true, has_voted: true, is_recent: true },
    );
    let stats = progress.get_fork_stats(4).unwrap();
    assert!(!stats.vote_threshold && stats.is_locked_out && stats.has_voted && stats.is_recent);
    assert!(stats.computed);
}

#[test]
fn test_record_vote_signature_ring() {
    let mut signatures = Vec::new();
    for s in 0..MAX_VOTE_SIGNATURES as u64 {
        record_vote_signature(&mut signatures, s, false);
    }
    assert_eq!(signatures.len(), MAX_VOTE_SIGNATURES);
    record_vote_signature(&mut signatures, 1000, false);
    assert_eq!(signatures.len(), MAX_VOTE_SIGNATURES);
    assert_eq!(signatures[0], 1);
    assert_eq!(*signatures.last().unwrap(), 1000);
    record_vote_signature(&mut signatures, 1001, true);
    assert!(signatures.is_empty());
}

#[test]
fn test_vote_refresh_after_blockhash_expiry() {
    // Last vote on slot 1 has not landed; its blockhash expired on the heaviest
    // block of the fork; the last refresh was long enough ago
    assert!(should_refresh_last_vote(Some(1), 0, Some(false), 5000));
    assert!(should_refresh_last_vote(Some(1), 0, None, 6000));
    // Before all three conditions hold, nothing is sent
    assert!(!should_refresh_last_vote(Some(1), 1, Some(false), 5000));
    assert!(!should_refresh_last_vote(Some(1), 0, Some(true), 5000));
    assert!(!should_refresh_last_vote(Some(1), 0, Some(false), 4999));
    assert!(!should_refresh_last_vote(None, 0, Some(false), 5000));
}

#[test]
fn test_maybe_start_leader_decisions() {
    let mut progress = ProgressMap::default();
    progress.insert(1, ForkProgress::new(0, None, Some(ValidatorStakeInfo::default()), 0, 0));
    let mut info = SkippedSlotsInfo::default();
    let me = 9;
    assert_eq!(
        maybe_start_leader(me, false, 8, 1, false, Some(me), true, &progress, &mut info),
        LeaderSlotDecision::NotReached
    );
    assert_eq!(
        maybe_start_leader(me, true, 8, 1, true, Some(me), true, &progress, &mut info),
        LeaderSlotDecision::AlreadyHaveBank
    );
    assert_eq!(
        maybe_start_leader(me, true, 8, 1, false, None, true, &progress, &mut info),
        LeaderSlotDecision::NoLeader
    );
    assert_eq!(
        maybe_start_leader(me, true, 8, 1, false, Some(me), false, &progress, &mut info),
        LeaderSlotDecision::VoteNotRooted
    );
    assert_eq!(
        maybe_start_leader(me, true, 8, 1, false, Some(3), true, &progress, &mut info),
        LeaderSlotDecision::NotMyLeaderSlot
    );
    // Slot 1, led by us, has not propagated and is a full run back
    assert_eq!(
        maybe_start_leader(me, true, 8, 1, false, Some(me), true, &progress, &mut info),
        LeaderSlotDecision::NotPropagated {
            latest_unconfirmed_leader_slot: 1,
            newly_skipped: true,
            retransmit: true,
        }
    );
    assert_eq!(info.last_skipped_slot, 8);
    assert_eq!(info.last_retransmit_slot, 8);
    assert_eq!(
        maybe_start_leader(me, true, 8, 1, false, Some(me), true, &progress, &mut info),
        LeaderSlotDecision::NotPropagated {
            latest_unconfirmed_leader_slot: 1,
            newly_skipped: false,
            retransmit: false,
        }
    );
    // Within the run of consecutive leader slots the check is skipped
    assert_eq!(
        maybe_start_leader(me, true, 2, 1, false, Some(me), true, &progress, &mut info),
        LeaderSlotDecision::Start
    );
}

#[test]
fn test_log_leader_change() {
    let me = 1;
    let mut current = None;
    assert_eq!(log_leader_change(&me, &mut current, &2), LeaderChange::Unchanged);
    assert_eq!(current, Some(2));
    assert_eq!(log_leader_change(&me, &mut current, &2), LeaderChange::Unchanged);
    assert_eq!(log_leader_change(&me, &mut current, &1), LeaderChange::NowLeader);
    assert_eq!(log_leader_change(&me, &mut current, &3), LeaderChange::NoLongerLeader);
    assert_eq!(log_leader_change(&me, &mut current, &4), LeaderChange::Other);
}

#[test]
fn test_replay_timing_update_reports_after_interval() {
    let mut timing = ReplayTiming::default();
    let r = timing.update(1, 2, 3, 4, 5, 6, 7, 8, 9, 10, 11, 12, 1, 14, 15, 16, 500);
    assert!(r.is_none());
    assert_eq!(timing.collect_frozen_banks_elapsed, 1);
    assert_eq!(timing.process_duplicate_slots_elapsed, 16);
    let r = timing.update(1, 2, 3, 4, 5, 6, 7, 8, 9, 10, 11, 12, 1, 14, 15, 16, 1001);
    let report = r.unwrap();
    assert_eq!(report.collect_frozen_banks_elapsed, 2);
    assert_eq!(report.bank_count, 2);
    assert_eq!(report.process_unfrozen_gossip_verified_vote_hashes_elapsed, 30);
    assert_eq!(timing.collect_frozen_banks_elapsed, 0);
    assert_eq!(timing.last_print, 1001);
}

#[test]
fn test_finalizer_signals_exit() {
    let exit = Arc::new(AtomicBool::new(false));
    let finalizer = Finalizer::new(exit.clone());
    assert!(!exit.load(Ordering::Relaxed));
    finalizer.signal_exit();
    assert!(exit.load(Ordering::Relaxed));
}

#[test]
fn test_tower_saved_before_vote_sent() {
    assert_eq!(
        steps_after_record(Some(3)),
        vec![VoteStep::SaveTower, VoteStep::AdvanceRoot(3), VoteStep::UpdateCommitmentCache, VoteStep::SendVote]
    );
    assert_eq!(
        steps_after_record(None),
        vec![VoteStep::SaveTower, VoteStep::UpdateCommitmentCache, VoteStep::SendVote]
    );
}

#[test]
fn test_fork_block_counts() {
    assert_eq!(fork_block_counts(3, 1, 10, 7), (4, 3));
    assert_eq!(fork_block_counts(0, 0, 1, 0), (1, 0));
}

#[test]
fn test_find_authorized_voter() {
    assert_eq!(find_authorized_voter(&vec![5, 6, 6], 6), Some(1));
    assert_eq!(find_authorized_voter(&vec![5, 6], 7), None);
    assert_eq!(find_authorized_voter(&vec![], 7), None);
}

#[test]
fn test_new_child_slots() {
    let known: HashSet<u64> = [0, 1, 2].into_iter().collect();
    let next = vec![(1, vec![2, 3]), (2, vec![4, 3])];
    assert_eq!(new_child_slots(&next, &known), vec![(1, 3), (2, 4)]);
}

#[test]
fn test_get_unlock_switch_vote_slot() {
    let defaults = UnlockSwitchVoteSlots::default();
    assert_eq!(get_unlock_switch_vote_slot(ClusterType::Development, &defaults), 0);
    assert_eq!(get_unlock_switch_vote_slot(ClusterType::Devnet, &defaults), 0);
    assert_eq!(get_unlock_switch_vote_slot(ClusterType::Testnet, &defaults), 21_692_256);
    assert_eq!(get_unlock_switch_vote_slot(ClusterType::MainnetBeta, &defaults), 26_752_000);
    let custom = UnlockSwitchVoteSlots { testnet: 5, mainnet_beta: 7 };
    assert_eq!(get_unlock_switch_vote_slot(ClusterType::Testnet, &custom), 5);
    assert_eq!(get_unlock_switch_vote_slot(ClusterType::MainnetBeta, &custom), 7);
}

#[test]
fn test_repeated_gossip_vote_absorbed() {
    let mut votes = LatestValidatorVotesForFrozenBanks::new();
    assert_eq!(votes.check_add_vote(1, 5, 55), (true, 5));
    assert_eq!(votes.check_add_vote(1, 5, 55), (false, 5));
    assert_eq!(votes.latest_vote(&1), Some((5, vec![55])));
    assert_eq!(votes.check_add_vote(1, 5, 56), (true, 5));
    assert_eq!(votes.check_add_vote(1, 4, 44), (false, 5));
    assert_eq!(votes.check_add_vote(1, 6, 66), (true, 6));
    assert_eq!(votes.latest_vote(&1), Some((6, vec![66])));
    assert_eq!(votes.latest_vote(&2), None);
}

#[test]
fn test_unfrozen_votes_set_root() {
    let mut unfrozen = UnfrozenGossipVerifiedVoteHashes { votes: vec![(1, 11, 7), (5, 55, 8), (3, 33, 9)] };
    unfrozen.set_root(3);
    assert_eq!(unfrozen.votes, vec![(5, 55, 8), (3, 33, 9)]);
    unfrozen.set_root(3);
    assert_eq!(unfrozen.votes, vec![(5, 55, 8), (3, 33, 9)]);
}

#[test]
fn test_gossip_votes_parked_until_frozen() {
    let mut unfrozen = UnfrozenGossipVerifiedVoteHashes::new();
    let mut latest = LatestValidatorVotesForFrozenBanks::new();
    // Voter 1 votes on frozen block (2, 22); voter 2 on (5, 55), not yet frozen;
    // voter 1 on (1, 11), older than its frozen vote, is dropped
    process_gossip_verified_vote_hashes(
        &vec![(1, 2, 22, true), (2, 5, 55, false), (1, 1, 11, false), (3, 5, 55, false), (3, 5, 56, false)],
        &mut unfrozen,
        &mut latest,
    );
    assert_eq!(latest.latest_vote(&1), Some((2, vec![22])));
    assert_eq!(latest.latest_vote(&2), None);
    assert_eq!(unfrozen.votes, vec![(5, 55, 2), (5, 55, 3), (5, 56, 3)]);
    // Block (5, 55) freezes: its voters are recorded and leave the buffer
    on_frozen(&mut unfrozen, &mut latest, 5, 55);
    assert_eq!(latest.latest_vote(&2), Some((5, vec![55])));
    assert_eq!(latest.latest_vote(&3), Some((5, vec![55])));
    assert_eq!(unfrozen.votes, vec![(5, 56, 3)]);
    assert_eq!(unfrozen.remove_slot_hash(5, 56), vec![3]);
    assert!(unfrozen.votes.is_empty());
}

#[test]
fn test_replay_decision_and_after_replay() {
    let mut progress = ProgressMap::default();
    for i in 0..=5 {
        progress.insert(i, ForkProgress::new(0, None, None, 0, 0));
    }
    assert_eq!(replay_decision(&progress, 2, false), ReplayDecision::Replay);
    assert_eq!(replay_decision(&progress, 3, true), ReplayDecision::CheckComplete);
    assert_eq!(replay_decision(&progress, 9, false), ReplayDecision::Replay);
    // Slot 2 fails to replay: dead, and contained
    let r = after_replay(
        &mut progress,
        2,
        Err(BlockstoreProcessorError::InvalidBlock(BlockError::InvalidTickHashCount)),
        false,
    );
    assert_eq!(r, AfterReplay::MarkDead { serious: true });
    assert_eq!(progress.is_dead(2), Some(true));
    assert_eq!(progress.len(), 6);
    assert_eq!(replay_decision(&progress, 2, false), ReplayDecision::Skip);
    let r = after_replay(&mut progress, 4, Err(BlockstoreProcessorError::InvalidBlock(BlockError::TooFewTicks)), true);
    assert_eq!(r, AfterReplay::MarkDead { serious: false });
    assert_eq!(after_replay(&mut progress, 3, Ok(()), true), AfterReplay::Freeze);
    assert_eq!(after_replay(&mut progress, 5, Ok(()), false), AfterReplay::NotComplete);
    assert_eq!(progress.is_dead(5), Some(false));
}

#[test]
fn test_reset_step_partition() {
    let ancestors = default_ancestors();
    let mut partition_exists = false;
    // Same hash as the last reset: nothing happens
    assert_eq!(reset_step(33, Some((3, 33)), Some(2), 3, &ancestors, &mut partition_exists), None);
    assert!(!partition_exists);
    assert_eq!(reset_step(33, None, Some(2), 3, &ancestors, &mut partition_exists), None);
    // Reset onto 3 with the last vote on 2: partition
    assert_eq!(
        reset_step(0, Some((3, 33)), Some(2), 3, &ancestors, &mut partition_exists),
        Some((3, PartitionEvent::Detected))
    );
    assert!(partition_exists);
    // The last vote moves to 1, an ancestor of 3
    assert_eq!(
        reset_step(0, Some((3, 33)), Some(1), 3, &ancestors, &mut partition_exists),
        Some((3, PartitionEvent::Resolved))
    );
    assert!(!partition_exists);
    assert_eq!(
        reset_step(0, Some((3, 33)), None, 3, &ancestors, &mut partition_exists),
        Some((3, PartitionEvent::Unchanged))
    );
}

#[test]
fn test_pass_steps() {
    assert_eq!(
        pass_steps(false, true, false, false),
        vec![
            LoopStep::GenerateNewBankForks,
            LoopStep::ReplayActiveBanks,
            LoopStep::ProcessGossipDuplicateConfirmedSlots,
            LoopStep::ProcessGossipVerifiedVoteHashes,
            LoopStep::ProcessDuplicateSlots,
            LoopStep::ComputeBankStats,
            LoopStep::ConfirmForks,
            LoopStep::SelectForks,
            LoopStep::RefreshLastVote,
            LoopStep::SelectVoteAndResetForks,
            LoopStep::Vote,
            LoopStep::Reset,
            LoopStep::MaybeStartLeader,
            LoopStep::WaitForSignal,
        ]
    );
    assert_eq!(
        pass_steps(true, false, false, true),
        vec![
            LoopStep::GenerateNewBankForks,
            LoopStep::ReplayActiveBanks,
            LoopStep::ProcessGossipDuplicateConfirmedSlots,
            LoopStep::ProcessGossipVerifiedVoteHashes,
            LoopStep::ComputeBankStats,
            LoopStep::ConfirmForks,
            LoopStep::SelectForks,
            LoopStep::SelectVoteAndResetForks,
            LoopStep::Vote,
            LoopStep::Reset,
        ]
    );
    assert!(pass_steps(true, false, true, true).contains(&LoopStep::MaybeStartLeader));
}

#[test]
fn test_compute_bank_stats_records_every_frozen_block() {
    let mut progress = votable_progress(&[1, 2, 3]);
    let state = ComputedBankState { total_stake: 10, my_latest_landed_vote: Some(1) };
    let earlier = ComputedBankState { total_stake: 4, my_latest_landed_vote: None };
    assert!(record_bank_stats(&mut progress, 2, 22, 2, earlier));
    let mut banks = vec![
        FrozenBankStats { slot: 3, hash: 33, block_height: 3, state },
        FrozenBankStats { slot: 1, hash: 11, block_height: 1, state },
        FrozenBankStats { slot: 2, hash: 22, block_height: 9, state },
    ];
    assert_eq!(compute_bank_stats(&mut progress, &mut banks), vec![1, 3]);
    assert_eq!(banks.iter().map(|b| b.slot).collect::<Vec<u64>>(), vec![1, 2, 3]);
    for (slot, hash) in [(1, 11), (2, 22), (3, 33)] {
        assert!(progress.get_fork_stats(slot).unwrap().computed);
        assert_eq!(progress.get_hash(slot), Some(hash));
    }
    assert_eq!(progress.get_fork_stats(3).unwrap().total_stake, 10);
    assert_eq!(progress.get_fork_stats(3).unwrap().block_height, 3);
    assert_eq!(progress.my_latest_landed_vote(1), Some(1));
    // Slot 2 was computed before: its statistics stay
    assert_eq!(progress.get_fork_stats(2).unwrap().total_stake, 4);
    assert_eq!(progress.get_fork_stats(2).unwrap().block_height, 2);
    assert!(compute_bank_stats(&mut progress, &mut banks).is_empty());
}

#[test]
fn test_repeated_gossip_vote_for_frozen_block() {
    let mut unfrozen = UnfrozenGossipVerifiedVoteHashes::new();
    let mut latest = LatestValidatorVotesForFrozenBanks::new();
    process_gossip_verified_vote_hashes(&vec![(1, 4, 44, true)], &mut unfrozen, &mut latest);
    assert_eq!(latest.latest_vote(&1), Some((4, vec![44])));
    process_gossip_verified_vote_hashes(&vec![(1, 4, 44, true), (1, 4, 44, true)], &mut unfrozen, &mut latest);
    assert_eq!(latest.latest_vote(&1), Some((4, vec![44])));
    assert!(unfrozen.votes.is_empty());
}
