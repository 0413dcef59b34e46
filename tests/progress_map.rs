use replay_core::progress_map::{
    is_superminority_reached, EpochStakes, ForkProgress, ProgressMap, PropagatedStats,
    ValidatorStakeInfo,
};
use std::collections::HashMap;

fn leader_progress(prev_leader_slot: Option<u64>) -> ForkProgress {
    ForkProgress::new(0, prev_leader_slot, Some(ValidatorStakeInfo::default()), 0, 0)
}

fn set_propagated(progress_map: &mut ProgressMap, slot: u64, value: bool) {
    let mut fork_progress = progress_map.remove(slot).unwrap();
    fork_progress.propagated_stats.is_propagated = value;
    progress_map.insert(slot, fork_progress);
}

#[test]
fn test_add_vote_pubkey() {
    let mut stats = PropagatedStats::default();
    let mut vote_pubkey = 7001;

    stats.add_vote_pubkey(vote_pubkey, 1);
    assert!(stats.propagated_validators.contains(&vote_pubkey));
    assert_eq!(stats.propagated_validators_stake, 1);

    // Adding it again changes nothing
    stats.add_vote_pubkey(vote_pubkey, 1);
    assert!(stats.propagated_validators.contains(&vote_pubkey));
    assert_eq!(stats.propagated_validators_stake, 1);

    vote_pubkey = 7002;
    stats.add_vote_pubkey(vote_pubkey, 2);
    assert!(stats.propagated_validators.contains(&vote_pubkey));
    assert_eq!(stats.propagated_validators_stake, 3);
}

#[test]
fn test_add_node_pubkey_internal() {
    let num_vote_accounts = 10;
    let staked_vote_accounts = 5;
    let vote_account_pubkeys: Vec<u64> = (1..=num_vote_accounts as u64).collect();
    let epoch_vote_accounts: HashMap<u64, u64> = vote_account_pubkeys
        .iter()
        .skip(num_vote_accounts - staked_vote_accounts)
        .map(|pubkey| (*pubkey, 1))
        .collect();

    let mut stats = PropagatedStats::default();
    let mut node_pubkey = 500;

    stats.add_node_pubkey_internal(&node_pubkey, &vote_account_pubkeys, &epoch_vote_accounts);
    assert!(stats.propagated_node_ids.contains(&node_pubkey));
    assert_eq!(stats.propagated_validators_stake, staked_vote_accounts as u64);

    // Adding it again should not change any state
    stats.add_node_pubkey_internal(&node_pubkey, &vote_account_pubkeys, &epoch_vote_accounts);
    assert!(stats.propagated_node_ids.contains(&node_pubkey));
    assert_eq!(stats.propagated_validators_stake, staked_vote_accounts as u64);

    // Another node with the same vote accounts adds no stake
    node_pubkey = 501;
    stats.add_node_pubkey_internal(&node_pubkey, &vote_account_pubkeys, &epoch_vote_accounts);
    assert!(stats.propagated_node_ids.contains(&node_pubkey));
    assert_eq!(stats.propagated_validators_stake, staked_vote_accounts as u64);

    // Another node with different vote accounts adds their stake
    node_pubkey = 502;
    let vote_account_pubkeys: Vec<u64> = (101..=100 + num_vote_accounts as u64).collect();
    let epoch_vote_accounts: HashMap<u64, u64> = vote_account_pubkeys
        .iter()
        .skip(num_vote_accounts - staked_vote_accounts)
        .map(|pubkey| (*pubkey, 1))
        .collect();
    stats.add_node_pubkey_internal(&node_pubkey, &vote_account_pubkeys, &epoch_vote_accounts);
    assert!(stats.propagated_node_ids.contains(&node_pubkey));
    assert_eq!(stats.propagated_validators_stake, 2 * staked_vote_accounts as u64);
}

#[test]
fn test_add_node_pubkey_through_epoch_stakes() {
    let mut epoch = EpochStakes {
        vote_account_stakes: HashMap::new(),
        node_vote_accounts: HashMap::new(),
        total_stake: 30,
    };
    epoch.vote_account_stakes.insert(11, 10);
    epoch.vote_account_stakes.insert(12, 5);
    epoch.node_vote_accounts.insert(1, vec![11, 12]);
    let mut stats = PropagatedStats::default();
    // An unknown node changes nothing
    stats.add_node_pubkey(&2, &epoch);
    assert!(!stats.propagated_node_ids.contains(&2));
    assert_eq!(stats.propagated_validators_stake, 0);
    stats.add_node_pubkey(&1, &epoch);
    assert!(stats.propagated_node_ids.contains(&1));
    assert!(stats.propagated_validators.contains(&11));
    assert!(stats.propagated_validators.contains(&12));
    assert_eq!(stats.propagated_validators_stake, 15);
    stats.add_node_pubkey(&1, &epoch);
    assert_eq!(stats.propagated_validators_stake, 15);
    assert_eq!(epoch.epoch_vote_account_stake(&12), 5);
    assert_eq!(epoch.epoch_vote_account_stake(&13), 0);
}

#[test]
fn test_is_propagated_status_on_construction() {
    // Without stake info this is not a leader slot, and is not propagated
    let progress = ForkProgress::new(0, Some(9), None, 0, 0);
    assert!(!progress.propagated_stats.is_propagated);

    // With no stake in the epoch the threshold is always reached
    let progress = ForkProgress::new(
        0,
        Some(9),
        Some(ValidatorStakeInfo {
            total_epoch_stake: 0,
            ..ValidatorStakeInfo::default()
        }),
        0,
        0,
    );
    assert!(progress.propagated_stats.is_propagated);

    // With stake in the epoch, the validator's own stake must pass the threshold
    let progress = ForkProgress::new(
        0,
        Some(9),
        Some(ValidatorStakeInfo {
            total_epoch_stake: 2,
            ..ValidatorStakeInfo::default()
        }),
        0,
        0,
    );
    assert!(!progress.propagated_stats.is_propagated);

    let progress = ForkProgress::new(
        0,
        Some(9),
        Some(ValidatorStakeInfo {
            stake: 1,
            total_epoch_stake: 2,
            ..ValidatorStakeInfo::default()
        }),
        0,
        0,
    );
    assert!(progress.propagated_stats.is_propagated);

    let progress = ForkProgress::new(0, Some(9), Some(ValidatorStakeInfo::default()), 0, 0);
    assert!(!progress.propagated_stats.is_propagated);
}

#[test]
fn test_is_propagated() {
    let mut progress_map = ProgressMap::default();

    // Slot 10 is not a leader slot; its previous leader slot is 9
    progress_map.insert(10, ForkProgress::new(0, Some(9), None, 0, 0));
    progress_map.insert(9, leader_progress(None));

    assert!(!progress_map.is_propagated(9));
    assert!(!progress_map.is_propagated(10));

    // Slot 8's previous leader slot 7 is not tracked, so it is rooted
    progress_map.insert(8, ForkProgress::new(0, Some(7), None, 0, 0));
    assert!(progress_map.is_propagated(8));

    set_propagated(&mut progress_map, 9, true);
    assert!(progress_map.is_propagated(9));
    assert!(progress_map.get(9).unwrap().propagated_stats.is_propagated);

    // Slot 9 is the latest leader slot before 10
    assert!(progress_map.is_propagated(10));

    // Once 10 is a leader slot itself, it needs its own propagation
    let mut fork_progress = progress_map.remove(10).unwrap();
    fork_progress.propagated_stats.is_leader_slot = true;
    progress_map.insert(10, fork_progress);
    assert!(!progress_map.is_propagated(10));
}

#[test]
fn test_superminority_threshold_is_strict() {
    assert!(!is_superminority_reached(1, 3));
    assert!(is_superminority_reached(2, 5));
    assert!(is_superminority_reached(0, 0));
    assert!(!is_superminority_reached(0, 1));
    assert!(is_superminority_reached(u64::MAX, u64::MAX));
}

#[test]
fn test_new_from_bank_leader_and_not_leader() {
    let mut epoch = EpochStakes {
        vote_account_stakes: HashMap::new(),
        node_vote_accounts: HashMap::new(),
        total_stake: 9,
    };
    epoch.vote_account_stakes.insert(20, 4);
    let mine = ForkProgress::new_from_bank(&1, 77, &epoch, &1, &20, Some(3), 2, 1);
    assert!(mine.propagated_stats.is_leader_slot);
    assert_eq!(mine.propagated_stats.propagated_validators_stake, 4);
    assert_eq!(mine.propagated_stats.total_epoch_stake, 9);
    assert!(mine.propagated_stats.is_propagated);
    assert_eq!(mine.replay_progress.last_entry, 77);
    assert_eq!(mine.num_blocks_on_fork, 2);
    assert_eq!(mine.num_dropped_blocks_on_fork, 1);
    let other = ForkProgress::new_from_bank(&2, 77, &epoch, &1, &20, Some(3), 0, 0);
    assert!(!other.propagated_stats.is_leader_slot);
    assert!(!other.propagated_stats.is_propagated);
    assert_eq!(other.propagated_stats.prev_leader_slot, Some(3));
}

#[test]
fn test_progress_map_queries() {
    let mut progress_map = ProgressMap::default();
    assert_eq!(progress_map.len(), 0);
    progress_map.insert(4, ForkProgress::new(0, Some(2), None, 0, 0));
    progress_map.insert(2, leader_progress(None));
    assert_eq!(progress_map.len(), 2);
    assert_eq!(progress_map.is_dead(4), Some(false));
    assert_eq!(progress_map.is_dead(5), None);
    assert_eq!(progress_map.get_hash(4), None);
    assert_eq!(progress_map.get_latest_leader_slot(4), Some(2));
    assert_eq!(progress_map.get_latest_leader_slot(2), Some(2));
    assert_eq!(progress_map.get_bank_prev_leader_slot(4), Some(2));
    assert_eq!(progress_map.get_bank_prev_leader_slot(3), None);
    assert_eq!(progress_map.is_supermajority_confirmed(4), Some(false));
    progress_map.set_supermajority_confirmed_slot(4);
    assert_eq!(progress_map.is_supermajority_confirmed(4), Some(true));
    assert_eq!(progress_map.is_supermajority_confirmed(9), None);
    assert_eq!(progress_map.my_latest_landed_vote(4), None);
    assert!(progress_map.get_fork_stats(4).is_some());
    assert!(progress_map.get_propagated_stats(7).is_none());
    progress_map.mark_dead(2);
    assert_eq!(progress_map.is_dead(2), Some(true));
    assert!(progress_map.contains_key(2));
}

#[test]
fn test_progress_map_handle_new_root_keeps_live_slots() {
    let mut progress_map = ProgressMap::default();
    for slot in 0..=6 {
        progress_map.insert(slot, ForkProgress::new(0, None, None, 0, 0));
    }
    progress_map.handle_new_root(&vec![3, 4, 5, 6, 42]);
    let mut keys: Vec<u64> = (0..=6).filter(|s| progress_map.contains_key(*s)).collect();
    keys.sort();
    assert_eq!(keys, vec![3, 4, 5, 6]);
    assert_eq!(progress_map.len(), 4);
    // Applying it again changes nothing
    progress_map.handle_new_root(&vec![3, 4, 5, 6, 42]);
    assert_eq!(progress_map.len(), 4);
}
