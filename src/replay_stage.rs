//! Decisions of the replay loop: propagation of leader slots, fork selection
//! for voting and resetting, root advancement and the vote bookkeeping that
//! goes with it.
use crate::progress_map::{
    is_propagated_in, is_superminority_reached, latest_leader_slot_of, leader_links_descend,
    propagation_advanced, superminority_reached, tally_votes, EpochStakes, ForkProgress,
    ProgressMap, PropagatedStats, Tally,
};
use crate::{BlockHash, Pubkey, Signature, Slot};
use std::collections::{HashMap, HashSet};
use std::sync::atomic::{AtomicBool, Ordering};
use std::sync::Arc;
use vstd::prelude::*;

verus! {

/// Number of consecutive slots assigned to one leader.
pub const NUM_CONSECUTIVE_LEADER_SLOTS: u64 = 4;

/// Most entries taken from the block store per pass of the loop.
pub const MAX_ENTRY_RECV_PER_ITER: usize = 512;

/// Most slots that may stay unconfirmed.
pub const MAX_UNCONFIRMED_SLOTS: usize = 5;

/// Most vote signatures remembered while waiting for a vote to be rooted.
pub const MAX_VOTE_SIGNATURES: usize = 200;

/// Least time between two refreshes of the last vote, in milliseconds.
pub const MAX_VOTE_REFRESH_INTERVAL_MILLIS: u64 = 5000;

/// Decides whether a retransmit signal should be sent for `poh_slot`, given the
/// slot of the last retransmit; on `true` the last retransmit slot becomes `poh_slot`.
pub fn should_retransmit(poh_slot: Slot, last_retransmit_slot: &mut Slot) -> (r: bool)
    ensures
        r == (poh_slot < *old(last_retransmit_slot) || poh_slot >= *old(last_retransmit_slot)
            + NUM_CONSECUTIVE_LEADER_SLOTS),
        r ==> *final(last_retransmit_slot) == poh_slot,
        !r ==> *final(last_retransmit_slot) == *old(last_retransmit_slot),
{
    if poh_slot < *last_retransmit_slot || poh_slot - *last_retransmit_slot
        >= NUM_CONSECUTIVE_LEADER_SLOTS {
        *last_retransmit_slot = poh_slot;
        true
    } else {
        false
    }
}

/// A partition: the last vote is neither the heaviest slot nor one of its
/// known ancestors. A heaviest slot without an ancestor entry shows none.
pub open spec fn partition_detected(
    ancestors: Map<Slot, Set<Slot>>,
    last_voted_slot: Slot,
    heaviest_slot: Slot,
) -> bool {
    &&& last_voted_slot != heaviest_slot
    &&& ancestors.contains_key(heaviest_slot)
    &&& !ancestors[heaviest_slot].contains(last_voted_slot)
}

/// The ancestors of each slot, as plain sets.
pub open spec fn ancestor_sets(ancestors: Map<Slot, HashSet<Slot>>) -> Map<Slot, Set<Slot>> {
    ancestors.map_values(|a: HashSet<Slot>| a@)
}

pub fn is_partition_detected(
    ancestors: &HashMap<Slot, HashSet<Slot>>,
    last_voted_slot: Slot,
    heaviest_slot: Slot,
) -> (r: bool)
    ensures
        r == partition_detected(ancestor_sets(ancestors@), last_voted_slot, heaviest_slot),
{
    if last_voted_slot == heaviest_slot {
        return false;
    }
    match ancestors.get(&heaviest_slot) {
        Some(a) => !a.contains(&last_voted_slot),
        None => false,
    }
}

/// Whether a leader slot at `poh_slot` built on `parent_slot` may start: either
/// the latest leader slot before it lies within the same run of consecutive
/// leader slots, or that leader slot has propagated.
pub open spec fn may_start_leader(m: Map<Slot, ForkProgress>, poh_slot: Slot, parent_slot: Slot) -> bool {
    let within_run = match latest_leader_slot_of(m, parent_slot) {
        Some(l) => l <= poh_slot && poh_slot - l < NUM_CONSECUTIVE_LEADER_SLOTS,
        None => false,
    };
    within_run || is_propagated_in(m, parent_slot)
}

pub fn check_propagation_for_start_leader(
    poh_slot: Slot,
    parent_slot: Slot,
    progress_map: &ProgressMap,
) -> (r: bool)
    requires
        progress_map@.contains_key(parent_slot),
    ensures
        r == may_start_leader(progress_map@, poh_slot, parent_slot),
{
    match progress_map.get_latest_leader_slot(parent_slot) {
        Some(latest_leader_slot) => {
            if latest_leader_slot <= poh_slot && poh_slot - latest_leader_slot
                < NUM_CONSECUTIVE_LEADER_SLOTS {
                return true;
            }
        },
        None => {},
    }
    progress_map.is_propagated(parent_slot)
}

/// The vote accounts of `votes` that were new when observed in order: those
/// kept after filtering out what was already known.
pub open spec fn fresh_votes(t: Tally, votes: Seq<Pubkey>, stakes: Map<Pubkey, u64>) -> Seq<Pubkey>
    decreases votes.len(),
{
    if votes.len() == 0 {
        Seq::empty()
    } else {
        let prev = fresh_votes(t, votes.drop_last(), stakes);
        if tally_votes(t, votes.drop_last(), stakes).0.contains(votes.last()) {
            prev
        } else {
            prev.push(votes.last())
        }
    }
}

/// The tally after the node identities `nodes` are observed in order.
pub open spec fn tally_nodes(t: Tally, nodes: Seq<Pubkey>, epoch: EpochStakes) -> Tally
    decreases nodes.len(),
{
    if nodes.len() == 0 {
        t
    } else {
        epoch.tally_node(tally_nodes(t, nodes.drop_last(), epoch), nodes.last())
    }
}

/// The node identities of `nodes` that were new when observed in order.
pub open spec fn fresh_nodes(t: Tally, nodes: Seq<Pubkey>, epoch: EpochStakes) -> Seq<Pubkey>
    decreases nodes.len(),
{
    if nodes.len() == 0 {
        Seq::empty()
    } else {
        let prev = fresh_nodes(t, nodes.drop_last(), epoch);
        if tally_nodes(t, nodes.drop_last(), epoch).1.contains(nodes.last()) {
            prev
        } else {
            prev.push(nodes.last())
        }
    }
}

/// Folds newly observed vote accounts and node identities into the propagation
/// status of one leader slot, and reports whether the slot newly reached
/// propagation. When a descendant newly reached it, the slot is propagated as
/// well without looking at the votes. The pubkeys that were already known to
/// this slot are dropped from the two lists, since earlier leader slots have
/// recorded them too.
pub fn update_slot_propagated_threshold_from_votes(
    newly_voted_pubkeys: &mut Vec<Pubkey>,
    cluster_slot_pubkeys: &mut Vec<Pubkey>,
    leader_epoch: &EpochStakes,
    leader_propagated_stats: &mut PropagatedStats,
    did_child_reach_threshold: bool,
) -> (r: bool)
    ensures
        final(leader_propagated_stats).is_leader_slot == old(leader_propagated_stats).is_leader_slot,
        final(leader_propagated_stats).prev_leader_slot == old(
            leader_propagated_stats,
        ).prev_leader_slot,
        final(leader_propagated_stats).total_epoch_stake == old(
            leader_propagated_stats,
        ).total_epoch_stake,
        did_child_reach_threshold ==> {
            &&& r == !old(leader_propagated_stats).is_propagated
            &&& final(leader_propagated_stats).is_propagated
            &&& final(leader_propagated_stats).tally() == old(leader_propagated_stats).tally()
            &&& final(newly_voted_pubkeys)@ == old(newly_voted_pubkeys)@
            &&& final(cluster_slot_pubkeys)@ == old(cluster_slot_pubkeys)@
        },
        !did_child_reach_threshold && old(leader_propagated_stats).is_propagated ==> {
            &&& !r
            &&& final(leader_propagated_stats).is_propagated
            &&& final(leader_propagated_stats).tally() == old(leader_propagated_stats).tally()
            &&& final(newly_voted_pubkeys)@ == old(newly_voted_pubkeys)@
            &&& final(cluster_slot_pubkeys)@ == old(cluster_slot_pubkeys)@
        },
        !did_child_reach_threshold && !old(leader_propagated_stats).is_propagated ==> {
            let t0 = old(leader_propagated_stats).tally();
            let t1 = tally_votes(t0, old(newly_voted_pubkeys)@, leader_epoch.stakes());
            let t2 = tally_nodes(t1, old(cluster_slot_pubkeys)@, *leader_epoch);
            &&& final(leader_propagated_stats).tally() == t2
            &&& final(newly_voted_pubkeys)@ == fresh_votes(
                t0,
                old(newly_voted_pubkeys)@,
                leader_epoch.stakes(),
            )
            &&& final(cluster_slot_pubkeys)@ == fresh_nodes(
                t1,
                old(cluster_slot_pubkeys)@,
                *leader_epoch,
            )
            &&& r == superminority_reached(t2.2, old(leader_propagated_stats).total_epoch_stake)
            &&& final(leader_propagated_stats).is_propagated == r
        },
{
    if did_child_reach_threshold {
        if !leader_propagated_stats.is_propagated {
            leader_propagated_stats.is_propagated = true;
            return true;
        } else {
            return false;
        }
    }
    if leader_propagated_stats.is_propagated {
        return false;
    }
    let ghost t0 = leader_propagated_stats.tally();
    let ghost votes = newly_voted_pubkeys@;
    let mut kept_votes: Vec<Pubkey> = Vec::new();
    let mut i: usize = 0;
    while i < newly_voted_pubkeys.len()
        invariant
            i <= newly_voted_pubkeys.len(),
            newly_voted_pubkeys@ == votes,
            leader_propagated_stats.tally() == tally_votes(t0, votes.take(i as int), leader_epoch.stakes()),
            kept_votes@ == fresh_votes(t0, votes.take(i as int), leader_epoch.stakes()),
            !leader_propagated_stats.is_propagated,
            leader_propagated_stats.is_leader_slot == old(leader_propagated_stats).is_leader_slot,
            leader_propagated_stats.prev_leader_slot == old(leader_propagated_stats).prev_leader_slot,
            leader_propagated_stats.total_epoch_stake == old(leader_propagated_stats).total_epoch_stake,
        decreases newly_voted_pubkeys.len() - i,
    {
        let vote_pubkey = newly_voted_pubkeys[i];
        let exists = leader_propagated_stats.propagated_validators.contains(&vote_pubkey);
        let stake = leader_epoch.epoch_vote_account_stake(&vote_pubkey);
        leader_propagated_stats.add_vote_pubkey(vote_pubkey, stake);
        if !exists {
            kept_votes.push(vote_pubkey);
        }
        proof {
            assert(votes.take(i + 1).drop_last() == votes.take(i as int));
            assert(votes.take(i + 1).last() == vote_pubkey);
        }
        i = i + 1;
    }
    proof {
        assert(votes.take(i as int) == votes);
    }
    *newly_voted_pubkeys = kept_votes;
    let ghost t1 = leader_propagated_stats.tally();
    let ghost nodes = cluster_slot_pubkeys@;
    let mut kept_nodes: Vec<Pubkey> = Vec::new();
    let mut j: usize = 0;
    while j < cluster_slot_pubkeys.len()
        invariant
            j <= cluster_slot_pubkeys.len(),
            cluster_slot_pubkeys@ == nodes,
            leader_propagated_stats.tally() == tally_nodes(t1, nodes.take(j as int), *leader_epoch),
            kept_nodes@ == fresh_nodes(t1, nodes.take(j as int), *leader_epoch),
            !leader_propagated_stats.is_propagated,
            leader_propagated_stats.is_leader_slot == old(leader_propagated_stats).is_leader_slot,
            leader_propagated_stats.prev_leader_slot == old(leader_propagated_stats).prev_leader_slot,
            leader_propagated_stats.total_epoch_stake == old(leader_propagated_stats).total_epoch_stake,
        decreases cluster_slot_pubkeys.len() - j,
    {
        let node_pubkey = cluster_slot_pubkeys[j];
        let exists = leader_propagated_stats.propagated_node_ids.contains(&node_pubkey);
        leader_propagated_stats.add_node_pubkey(&node_pubkey, leader_epoch);
        if !exists {
            kept_nodes.push(node_pubkey);
        }
        proof {
            assert(nodes.take(j + 1).drop_last() == nodes.take(j as int));
            assert(nodes.take(j + 1).last() == node_pubkey);
        }
        j = j + 1;
    }
    proof {
        assert(nodes.take(j as int) == nodes);
    }
    *cluster_slot_pubkeys = kept_nodes;
    if is_superminority_reached(
        leader_propagated_stats.propagated_validators_stake,
        leader_propagated_stats.total_epoch_stake,
    ) {
        leader_propagated_stats.is_propagated = true;
        true
    } else {
        false
    }
}

/// Walks back from `fork_tip` along the chain of earlier leader slots, at or
/// above `root`, folding the newly observed pubkeys into each and carrying a
/// newly reached propagation back to the ancestors. The walk stops at a leader
/// slot that has already propagated, when there is nothing left to carry, or
/// at a leader slot whose epoch stakes are not known.
pub fn update_fork_propagated_threshold_from_votes(
    progress: &mut ProgressMap,
    newly_voted_pubkeys: Vec<Pubkey>,
    cluster_slot_pubkeys: Vec<Pubkey>,
    fork_tip: Slot,
    root: Slot,
    epoch_stakes: &HashMap<Slot, EpochStakes>,
)
    requires
        old(progress)@.contains_key(fork_tip),
        leader_links_descend(old(progress)@),
    ensures
        propagation_advanced(old(progress)@, final(progress)@),
        leader_links_descend(final(progress)@),
        latest_leader_slot_of(old(progress)@, fork_tip) is None ==> final(progress)@ == old(
            progress,
        )@,
        forall|x: Slot|
            #[trigger] old(progress)@.contains_key(x) && !on_leader_chain(
                old(progress)@,
                latest_leader_slot_of(old(progress)@, fork_tip),
                root,
                x,
            ) ==> final(progress)@[x] == old(progress)@[x],
        chain_closed(old(progress)@, root) ==> chain_closed(final(progress)@, root),
        latest_leader_slot_of(old(progress)@, fork_tip) matches Some(l) ==> (first_leader_updated(
            old(progress)@,
            l,
            root,
            newly_voted_pubkeys@,
            cluster_slot_pubkeys@,
            epoch_stakes@,
        ) ==> {
            let t2 = first_leader_tally(
                old(progress)@,
                l,
                newly_voted_pubkeys@,
                cluster_slot_pubkeys@,
                epoch_stakes@,
            );
            &&& final(progress)@[l].propagated_stats.tally() == t2
            &&& final(progress)@[l].propagated_stats.is_propagated == superminority_reached(
                t2.2,
                old(progress)@[l].propagated_stats.total_epoch_stake,
            )
        }),
{
    let ghost given_votes = newly_voted_pubkeys@;
    let ghost given_nodes = cluster_slot_pubkeys@;
    let mut votes = newly_voted_pubkeys;
    let mut nodes = cluster_slot_pubkeys;
    let mut current_leader_slot = progress.get_latest_leader_slot(fork_tip);
    let mut did_newly_reach_threshold = false;
    let ghost start_leader = current_leader_slot;
    let ghost mut first_done = false;
    let ghost mut first_slot: Slot = 0;
    loop
        invariant
            propagation_advanced(old(progress)@, progress@),
            leader_links_descend(progress@),
            !first_done ==> {
                &&& current_leader_slot == latest_leader_slot_of(old(progress)@, fork_tip)
                &&& progress@ == old(progress)@
                &&& !did_newly_reach_threshold
                &&& votes@ == given_votes
                &&& nodes@ == given_nodes
            },
            forall|x: Slot|
                #[trigger] old(progress)@.contains_key(x) && !on_leader_chain(
                    old(progress)@,
                    start_leader,
                    root,
                    x,
                ) ==> progress@[x] == old(progress)@[x],
            forall|x: Slot|
                #[trigger] on_leader_chain(old(progress)@, current_leader_slot, root, x) ==> on_leader_chain(
                    old(progress)@,
                    start_leader,
                    root,
                    x,
                ),
            forall|x: Slot|
                #[trigger] progress@.contains_key(x) && progress@[x] != old(progress)@[x] ==> (
                current_leader_slot matches Some(c) ==> x > c),
            !did_newly_reach_threshold ==> forall|x: Slot|
                #[trigger] progress@.contains_key(x) ==> progress@[x].propagated_stats.is_propagated
                    == old(progress)@[x].propagated_stats.is_propagated,
            chain_closed(old(progress)@, root) ==> forall|c: Slot, x: Slot|
                #![trigger progress@[c], on_leader_chain(old(progress)@, old(progress)@[c].propagated_stats.prev_leader_slot, root, x)]
                progress@.contains_key(c) && c >= root && progress@[c].propagated_stats.is_propagated
                    && on_leader_chain(
                    old(progress)@,
                    old(progress)@[c].propagated_stats.prev_leader_slot,
                    root,
                    x,
                ) ==> progress@[x].propagated_stats.is_propagated || (did_newly_reach_threshold
                    && on_leader_chain(old(progress)@, current_leader_slot, root, x)),
            first_done ==> {
                &&& latest_leader_slot_of(old(progress)@, fork_tip) == Some(first_slot)
                &&& first_leader_updated(
                    old(progress)@,
                    first_slot,
                    root,
                    given_votes,
                    given_nodes,
                    epoch_stakes@,
                )
                &&& progress@.contains_key(first_slot)
                &&& progress@[first_slot].propagated_stats.tally() == first_leader_tally(
                    old(progress)@,
                    first_slot,
                    given_votes,
                    given_nodes,
                    epoch_stakes@,
                )
                &&& progress@[first_slot].propagated_stats.is_propagated == superminority_reached(
                    progress@[first_slot].propagated_stats.tally().2,
                    old(progress)@[first_slot].propagated_stats.total_epoch_stake,
                )
                &&& (current_leader_slot matches Some(c) ==> c < first_slot)
            },
        ensures
            propagation_advanced(old(progress)@, progress@),
            leader_links_descend(progress@),
            !first_done ==> progress@ == old(progress)@,
            forall|x: Slot|
                #[trigger] old(progress)@.contains_key(x) && !on_leader_chain(
                    old(progress)@,
                    start_leader,
                    root,
                    x,
                ) ==> progress@[x] == old(progress)@[x],
            chain_closed(old(progress)@, root) ==> chain_closed(progress@, root),
            !first_done ==> match latest_leader_slot_of(old(progress)@, fork_tip) {
                Some(l) => !first_leader_updated(
                    old(progress)@,
                    l,
                    root,
                    given_votes,
                    given_nodes,
                    epoch_stakes@,
                ),
                None => true,
            },
            first_done ==> {
                &&& latest_leader_slot_of(old(progress)@, fork_tip) == Some(first_slot)
                &&& progress@[first_slot].propagated_stats.tally() == first_leader_tally(
                    old(progress)@,
                    first_slot,
                    given_votes,
                    given_nodes,
                    epoch_stakes@,
                )
                &&& progress@[first_slot].propagated_stats.is_propagated == superminority_reached(
                    progress@[first_slot].propagated_stats.tally().2,
                    old(progress)@[first_slot].propagated_stats.total_epoch_stake,
                )
            },
        decreases
            match current_leader_slot {
                Some(c) => c as int + 1,
                None => 0,
            },
    {
        let leader_slot = match current_leader_slot {
            Some(c) => c,
            None => {
                proof {
                    if chain_closed(old(progress)@, root) {
                        lemma_closed_without_pending(old(progress)@, progress@, root);
                    }
                }
                break;
            },
        };
        if leader_slot < root {
            proof {
                if chain_closed(old(progress)@, root) {
                    lemma_closed_without_pending(old(progress)@, progress@, root);
                }
            }
            break;
        }
        let ghost start = progress@;
        let mut fork_progress = match progress.remove(leader_slot) {
            Some(p) => p,
            None => {
                proof {
                    assert(progress@ =~= start);
                    if chain_closed(old(progress)@, root) {
                        lemma_closed_without_pending(old(progress)@, progress@, root);
                    }
                }
                break;
            },
        };
        proof {
            assert(progress@.insert(leader_slot, fork_progress) =~= start);
        }
        if fork_progress.propagated_stats.is_propagated || (votes.len() == 0
            && nodes.len() == 0 && !did_newly_reach_threshold) {
            progress.insert(leader_slot, fork_progress);
            proof {
                assert(progress@ =~= start);
                if chain_closed(old(progress)@, root) {
                    if fork_progress.propagated_stats.is_propagated {
                        // The walk has not touched this slot or anything older.
                        assert(progress@[leader_slot] == old(progress)@[leader_slot]);
                        assert forall|x: Slot|
                            #[trigger] on_leader_chain(old(progress)@, current_leader_slot, root, x)
                                implies progress@[x].propagated_stats.is_propagated by {
                            if x != leader_slot {
                                assert(on_leader_chain(
                                    old(progress)@,
                                    old(progress)@[leader_slot].propagated_stats.prev_leader_slot,
                                    root,
                                    x,
                                ));
                                lemma_chain_member(old(progress)@, current_leader_slot, root, x);
                                assert(old(progress)@[x].propagated_stats.is_propagated);
                            }
                        }
                    }
                    lemma_closed_without_pending(old(progress)@, progress@, root);
                }
            }
            break;
        }
        let ghost did_before = did_newly_reach_threshold;
        let ghost before_update = fork_progress;
        if did_newly_reach_threshold {
            // A later leader slot propagated, so this one has too.
            fork_progress.propagated_stats.is_propagated = true;
        } else {
            let leader_epoch = match epoch_stakes.get(&leader_slot) {
                Some(e) => e,
                None => {
                    progress.insert(leader_slot, fork_progress);
                    proof {
                        assert(progress@ =~= start);
                        if chain_closed(old(progress)@, root) {
                            lemma_closed_without_pending(old(progress)@, progress@, root);
                        }
                    }
                    break;
                },
            };
            did_newly_reach_threshold = update_slot_propagated_threshold_from_votes(
                &mut votes,
                &mut nodes,
                leader_epoch,
                &mut fork_progress.propagated_stats,
                false,
            );
        }
        let ghost prev_current = current_leader_slot;
        current_leader_slot = fork_progress.propagated_stats.prev_leader_slot;
        progress.insert(leader_slot, fork_progress);
        proof {
            assert(progress@.dom() =~= start.dom());
            assert(start[leader_slot] == before_update);
            assert(old(progress)@.contains_key(leader_slot));
            assert(progress@[leader_slot].propagated_stats.is_propagated == did_newly_reach_threshold);
            assert forall|x: Slot| x != leader_slot && #[trigger] progress@.contains_key(x) implies progress@[x]
                == start[x] by {
                assert(progress@.get(x) == start.get(x));
            }
            assert forall|x: Slot|
                on_leader_chain(old(progress)@, current_leader_slot, root, x) implies on_leader_chain(
                old(progress)@,
                prev_current,
                root,
                x,
            ) by {
                assert(old(progress)@[leader_slot].propagated_stats.prev_leader_slot == current_leader_slot);
            }
            assert(on_leader_chain(old(progress)@, prev_current, root, leader_slot));
            if !first_done {
                first_done = true;
                first_slot = leader_slot;
            }
        }
    }
}

/// `s` lies on the chain of leader slots at or above `root` that starts at
/// `from` and follows the leader links of `m`.
pub open spec fn on_leader_chain(m: Map<Slot, ForkProgress>, from: Option<Slot>, root: Slot, s: Slot) -> bool
    decreases
            match from {
                Some(c) => c as int + 1,
                None => 0,
            },
{
    match from {
        None => false,
        Some(c) => c >= root && m.contains_key(c) && (c == s
            || match m[c].propagated_stats.prev_leader_slot {
            Some(p) => p < c && on_leader_chain(m, Some(p), root, s),
            None => false,
        }),
    }
}

/// Every propagated leader slot at or above `root` has every earlier leader
/// slot on its chain propagated too.
pub open spec fn chain_closed(m: Map<Slot, ForkProgress>, root: Slot) -> bool {
    forall|c: Slot, s: Slot|
        #![trigger m[c], on_leader_chain(m, m[c].propagated_stats.prev_leader_slot, root, s)]
        m.contains_key(c) && c >= root && m[c].propagated_stats.is_propagated && on_leader_chain(
            m,
            m[c].propagated_stats.prev_leader_slot,
            root,
            s,
        ) ==> m[s].propagated_stats.is_propagated
}

/// When nothing is pending on the walk, closure over the old links gives
/// closure over the new map.
proof fn lemma_closed_without_pending(
    old_map: Map<Slot, ForkProgress>,
    m: Map<Slot, ForkProgress>,
    root: Slot,
)
    requires
        propagation_advanced(old_map, m),
        forall|c: Slot, x: Slot|
            #![trigger m[c], on_leader_chain(old_map, old_map[c].propagated_stats.prev_leader_slot, root, x)]
            m.contains_key(c) && c >= root && m[c].propagated_stats.is_propagated && on_leader_chain(
                old_map,
                old_map[c].propagated_stats.prev_leader_slot,
                root,
                x,
            ) ==> m[x].propagated_stats.is_propagated,
    ensures
        chain_closed(m, root),
{
    assert forall|c: Slot, x: Slot|
        m.contains_key(c) && c >= root && m[c].propagated_stats.is_propagated && #[trigger] on_leader_chain(
            m,
            m[c].propagated_stats.prev_leader_slot,
            root,
            x,
        ) implies m[x].propagated_stats.is_propagated by {
        lemma_chain_same_links(old_map, m, m[c].propagated_stats.prev_leader_slot, root, x);
        assert(old_map.contains_key(c));
    }
}

/// A slot on a chain is tracked and at or above the root.
proof fn lemma_chain_member(m: Map<Slot, ForkProgress>, from: Option<Slot>, root: Slot, s: Slot)
    requires
        on_leader_chain(m, from, root, s),
    ensures
        m.contains_key(s),
        s >= root,
    decreases
            match from {
                Some(c) => c as int + 1,
                None => 0,
            },
{
    match from {
        None => {},
        Some(c) => {
            if c != s {
                match m[c].propagated_stats.prev_leader_slot {
                    Some(p) => {
                        lemma_chain_member(m, Some(p), root, s);
                    },
                    None => {},
                }
            }
        },
    }
}

/// Chains depend only on the tracked slots and their leader links.
pub proof fn lemma_chain_same_links(
    m1: Map<Slot, ForkProgress>,
    m2: Map<Slot, ForkProgress>,
    from: Option<Slot>,
    root: Slot,
    s: Slot,
)
    requires
        propagation_advanced(m1, m2),
    ensures
        on_leader_chain(m1, from, root, s) == on_leader_chain(m2, from, root, s),
    decreases
            match from {
                Some(c) => c as int + 1,
                None => 0,
            },
{
    match from {
        None => {},
        Some(c) => {
            if c >= root && m1.contains_key(c) {
                assert(m2.contains_key(c));
                assert(m2[c].propagated_stats.prev_leader_slot == m1[c].propagated_stats.prev_leader_slot);
                match m1[c].propagated_stats.prev_leader_slot {
                    Some(p) => {
                        if p < c {
                            lemma_chain_same_links(m1, m2, Some(p), root, s);
                        }
                    },
                    None => {},
                }
            } else {
                assert(m2.contains_key(c) == m1.contains_key(c));
            }
        },
    }
}

/// The first leader slot met on the walk back from a fork tip, `l`, takes in
/// the newly observed pubkeys: it is at or above the root, tracked, not yet
/// propagated, its epoch stakes are known, and there is something to take in.
pub open spec fn first_leader_updated(
    m: Map<Slot, ForkProgress>,
    l: Slot,
    root: Slot,
    votes: Seq<Pubkey>,
    nodes: Seq<Pubkey>,
    epoch_stakes: Map<Slot, EpochStakes>,
) -> bool {
    &&& l >= root
    &&& m.contains_key(l)
    &&& !m[l].propagated_stats.is_propagated
    &&& (votes.len() > 0 || nodes.len() > 0)
    &&& epoch_stakes.contains_key(l)
}

/// What the first leader slot `l` has observed after taking in `votes` and `nodes`.
pub open spec fn first_leader_tally(
    m: Map<Slot, ForkProgress>,
    l: Slot,
    votes: Seq<Pubkey>,
    nodes: Seq<Pubkey>,
    epoch_stakes: Map<Slot, EpochStakes>,
) -> Tally {
    let t1 = tally_votes(m[l].propagated_stats.tally(), votes, epoch_stakes[l].stakes());
    tally_nodes(t1, nodes, epoch_stakes[l])
}

/// Brings the propagation status of `slot` up to date with the vote accounts
/// and node identities newly observed on it, unless its latest leader slot has
/// already propagated.
pub fn update_propagation_status(
    progress: &mut ProgressMap,
    slot: Slot,
    newly_voted_pubkeys: Vec<Pubkey>,
    cluster_slot_pubkeys: Vec<Pubkey>,
    root: Slot,
    epoch_stakes: &HashMap<Slot, EpochStakes>,
)
    requires
        old(progress)@.contains_key(slot),
        leader_links_descend(old(progress)@),
    ensures
        propagation_advanced(old(progress)@, final(progress)@),
        leader_links_descend(final(progress)@),
        is_propagated_in(old(progress)@, slot) ==> final(progress)@ == old(progress)@,
        forall|x: Slot|
            #[trigger] old(progress)@.contains_key(x) && !on_leader_chain(
                old(progress)@,
                latest_leader_slot_of(old(progress)@, slot),
                root,
                x,
            ) ==> final(progress)@[x] == old(progress)@[x],
        chain_closed(old(progress)@, root) ==> chain_closed(final(progress)@, root),
        !is_propagated_in(old(progress)@, slot) ==> (latest_leader_slot_of(old(progress)@, slot) matches Some(l) ==> (
        first_leader_updated(
            old(progress)@,
            l,
            root,
            newly_voted_pubkeys@,
            cluster_slot_pubkeys@,
            epoch_stakes@,
        ) ==> {
            let t2 = first_leader_tally(
                old(progress)@,
                l,
                newly_voted_pubkeys@,
                cluster_slot_pubkeys@,
                epoch_stakes@,
            );
            &&& final(progress)@[l].propagated_stats.tally() == t2
            &&& final(progress)@[l].propagated_stats.is_propagated == superminority_reached(
                t2.2,
                old(progress)@[l].propagated_stats.total_epoch_stake,
            )
        })),
{
    if progress.is_propagated(slot) {
        return;
    }
    update_fork_propagated_threshold_from_votes(
        progress,
        newly_voted_pubkeys,
        cluster_slot_pubkeys,
        slot,
        root,
        epoch_stakes,
    );
}

/// The outcome of the switching-threshold check on the heaviest fork.
#[derive(Clone, Copy, Debug, PartialEq, Eq, Structural)]
pub enum SwitchForkDecision {
    /// Switching to another fork, with a proof of enough stake on it.
    SwitchProof(BlockHash),
    /// The heaviest fork descends from the last vote.
    SameFork,
    /// Switching is not yet safe: the stake observed elsewhere and the total stake.
    FailedSwitchThreshold(u64, u64),
    /// The last vote was on an unconfirmed duplicate; the latest such ancestor.
    FailedSwitchDuplicateRollback(Slot),
}

impl SwitchForkDecision {
    pub open spec fn can_vote_spec(&self) -> bool {
        !(self is FailedSwitchThreshold || self is FailedSwitchDuplicateRollback)
    }

    /// Whether this decision allows a vote.
    pub fn can_vote(&self) -> (r: bool)
        ensures
            r == self.can_vote_spec(),
    {
        match self {
            SwitchForkDecision::FailedSwitchThreshold(_, _) => false,
            SwitchForkDecision::FailedSwitchDuplicateRollback(_) => false,
            SwitchForkDecision::SameFork => true,
            SwitchForkDecision::SwitchProof(_) => true,
        }
    }
}

/// Why the heaviest fork could not be voted on.
#[derive(Clone, Copy, Debug, PartialEq, Eq, Structural)]
pub enum HeaviestForkFailures {
    LockedOut(u64),
    FailedThreshold(u64),
    FailedSwitchThreshold(u64),
    NoPropagatedConfirmation(u64),
}

/// The slot to vote on, if any, with the switch decision; the slot to reset
/// block production to; and why the heaviest fork was not voted on.
pub struct SelectVoteAndResetForkResult {
    pub vote_bank: Option<(Slot, SwitchForkDecision)>,
    pub reset_bank: Option<Slot>,
    pub heaviest_fork_failures: Vec<HeaviestForkFailures>,
}

/// The candidate for voting and resetting: the heaviest slot, except that a
/// failed switch keeps to the heaviest slot on the last voted fork.
pub open spec fn vote_candidate(
    heaviest: Slot,
    heaviest_on_same_voted_fork: Option<Slot>,
    decision: SwitchForkDecision,
) -> Option<Slot> {
    match decision {
        SwitchForkDecision::FailedSwitchThreshold(_, _) => heaviest_on_same_voted_fork,
        _ => Some(heaviest),
    }
}

/// The failure recorded by the switch check.
pub open spec fn switch_failures(heaviest: Slot, decision: SwitchForkDecision) -> Seq<HeaviestForkFailures> {
    if decision.can_vote_spec() {
        Seq::empty()
    } else {
        seq![HeaviestForkFailures::FailedSwitchThreshold(heaviest)]
    }
}

/// A leader slot of this validator, or a slot whose latest leader slot propagated.
pub open spec fn propagation_confirmed(m: Map<Slot, ForkProgress>, c: Slot) -> bool {
    m[c].propagated_stats.is_leader_slot || is_propagated_in(m, c)
}

/// The failures recorded against candidate `c`, in order: locked out, vote
/// threshold not met, propagation not confirmed.
pub open spec fn candidate_failures(m: Map<Slot, ForkProgress>, c: Slot) -> Seq<HeaviestForkFailures> {
    (if m[c].fork_stats.is_locked_out {
        seq![HeaviestForkFailures::LockedOut(c)]
    } else {
        Seq::empty()
    }) + (if !m[c].fork_stats.vote_threshold {
        seq![HeaviestForkFailures::FailedThreshold(c)]
    } else {
        Seq::empty()
    }) + (if !propagation_confirmed(m, c) {
        seq![HeaviestForkFailures::NoPropagatedConfirmation(c)]
    } else {
        Seq::empty()
    })
}

/// Candidate `c` may be voted on under `decision`.
pub open spec fn votable(m: Map<Slot, ForkProgress>, c: Slot, decision: SwitchForkDecision) -> bool {
    &&& !m[c].fork_stats.is_locked_out
    &&& m[c].fork_stats.vote_threshold
    &&& propagation_confirmed(m, c)
    &&& decision.can_vote_spec()
}

/// Chooses the slot to vote on and the slot to reset block production to,
/// given the heaviest slot, the heaviest slot on the last voted fork and the
/// switch decision for the heaviest slot.
pub fn select_vote_and_reset_forks(
    heaviest_bank: Slot,
    heaviest_bank_on_same_voted_fork: Option<Slot>,
    switch_fork_decision: SwitchForkDecision,
    progress: &ProgressMap,
) -> (r: SelectVoteAndResetForkResult)
    requires
        progress@.contains_key(heaviest_bank),
        heaviest_bank_on_same_voted_fork matches Some(s) ==> progress@.contains_key(s),
    ensures
        match vote_candidate(heaviest_bank, heaviest_bank_on_same_voted_fork, switch_fork_decision) {
            None => {
                &&& r.vote_bank is None
                &&& r.reset_bank is None
                &&& r.heaviest_fork_failures@ == switch_failures(heaviest_bank, switch_fork_decision)
            },
            Some(c) => {
                &&& r.reset_bank == Some(c)
                &&& r.heaviest_fork_failures@ == switch_failures(heaviest_bank, switch_fork_decision)
                    + candidate_failures(progress@, c)
                &&& r.vote_bank == (if votable(progress@, c, switch_fork_decision) {
                    Some((c, switch_fork_decision))
                } else {
                    None
                })
            },
        },
{
    let mut failure_reasons: Vec<HeaviestForkFailures> = Vec::new();
    let selected = match switch_fork_decision {
        SwitchForkDecision::FailedSwitchThreshold(_, _) => {
            failure_reasons.push(HeaviestForkFailures::FailedSwitchThreshold(heaviest_bank));
            heaviest_bank_on_same_voted_fork
        },
        SwitchForkDecision::FailedSwitchDuplicateRollback(_) => {
            failure_reasons.push(HeaviestForkFailures::FailedSwitchThreshold(heaviest_bank));
            Some(heaviest_bank)
        },
        _ => Some(heaviest_bank),
    };
    let ghost switch_part = failure_reasons@;
    proof {
        assert(switch_part =~= switch_failures(heaviest_bank, switch_fork_decision));
    }
    match selected {
        None => SelectVoteAndResetForkResult {
            vote_bank: None,
            reset_bank: None,
            heaviest_fork_failures: failure_reasons,
        },
        Some(slot) => {
            let fork_stats = progress.get_fork_stats(slot).unwrap();
            let is_locked_out = fork_stats.is_locked_out;
            let vote_threshold = fork_stats.vote_threshold;
            let is_leader_slot = progress.get_propagated_stats(slot).unwrap().is_leader_slot;
            let propagation_confirmed = is_leader_slot || progress.is_propagated(slot);
            let ghost a = if is_locked_out {
                seq![HeaviestForkFailures::LockedOut(slot)]
            } else {
                Seq::empty()
            };
            let ghost b = if !vote_threshold {
                seq![HeaviestForkFailures::FailedThreshold(slot)]
            } else {
                Seq::empty()
            };
            let ghost c = if !propagation_confirmed {
                seq![HeaviestForkFailures::NoPropagatedConfirmation(slot)]
            } else {
                Seq::empty()
            };
            if is_locked_out {
                failure_reasons.push(HeaviestForkFailures::LockedOut(slot));
            }
            assert(failure_reasons@ =~= switch_part + a);
            if !vote_threshold {
                failure_reasons.push(HeaviestForkFailures::FailedThreshold(slot));
            }
            assert(failure_reasons@ =~= switch_part + a + b);
            if !propagation_confirmed {
                failure_reasons.push(HeaviestForkFailures::NoPropagatedConfirmation(slot));
            }
            assert(failure_reasons@ =~= switch_part + (a + b + c));
            if !is_locked_out && vote_threshold && propagation_confirmed
                && switch_fork_decision.can_vote() {
                SelectVoteAndResetForkResult {
                    vote_bank: Some((slot, switch_fork_decision)),
                    reset_bank: Some(slot),
                    heaviest_fork_failures: failure_reasons,
                }
            } else {
                SelectVoteAndResetForkResult {
                    vote_bank: None,
                    reset_bank: Some(slot),
                    heaviest_fork_failures: failure_reasons,
                }
            }
        },
    }
}

/// Slots at or above the root.
pub open spec fn at_or_above(root: Slot) -> spec_fn(Slot) -> bool {
    |s: Slot| s >= root
}

/// Entries whose slot is at or above the root.
pub open spec fn pair_at_or_above(root: Slot) -> spec_fn((Slot, BlockHash)) -> bool {
    |e: (Slot, BlockHash)| e.0 >= root
}

/// Slots with at least one known duplicate version, each listed once.
pub type DuplicateSlotsTracker = Vec<Slot>;

/// Slots the cluster has duplicate-confirmed, with the confirmed hash.
pub type GossipDuplicateConfirmedSlots = Vec<(Slot, BlockHash)>;

fn append_slots(dst: &mut Vec<Slot>, src: &Vec<Slot>)
    ensures
        final(dst)@ == old(dst)@ + src@,
{
    let mut i: usize = 0;
    while i < src.len()
        invariant
            i <= src.len(),
            dst@ == old(dst)@ + src@.take(i as int),
        decreases src.len() - i,
    {
        dst.push(src[i]);
        i = i + 1;
        proof {
            assert(dst@ =~= old(dst)@ + src@.take(i as int));
        }
    }
    proof {
        assert(src@.take(i as int) =~= src@);
    }
}

/// Drops the slots below `root`, keeping the order of the rest.
pub fn retain_slots_at_or_above(slots: &mut Vec<Slot>, root: Slot)
    ensures
        final(slots)@ == old(slots)@.filter(at_or_above(root)),
{
    let ghost start = slots@;
    let mut kept: Vec<Slot> = Vec::new();
    let mut i: usize = 0;
    while i < slots.len()
        invariant
            i <= slots.len(),
            slots@ == start,
            kept@ == start.take(i as int).filter(at_or_above(root)),
        decreases slots.len() - i,
    {
        let s = slots[i];
        proof {
            reveal(Seq::filter);
            assert(start.take(i + 1).drop_last() == start.take(i as int));
        }
        if s >= root {
            kept.push(s);
        }
        i = i + 1;
    }
    proof {
        assert(start.take(i as int) == start);
    }
    *slots = kept;
}

/// Drops the confirmed entries below `root`, keeping the order of the rest.
pub fn retain_confirmed_at_or_above(slots: &mut Vec<(Slot, BlockHash)>, root: Slot)
    ensures
        final(slots)@ == old(slots)@.filter(pair_at_or_above(root)),
{
    let ghost start = slots@;
    let mut kept: Vec<(Slot, BlockHash)> = Vec::new();
    let mut i: usize = 0;
    while i < slots.len()
        invariant
            i <= slots.len(),
            slots@ == start,
            kept@ == start.take(i as int).filter(pair_at_or_above(root)),
        decreases slots.len() - i,
    {
        let e = slots[i];
        proof {
            reveal(Seq::filter);
            assert(start.take(i + 1).drop_last() == start.take(i as int));
        }
        if e.0 >= root {
            kept.push(e);
        }
        i = i + 1;
    }
    proof {
        assert(start.take(i as int) == start);
    }
    *slots = kept;
}

/// Votes seen through gossip for blocks not yet frozen, as (slot, block hash,
/// voter), in the order they arrived.
pub struct UnfrozenGossipVerifiedVoteHashes {
    pub votes: Vec<(Slot, BlockHash, Pubkey)>,
}

/// A parked vote is for a slot at or above the root.
pub open spec fn vote_at_or_above(root: Slot) -> spec_fn((Slot, BlockHash, Pubkey)) -> bool {
    |e: (Slot, BlockHash, Pubkey)| e.0 >= root
}

/// A parked vote is for block `(slot, hash)`.
pub open spec fn vote_for_block(slot: Slot, hash: BlockHash) -> spec_fn((Slot, BlockHash, Pubkey)) -> bool {
    |e: (Slot, BlockHash, Pubkey)| e.0 == slot && e.1 == hash
}

/// A parked vote is for another block than `(slot, hash)`.
pub open spec fn vote_for_other_block(slot: Slot, hash: BlockHash) -> spec_fn((Slot, BlockHash, Pubkey)) -> bool {
    |e: (Slot, BlockHash, Pubkey)| !(e.0 == slot && e.1 == hash)
}

/// A vote for a block not yet frozen is parked unless the voter's latest
/// vote on a frozen block is for a later slot.
pub open spec fn parks_vote(latest: Option<(Slot, Seq<BlockHash>)>, slot: Slot) -> bool {
    match latest {
        None => true,
        Some((s, _)) => slot >= s,
    }
}

/// The record of votes after each voter of `voters` voted for `(slot, hash)`, in order.
pub open spec fn record_votes(
    m: Map<Pubkey, (Slot, Seq<BlockHash>)>,
    voters: Seq<Pubkey>,
    slot: Slot,
    hash: BlockHash,
) -> Map<Pubkey, (Slot, Seq<BlockHash>)>
    decreases voters.len(),
{
    if voters.len() == 0 {
        m
    } else {
        let prev = record_votes(m, voters.drop_last(), slot, hash);
        prev.insert(voters.last(), record_after_vote(prev.get(voters.last()), slot, hash))
    }
}

impl UnfrozenGossipVerifiedVoteHashes {
    pub fn new() -> (r: Self)
        ensures
            r.votes@.len() == 0,
    {
        UnfrozenGossipVerifiedVoteHashes { votes: Vec::new() }
    }

    /// The slots votes are kept for, in order.
    pub open spec fn slots(&self) -> Seq<Slot> {
        self.votes@.map_values(|e: (Slot, BlockHash, Pubkey)| e.0)
    }

    /// Records a vote by `pubkey` for block `(slot, hash)` seen through gossip:
    /// at once when the block is frozen, otherwise it waits here for the block
    /// to freeze, unless the voter has already voted on a later frozen block.
    pub fn add_vote(
        &mut self,
        pubkey: Pubkey,
        slot: Slot,
        hash: BlockHash,
        is_frozen: bool,
        latest_votes: &mut LatestValidatorVotesForFrozenBanks,
    )
        ensures
            is_frozen ==> {
                &&& final(latest_votes)@ == old(latest_votes)@.insert(
                    pubkey,
                    record_after_vote(old(latest_votes)@.get(pubkey), slot, hash),
                )
                &&& final(self).votes@ == old(self).votes@
            },
            !is_frozen ==> {
                &&& final(latest_votes)@ == old(latest_votes)@
                &&& final(self).votes@ == (if parks_vote(old(latest_votes)@.get(pubkey), slot) {
                    old(self).votes@.push((slot, hash, pubkey))
                } else {
                    old(self).votes@
                })
            },
    {
        if is_frozen {
            latest_votes.check_add_vote(pubkey, slot, hash);
        } else {
            let park = match latest_votes.latest_vote_slot(&pubkey) {
                None => true,
                Some(latest) => slot >= latest,
            };
            if park {
                self.votes.push((slot, hash, pubkey));
            }
        }
    }

    /// Takes out the votes waiting for block `(slot, hash)`, and returns their voters in order.
    pub fn remove_slot_hash(&mut self, slot: Slot, hash: BlockHash) -> (r: Vec<Pubkey>)
        ensures
            r@ == old(self).votes@.filter(vote_for_block(slot, hash)).map_values(
                |e: (Slot, BlockHash, Pubkey)| e.2,
            ),
            final(self).votes@ == old(self).votes@.filter(vote_for_other_block(slot, hash)),
    {
        let ghost start = self.votes@;
        let mut voters: Vec<Pubkey> = Vec::new();
        let mut kept: Vec<(Slot, BlockHash, Pubkey)> = Vec::new();
        let mut i: usize = 0;
        while i < self.votes.len()
            invariant
                i <= self.votes.len(),
                self.votes@ == start,
                voters@ == start.take(i as int).filter(vote_for_block(slot, hash)).map_values(
                    |e: (Slot, BlockHash, Pubkey)| e.2,
                ),
                kept@ == start.take(i as int).filter(vote_for_other_block(slot, hash)),
            decreases self.votes.len() - i,
        {
            let e = self.votes[i];
            proof {
                reveal(Seq::filter);
                assert(start.take(i + 1).drop_last() == start.take(i as int));
            }
            if e.0 == slot && e.1 == hash {
                voters.push(e.2);
                proof {
                    assert(voters@ =~= start.take(i + 1).filter(vote_for_block(slot, hash)).map_values(
                        |e: (Slot, BlockHash, Pubkey)| e.2,
                    ));
                }
            } else {
                kept.push(e);
                proof {
                    assert(voters@ =~= start.take(i + 1).filter(vote_for_block(slot, hash)).map_values(
                        |e: (Slot, BlockHash, Pubkey)| e.2,
                    ));
                }
            }
            i = i + 1;
        }
        proof {
            assert(start.take(i as int) == start);
        }
        self.votes = kept;
        voters
    }

    /// Drops the votes for slots below the new root `new_root`.
    pub fn set_root(&mut self, new_root: Slot)
        ensures
            final(self).votes@ == old(self).votes@.filter(vote_at_or_above(new_root)),
            final(self).slots() == old(self).slots().filter(at_or_above(new_root)),
    {
        let ghost start = self.votes@;
        let mut kept: Vec<(Slot, BlockHash, Pubkey)> = Vec::new();
        let mut i: usize = 0;
        while i < self.votes.len()
            invariant
                i <= self.votes.len(),
                self.votes@ == start,
                kept@ == start.take(i as int).filter(vote_at_or_above(new_root)),
            decreases self.votes.len() - i,
        {
            let e = self.votes[i];
            proof {
                reveal(Seq::filter);
                assert(start.take(i + 1).drop_last() == start.take(i as int));
            }
            if e.0 >= new_root {
                kept.push(e);
            }
            i = i + 1;
        }
        proof {
            assert(start.take(i as int) == start);
            lemma_slots_filter_commute(start, new_root);
        }
        self.votes = kept;
    }
}

/// Keeping the votes at or above the root keeps exactly their slots at or above it.
proof fn lemma_slots_filter_commute(votes: Seq<(Slot, BlockHash, Pubkey)>, root: Slot)
    ensures
        votes.filter(vote_at_or_above(root)).map_values(|e: (Slot, BlockHash, Pubkey)| e.0)
            == votes.map_values(|e: (Slot, BlockHash, Pubkey)| e.0).filter(at_or_above(root)),
    decreases votes.len(),
{
    reveal(Seq::filter);
    let f = |e: (Slot, BlockHash, Pubkey)| e.0;
    if votes.len() > 0 {
        lemma_slots_filter_commute(votes.drop_last(), root);
        assert(votes.map_values(f).drop_last() =~= votes.drop_last().map_values(f));
        assert(votes.filter(vote_at_or_above(root)).map_values(f) =~= votes.map_values(f).filter(
            at_or_above(root),
        ));
    } else {
        assert(votes.filter(vote_at_or_above(root)).map_values(f) =~= votes.map_values(f).filter(
            at_or_above(root),
        ));
    }
}

/// Once the block `(slot, hash)` is frozen, the votes that waited for it are
/// recorded as votes on a frozen block, and leave the buffer.
pub fn on_frozen(
    unfrozen: &mut UnfrozenGossipVerifiedVoteHashes,
    votes: &mut LatestValidatorVotesForFrozenBanks,
    slot: Slot,
    hash: BlockHash,
)
    ensures
        final(unfrozen).votes@ == old(unfrozen).votes@.filter(vote_for_other_block(slot, hash)),
        final(votes)@ == record_votes(
            old(votes)@,
            old(unfrozen).votes@.filter(vote_for_block(slot, hash)).map_values(
                |e: (Slot, BlockHash, Pubkey)| e.2,
            ),
            slot,
            hash,
        ),
{
    let voters = unfrozen.remove_slot_hash(slot, hash);
    let ghost start = votes@;
    let mut i: usize = 0;
    while i < voters.len()
        invariant
            i <= voters.len(),
            votes@ == record_votes(start, voters@.take(i as int), slot, hash),
        decreases voters.len() - i,
    {
        proof {
            assert(voters@.take(i + 1).drop_last() == voters@.take(i as int));
            assert(voters@.take(i + 1).last() == voters@[i as int]);
        }
        votes.check_add_vote(voters[i], slot, hash);
        i = i + 1;
    }
    proof {
        assert(voters@.take(i as int) == voters@);
    }
}

/// The parked votes and the record of frozen votes after one gossip vote by
/// `pubkey` for block `(slot, hash)`, frozen or not.
pub open spec fn gossip_vote_step(
    st: (Seq<(Slot, BlockHash, Pubkey)>, Map<Pubkey, (Slot, Seq<BlockHash>)>),
    vote: (Pubkey, Slot, BlockHash, bool),
) -> (Seq<(Slot, BlockHash, Pubkey)>, Map<Pubkey, (Slot, Seq<BlockHash>)>) {
    let (parked, latest) = st;
    let (pubkey, slot, hash, is_frozen) = vote;
    if is_frozen {
        (parked, latest.insert(pubkey, record_after_vote(latest.get(pubkey), slot, hash)))
    } else if parks_vote(latest.get(pubkey), slot) {
        (parked.push((slot, hash, pubkey)), latest)
    } else {
        (parked, latest)
    }
}

/// The parked votes and the record of frozen votes after the gossip votes
/// `votes`, in order.
pub open spec fn gossip_votes_fold(
    st: (Seq<(Slot, BlockHash, Pubkey)>, Map<Pubkey, (Slot, Seq<BlockHash>)>),
    votes: Seq<(Pubkey, Slot, BlockHash, bool)>,
) -> (Seq<(Slot, BlockHash, Pubkey)>, Map<Pubkey, (Slot, Seq<BlockHash>)>)
    decreases votes.len(),
{
    if votes.len() == 0 {
        st
    } else {
        gossip_vote_step(gossip_votes_fold(st, votes.drop_last()), votes.last())
    }
}

/// Takes in the votes for blocks that gossip verified, as (voter, slot, hash,
/// whether that block is frozen), in order: a vote for a frozen block is
/// recorded at once, any other waits for its block to freeze.
pub fn process_gossip_verified_vote_hashes(
    new_votes: &Vec<(Pubkey, Slot, BlockHash, bool)>,
    unfrozen: &mut UnfrozenGossipVerifiedVoteHashes,
    latest_votes: &mut LatestValidatorVotesForFrozenBanks,
)
    ensures
        (final(unfrozen).votes@, final(latest_votes)@) == gossip_votes_fold(
            (old(unfrozen).votes@, old(latest_votes)@),
            new_votes@,
        ),
{
    let mut i: usize = 0;
    while i < new_votes.len()
        invariant
            i <= new_votes.len(),
            (unfrozen.votes@, latest_votes@) == gossip_votes_fold(
                (old(unfrozen).votes@, old(latest_votes)@),
                new_votes@.take(i as int),
            ),
        decreases new_votes.len() - i,
    {
        proof {
            assert(new_votes@.take(i + 1).drop_last() == new_votes@.take(i as int));
            assert(new_votes@.take(i + 1).last() == new_votes@[i as int]);
        }
        let (pubkey, slot, hash, is_frozen) = new_votes[i];
        unfrozen.add_vote(pubkey, slot, hash, is_frozen, latest_votes);
        i = i + 1;
    }
    proof {
        assert(new_votes@.take(i as int) == new_votes@);
    }
}

/// Taking in the same vote for a frozen block a second time changes nothing.
pub proof fn lemma_repeated_frozen_gossip_vote_absorbed(
    st: (Seq<(Slot, BlockHash, Pubkey)>, Map<Pubkey, (Slot, Seq<BlockHash>)>),
    pubkey: Pubkey,
    slot: Slot,
    hash: BlockHash,
)
    ensures
        gossip_votes_fold(st, seq![(pubkey, slot, hash, true), (pubkey, slot, hash, true)])
            == gossip_votes_fold(st, seq![(pubkey, slot, hash, true)]),
{
    let v = (pubkey, slot, hash, true);
    assert(seq![v, v].drop_last() =~= seq![v]);
    assert(seq![v].drop_last() =~= Seq::<(Pubkey, Slot, BlockHash, bool)>::empty());
    let e = Seq::<(Pubkey, Slot, BlockHash, bool)>::empty();
    assert(gossip_votes_fold(st, e) == st);
    let one = gossip_votes_fold(st, seq![v]);
    assert(one == gossip_vote_step(st, v));
    assert(gossip_votes_fold(st, seq![v, v]) == gossip_vote_step(one, v));
    lemma_repeated_vote_absorbed(st.1, pubkey, slot, hash);
    assert(gossip_vote_step(one, v) == one);
}

/// Whether one of the remembered vote signatures has landed in the new root.
pub open spec fn some_vote_landed(voted: Seq<Signature>, landed: Set<Signature>) -> bool {
    exists|i: int| 0 <= i < voted.len() && landed.contains(#[trigger] voted[i])
}

/// Advances the tracked state to the new root `new_root`: progress keeps the
/// slots still in the block tree, `live_slots`; the duplicate and confirmed
/// trackers drop what lies below the root. While no vote has been rooted yet,
/// a remembered vote signature found among `landed_signatures` of the new
/// root marks that one has, and the remembered signatures are then dropped.
pub fn handle_new_root(
    new_root: Slot,
    live_slots: &Vec<Slot>,
    landed_signatures: &HashSet<Signature>,
    progress: &mut ProgressMap,
    duplicate_slots_tracker: &mut DuplicateSlotsTracker,
    gossip_duplicate_confirmed_slots: &mut GossipDuplicateConfirmedSlots,
    unfrozen_gossip_verified_vote_hashes: &mut UnfrozenGossipVerifiedVoteHashes,
    has_new_vote_been_rooted: &mut bool,
    voted_signatures: &mut Vec<Signature>,
)
    ensures
        final(unfrozen_gossip_verified_vote_hashes).votes@ == old(
            unfrozen_gossip_verified_vote_hashes,
        ).votes@.filter(vote_at_or_above(new_root)),
        final(unfrozen_gossip_verified_vote_hashes).slots() == old(
            unfrozen_gossip_verified_vote_hashes,
        ).slots().filter(at_or_above(new_root)),
        final(progress)@ == old(progress)@.restrict(live_slots@.filter(at_or_above(new_root)).to_set()),
        final(duplicate_slots_tracker)@ == old(duplicate_slots_tracker)@.filter(at_or_above(new_root)),
        final(gossip_duplicate_confirmed_slots)@ == old(gossip_duplicate_confirmed_slots)@.filter(
            pair_at_or_above(new_root),
        ),
        *final(has_new_vote_been_rooted) == (*old(has_new_vote_been_rooted)
            || some_vote_landed(old(voted_signatures)@, landed_signatures@)),
        final(voted_signatures)@ == (if !*old(has_new_vote_been_rooted)
            && *final(has_new_vote_been_rooted) {
            Seq::<Signature>::empty()
        } else {
            old(voted_signatures)@
        }),
        forall|s: Slot| #[trigger] final(progress)@.contains_key(s) ==> s >= new_root,
        forall|s: Slot| #[trigger] final(duplicate_slots_tracker)@.contains(s) ==> s >= new_root,
        old(duplicate_slots_tracker)@.no_duplicates() ==> final(duplicate_slots_tracker)@.no_duplicates(),
        unique_slots(old(gossip_duplicate_confirmed_slots)@) ==> unique_slots(
            final(gossip_duplicate_confirmed_slots)@,
        ),
{
    if !*has_new_vote_been_rooted {
        let mut i: usize = 0;
        while i < voted_signatures.len()
            invariant
                i <= voted_signatures.len(),
                !*has_new_vote_been_rooted ==> forall|j: int|
                    0 <= j < i ==> !landed_signatures@.contains(#[trigger] voted_signatures@[j]),
                *has_new_vote_been_rooted ==> some_vote_landed(voted_signatures@, landed_signatures@),
                *has_new_vote_been_rooted == false || *old(has_new_vote_been_rooted) == false,
                voted_signatures@ == old(voted_signatures)@,
                !*old(has_new_vote_been_rooted),
            ensures
                voted_signatures@ == old(voted_signatures)@,
                *has_new_vote_been_rooted ==> some_vote_landed(voted_signatures@, landed_signatures@),
                !*has_new_vote_been_rooted ==> forall|j: int|
                    0 <= j < voted_signatures@.len() ==> !landed_signatures@.contains(
                        #[trigger] voted_signatures@[j],
                    ),
            decreases voted_signatures.len() - i,
        {
            if landed_signatures.contains(&voted_signatures[i]) {
                *has_new_vote_been_rooted = true;
                break;
            }
            i = i + 1;
        }
        if *has_new_vote_been_rooted {
            voted_signatures.clear();
        }
    }
    let mut kept_live = Vec::new();
    append_slots(&mut kept_live, live_slots);
    retain_slots_at_or_above(&mut kept_live, new_root);
    progress.handle_new_root(&kept_live);
    retain_slots_at_or_above(duplicate_slots_tracker, new_root);
    retain_confirmed_at_or_above(gossip_duplicate_confirmed_slots, new_root);
    unfrozen_gossip_verified_vote_hashes.set_root(new_root);
    proof {
        if old(duplicate_slots_tracker)@.no_duplicates() {
            lemma_filter_no_duplicates(old(duplicate_slots_tracker)@, at_or_above(new_root));
        }
        if unique_slots(old(gossip_duplicate_confirmed_slots)@) {
            lemma_filter_unique_slots(old(gossip_duplicate_confirmed_slots)@, pair_at_or_above(new_root));
        }
        broadcast use vstd::seq_lib::group_filter_ensures;
    }
}

/// Applying the pruning of a new root twice leaves what applying it once
/// leaves: progress, the duplicate tracker and the confirmed slots alike.
pub proof fn lemma_handle_new_root_idempotent(
    progress: Map<Slot, ForkProgress>,
    live_slots: Set<Slot>,
    duplicate_slots: Seq<Slot>,
    confirmed_slots: Seq<(Slot, BlockHash)>,
    new_root: Slot,
)
    ensures
        progress.restrict(live_slots).restrict(live_slots) == progress.restrict(live_slots),
        duplicate_slots.filter(at_or_above(new_root)).filter(at_or_above(new_root))
            == duplicate_slots.filter(at_or_above(new_root)),
        confirmed_slots.filter(pair_at_or_above(new_root)).filter(pair_at_or_above(new_root))
            == confirmed_slots.filter(pair_at_or_above(new_root)),
{
    assert(progress.restrict(live_slots).restrict(live_slots) =~= progress.restrict(live_slots));
    lemma_filter_idempotent(duplicate_slots, at_or_above(new_root));
    lemma_filter_idempotent(confirmed_slots, pair_at_or_above(new_root));
}

/// Filtering keeps a sequence free of duplicates.
pub proof fn lemma_filter_no_duplicates<A>(s: Seq<A>, pred: spec_fn(A) -> bool)
    requires
        s.no_duplicates(),
    ensures
        s.filter(pred).no_duplicates(),
    decreases s.len(),
{
    reveal(Seq::filter);
    if s.len() > 0 {
        let rest = s.drop_last();
        assert(rest.no_duplicates());
        lemma_filter_no_duplicates(rest, pred);
        let f = rest.filter(pred);
        if pred(s.last()) {
            assert(!f.contains(s.last())) by {
                if f.contains(s.last()) {
                    rest.lemma_filter_contains_rev(pred, s.last());
                    let k = choose|k: int| 0 <= k < rest.len() && rest[k] == s.last();
                    assert(s[k] == s[s.len() - 1]);
                }
            }
            let g = f.push(s.last());
            assert forall|i: int, j: int| 0 <= i < g.len() && 0 <= j < g.len() && i != j implies g[i] != g[j] by {
                if i == g.len() - 1 {
                    assert(g[j] == f[j]);
                    assert(f.contains(f[j]));
                } else if j == g.len() - 1 {
                    assert(g[i] == f[i]);
                    assert(f.contains(f[i]));
                }
            }
        }
    }
}

/// Filtering keeps each slot confirmed at most once.
pub proof fn lemma_filter_unique_slots(s: Seq<(Slot, BlockHash)>, pred: spec_fn((Slot, BlockHash)) -> bool)
    requires
        unique_slots(s),
    ensures
        unique_slots(s.filter(pred)),
    decreases s.len(),
{
    reveal(Seq::filter);
    if s.len() > 0 {
        let rest = s.drop_last();
        lemma_filter_unique_slots(rest, pred);
        let f = rest.filter(pred);
        if pred(s.last()) {
            let g = f.push(s.last());
            assert forall|i: int, j: int| 0 <= i < j < g.len() implies g[i].0 != g[j].0 by {
                if j == g.len() - 1 {
                    assert(f.contains(f[i]));
                    rest.lemma_filter_contains_rev(pred, f[i]);
                    let k = choose|k: int| 0 <= k < rest.len() && rest[k] == f[i];
                    assert(s[k] == rest[k]);
                }
            }
        }
    }
}

/// Filtering a sequence a second time by the same predicate changes nothing.
pub proof fn lemma_filter_idempotent<A>(s: Seq<A>, pred: spec_fn(A) -> bool)
    ensures
        s.filter(pred).filter(pred) == s.filter(pred),
    decreases s.len(),
{
    reveal(Seq::filter);
    if s.len() > 0 {
        lemma_filter_idempotent(s.drop_last(), pred);
        let f = s.drop_last().filter(pred);
        if pred(s.last()) {
            assert(f.push(s.last()).drop_last() == f);
        }
    }
}

/// The vote signatures remembered after a vote with `signature` is sent: until
/// a vote has been rooted the newest `MAX_VOTE_SIGNATURES` are kept, afterwards none.
pub open spec fn remembered_signatures(
    voted: Seq<Signature>,
    signature: Signature,
    has_new_vote_been_rooted: bool,
) -> Seq<Signature> {
    if has_new_vote_been_rooted {
        Seq::empty()
    } else if voted.len() + 1 > MAX_VOTE_SIGNATURES {
        voted.push(signature).subrange(1, voted.len() as int + 1)
    } else {
        voted.push(signature)
    }
}

/// Remembers the signature of a vote just sent, so that a later root can tell
/// whether one of our votes has landed.
pub fn record_vote_signature(
    vote_signatures: &mut Vec<Signature>,
    signature: Signature,
    has_new_vote_been_rooted: bool,
)
    ensures
        final(vote_signatures)@ == remembered_signatures(
            old(vote_signatures)@,
            signature,
            has_new_vote_been_rooted,
        ),
        old(vote_signatures)@.len() <= MAX_VOTE_SIGNATURES ==> final(vote_signatures)@.len()
            <= MAX_VOTE_SIGNATURES,
{
    if !has_new_vote_been_rooted {
        vote_signatures.push(signature);
        if vote_signatures.len() > MAX_VOTE_SIGNATURES {
            vote_signatures.remove(0);
        }
        proof {
            assert(vote_signatures@ =~= remembered_signatures(
                old(vote_signatures)@,
                signature,
                has_new_vote_been_rooted,
            ));
        }
    } else {
        vote_signatures.clear();
    }
}

/// Whether the last vote should be sent again with a fresh blockhash: it has
/// not landed on the heaviest fork it voted for, its blockhash is no longer
/// known to be valid there, and enough time has passed since the last refresh.
pub open spec fn refresh_due(
    last_voted_slot: Option<Slot>,
    my_latest_landed_vote: Slot,
    last_vote_blockhash_valid: Option<bool>,
    millis_since_last_refresh: u64,
) -> bool {
    match last_voted_slot {
        None => false,
        Some(v) => {
            &&& my_latest_landed_vote < v
            &&& last_vote_blockhash_valid != Some(true)
            &&& millis_since_last_refresh >= MAX_VOTE_REFRESH_INTERVAL_MILLIS
        },
    }
}

pub fn should_refresh_last_vote(
    last_voted_slot: Option<Slot>,
    my_latest_landed_vote: Slot,
    last_vote_blockhash_valid: Option<bool>,
    millis_since_last_refresh: u64,
) -> (r: bool)
    ensures
        r == refresh_due(
            last_voted_slot,
            my_latest_landed_vote,
            last_vote_blockhash_valid,
            millis_since_last_refresh,
        ),
{
    match last_voted_slot {
        None => false,
        Some(v) => {
            let still_valid = match last_vote_blockhash_valid {
                Some(b) => b,
                None => false,
            };
            !(my_latest_landed_vote >= v || still_valid || millis_since_last_refresh
                < MAX_VOTE_REFRESH_INTERVAL_MILLIS)
        },
    }
}

/// The slot of the last retransmit signal and of the last leader slot skipped
/// for want of propagation.
#[derive(Clone, Copy, Debug, Default)]
pub struct SkippedSlotsInfo {
    pub last_retransmit_slot: u64,
    pub last_skipped_slot: u64,
}

/// What to do about a possible leader slot.
#[derive(Clone, Copy, Debug, PartialEq, Eq, Structural)]
pub enum LeaderSlotDecision {
    /// Block production has not reached a leader slot.
    NotReached,
    /// A block for the slot exists already.
    AlreadyHaveBank,
    /// The leader schedule names no leader for the slot.
    NoLeader,
    /// No vote of ours has been rooted yet, so the slot is skipped.
    VoteNotRooted,
    /// Another validator leads the slot.
    NotMyLeaderSlot,
    /// The latest earlier leader slot has not propagated: skip, and report the
    /// skip and signal a retransmit of that slot where the flags say so.
    NotPropagated { latest_unconfirmed_leader_slot: Slot, newly_skipped: bool, retransmit: bool },
    /// Start producing a block at the slot.
    Start,
}

/// Decides whether to start a leader slot at `poh_slot` on top of
/// `parent_slot`. `next_leader` is the leader the schedule names for the slot,
/// and `has_bank_at_poh_slot` tells whether a block for it exists already.
pub fn maybe_start_leader(
    my_pubkey: Pubkey,
    reached_leader_slot: bool,
    poh_slot: Slot,
    parent_slot: Slot,
    has_bank_at_poh_slot: bool,
    next_leader: Option<Pubkey>,
    has_new_vote_been_rooted: bool,
    progress_map: &ProgressMap,
    skipped_slots_info: &mut SkippedSlotsInfo,
) -> (r: LeaderSlotDecision)
    requires
        reached_leader_slot ==> progress_map@.contains_key(parent_slot),
    ensures
        !reached_leader_slot ==> r == LeaderSlotDecision::NotReached,
        reached_leader_slot && has_bank_at_poh_slot ==> r == LeaderSlotDecision::AlreadyHaveBank,
        reached_leader_slot && !has_bank_at_poh_slot && next_leader is None ==> r
            == LeaderSlotDecision::NoLeader,
        reached_leader_slot && !has_bank_at_poh_slot && next_leader is Some
            && !has_new_vote_been_rooted ==> r == LeaderSlotDecision::VoteNotRooted,
        reached_leader_slot && !has_bank_at_poh_slot && has_new_vote_been_rooted
            && next_leader is Some && next_leader != Some(my_pubkey) ==> r
            == LeaderSlotDecision::NotMyLeaderSlot,
        reached_leader_slot && !has_bank_at_poh_slot && has_new_vote_been_rooted
            && next_leader == Some(my_pubkey) ==> {
            if may_start_leader(progress_map@, poh_slot, parent_slot) {
                r == LeaderSlotDecision::Start
            } else {
                let retransmit = poh_slot < old(skipped_slots_info).last_retransmit_slot
                    || poh_slot >= old(skipped_slots_info).last_retransmit_slot
                    + NUM_CONSECUTIVE_LEADER_SLOTS;
                &&& latest_leader_slot_of(progress_map@, parent_slot) is Some
                &&& r == LeaderSlotDecision::NotPropagated {
                    latest_unconfirmed_leader_slot: latest_leader_slot_of(
                        progress_map@,
                        parent_slot,
                    )->Some_0,
                    newly_skipped: poh_slot != old(skipped_slots_info).last_skipped_slot,
                    retransmit,
                }
                &&& final(skipped_slots_info).last_skipped_slot == poh_slot
                &&& final(skipped_slots_info).last_retransmit_slot == (if retransmit {
                    poh_slot
                } else {
                    old(skipped_slots_info).last_retransmit_slot
                })
            }
        },
        !(r matches LeaderSlotDecision::NotPropagated { .. }) ==> *final(skipped_slots_info) == *old(
            skipped_slots_info,
        ),
{
    if !reached_leader_slot {
        return LeaderSlotDecision::NotReached;
    }
    if has_bank_at_poh_slot {
        return LeaderSlotDecision::AlreadyHaveBank;
    }
    let next_leader = match next_leader {
        Some(l) => l,
        None => return LeaderSlotDecision::NoLeader,
    };
    if !has_new_vote_been_rooted {
        return LeaderSlotDecision::VoteNotRooted;
    }
    if next_leader != my_pubkey {
        return LeaderSlotDecision::NotMyLeaderSlot;
    }
    if !check_propagation_for_start_leader(poh_slot, parent_slot, progress_map) {
        let latest_unconfirmed_leader_slot = progress_map.get_latest_leader_slot(parent_slot).unwrap();
        let newly_skipped = poh_slot != skipped_slots_info.last_skipped_slot;
        if newly_skipped {
            skipped_slots_info.last_skipped_slot = poh_slot;
        }
        let retransmit = should_retransmit(poh_slot, &mut skipped_slots_info.last_retransmit_slot);
        return LeaderSlotDecision::NotPropagated {
            latest_unconfirmed_leader_slot,
            newly_skipped,
            retransmit,
        };
    }
    LeaderSlotDecision::Start
}

/// How the leader changed between two observed slots.
#[derive(Clone, Copy, Debug, PartialEq, Eq, Structural)]
pub enum LeaderChange {
    /// No leader was known before, or the leader is the same.
    Unchanged,
    /// This validator was the leader and no longer is.
    NoLongerLeader,
    /// This validator has become the leader.
    NowLeader,
    /// The leader changed between two other validators.
    Other,
}

/// Records `new_leader` as the current leader and reports how the leader changed.
pub fn log_leader_change(
    my_pubkey: &Pubkey,
    current_leader: &mut Option<Pubkey>,
    new_leader: &Pubkey,
) -> (r: LeaderChange)
    ensures
        *final(current_leader) == Some(*new_leader),
        r == match *old(current_leader) {
            None => LeaderChange::Unchanged,
            Some(c) => if c == *new_leader {
                LeaderChange::Unchanged
            } else if c == *my_pubkey {
                LeaderChange::NoLongerLeader
            } else if *new_leader == *my_pubkey {
                LeaderChange::NowLeader
            } else {
                LeaderChange::Other
            },
        },
{
    let change = match *current_leader {
        None => LeaderChange::Unchanged,
        Some(c) => if c == *new_leader {
            LeaderChange::Unchanged
        } else if c == *my_pubkey {
            LeaderChange::NoLongerLeader
        } else if *new_leader == *my_pubkey {
            LeaderChange::NowLeader
        } else {
            LeaderChange::Other
        },
    };
    *current_leader = Some(*new_leader);
    change
}

/// Marks each slot of `confirmed_forks` that is tracked and not yet confirmed
/// by a supermajority, and returns those slots, each once, in the order met.
pub fn mark_slots_confirmed(confirmed_forks: &Vec<Slot>, progress: &mut ProgressMap) -> (r: Vec<Slot>)
    ensures
        final(progress)@.dom() == old(progress)@.dom(),
        forall|s: Slot|
            #[trigger] final(progress)@.contains_key(s) ==> {
                &&& final(progress)@[s].fork_stats.is_supermajority_confirmed == (old(
                    progress,
                )@[s].fork_stats.is_supermajority_confirmed || confirmed_forks@.contains(s))
                &&& final(progress)@[s].propagated_stats == old(progress)@[s].propagated_stats
                &&& final(progress)@[s].is_dead == old(progress)@[s].is_dead
                &&& final(progress)@[s].fork_stats.bank_hash == old(progress)@[s].fork_stats.bank_hash
            },
        r@.no_duplicates(),
        forall|s: Slot|
            #[trigger] r@.contains(s) <==> (confirmed_forks@.contains(s) && old(progress)@.contains_key(s)
                && !old(progress)@[s].fork_stats.is_supermajority_confirmed),
{
    let mut newly: Vec<Slot> = Vec::new();
    let mut i: usize = 0;
    while i < confirmed_forks.len()
        invariant
            i <= confirmed_forks.len(),
            progress@.dom() == old(progress)@.dom(),
            forall|s: Slot|
                #[trigger] progress@.contains_key(s) ==> {
                    &&& progress@[s].fork_stats.is_supermajority_confirmed == (old(
                        progress,
                    )@[s].fork_stats.is_supermajority_confirmed || confirmed_forks@.take(
                        i as int,
                    ).contains(s))
                    &&& progress@[s].propagated_stats == old(progress)@[s].propagated_stats
                    &&& progress@[s].is_dead == old(progress)@[s].is_dead
                    &&& progress@[s].fork_stats.bank_hash == old(progress)@[s].fork_stats.bank_hash
                },
            newly@.no_duplicates(),
            forall|s: Slot|
                #[trigger] newly@.contains(s) <==> (confirmed_forks@.take(i as int).contains(s)
                    && old(progress)@.contains_key(s)
                    && !old(progress)@[s].fork_stats.is_supermajority_confirmed),
        decreases confirmed_forks.len() - i,
    {
        let slot = confirmed_forks[i];
        let ghost seen = confirmed_forks@.take(i as int);
        let ghost next = confirmed_forks@.take(i + 1);
        proof {
            assert(next =~= seen.push(slot));
            assert(next[i as int] == slot);
            assert forall|s: Slot| s != slot implies (#[trigger] next.contains(s) <==> seen.contains(s)) by {
                if next.contains(s) {
                    let k = choose|k: int| 0 <= k < next.len() && next[k] == s;
                    assert(seen[k] == s);
                }
                if seen.contains(s) {
                    let k = choose|k: int| 0 <= k < seen.len() && seen[k] == s;
                    assert(next[k] == s);
                }
            }
        }
        let ghost prev_newly = newly@;
        let ghost prev_progress = progress@;
        match progress.is_supermajority_confirmed(slot) {
            Some(false) => {
                proof {
                    assert(!prev_newly.contains(slot));
                }
                progress.set_supermajority_confirmed_slot(slot);
                newly.push(slot);
                proof {
                    assert forall|s: Slot| s != slot && #[trigger] progress@.contains_key(s) implies progress@[s] == prev_progress[s] by {
                        assert(progress@.get(s) == prev_progress.get(s));
                    }
                    assert forall|s: Slot| #[trigger] newly@.contains(s) <==> (prev_newly.contains(s) || s == slot) by {
                        if newly@.contains(s) && s != slot {
                            let k = choose|k: int| 0 <= k < newly@.len() && newly@[k] == s;
                            assert(prev_newly[k] == s);
                        }
                        if prev_newly.contains(s) {
                            let k = choose|k: int| 0 <= k < prev_newly.len() && prev_newly[k] == s;
                            assert(newly@[k] == s);
                        }
                        if s == slot {
                            assert(newly@[newly@.len() - 1] == s);
                        }
                    }
                }
            },
            _ => {},
        }
        i = i + 1;
    }
    proof {
        assert(confirmed_forks@.take(i as int) =~= confirmed_forks@);
    }
    newly
}

/// A slot is confirmed by a supermajority once strictly more than two thirds
/// of the total stake has voted on it or on a descendant.
pub open spec fn supermajority_voted(voted_stakes: Map<Slot, u64>, total_stake: u64, slot: Slot) -> bool {
    voted_stakes.contains_key(slot) && 3 * voted_stakes[slot] > 2 * total_stake
}

/// The frozen slots, among `frozen_slots`, that are tracked, not yet confirmed
/// by a supermajority, and now hold more than two thirds of the stake.
pub fn confirm_forks(
    voted_stakes: &HashMap<Slot, u64>,
    total_stake: u64,
    progress: &ProgressMap,
    frozen_slots: &Vec<Slot>,
) -> (r: Vec<Slot>)
    ensures
        forall|s: Slot|
            #[trigger] r@.contains(s) <==> (frozen_slots@.contains(s) && progress@.contains_key(s)
                && !progress@[s].fork_stats.is_supermajority_confirmed && supermajority_voted(
                voted_stakes@,
                total_stake,
                s,
            )),
{
    let mut confirmed: Vec<Slot> = Vec::new();
    let mut i: usize = 0;
    while i < frozen_slots.len()
        invariant
            i <= frozen_slots.len(),
            forall|s: Slot|
                #[trigger] confirmed@.contains(s) <==> (frozen_slots@.take(i as int).contains(s)
                    && progress@.contains_key(s)
                    && !progress@[s].fork_stats.is_supermajority_confirmed && supermajority_voted(
                    voted_stakes@,
                    total_stake,
                    s,
                )),
        decreases frozen_slots.len() - i,
    {
        let slot = frozen_slots[i];
        let ghost seen = frozen_slots@.take(i as int);
        let ghost next = frozen_slots@.take(i + 1);
        let ghost prev_confirmed = confirmed@;
        proof {
            assert(next =~= seen.push(slot));
            assert(next[i as int] == slot);
            assert forall|s: Slot| s != slot implies (#[trigger] next.contains(s) <==> seen.contains(s)) by {
                if next.contains(s) {
                    let k = choose|k: int| 0 <= k < next.len() && next[k] == s;
                    assert(seen[k] == s);
                }
                if seen.contains(s) {
                    let k = choose|k: int| 0 <= k < seen.len() && seen[k] == s;
                    assert(next[k] == s);
                }
            }
        }
        match progress.is_supermajority_confirmed(slot) {
            Some(false) => {
                match voted_stakes.get(&slot) {
                    Some(stake) => {
                        if (*stake as u128) * 3 > (total_stake as u128) * 2 {
                            confirmed.push(slot);
                            proof {
                                assert forall|s: Slot| #[trigger] confirmed@.contains(s) <==> (prev_confirmed.contains(s) || s == slot) by {
                                    if confirmed@.contains(s) && s != slot {
                                        let k = choose|k: int| 0 <= k < confirmed@.len() && confirmed@[k] == s;
                                        assert(prev_confirmed[k] == s);
                                    }
                                    if prev_confirmed.contains(s) {
                                        let k = choose|k: int| 0 <= k < prev_confirmed.len() && prev_confirmed[k] == s;
                                        assert(confirmed@[k] == s);
                                    }
                                    if s == slot {
                                        assert(confirmed@[confirmed@.len() - 1] == s);
                                    }
                                }
                            }
                        }
                    },
                    None => {},
                }
            },
            _ => {},
        }
        i = i + 1;
    }
    proof {
        assert(frozen_slots@.take(i as int) =~= frozen_slots@);
    }
    confirmed
}

/// What collecting the votes of a frozen block yields for its statistics.
#[derive(Clone, Copy, Debug)]
pub struct ComputedBankState {
    pub total_stake: u64,
    pub my_latest_landed_vote: Option<Slot>,
}

/// The stored hash of every computed slot is the hash of its frozen block.
pub open spec fn computed_hashes_match(
    m: Map<Slot, ForkProgress>,
    frozen_hashes: Map<Slot, BlockHash>,
) -> bool {
    forall|s: Slot|
        #[trigger] m.contains_key(s) && m[s].fork_stats.computed && frozen_hashes.contains_key(s)
            ==> m[s].fork_stats.bank_hash == Some(frozen_hashes[s])
}

/// Records the statistics of the frozen block at `slot`, with hash
/// `bank_hash`, the first time they are computed; returns whether they were.
pub fn record_bank_stats(
    progress: &mut ProgressMap,
    slot: Slot,
    bank_hash: BlockHash,
    block_height: u64,
    state: ComputedBankState,
) -> (r: bool)
    requires
        old(progress)@.contains_key(slot),
    ensures
        r == !old(progress)@[slot].fork_stats.computed,
        !r ==> final(progress)@ == old(progress)@,
        r ==> final(progress)@ == old(progress)@.insert(
            slot,
            with_computed_stats(old(progress)@[slot], bank_hash, block_height, state),
        ),
        r ==> {
            &&& final(progress)@.dom() == old(progress)@.dom()
            &&& final(progress)@[slot].fork_stats.computed
            &&& final(progress)@[slot].fork_stats.bank_hash == Some(bank_hash)
            &&& final(progress)@[slot].fork_stats.block_height == block_height
            &&& final(progress)@[slot].fork_stats.total_stake == state.total_stake
            &&& final(progress)@[slot].fork_stats.my_latest_landed_vote == state.my_latest_landed_vote
            &&& final(progress)@[slot].propagated_stats == old(progress)@[slot].propagated_stats
            &&& final(progress)@[slot].is_dead == old(progress)@[slot].is_dead
            &&& forall|s: Slot| s != slot ==> #[trigger] final(progress)@.get(s) == old(progress)@.get(s)
        },
        forall|frozen_hashes: Map<Slot, BlockHash>|
            computed_hashes_match(old(progress)@, frozen_hashes) && frozen_hashes.contains_key(slot)
                && frozen_hashes[slot] == bank_hash ==> #[trigger] computed_hashes_match(
                final(progress)@,
                frozen_hashes,
            ),
{
    let mut fork_progress = progress.remove(slot).unwrap();
    if fork_progress.fork_stats.computed {
        progress.insert(slot, fork_progress);
        proof {
            assert(progress@ =~= old(progress)@);
        }
        return false;
    }
    fork_progress.fork_stats.total_stake = state.total_stake;
    fork_progress.fork_stats.block_height = block_height;
    fork_progress.fork_stats.bank_hash = Some(bank_hash);
    fork_progress.fork_stats.my_latest_landed_vote = state.my_latest_landed_vote;
    fork_progress.fork_stats.computed = true;
    progress.insert(slot, fork_progress);
    proof {
        assert(progress@.dom() =~= old(progress)@.dom());
    }
    true
}

/// Results of the tower checks on a frozen block.
#[derive(Clone, Copy, Debug)]
pub struct TowerChecks {
    pub vote_threshold: bool,
    pub is_locked_out: bool,
    pub has_voted: bool,
    pub is_recent: bool,
}

/// Stores the tower checks of the frozen block at `slot`.
pub fn record_tower_checks(progress: &mut ProgressMap, slot: Slot, checks: TowerChecks)
    requires
        old(progress)@.contains_key(slot),
    ensures
        final(progress)@.dom() == old(progress)@.dom(),
        final(progress)@[slot].fork_stats == (crate::progress_map::ForkStats {
            vote_threshold: checks.vote_threshold,
            is_locked_out: checks.is_locked_out,
            has_voted: checks.has_voted,
            is_recent: checks.is_recent,
            ..old(progress)@[slot].fork_stats
        }),
        final(progress)@[slot].propagated_stats == old(progress)@[slot].propagated_stats,
        final(progress)@[slot].is_dead == old(progress)@[slot].is_dead,
        forall|s: Slot| s != slot ==> #[trigger] final(progress)@.get(s) == old(progress)@.get(s),
{
    let mut fork_progress = progress.remove(slot).unwrap();
    fork_progress.fork_stats.vote_threshold = checks.vote_threshold;
    fork_progress.fork_stats.is_locked_out = checks.is_locked_out;
    fork_progress.fork_stats.has_voted = checks.has_voted;
    fork_progress.fork_stats.is_recent = checks.is_recent;
    progress.insert(slot, fork_progress);
    proof {
        assert(progress@.dom() =~= old(progress)@.dom());
    }
}

/// Time spent in each part of the replay loop since the last report, in microseconds.
#[derive(Clone, Copy, Debug, Default)]
pub struct ReplayTiming {
    pub last_print: u64,
    pub collect_frozen_banks_elapsed: u64,
    pub compute_bank_stats_elapsed: u64,
    pub select_vote_and_reset_forks_elapsed: u64,
    pub start_leader_elapsed: u64,
    pub reset_bank_elapsed: u64,
    pub voting_elapsed: u64,
    pub vote_push_us: u64,
    pub vote_send_us: u64,
    pub generate_vote_us: u64,
    pub update_commitment_cache_us: u64,
    pub select_forks_elapsed: u64,
    pub compute_slot_stats_elapsed: u64,
    pub generate_new_bank_forks_elapsed: u64,
    pub replay_active_banks_elapsed: u64,
    pub wait_receive_elapsed: u64,
    pub heaviest_fork_failures_elapsed: u64,
    pub bank_count: u64,
    pub process_gossip_duplicate_confirmed_slots_elapsed: u64,
    pub process_duplicate_slots_elapsed: u64,
    pub process_unfrozen_gossip_verified_vote_hashes_elapsed: u64,
}

/// Least time between two timing reports, in milliseconds.
pub const REPLAY_TIMING_REPORT_INTERVAL_MILLIS: u64 = 1000;

/// Timings with every counter at zero, last reported at `now`.
pub open spec fn fresh_timing(now: u64) -> ReplayTiming {
    ReplayTiming {
        last_print: now,
        collect_frozen_banks_elapsed: 0,
        compute_bank_stats_elapsed: 0,
        select_vote_and_reset_forks_elapsed: 0,
        start_leader_elapsed: 0,
        reset_bank_elapsed: 0,
        voting_elapsed: 0,
        vote_push_us: 0,
        vote_send_us: 0,
        generate_vote_us: 0,
        update_commitment_cache_us: 0,
        select_forks_elapsed: 0,
        compute_slot_stats_elapsed: 0,
        generate_new_bank_forks_elapsed: 0,
        replay_active_banks_elapsed: 0,
        wait_receive_elapsed: 0,
        heaviest_fork_failures_elapsed: 0,
        bank_count: 0,
        process_gossip_duplicate_confirmed_slots_elapsed: 0,
        process_duplicate_slots_elapsed: 0,
        process_unfrozen_gossip_verified_vote_hashes_elapsed: 0,
    }
}

impl ReplayTiming {
    /// `self` with the durations of one pass of the loop added.
    pub open spec fn accumulated(
        &self,
        collect_frozen_banks_elapsed: u64,
        compute_bank_stats_elapsed: u64,
        select_vote_and_reset_forks_elapsed: u64,
        start_leader_elapsed: u64,
        reset_bank_elapsed: u64,
        voting_elapsed: u64,
        select_forks_elapsed: u64,
        compute_slot_stats_elapsed: u64,
        generate_new_bank_forks_elapsed: u64,
        replay_active_banks_elapsed: u64,
        wait_receive_elapsed: u64,
        heaviest_fork_failures_elapsed: u64,
        bank_count: u64,
        process_gossip_duplicate_confirmed_slots_elapsed: u64,
        process_unfrozen_gossip_verified_vote_hashes_elapsed: u64,
        process_duplicate_slots_elapsed: u64,
    ) -> ReplayTiming {
        ReplayTiming {
            collect_frozen_banks_elapsed: crate::progress_map::clipped_sum(self.collect_frozen_banks_elapsed, collect_frozen_banks_elapsed),
            compute_bank_stats_elapsed: crate::progress_map::clipped_sum(self.compute_bank_stats_elapsed, compute_bank_stats_elapsed),
            select_vote_and_reset_forks_elapsed: crate::progress_map::clipped_sum(self.select_vote_and_reset_forks_elapsed, select_vote_and_reset_forks_elapsed),
            start_leader_elapsed: crate::progress_map::clipped_sum(self.start_leader_elapsed, start_leader_elapsed),
            reset_bank_elapsed: crate::progress_map::clipped_sum(self.reset_bank_elapsed, reset_bank_elapsed),
            voting_elapsed: crate::progress_map::clipped_sum(self.voting_elapsed, voting_elapsed),
            select_forks_elapsed: crate::progress_map::clipped_sum(self.select_forks_elapsed, select_forks_elapsed),
            compute_slot_stats_elapsed: crate::progress_map::clipped_sum(self.compute_slot_stats_elapsed, compute_slot_stats_elapsed),
            generate_new_bank_forks_elapsed: crate::progress_map::clipped_sum(self.generate_new_bank_forks_elapsed, generate_new_bank_forks_elapsed),
            replay_active_banks_elapsed: crate::progress_map::clipped_sum(self.replay_active_banks_elapsed, replay_active_banks_elapsed),
            wait_receive_elapsed: crate::progress_map::clipped_sum(self.wait_receive_elapsed, wait_receive_elapsed),
            heaviest_fork_failures_elapsed: crate::progress_map::clipped_sum(self.heaviest_fork_failures_elapsed, heaviest_fork_failures_elapsed),
            bank_count: crate::progress_map::clipped_sum(self.bank_count, bank_count),
            process_gossip_duplicate_confirmed_slots_elapsed: crate::progress_map::clipped_sum(self.process_gossip_duplicate_confirmed_slots_elapsed, process_gossip_duplicate_confirmed_slots_elapsed),
            process_unfrozen_gossip_verified_vote_hashes_elapsed: crate::progress_map::clipped_sum(self.process_unfrozen_gossip_verified_vote_hashes_elapsed, process_unfrozen_gossip_verified_vote_hashes_elapsed),
            process_duplicate_slots_elapsed: crate::progress_map::clipped_sum(self.process_duplicate_slots_elapsed, process_duplicate_slots_elapsed),
            ..*self
        }
    }

    /// Adds the durations of one pass of the loop. When more than the report
    /// interval has passed since the last report at `now` (milliseconds), the
    /// totals are handed back for reporting and the counters start again.
    #[verifier::rlimit(40)]
    pub fn update(
        &mut self,
        collect_frozen_banks_elapsed: u64,
        compute_bank_stats_elapsed: u64,
        select_vote_and_reset_forks_elapsed: u64,
        start_leader_elapsed: u64,
        reset_bank_elapsed: u64,
        voting_elapsed: u64,
        select_forks_elapsed: u64,
        compute_slot_stats_elapsed: u64,
        generate_new_bank_forks_elapsed: u64,
        replay_active_banks_elapsed: u64,
        wait_receive_elapsed: u64,
        heaviest_fork_failures_elapsed: u64,
        bank_count: u64,
        process_gossip_duplicate_confirmed_slots_elapsed: u64,
        process_unfrozen_gossip_verified_vote_hashes_elapsed: u64,
        process_duplicate_slots_elapsed: u64,
        now: u64,
    ) -> (r: Option<ReplayTiming>)
        ensures
            ({
                let acc = old(self).accumulated(
                    collect_frozen_banks_elapsed,
                    compute_bank_stats_elapsed,
                    select_vote_and_reset_forks_elapsed,
                    start_leader_elapsed,
                    reset_bank_elapsed,
                    voting_elapsed,
                    select_forks_elapsed,
                    compute_slot_stats_elapsed,
                    generate_new_bank_forks_elapsed,
                    replay_active_banks_elapsed,
                    wait_receive_elapsed,
                    heaviest_fork_failures_elapsed,
                    bank_count,
                    process_gossip_duplicate_confirmed_slots_elapsed,
                    process_unfrozen_gossip_verified_vote_hashes_elapsed,
                    process_duplicate_slots_elapsed,
                );
                if now >= old(self).last_print && now - old(self).last_print
                    > REPLAY_TIMING_REPORT_INTERVAL_MILLIS {
                    &&& r == Some(acc)
                    &&& *final(self) == fresh_timing(now)
                } else {
                    &&& r is None
                    &&& *final(self) == acc
                }
            }),
    {
        self.collect_frozen_banks_elapsed = self.collect_frozen_banks_elapsed.saturating_add(collect_frozen_banks_elapsed);
        self.compute_bank_stats_elapsed = self.compute_bank_stats_elapsed.saturating_add(compute_bank_stats_elapsed);
        self.select_vote_and_reset_forks_elapsed = self.select_vote_and_reset_forks_elapsed.saturating_add(select_vote_and_reset_forks_elapsed);
        self.start_leader_elapsed = self.start_leader_elapsed.saturating_add(start_leader_elapsed);
        self.reset_bank_elapsed = self.reset_bank_elapsed.saturating_add(reset_bank_elapsed);
        self.voting_elapsed = self.voting_elapsed.saturating_add(voting_elapsed);
        self.select_forks_elapsed = self.select_forks_elapsed.saturating_add(select_forks_elapsed);
        self.compute_slot_stats_elapsed = self.compute_slot_stats_elapsed.saturating_add(compute_slot_stats_elapsed);
        self.generate_new_bank_forks_elapsed = self.generate_new_bank_forks_elapsed.saturating_add(generate_new_bank_forks_elapsed);
        self.replay_active_banks_elapsed = self.replay_active_banks_elapsed.saturating_add(replay_active_banks_elapsed);
        self.wait_receive_elapsed = self.wait_receive_elapsed.saturating_add(wait_receive_elapsed);
        self.heaviest_fork_failures_elapsed = self.heaviest_fork_failures_elapsed.saturating_add(heaviest_fork_failures_elapsed);
        self.bank_count = self.bank_count.saturating_add(bank_count);
        self.process_gossip_duplicate_confirmed_slots_elapsed = self.process_gossip_duplicate_confirmed_slots_elapsed.saturating_add(process_gossip_duplicate_confirmed_slots_elapsed);
        self.process_unfrozen_gossip_verified_vote_hashes_elapsed = self.process_unfrozen_gossip_verified_vote_hashes_elapsed.saturating_add(process_unfrozen_gossip_verified_vote_hashes_elapsed);
        self.process_duplicate_slots_elapsed = self.process_duplicate_slots_elapsed.saturating_add(process_duplicate_slots_elapsed);
        if now >= self.last_print && now - self.last_print > REPLAY_TIMING_REPORT_INTERVAL_MILLIS {
            let report = *self;
            *self = ReplayTiming {
                last_print: now,
                collect_frozen_banks_elapsed: 0,
                compute_bank_stats_elapsed: 0,
                select_vote_and_reset_forks_elapsed: 0,
                start_leader_elapsed: 0,
                reset_bank_elapsed: 0,
                voting_elapsed: 0,
                vote_push_us: 0,
                vote_send_us: 0,
                generate_vote_us: 0,
                update_commitment_cache_us: 0,
                select_forks_elapsed: 0,
                compute_slot_stats_elapsed: 0,
                generate_new_bank_forks_elapsed: 0,
                replay_active_banks_elapsed: 0,
                wait_receive_elapsed: 0,
                heaviest_fork_failures_elapsed: 0,
                bank_count: 0,
                process_gossip_duplicate_confirmed_slots_elapsed: 0,
                process_duplicate_slots_elapsed: 0,
                process_unfrozen_gossip_verified_vote_hashes_elapsed: 0,
            };
            Some(report)
        } else {
            None
        }
    }
}

/// Holds the loop's exit flag, so that whoever owns it can raise the flag
/// when the loop ends for any reason.
pub struct Finalizer {
    exit_sender: Arc<AtomicBool>,
}

impl Finalizer {
    pub closed spec fn exit_flag(&self) -> Arc<AtomicBool> {
        self.exit_sender
    }

    pub fn new(exit_sender: Arc<AtomicBool>) -> (r: Self)
        ensures
            r.exit_flag() == exit_sender,
    {
        Finalizer { exit_sender }
    }

    /// Raises the exit flag.
    pub fn signal_exit(&self) {
        self.exit_sender.store(true, Ordering::Relaxed);
    }
}

/// One step taken when a vote is cast on a block.
#[derive(Clone, Copy, Debug, PartialEq, Eq, Structural)]
pub enum VoteStep {
    /// Record the vote in the tower.
    RecordVote,
    /// Persist the tower; the process stops when this fails.
    SaveTower,
    /// Advance the root to the slot the tower reported, and everything that goes with it.
    AdvanceRoot(Slot),
    /// Hand the block to the commitment service.
    UpdateCommitmentCache,
    /// Build, sign and send the vote transaction.
    SendVote,
}

/// The steps of casting a vote, in order, when recording it in the tower
/// yields `new_root`.
pub open spec fn vote_steps(new_root: Option<Slot>) -> Seq<VoteStep> {
    match new_root {
        Some(root) => seq![
            VoteStep::RecordVote,
            VoteStep::SaveTower,
            VoteStep::AdvanceRoot(root),
            VoteStep::UpdateCommitmentCache,
            VoteStep::SendVote,
        ],
        None => seq![
            VoteStep::RecordVote,
            VoteStep::SaveTower,
            VoteStep::UpdateCommitmentCache,
            VoteStep::SendVote,
        ],
    }
}

/// The steps that follow recording a vote in the tower, given the new root it
/// produced: the tower is persisted before anything else, and the vote is sent last.
pub fn steps_after_record(new_root: Option<Slot>) -> (r: Vec<VoteStep>)
    ensures
        seq![VoteStep::RecordVote] + r@ == vote_steps(new_root),
{
    let mut steps: Vec<VoteStep> = Vec::new();
    steps.push(VoteStep::SaveTower);
    match new_root {
        Some(root) => steps.push(VoteStep::AdvanceRoot(root)),
        None => {},
    }
    steps.push(VoteStep::UpdateCommitmentCache);
    steps.push(VoteStep::SendVote);
    proof {
        assert(seq![VoteStep::RecordVote] + steps@ =~= vote_steps(new_root));
    }
    steps
}

/// Every vote that is sent was preceded by a successful save of the tower,
/// and a new root is applied only after that save.
pub proof fn lemma_tower_saved_before_send(new_root: Option<Slot>)
    ensures
        ({
            let steps = vote_steps(new_root);
            &&& steps.last() == VoteStep::SendVote
            &&& steps[1] == VoteStep::SaveTower
            &&& forall|i: int| 0 <= i < steps.len() && (#[trigger] steps[i] is SendVote || steps[i] is AdvanceRoot) ==> 1 < i
        }),
{
}

/// The counts of blocks on a fork, and of slots skipped along it, for a new
/// block at `slot` whose parent at `parent_slot` has counts `parent_blocks`
/// and `parent_dropped`.
pub fn fork_block_counts(parent_blocks: u64, parent_dropped: u64, slot: Slot, parent_slot: Slot) -> (r: (u64, u64))
    requires
        parent_slot < slot,
    ensures
        r.0 == crate::progress_map::clipped_sum(parent_blocks, 1),
        r.1 == crate::progress_map::clipped_sum(parent_dropped, (slot - parent_slot - 1) as u64),
{
    (parent_blocks.saturating_add(1), parent_dropped.saturating_add(slot - parent_slot - 1))
}

/// Marks `slot` dead after its replay failed with `err`, and tells whether the
/// failure is serious. The slot stays tracked.
pub fn mark_dead_slot(
    progress: &mut ProgressMap,
    slot: Slot,
    err: &crate::blockstore_processor::BlockstoreProcessorError,
) -> (r: bool)
    requires
        old(progress)@.contains_key(slot),
    ensures
        r == !(*err == crate::blockstore_processor::BlockstoreProcessorError::InvalidBlock(
            crate::blockstore_processor::BlockError::TooFewTicks,
        )),
        final(progress)@.dom() == old(progress)@.dom(),
        final(progress)@[slot].is_dead,
        final(progress)@[slot].fork_stats == old(progress)@[slot].fork_stats,
        final(progress)@[slot].propagated_stats == old(progress)@[slot].propagated_stats,
        forall|s: Slot| s != slot ==> #[trigger] final(progress)@.get(s) == old(progress)@.get(s),
{
    progress.mark_dead(slot);
    err.is_serious()
}

/// `slots` records a confirmation for `slot`.
pub open spec fn has_confirmed_slot(slots: Seq<(Slot, BlockHash)>, slot: Slot) -> bool {
    exists|i: int| 0 <= i < slots.len() && (#[trigger] slots[i]).0 == slot
}

/// Each slot is confirmed at most once.
pub open spec fn unique_slots(slots: Seq<(Slot, BlockHash)>) -> bool {
    forall|i: int, j: int| 0 <= i < j < slots.len() ==> slots[i].0 != slots[j].0
}

/// Confirmations of `batch` recorded on top of `known`, in order. Slots below
/// the root are ignored, and so is a slot confirmed before with the same hash.
/// A slot confirmed before with another hash is a conflict, which ends the
/// batch. Gives the recorded confirmations, whether the batch ended on a
/// conflict, and the conflicting slot.
pub open spec fn ingest_confirmed(
    known: Seq<(Slot, BlockHash)>,
    batch: Seq<(Slot, BlockHash)>,
    root: Slot,
) -> (Seq<(Slot, BlockHash)>, bool, Option<Slot>)
    decreases batch.len(),
{
    if batch.len() == 0 {
        (Seq::empty(), false, None)
    } else {
        let (added, stopped, conflict) = ingest_confirmed(known, batch.drop_last(), root);
        let (slot, hash) = batch.last();
        if stopped {
            (added, true, conflict)
        } else if slot < root {
            (added, false, None)
        } else if has_confirmed_slot(known + added, slot) {
            if (known + added).contains((slot, hash)) {
                (added, false, None)
            } else {
                (added, true, Some(slot))
            }
        } else {
            (added.push((slot, hash)), false, None)
        }
    }
}

fn find_confirmed_hash(slots: &Vec<(Slot, BlockHash)>, slot: Slot) -> (r: Option<BlockHash>)
    ensures
        match r {
            Some(h) => slots@.contains((slot, h)),
            None => !has_confirmed_slot(slots@, slot),
        },
{
    let mut i: usize = 0;
    while i < slots.len()
        invariant
            i <= slots.len(),
            forall|k: int| 0 <= k < i ==> (#[trigger] slots@[k]).0 != slot,
        decreases slots.len() - i,
    {
        if slots[i].0 == slot {
            proof {
                assert(slots@[i as int] == (slot, slots@[i as int].1));
            }
            return Some(slots[i].1);
        }
        i = i + 1;
    }
    None
}

/// Records the duplicate confirmations the cluster sent in
/// `new_confirmed_slots`, and returns the newly confirmed slots, in order. A
/// slot the cluster confirms again with another hash is an error; again with
/// the same hash, it is skipped.
pub fn process_gossip_duplicate_confirmed_slots(
    new_confirmed_slots: &Vec<(Slot, BlockHash)>,
    root: Slot,
    gossip_duplicate_confirmed_slots: &mut GossipDuplicateConfirmedSlots,
) -> (r: Result<Vec<Slot>, Slot>)
    requires
        unique_slots(old(gossip_duplicate_confirmed_slots)@),
    ensures
        ({
            let (added, _, conflict) = ingest_confirmed(
                old(gossip_duplicate_confirmed_slots)@,
                new_confirmed_slots@,
                root,
            );
            &&& final(gossip_duplicate_confirmed_slots)@ == old(gossip_duplicate_confirmed_slots)@ + added
            &&& unique_slots(final(gossip_duplicate_confirmed_slots)@)
            &&& match conflict {
                Some(slot) => r == Err::<Vec<Slot>, Slot>(slot),
                None => r is Ok && r->Ok_0@ == added.map_values(|e: (Slot, BlockHash)| e.0),
            }
        }),
{
    let ghost known = gossip_duplicate_confirmed_slots@;
    let mut newly: Vec<Slot> = Vec::new();
    let mut i: usize = 0;
    while i < new_confirmed_slots.len()
        invariant
            i <= new_confirmed_slots.len(),
            ({
                let (added, stopped, conflict) = ingest_confirmed(
                    known,
                    new_confirmed_slots@.take(i as int),
                    root,
                );
                &&& !stopped
                &&& conflict is None
                &&& gossip_duplicate_confirmed_slots@ == known + added
                &&& newly@ == added.map_values(|e: (Slot, BlockHash)| e.0)
            }),
            unique_slots(gossip_duplicate_confirmed_slots@),
            known == old(gossip_duplicate_confirmed_slots)@,
        decreases new_confirmed_slots.len() - i,
    {
        proof {
            assert(new_confirmed_slots@.take(i + 1).drop_last() == new_confirmed_slots@.take(i as int));
            assert(new_confirmed_slots@.take(i + 1).last() == new_confirmed_slots@[i as int]);
        }
        let (slot, hash) = new_confirmed_slots[i];
        if slot >= root {
            match find_confirmed_hash(gossip_duplicate_confirmed_slots, slot) {
                Some(h) => {
                    proof {
                        if h != hash {
                            let v = gossip_duplicate_confirmed_slots@;
                            if v.contains((slot, hash)) {
                                let a = choose|a: int| 0 <= a < v.len() && v[a] == (slot, h);
                                let b = choose|b: int| 0 <= b < v.len() && v[b] == (slot, hash);
                                assert(a != b);
                                if a < b {
                                    assert(v[a].0 != v[b].0);
                                } else {
                                    assert(v[b].0 != v[a].0);
                                }
                            }
                        }
                        assert(has_confirmed_slot(gossip_duplicate_confirmed_slots@, slot)) by {
                            let a = choose|a: int|
                                0 <= a < gossip_duplicate_confirmed_slots@.len()
                                    && gossip_duplicate_confirmed_slots@[a] == (slot, h);
                            assert(gossip_duplicate_confirmed_slots@[a].0 == slot);
                        }
                        if h != hash {
                            lemma_ingest_stays_stopped(known, new_confirmed_slots@, root, i + 1);
                        }
                    }
                    if h != hash {
                        return Err(slot);
                    }
                },
                None => {
                    let ghost added = ingest_confirmed(known, new_confirmed_slots@.take(i as int), root).0;
                    let ghost before = gossip_duplicate_confirmed_slots@;
                    gossip_duplicate_confirmed_slots.push((slot, hash));
                    newly.push(slot);
                    proof {
                        assert(gossip_duplicate_confirmed_slots@ =~= known + added.push((slot, hash)));
                        assert(newly@ =~= added.push((slot, hash)).map_values(|e: (Slot, BlockHash)| e.0));
                        let v = gossip_duplicate_confirmed_slots@;
                        assert forall|a: int, b: int| 0 <= a < b < v.len() implies v[a].0 != v[b].0 by {
                            if b == v.len() - 1 {
                                assert(v[a] == before[a]);
                                if v[a].0 == slot {
                                    assert(has_confirmed_slot(before, slot));
                                }
                            } else {
                                assert(v[a] == before[a] && v[b] == before[b]);
                            }
                        }
                    }
                },
            }
        }
        i = i + 1;
    }
    proof {
        assert(new_confirmed_slots@.take(i as int) == new_confirmed_slots@);
    }
    Ok(newly)
}

proof fn lemma_ingest_stays_stopped(
    known: Seq<(Slot, BlockHash)>,
    batch: Seq<(Slot, BlockHash)>,
    root: Slot,
    n: int,
)
    requires
        0 <= n <= batch.len(),
        ingest_confirmed(known, batch.take(n), root).1,
    ensures
        ingest_confirmed(known, batch, root) == ingest_confirmed(known, batch.take(n), root),
    decreases batch.len(),
{
    if n < batch.len() {
        assert(batch.drop_last().take(n) == batch.take(n));
        lemma_ingest_stays_stopped(known, batch.drop_last(), root, n);
    } else {
        assert(batch.take(n) == batch);
    }
}

/// How the partition status changes after a reset.
#[derive(Clone, Copy, Debug, PartialEq, Eq, Structural)]
pub enum PartitionEvent {
    Unchanged,
    Detected,
    Resolved,
}

/// Updates whether a partition is known to exist, given whether one is
/// detected now, and reports a change.
pub fn update_partition_status(partition_exists: &mut bool, partition_detected: bool) -> (r: PartitionEvent)
    ensures
        *final(partition_exists) == partition_detected,
        r == (if !*old(partition_exists) && partition_detected {
            PartitionEvent::Detected
        } else if *old(partition_exists) && !partition_detected {
            PartitionEvent::Resolved
        } else {
            PartitionEvent::Unchanged
        }),
{
    let was = *partition_exists;
    *partition_exists = partition_detected;
    if !was && partition_detected {
        PartitionEvent::Detected
    } else if was && !partition_detected {
        PartitionEvent::Resolved
    } else {
        PartitionEvent::Unchanged
    }
}

/// Index of the keypair, among the public keys of the authorized voter
/// keypairs at hand, that belongs to `authorized_voter`.
pub fn find_authorized_voter(authorized_voter_pubkeys: &Vec<Pubkey>, authorized_voter: Pubkey) -> (r: Option<usize>)
    ensures
        match r {
            Some(i) => i < authorized_voter_pubkeys@.len() && authorized_voter_pubkeys@[i as int] == authorized_voter
                && forall|k: int| 0 <= k < i ==> authorized_voter_pubkeys@[k] != authorized_voter,
            None => !authorized_voter_pubkeys@.contains(authorized_voter),
        },
{
    let mut i: usize = 0;
    while i < authorized_voter_pubkeys.len()
        invariant
            i <= authorized_voter_pubkeys.len(),
            forall|k: int| 0 <= k < i ==> authorized_voter_pubkeys@[k] != authorized_voter,
        decreases authorized_voter_pubkeys.len() - i,
    {
        if authorized_voter_pubkeys[i] == authorized_voter {
            return Some(i);
        }
        i = i + 1;
    }
    None
}

/// `pair` is a (parent, child) pair that `next_slots` reports.
pub open spec fn reported_child(next_slots: Seq<(Slot, Vec<Slot>)>, pair: (Slot, Slot)) -> bool {
    exists|p: int| 0 <= p < next_slots.len() && (#[trigger] next_slots[p]).0 == pair.0 && next_slots[p].1@.contains(pair.1)
}

/// The children the block store reports for frozen parents that are not yet
/// known, as (parent, child) pairs, each child once, in the order met.
pub fn new_child_slots(next_slots: &Vec<(Slot, Vec<Slot>)>, known_slots: &HashSet<Slot>) -> (r: Vec<(Slot, Slot)>)
    ensures
        forall|k: int|
            0 <= k < r@.len() ==> !known_slots@.contains(#[trigger] r@[k].1),
        forall|a: int, b: int| 0 <= a < b < r@.len() ==> r@[a].1 != r@[b].1,
        forall|p: int, c: int|
            0 <= p < next_slots@.len() && 0 <= c < next_slots@[p].1@.len() && !known_slots@.contains(
                #[trigger] next_slots@[p].1@[c],
            ) ==> exists|k: int| 0 <= k < r@.len() && #[trigger] r@[k].1 == next_slots@[p].1@[c],
        forall|k: int| 0 <= k < r@.len() ==> reported_child(next_slots@, #[trigger] r@[k]),
{
    let mut out: Vec<(Slot, Slot)> = Vec::new();
    let mut p: usize = 0;
    while p < next_slots.len()
        invariant
            p <= next_slots.len(),
            forall|k: int| 0 <= k < out@.len() ==> !known_slots@.contains(#[trigger] out@[k].1),
            forall|a: int, b: int| 0 <= a < b < out@.len() ==> out@[a].1 != out@[b].1,
            forall|q: int, c: int|
                0 <= q < p && 0 <= c < next_slots@[q].1@.len() && !known_slots@.contains(
                    #[trigger] next_slots@[q].1@[c],
                ) ==> exists|k: int| 0 <= k < out@.len() && #[trigger] out@[k].1 == next_slots@[q].1@[c],
            forall|k: int| 0 <= k < out@.len() ==> reported_child(next_slots@, #[trigger] out@[k]),
        decreases next_slots.len() - p,
    {
        let parent = next_slots[p].0;
        let children = &next_slots[p].1;
        let mut c: usize = 0;
        while c < children.len()
            invariant
                p < next_slots.len(),
                children@ == next_slots@[p as int].1@,
                parent == next_slots@[p as int].0,
                c <= children.len(),
                forall|k: int| 0 <= k < out@.len() ==> !known_slots@.contains(#[trigger] out@[k].1),
                forall|a: int, b: int| 0 <= a < b < out@.len() ==> out@[a].1 != out@[b].1,
                forall|q: int, d: int|
                    0 <= q < p && 0 <= d < next_slots@[q].1@.len() && !known_slots@.contains(
                        #[trigger] next_slots@[q].1@[d],
                    ) ==> exists|k: int| 0 <= k < out@.len() && #[trigger] out@[k].1 == next_slots@[q].1@[d],
                forall|d: int|
                    0 <= d < c && !known_slots@.contains(#[trigger] children@[d]) ==> exists|k: int|
                        0 <= k < out@.len() && #[trigger] out@[k].1 == children@[d],
                forall|k: int| 0 <= k < out@.len() ==> reported_child(next_slots@, #[trigger] out@[k]),
            decreases children.len() - c,
        {
            let child = children[c];
            if !known_slots.contains(&child) {
                let mut seen = false;
                let mut k: usize = 0;
                while k < out.len()
                    invariant
                        k <= out.len(),
                        seen <==> exists|j: int| 0 <= j < k && out@[j].1 == child,
                    decreases out.len() - k,
                {
                    if out[k].1 == child {
                        seen = true;
                    }
                    k = k + 1;
                }
                if !seen {
                    let ghost before = out@;
                    out.push((parent, child));
                    proof {
                        assert(out@[before.len() as int] == (parent, child));
                        assert(next_slots@[p as int].1@[c as int] == child);
                        assert forall|k2: int| 0 <= k2 < out@.len() implies reported_child(next_slots@, #[trigger] out@[k2]) by {
                            if k2 < before.len() {
                                assert(out@[k2] == before[k2]);
                            } else {
                                assert(next_slots@[p as int].1@.contains(child));
                                assert(reported_child(next_slots@, out@[k2]));
                            }
                        }
                        assert forall|q: int, d: int|
                            0 <= q < p && 0 <= d < next_slots@[q].1@.len() && !known_slots@.contains(
                                #[trigger] next_slots@[q].1@[d],
                            ) implies exists|k2: int| 0 <= k2 < out@.len() && #[trigger] out@[k2].1 == next_slots@[q].1@[d] by {
                            let k2 = choose|k2: int| 0 <= k2 < before.len() && #[trigger] before[k2].1 == next_slots@[q].1@[d];
                            assert(out@[k2] == before[k2]);
                        }
                        assert forall|d: int|
                            0 <= d <= c && !known_slots@.contains(#[trigger] children@[d]) implies exists|k2: int|
                                0 <= k2 < out@.len() && #[trigger] out@[k2].1 == children@[d] by {
                            if d < c {
                                let k2 = choose|k2: int| 0 <= k2 < before.len() && #[trigger] before[k2].1 == children@[d];
                                assert(out@[k2] == before[k2]);
                            } else {
                                assert(out@[before.len() as int].1 == children@[d]);
                            }
                        }
                    }
                }
            }
            c = c + 1;
        }
        p = p + 1;
    }
    out
}

/// The cluster a validator runs in.
#[derive(Clone, Copy, Debug, PartialEq, Eq, Structural)]
pub enum ClusterType {
    Testnet,
    MainnetBeta,
    Devnet,
    Development,
}

/// Slot of the test cluster from which switching votes is unlocked by default.
pub const TESTNET_UNLOCK_SWITCH_VOTE_SLOT: u64 = 21_692_256;

/// Slot of the main cluster from which switching votes is unlocked by default.
pub const MAINNET_BETA_UNLOCK_SWITCH_VOTE_SLOT: u64 = 26_752_000;

/// The slots from which switching votes is unlocked in the clusters that
/// have such a slot; the development clusters unlock from the start.
#[derive(Clone, Copy, Debug)]
pub struct UnlockSwitchVoteSlots {
    pub testnet: Slot,
    pub mainnet_beta: Slot,
}

impl Default for UnlockSwitchVoteSlots {
    fn default() -> (r: Self)
        ensures
            r.testnet == TESTNET_UNLOCK_SWITCH_VOTE_SLOT,
            r.mainnet_beta == MAINNET_BETA_UNLOCK_SWITCH_VOTE_SLOT,
    {
        UnlockSwitchVoteSlots {
            testnet: TESTNET_UNLOCK_SWITCH_VOTE_SLOT,
            mainnet_beta: MAINNET_BETA_UNLOCK_SWITCH_VOTE_SLOT,
        }
    }
}

/// The slot from which switching votes is unlocked in `cluster_type`.
pub fn get_unlock_switch_vote_slot(cluster_type: ClusterType, unlock_slots: &UnlockSwitchVoteSlots) -> (r: Slot)
    ensures
        r == match cluster_type {
            ClusterType::Development => 0,
            ClusterType::Devnet => 0,
            ClusterType::Testnet => unlock_slots.testnet,
            ClusterType::MainnetBeta => unlock_slots.mainnet_beta,
        },
{
    match cluster_type {
        ClusterType::Development => 0,
        ClusterType::Devnet => 0,
        ClusterType::Testnet => unlock_slots.testnet,
        ClusterType::MainnetBeta => unlock_slots.mainnet_beta,
    }
}

/// `a` is preferred over `b` as the heaviest fork: more stake, or the same
/// stake and a lower slot.
pub open spec fn heavier(a: (Slot, u64), b: (Slot, u64)) -> bool {
    a.1 > b.1 || (a.1 == b.1 && a.0 < b.0)
}

/// The heaviest of the candidate forks, given as (slot, subtree stake): the
/// greatest stake, and among equal stakes the lowest slot.
pub fn select_heaviest(candidates: &Vec<(Slot, u64)>) -> (r: Option<Slot>)
    ensures
        candidates@.len() == 0 <==> r is None,
        r matches Some(best) ==> exists|i: int|
            0 <= i < candidates@.len() && (#[trigger] candidates@[i]).0 == best && forall|j: int|
                0 <= j < candidates@.len() ==> !heavier(#[trigger] candidates@[j], candidates@[i]),
{
    if candidates.len() == 0 {
        return None;
    }
    let mut best: usize = 0;
    let mut i: usize = 1;
    while i < candidates.len()
        invariant
            1 <= i <= candidates.len(),
            best < i,
            forall|j: int| 0 <= j < i ==> !heavier(#[trigger] candidates@[j], candidates@[best as int]),
        decreases candidates.len() - i,
    {
        let (slot, stake) = candidates[i];
        let (best_slot, best_stake) = candidates[best];
        if stake > best_stake || (stake == best_stake && slot < best_slot) {
            best = i;
        }
        i = i + 1;
    }
    Some(candidates[best].0)
}

/// Of two candidates with the same stake, the lower slot is selected.
pub proof fn lemma_equal_stake_selects_lower_slot(a: (Slot, u64), b: (Slot, u64))
    requires
        a.1 == b.1,
        a.0 < b.0,
    ensures
        heavier(a, b),
        !heavier(b, a),
{
}

/// The latest vote of each validator on a frozen block, as seen through
/// gossip: the slot, and every frozen hash voted for at that slot.
pub struct LatestValidatorVotesForFrozenBanks {
    max_gossip_frozen_votes: HashMap<Pubkey, (Slot, Vec<BlockHash>)>,
}

/// What is recorded of a validator's latest vote.
pub open spec fn vote_record(e: (Slot, Vec<BlockHash>)) -> (Slot, Seq<BlockHash>) {
    (e.0, e.1@)
}

/// The record of a validator after it votes for `hash` at `slot`: a later
/// slot replaces the record, the same slot adds a hash not yet seen.
pub open spec fn record_after_vote(
    prev: Option<(Slot, Seq<BlockHash>)>,
    slot: Slot,
    hash: BlockHash,
) -> (Slot, Seq<BlockHash>) {
    match prev {
        None => (slot, seq![hash]),
        Some((s, hashes)) => if slot > s {
            (slot, seq![hash])
        } else if slot == s && !hashes.contains(hash) {
            (s, hashes.push(hash))
        } else {
            (s, hashes)
        },
    }
}

impl View for LatestValidatorVotesForFrozenBanks {
    type V = Map<Pubkey, (Slot, Seq<BlockHash>)>;

    closed spec fn view(&self) -> Map<Pubkey, (Slot, Seq<BlockHash>)> {
        self.max_gossip_frozen_votes@.map_values(|e: (Slot, Vec<BlockHash>)| vote_record(e))
    }
}

impl LatestValidatorVotesForFrozenBanks {
    pub fn new() -> (r: Self)
        ensures
            r@ == Map::<Pubkey, (Slot, Seq<BlockHash>)>::empty(),
    {
        let r = LatestValidatorVotesForFrozenBanks { max_gossip_frozen_votes: HashMap::new() };
        proof {
            assert(r@ =~= Map::<Pubkey, (Slot, Seq<BlockHash>)>::empty());
        }
        r
    }

    /// Slot of the latest vote recorded for `vote_pubkey`.
    pub fn latest_vote_slot(&self, vote_pubkey: &Pubkey) -> (r: Option<Slot>)
        ensures
            r == (match self@.get(*vote_pubkey) {
                Some(e) => Some(e.0),
                None => None,
            }),
    {
        match self.max_gossip_frozen_votes.get(vote_pubkey) {
            Some(e) => Some(e.0),
            None => None,
        }
    }

    /// The latest vote recorded for `vote_pubkey`.
    pub fn latest_vote(&self, vote_pubkey: &Pubkey) -> (r: Option<(Slot, Vec<BlockHash>)>)
        ensures
            match r {
                Some(e) => self@.contains_key(*vote_pubkey) && vote_record(e) == self@[*vote_pubkey],
                None => !self@.contains_key(*vote_pubkey),
            },
    {
        match self.max_gossip_frozen_votes.get(vote_pubkey) {
            Some(e) => {
                let mut hashes: Vec<BlockHash> = Vec::new();
                let mut i: usize = 0;
                while i < e.1.len()
                    invariant
                        i <= e.1.len(),
                        hashes@ == e.1@.take(i as int),
                    decreases e.1.len() - i,
                {
                    hashes.push(e.1[i]);
                    i = i + 1;
                    proof {
                        assert(hashes@ =~= e.1@.take(i as int));
                    }
                }
                proof {
                    assert(e.1@.take(i as int) =~= e.1@);
                }
                Some((e.0, hashes))
            },
            None => None,
        }
    }

    /// Records a vote by `vote_pubkey` for the frozen block `(vote_slot,
    /// frozen_hash)`. Returns whether the vote changed the record, and the
    /// slot of the validator's latest vote afterwards.
    pub fn check_add_vote(&mut self, vote_pubkey: Pubkey, vote_slot: Slot, frozen_hash: BlockHash) -> (r: (
        bool,
        Slot,
    ))
        ensures
            final(self)@ == old(self)@.insert(
                vote_pubkey,
                record_after_vote(old(self)@.get(vote_pubkey), vote_slot, frozen_hash),
            ),
            r.0 == (old(self)@.get(vote_pubkey) != Some(
                record_after_vote(old(self)@.get(vote_pubkey), vote_slot, frozen_hash),
            )),
            r.1 == record_after_vote(old(self)@.get(vote_pubkey), vote_slot, frozen_hash).0,
    {
        let ghost before = self@;
        let (changed, entry) = match self.max_gossip_frozen_votes.remove(&vote_pubkey) {
            None => {
                let mut hashes: Vec<BlockHash> = Vec::new();
                hashes.push(frozen_hash);
                (true, (vote_slot, hashes))
            },
            Some((slot, hashes)) => {
                let mut hashes = hashes;
                if vote_slot > slot {
                    let mut fresh: Vec<BlockHash> = Vec::new();
                    fresh.push(frozen_hash);
                    (true, (vote_slot, fresh))
                } else if vote_slot == slot && !contains_hash(&hashes, frozen_hash) {
                    let ghost old_hashes = hashes@;
                    hashes.push(frozen_hash);
                    proof {
                        assert(hashes@.len() != old_hashes.len());
                    }
                    (true, (slot, hashes))
                } else {
                    (false, (slot, hashes))
                }
            },
        };
        let latest = entry.0;
        self.max_gossip_frozen_votes.insert(vote_pubkey, entry);
        proof {
            assert(self@ =~= before.insert(
                vote_pubkey,
                record_after_vote(before.get(vote_pubkey), vote_slot, frozen_hash),
            ));
        }
        (changed, latest)
    }
}

fn contains_hash(hashes: &Vec<BlockHash>, hash: BlockHash) -> (r: bool)
    ensures
        r == hashes@.contains(hash),
{
    let mut i: usize = 0;
    while i < hashes.len()
        invariant
            i <= hashes.len(),
            forall|k: int| 0 <= k < i ==> hashes@[k] != hash,
        decreases hashes.len() - i,
    {
        if hashes[i] == hash {
            return true;
        }
        i = i + 1;
    }
    false
}

/// Recording the same vote twice leaves what recording it once leaves.
pub proof fn lemma_repeated_vote_absorbed(
    votes: Map<Pubkey, (Slot, Seq<BlockHash>)>,
    vote_pubkey: Pubkey,
    vote_slot: Slot,
    frozen_hash: BlockHash,
)
    ensures
        ({
            let once = votes.insert(vote_pubkey, record_after_vote(votes.get(vote_pubkey), vote_slot, frozen_hash));
            let twice = once.insert(vote_pubkey, record_after_vote(once.get(vote_pubkey), vote_slot, frozen_hash));
            &&& twice == once
            &&& record_after_vote(once.get(vote_pubkey), vote_slot, frozen_hash) == once[vote_pubkey]
        }),
{
    let once = votes.insert(vote_pubkey, record_after_vote(votes.get(vote_pubkey), vote_slot, frozen_hash));
    let rec = once[vote_pubkey];
    assert(rec.0 >= vote_slot && (rec.0 == vote_slot ==> rec.1.contains(frozen_hash))) by {
        match votes.get(vote_pubkey) {
            None => {
                assert(rec.1[0] == frozen_hash);
            },
            Some((s, hashes)) => {
                if vote_slot > s {
                    assert(rec.1[0] == frozen_hash);
                } else if vote_slot == s && !hashes.contains(frozen_hash) {
                    assert(rec.1[rec.1.len() - 1] == frozen_hash);
                } else if vote_slot == s {
                } else {
                }
            },
        }
    }
    assert(once.insert(vote_pubkey, rec) =~= once);
}

/// What the replay pass does first with an active block.
#[derive(Clone, Copy, Debug, PartialEq, Eq, Structural)]
pub enum ReplayDecision {
    /// The block is dead: leave it alone.
    Skip,
    /// Replay the block's newly available entries.
    Replay,
    /// This validator produced the block: nothing to replay, only check
    /// whether it is complete.
    CheckComplete,
}

/// Decides what to do with the active block at `slot`; `is_my_leader_bank`
/// tells whether this validator produced it.
pub fn replay_decision(progress: &ProgressMap, slot: Slot, is_my_leader_bank: bool) -> (r: ReplayDecision)
    ensures
        progress@.contains_key(slot) && progress@[slot].is_dead ==> r == ReplayDecision::Skip,
        !(progress@.contains_key(slot) && progress@[slot].is_dead) ==> r == (if is_my_leader_bank {
            ReplayDecision::CheckComplete
        } else {
            ReplayDecision::Replay
        }),
{
    match progress.is_dead(slot) {
        Some(true) => ReplayDecision::Skip,
        _ => if is_my_leader_bank {
            ReplayDecision::CheckComplete
        } else {
            ReplayDecision::Replay
        },
    }
}

/// What follows the replay of an active block.
#[derive(Clone, Copy, Debug, PartialEq, Eq, Structural)]
pub enum AfterReplay {
    /// The replay failed: the slot is now dead; the failure is serious unless
    /// the block merely had too few ticks.
    MarkDead { serious: bool },
    /// The block is complete: freeze it.
    Freeze,
    /// More entries are needed.
    NotComplete,
}

/// Acts on the outcome `result` of replaying the block at `slot`, which is
/// complete when `is_complete`.
pub fn after_replay(
    progress: &mut ProgressMap,
    slot: Slot,
    result: Result<(), crate::blockstore_processor::BlockstoreProcessorError>,
    is_complete: bool,
) -> (r: AfterReplay)
    requires
        old(progress)@.contains_key(slot),
    ensures
        match result {
            Err(e) => {
                &&& r == AfterReplay::MarkDead {
                    serious: !(e == crate::blockstore_processor::BlockstoreProcessorError::InvalidBlock(
                        crate::blockstore_processor::BlockError::TooFewTicks,
                    )),
                }
                &&& final(progress)@.dom() == old(progress)@.dom()
                &&& final(progress)@[slot].is_dead
                &&& final(progress)@[slot].fork_stats == old(progress)@[slot].fork_stats
                &&& final(progress)@[slot].propagated_stats == old(progress)@[slot].propagated_stats
                &&& forall|s: Slot| s != slot ==> #[trigger] final(progress)@.get(s) == old(progress)@.get(s)
            },
            Ok(()) => {
                &&& final(progress)@ == old(progress)@
                &&& r == (if is_complete {
                    AfterReplay::Freeze
                } else {
                    AfterReplay::NotComplete
                })
            },
        },
{
    match result {
        Err(e) => {
            let serious = mark_dead_slot(progress, slot, &e);
            AfterReplay::MarkDead { serious }
        },
        Ok(()) => if is_complete {
            AfterReplay::Freeze
        } else {
            AfterReplay::NotComplete
        },
    }
}

/// Resets block production to the reset block, unless there is none or
/// production already sits on its hash. At a reset, with a last vote, the
/// partition status is brought up to date. Gives the reset slot and how the
/// partition status changed.
pub fn reset_step(
    last_reset: BlockHash,
    reset: Option<(Slot, BlockHash)>,
    last_voted_slot: Option<Slot>,
    heaviest: Slot,
    ancestors: &HashMap<Slot, HashSet<Slot>>,
    partition_exists: &mut bool,
) -> (r: Option<(Slot, PartitionEvent)>)
    ensures
        match reset {
            None => r is None && *final(partition_exists) == *old(partition_exists),
            Some((slot, hash)) => if hash == last_reset {
                r is None && *final(partition_exists) == *old(partition_exists)
            } else {
                match last_voted_slot {
                    None => {
                        &&& r == Some((slot, PartitionEvent::Unchanged))
                        &&& *final(partition_exists) == *old(partition_exists)
                    },
                    Some(v) => {
                        let detected = partition_detected(ancestor_sets(ancestors@), v, heaviest);
                        &&& *final(partition_exists) == detected
                        &&& r == Some((
                            slot,
                            if !*old(partition_exists) && detected {
                                PartitionEvent::Detected
                            } else if *old(partition_exists) && !detected {
                                PartitionEvent::Resolved
                            } else {
                                PartitionEvent::Unchanged
                            },
                        ))
                    },
                }
            },
        },
{
    let (slot, hash) = match reset {
        None => return None,
        Some(r) => r,
    };
    if hash == last_reset {
        return None;
    }
    match last_voted_slot {
        None => Some((slot, PartitionEvent::Unchanged)),
        Some(v) => {
            let detected = is_partition_detected(ancestors, v, heaviest);
            let event = update_partition_status(partition_exists, detected);
            Some((slot, event))
        },
    }
}

/// One step of a pass of the replay loop.
#[derive(Clone, Copy, Debug, PartialEq, Eq, Structural)]
pub enum LoopStep {
    GenerateNewBankForks,
    ReplayActiveBanks,
    ProcessGossipDuplicateConfirmedSlots,
    ProcessGossipVerifiedVoteHashes,
    ProcessDuplicateSlots,
    ComputeBankStats,
    ConfirmForks,
    SelectForks,
    RefreshLastVote,
    SelectVoteAndResetForks,
    Vote,
    Reset,
    MaybeStartLeader,
    WaitForSignal,
}

/// The steps of one pass of the replay loop, in order. Duplicate signals are
/// handled only while block production holds no block; the last vote is
/// refreshed only when there is a heaviest block on the last voted fork; a
/// leader slot is considered only when production holds no block, or just
/// reset; and the pass waits for new data only when no block completed.
pub open spec fn loop_pass(
    poh_has_bank: bool,
    has_heaviest_on_same_fork: bool,
    did_reset: bool,
    did_complete_bank: bool,
) -> Seq<LoopStep> {
    seq![
        LoopStep::GenerateNewBankForks,
        LoopStep::ReplayActiveBanks,
        LoopStep::ProcessGossipDuplicateConfirmedSlots,
        LoopStep::ProcessGossipVerifiedVoteHashes,
    ] + (if poh_has_bank {
        Seq::empty()
    } else {
        seq![LoopStep::ProcessDuplicateSlots]
    }) + seq![LoopStep::ComputeBankStats, LoopStep::ConfirmForks, LoopStep::SelectForks] + (
    if has_heaviest_on_same_fork {
        seq![LoopStep::RefreshLastVote]
    } else {
        Seq::empty()
    }) + seq![LoopStep::SelectVoteAndResetForks, LoopStep::Vote, LoopStep::Reset] + (if poh_has_bank
        && !did_reset {
        Seq::empty()
    } else {
        seq![LoopStep::MaybeStartLeader]
    }) + (if did_complete_bank {
        Seq::empty()
    } else {
        seq![LoopStep::WaitForSignal]
    })
}

/// The steps of one pass, given whether block production held a block at the
/// start of the pass, whether a heaviest block on the last voted fork was
/// found, whether the pass reset block production, and whether a block completed.
pub fn pass_steps(
    poh_has_bank: bool,
    has_heaviest_on_same_fork: bool,
    did_reset: bool,
    did_complete_bank: bool,
) -> (r: Vec<LoopStep>)
    ensures
        r@ == loop_pass(poh_has_bank, has_heaviest_on_same_fork, did_reset, did_complete_bank),
{
    let mut steps: Vec<LoopStep> = Vec::new();
    steps.push(LoopStep::GenerateNewBankForks);
    steps.push(LoopStep::ReplayActiveBanks);
    steps.push(LoopStep::ProcessGossipDuplicateConfirmedSlots);
    steps.push(LoopStep::ProcessGossipVerifiedVoteHashes);
    if !poh_has_bank {
        steps.push(LoopStep::ProcessDuplicateSlots);
    }
    steps.push(LoopStep::ComputeBankStats);
    steps.push(LoopStep::ConfirmForks);
    steps.push(LoopStep::SelectForks);
    if has_heaviest_on_same_fork {
        steps.push(LoopStep::RefreshLastVote);
    }
    steps.push(LoopStep::SelectVoteAndResetForks);
    steps.push(LoopStep::Vote);
    steps.push(LoopStep::Reset);
    if !poh_has_bank || did_reset {
        steps.push(LoopStep::MaybeStartLeader);
    }
    if !did_complete_bank {
        steps.push(LoopStep::WaitForSignal);
    }
    proof {
        assert(steps@ =~= loop_pass(poh_has_bank, has_heaviest_on_same_fork, did_reset, did_complete_bank));
    }
    steps
}

/// A frozen block whose statistics are to be recorded: its slot, its hash,
/// its block height and what collecting its votes yielded.
#[derive(Clone, Copy, Debug)]
pub struct FrozenBankStats {
    pub slot: Slot,
    pub hash: BlockHash,
    pub block_height: u64,
    pub state: ComputedBankState,
}

/// The progress of a slot once the statistics of its frozen block, with hash
/// `hash`, are recorded.
pub open spec fn with_computed_stats(
    fp: ForkProgress,
    hash: BlockHash,
    block_height: u64,
    state: ComputedBankState,
) -> ForkProgress {
    ForkProgress {
        fork_stats: crate::progress_map::ForkStats {
            total_stake: state.total_stake,
            block_height,
            bank_hash: Some(hash),
            my_latest_landed_vote: state.my_latest_landed_vote,
            computed: true,
            ..fp.fork_stats
        },
        ..fp
    }
}

/// Progress, and the slots newly computed in order, after recording the
/// statistics of `banks` one after the other; a slot already computed is left alone.
pub open spec fn stats_fold(m: Map<Slot, ForkProgress>, banks: Seq<FrozenBankStats>) -> (
    Map<Slot, ForkProgress>,
    Seq<Slot>,
)
    decreases banks.len(),
{
    if banks.len() == 0 {
        (m, Seq::empty())
    } else {
        let (pm, pr) = stats_fold(m, banks.drop_last());
        let b = banks.last();
        if pm[b.slot].fork_stats.computed {
            (pm, pr)
        } else {
            (
                pm.insert(b.slot, with_computed_stats(pm[b.slot], b.hash, b.block_height, b.state)),
                pr.push(b.slot),
            )
        }
    }
}

/// Banks sorted by slot, lowest first.
pub open spec fn sorted_by_slot(banks: Seq<FrozenBankStats>) -> bool {
    forall|i: int, j: int| 0 <= i < j < banks.len() ==> banks[i].slot <= banks[j].slot
}

/// Relies on `slice::sort_by_key`, which sorts in place by the key it is given,
/// here the slot: the result is ordered by slot and holds the same banks.
#[verifier::external_body]
fn sort_by_slot(banks: &mut Vec<FrozenBankStats>)
    ensures
        final(banks)@.to_multiset() == old(banks)@.to_multiset(),
        final(banks)@.len() == old(banks)@.len(),
        sorted_by_slot(final(banks)@),
{
    banks.sort_by_key(|b| b.slot);
}

/// What recording the statistics of sorted banks does: the same slots stay
/// tracked; a slot computed before keeps its progress; every listed slot ends
/// computed; the newly computed slots are listed once each, in increasing
/// order, and are exactly the listed slots not computed before; and a newly
/// computed slot holds the hash of one of the banks at that slot.
pub proof fn lemma_stats_fold(m: Map<Slot, ForkProgress>, banks: Seq<FrozenBankStats>)
    requires
        sorted_by_slot(banks),
        forall|i: int| 0 <= i < banks.len() ==> m.contains_key(#[trigger] banks[i].slot),
    ensures
        ({
            let (fm, fr) = stats_fold(m, banks);
            &&& fm.dom() == m.dom()
            &&& forall|s: Slot| #[trigger] m.contains_key(s) && m[s].fork_stats.computed ==> fm[s] == m[s]
            &&& forall|i: int| 0 <= i < banks.len() ==> #[trigger] fm[banks[i].slot].fork_stats.computed
            &&& forall|i: int, j: int| 0 <= i < j < fr.len() ==> fr[i] < fr[j]
            &&& forall|k: int| 0 <= k < fr.len() ==> !m[#[trigger] fr[k]].fork_stats.computed
                && exists|i: int| 0 <= i < banks.len() && banks[i].slot == fr[k]
            &&& forall|i: int| 0 <= i < banks.len() && !m[#[trigger] banks[i].slot].fork_stats.computed
                ==> fr.contains(banks[i].slot)
            &&& forall|s: Slot| #[trigger] fm.contains_key(s) && !m[s].fork_stats.computed ==> (fm[s]
                == m[s] || exists|i: int|
                0 <= i < banks.len() && banks[i].slot == s && fm[s] == #[trigger] with_computed_stats(
                    m[s],
                    banks[i].hash,
                    banks[i].block_height,
                    banks[i].state,
                ))
        }),
    decreases banks.len(),
{
    if banks.len() > 0 {
        let prev = banks.drop_last();
        assert forall|i: int| 0 <= i < prev.len() implies m.contains_key(#[trigger] prev[i].slot) by {
            assert(prev[i] == banks[i]);
        }
        lemma_stats_fold(m, prev);
        let (pm, pr) = stats_fold(m, prev);
        let b = banks.last();
        let (fm, fr) = stats_fold(m, banks);
        assert(m.contains_key(b.slot)) by {
            assert(banks[banks.len() - 1] == b);
        }
        // Every slot listed so far is computed now and no later than `b`.
        assert forall|k: int| 0 <= k < pr.len() implies pm[#[trigger] pr[k]].fork_stats.computed && pr[k] <= b.slot by {
            let i = choose|i: int| 0 <= i < prev.len() && prev[i].slot == pr[k];
            assert(prev[i] == banks[i]);
            assert(pm[prev[i].slot].fork_stats.computed);
        }
        assert forall|i: int| 0 <= i < banks.len() implies #[trigger] fm[banks[i].slot].fork_stats.computed by {
            if i < banks.len() - 1 {
                assert(prev[i] == banks[i]);
                assert(pm[prev[i].slot].fork_stats.computed);
            }
        }
        assert forall|k: int| 0 <= k < fr.len() implies !m[#[trigger] fr[k]].fork_stats.computed
            && exists|i: int| 0 <= i < banks.len() && banks[i].slot == fr[k] by {
            if k < pr.len() {
                assert(fr[k] == pr[k]);
                let i = choose|i: int| 0 <= i < prev.len() && prev[i].slot == pr[k];
                assert(prev[i] == banks[i]);
            } else {
                assert(banks[banks.len() - 1].slot == fr[k]);
                if m[b.slot].fork_stats.computed {
                    assert(pm[b.slot] == m[b.slot]);
                }
            }
        }
        assert forall|i: int| 0 <= i < banks.len() && !m[#[trigger] banks[i].slot].fork_stats.computed implies fr.contains(
            banks[i].slot,
        ) by {
            if i < banks.len() - 1 {
                assert(prev[i] == banks[i]);
                assert(pr.contains(prev[i].slot));
                let k = choose|k: int| 0 <= k < pr.len() && pr[k] == prev[i].slot;
                assert(fr[k] == pr[k]);
            } else if !pm[b.slot].fork_stats.computed {
                assert(fr[fr.len() - 1] == b.slot);
            } else {
                // `b`'s slot was computed by an earlier bank of the same slot.
                assert(pm[b.slot] != m[b.slot] || m[b.slot].fork_stats.computed);
                let j = choose|j: int|
                    0 <= j < prev.len() && prev[j].slot == b.slot && pm[b.slot] == #[trigger] with_computed_stats(
                        m[b.slot],
                        prev[j].hash,
                        prev[j].block_height,
                        prev[j].state,
                    );
                assert(prev[j] == banks[j]);
                assert(!m[prev[j].slot].fork_stats.computed);
                assert(pr.contains(prev[j].slot));
            }
        }
        assert forall|s: Slot| #[trigger] fm.contains_key(s) && !m[s].fork_stats.computed implies (fm[s] == m[s]
            || exists|i: int|
            0 <= i < banks.len() && banks[i].slot == s && fm[s] == #[trigger] with_computed_stats(
                m[s],
                banks[i].hash,
                banks[i].block_height,
                banks[i].state,
            )) by {
            if s == b.slot && !pm[b.slot].fork_stats.computed {
                assert(pm[s] == m[s]) by {
                    if pm[s] != m[s] {
                        let j = choose|j: int|
                            0 <= j < prev.len() && prev[j].slot == s && pm[s] == #[trigger] with_computed_stats(
                                m[s],
                                prev[j].hash,
                                prev[j].block_height,
                                prev[j].state,
                            );
                    }
                }
                assert(banks[banks.len() - 1] == b);
            } else if pm[s] != m[s] {
                let j = choose|j: int|
                    0 <= j < prev.len() && prev[j].slot == s && pm[s] == #[trigger] with_computed_stats(
                        m[s],
                        prev[j].hash,
                        prev[j].block_height,
                        prev[j].state,
                    );
                assert(prev[j] == banks[j]);
            }
        }
    }
}

/// Sorts `frozen_banks` by slot, then records the statistics of each whose
/// slot is not yet computed, lowest slot first. Returns the slots newly
/// computed, in increasing order.
pub fn compute_bank_stats(progress: &mut ProgressMap, frozen_banks: &mut Vec<FrozenBankStats>) -> (r: Vec<Slot>)
    requires
        forall|i: int|
            0 <= i < old(frozen_banks)@.len() ==> old(progress)@.contains_key(
                #[trigger] old(frozen_banks)@[i].slot,
            ),
    ensures
        final(frozen_banks)@.to_multiset() == old(frozen_banks)@.to_multiset(),
        sorted_by_slot(final(frozen_banks)@),
        (final(progress)@, r@) == stats_fold(old(progress)@, final(frozen_banks)@),
        final(progress)@.dom() == old(progress)@.dom(),
        forall|s: Slot|
            #[trigger] old(progress)@.contains_key(s) && old(progress)@[s].fork_stats.computed
                ==> final(progress)@[s] == old(progress)@[s],
        forall|i: int| 0 <= i < final(frozen_banks)@.len() ==> #[trigger] final(progress)@[final(frozen_banks)@[i].slot].fork_stats.computed,
        forall|i: int, j: int| 0 <= i < j < r@.len() ==> r@[i] < r@[j],
        forall|k: int| 0 <= k < r@.len() ==> !old(progress)@[#[trigger] r@[k]].fork_stats.computed,
        forall|i: int|
            0 <= i < final(frozen_banks)@.len() && !old(progress)@[#[trigger] final(frozen_banks)@[i].slot].fork_stats.computed
                ==> r@.contains(final(frozen_banks)@[i].slot),
        forall|frozen_hashes: Map<Slot, BlockHash>|
            computed_hashes_match(old(progress)@, frozen_hashes) && (forall|i: int|
                0 <= i < final(frozen_banks)@.len() ==> frozen_hashes.contains_key(#[trigger] final(frozen_banks)@[i].slot)
                    && frozen_hashes[final(frozen_banks)@[i].slot] == final(frozen_banks)@[i].hash) ==> {
                &&& #[trigger] computed_hashes_match(final(progress)@, frozen_hashes)
                &&& forall|i: int| 0 <= i < final(frozen_banks)@.len() ==> #[trigger] final(progress)@[final(frozen_banks)@[i].slot].fork_stats.bank_hash
                    == Some(final(frozen_banks)@[i].hash)
            },
{
    let ghost given = frozen_banks@;
    sort_by_slot(frozen_banks);
    proof {
        assert forall|i: int| 0 <= i < frozen_banks@.len() implies old(progress)@.contains_key(#[trigger] frozen_banks@[i].slot) by {
            frozen_banks@.to_multiset_ensures();
            given.to_multiset_ensures();
            assert(frozen_banks@.contains(frozen_banks@[i]));
            assert(given.to_multiset().count(frozen_banks@[i]) > 0);
            assert(given.contains(frozen_banks@[i]));
        }
    }
    let ghost sorted = frozen_banks@;
    let mut newly: Vec<Slot> = Vec::new();
    let mut i: usize = 0;
    while i < frozen_banks.len()
        invariant
            i <= frozen_banks.len(),
            frozen_banks@ == sorted,
            forall|j: int| 0 <= j < sorted.len() ==> old(progress)@.contains_key(#[trigger] sorted[j].slot),
            (progress@, newly@) == stats_fold(old(progress)@, sorted.take(i as int)),
            stats_fold(old(progress)@, sorted.take(i as int)).0.dom() == old(progress)@.dom(),
        decreases frozen_banks.len() - i,
    {
        let bank = frozen_banks[i];
        proof {
            assert(sorted.take(i + 1).drop_last() == sorted.take(i as int));
            assert(sorted.take(i + 1).last() == bank);
            assert(old(progress)@.contains_key(sorted[i as int].slot));
        }
        let recorded = record_bank_stats(progress, bank.slot, bank.hash, bank.block_height, bank.state);
        if recorded {
            newly.push(bank.slot);
        }
        i = i + 1;
        proof {
            assert(stats_fold(old(progress)@, sorted.take(i as int)).0.dom() =~= old(progress)@.dom());
        }
    }
    proof {
        assert(sorted.take(i as int) == sorted);
        lemma_stats_fold(old(progress)@, sorted);
        let fm = progress@;
        assert forall|frozen_hashes: Map<Slot, BlockHash>|
            computed_hashes_match(old(progress)@, frozen_hashes) && (forall|j: int|
                0 <= j < sorted.len() ==> frozen_hashes.contains_key(#[trigger] sorted[j].slot)
                    && frozen_hashes[sorted[j].slot] == sorted[j].hash) implies {
                &&& #[trigger] computed_hashes_match(fm, frozen_hashes)
                &&& forall|j: int| 0 <= j < sorted.len() ==> #[trigger] fm[sorted[j].slot].fork_stats.bank_hash
                    == Some(sorted[j].hash)
            } by {
            assert forall|s: Slot| #[trigger] fm.contains_key(s) && fm[s].fork_stats.computed
                && frozen_hashes.contains_key(s) implies fm[s].fork_stats.bank_hash == Some(frozen_hashes[s]) by {
                if !old(progress)@[s].fork_stats.computed {
                    if fm[s] != old(progress)@[s] {
                        let j = choose|j: int|
                            0 <= j < sorted.len() && sorted[j].slot == s && fm[s] == #[trigger] with_computed_stats(
                                old(progress)@[s],
                                sorted[j].hash,
                                sorted[j].block_height,
                                sorted[j].state,
                            );
                        assert(frozen_hashes[sorted[j].slot] == sorted[j].hash);
                    }
                }
            }
            assert forall|j: int| 0 <= j < sorted.len() implies #[trigger] fm[sorted[j].slot].fork_stats.bank_hash
                == Some(sorted[j].hash) by {
                let s = sorted[j].slot;
                assert(fm.contains_key(s));
                assert(fm[s].fork_stats.computed);
                assert(frozen_hashes.contains_key(s) && frozen_hashes[s] == sorted[j].hash);
            }
        }
    }
    newly
}

} // verus!
