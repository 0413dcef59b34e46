//! Per-slot bookkeeping of the replay loop: replay progress, fork statistics and
//! the propagation status of the slots this validator led.
use crate::blockstore_processor::ConfirmationProgress;
use crate::{BlockHash, Pubkey, Slot, Stake};
use std::collections::{HashMap, HashSet};
use vstd::prelude::*;

verus! {

/// Sum of two amounts, clipped at the largest `u64`.
pub open spec fn clipped_sum(a: u64, b: u64) -> u64 {
    if a + b > u64::MAX {
        u64::MAX
    } else {
        (a + b) as u64
    }
}

/// A slot is propagated once strictly more than a third of the epoch stake has
/// been observed on it, or when the epoch holds no stake at all.
pub open spec fn superminority_reached(observed: u64, total: u64) -> bool {
    total == 0 || 3 * observed > total
}

/// Executable form of [`superminority_reached`].
pub fn is_superminority_reached(observed: u64, total: u64) -> (r: bool)
    ensures
        r == superminority_reached(observed, total),
{
    total == 0 || (observed as u128) * 3 > total as u128
}

/// Stake of a vote account in a stake table, zero when it is absent.
pub open spec fn stake_in(stakes: Map<Pubkey, u64>, vote: Pubkey) -> u64 {
    if stakes.contains_key(vote) {
        stakes[vote]
    } else {
        0
    }
}

/// What propagation has observed on a slot: the vote accounts, the node
/// identities and the stake of those vote accounts.
pub type Tally = (Set<Pubkey>, Set<Pubkey>, u64);

/// The tally after one vote account is observed: its stake counts only the first time.
pub open spec fn tally_vote(t: Tally, vote: Pubkey, stake: u64) -> Tally {
    if t.0.contains(vote) {
        t
    } else {
        (t.0.insert(vote), t.1, clipped_sum(t.2, stake))
    }
}

/// Observing the same vote account twice counts its stake once.
pub proof fn lemma_tally_vote_absorbs_repeat(t: Tally, vote: Pubkey, stake: u64)
    ensures
        tally_vote(tally_vote(t, vote, stake), vote, stake) == tally_vote(t, vote, stake),
{
}

/// The tally after the vote accounts `votes` are observed in order.
pub open spec fn tally_votes(t: Tally, votes: Seq<Pubkey>, stakes: Map<Pubkey, u64>) -> Tally
    decreases votes.len(),
{
    if votes.len() == 0 {
        t
    } else {
        let prev = tally_votes(t, votes.drop_last(), stakes);
        tally_vote(prev, votes.last(), stake_in(stakes, votes.last()))
    }
}

/// Stakes and node-to-vote-account links of one epoch, as seen by a block.
pub struct EpochStakes {
    /// Stake delegated to each vote account.
    pub vote_account_stakes: HashMap<Pubkey, u64>,
    /// The vote accounts that each node identity operates.
    pub node_vote_accounts: HashMap<Pubkey, Vec<Pubkey>>,
    /// Total stake of the epoch.
    pub total_stake: u64,
}

impl EpochStakes {
    pub open spec fn stakes(&self) -> Map<Pubkey, u64> {
        self.vote_account_stakes@
    }

    /// The tally after node identity `node` is observed: its vote accounts are
    /// added the first time a known node is seen.
    pub open spec fn tally_node(&self, t: Tally, node: Pubkey) -> Tally {
        if t.1.contains(node) || !self.node_vote_accounts@.contains_key(node) {
            t
        } else {
            tally_votes(
                (t.0, t.1.insert(node), t.2),
                self.node_vote_accounts@[node]@,
                self.stakes(),
            )
        }
    }

    /// Stake of `vote` in this epoch, zero when it holds none.
    pub fn epoch_vote_account_stake(&self, vote: &Pubkey) -> (r: u64)
        ensures
            r == stake_in(self.stakes(), *vote),
    {
        match self.vote_account_stakes.get(vote) {
            Some(s) => *s,
            None => 0,
        }
    }
}

/// The stake this validator holds when it leads a slot.
#[derive(Clone, Copy, Debug)]
pub struct ValidatorStakeInfo {
    pub validator_vote_pubkey: Pubkey,
    pub stake: u64,
    pub total_epoch_stake: u64,
}

impl ValidatorStakeInfo {
    pub fn new(validator_vote_pubkey: Pubkey, stake: u64, total_epoch_stake: u64) -> (r: Self)
        ensures
            r == (ValidatorStakeInfo { validator_vote_pubkey, stake, total_epoch_stake }),
    {
        ValidatorStakeInfo { validator_vote_pubkey, stake, total_epoch_stake }
    }
}

impl Default for ValidatorStakeInfo {
    fn default() -> (r: Self)
        ensures
            r == (ValidatorStakeInfo { validator_vote_pubkey: 0, stake: 0, total_epoch_stake: 1 }),
    {
        ValidatorStakeInfo { validator_vote_pubkey: 0, stake: 0, total_epoch_stake: 1 }
    }
}

/// Statistics computed for a frozen slot from the votes it holds.
#[derive(Clone, Copy, Debug)]
pub struct ForkStats {
    pub weight: u128,
    pub fork_weight: u128,
    pub total_stake: Stake,
    pub block_height: u64,
    pub has_voted: bool,
    pub is_recent: bool,
    pub is_empty: bool,
    pub vote_threshold: bool,
    pub is_locked_out: bool,
    pub is_supermajority_confirmed: bool,
    pub computed: bool,
    pub bank_hash: Option<BlockHash>,
    pub my_latest_landed_vote: Option<Slot>,
}

/// Statistics of a slot before anything has been computed for it.
pub open spec fn initial_fork_stats() -> ForkStats {
    ForkStats {
        weight: 0,
        fork_weight: 0,
        total_stake: 0,
        block_height: 0,
        has_voted: false,
        is_recent: false,
        is_empty: false,
        vote_threshold: false,
        is_locked_out: false,
        is_supermajority_confirmed: false,
        computed: false,
        bank_hash: None,
        my_latest_landed_vote: None,
    }
}

impl Default for ForkStats {
    fn default() -> (r: Self)
        ensures
            r == initial_fork_stats(),
    {
        ForkStats {
            weight: 0,
            fork_weight: 0,
            total_stake: 0,
            block_height: 0,
            has_voted: false,
            is_recent: false,
            is_empty: false,
            vote_threshold: false,
            is_locked_out: false,
            is_supermajority_confirmed: false,
            computed: false,
            bank_hash: None,
            my_latest_landed_vote: None,
        }
    }
}

/// Propagation status of a slot: who has been observed on it, and the link to
/// the latest earlier slot this validator led.
pub struct PropagatedStats {
    pub propagated_validators: HashSet<Pubkey>,
    pub propagated_node_ids: HashSet<Pubkey>,
    pub propagated_validators_stake: u64,
    pub is_propagated: bool,
    pub is_leader_slot: bool,
    pub prev_leader_slot: Option<Slot>,
    pub total_epoch_stake: u64,
}

impl Default for PropagatedStats {
    fn default() -> (r: Self)
        ensures
            r.propagated_validators@ == Set::<Pubkey>::empty(),
            r.propagated_node_ids@ == Set::<Pubkey>::empty(),
            r.propagated_validators_stake == 0,
            !r.is_propagated,
            !r.is_leader_slot,
            r.prev_leader_slot is None,
            r.total_epoch_stake == 0,
    {
        PropagatedStats {
            propagated_validators: HashSet::new(),
            propagated_node_ids: HashSet::new(),
            propagated_validators_stake: 0,
            is_propagated: false,
            is_leader_slot: false,
            prev_leader_slot: None,
            total_epoch_stake: 0,
        }
    }
}

impl PropagatedStats {
    /// What has been observed on this slot.
    pub open spec fn tally(&self) -> Tally {
        (self.propagated_validators@, self.propagated_node_ids@, self.propagated_validators_stake)
    }

    /// The fields other than the tally are the same in both.
    pub open spec fn same_flags(&self, other: &PropagatedStats) -> bool {
        &&& self.is_propagated == other.is_propagated
        &&& self.is_leader_slot == other.is_leader_slot
        &&& self.prev_leader_slot == other.prev_leader_slot
        &&& self.total_epoch_stake == other.total_epoch_stake
    }

    /// Records that vote account `vote_pubkey`, holding `stake`, has been seen on
    /// this slot; its stake counts once however often it is recorded.
    pub fn add_vote_pubkey(&mut self, vote_pubkey: Pubkey, stake: u64)
        ensures
            final(self).tally() == tally_vote(old(self).tally(), vote_pubkey, stake),
            final(self).same_flags(old(self)),
    {
        if self.propagated_validators.insert(vote_pubkey) {
            self.propagated_validators_stake = self.propagated_validators_stake.saturating_add(
                stake,
            );
        }
    }

    /// Records node identity `node_pubkey` and each vote account it operates,
    /// with the stakes of `epoch_vote_accounts`.
    pub fn add_node_pubkey_internal(
        &mut self,
        node_pubkey: &Pubkey,
        vote_account_pubkeys: &Vec<Pubkey>,
        epoch_vote_accounts: &HashMap<Pubkey, u64>,
    )
        ensures
            final(self).tally() == tally_votes(
                (old(self).tally().0, old(self).tally().1.insert(*node_pubkey), old(self).tally().2),
                vote_account_pubkeys@,
                epoch_vote_accounts@,
            ),
            final(self).same_flags(old(self)),
    {
        self.propagated_node_ids.insert(*node_pubkey);
        let ghost start = self.tally();
        let mut i: usize = 0;
        while i < vote_account_pubkeys.len()
            invariant
                i <= vote_account_pubkeys.len(),
                start == (old(self).tally().0, old(self).tally().1.insert(*node_pubkey), old(self).tally().2),
                self.tally() == tally_votes(start, vote_account_pubkeys@.take(i as int), epoch_vote_accounts@),
                self.same_flags(old(self)),
            decreases vote_account_pubkeys.len() - i,
        {
            let vote = vote_account_pubkeys[i];
            let stake = match epoch_vote_accounts.get(&vote) {
                Some(s) => *s,
                None => 0,
            };
            self.add_vote_pubkey(vote, stake);
            proof {
                let next = vote_account_pubkeys@.take(i + 1);
                assert(next.drop_last() == vote_account_pubkeys@.take(i as int));
                assert(next.last() == vote);
            }
            i = i + 1;
        }
        proof {
            assert(vote_account_pubkeys@.take(i as int) == vote_account_pubkeys@);
        }
    }

    /// Records node identity `node_pubkey`, seen on this slot, with the vote
    /// accounts it operates in `epoch`; a node already recorded, or unknown to
    /// the epoch, changes nothing.
    pub fn add_node_pubkey(&mut self, node_pubkey: &Pubkey, epoch: &EpochStakes)
        ensures
            final(self).tally() == epoch.tally_node(old(self).tally(), *node_pubkey),
            final(self).same_flags(old(self)),
    {
        if !self.propagated_node_ids.contains(node_pubkey) {
            match epoch.node_vote_accounts.get(node_pubkey) {
                Some(votes) => {
                    self.add_node_pubkey_internal(node_pubkey, votes, &epoch.vote_account_stakes);
                },
                None => {},
            }
        }
    }
}

/// Everything the replay loop tracks about one slot that is not yet rooted.
pub struct ForkProgress {
    pub is_dead: bool,
    pub fork_stats: ForkStats,
    pub propagated_stats: PropagatedStats,
    pub replay_progress: ConfirmationProgress,
    pub num_blocks_on_fork: u64,
    pub num_dropped_blocks_on_fork: u64,
}

impl ForkProgress {
    /// Progress of a slot that has just been created. When `validator_stake_info`
    /// is given the slot is one this validator leads, and its own stake counts
    /// towards propagation from the start.
    pub fn new(
        last_entry: BlockHash,
        prev_leader_slot: Option<Slot>,
        validator_stake_info: Option<ValidatorStakeInfo>,
        num_blocks_on_fork: u64,
        num_dropped_blocks_on_fork: u64,
    ) -> (r: Self)
        ensures
            !r.is_dead,
            r.fork_stats == initial_fork_stats(),
            r.replay_progress == ConfirmationProgress::new_spec(last_entry),
            r.num_blocks_on_fork == num_blocks_on_fork,
            r.num_dropped_blocks_on_fork == num_dropped_blocks_on_fork,
            r.propagated_stats.prev_leader_slot == prev_leader_slot,
            r.propagated_stats.propagated_node_ids@ == Set::<Pubkey>::empty(),
            match validator_stake_info {
                Some(info) => {
                    &&& r.propagated_stats.is_leader_slot
                    &&& r.propagated_stats.propagated_validators@ == set![info.validator_vote_pubkey]
                    &&& r.propagated_stats.propagated_validators_stake == info.stake
                    &&& r.propagated_stats.total_epoch_stake == info.total_epoch_stake
                    &&& r.propagated_stats.is_propagated == superminority_reached(
                        info.stake,
                        info.total_epoch_stake,
                    )
                },
                None => {
                    &&& !r.propagated_stats.is_leader_slot
                    &&& r.propagated_stats.propagated_validators@ == Set::<Pubkey>::empty()
                    &&& r.propagated_stats.propagated_validators_stake == 0
                    &&& r.propagated_stats.total_epoch_stake == 0
                    &&& !r.propagated_stats.is_propagated
                },
            },
    {
        let mut propagated_validators: HashSet<Pubkey> = HashSet::new();
        let (is_leader_slot, propagated_validators_stake, is_propagated, total_epoch_stake) =
            match validator_stake_info {
            Some(info) => {
                propagated_validators.insert(info.validator_vote_pubkey);
                proof {
                    assert(propagated_validators@ == set![info.validator_vote_pubkey]);
                }
                (
                    true,
                    info.stake,
                    is_superminority_reached(info.stake, info.total_epoch_stake),
                    info.total_epoch_stake,
                )
            },
            None => (false, 0, false, 0),
        };
        ForkProgress {
            is_dead: false,
            fork_stats: ForkStats::default(),
            replay_progress: ConfirmationProgress::new(last_entry),
            num_blocks_on_fork,
            num_dropped_blocks_on_fork,
            propagated_stats: PropagatedStats {
                propagated_validators,
                propagated_node_ids: HashSet::new(),
                propagated_validators_stake,
                is_propagated,
                is_leader_slot,
                prev_leader_slot,
                total_epoch_stake,
            },
        }
    }

    /// Progress of a newly created block: the slot is a leader slot of this
    /// validator exactly when the block's producer is `validator_identity`, and
    /// then the stake of `validator_vote_pubkey` in `epoch` counts from the start.
    pub fn new_from_bank(
        collector_id: &Pubkey,
        last_blockhash: BlockHash,
        epoch: &EpochStakes,
        validator_identity: &Pubkey,
        validator_vote_pubkey: &Pubkey,
        prev_leader_slot: Option<Slot>,
        num_blocks_on_fork: u64,
        num_dropped_blocks_on_fork: u64,
    ) -> (r: Self)
        ensures
            !r.is_dead,
            r.fork_stats == initial_fork_stats(),
            r.replay_progress == ConfirmationProgress::new_spec(last_blockhash),
            r.num_blocks_on_fork == num_blocks_on_fork,
            r.num_dropped_blocks_on_fork == num_dropped_blocks_on_fork,
            r.propagated_stats.prev_leader_slot == prev_leader_slot,
            r.propagated_stats.is_leader_slot == (*collector_id == *validator_identity),
            *collector_id == *validator_identity ==> {
                &&& r.propagated_stats.propagated_validators@ == set![*validator_vote_pubkey]
                &&& r.propagated_stats.propagated_validators_stake == stake_in(
                    epoch.stakes(),
                    *validator_vote_pubkey,
                )
                &&& r.propagated_stats.total_epoch_stake == epoch.total_stake
                &&& r.propagated_stats.is_propagated == superminority_reached(
                    stake_in(epoch.stakes(), *validator_vote_pubkey),
                    epoch.total_stake,
                )
            },
            *collector_id != *validator_identity ==> {
                &&& r.propagated_stats.propagated_validators@ == Set::<Pubkey>::empty()
                &&& r.propagated_stats.propagated_validators_stake == 0
                &&& r.propagated_stats.total_epoch_stake == 0
                &&& !r.propagated_stats.is_propagated
            },
            r.propagated_stats.propagated_node_ids@ == Set::<Pubkey>::empty(),
    {
        let validator_stake_info = if *collector_id == *validator_identity {
            Some(
                ValidatorStakeInfo::new(
                    *validator_vote_pubkey,
                    epoch.epoch_vote_account_stake(validator_vote_pubkey),
                    epoch.total_stake,
                ),
            )
        } else {
            None
        };
        Self::new(
            last_blockhash,
            prev_leader_slot,
            validator_stake_info,
            num_blocks_on_fork,
            num_dropped_blocks_on_fork,
        )
    }
}

/// Every leader link points to an earlier slot.
pub open spec fn leader_links_descend(m: Map<Slot, ForkProgress>) -> bool {
    forall|s: Slot|
        #![trigger m[s]]
        m.contains_key(s) ==> match m[s].propagated_stats.prev_leader_slot {
            Some(p) => p < s,
            None => true,
        }
}

/// The latest slot at or before `slot` that this validator led, as `m` records it.
pub open spec fn latest_leader_slot_of(m: Map<Slot, ForkProgress>, slot: Slot) -> Option<Slot> {
    if m[slot].propagated_stats.is_leader_slot {
        Some(slot)
    } else {
        m[slot].propagated_stats.prev_leader_slot
    }
}

/// Whether the latest leader slot at or before `slot` has propagated; a
/// leader slot that is no longer tracked is rooted, and counts as propagated.
pub open spec fn is_propagated_in(m: Map<Slot, ForkProgress>, slot: Slot) -> bool {
    match latest_leader_slot_of(m, slot) {
        Some(l) => !m.contains_key(l) || m[l].propagated_stats.is_propagated,
        None => true,
    }
}

/// `new` differs from `old` only in the propagation tallies and flags: the same
/// slots are tracked, with the same fork statistics and leader links, and no
/// slot that had propagated stops being propagated.
pub open spec fn propagation_advanced(old: Map<Slot, ForkProgress>, new: Map<Slot, ForkProgress>) -> bool {
    &&& new.dom() == old.dom()
    &&& forall|s: Slot|
        #![trigger new[s]]
        old.contains_key(s) ==> {
            &&& new[s].is_dead == old[s].is_dead
            &&& new[s].fork_stats == old[s].fork_stats
            &&& new[s].replay_progress == old[s].replay_progress
            &&& new[s].propagated_stats.is_leader_slot == old[s].propagated_stats.is_leader_slot
            &&& new[s].propagated_stats.prev_leader_slot == old[s].propagated_stats.prev_leader_slot
            &&& (old[s].propagated_stats.is_propagated ==> new[s].propagated_stats.is_propagated)
        }
}

/// Progress of every slot that is neither rooted away nor purged, by slot.
pub struct ProgressMap {
    progress_map: HashMap<Slot, ForkProgress>,
}

impl View for ProgressMap {
    type V = Map<Slot, ForkProgress>;

    closed spec fn view(&self) -> Map<Slot, ForkProgress> {
        self.progress_map@
    }
}

impl Default for ProgressMap {
    fn default() -> (r: Self)
        ensures
            r@ == Map::<Slot, ForkProgress>::empty(),
    {
        ProgressMap { progress_map: HashMap::new() }
    }
}

impl ProgressMap {
    /// Number of tracked slots.
    pub fn len(&self) -> (r: usize)
        ensures
            r == self@.len(),
    {
        self.progress_map.len()
    }

    /// Tracks `fork_progress` for `slot`, replacing what was tracked before.
    pub fn insert(&mut self, slot: Slot, fork_progress: ForkProgress)
        ensures
            final(self)@ == old(self)@.insert(slot, fork_progress),
    {
        self.progress_map.insert(slot, fork_progress);
    }

    /// Stops tracking `slot`, handing back what was tracked for it.
    pub fn remove(&mut self, slot: Slot) -> (r: Option<ForkProgress>)
        ensures
            final(self)@ == old(self)@.remove(slot),
            r == (if old(self)@.contains_key(slot) {
                Some(old(self)@[slot])
            } else {
                None
            }),
    {
        self.progress_map.remove(&slot)
    }

    pub fn get(&self, slot: Slot) -> (r: Option<&ForkProgress>)
        ensures
            r == (if self@.contains_key(slot) {
                Some(&self@[slot])
            } else {
                None
            }),
    {
        self.progress_map.get(&slot)
    }

    pub fn contains_key(&self, slot: Slot) -> (r: bool)
        ensures
            r == self@.contains_key(slot),
    {
        self.progress_map.contains_key(&slot)
    }

    pub fn get_propagated_stats(&self, slot: Slot) -> (r: Option<&PropagatedStats>)
        ensures
            r == (if self@.contains_key(slot) {
                Some(&self@[slot].propagated_stats)
            } else {
                None
            }),
    {
        match self.progress_map.get(&slot) {
            Some(p) => Some(&p.propagated_stats),
            None => None,
        }
    }

    pub fn get_fork_stats(&self, slot: Slot) -> (r: Option<&ForkStats>)
        ensures
            r == (if self@.contains_key(slot) {
                Some(&self@[slot].fork_stats)
            } else {
                None
            }),
    {
        match self.progress_map.get(&slot) {
            Some(p) => Some(&p.fork_stats),
            None => None,
        }
    }

    pub fn is_dead(&self, slot: Slot) -> (r: Option<bool>)
        ensures
            r == (if self@.contains_key(slot) {
                Some(self@[slot].is_dead)
            } else {
                None
            }),
    {
        match self.progress_map.get(&slot) {
            Some(p) => Some(p.is_dead),
            None => None,
        }
    }

    /// BlockHash of the frozen block at `slot`, once its statistics are computed.
    pub fn get_hash(&self, slot: Slot) -> (r: Option<BlockHash>)
        ensures
            r == (if self@.contains_key(slot) {
                self@[slot].fork_stats.bank_hash
            } else {
                None
            }),
    {
        match self.progress_map.get(&slot) {
            Some(p) => p.fork_stats.bank_hash,
            None => None,
        }
    }

    /// The latest slot at or before `slot` that this validator led.
    pub fn get_latest_leader_slot(&self, slot: Slot) -> (r: Option<Slot>)
        requires
            self@.contains_key(slot),
        ensures
            r == latest_leader_slot_of(self@, slot),
    {
        let p = self.progress_map.get(&slot).unwrap();
        if p.propagated_stats.is_leader_slot {
            Some(slot)
        } else {
            p.propagated_stats.prev_leader_slot
        }
    }

    /// Whether the latest leader slot at or before `slot` has propagated.
    pub fn is_propagated(&self, slot: Slot) -> (r: bool)
        requires
            self@.contains_key(slot),
        ensures
            r == is_propagated_in(self@, slot),
    {
        match self.get_latest_leader_slot(slot) {
            Some(leader_slot) => match self.progress_map.get(&leader_slot) {
                Some(p) => p.propagated_stats.is_propagated,
                None => true,
            },
            None => true,
        }
    }

    pub fn my_latest_landed_vote(&self, slot: Slot) -> (r: Option<Slot>)
        ensures
            r == (if self@.contains_key(slot) {
                self@[slot].fork_stats.my_latest_landed_vote
            } else {
                None
            }),
    {
        match self.progress_map.get(&slot) {
            Some(p) => p.fork_stats.my_latest_landed_vote,
            None => None,
        }
    }

    /// Marks `slot` as confirmed by a supermajority; once set the mark is never cleared.
    pub fn set_supermajority_confirmed_slot(&mut self, slot: Slot)
        requires
            old(self)@.contains_key(slot),
        ensures
            final(self)@.dom() == old(self)@.dom(),
            final(self)@[slot].fork_stats.is_supermajority_confirmed,
            final(self)@[slot].fork_stats == (ForkStats {
                is_supermajority_confirmed: true,
                ..old(self)@[slot].fork_stats
            }),
            final(self)@[slot].propagated_stats == old(self)@[slot].propagated_stats,
            final(self)@[slot].is_dead == old(self)@[slot].is_dead,
            forall|s: Slot| s != slot ==> #[trigger] final(self)@.get(s) == old(self)@.get(s),
    {
        let mut p = self.progress_map.remove(&slot).unwrap();
        p.fork_stats.is_supermajority_confirmed = true;
        self.progress_map.insert(slot, p);
    }

    pub fn is_supermajority_confirmed(&self, slot: Slot) -> (r: Option<bool>)
        ensures
            r == (if self@.contains_key(slot) {
                Some(self@[slot].fork_stats.is_supermajority_confirmed)
            } else {
                None
            }),
    {
        match self.progress_map.get(&slot) {
            Some(p) => Some(p.fork_stats.is_supermajority_confirmed),
            None => None,
        }
    }

    /// The leader link of a new block whose parent is `parent_slot`: the latest
    /// slot at or before the parent that this validator led.
    pub fn get_bank_prev_leader_slot(&self, parent_slot: Slot) -> (r: Option<Slot>)
        ensures
            r == (if self@.contains_key(parent_slot) {
                latest_leader_slot_of(self@, parent_slot)
            } else {
                None
            }),
    {
        if self.progress_map.contains_key(&parent_slot) {
            self.get_latest_leader_slot(parent_slot)
        } else {
            None
        }
    }

    /// Keeps only the slots that remain in the block tree after a new root,
    /// `live_slots`; everything else is dropped.
    pub fn handle_new_root(&mut self, live_slots: &Vec<Slot>)
        ensures
            final(self)@ == old(self)@.restrict(live_slots@.to_set()),
    {
        let mut kept: HashMap<Slot, ForkProgress> = HashMap::new();
        let mut i: usize = 0;
        while i < live_slots.len()
            invariant
                i <= live_slots.len(),
                kept@ == old(self)@.restrict(live_slots@.take(i as int).to_set()),
                self.progress_map@ == old(self)@.remove_keys(live_slots@.take(i as int).to_set()),
            decreases live_slots.len() - i,
        {
            let s = live_slots[i];
            let ghost prev = live_slots@.take(i as int);
            proof {
                assert(live_slots@.take(i + 1) =~= prev + seq![s]);
                Seq::lemma_to_set_insert_commutes(prev, s);
            }
            match self.progress_map.remove(&s) {
                Some(p) => {
                    kept.insert(s, p);
                },
                None => {},
            }
            i = i + 1;
            proof {
                assert(live_slots@.take(i as int).to_set() == prev.to_set().insert(s));
                assert(kept@ =~= old(self)@.restrict(live_slots@.take(i as int).to_set()));
                assert(self.progress_map@ =~= old(self)@.remove_keys(
                    live_slots@.take(i as int).to_set(),
                ));
            }
        }
        proof {
            assert(live_slots@.take(i as int) == live_slots@);
        }
        self.progress_map = kept;
    }

    /// Marks the replay of `slot` as failed. The entry stays: a dead slot is
    /// still needed when the cluster later confirms one of its versions.
    pub fn mark_dead(&mut self, slot: Slot)
        requires
            old(self)@.contains_key(slot),
        ensures
            final(self)@.dom() == old(self)@.dom(),
            final(self)@[slot].is_dead,
            final(self)@[slot].fork_stats == old(self)@[slot].fork_stats,
            final(self)@[slot].propagated_stats == old(self)@[slot].propagated_stats,
            forall|s: Slot| s != slot ==> #[trigger] final(self)@.get(s) == old(self)@.get(s),
    {
        let mut p = self.progress_map.remove(&slot).unwrap();
        p.is_dead = true;
        self.progress_map.insert(slot, p);
    }
}

} // verus!
