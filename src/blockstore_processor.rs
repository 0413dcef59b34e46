//! Block-structure checks and bookkeeping used while replaying the entries of
//! a slot, and the search for a root confirmed by the cluster.
use crate::{BlockHash, Pubkey, Signature, Slot};
use std::collections::HashMap;
use rand::seq::SliceRandom;
use vstd::prelude::*;

verus! {

/// Why a transaction failed.
#[derive(Clone, Copy, Debug, PartialEq, Eq, Structural)]
pub enum TransactionError {
    AccountInUse,
    AccountLoadedTwice,
    AccountNotFound,
    AlreadyProcessed,
    BlockhashNotFound,
    InsufficientFundsForFee,
    InvalidAccountForFee,
    SignatureFailure,
    /// An instruction failed: its index and the program's error code.
    InstructionError(u8, u32),
}

/// Why a block is malformed.
#[derive(Clone, Copy, Debug, PartialEq, Eq, Structural)]
pub enum BlockError {
    /// The block does not end where its ticks say it should.
    Incomplete,
    /// A hash in the proof-of-history chain does not follow from the one before.
    InvalidEntryHash,
    /// The last tick was reached but the slot is not marked full.
    InvalidLastTick,
    /// A tick does not carry the expected number of hashes.
    InvalidTickHashCount,
    /// The slot is full but holds fewer ticks than it should.
    TooFewTicks,
    /// The slot holds more ticks than it should.
    TooManyTicks,
    /// A non-tick entry follows the last tick.
    TrailingEntry,
}

/// Why replaying or loading blocks failed.
#[derive(Clone, Copy, Debug, PartialEq, Eq, Structural)]
pub enum BlockstoreProcessorError {
    FailedToLoadEntries,
    FailedToLoadMeta,
    InvalidBlock(BlockError),
    InvalidTransaction(TransactionError),
    NoValidForksFound,
    InvalidHardFork(Slot),
    RootBankWithMismatchedCapitalization(Slot),
}

impl BlockstoreProcessorError {
    /// Every failure but too few ticks is serious: a leader may abandon a
    /// block it is producing, which leaves it short of ticks.
    pub fn is_serious(&self) -> (r: bool)
        ensures
            r == !(*self == BlockstoreProcessorError::InvalidBlock(BlockError::TooFewTicks)),
    {
        match self {
            BlockstoreProcessorError::InvalidBlock(BlockError::TooFewTicks) => false,
            _ => true,
        }
    }
}

/// A signed transaction, with the accounts it writes and reads.
#[derive(Clone, Debug)]
pub struct Transaction {
    pub signature: Signature,
    pub writable_accounts: Vec<Pubkey>,
    pub readonly_accounts: Vec<Pubkey>,
}

/// An entry of the ledger: a tick when it holds no transactions.
#[derive(Clone, Debug)]
pub struct Entry {
    /// Hashes computed since the previous entry.
    pub num_hashes: u64,
    /// The proof-of-history hash after this entry.
    pub hash: BlockHash,
    pub transactions: Vec<Transaction>,
}

impl Entry {
    pub open spec fn is_tick_spec(&self) -> bool {
        self.transactions@.len() == 0
    }

    pub fn is_tick(&self) -> (r: bool)
        ensures
            r == self.is_tick_spec(),
    {
        self.transactions.len() == 0
    }
}

/// The first error among `results`, in order, or success when there is none.
pub open spec fn first_err_spec(results: Seq<Result<(), TransactionError>>) -> Result<(), TransactionError>
    decreases results.len(),
{
    if results.len() == 0 {
        Ok(())
    } else if results[0] is Err {
        results[0]
    } else {
        first_err_spec(results.skip(1))
    }
}

pub fn first_err(results: &Vec<Result<(), TransactionError>>) -> (r: Result<(), TransactionError>)
    ensures
        r == first_err_spec(results@),
{
    let mut i: usize = 0;
    proof {
        assert(results@.skip(0) =~= results@);
    }
    while i < results.len()
        invariant
            i <= results.len(),
            first_err_spec(results@) == first_err_spec(results@.skip(i as int)),
        decreases results.len() - i,
    {
        proof {
            assert(results@.skip(i as int).skip(1) =~= results@.skip(i + 1));
        }
        if results[i].is_err() {
            return results[i];
        }
        i = i + 1;
    }
    proof {
        assert(results@.skip(i as int).len() == 0);
    }
    Ok(())
}

/// The first failed result of a batch, paired with the signature of its
/// transaction; results beyond the last transaction are not looked at.
pub open spec fn first_error_with_signature(
    results: Seq<Result<(), TransactionError>>,
    signatures: Seq<Signature>,
) -> Option<(Result<(), TransactionError>, Signature)>
    decreases results.len(),
{
    if results.len() == 0 || signatures.len() == 0 {
        None
    } else if results[0] is Err {
        Some((results[0], signatures[0]))
    } else {
        first_error_with_signature(results.skip(1), signatures.skip(1))
    }
}

pub fn get_first_error(
    signatures: &Vec<Signature>,
    fee_collection_results: Vec<Result<(), TransactionError>>,
) -> (r: Option<(Result<(), TransactionError>, Signature)>)
    ensures
        r == first_error_with_signature(fee_collection_results@, signatures@),
{
    let mut i: usize = 0;
    proof {
        assert(fee_collection_results@.skip(0) =~= fee_collection_results@);
        assert(signatures@.skip(0) =~= signatures@);
    }
    while i < fee_collection_results.len() && i < signatures.len()
        invariant
            i <= fee_collection_results.len(),
            i <= signatures.len(),
            first_error_with_signature(fee_collection_results@, signatures@)
                == first_error_with_signature(
                fee_collection_results@.skip(i as int),
                signatures@.skip(i as int),
            ),
        decreases fee_collection_results.len() - i,
    {
        proof {
            assert(fee_collection_results@.skip(i as int).skip(1) =~= fee_collection_results@.skip(
                i + 1,
            ));
            assert(signatures@.skip(i as int).skip(1) =~= signatures@.skip(i + 1));
        }
        if fee_collection_results[i].is_err() {
            return Some((fee_collection_results[i], signatures[i]));
        }
        i = i + 1;
    }
    None
}

/// How far the replay of one slot has advanced.
#[derive(Clone, Copy, Debug, Default)]
pub struct ConfirmationProgress {
    pub last_entry: BlockHash,
    pub tick_hash_count: u64,
    pub num_shreds: u64,
    pub num_entries: usize,
    pub num_txs: usize,
}

impl ConfirmationProgress {
    pub open spec fn new_spec(last_entry: BlockHash) -> ConfirmationProgress {
        ConfirmationProgress { last_entry, tick_hash_count: 0, num_shreds: 0, num_entries: 0, num_txs: 0 }
    }

    /// Progress of a slot of which nothing has been replayed yet, chained to `last_entry`.
    pub fn new(last_entry: BlockHash) -> (r: Self)
        ensures
            r == Self::new_spec(last_entry),
    {
        ConfirmationProgress { last_entry, tick_hash_count: 0, num_shreds: 0, num_entries: 0, num_txs: 0 }
    }

    /// The progress after `entries`, loaded from `num_shreds` shreds, were replayed.
    pub open spec fn after_spec(self, entries: Seq<Entry>, num_shreds: u64) -> ConfirmationProgress {
        ConfirmationProgress {
            last_entry: if entries.len() == 0 {
                self.last_entry
            } else {
                entries.last().hash
            },
            tick_hash_count: self.tick_hash_count,
            num_shreds: (self.num_shreds + num_shreds) as u64,
            num_entries: (self.num_entries + entries.len()) as usize,
            num_txs: (self.num_txs + total_transactions(entries)) as usize,
        }
    }

    /// Advances the progress past `entries`, which were replayed successfully
    /// and were loaded from `num_shreds` shreds.
    pub fn record_replayed_entries(&mut self, entries: &Vec<Entry>, num_shreds: u64)
        requires
            old(self).num_shreds + num_shreds <= u64::MAX,
            old(self).num_entries + entries@.len() <= usize::MAX,
            old(self).num_txs + total_transactions(entries@) <= usize::MAX,
        ensures
            *final(self) == old(self).after_spec(entries@, num_shreds),
    {
        let mut num_txs: usize = 0;
        let mut i: usize = 0;
        while i < entries.len()
            invariant
                i <= entries.len(),
                num_txs == total_transactions(entries@.take(i as int)),
                old(self).num_txs + total_transactions(entries@) <= usize::MAX,
            decreases entries.len() - i,
        {
            proof {
                assert(entries@.take(i + 1).drop_last() == entries@.take(i as int));
                lemma_total_transactions_prefix(entries@, i + 1);
            }
            num_txs = num_txs + entries[i].transactions.len();
            i = i + 1;
        }
        proof {
            assert(entries@.take(i as int) == entries@);
        }
        self.num_shreds = self.num_shreds + num_shreds;
        self.num_entries = self.num_entries + entries.len();
        self.num_txs = self.num_txs + num_txs;
        if entries.len() > 0 {
            self.last_entry = entries[entries.len() - 1].hash;
        }
    }
}

/// Number of transactions in `entries`.
pub open spec fn total_transactions(entries: Seq<Entry>) -> nat
    decreases entries.len(),
{
    if entries.len() == 0 {
        0
    } else {
        total_transactions(entries.drop_last()) + entries.last().transactions@.len()
    }
}

/// A prefix holds no more transactions than the whole.
pub proof fn lemma_total_transactions_prefix(entries: Seq<Entry>, n: int)
    requires
        0 <= n <= entries.len(),
    ensures
        total_transactions(entries.take(n)) <= total_transactions(entries),
    decreases entries.len(),
{
    if n < entries.len() {
        assert(entries.drop_last().take(n) == entries.take(n));
        lemma_total_transactions_prefix(entries.drop_last(), n);
    } else {
        assert(entries.take(n) == entries);
    }
}

/// `b` is `a` with the transactions of each entry possibly reordered.
pub open spec fn same_entries_up_to_order(a: Seq<Entry>, b: Seq<Entry>) -> bool {
    &&& a.len() == b.len()
    &&& forall|i: int|
        #![trigger b[i]]
        0 <= i < a.len() ==> {
            &&& b[i].hash == a[i].hash
            &&& b[i].num_hashes == a[i].num_hashes
            &&& b[i].transactions@.to_multiset() == a[i].transactions@.to_multiset()
            &&& b[i].transactions@.len() == a[i].transactions@.len()
        }
}

/// Replaying the same entries, whatever order their transactions were put in,
/// advances the progress the same way.
pub proof fn lemma_progress_independent_of_order(
    progress: ConfirmationProgress,
    a: Seq<Entry>,
    b: Seq<Entry>,
    num_shreds: u64,
)
    requires
        same_entries_up_to_order(a, b),
    ensures
        progress.after_spec(a, num_shreds) == progress.after_spec(b, num_shreds),
{
    lemma_same_total_transactions(a, b);
}

proof fn lemma_same_total_transactions(a: Seq<Entry>, b: Seq<Entry>)
    requires
        same_entries_up_to_order(a, b),
    ensures
        total_transactions(a) == total_transactions(b),
    decreases a.len(),
{
    if a.len() > 0 {
        assert(same_entries_up_to_order(a.drop_last(), b.drop_last()));
        lemma_same_total_transactions(a.drop_last(), b.drop_last());
        assert(b.last() == b[b.len() - 1]);
    }
}

/// Relies on `rand::seq::SliceRandom::shuffle`, which reorders a slice in place
/// by swapping its elements: the result holds the same transactions.
#[verifier::external_body]
fn shuffle_transactions(transactions: &mut Vec<Transaction>)
    ensures
        final(transactions)@.to_multiset() == old(transactions)@.to_multiset(),
        final(transactions)@.len() == old(transactions)@.len(),
{
    transactions.shuffle(&mut rand::thread_rng());
}

/// Puts the transactions of every entry in a random order; the entries
/// themselves keep their order, hashes and transactions.
pub fn shuffle_entry_transactions(entries: &mut Vec<Entry>)
    ensures
        same_entries_up_to_order(old(entries)@, final(entries)@),
{
    let mut i: usize = 0;
    while i < entries.len()
        invariant
            i <= entries.len(),
            entries@.len() == old(entries)@.len(),
            forall|j: int|
                #![trigger entries@[j]]
                0 <= j < entries@.len() ==> {
                    &&& entries@[j].hash == old(entries)@[j].hash
                    &&& entries@[j].num_hashes == old(entries)@[j].num_hashes
                    &&& entries@[j].transactions@.to_multiset() == old(
                        entries,
                    )@[j].transactions@.to_multiset()
                    &&& entries@[j].transactions@.len() == old(entries)@[j].transactions@.len()
                },
        decreases entries.len() - i,
    {
        let mut transactions: Vec<Transaction> = Vec::new();
        std::mem::swap(&mut entries[i].transactions, &mut transactions);
        shuffle_transactions(&mut transactions);
        std::mem::swap(&mut entries[i].transactions, &mut transactions);
        i = i + 1;
    }
}

/// Number of ticks among `entries`.
pub open spec fn tick_count_spec(entries: Seq<Entry>) -> nat
    decreases entries.len(),
{
    if entries.len() == 0 {
        0
    } else {
        tick_count_spec(entries.drop_last()) + if entries.last().is_tick_spec() {
            1nat
        } else {
            0nat
        }
    }
}

pub fn tick_count(entries: &Vec<Entry>) -> (r: u64)
    ensures
        r == tick_count_spec(entries@),
{
    let mut count: u64 = 0;
    let mut i: usize = 0;
    while i < entries.len()
        invariant
            i <= entries.len(),
            count == tick_count_spec(entries@.take(i as int)),
            count <= i,
            entries.len() <= usize::MAX,
        decreases entries.len() - i,
    {
        proof {
            assert(entries@.take(i + 1).drop_last() == entries@.take(i as int));
        }
        if entries[i].is_tick() {
            count = count + 1;
        }
        i = i + 1;
    }
    proof {
        assert(entries@.take(i as int) == entries@);
    }
    count
}

/// Counting hashes across `entries` from `count`: each tick must close a run
/// of exactly `hashes_per_tick` hashes. Gives whether every tick did, and the
/// count where the walk stopped.
pub open spec fn tick_hash_walk(count: u64, entries: Seq<Entry>, hashes_per_tick: u64) -> (bool, u64)
    decreases entries.len(),
{
    if entries.len() == 0 {
        (true, count)
    } else {
        let (ok, c) = tick_hash_walk(count, entries.drop_last(), hashes_per_tick);
        if !ok {
            (false, c)
        } else {
            let next = crate::progress_map::clipped_sum(c, entries.last().num_hashes);
            if entries.last().is_tick_spec() {
                if next != hashes_per_tick {
                    (false, next)
                } else {
                    (true, 0)
                }
            } else {
                (true, next)
            }
        }
    }
}

/// Checks the hash counts of the ticks in `entries`, continuing the count
/// carried in `tick_hash_count`; a `hashes_per_tick` of zero means hashing is
/// off and every count passes. The entries after the last tick must not yet
/// have reached a full tick's worth of hashes.
pub fn verify_tick_hash_count(entries: &Vec<Entry>, tick_hash_count: &mut u64, hashes_per_tick: u64) -> (r: bool)
    ensures
        hashes_per_tick == 0 ==> r && *final(tick_hash_count) == *old(tick_hash_count),
        hashes_per_tick != 0 ==> {
            let (ok, c) = tick_hash_walk(*old(tick_hash_count), entries@, hashes_per_tick);
            &&& *final(tick_hash_count) == c
            &&& r == (ok && c < hashes_per_tick)
        },
{
    if hashes_per_tick == 0 {
        return true;
    }
    let mut i: usize = 0;
    while i < entries.len()
        invariant
            i <= entries.len(),
            hashes_per_tick != 0,
            tick_hash_walk(*old(tick_hash_count), entries@.take(i as int), hashes_per_tick) == (
                true,
                *tick_hash_count,
            ),
        decreases entries.len() - i,
    {
        proof {
            assert(entries@.take(i + 1).drop_last() == entries@.take(i as int));
        }
        *tick_hash_count = tick_hash_count.saturating_add(entries[i].num_hashes);
        if entries[i].is_tick() {
            if *tick_hash_count != hashes_per_tick {
                proof {
                    lemma_tick_hash_walk_stops(*old(tick_hash_count), entries@, hashes_per_tick, i + 1);
                }
                return false;
            }
            *tick_hash_count = 0;
        }
        i = i + 1;
    }
    proof {
        assert(entries@.take(i as int) == entries@);
    }
    *tick_hash_count < hashes_per_tick
}

/// Once the walk has failed on a prefix, it stays failed, at the same count.
proof fn lemma_tick_hash_walk_stops(count: u64, entries: Seq<Entry>, hashes_per_tick: u64, n: int)
    requires
        0 <= n <= entries.len(),
        !tick_hash_walk(count, entries.take(n), hashes_per_tick).0,
    ensures
        tick_hash_walk(count, entries, hashes_per_tick) == tick_hash_walk(
            count,
            entries.take(n),
            hashes_per_tick,
        ),
    decreases entries.len(),
{
    if n < entries.len() {
        assert(entries.drop_last().take(n) == entries.take(n));
        lemma_tick_hash_walk_stops(count, entries.drop_last(), hashes_per_tick, n);
    } else {
        assert(entries.take(n) == entries);
    }
}

/// The tick heights of the block whose entries are checked.
#[derive(Clone, Copy, Debug)]
pub struct TickInfo {
    pub slot: Slot,
    pub tick_height: u64,
    pub max_tick_height: u64,
    pub hashes_per_tick: Option<u64>,
}

/// The outcome of checking the tick structure of `entries` against a block at
/// `bank`, apart from the hash counts.
pub open spec fn tick_structure_error(bank: TickInfo, entries: Seq<Entry>, slot_full: bool) -> Option<
    BlockError,
> {
    let next = bank.tick_height + tick_count_spec(entries);
    if next > bank.max_tick_height {
        Some(BlockError::TooManyTicks)
    } else if next < bank.max_tick_height && slot_full {
        Some(BlockError::TooFewTicks)
    } else if next == bank.max_tick_height && entries.len() > 0 && !entries.last().is_tick_spec() {
        Some(BlockError::TrailingEntry)
    } else if next == bank.max_tick_height && !slot_full {
        Some(BlockError::InvalidLastTick)
    } else {
        None
    }
}

/// Checks that `entries` hold the right number of ticks for the block, end on
/// a tick when the block ends, and carry the right hash counts.
pub fn verify_ticks(
    bank: &TickInfo,
    entries: &Vec<Entry>,
    slot_full: bool,
    tick_hash_count: &mut u64,
) -> (r: Result<(), BlockError>)
    ensures
        match tick_structure_error(*bank, entries@, slot_full) {
            Some(e) => r == Err::<(), BlockError>(e) && *final(tick_hash_count) == *old(
                tick_hash_count,
            ),
            None => {
                let hashes_per_tick = match bank.hashes_per_tick {
                    Some(h) => h,
                    None => 0,
                };
                let (ok, c) = tick_hash_walk(*old(tick_hash_count), entries@, hashes_per_tick);
                &&& hashes_per_tick == 0 ==> r is Ok && *final(tick_hash_count) == *old(
                    tick_hash_count,
                )
                &&& hashes_per_tick != 0 ==> {
                    &&& *final(tick_hash_count) == c
                    &&& r == (if ok && c < hashes_per_tick {
                        Ok::<(), BlockError>(())
                    } else {
                        Err(BlockError::InvalidTickHashCount)
                    })
                }
            },
        },
{
    let next_bank_tick_height: u128 = bank.tick_height as u128 + tick_count(entries) as u128;
    let max_bank_tick_height: u128 = bank.max_tick_height as u128;
    if next_bank_tick_height > max_bank_tick_height {
        return Err(BlockError::TooManyTicks);
    }
    if next_bank_tick_height < max_bank_tick_height && slot_full {
        return Err(BlockError::TooFewTicks);
    }
    if next_bank_tick_height == max_bank_tick_height {
        let has_trailing_entry = entries.len() > 0 && !entries[entries.len() - 1].is_tick();
        if has_trailing_entry {
            return Err(BlockError::TrailingEntry);
        }
        if !slot_full {
            return Err(BlockError::InvalidLastTick);
        }
    }
    let hashes_per_tick = match bank.hashes_per_tick {
        Some(h) => h,
        None => 0,
    };
    if !verify_tick_hash_count(entries, tick_hash_count, hashes_per_tick) {
        return Err(BlockError::InvalidTickHashCount);
    }
    Ok(())
}

/// Scanning roots from the greatest down, the first at which the stake seen so
/// far, starting from `seen`, exceeds two thirds of `total_epoch_stake`.
pub open spec fn supermajority_scan(roots: Seq<(Slot, u64)>, seen: int, total_epoch_stake: u64) -> Option<
    Slot,
>
    decreases roots.len(),
{
    if roots.len() == 0 {
        None
    } else if 3 * (seen + roots[0].1) > 2 * total_epoch_stake {
        Some(roots[0].0)
    } else {
        supermajority_scan(roots.skip(1), seen + roots[0].1, total_epoch_stake)
    }
}

/// The latest root that more than two thirds of the epoch stake has reached,
/// given each voter's root and stake sorted from the greatest root down.
pub fn supermajority_root(roots: &Vec<(Slot, u64)>, total_epoch_stake: u64) -> (r: Option<Slot>)
    requires
        forall|i: int, j: int| 0 <= i < j < roots@.len() ==> roots@[j].0 <= roots@[i].0,
    ensures
        r == supermajority_scan(roots@, 0, total_epoch_stake),
{
    let mut total: u128 = 0;
    let mut i: usize = 0;
    proof {
        assert(roots@.skip(0) =~= roots@);
    }
    while i < roots.len()
        invariant
            i <= roots.len(),
            3 * total <= 2 * total_epoch_stake,
            supermajority_scan(roots@, 0, total_epoch_stake) == supermajority_scan(
                roots@.skip(i as int),
                total as int,
                total_epoch_stake,
            ),
        decreases roots.len() - i,
    {
        proof {
            assert(roots@.skip(i as int).skip(1) =~= roots@.skip(i + 1));
            assert(roots@.skip(i as int)[0] == roots@[i as int]);
        }
        let (root, stake) = roots[i];
        total = total + stake as u128;
        if 3 * total > 2 * (total_epoch_stake as u128) {
            return Some(root);
        }
        i = i + 1;
    }
    None
}

/// A voter's stake and the root its vote state records, if it could be read
/// and holds one.
pub open spec fn counted_root(entry: (Pubkey, u64, Option<Slot>)) -> bool {
    entry.1 > 0 && entry.2 is Some
}

/// Stake of the voters whose root is at or above `root`.
pub open spec fn stake_rooted_at_or_above(accounts: Seq<(Pubkey, u64, Option<Slot>)>, root: Slot) -> nat
    decreases accounts.len(),
{
    if accounts.len() == 0 {
        0
    } else {
        let e = accounts.last();
        stake_rooted_at_or_above(accounts.drop_last(), root) + if counted_root(e) && e.2->Some_0
            >= root {
            e.1 as nat
        } else {
            0nat
        }
    }
}

/// `root` is reached by more than two thirds of the epoch stake.
pub open spec fn is_supermajority_root(
    accounts: Seq<(Pubkey, u64, Option<Slot>)>,
    root: Slot,
    total_epoch_stake: u64,
) -> bool {
    3 * stake_rooted_at_or_above(accounts, root) > 2 * total_epoch_stake
}

proof fn lemma_stake_rooted_prefix(accounts: Seq<(Pubkey, u64, Option<Slot>)>, root: Slot, n: int)
    requires
        0 <= n <= accounts.len(),
    ensures
        stake_rooted_at_or_above(accounts.take(n), root) <= stake_rooted_at_or_above(accounts, root),
    decreases accounts.len(),
{
    if n < accounts.len() {
        assert(accounts.drop_last().take(n) == accounts.take(n));
        lemma_stake_rooted_prefix(accounts.drop_last(), root, n);
    } else {
        assert(accounts.take(n) == accounts);
    }
}

/// Whether more than two thirds of `total_epoch_stake` has rooted `root` or later.
pub fn has_supermajority_root(
    vote_accounts: &Vec<(Pubkey, u64, Option<Slot>)>,
    root: Slot,
    total_epoch_stake: u64,
) -> (r: bool)
    ensures
        r == is_supermajority_root(vote_accounts@, root, total_epoch_stake),
{
    let mut total: u128 = 0;
    let mut j: usize = 0;
    while j < vote_accounts.len()
        invariant
            j <= vote_accounts.len(),
            total == stake_rooted_at_or_above(vote_accounts@.take(j as int), root),
            3 * total <= 2 * total_epoch_stake,
        decreases vote_accounts.len() - j,
    {
        proof {
            assert(vote_accounts@.take(j + 1).drop_last() == vote_accounts@.take(j as int));
        }
        let (_, stake, root_slot) = vote_accounts[j];
        if stake > 0 {
            match root_slot {
                Some(rs) => {
                    if rs >= root {
                        total = total + stake as u128;
                    }
                },
                None => {},
            }
        }
        j = j + 1;
        if 3 * total > 2 * (total_epoch_stake as u128) {
            proof {
                lemma_stake_rooted_prefix(vote_accounts@, root, j as int);
            }
            return true;
        }
    }
    proof {
        assert(vote_accounts@.take(j as int) == vote_accounts@);
    }
    false
}

/// The greatest root, among the voters with stake whose root is known, that
/// more than two thirds of the epoch stake has reached; `None` when there is
/// no such root. Each voter is given as its vote account, its stake and the
/// root of its vote state (absent when unreadable or unset).
pub fn supermajority_root_from_vote_accounts(
    bank_slot: Slot,
    total_epoch_stake: u64,
    vote_accounts: &Vec<(Pubkey, u64, Option<Slot>)>,
) -> (r: Option<Slot>)
    ensures
        match r {
            None => forall|i: int|
                0 <= i < vote_accounts@.len() && counted_root(#[trigger] vote_accounts@[i])
                    ==> !is_supermajority_root(
                    vote_accounts@,
                    vote_accounts@[i].2->Some_0,
                    total_epoch_stake,
                ),
            Some(root) => {
                &&& exists|i: int|
                    0 <= i < vote_accounts@.len() && counted_root(#[trigger] vote_accounts@[i])
                        && vote_accounts@[i].2 == Some(root)
                &&& is_supermajority_root(vote_accounts@, root, total_epoch_stake)
                &&& forall|i: int|
                    0 <= i < vote_accounts@.len() && counted_root(#[trigger] vote_accounts@[i])
                        && is_supermajority_root(
                        vote_accounts@,
                        vote_accounts@[i].2->Some_0,
                        total_epoch_stake,
                    ) ==> vote_accounts@[i].2->Some_0 <= root
            },
        },
{
    let mut best: Option<Slot> = None;
    let mut i: usize = 0;
    while i < vote_accounts.len()
        invariant
            i <= vote_accounts.len(),
            match best {
                None => forall|k: int|
                    0 <= k < i && counted_root(#[trigger] vote_accounts@[k]) ==> !is_supermajority_root(
                        vote_accounts@,
                        vote_accounts@[k].2->Some_0,
                        total_epoch_stake,
                    ),
                Some(root) => {
                    &&& exists|k: int|
                        0 <= k < i && counted_root(#[trigger] vote_accounts@[k])
                            && vote_accounts@[k].2 == Some(root)
                    &&& is_supermajority_root(vote_accounts@, root, total_epoch_stake)
                    &&& forall|k: int|
                        0 <= k < i && counted_root(#[trigger] vote_accounts@[k])
                            && is_supermajority_root(
                            vote_accounts@,
                            vote_accounts@[k].2->Some_0,
                            total_epoch_stake,
                        ) ==> vote_accounts@[k].2->Some_0 <= root
                },
            },
        decreases vote_accounts.len() - i,
    {
        let (_, stake, root_slot) = vote_accounts[i];
        if stake > 0 {
            match root_slot {
                Some(candidate) => {
                    let better = match best {
                        None => true,
                        Some(b) => candidate > b,
                    };
                    if better && has_supermajority_root(vote_accounts, candidate, total_epoch_stake) {
                        best = Some(candidate);
                    }
                },
                None => {},
            }
        }
        i = i + 1;
    }
    best
}

/// Accounts locked for the transactions of the batches awaiting execution:
/// those locked for writing and those locked for reading.
pub type LockSets = (Seq<Pubkey>, Seq<Pubkey>);

/// A transaction names some account more than once.
pub open spec fn loads_account_twice(t: Transaction) -> bool {
    !(t.writable_accounts@ + t.readonly_accounts@).no_duplicates()
}

/// A transaction cannot take its locks while `locks` are held: it writes an
/// account that is locked at all, or reads one that is locked for writing.
pub open spec fn lock_conflict(locks: LockSets, t: Transaction) -> bool {
    ||| exists|i: int|
        0 <= i < t.writable_accounts@.len() && (locks.0.contains(#[trigger] t.writable_accounts@[i])
            || locks.1.contains(t.writable_accounts@[i]))
    ||| exists|i: int|
        0 <= i < t.readonly_accounts@.len() && locks.0.contains(#[trigger] t.readonly_accounts@[i])
}

/// Locks the transactions of an entry one after the other on top of `locks`:
/// the first failure, or success with the locks then held.
pub open spec fn lock_entry_spec(locks: LockSets, txs: Seq<Transaction>) -> (Result<(), TransactionError>, LockSets)
    decreases txs.len(),
{
    if txs.len() == 0 {
        (Ok(()), locks)
    } else {
        let (res, held) = lock_entry_spec(locks, txs.drop_last());
        let t = txs.last();
        if res is Err {
            (res, held)
        } else if loads_account_twice(t) {
            (Err(TransactionError::AccountLoadedTwice), held)
        } else if lock_conflict(held, t) {
            (Err(TransactionError::AccountInUse), held)
        } else {
            (Ok(()), (held.0 + t.writable_accounts@, held.1 + t.readonly_accounts@))
        }
    }
}

fn contains_account(accounts: &Vec<Pubkey>, key: Pubkey) -> (r: bool)
    ensures
        r == accounts@.contains(key),
{
    let mut i: usize = 0;
    while i < accounts.len()
        invariant
            i <= accounts.len(),
            forall|j: int| 0 <= j < i ==> accounts@[j] != key,
        decreases accounts.len() - i,
    {
        if accounts[i] == key {
            return true;
        }
        i = i + 1;
    }
    false
}

fn append_accounts(dst: &mut Vec<Pubkey>, src: &Vec<Pubkey>)
    ensures
        final(dst)@ == old(dst)@ + src@,
{
    let mut i: usize = 0;
    while i < src.len()
        invariant
            i <= src.len(),
            dst@ == old(dst)@ + src@.take(i as int),
        decreases src.len() - i,
    {
        dst.push(src[i]);
        i = i + 1;
        proof {
            assert(dst@ =~= old(dst)@ + src@.take(i as int));
        }
    }
    proof {
        assert(src@.take(i as int) =~= src@);
    }
}

fn account_loaded_twice(t: &Transaction) -> (r: bool)
    ensures
        r == loads_account_twice(*t),
{
    let mut all: Vec<Pubkey> = Vec::new();
    append_accounts(&mut all, &t.writable_accounts);
    append_accounts(&mut all, &t.readonly_accounts);
    let mut i: usize = 0;
    while i < all.len()
        invariant
            i <= all.len(),
            all@ == t.writable_accounts@ + t.readonly_accounts@,
            forall|a: int, b: int| 0 <= a < i && a < b < all@.len() ==> all@[a] != all@[b],
        decreases all.len() - i,
    {
        let mut j: usize = i + 1;
        while j < all.len()
            invariant
                i < all.len(),
                i + 1 <= j <= all.len(),
                all@ == t.writable_accounts@ + t.readonly_accounts@,
                forall|a: int, b: int| 0 <= a < i && a < b < all@.len() ==> all@[a] != all@[b],
                forall|b: int| i < b < j ==> all@[i as int] != all@[b],
            decreases all.len() - j,
        {
            if all[i] == all[j] {
                return true;
            }
            j = j + 1;
        }
        i = i + 1;
    }
    false
}

fn conflicts_with(writes: &Vec<Pubkey>, reads: &Vec<Pubkey>, t: &Transaction) -> (r: bool)
    ensures
        r == lock_conflict((writes@, reads@), *t),
{
    let mut i: usize = 0;
    while i < t.writable_accounts.len()
        invariant
            i <= t.writable_accounts.len(),
            forall|k: int|
                0 <= k < i ==> !writes@.contains(#[trigger] t.writable_accounts@[k]) && !reads@.contains(
                    t.writable_accounts@[k],
                ),
        decreases t.writable_accounts.len() - i,
    {
        let key = t.writable_accounts[i];
        if contains_account(writes, key) || contains_account(reads, key) {
            return true;
        }
        i = i + 1;
    }
    let mut j: usize = 0;
    while j < t.readonly_accounts.len()
        invariant
            j <= t.readonly_accounts.len(),
            forall|k: int|
                0 <= k < t.writable_accounts@.len() ==> !writes@.contains(
                    #[trigger] t.writable_accounts@[k],
                ) && !reads@.contains(t.writable_accounts@[k]),
            forall|k: int| 0 <= k < j ==> !writes@.contains(#[trigger] t.readonly_accounts@[k]),
        decreases t.readonly_accounts.len() - j,
    {
        if contains_account(writes, t.readonly_accounts[j]) {
            return true;
        }
        j = j + 1;
    }
    false
}

/// Tries to lock all transactions of an entry on top of the locks held in
/// `writes` and `reads`; on success the new locks are added to them.
fn lock_entry(writes: &mut Vec<Pubkey>, reads: &mut Vec<Pubkey>, txs: &Vec<Transaction>) -> (r: Result<(), TransactionError>)
    ensures
        r == lock_entry_spec((old(writes)@, old(reads)@), txs@).0,
        r is Ok ==> (final(writes)@, final(reads)@) == lock_entry_spec((old(writes)@, old(reads)@), txs@).1,
        r is Err ==> final(writes)@ == old(writes)@ && final(reads)@ == old(reads)@,
{
    let mut held_writes: Vec<Pubkey> = Vec::new();
    let mut held_reads: Vec<Pubkey> = Vec::new();
    append_accounts(&mut held_writes, writes);
    append_accounts(&mut held_reads, reads);
    proof {
        assert(held_writes@ =~= old(writes)@);
        assert(held_reads@ =~= old(reads)@);
    }
    let mut i: usize = 0;
    while i < txs.len()
        invariant
            i <= txs.len(),
            writes@ == old(writes)@,
            reads@ == old(reads)@,
            lock_entry_spec((old(writes)@, old(reads)@), txs@.take(i as int)) == (
                Ok::<(), TransactionError>(()),
                (held_writes@, held_reads@),
            ),
        decreases txs.len() - i,
    {
        proof {
            assert(txs@.take(i + 1).drop_last() == txs@.take(i as int));
            assert(txs@.take(i + 1).last() == txs@[i as int]);
        }
        let t = &txs[i];
        if account_loaded_twice(t) {
            proof {
                lemma_lock_entry_stops(
                    (old(writes)@, old(reads)@),
                    txs@,
                    i + 1,
                );
            }
            return Err(TransactionError::AccountLoadedTwice);
        }
        if conflicts_with(&held_writes, &held_reads, t) {
            proof {
                lemma_lock_entry_stops(
                    (old(writes)@, old(reads)@),
                    txs@,
                    i + 1,
                );
            }
            return Err(TransactionError::AccountInUse);
        }
        append_accounts(&mut held_writes, &t.writable_accounts);
        append_accounts(&mut held_reads, &t.readonly_accounts);
        i = i + 1;
    }
    proof {
        assert(txs@.take(i as int) == txs@);
    }
    *writes = held_writes;
    *reads = held_reads;
    Ok(())
}

/// Once locking has failed on a prefix of an entry, the rest does not change the outcome.
proof fn lemma_lock_entry_stops(locks: LockSets, txs: Seq<Transaction>, n: int)
    requires
        0 <= n <= txs.len(),
        lock_entry_spec(locks, txs.take(n)).0 is Err,
    ensures
        lock_entry_spec(locks, txs) == lock_entry_spec(locks, txs.take(n)),
    decreases txs.len(),
{
    if n < txs.len() {
        assert(txs.drop_last().take(n) == txs.take(n));
        lemma_lock_entry_stops(locks, txs.drop_last(), n);
    } else {
        assert(txs.take(n) == txs);
    }
}

/// One step of replaying a slot's entries against its block, in order.
#[derive(Clone, Copy, Debug, PartialEq, Eq, Structural)]
pub enum ReplayStep {
    /// Add the transactions of the entry at this index, now locked, to the
    /// batches awaiting execution.
    Batch(usize),
    /// Execute the awaiting batches in parallel, which releases their locks.
    ExecuteBatches,
    /// Register a tick with this hash.
    RegisterTick(BlockHash),
    /// Stop: the entry could not take its locks even with nothing else held.
    Fail(TransactionError),
}

/// Where planning stands after some entries: batches awaiting execution,
/// locks they hold, ticks not yet registered, ticks registered, steps so far,
/// and whether planning has stopped on a failure.
pub type PlanState = (nat, LockSets, Seq<BlockHash>, nat, Seq<ReplayStep>, bool);

pub open spec fn no_locks() -> LockSets {
    (Seq::empty(), Seq::empty())
}

/// Steps registering `ticks` in order.
pub open spec fn tick_steps(ticks: Seq<BlockHash>) -> Seq<ReplayStep> {
    ticks.map_values(|h: BlockHash| ReplayStep::RegisterTick(h))
}

/// Ticks are registered once they would complete a block: the tick height
/// they lead to is a multiple of the ticks per slot.
pub open spec fn plan_entry(
    st: PlanState,
    index: usize,
    entry: Entry,
    tick_height: u64,
    ticks_per_slot: u64,
) -> PlanState {
    let (group, locks, pending, registered, steps, failed) = st;
    if failed {
        st
    } else if entry.is_tick_spec() {
        let pending = pending.push(entry.hash);
        if (tick_height + registered + pending.len()) % (ticks_per_slot as int) == 0 {
            (
                0,
                no_locks(),
                Seq::empty(),
                registered + pending.len(),
                steps.push(ReplayStep::ExecuteBatches) + tick_steps(pending),
                false,
            )
        } else {
            (group, locks, pending, registered, steps, false)
        }
    } else {
        let (res, held) = lock_entry_spec(locks, entry.transactions@);
        if res is Ok {
            (group + 1, held, pending, registered, steps.push(ReplayStep::Batch(index)), false)
        } else if group == 0 {
            (group, locks, pending, registered, steps.push(ReplayStep::Fail(res->Err_0)), true)
        } else {
            let (res2, held2) = lock_entry_spec(no_locks(), entry.transactions@);
            if res2 is Ok {
                (
                    1,
                    held2,
                    pending,
                    registered,
                    steps.push(ReplayStep::ExecuteBatches).push(ReplayStep::Batch(index)),
                    false,
                )
            } else {
                (
                    0,
                    no_locks(),
                    pending,
                    registered,
                    steps.push(ReplayStep::ExecuteBatches).push(ReplayStep::Fail(res2->Err_0)),
                    true,
                )
            }
        }
    }
}

/// Planning state after the entries `entries`.
pub open spec fn plan_entries(entries: Seq<Entry>, tick_height: u64, ticks_per_slot: u64) -> PlanState
    decreases entries.len(),
{
    if entries.len() == 0 {
        (0, no_locks(), Seq::empty(), 0, Seq::empty(), false)
    } else {
        plan_entry(
            plan_entries(entries.drop_last(), tick_height, ticks_per_slot),
            (entries.len() - 1) as usize,
            entries.last(),
            tick_height,
            ticks_per_slot,
        )
    }
}

/// The full plan: the planned steps, then, unless planning stopped on a
/// failure, the execution of what awaits and the registration of the
/// remaining ticks.
pub open spec fn replay_plan(entries: Seq<Entry>, tick_height: u64, ticks_per_slot: u64) -> Seq<ReplayStep> {
    let (_, _, pending, _, steps, failed) = plan_entries(entries, tick_height, ticks_per_slot);
    if failed {
        steps
    } else {
        steps.push(ReplayStep::ExecuteBatches) + tick_steps(pending)
    }
}

fn push_tick_steps(steps: &mut Vec<ReplayStep>, ticks: &Vec<BlockHash>)
    ensures
        final(steps)@ == old(steps)@ + tick_steps(ticks@),
{
    let mut i: usize = 0;
    while i < ticks.len()
        invariant
            i <= ticks.len(),
            steps@ == old(steps)@ + tick_steps(ticks@.take(i as int)),
        decreases ticks.len() - i,
    {
        steps.push(ReplayStep::RegisterTick(ticks[i]));
        i = i + 1;
        proof {
            assert(steps@ =~= old(steps)@ + tick_steps(ticks@.take(i as int)));
        }
    }
    proof {
        assert(ticks@.take(i as int) =~= ticks@);
    }
}

/// Plans the replay of `entries` against a block at `tick_height` with
/// `ticks_per_slot` ticks per slot. Consecutive entries whose transactions can
/// all hold their account locks together are batched and executed in
/// parallel; a tick is held back until registering it would complete the
/// block, and the awaiting batches are executed first. An entry that cannot
/// take its locks even alone ends the plan with its locking error.
pub fn process_entries(entries: &Vec<Entry>, tick_height: u64, ticks_per_slot: u64) -> (r: Vec<ReplayStep>)
    requires
        ticks_per_slot > 0,
    ensures
        r@ == replay_plan(entries@, tick_height, ticks_per_slot),
{
    let mut group: usize = 0;
    let mut writes: Vec<Pubkey> = Vec::new();
    let mut reads: Vec<Pubkey> = Vec::new();
    let mut pending: Vec<BlockHash> = Vec::new();
    let mut registered: u64 = 0;
    let mut steps: Vec<ReplayStep> = Vec::new();
    let mut i: usize = 0;
    while i < entries.len()
        invariant
            i <= entries.len(),
            ticks_per_slot > 0,
            group <= i,
            registered + pending@.len() <= i,
            plan_entries(entries@.take(i as int), tick_height, ticks_per_slot) == (
                group as nat,
                (writes@, reads@),
                pending@,
                registered as nat,
                steps@,
                false,
            ),
        decreases entries.len() - i,
    {
        proof {
            assert(entries@.take(i + 1).drop_last() == entries@.take(i as int));
            assert(entries@.take(i + 1).last() == entries@[i as int]);
        }
        let entry = &entries[i];
        if entry.is_tick() {
            pending.push(entry.hash);
            let height: u128 = tick_height as u128 + registered as u128 + pending.len() as u128;
            if height % (ticks_per_slot as u128) == 0 {
                steps.push(ReplayStep::ExecuteBatches);
                push_tick_steps(&mut steps, &pending);
                registered = registered + pending.len() as u64;
                pending = Vec::new();
                writes = Vec::new();
                reads = Vec::new();
                group = 0;
            }
        } else {
            let res = lock_entry(&mut writes, &mut reads, &entry.transactions);
            match res {
                Ok(()) => {
                    steps.push(ReplayStep::Batch(i));
                    group = group + 1;
                },
                Err(e) => {
                    if group == 0 {
                        steps.push(ReplayStep::Fail(e));
                        proof {
                            lemma_plan_stays_failed(entries@, tick_height, ticks_per_slot, i + 1);
                        }
                        return steps;
                    }
                    steps.push(ReplayStep::ExecuteBatches);
                    writes = Vec::new();
                    reads = Vec::new();
                    proof {
                        assert(writes@ =~= no_locks().0);
                        assert(reads@ =~= no_locks().1);
                    }
                    let res2 = lock_entry(&mut writes, &mut reads, &entry.transactions);
                    match res2 {
                        Ok(()) => {
                            steps.push(ReplayStep::Batch(i));
                            group = 1;
                        },
                        Err(e2) => {
                            steps.push(ReplayStep::Fail(e2));
                            proof {
                                lemma_plan_stays_failed(entries@, tick_height, ticks_per_slot, i + 1);
                            }
                            return steps;
                        },
                    }
                },
            }
        }
        i = i + 1;
        proof {
            assert(steps@ == plan_entries(entries@.take(i as int), tick_height, ticks_per_slot).4);
        }
    }
    proof {
        assert(entries@.take(i as int) == entries@);
    }
    steps.push(ReplayStep::ExecuteBatches);
    push_tick_steps(&mut steps, &pending);
    steps
}

/// Once planning has stopped on a failure, later entries add nothing.
proof fn lemma_plan_stays_failed(entries: Seq<Entry>, tick_height: u64, ticks_per_slot: u64, n: int)
    requires
        0 <= n <= entries.len(),
        plan_entries(entries.take(n), tick_height, ticks_per_slot).5,
    ensures
        plan_entries(entries, tick_height, ticks_per_slot) == plan_entries(
            entries.take(n),
            tick_height,
            ticks_per_slot,
        ),
    decreases entries.len(),
{
    if n < entries.len() {
        assert(entries.drop_last().take(n) == entries.take(n));
        lemma_plan_stays_failed(entries.drop_last(), tick_height, ticks_per_slot, n);
    } else {
        assert(entries.take(n) == entries);
    }
}

/// The requested hard forks that lie after the starting slot, in order; the
/// others are ignored.
pub fn hard_forks_to_register(new_hard_forks: &Vec<Slot>, start_slot: Slot) -> (r: Vec<Slot>)
    ensures
        r@ == new_hard_forks@.filter(|s: Slot| s > start_slot),
{
    let mut kept: Vec<Slot> = Vec::new();
    let mut i: usize = 0;
    while i < new_hard_forks.len()
        invariant
            i <= new_hard_forks.len(),
            kept@ == new_hard_forks@.take(i as int).filter(|s: Slot| s > start_slot),
        decreases new_hard_forks.len() - i,
    {
        proof {
            reveal(Seq::filter);
            assert(new_hard_forks@.take(i + 1).drop_last() == new_hard_forks@.take(i as int));
        }
        if new_hard_forks[i] > start_slot {
            kept.push(new_hard_forks[i]);
        }
        i = i + 1;
    }
    proof {
        assert(new_hard_forks@.take(i as int) == new_hard_forks@);
    }
    kept
}

/// The root to move to after the block at `slot` was replayed at startup.
/// Past the greatest root the block store knows, `max_root`, a root confirmed
/// by the cluster above the current one is taken; before it, the slot itself
/// when the block store records it as a root.
pub open spec fn startup_new_root(
    root: Slot,
    max_root: Slot,
    slot: Slot,
    supermajority_root: Option<Slot>,
    slot_is_blockstore_root: bool,
) -> Option<Slot> {
    if root >= max_root {
        match supermajority_root {
            Some(r) => if r > root {
                Some(r)
            } else {
                None
            },
            None => None,
        }
    } else if slot_is_blockstore_root {
        Some(slot)
    } else {
        None
    }
}

pub fn new_root_after_replay(
    root: Slot,
    max_root: Slot,
    slot: Slot,
    supermajority_root: Option<Slot>,
    slot_is_blockstore_root: bool,
) -> (r: Option<Slot>)
    ensures
        r == startup_new_root(root, max_root, slot, supermajority_root, slot_is_blockstore_root),
{
    if root >= max_root {
        match supermajority_root {
            Some(r) => if r > root {
                Some(r)
            } else {
                None
            },
            None => None,
        }
    } else if slot_is_blockstore_root {
        Some(slot)
    } else {
        None
    }
}

/// The checks made once the forks are loaded at startup: there must be at
/// least one, and the root block's capitalization must add up.
pub fn check_loaded_forks(num_initial_forks: usize, capitalization_ok: bool, root: Slot) -> (r: Result<
    (),
    BlockstoreProcessorError,
>)
    ensures
        num_initial_forks == 0 ==> r == Err::<(), BlockstoreProcessorError>(
            BlockstoreProcessorError::NoValidForksFound,
        ),
        num_initial_forks > 0 && !capitalization_ok ==> r == Err::<(), BlockstoreProcessorError>(
            BlockstoreProcessorError::RootBankWithMismatchedCapitalization(root),
        ),
        num_initial_forks > 0 && capitalization_ok ==> r is Ok,
{
    if num_initial_forks == 0 {
        return Err(BlockstoreProcessorError::NoValidForksFound);
    }
    if !capitalization_ok {
        return Err(BlockstoreProcessorError::RootBankWithMismatchedCapitalization(root));
    }
    Ok(())
}

/// A slot's replay is complete only when its block is: otherwise it is incomplete.
pub fn check_full_slot_complete(bank_is_complete: bool) -> (r: Result<(), BlockstoreProcessorError>)
    ensures
        r == (if bank_is_complete {
            Ok::<(), BlockstoreProcessorError>(())
        } else {
            Err(BlockstoreProcessorError::InvalidBlock(BlockError::Incomplete))
        }),
{
    if !bank_is_complete {
        Err(BlockstoreProcessorError::InvalidBlock(BlockError::Incomplete))
    } else {
        Ok(())
    }
}

/// The part of confirming a slot that decides, before anything runs: unless
/// verification is skipped, the entries loaded for the slot must have a valid
/// tick structure; then their transactions are put in a random order and the
/// replay is planned. The progress of the slot advances only once the plan has
/// run without error, through [`ConfirmationProgress::record_replayed_entries`].
pub fn plan_slot_replay(
    bank: &TickInfo,
    ticks_per_slot: u64,
    entries: &mut Vec<Entry>,
    slot_full: bool,
    skip_verification: bool,
    tick_hash_count: &mut u64,
) -> (r: Result<Vec<ReplayStep>, BlockstoreProcessorError>)
    requires
        ticks_per_slot > 0,
    ensures
        !skip_verification && tick_structure_error(*bank, old(entries)@, slot_full) is Some ==> r
            == Err::<Vec<ReplayStep>, BlockstoreProcessorError>(
            BlockstoreProcessorError::InvalidBlock(
                tick_structure_error(*bank, old(entries)@, slot_full)->Some_0,
            ),
        ),
        skip_verification ==> *final(tick_hash_count) == *old(tick_hash_count),
        !skip_verification && tick_structure_error(*bank, old(entries)@, slot_full) is Some
            ==> *final(tick_hash_count) == *old(tick_hash_count),
        !skip_verification && tick_structure_error(*bank, old(entries)@, slot_full) is None
            ==> *final(tick_hash_count) == tick_count_after(
            *old(tick_hash_count),
            old(entries)@,
            bank.hashes_per_tick,
        ),
        r is Ok ==> {
            &&& same_entries_up_to_order(old(entries)@, final(entries)@)
            &&& r->Ok_0@ == replay_plan(final(entries)@, bank.tick_height, ticks_per_slot)
        },
        (skip_verification || tick_structure_error(*bank, old(entries)@, slot_full) is None) ==> (r
            is Err <==> !skip_verification && !tick_hashes_valid(
            *old(tick_hash_count),
            old(entries)@,
            bank.hashes_per_tick,
        )),
        r is Err ==> final(entries)@ == old(entries)@,
{
    if !skip_verification {
        match verify_ticks(bank, entries, slot_full, tick_hash_count) {
            Ok(()) => {},
            Err(e) => return Err(BlockstoreProcessorError::InvalidBlock(e)),
        }
    }
    shuffle_entry_transactions(entries);
    Ok(process_entries(entries, bank.tick_height, ticks_per_slot))
}

/// The carried hash count after checking the ticks of `entries` from `count`.
pub open spec fn tick_count_after(count: u64, entries: Seq<Entry>, hashes_per_tick: Option<u64>) -> u64 {
    let h = match hashes_per_tick {
        Some(h) => h,
        None => 0,
    };
    if h == 0 {
        count
    } else {
        tick_hash_walk(count, entries, h).1
    }
}

/// The hash counts of the ticks in `entries` are right, counting on from `count`.
pub open spec fn tick_hashes_valid(count: u64, entries: Seq<Entry>, hashes_per_tick: Option<u64>) -> bool {
    let h = match hashes_per_tick {
        Some(h) => h,
        None => 0,
    };
    h == 0 || ({
        let (ok, c) = tick_hash_walk(count, entries, h);
        ok && c < h
    })
}

/// The pending slot replayed next at startup: the lowest, the first of equals.
pub fn next_pending_slot(pending: &Vec<Slot>) -> (r: Option<usize>)
    ensures
        pending@.len() == 0 <==> r is None,
        r matches Some(i) ==> {
            &&& i < pending@.len()
            &&& forall|j: int| 0 <= j < pending@.len() ==> pending@[i as int] <= pending@[j]
            &&& forall|j: int| 0 <= j < i ==> pending@[j] > pending@[i as int]
        },
{
    if pending.len() == 0 {
        return None;
    }
    let mut best: usize = 0;
    let mut i: usize = 1;
    while i < pending.len()
        invariant
            1 <= i <= pending.len(),
            best < i,
            forall|j: int| 0 <= j < i ==> pending@[best as int] <= pending@[j],
            forall|j: int| 0 <= j < best ==> pending@[j] > pending@[best as int],
        decreases pending.len() - i,
    {
        if pending[i] < pending[best] {
            best = i;
        }
        i = i + 1;
    }
    Some(best)
}

/// The children of a replayed slot that startup replays next: those whose
/// slot is full, in order; partial slots are left to the replay loop.
pub fn full_children(next_slots: &Vec<(Slot, bool)>) -> (r: Vec<Slot>)
    ensures
        r@ == next_slots@.filter(|e: (Slot, bool)| e.1).map_values(|e: (Slot, bool)| e.0),
{
    let mut kept: Vec<Slot> = Vec::new();
    let mut i: usize = 0;
    while i < next_slots.len()
        invariant
            i <= next_slots.len(),
            kept@ == next_slots@.take(i as int).filter(|e: (Slot, bool)| e.1).map_values(
                |e: (Slot, bool)| e.0,
            ),
        decreases next_slots.len() - i,
    {
        proof {
            reveal(Seq::filter);
            assert(next_slots@.take(i + 1).drop_last() == next_slots@.take(i as int));
        }
        if next_slots[i].1 {
            kept.push(next_slots[i].0);
        }
        proof {
            assert(kept@ =~= next_slots@.take(i + 1).filter(|e: (Slot, bool)| e.1).map_values(
                |e: (Slot, bool)| e.0,
            ));
        }
        i = i + 1;
    }
    proof {
        assert(next_slots@.take(i as int) == next_slots@);
    }
    kept
}

/// Startup stops replaying once it reaches the slot it was asked to halt at.
pub fn halts_at(slot: Slot, dev_halt_at_slot: Option<Slot>) -> (r: bool)
    ensures
        r == (slot >= match dev_halt_at_slot {
            Some(h) => h,
            None => u64::MAX,
        }),
{
    let halt = match dev_halt_at_slot {
        Some(h) => h,
        None => u64::MAX,
    };
    slot >= halt
}

/// The slots from `slot` down to `root`, `root` excluded, along the parent
/// links; `None` when `slot` does not descend from `root`.
pub open spec fn path_to_root(parents: Map<Slot, Slot>, slot: Slot, root: Slot) -> Option<Seq<Slot>>
    decreases slot,
{
    if slot == root {
        Some(Seq::empty())
    } else if slot < root || !parents.contains_key(slot) || parents[slot] >= slot {
        None
    } else {
        match path_to_root(parents, parents[slot], root) {
            Some(p) => Some(seq![slot] + p),
            None => None,
        }
    }
}

/// The slots to record as roots when the cluster confirms `new_root`: every
/// slot from it down to the current root, which it must descend from.
pub fn rooted_path(parents: &HashMap<Slot, Slot>, new_root: Slot, root: Slot) -> (r: Option<Vec<Slot>>)
    ensures
        match path_to_root(parents@, new_root, root) {
            Some(p) => r matches Some(v) && v@ == p,
            None => r is None,
        },
{
    let mut path: Vec<Slot> = Vec::new();
    let mut current = new_root;
    while current != root
        invariant
            path_to_root(parents@, new_root, root) == match path_to_root(parents@, current, root) {
                Some(p) => Some(path@ + p),
                None => None::<Seq<Slot>>,
            },
        decreases current,
    {
        if current < root {
            return None;
        }
        let parent = match parents.get(&current) {
            Some(p) => *p,
            None => return None,
        };
        if parent >= current {
            return None;
        }
        proof {
            match path_to_root(parents@, parent, root) {
                Some(p) => {
                    assert(path@.push(current) + p =~= path@ + (seq![current] + p));
                },
                None => {},
            }
        }
        path.push(current);
        current = parent;
    }
    proof {
        assert(path@ + Seq::<Slot>::empty() =~= path@);
    }
    Some(path)
}

/// The hashes of the ticks among `entries`, in order.
pub open spec fn tick_hashes(entries: Seq<Entry>) -> Seq<BlockHash>
    decreases entries.len(),
{
    if entries.len() == 0 {
        Seq::empty()
    } else if entries.last().is_tick_spec() {
        tick_hashes(entries.drop_last()).push(entries.last().hash)
    } else {
        tick_hashes(entries.drop_last())
    }
}

/// The hashes of the ticks that `steps` register, in order.
pub open spec fn registered_ticks(steps: Seq<ReplayStep>) -> Seq<BlockHash>
    decreases steps.len(),
{
    if steps.len() == 0 {
        Seq::empty()
    } else {
        match steps.last() {
            ReplayStep::RegisterTick(h) => registered_ticks(steps.drop_last()).push(h),
            _ => registered_ticks(steps.drop_last()),
        }
    }
}

proof fn lemma_registered_ticks_append(a: Seq<ReplayStep>, b: Seq<ReplayStep>)
    ensures
        registered_ticks(a + b) == registered_ticks(a) + registered_ticks(b),
    decreases b.len(),
{
    if b.len() == 0 {
        assert(a + b == a);
    } else {
        assert((a + b).drop_last() == a + b.drop_last());
        lemma_registered_ticks_append(a, b.drop_last());
    }
}

proof fn lemma_registered_tick_steps(ticks: Seq<BlockHash>)
    ensures
        registered_ticks(tick_steps(ticks)) == ticks,
    decreases ticks.len(),
{
    if ticks.len() > 0 {
        assert(tick_steps(ticks).drop_last() == tick_steps(ticks.drop_last()));
        lemma_registered_tick_steps(ticks.drop_last());
    }
}

proof fn lemma_planned_ticks(entries: Seq<Entry>, tick_height: u64, ticks_per_slot: u64)
    requires
        ticks_per_slot > 0,
    ensures
        ({
            let (_, _, pending, _, steps, failed) = plan_entries(entries, tick_height, ticks_per_slot);
            !failed ==> registered_ticks(steps) + pending == tick_hashes(entries)
        }),
    decreases entries.len(),
{
    if entries.len() == 0 {
        assert(Seq::<BlockHash>::empty() + Seq::<BlockHash>::empty() =~= Seq::<BlockHash>::empty());
    } else {
        let prev = entries.drop_last();
        lemma_planned_ticks(prev, tick_height, ticks_per_slot);
        let st = plan_entries(prev, tick_height, ticks_per_slot);
        let (group, locks, pending, registered, steps, failed) = st;
        let e = entries.last();
        let k = (entries.len() - 1) as usize;
        let fin = plan_entries(entries, tick_height, ticks_per_slot);
        assert(fin == plan_entry(st, k, e, tick_height, ticks_per_slot));
        if !failed && !fin.5 {
            if e.is_tick_spec() {
                assert(tick_hashes(entries) == tick_hashes(prev).push(e.hash));
                let p2 = pending.push(e.hash);
                if (tick_height + registered + p2.len()) % (ticks_per_slot as int) == 0 {
                    lemma_registered_ticks_append(steps.push(ReplayStep::ExecuteBatches), tick_steps(p2));
                    lemma_registered_tick_steps(p2);
                    assert(steps.push(ReplayStep::ExecuteBatches).drop_last() == steps);
                    assert(registered_ticks(steps.push(ReplayStep::ExecuteBatches)) == registered_ticks(steps));
                    assert(fin.4 == steps.push(ReplayStep::ExecuteBatches) + tick_steps(p2));
                    assert(fin.2 == Seq::<BlockHash>::empty());
                    assert(registered_ticks(fin.4) + fin.2 =~= registered_ticks(steps) + p2);
                    assert(registered_ticks(steps) + p2 =~= (registered_ticks(steps) + pending).push(e.hash));
                } else {
                    assert(fin.4 == steps && fin.2 == p2);
                    assert(registered_ticks(steps) + p2 =~= (registered_ticks(steps) + pending).push(e.hash));
                }
            } else {
                assert(tick_hashes(entries) == tick_hashes(prev));
                assert(fin.2 == pending);
                let s0 = steps.push(ReplayStep::Batch(k));
                assert(s0.drop_last() == steps);
                assert(registered_ticks(s0) == registered_ticks(steps));
                let s1 = steps.push(ReplayStep::ExecuteBatches);
                assert(s1.drop_last() == steps);
                assert(registered_ticks(s1) == registered_ticks(steps));
                let s2 = s1.push(ReplayStep::Batch(k));
                assert(s2.drop_last() == s1);
                assert(registered_ticks(s2) == registered_ticks(s1));
                assert(fin.4 == s0 || fin.4 == s2);
            }
        }
    }
}

/// A plan that does not fail registers every tick of the entries, each once,
/// in the order of the entries.
pub proof fn lemma_plan_registers_ticks_in_order(entries: Seq<Entry>, tick_height: u64, ticks_per_slot: u64)
    requires
        ticks_per_slot > 0,
        !plan_entries(entries, tick_height, ticks_per_slot).5,
    ensures
        registered_ticks(replay_plan(entries, tick_height, ticks_per_slot)) == tick_hashes(entries),
{
    lemma_planned_ticks(entries, tick_height, ticks_per_slot);
    let (_, _, pending, _, steps, _) = plan_entries(entries, tick_height, ticks_per_slot);
    lemma_registered_ticks_append(steps.push(ReplayStep::ExecuteBatches), tick_steps(pending));
    lemma_registered_tick_steps(pending);
    assert(steps.push(ReplayStep::ExecuteBatches).drop_last() == steps);
}

} // verus!
