//! The indexer: a write cache over the output table, and the transaction and block steps.
use std::collections::VecDeque;

use vstd::prelude::*;

use crate::codec::{
    decode_range, range_bytes_valid, range_encodable, range_of_bytes, encode_outpoint, encode_satpoint, outpoint_bytes, push_range, OutPoint, SatPoint,
};
use crate::error::IndexError;
use crate::flow::{
    after_fill, after_outputs, cache_after, lemma_after_outputs_step, lemma_flow_succeeds, total_value, fill, flow, lemma_fill, lemma_width_prefix, mark_uncommon,
    ranges_bytes, ranges_encodable, ranges_valid, ranges_wf, sat_add, satpoints_after, valid_range, width,
};
use crate::height::{is_common, lemma_issuance_bound, starting_ordinal, starting_ordinal_of, subsidy, subsidy_of};
use crate::table::bytes_eq;
use crate::table::{ByteTable, OrdinalTable};

verus! {

#[derive(Clone, Debug)]
/// A transaction as the indexer reads it: its id, the outputs it spends, and its output values.
pub struct Transaction {
    pub txid: [u8; 32],
    pub input: Vec<OutPoint>,
    pub output: Vec<u64>,
}

#[derive(Clone, Debug)]
/// A block as the indexer reads it; its transaction 0 is the coinbase.
pub struct Block {
    pub prev_blockhash: [u8; 32],
    pub hash: [u8; 32],
    pub time: i64,
    pub txdata: Vec<Transaction>,
}

/// What the indexer's steps act on: the cache, the output table and the satpoint table.
pub struct Ledger {
    pub cache: Map<Seq<u8>, Seq<u8>>,
    pub outputs: Map<Seq<u8>, Seq<u8>>,
    pub sats: Map<u64, Seq<u8>>,
}

/// The ranges that an encoded range list holds, one per whole 11 bytes.
pub open spec fn decode_ranges(b: Seq<u8>) -> Seq<(u64, u64)> {
    Seq::new(b.len() / 11, |c: int| range_of_bytes(b.subrange(11 * c, 11 * c + 11)))
}

/// Every whole 11 bytes of an encoded range list have their unused bits zero.
pub open spec fn ranges_bytes_ok(b: Seq<u8>) -> bool {
    forall|c: int| 0 <= c < b.len() / 11 ==> #[trigger] range_bytes_valid(b.subrange(11 * c, 11 * c + 11))
}

/// Takes the encoded ranges of a spent output: from the cache where it is there, else from
/// the output table.
pub open spec fn take_input(st: Ledger, op: OutPoint) -> Result<(Ledger, Seq<u8>), IndexError> {
    let k = outpoint_bytes(op.txid@, op.vout);
    if st.cache.contains_key(k) {
        Ok((Ledger { cache: st.cache.remove(k), outputs: st.outputs, sats: st.sats }, st.cache[k]))
    } else if st.outputs.contains_key(k) {
        Ok((Ledger { cache: st.cache, outputs: st.outputs.remove(k), sats: st.sats }, st.outputs[k]))
    } else {
        Err(IndexError::MissingOutpoint)
    }
}

/// Takes the ranges of all the spent outputs, in order, into one queue.
pub open spec fn gather(st: Ledger, inputs: Seq<OutPoint>) -> Result<(Ledger, Seq<(u64, u64)>), IndexError>
    decreases inputs.len(),
{
    if inputs.len() == 0 {
        Ok((st, Seq::empty()))
    } else {
        match gather(st, inputs.drop_last()) {
            Ok((st1, q)) => match take_input(st1, inputs.last()) {
                Ok((st2, b)) => if ranges_bytes_ok(b) {
                    Ok((st2, q + decode_ranges(b)))
                } else {
                    Err(IndexError::DomainEncode)
                },
                Err(e) => Err(e),
            },
            Err(e) => Err(e),
        }
    }
}

/// Serves the outputs of transaction `txid` from the queue `q`; returns the fee.
pub open spec fn apply_outputs(st: Ledger, txid: Seq<u8>, q: Seq<(u64, u64)>, values: Seq<u64>) -> Result<
    (Ledger, Seq<(u64, u64)>),
    IndexError,
> {
    match flow(q, values) {
        Ok((outs, rest)) => Ok(
            (
                Ledger {
                    cache: cache_after(st.cache, txid, outs),
                    outputs: st.outputs,
                    sats: satpoints_after(st.sats, txid, outs),
                },
                rest,
            ),
        ),
        Err(e) => Err(e),
    }
}

/// Applies the transactions `txs` in order, each fed by its inputs; their fees join `fees`.
pub open spec fn spend(st: Ledger, txs: Seq<Transaction>, fees: Seq<(u64, u64)>) -> Result<
    (Ledger, Seq<(u64, u64)>),
    IndexError,
>
    decreases txs.len(),
{
    if txs.len() == 0 {
        Ok((st, fees))
    } else {
        match spend(st, txs.drop_last(), fees) {
            Ok((st1, f1)) => match gather(st1, txs.last().input@) {
                Ok((st2, q)) => match apply_outputs(st2, txs.last().txid@, q, txs.last().output@) {
                    Ok((st3, rest)) => Ok((st3, f1 + rest)),
                    Err(e) => Err(e),
                },
                Err(e) => Err(e),
            },
            Err(e) => Err(e),
        }
    }
}

/// The range that the block at height `h` issues, if its subsidy is positive.
pub open spec fn subsidy_ranges(h: u64) -> Seq<(u64, u64)> {
    if subsidy_of(h as nat) > 0 {
        seq![
            (
                starting_ordinal_of(h as nat) as u64,
                (starting_ordinal_of(h as nat) + subsidy_of(h as nat)) as u64,
            ),
        ]
    } else {
        Seq::empty()
    }
}

/// The range that a height issues is a valid range as wide as its subsidy.
pub proof fn lemma_subsidy_ranges_valid(h: u64)
    ensures
        ranges_valid(subsidy_ranges(h)),
        width(subsidy_ranges(h)) == subsidy_of(h as nat),
{
    lemma_issuance_bound(h as nat);
    let q = subsidy_ranges(h);
    if subsidy_of(h as nat) > 0 {
        assert(valid_range(q[0]));
        assert(q.drop_last() =~= Seq::<(u64, u64)>::empty());
        assert(width(q.drop_last()) == 0);
    } else {
        assert(width(q) == 0);
    }
}

/// A block holding only its coinbase, paying out at most the subsidy, is applied without
/// failure.
pub proof fn lemma_coinbase_block_succeeds(st: Ledger, block: Block, h: u64)
    requires
        block.txdata@.len() == 1,
        total_value(block.txdata@[0].output@) <= subsidy_of(h as nat),
    ensures
        block_effect(st, block, h) is Ok,
{
    let txs = block.txdata@;
    assert(spending_txs(txs) =~= Seq::<Transaction>::empty());
    lemma_subsidy_ranges_valid(h);
    lemma_flow_succeeds(subsidy_ranges(h), txs[0].output@);
}

/// The transactions of a block but its coinbase.
pub open spec fn spending_txs(txs: Seq<Transaction>) -> Seq<Transaction> {
    if txs.len() == 0 {
        Seq::empty()
    } else {
        txs.drop_first()
    }
}

/// A block at height `h` applied to `st`: every transaction but the coinbase in order, then
/// the coinbase, fed by the subsidy followed by the fees.
pub open spec fn block_effect(st: Ledger, block: Block, h: u64) -> Result<Ledger, IndexError> {
    let txs = block.txdata@;
    match spend(st, spending_txs(txs), subsidy_ranges(h)) {
        Ok((st1, fees)) => if txs.len() == 0 {
            Ok(st1)
        } else {
            match apply_outputs(st1, txs[0].txid@, fees, txs[0].output@) {
                Ok((st2, rest)) => Ok(st2),
                Err(e) => Err(e),
            }
        },
        Err(e) => Err(e),
    }
}

/// Number of outputs of the transactions `txs`.
pub open spec fn output_count(txs: Seq<Transaction>) -> nat
    decreases txs.len(),
{
    if txs.len() == 0 {
        0
    } else {
        output_count(txs.drop_last()) + txs.last().output@.len()
    }
}

proof fn lemma_output_count_first(txs: Seq<Transaction>)
    requires
        txs.len() > 0,
    ensures
        output_count(txs) == txs[0].output@.len() + output_count(txs.drop_first()),
    decreases txs.len(),
{
    if txs.len() > 1 {
        lemma_output_count_first(txs.drop_last());
        assert(txs.drop_last().drop_first() =~= txs.drop_first().drop_last());
        assert(txs.drop_first().last() == txs.last());
        assert(txs.drop_last()[0] == txs[0]);
    } else {
        assert(txs.drop_first() =~= Seq::<Transaction>::empty());
        assert(txs.drop_last() =~= Seq::<Transaction>::empty());
    }
}

/// A failure on a prefix of the inputs is the failure of them all.
pub proof fn lemma_gather_err(st: Ledger, inputs: Seq<OutPoint>, i: int)
    requires
        0 <= i <= inputs.len(),
        gather(st, inputs.subrange(0, i)) is Err,
    ensures
        gather(st, inputs) == gather(st, inputs.subrange(0, i)),
    decreases inputs.len(),
{
    if i == inputs.len() {
        assert(inputs.subrange(0, i) =~= inputs);
    } else {
        assert(inputs.drop_last().subrange(0, i) =~= inputs.subrange(0, i));
        lemma_gather_err(st, inputs.drop_last(), i);
    }
}

/// A failure on a prefix of the transactions is the failure of them all.
pub proof fn lemma_spend_err(st: Ledger, txs: Seq<Transaction>, fees: Seq<(u64, u64)>, i: int)
    requires
        0 <= i <= txs.len(),
        spend(st, txs.subrange(0, i), fees) is Err,
    ensures
        spend(st, txs, fees) == spend(st, txs.subrange(0, i), fees),
    decreases txs.len(),
{
    if i == txs.len() {
        assert(txs.subrange(0, i) =~= txs);
    } else {
        assert(txs.drop_last().subrange(0, i) =~= txs.subrange(0, i));
        lemma_spend_err(st, txs.drop_last(), fees, i);
    }
}

/// Whether two hashes are equal.
pub fn hash_eq(a: &[u8; 32], b: &[u8; 32]) -> (r: bool)
    ensures
        r == (a@ == b@),
{
    let mut i: usize = 0;
    while i < 32
        invariant
            i <= 32,
            a@.len() == 32,
            b@.len() == 32,
            forall|j: int| 0 <= j < i ==> a@[j] == b@[j],
        decreases 32 - i,
    {
        if a[i] != b[i] {
            return false;
        }
        i = i + 1;
    }
    assert(a@ =~= b@);
    true
}

#[derive(Clone)]
/// What one write transaction sees of the store.
pub struct Tables {
    /// Hash of the block accepted at each height, heights from 0 on.
    pub height_to_block_hash: Vec<[u8; 32]>,
    /// Ranges held by each unspent output, by encoded output point.
    pub outpoint_to_ordinal_ranges: ByteTable,
    /// Satpoint of each uncommon ordinal.
    pub ordinal_to_satpoint: OrdinalTable,
    /// Statistic: outputs traversed.
    pub outputs_traversed: u64,
    /// Statistic: commits.
    pub commits: u64,
}

impl Tables {
    pub open spec fn wf(&self) -> bool {
        self.outpoint_to_ordinal_ranges.wf()
    }

    /// Empty tables.
    pub fn new() -> (r: Tables)
        ensures
            r.wf(),
            r.height_to_block_hash@.len() == 0,
            r.outpoint_to_ordinal_ranges@ == Map::<Seq<u8>, Seq<u8>>::empty(),
            r.ordinal_to_satpoint@ == Map::<u64, Seq<u8>>::empty(),
            r.outputs_traversed == 0,
            r.commits == 0,
    {
        Tables {
            height_to_block_hash: Vec::new(),
            outpoint_to_ordinal_ranges: ByteTable::new(),
            ordinal_to_satpoint: OrdinalTable::new(),
            outputs_traversed: 0,
            commits: 0,
        }
    }
}

/// What the loop does after a block: whether to commit now, whether to stop, and how many
/// indexed blocks are left uncommitted.
#[derive(Clone, Copy, Debug, PartialEq, Eq, Structural)]
pub struct LoopStep {
    pub commit: bool,
    pub stop: bool,
    pub uncommitted: u64,
}

/// Blocks between two commits.
pub const COMMIT_INTERVAL: u64 = 5000;

/// Whether the loop stops before indexing the block at `height`: past the configured limit.
pub fn past_height_limit(height: u64, height_limit: Option<u64>) -> (r: bool)
    ensures
        r == (height_limit matches Some(l) && height > l),
{
    match height_limit {
        Some(l) => height > l,
        None => false,
    }
}

/// The loop's decision after iteration `i`: `done` where no block was found, `interrupted`
/// where an interrupt came. An indexed block counts as uncommitted; the uncommitted blocks are
/// committed at each nonzero multiple of the interval; the loop stops when done or interrupted.
pub fn loop_step(i: u64, done: bool, uncommitted: u64, interrupted: bool) -> (r: LoopStep)
    ensures
        ({
            let pending = if done {
                uncommitted as nat
            } else {
                sat_add(uncommitted, 1) as nat
            };
            &&& r.commit == (pending > 0 && i > 0 && i % COMMIT_INTERVAL == 0)
            &&& r.uncommitted == if r.commit {
                0
            } else {
                pending
            }
            &&& r.stop == (done || interrupted)
        }),
{
    let pending = if done {
        uncommitted
    } else {
        uncommitted.saturating_add(1)
    };
    let commit = pending > 0 && i > 0 && i % COMMIT_INTERVAL == 0;
    LoopStep { commit, stop: done || interrupted, uncommitted: if commit { 0 } else { pending } }
}

/// The indexer's state between blocks.
pub struct Updater {
    cache: ByteTable,
    outputs_traversed: u64,
    outputs_cached: u64,
    outputs_inserted_since_flush: u64,
    height: u64,
}

impl Updater {
    /// What the cache holds: encoded output point to encoded ranges.
    pub closed spec fn cache_view(&self) -> Map<Seq<u8>, Seq<u8>> {
        self.cache@
    }

    pub closed spec fn wf(&self) -> bool {
        self.cache.wf()
    }

    pub closed spec fn height_spec(&self) -> u64 {
        self.height
    }

    pub closed spec fn outputs_traversed_spec(&self) -> u64 {
        self.outputs_traversed
    }

    pub closed spec fn outputs_cached_spec(&self) -> u64 {
        self.outputs_cached
    }

    pub closed spec fn inserted_since_flush_spec(&self) -> u64 {
        self.outputs_inserted_since_flush
    }

    /// The encoded ranges that the cache holds under `key`.
    pub fn cached(&self, key: &[u8]) -> (r: Option<Vec<u8>>)
        requires
            self.wf(),
        ensures
            r is Some <==> self.cache_view().contains_key(key@),
            r matches Some(v) ==> v@ == self.cache_view()[key@],
    {
        self.cache.get(key)
    }

    /// Number of entries in the cache.
    pub fn cache_len(&self) -> (r: usize)
        requires
            self.wf(),
        ensures
            r == self.cache_view().len(),
    {
        self.cache.len()
    }

    /// Outputs indexed since the last commit.
    pub fn outputs_traversed(&self) -> (r: u64)
        ensures
            r == self.outputs_traversed_spec(),
    {
        self.outputs_traversed
    }

    /// Spent outputs served from the cache.
    pub fn outputs_cached(&self) -> (r: u64)
        ensures
            r == self.outputs_cached_spec(),
    {
        self.outputs_cached
    }

    /// Cache insertions since the last flush.
    pub fn outputs_inserted_since_flush(&self) -> (r: u64)
        ensures
            r == self.inserted_since_flush_spec(),
    {
        self.outputs_inserted_since_flush
    }

    /// Height of the next block to index.
    pub fn height(&self) -> (r: u64)
        ensures
            r == self.height_spec(),
    {
        self.height
    }

    /// Puts the ranges `ordinals` of a new output into the cache.
    pub fn insert(&mut self, outpoint: &mut OutPoint, ordinals: Vec<u8>)
        requires
            old(self).wf(),
        ensures
            final(self).wf(),
            *final(outpoint) == *old(outpoint),
            final(self).cache_view() == old(self).cache_view().insert(
                outpoint_bytes(old(outpoint).txid@, old(outpoint).vout),
                ordinals@,
            ),
            final(self).inserted_since_flush_spec() == sat_add(old(self).inserted_since_flush_spec(), 1),
            final(self).height_spec() == old(self).height_spec(),
            final(self).outputs_traversed_spec() == old(self).outputs_traversed_spec(),
            final(self).outputs_cached_spec() == old(self).outputs_cached_spec(),
    {
        let key = encode_outpoint(*outpoint);
        self.cache.insert(key, ordinals);
        self.outputs_inserted_since_flush = self.outputs_inserted_since_flush.saturating_add(1);
    }

    /// Takes the ranges of a spent output: from the cache where it is there, else from the table.
    pub fn get_and_remove(&mut self, outpoint: OutPoint, outpoint_to_ordinal_ranges: &mut ByteTable) -> (r:
        Result<Vec<u8>, IndexError>)
        requires
            old(self).wf(),
            old(outpoint_to_ordinal_ranges).wf(),
        ensures
            final(self).wf(),
            final(outpoint_to_ordinal_ranges).wf(),
            final(self).height_spec() == old(self).height_spec(),
            final(self).outputs_traversed_spec() == old(self).outputs_traversed_spec(),
            final(self).inserted_since_flush_spec() == old(self).inserted_since_flush_spec(),
            ({
                let k = outpoint_bytes(outpoint.txid@, outpoint.vout);
                if old(self).cache_view().contains_key(k) {
                    &&& r matches Ok(v) && v@ == old(self).cache_view()[k]
                    &&& final(self).cache_view() == old(self).cache_view().remove(k)
                    &&& final(outpoint_to_ordinal_ranges)@ == old(outpoint_to_ordinal_ranges)@
                    &&& final(self).outputs_cached_spec() == sat_add(old(self).outputs_cached_spec(), 1)
                } else if old(outpoint_to_ordinal_ranges)@.contains_key(k) {
                    &&& r matches Ok(v) && v@ == old(outpoint_to_ordinal_ranges)@[k]
                    &&& final(self).cache_view() == old(self).cache_view()
                    &&& final(outpoint_to_ordinal_ranges)@ == old(outpoint_to_ordinal_ranges)@.remove(k)
                    &&& final(self).outputs_cached_spec() == old(self).outputs_cached_spec()
                } else {
                    &&& r == Err::<Vec<u8>, IndexError>(IndexError::MissingOutpoint)
                    &&& final(self).cache_view() == old(self).cache_view()
                    &&& final(outpoint_to_ordinal_ranges)@ == old(outpoint_to_ordinal_ranges)@
                    &&& final(self).outputs_cached_spec() == old(self).outputs_cached_spec()
                }
            }),
    {
        let key = encode_outpoint(outpoint);
        match self.cache.remove(key.as_slice()) {
            Some(ord_range_vec) => {
                self.outputs_cached = self.outputs_cached.saturating_add(1);
                Ok(ord_range_vec)
            },
            None => match outpoint_to_ordinal_ranges.remove(key.as_slice()) {
                Some(ord_range) => Ok(ord_range),
                None => Err(IndexError::MissingOutpoint),
            },
        }
    }
}

impl Updater {
    /// The ledger that this updater and `tables` make up.
    pub open spec fn ledger(&self, tables: &Tables) -> Ledger {
        Ledger {
            cache: self.cache_view(),
            outputs: tables.outpoint_to_ordinal_ranges@,
            sats: tables.ordinal_to_satpoint@,
        }
    }

    /// Starts an update: the indexer resumes right after the last height that `tables` hold.
    pub fn update(tables: &Tables) -> (r: Updater)
        ensures
            r.wf(),
            r.height_spec() == tables.height_to_block_hash@.len(),
            r.cache_view() == Map::<Seq<u8>, Seq<u8>>::empty(),
            r.outputs_traversed_spec() == 0,
            r.outputs_cached_spec() == 0,
            r.inserted_since_flush_spec() == 0,
    {
        Updater {
            cache: ByteTable::new(),
            outputs_traversed: 0,
            outputs_cached: 0,
            outputs_inserted_since_flush: 0,
            height: tables.height_to_block_hash.len() as u64,
        }
    }

    /// Writes every cache entry to the output table and empties the cache.
    pub fn flush(&mut self, tables: &mut Tables)
        requires
            old(self).wf(),
            old(tables).wf(),
        ensures
            final(self).wf(),
            final(tables).wf(),
            final(self).cache_view() == Map::<Seq<u8>, Seq<u8>>::empty(),
            final(tables).outpoint_to_ordinal_ranges@ == old(tables).outpoint_to_ordinal_ranges@.union_prefer_right(
                old(self).cache_view(),
            ),
            final(tables).height_to_block_hash == old(tables).height_to_block_hash,
            final(tables).ordinal_to_satpoint@ == old(tables).ordinal_to_satpoint@,
            final(tables).outputs_traversed == old(tables).outputs_traversed,
            final(tables).commits == old(tables).commits,
            final(self).inserted_since_flush_spec() == 0,
            final(self).height_spec() == old(self).height_spec(),
            final(self).outputs_traversed_spec() == old(self).outputs_traversed_spec(),
            final(self).outputs_cached_spec() == old(self).outputs_cached_spec(),
    {
        self.cache.drain_into(&mut tables.outpoint_to_ordinal_ranges);
        self.outputs_inserted_since_flush = 0;
    }

    /// Ends a batch of blocks: flushes the cache, then adds the outputs traversed since the
    /// last commit to their statistic, resetting the local count, and counts the commit.
    pub fn commit(&mut self, tables: &mut Tables)
        requires
            old(self).wf(),
            old(tables).wf(),
        ensures
            final(self).wf(),
            final(tables).wf(),
            final(self).cache_view() == Map::<Seq<u8>, Seq<u8>>::empty(),
            final(tables).outpoint_to_ordinal_ranges@ == old(tables).outpoint_to_ordinal_ranges@.union_prefer_right(
                old(self).cache_view(),
            ),
            final(tables).height_to_block_hash == old(tables).height_to_block_hash,
            final(tables).ordinal_to_satpoint@ == old(tables).ordinal_to_satpoint@,
            final(tables).outputs_traversed == sat_add(
                old(tables).outputs_traversed,
                old(self).outputs_traversed_spec() as nat,
            ),
            final(tables).commits == sat_add(old(tables).commits, 1),
            final(self).inserted_since_flush_spec() == 0,
            final(self).outputs_traversed_spec() == 0,
            final(self).height_spec() == old(self).height_spec(),
            final(self).outputs_cached_spec() == old(self).outputs_cached_spec(),
    {
        self.flush(tables);
        tables.outputs_traversed = tables.outputs_traversed.saturating_add(self.outputs_traversed);
        self.outputs_traversed = 0;
        tables.commits = tables.commits.saturating_add(1);
    }

    /// Indexes the block at the current height, which the caller fetched (`None`: there is
    /// none yet, and the result is `Ok(true)`). A block that does not link to the hash stored
    /// at the height before fails with `ReorgDetected` and changes nothing; any other block is
    /// applied as `block_effect` says, its hash stored and the height advanced.
    #[verifier::loop_isolation(false)]
    pub fn index_block(&mut self, tables: &mut Tables, block: Option<&Block>) -> (r: Result<bool, IndexError>)
        requires
            old(self).wf(),
            old(tables).wf(),
            old(tables).height_to_block_hash@.len() == old(self).height_spec(),
            old(self).height_spec() < u64::MAX,
            block matches Some(b) ==> forall|t: int|
                0 <= t < b.txdata@.len() ==> #[trigger] b.txdata@[t].output@.len() <= 0x1_0000_0000,
        ensures
            final(self).wf(),
            final(tables).wf(),
            final(tables).outputs_traversed == old(tables).outputs_traversed,
            final(tables).commits == old(tables).commits,
            match block {
                None => {
                    &&& r == Ok::<bool, IndexError>(true)
                    &&& final(self).ledger(final(tables)) == old(self).ledger(old(tables))
                    &&& final(tables).height_to_block_hash == old(tables).height_to_block_hash
                    &&& final(self).height_spec() == old(self).height_spec()
                    &&& final(self).outputs_traversed_spec() == old(self).outputs_traversed_spec()
                    &&& final(self).outputs_cached_spec() == old(self).outputs_cached_spec()
                    &&& final(self).inserted_since_flush_spec() == old(self).inserted_since_flush_spec()
                },
                Some(b) => {
                    let h = old(self).height_spec();
                    if h > 0 && old(tables).height_to_block_hash@[h - 1]@ != b.prev_blockhash@ {
                        &&& r == Err::<bool, IndexError>(IndexError::ReorgDetected((h - 1) as u64))
                        &&& final(self).ledger(final(tables)) == old(self).ledger(old(tables))
                        &&& final(tables).height_to_block_hash == old(tables).height_to_block_hash
                        &&& final(self).height_spec() == old(self).height_spec()
                        &&& final(self).outputs_traversed_spec() == old(self).outputs_traversed_spec()
                        &&& final(self).outputs_cached_spec() == old(self).outputs_cached_spec()
                        &&& final(self).inserted_since_flush_spec() == old(self).inserted_since_flush_spec()
                    } else {
                        match block_effect(old(self).ledger(old(tables)), *b, h) {
                            Ok(st) => {
                                &&& r == Ok::<bool, IndexError>(false)
                                &&& final(self).ledger(final(tables)) == st
                                &&& final(tables).height_to_block_hash@
                                    == old(tables).height_to_block_hash@.push(b.hash)
                                &&& final(self).height_spec() == h + 1
                                &&& final(self).outputs_traversed_spec() == sat_add(
                                    old(self).outputs_traversed_spec(),
                                    output_count(b.txdata@),
                                )
                            },
                            Err(e) => {
                                &&& r == Err::<bool, IndexError>(e)
                                &&& final(tables).height_to_block_hash == old(tables).height_to_block_hash
                                &&& final(self).height_spec() == old(self).height_spec()
                            },
                        }
                    }
                },
            },
    {
        let blk = match block {
            None => return Ok(true),
            Some(b) => b,
        };
        if self.height > 0 {
            let prev = &tables.height_to_block_hash[tables.height_to_block_hash.len() - 1];
            if !hash_eq(prev, &blk.prev_blockhash) {
                return Err(IndexError::ReorgDetected(self.height - 1));
            }
        }
        let ghost st0 = self.ledger(tables);
        let ghost txs = blk.txdata@;
        let ghost nc = spending_txs(txs);
        let mut coinbase_inputs: VecDeque<(u64, u64)> = VecDeque::new();
        let sub = subsidy(self.height);
        if sub > 0 {
            let start = starting_ordinal(self.height);
            coinbase_inputs.push_front((start, start + sub));
        }
        assert(coinbase_inputs@ =~= subsidy_ranges(self.height));
        let mut outputs_in_block: u64 = 0;
        let n = blk.txdata.len();
        let mut t: usize = 1;
        assert(nc.subrange(0, 0) =~= Seq::<Transaction>::empty());
        while t < n
            invariant
                1 <= t,
                n == txs.len(),
                t <= n || (n == 0 && t == 1),
                nc.len() == if n == 0 {
                    0
                } else {
                    n - 1
                },
                self.wf(),
                tables.wf(),
                ranges_wf(coinbase_inputs@),
                spend(st0, nc.subrange(0, t - 1), subsidy_ranges(old(self).height_spec()))
                    == Ok::<(Ledger, Seq<(u64, u64)>), IndexError>(
                    (self.ledger(tables), coinbase_inputs@),
                ),
                tables.height_to_block_hash == old(tables).height_to_block_hash,
                tables.outputs_traversed == old(tables).outputs_traversed,
                tables.commits == old(tables).commits,
                self.height_spec() == old(self).height_spec(),
                self.outputs_traversed_spec() == old(self).outputs_traversed_spec(),
                outputs_in_block == sat_add(0, output_count(nc.subrange(0, t - 1))),
            decreases n - t,
        {
            let tx = &blk.txdata[t];
            let ghost sub_t = nc.subrange(0, t - 1);
            let ghost sub_t1 = nc.subrange(0, t as int);
            assert(nc[t - 1] == *tx);
            assert(sub_t1.drop_last() =~= sub_t);
            assert(sub_t1.last() == *tx);
            match self.spend_transaction(tables, tx, &mut coinbase_inputs, &mut outputs_in_block) {
                Ok(()) => {},
                Err(e) => {
                    proof {
                        lemma_spend_err(st0, nc, subsidy_ranges(old(self).height_spec()), t as int);
                    }
                    return Err(e);
                },
            }
            t = t + 1;
        }
        proof {
            if n > 0 {
                lemma_output_count_first(txs);
            }
        }
        if n > 0 {
            assert(nc.subrange(0, n - 1) =~= nc);
            let tx = &blk.txdata[0];
            assert(txs[0] == *tx);
            let ghost st1 = self.ledger(tables);
            let ghost fees = coinbase_inputs@;
            assert(spend(st0, nc, subsidy_ranges(old(self).height_spec())) == Ok::<(Ledger, Seq<(u64, u64)>), IndexError>((st1, fees)));
            match self.index_transaction(
                tx.txid,
                tx,
                &mut tables.ordinal_to_satpoint,
                &mut coinbase_inputs,
                &mut outputs_in_block,
            ) {
                Ok(()) => {},
                Err(e) => {
                    return Err(e);
                },
            }
            let ghost ao = apply_outputs(st1, txs[0].txid@, fees, txs[0].output@);
            assert(ao is Ok);
            assert(spending_txs(txs) == nc);
        } else {
            assert(nc.subrange(0, 0) =~= nc);
            assert(spending_txs(txs) == nc);
            assert(blk.txdata@ == txs);
        }
        tables.height_to_block_hash.push(blk.hash);
        self.height = self.height + 1;
        self.outputs_traversed = self.outputs_traversed.saturating_add(outputs_in_block);
        Ok(false)
    }

    /// Takes the ranges of every output that `inputs` spend, in order, into one queue.
    #[verifier::loop_isolation(false)]
    fn gather_inputs(&mut self, tables: &mut Tables, inputs: &Vec<OutPoint>) -> (r: Result<
        VecDeque<(u64, u64)>,
        IndexError,
    >)
        requires
            old(self).wf(),
            old(tables).wf(),
        ensures
            final(self).wf(),
            final(tables).wf(),
            final(tables).height_to_block_hash == old(tables).height_to_block_hash,
            final(tables).outputs_traversed == old(tables).outputs_traversed,
            final(tables).commits == old(tables).commits,
            final(self).height_spec() == old(self).height_spec(),
            final(self).outputs_traversed_spec() == old(self).outputs_traversed_spec(),
            match gather(old(self).ledger(old(tables)), inputs@) {
                Ok((st, q)) => r matches Ok(d) && d@ == q && ranges_wf(q) && final(self).ledger(
                    final(tables),
                ) == st,
                Err(e) => r == Err::<VecDeque<(u64, u64)>, IndexError>(e),
            },
    {
        let ghost st_t = self.ledger(tables);
        let mut input_ordinal_ranges: VecDeque<(u64, u64)> = VecDeque::new();
        let mut i: usize = 0;
        assert(inputs@.subrange(0, 0) =~= Seq::<OutPoint>::empty());
        while i < inputs.len()
            invariant
                i <= inputs@.len(),
                self.wf(),
                tables.wf(),
                ranges_wf(input_ordinal_ranges@),
                gather(st_t, inputs@.subrange(0, i as int)) == Ok::<
                    (Ledger, Seq<(u64, u64)>),
                    IndexError,
                >((self.ledger(tables), input_ordinal_ranges@)),
                tables.height_to_block_hash == old(tables).height_to_block_hash,
                tables.outputs_traversed == old(tables).outputs_traversed,
                tables.commits == old(tables).commits,
                self.height_spec() == old(self).height_spec(),
                self.outputs_traversed_spec() == old(self).outputs_traversed_spec(),
            decreases inputs@.len() - i,
        {
            let ghost pre = inputs@.subrange(0, i as int);
            let ghost pre1 = inputs@.subrange(0, i + 1);
            assert(pre1.drop_last() =~= pre);
            assert(pre1.last() == inputs@[i as int]);
            let ghost q_before = input_ordinal_ranges@;
            let bytes = match self.get_and_remove(inputs[i], &mut tables.outpoint_to_ordinal_ranges) {
                Ok(b) => b,
                Err(e) => {
                    proof {
                        lemma_gather_err(st_t, inputs@, i + 1);
                    }
                    return Err(e);
                },
            };
            let nchunks = bytes.len() / 11;
            let mut c: usize = 0;
            while c < nchunks
                invariant
                    c <= nchunks,
                    nchunks == bytes@.len() / 11,
                    ranges_wf(input_ordinal_ranges@),
                    forall|c2: int| 0 <= c2 < c ==> bytes@[#[trigger] (11 * c2 + 9)] == 0 && bytes@[11 * c2 + 10] == 0,
                    input_ordinal_ranges@ == q_before + Seq::new(
                        c as nat,
                        |j: int| range_of_bytes(bytes@.subrange(11 * j, 11 * j + 11)),
                    ),
                decreases nchunks - c,
            {
                let ghost chunk = bytes@.subrange(11 * c, 11 * c + 11);
                assert(chunk[9] == bytes@[11 * c + 9] && chunk[10] == bytes@[11 * c + 10]);
                if bytes[11 * c + 9] != 0 || bytes[11 * c + 10] != 0 {
                    proof {
                        assert(!range_bytes_valid(chunk));
                        assert(!ranges_bytes_ok(bytes@));
                        lemma_gather_err(st_t, inputs@, i + 1);
                    }
                    return Err(IndexError::DomainEncode);
                }
                let range = decode_range(bytes.as_slice(), 11 * c);
                input_ordinal_ranges.push_back(range);
                c = c + 1;
                assert(input_ordinal_ranges@ =~= q_before + Seq::new(
                    c as nat,
                    |j: int| range_of_bytes(bytes@.subrange(11 * j, 11 * j + 11)),
                ));
            }
            assert(Seq::new(
                nchunks as nat,
                |j: int| range_of_bytes(bytes@.subrange(11 * j, 11 * j + 11)),
            ) =~= decode_ranges(bytes@));
            assert(c == nchunks);
            assert forall|c2: int| 0 <= c2 < bytes@.len() / 11 implies #[trigger] range_bytes_valid(
                bytes@.subrange(11 * c2, 11 * c2 + 11),
            ) by {
                assert(c2 < c);
                assert(bytes@[11 * c2 + 9] == 0 && bytes@[11 * c2 + 10] == 0);
                let ch = bytes@.subrange(11 * c2, 11 * c2 + 11);
                assert(ch[9] == bytes@[11 * c2 + 9] && ch[10] == bytes@[11 * c2 + 10]);
            }
            i = i + 1;
        }
        assert(inputs@.subrange(0, inputs@.len() as int) =~= inputs@);
        Ok(input_ordinal_ranges)
    }

    /// Applies one transaction that is not a coinbase: gathers its inputs, serves its outputs,
    /// and appends its fee to `fees`.
    fn spend_transaction(
        &mut self,
        tables: &mut Tables,
        tx: &Transaction,
        fees: &mut VecDeque<(u64, u64)>,
        outputs_in_block: &mut u64,
    ) -> (r: Result<(), IndexError>)
        requires
            old(self).wf(),
            old(tables).wf(),
            ranges_wf(old(fees)@),
            tx.output@.len() <= 0x1_0000_0000,
        ensures
            final(self).wf(),
            final(tables).wf(),
            final(tables).height_to_block_hash == old(tables).height_to_block_hash,
            final(tables).outputs_traversed == old(tables).outputs_traversed,
            final(tables).commits == old(tables).commits,
            final(self).height_spec() == old(self).height_spec(),
            match gather(old(self).ledger(old(tables)), tx.input@) {
                Ok((st2, q)) => match apply_outputs(st2, tx.txid@, q, tx.output@) {
                    Ok((st3, rest)) => {
                        &&& r is Ok
                        &&& *final(outputs_in_block) == sat_add(*old(outputs_in_block), tx.output@.len())
                        &&& final(self).outputs_traversed_spec() == old(self).outputs_traversed_spec()
                        &&& final(self).ledger(final(tables)) == st3
                        &&& final(fees)@ == old(fees)@ + rest
                        &&& ranges_wf(final(fees)@)
                    },
                    Err(e) => r == Err::<(), IndexError>(e),
                },
                Err(e) => r == Err::<(), IndexError>(e),
            },
    {
        let mut input_ordinal_ranges = match self.gather_inputs(tables, &tx.input) {
            Ok(q) => q,
            Err(e) => return Err(e),
        };
        match self.index_transaction(
            tx.txid,
            tx,
            &mut tables.ordinal_to_satpoint,
            &mut input_ordinal_ranges,
            outputs_in_block,
        ) {
            Ok(()) => {},
            Err(e) => return Err(e),
        }
        let ghost fees_before = fees@;
        let ghost rest = input_ordinal_ranges@;
        fees.append(&mut input_ordinal_ranges);
        assert(ranges_wf(fees@)) by {
            assert forall|k: int| 0 <= k < fees@.len() implies #[trigger] fees@[k].0 <= fees@[k].1 by {
                if k < fees_before.len() {
                    assert(fees@[k] == fees_before[k]);
                } else {
                    assert(fees@[k] == rest[k - fees_before.len()]);
                }
            }
        }
        Ok(())
    }

    /// Serves the outputs of a transaction, in order, from the front of the queue
    /// `input_ordinal_ranges`, as `flow` describes: each output's ranges go to the cache under
    /// its output point, and each assigned range whose base is uncommon gets its satpoint.
    /// What stays in the queue is the fee.
    #[verifier::loop_isolation(false)]
    pub fn index_transaction(
        &mut self,
        txid: [u8; 32],
        tx: &Transaction,
        ordinal_to_satpoint: &mut OrdinalTable,
        input_ordinal_ranges: &mut VecDeque<(u64, u64)>,
        outputs_traversed: &mut u64,
    ) -> (r: Result<(), IndexError>)
        requires
            old(self).wf(),
            ranges_wf(old(input_ordinal_ranges)@),
            tx.output@.len() <= 0x1_0000_0000,
        ensures
            final(self).wf(),
            final(self).height_spec() == old(self).height_spec(),
            final(self).outputs_traversed_spec() == old(self).outputs_traversed_spec(),
            final(self).outputs_cached_spec() == old(self).outputs_cached_spec(),
            match flow(old(input_ordinal_ranges)@, tx.output@) {
                Ok((outs, rest)) => {
                    &&& r is Ok
                    &&& final(input_ordinal_ranges)@ == rest
                    &&& ranges_wf(rest)
                    &&& final(self).cache_view() == cache_after(old(self).cache_view(), txid@, outs)
                    &&& final(ordinal_to_satpoint)@ == satpoints_after(
                        old(ordinal_to_satpoint)@,
                        txid@,
                        outs,
                    )
                    &&& *final(outputs_traversed) == sat_add(*old(outputs_traversed), tx.output@.len())
                    &&& final(self).inserted_since_flush_spec() == sat_add(
                        old(self).inserted_since_flush_spec(),
                        tx.output@.len(),
                    )
                },
                Err(e) => r == Err::<(), IndexError>(e),
            },
    {
        let ghost q0 = input_ordinal_ranges@;
        let ghost values = tx.output@;
        let ghost n = values.len() as int;
        let ghost mut done: Seq<Seq<(u64, u64)>> = Seq::empty();
        assert(values.subrange(0, n) =~= values);
        assert(done + Seq::<Seq<(u64, u64)>>::empty() =~= done);
        let mut vout: usize = 0;
        while vout < tx.output.len()
            invariant
                self.wf(),
                ranges_wf(input_ordinal_ranges@),
                vout <= n,
                done.len() == vout,
                flow(q0, values) == after_outputs(
                    done,
                    flow(input_ordinal_ranges@, values.subrange(vout as int, n)),
                ),
                self.cache_view() == cache_after(old(self).cache_view(), txid@, done),
                ordinal_to_satpoint@ == satpoints_after(old(ordinal_to_satpoint)@, txid@, done),
                *outputs_traversed == sat_add(*old(outputs_traversed), vout as nat),
                self.inserted_since_flush_spec() == sat_add(
                    old(self).inserted_since_flush_spec(),
                    vout as nat,
                ),
                self.height_spec() == old(self).height_spec(),
                self.outputs_traversed_spec() == old(self).outputs_traversed_spec(),
                self.outputs_cached_spec() == old(self).outputs_cached_spec(),
            decreases n - vout,
        {
            let value = tx.output[vout];
            let ghost qk = input_ordinal_ranges@;
            let ghost vals_k = values.subrange(vout as int, n);
            assert(vals_k[0] == value);
            assert(vals_k.drop_first() =~= values.subrange(vout + 1, n));
            let mut outpoint = OutPoint { txid, vout: vout as u32 };
            let mut assigned: Vec<(u64, u64)> = Vec::new();
            let mut remaining: u64 = value;
            assert(assigned@ + Seq::<(u64, u64)>::empty() =~= assigned@);
            while remaining > 0
                invariant
                    ranges_wf(input_ordinal_ranges@),
                    fill(qk, value as nat) == after_fill(
                        assigned@,
                        fill(input_ordinal_ranges@, remaining as nat),
                    ),
                decreases input_ordinal_ranges@.len() + if remaining > 0 {
                    1int
                } else {
                    0int
                },
            {
                let ghost q = input_ordinal_ranges@;
                match input_ordinal_ranges.pop_front() {
                    None => {
                        return Err(IndexError::InsufficientInputs);
                    },
                    Some(range) => {
                        let b = range.0;
                        let e = range.1;
                        assert(q[0].0 <= q[0].1);
                        assert(input_ordinal_ranges@ =~= q.drop_first());
                        assert(ranges_wf(input_ordinal_ranges@)) by {
                            assert forall|i: int| 0 <= i < input_ordinal_ranges@.len() implies #[trigger] input_ordinal_ranges@[i].0
                                <= input_ordinal_ranges@[i].1 by {
                                assert(input_ordinal_ranges@[i] == q[i + 1]);
                            }
                        }
                        let count = e - b;
                        if count > remaining {
                            let middle = b + remaining;
                            input_ordinal_ranges.push_front((middle, e));
                            assigned.push((b, middle));
                            remaining = 0;
                            assert(ranges_wf(input_ordinal_ranges@)) by {
                                assert forall|i: int| 0 <= i < input_ordinal_ranges@.len() implies #[trigger] input_ordinal_ranges@[i].0
                                    <= input_ordinal_ranges@[i].1 by {
                                    if i > 0 {
                                        assert(input_ordinal_ranges@[i] == q[i]);
                                    }
                                }
                            }
                        } else {
                            assigned.push((b, e));
                            remaining = remaining - count;
                        }
                    },
                }
            }
            proof {
                lemma_fill(qk, value as nat);
            }
            // encode
            let mut ordinals: Vec<u8> = Vec::new();
            let mut offset: u64 = 0;
            let mut j: usize = 0;
            let ghost a = assigned@;
            let ghost op = outpoint_bytes(txid@, vout as u32);
            let ghost sat_k = ordinal_to_satpoint@;
            assert(a.subrange(0, 0) =~= Seq::<(u64, u64)>::empty());
            while j < assigned.len()
                invariant
                    j <= a.len(),
                    assigned@ == a,
                    ordinals@ == ranges_bytes(a.subrange(0, j as int)),
                    offset == width(a.subrange(0, j as int)),
                    ordinal_to_satpoint@ == mark_uncommon(sat_k, a.subrange(0, j as int), op),
                    ranges_encodable(a.subrange(0, j as int)),
                decreases a.len() - j,
            {
                let b = assigned[j].0;
                let e = assigned[j].1;
                let ghost s1 = a.subrange(0, j + 1);
                proof {
                    lemma_width_prefix(a, j + 1);
                    assert(s1.drop_last() =~= a.subrange(0, j as int));
                    assert(s1.last() == a[j as int]);
                    assert(a[j as int].0 <= a[j as int].1);
                }
                if !is_common(b) {
                    ordinal_to_satpoint.insert(b, encode_satpoint(SatPoint { outpoint, offset }));
                }
                match push_range(&mut ordinals, b, e) {
                    Ok(()) => {},
                    Err(err) => {
                        assert(!ranges_encodable(a));
                        return Err(err);
                    },
                }
                offset = offset + (e - b);
                j = j + 1;
                assert(ranges_encodable(s1)) by {
                    assert forall|i: int| 0 <= i < s1.len() implies #[trigger] range_encodable(s1[i].0, s1[i].1) by {
                        if i < j - 1 {
                            assert(s1[i] == a.subrange(0, j - 1)[i]);
                        }
                    }
                }
            }
            assert(a.subrange(0, a.len() as int) =~= a);
            proof {
                lemma_after_outputs_step(done, a, flow(input_ordinal_ranges@, values.subrange(vout + 1, n)));
            }
            let ghost prev = done;
            proof {
                done = done.push(a);
                assert(done.drop_last() =~= prev);
                assert(done.last() == a);
            }
            *outputs_traversed = (*outputs_traversed).saturating_add(1);
            self.insert(&mut outpoint, ordinals);
            vout = vout + 1;
            assert(self.cache_view() == cache_after(old(self).cache_view(), txid@, done));
            assert(ordinal_to_satpoint@ == satpoints_after(old(ordinal_to_satpoint)@, txid@, done));
        }
        assert(values.subrange(n, n) =~= Seq::<u64>::empty());
        assert(done + Seq::<Seq<(u64, u64)>>::empty() =~= done);
        Ok(())
    }
}

} // verus!
