use ord::codec::{encode_outpoint, encode_range, encode_satpoint, OutPoint, SatPoint};
use ord::error::IndexError;
use ord::height::{starting_ordinal, subsidy};
use ord::table::ByteTable;
use ord::updater::{loop_step, past_height_limit, Block, LoopStep, Tables, Transaction, Updater};
use std::collections::VecDeque;

fn id(n: u8) -> [u8; 32] {
    [n; 32]
}

fn tx(txid: u8, input: Vec<OutPoint>, output: Vec<u64>) -> Transaction {
    Transaction { txid: id(txid), input, output }
}

fn block(prev: [u8; 32], hash: u8, txdata: Vec<Transaction>) -> Block {
    Block { prev_blockhash: prev, hash: id(hash), time: 0, txdata }
}

fn op(txid: u8, vout: u32) -> OutPoint {
    OutPoint { txid: id(txid), vout }
}

fn ranges(rs: &[(u64, u64)]) -> Vec<u8> {
    let mut out = Vec::new();
    for &(b, e) in rs {
        out.extend(encode_range(b, e).unwrap());
    }
    out
}

fn stored(tables: &Tables, updater: &Updater, o: OutPoint) -> Option<Vec<u8>> {
    let key = encode_outpoint(o);
    updater.cached(&key).or_else(|| tables.outpoint_to_ordinal_ranges.get(&key))
}

fn genesis() -> Block {
    block([0; 32], 100, vec![tx(1, vec![], vec![1_000_000])])
}

fn after_genesis() -> (Tables, Updater) {
    let mut tables = Tables::new();
    let mut updater = Updater::update(&tables);
    assert_eq!(updater.index_block(&mut tables, Some(&genesis())), Ok(false));
    (tables, updater)
}

#[test]
fn genesis_only() {
    let (mut tables, mut updater) = after_genesis();
    assert_eq!(updater.height(), 1);
    assert_eq!(tables.height_to_block_hash, vec![id(100)]);
    assert_eq!(stored(&tables, &updater, op(1, 0)), Some(ranges(&[(0, subsidy(0))])));
    updater.commit(&mut tables);
    assert_eq!(updater.cache_len(), 0);
    assert_eq!(
        tables.outpoint_to_ordinal_ranges.get(&encode_outpoint(op(1, 0))),
        Some(ranges(&[(0, 1_000_000)]))
    );
    assert_eq!(tables.outputs_traversed, 1);
    assert_eq!(tables.commits, 1);
    assert_eq!(updater.outputs_traversed(), 0);
}

#[test]
fn genesis_uncommon_ordinal_tracked() {
    let (tables, _updater) = after_genesis();
    let expected = encode_satpoint(SatPoint { outpoint: op(1, 0), offset: 0 });
    assert_eq!(tables.ordinal_to_satpoint.get(0), Some(expected));
    assert_eq!(tables.ordinal_to_satpoint.get(1), None);
}

#[test]
fn simple_spend() {
    let (mut tables, mut updater) = after_genesis();
    let b1 = block(
        id(100),
        101,
        vec![tx(2, vec![], vec![1_000_000]), tx(3, vec![op(1, 0)], vec![600_000, 400_000])],
    );
    assert_eq!(updater.index_block(&mut tables, Some(&b1)), Ok(false));
    assert_eq!(stored(&tables, &updater, op(1, 0)), None);
    assert_eq!(stored(&tables, &updater, op(3, 0)), Some(ranges(&[(0, 600_000)])));
    assert_eq!(
        stored(&tables, &updater, op(3, 1)),
        Some(ranges(&[(600_000, 1_000_000)]))
    );
    assert_eq!(
        stored(&tables, &updater, op(2, 0)),
        Some(ranges(&[(1_000_000, 2_000_000)]))
    );
    assert_eq!(updater.outputs_cached(), 1);
    assert_eq!(tables.height_to_block_hash, vec![id(100), id(101)]);
}

#[test]
fn spend_from_table_after_commit() {
    let (mut tables, mut updater) = after_genesis();
    updater.commit(&mut tables);
    let b1 = block(id(100), 101, vec![tx(2, vec![], vec![1_000_000]), tx(3, vec![op(1, 0)], vec![1_000_000])]);
    assert_eq!(updater.index_block(&mut tables, Some(&b1)), Ok(false));
    assert_eq!(tables.outpoint_to_ordinal_ranges.get(&encode_outpoint(op(1, 0))), None);
    assert_eq!(updater.outputs_cached(), 0);
    assert_eq!(stored(&tables, &updater, op(3, 0)), Some(ranges(&[(0, 1_000_000)])));
}

#[test]
fn fee_reflow() {
    let (mut tables, mut updater) = after_genesis();
    let b1 = block(
        id(100),
        101,
        vec![tx(2, vec![], vec![1_001_000]), tx(3, vec![op(1, 0)], vec![999_000])],
    );
    assert_eq!(updater.index_block(&mut tables, Some(&b1)), Ok(false));
    let start = starting_ordinal(1);
    assert_eq!(
        stored(&tables, &updater, op(2, 0)),
        Some(ranges(&[(start, start + subsidy(1)), (999_000, 1_000_000)]))
    );
}

#[test]
fn multi_range_output() {
    let (mut tables, mut updater) = after_genesis();
    let b1 = block(
        id(100),
        101,
        vec![tx(2, vec![], vec![1_000_000]), tx(3, vec![op(1, 0)], vec![1_000, 999_000])],
    );
    assert_eq!(updater.index_block(&mut tables, Some(&b1)), Ok(false));
    let b2 = block(
        id(101),
        102,
        vec![
            tx(4, vec![], vec![1_000_000]),
            tx(5, vec![op(3, 1), op(2, 0)], vec![1_999_000]),
        ],
    );
    assert_eq!(updater.index_block(&mut tables, Some(&b2)), Ok(false));
    assert_eq!(
        stored(&tables, &updater, op(5, 0)),
        Some(ranges(&[(1_000, 1_000_000), (1_000_000, 2_000_000)]))
    );
}

#[test]
fn split_remainder_goes_to_next_output() {
    let (mut tables, mut updater) = after_genesis();
    let b1 = block(
        id(100),
        101,
        vec![tx(2, vec![], vec![1_000_000]), tx(3, vec![op(1, 0)], vec![10, 20, 999_970])],
    );
    assert_eq!(updater.index_block(&mut tables, Some(&b1)), Ok(false));
    assert_eq!(stored(&tables, &updater, op(3, 0)), Some(ranges(&[(0, 10)])));
    assert_eq!(stored(&tables, &updater, op(3, 1)), Some(ranges(&[(10, 30)])));
    assert_eq!(stored(&tables, &updater, op(3, 2)), Some(ranges(&[(30, 1_000_000)])));
}

#[test]
fn reorg_detected() {
    let (mut tables, mut updater) = after_genesis();
    updater.commit(&mut tables);
    let before_hashes = tables.height_to_block_hash.clone();
    let bad = block(id(99), 101, vec![tx(2, vec![], vec![1_000_000]), tx(3, vec![op(1, 0)], vec![1_000_000])]);
    assert_eq!(updater.index_block(&mut tables, Some(&bad)), Err(IndexError::ReorgDetected(0)));
    assert_eq!(tables.height_to_block_hash, before_hashes);
    assert_eq!(updater.height(), 1);
    assert_eq!(
        tables.outpoint_to_ordinal_ranges.get(&encode_outpoint(op(1, 0))),
        Some(ranges(&[(0, 1_000_000)]))
    );
    assert_eq!(tables.outpoint_to_ordinal_ranges.len(), 1);
}

#[test]
fn no_block_means_done() {
    let mut tables = Tables::new();
    let mut updater = Updater::update(&tables);
    assert_eq!(updater.index_block(&mut tables, None), Ok(true));
    assert_eq!(updater.height(), 0);
}

#[test]
fn missing_outpoint() {
    let (mut tables, mut updater) = after_genesis();
    let b1 = block(id(100), 101, vec![tx(2, vec![], vec![1_000_000]), tx(3, vec![op(9, 0)], vec![1])]);
    assert_eq!(updater.index_block(&mut tables, Some(&b1)), Err(IndexError::MissingOutpoint));
}

#[test]
fn insufficient_inputs() {
    let (mut tables, mut updater) = after_genesis();
    let b1 = block(id(100), 101, vec![tx(2, vec![], vec![1_000_000]), tx(3, vec![op(1, 0)], vec![1_000_001])]);
    assert_eq!(updater.index_block(&mut tables, Some(&b1)), Err(IndexError::InsufficientInputs));
}

#[test]
fn coinbase_claiming_too_much_fails() {
    let mut tables = Tables::new();
    let mut updater = Updater::update(&tables);
    let b0 = block([0; 32], 100, vec![tx(1, vec![], vec![1_000_001])]);
    assert_eq!(updater.index_block(&mut tables, Some(&b0)), Err(IndexError::InsufficientInputs));
}

#[test]
fn domain_error_on_wide_range() {
    let mut tables = Tables::new();
    let mut updater = Updater::update(&tables);
    let mut q: VecDeque<(u64, u64)> = VecDeque::new();
    q.push_back((0, 1u64 << 21));
    let t = tx(1, vec![], vec![1u64 << 21]);
    let mut outputs = 0u64;
    let r = updater.index_transaction(t.txid, &t, &mut tables.ordinal_to_satpoint, &mut q, &mut outputs);
    assert_eq!(r, Err(IndexError::DomainEncode));
}

#[test]
fn index_transaction_leaves_fee_in_queue() {
    let mut tables = Tables::new();
    let mut updater = Updater::update(&tables);
    let mut q: VecDeque<(u64, u64)> = VecDeque::new();
    q.push_back((100, 110));
    q.push_back((200, 205));
    let t = tx(1, vec![], vec![12]);
    let mut outputs = 0u64;
    let r = updater.index_transaction(t.txid, &t, &mut tables.ordinal_to_satpoint, &mut q, &mut outputs);
    assert_eq!(r, Ok(()));
    assert_eq!(q.into_iter().collect::<Vec<_>>(), vec![(202, 205)]);
    assert_eq!(outputs, 1);
    assert_eq!(updater.cached(&encode_outpoint(op(1, 0))), Some(ranges(&[(100, 110), (200, 202)])));
    assert_eq!(updater.outputs_inserted_since_flush(), 1);
}

#[test]
fn corrupt_stored_range_is_rejected() {
    let (mut tables, mut updater) = after_genesis();
    let mut bad = ranges(&[(0, 1_000_000)]);
    bad[10] = 1;
    let mut o = op(1, 0);
    updater.insert(&mut o, bad);
    let b1 = block(id(100), 101, vec![tx(2, vec![], vec![1_000_000]), tx(3, vec![op(1, 0)], vec![1])]);
    assert_eq!(updater.index_block(&mut tables, Some(&b1)), Err(IndexError::DomainEncode));
    assert_eq!(updater.height(), 1);
    assert_eq!(tables.height_to_block_hash, vec![id(100)]);
}

#[test]
fn get_and_remove_prefers_cache() {
    let mut tables = Tables::new();
    let mut updater = Updater::update(&tables);
    let mut o = op(4, 2);
    updater.insert(&mut o, vec![1, 2, 3]);
    let mut table = ByteTable::new();
    table.insert(encode_outpoint(o), vec![9]);
    assert_eq!(updater.get_and_remove(o, &mut table), Ok(vec![1, 2, 3]));
    assert_eq!(updater.get_and_remove(o, &mut table), Ok(vec![9]));
    assert_eq!(updater.get_and_remove(o, &mut table), Err(IndexError::MissingOutpoint));
    assert_eq!(updater.outputs_cached(), 1);
    updater.flush(&mut tables);
}

#[test]
fn flush_moves_cache_to_table() {
    let mut tables = Tables::new();
    let mut updater = Updater::update(&tables);
    let mut a = op(1, 0);
    let mut b = op(1, 1);
    updater.insert(&mut a, vec![1]);
    updater.insert(&mut b, vec![2]);
    updater.insert(&mut a, vec![3]);
    assert_eq!(updater.outputs_inserted_since_flush(), 3);
    updater.flush(&mut tables);
    assert_eq!(updater.cache_len(), 0);
    assert_eq!(updater.outputs_inserted_since_flush(), 0);
    assert_eq!(tables.outpoint_to_ordinal_ranges.len(), 2);
    assert_eq!(tables.outpoint_to_ordinal_ranges.get(&encode_outpoint(a)), Some(vec![3]));
    assert_eq!(tables.outpoint_to_ordinal_ranges.get(&encode_outpoint(b)), Some(vec![2]));
}

#[test]
fn resume_from_stored_height() {
    let (mut tables, mut updater) = after_genesis();
    updater.commit(&mut tables);
    let resumed = Updater::update(&tables);
    assert_eq!(resumed.height(), 1);
}

#[test]
fn loop_commits_at_interval() {
    assert_eq!(loop_step(0, false, 0, false), LoopStep { commit: false, stop: false, uncommitted: 1 });
    assert_eq!(loop_step(5000, false, 4999, false), LoopStep { commit: true, stop: false, uncommitted: 0 });
    assert_eq!(loop_step(5000, true, 0, false), LoopStep { commit: false, stop: true, uncommitted: 0 });
    assert_eq!(loop_step(7, true, 3, false), LoopStep { commit: false, stop: true, uncommitted: 3 });
    assert_eq!(loop_step(7, false, 3, true), LoopStep { commit: false, stop: true, uncommitted: 4 });
}

#[test]
fn height_limit() {
    assert!(!past_height_limit(5, None));
    assert!(!past_height_limit(5, Some(5)));
    assert!(past_height_limit(6, Some(5)));
}

#[test]
fn outputs_fitting_inputs_succeed_and_stay_disjoint() {
    let mut tables = Tables::new();
    let mut updater = Updater::update(&tables);
    let mut q: VecDeque<(u64, u64)> = VecDeque::new();
    q.push_back((0, 100));
    q.push_back((500, 600));
    q.push_back((1_000, 1_050));
    let t = tx(7, vec![], vec![30, 150, 60]);
    let mut outputs = 0u64;
    let r = updater.index_transaction(t.txid, &t, &mut tables.ordinal_to_satpoint, &mut q, &mut outputs);
    assert_eq!(r, Ok(()));
    assert_eq!(updater.cached(&encode_outpoint(op(7, 0))), Some(ranges(&[(0, 30)])));
    assert_eq!(updater.cached(&encode_outpoint(op(7, 1))), Some(ranges(&[(30, 100), (500, 580)])));
    assert_eq!(updater.cached(&encode_outpoint(op(7, 2))), Some(ranges(&[(580, 600), (1_000, 1_040)])));
    assert_eq!(q.into_iter().collect::<Vec<_>>(), vec![(1_040, 1_050)]);
}

#[test]
fn uncommon_base_recorded_at_offset() {
    let mut tables = Tables::new();
    let mut updater = Updater::update(&tables);
    let mut q: VecDeque<(u64, u64)> = VecDeque::new();
    q.push_back((5, 10));
    q.push_back((1_000_000, 1_000_010));
    let t = tx(8, vec![], vec![15]);
    let mut outputs = 0u64;
    assert_eq!(updater.index_transaction(t.txid, &t, &mut tables.ordinal_to_satpoint, &mut q, &mut outputs), Ok(()));
    let expected = encode_satpoint(SatPoint { outpoint: op(8, 0), offset: 5 });
    assert_eq!(tables.ordinal_to_satpoint.get(1_000_000), Some(expected));
    assert_eq!(tables.ordinal_to_satpoint.get(5), None);
}
