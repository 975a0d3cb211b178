//! Esplora-compatible indexer for a Bitcoin node's secondary indexer runtime.
//!
//! Each new block is parsed and indexed into an append-only key-value store;
//! view functions answer Esplora queries from that store.
use vstd::prelude::*;

pub mod block;
pub mod encoding;
pub mod flush;
pub mod indexer;
pub mod keys;
pub mod reads;
pub mod store;
pub mod types;
pub mod views;

use crate::block::{parse_block, parse_block_spec, try_parse_block};
use crate::indexer::{block_weight_fits, index_pairs, pairs_view, total_weight};
use crate::types::IndexValue;
use crate::store::{apply_pairs, Store};

verus! {

/// The input of the block entry point: `[height_le32 (4 bytes)][raw_block_data]`.
pub fn split_block_input(input: &[u8]) -> (res: Option<(u32, &[u8])>)
    ensures
        match res {
            Some((height, data)) => input@.len() >= 4 && height as int
                == crate::encoding::le_u32_at(input@, 0) && data@ == input@.subrange(
                4,
                input@.len() as int,
            ),
            None => input@.len() < 4,
        },
{
    if input.len() < 4 {
        return None;
    }
    let height = crate::encoding::read_u32_le(input, 0);
    Some((height, vstd::slice::slice_subrange(input, 4, input.len())))
}

/// Parses the block in `block_data` and writes its index records at `height`.
pub fn index_block(store: &mut Store, height: u32, block_data: &[u8])
    requires
        parse_block_spec(block_data@) is Some,
        block_weight_fits(parse_block_spec(block_data@).unwrap()),
    ensures
        final(store)@ == apply_pairs(
            old(store)@,
            index_pairs(
                height,
                parse_block_spec(block_data@).unwrap(),
                block_data@.len() as u32,
            ),
        ),
{
    let parsed = parse_block(block_data);
    let raw_size = #[verifier::truncate] (block_data.len() as u32);
    let pairs = indexer::index_block(height, &parsed, raw_size);
    store.flush(pairs);
}

/// The pairs that indexing the block in `block_data` at `height` writes, or
/// `None` where `index_block` would not return (the block does not parse, or
/// its weight does not fit a `u32`).
pub fn block_pairs(height: u32, block_data: &[u8]) -> (r: Option<Vec<(Vec<u8>, IndexValue)>>)
    ensures
        match r {
            Some(pairs) => parse_block_spec(block_data@) is Some && block_weight_fits(
                parse_block_spec(block_data@).unwrap(),
            ) && pairs_view(pairs@) == index_pairs(
                height,
                parse_block_spec(block_data@).unwrap(),
                block_data@.len() as u32,
            ),
            None => !(parse_block_spec(block_data@) is Some && block_weight_fits(
                parse_block_spec(block_data@).unwrap(),
            )),
        },
{
    match try_parse_block(block_data) {
        None => None,
        Some(parsed) => {
            let mut total: u128 = 0;
            let mut i: usize = 0;
            let ghost txs = parsed@.transactions;
            while i < parsed.transactions.len()
                invariant
                    i <= txs.len(),
                    txs == parsed@.transactions,
                    total == total_weight(txs.subrange(0, i as int)),
                    total <= i * 0xffff_ffff,
                decreases txs.len() - i,
            {
                assert(txs.subrange(0, i + 1).drop_last() =~= txs.subrange(0, i as int));
                total = total + parsed.transactions[i].weight as u128;
                i = i + 1;
            }
            assert(txs.subrange(0, i as int) =~= txs);
            if total > 0xffff_ffff {
                return None;
            }
            let raw_size = #[verifier::truncate] (block_data.len() as u32);
            Some(indexer::index_block(height, &parsed, raw_size))
        },
    }
}

/// Indexes the block where `index_block` would return; otherwise (the block
/// does not parse, or its weight does not fit a `u32`) leaves the store as it
/// is and returns `false`.
pub fn try_index_block(store: &mut Store, height: u32, block_data: &[u8]) -> (ok: bool)
    ensures
        ok == (parse_block_spec(block_data@) is Some && block_weight_fits(
            parse_block_spec(block_data@).unwrap(),
        )),
        ok ==> final(store)@ == apply_pairs(
            old(store)@,
            index_pairs(
                height,
                parse_block_spec(block_data@).unwrap(),
                block_data@.len() as u32,
            ),
        ),
        !ok ==> final(store)@ == old(store)@,
{
    match block_pairs(height, block_data) {
        None => false,
        Some(pairs) => {
            store.flush(pairs);
            true
        },
    }
}

} // verus!
