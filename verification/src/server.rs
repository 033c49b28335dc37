//! The read side of the administrative API: what each endpoint computes
//! from the store. The HTTP plumbing around these lives outside the
//! library; every handler here is a pure function of the store.

use vstd::prelude::*;

use crate::block::{Block, BlockHeader, BlockV};
use crate::codec::{blocks_view, enc_aux, enc_block_list, enc_bytes_list, encode_aux,
    encode_block_list, encode_bytes_list, fits_u32, wf_aux, wf_bytes_list, wf_block};
use crate::db::{BlockId, Db, DbError};
use crate::digest::Digest;

verus! {

/// The current root and head heights: the root marker and the greatest
/// height any block is stored at. No head yet is a normal answer; no
/// root yet is the store's own error.
pub fn get_root(db: &Db) -> (r: Result<Option<(u32, u32)>, DbError>)
    requires
        db.wf(),
    ensures
        (match r {
            Ok(Some(p)) => {
                &&& db.root_of() == Some(p.0)
                &&& db.heights().contains_key(p.1)
                &&& (forall|h2: u32| h2 > p.1 ==> !db.heights().contains_key(h2))
            },
            Ok(None) => db.root_of() is Some && (forall|h2: u32| !db.heights().contains_key(h2)),
            Err(e) => e == DbError::RootNotFound && db.root_of() is None,
        }),
{
    let root = db.root()?;
    match db.block(BlockId::Latest) {
        None => Ok(None),
        Some((head, _)) => Ok(Some((root, head))),
    }
}

/// The brief listing: every height at or above `from` with the hashes
/// observed at it, ascending.
#[verifier::loop_isolation(false)]
pub fn get_brief(db: &Db, from: u32) -> (r: Vec<(u32, Vec<Digest>)>)
    requires
        db.wf(),
    ensures
        (forall|k: int|
            0 <= k < r@.len() ==> {
                &&& (#[trigger] r@[k]).0 >= from
                &&& db.heights().contains_key(r@[k].0)
                &&& r@[k].1@ == db.heights()[r@[k].0]@
            }),
        (forall|k: int, m: int| 0 <= k < m < r@.len() ==> (#[trigger] r@[k]).0 < (#[trigger] r@[m]).0),
        (forall|h2: u32|
            h2 >= from && #[trigger] db.heights().contains_key(h2) ==> exists|k: int|
                0 <= k < r@.len() && (#[trigger] r@[k]).0 == h2),
{
    let mut out: Vec<(u32, Vec<Digest>)> = Vec::new();
    let mut cursor: u64 = from as u64;
    while cursor <= u32::MAX as u64
        invariant
            from <= cursor,
            forall|k: int|
                0 <= k < out@.len() ==> {
                    &&& (#[trigger] out@[k]).0 >= from
                    &&& out@[k].0 < cursor
                    &&& db.heights().contains_key(out@[k].0)
                    &&& out@[k].1@ == db.heights()[out@[k].0]@
                },
            forall|k: int, m: int|
                0 <= k < m < out@.len() ==> (#[trigger] out@[k]).0 < (#[trigger] out@[m]).0,
            forall|h2: u32|
                from <= h2 < cursor && #[trigger] db.heights().contains_key(h2) ==> exists|k: int|
                    0 <= k < out@.len() && (#[trigger] out@[k]).0 == h2,
        decreases u32::MAX as int + 2 - cursor,
    {
        match db.block(BlockId::Forward(cursor as u32)) {
            None => {
                cursor = u32::MAX as u64 + 1;
            },
            Some((h, row)) => {
                let ghost pre = out@;
                let ghost oldcur = cursor;
                out.push((h, row));
                cursor = h as u64 + 1;
                proof {
                    assert(out@[out@.len() - 1].0 == h);
                    assert forall|h2: u32|
                        from <= h2 < cursor && #[trigger] db.heights().contains_key(
                            h2,
                        ) implies exists|k: int|
                        0 <= k < out@.len() && (#[trigger] out@[k]).0 == h2 by {
                        if h2 < oldcur {
                            let k = choose|k: int|
                                0 <= k < pre.len() && (#[trigger] pre[k]).0 == h2;
                            assert(out@[k] == pre[k]);
                        } else {
                            assert(h2 == h);
                            assert(out@[out@.len() - 1].0 == h2);
                        }
                    }
                }
            },
        }
    }
    out
}

/// The blocks of a row that exist in the store and are short enough to
/// frame, in row order.
pub open spec fn row_blocks(db: &Db, row: Seq<Digest>) -> Seq<BlockV>
    decreases row.len(),
{
    if row.len() == 0 {
        Seq::empty()
    } else {
        let rest = row_blocks(db, row.drop_last());
        if db.blocks().contains_key(row.last()) && wf_block(db.blocks()[row.last()]@) {
            rest.push(db.blocks()[row.last()]@)
        } else {
            rest
        }
    }
}

/// The raw binary batch of blocks at the first height at or above
/// `height`: the counted block list of every stored block of that row.
/// No such height is a normal answer.
#[verifier::loop_isolation(false)]
pub fn get_transitions(db: &Db, height: u32) -> (r: Option<Vec<u8>>)
    requires
        db.wf(),
    ensures
        (match r {
            Some(bytes) => exists|h: u32|
                {
                    &&& h >= height
                    &&& #[trigger] db.heights().contains_key(h)
                    &&& fits_u32(row_blocks(db, db.heights()[h]@).len())
                    &&& bytes@ == enc_block_list(row_blocks(db, db.heights()[h]@))
                },
            None => (forall|h2: u32| h2 >= height ==> !db.heights().contains_key(h2)) || (
            exists|h: u32|
                h >= height && #[trigger] db.heights().contains_key(h) && !fits_u32(
                    row_blocks(db, db.heights()[h]@).len(),
                )),
        }),
{
    let (h, row) = match db.block(BlockId::Forward(height)) {
        Some(p) => p,
        None => {
            return None;
        },
    };
    let ghost rowv = db.heights()[h]@;
    let mut blocks: Vec<Block> = Vec::new();
    let mut j: usize = 0;
    while j < row.len()
        invariant
            j <= rowv.len(),
            row@ == rowv,
            blocks@.len() <= j,
            blocks_view(blocks@) == row_blocks(db, rowv.subrange(0, j as int)),
        decreases rowv.len() - j,
    {
        match db.block_full(&row[j]) {
            Ok(b) => {
                if b.body.len() <= u32::MAX as usize {
                    let ghost pre = blocks@;
                    blocks.push(b);
                    proof {
                        assert(rowv.subrange(0, j + 1).drop_last() =~= rowv.subrange(0, j as int));
                        assert(blocks_view(blocks@) =~= blocks_view(pre).push(
                            blocks@.last()@,
                        ));
                    }
                } else {
                    proof {
                        assert(rowv.subrange(0, j + 1).drop_last() =~= rowv.subrange(0, j as int));
                    }
                }
            },
            Err(_) => {
                proof {
                    assert(rowv.subrange(0, j + 1).drop_last() =~= rowv.subrange(0, j as int));
                }
            },
        }
        j = j + 1;
    }
    proof {
        assert(rowv.subrange(0, rowv.len() as int) =~= rowv);
        lemma_row_blocks_wf(db, rowv);
    }
    if blocks.len() > u32::MAX as usize {
        return None;
    }
    let mut bytes: Vec<u8> = Vec::new();
    encode_block_list(&blocks, &mut bytes);
    proof {
        assert(db.heights().contains_key(h));
    }
    Some(bytes)
}

/// Every block a row yields is well-formed, and a row yields at most
/// one block per listed hash.
proof fn lemma_row_blocks_wf(db: &Db, row: Seq<Digest>)
    ensures
        row_blocks(db, row).len() <= row.len(),
        forall|k: int|
            0 <= k < row_blocks(db, row).len() ==> wf_block(#[trigger] row_blocks(db, row)[k]),
    decreases row.len(),
{
    if row.len() > 0 {
        lemma_row_blocks_wf(db, row.drop_last());
    }
}

/// The raw binary root context: the root snapshot's accounts followed by
/// the root block's auxiliary data, the bytes a fresh follower seeds
/// itself from. Owed whenever the store holds a committed root whose
/// height carries exactly one hash with snapshot and aux present; each
/// absence surfaces as the store's own error.
pub fn get_root_ledger(db: &Db) -> (r: Result<Vec<u8>, DbError>)
    requires
        db.wf(),
    ensures
        (match r {
            Ok(bytes) => {
                &&& db.root_of() matches Some(root)
                &&& db.heights().contains_key(db.root_of().unwrap())
                &&& db.heights()[db.root_of().unwrap()]@.len() == 1
                &&& ({
                    let hash = db.heights()[db.root_of().unwrap()]@[0];
                    &&& db.blocks().contains_key(hash)
                    &&& db.auxes().contains_key(hash)
                    &&& ({
                        let lh = db.blocks()[hash].header.snarked_ledger_hash;
                        &&& db.ledgers().contains_key(lh)
                        &&& wf_bytes_list(db.ledgers()[lh].deep_view())
                        &&& wf_aux(db.auxes()[hash]@)
                        &&& bytes@ == enc_bytes_list(db.ledgers()[lh].deep_view()) + enc_aux(
                            db.auxes()[hash]@,
                        )
                    })
                })
            },
            Err(_) => true,
        }),
{
    let root = db.root()?;
    let (actual_root, hashes) = match db.block(BlockId::Forward(root)) {
        Some(p) => p,
        None => {
            return Err(DbError::RootNotFound);
        },
    };
    if actual_root != root || hashes.len() != 1 {
        return Err(DbError::RootNotFound);
    }
    let hash = hashes[0];
    let root_block = db.block_full(&hash)?;
    let accounts = db.ledger(&root_block.snarked_ledger_hash())?;
    let aux = db.aux(&hash)?;
    if accounts.len() > u32::MAX as usize {
        return Err(DbError::LedgerNotFound(root_block.header.snarked_ledger_hash));
    }
    let mut k: usize = 0;
    while k < accounts.len()
        invariant
            k <= accounts@.len(),
            forall|m: int| 0 <= m < k ==> fits_u32((#[trigger] accounts@[m])@.len()),
        decreases accounts@.len() - k,
    {
        if accounts[k].len() > u32::MAX as usize {
            return Err(DbError::LedgerNotFound(root_block.header.snarked_ledger_hash));
        }
        k = k + 1;
    }
    if aux.scan_state.len() > u32::MAX as usize || aux.pending_coinbase.len() > u32::MAX as usize
        || aux.states.len() > u32::MAX as usize {
        return Err(DbError::AuxNotFound(hash));
    }
    let mut k2: usize = 0;
    while k2 < aux.states.len()
        invariant
            k2 <= aux.states@.len(),
            forall|m: int| 0 <= m < k2 ==> fits_u32((#[trigger] aux.states@[m])@.len()),
        decreases aux.states@.len() - k2,
    {
        if aux.states[k2].len() > u32::MAX as usize {
            return Err(DbError::AuxNotFound(hash));
        }
        k2 = k2 + 1;
    }
    assert(forall|m: int|
        0 <= m < accounts.deep_view().len() ==> fits_u32(
            (#[trigger] accounts.deep_view()[m]).len(),
        ));
    assert(forall|m: int|
        0 <= m < aux@.states.len() ==> fits_u32((#[trigger] aux@.states[m]).len()));
    let mut bytes: Vec<u8> = Vec::new();
    encode_bytes_list(&accounts, &mut bytes);
    encode_aux(&aux, &mut bytes);
    Ok(bytes)
}

} // verus!
