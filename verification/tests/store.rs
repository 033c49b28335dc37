use archive_node::block::{AuxData, Block, BlockHeader, Header};
use archive_node::db::{BlockId, Db, DbError};
use archive_node::digest::Digest;

fn header(height: u32, own: u64, prev: u64) -> Header {
    Header {
        height,
        state_hash: Digest::of_word(own),
        prev_hash: Digest::of_word(prev),
        global_slot: height,
        coinbase_receiver: Digest::of_word(9),
        staged_hash: Digest::of_word(own + 1000),
        snarked_ledger_hash: Digest::of_word(own + 2000),
    }
}

fn block(height: u32, own: u64, prev: u64) -> Block {
    Block { header: header(height, own, prev), body: vec![1, 2, 3] }
}

#[test]
fn fresh_store_has_no_root() {
    let db = Db::open();
    assert_eq!(db.root(), Err(DbError::RootNotFound));
}

#[test]
fn root_marker_is_committed_and_reset_explicitly() {
    let mut db = Db::open();
    db.put_root(90);
    assert_eq!(db.root(), Ok(90));
    // Other writes leave the committed root exactly where it is.
    let b = block(5, 50, 40);
    db.put_block(b.hash(), b).unwrap();
    db.put_ledger(Digest::of_word(1), vec![vec![1u8]]);
    db.put_aux(
        Digest::of_word(2),
        AuxData { scan_state: vec![], pending_coinbase: vec![], states: vec![] },
    );
    db.remove_block(5);
    assert_eq!(db.root(), Ok(90));
    db.put_root(91);
    assert_eq!(db.root(), Ok(91));
    db.reset_root();
    assert_eq!(db.root(), Err(DbError::RootNotFound));
}

#[test]
fn ledger_put_and_get() {
    let mut db = Db::open();
    let h = Digest::of_word(11);
    assert_eq!(db.ledger(&h), Err(DbError::LedgerNotFound(h)));
    db.put_ledger(h, vec![vec![1u8, 2], vec![3u8]]);
    assert_eq!(db.ledger(&h).unwrap(), vec![vec![1u8, 2], vec![3u8]]);
    // Upsert replaces.
    db.put_ledger(h, vec![vec![9u8]]);
    assert_eq!(db.ledger(&h).unwrap(), vec![vec![9u8]]);
}

#[test]
fn aux_put_and_get() {
    let mut db = Db::open();
    let h = Digest::of_word(12);
    assert!(matches!(db.aux(&h), Err(DbError::AuxNotFound(d)) if d == h));
    let a = AuxData { scan_state: vec![1], pending_coinbase: vec![2], states: vec![vec![3]] };
    db.put_aux(h, a);
    let got = db.aux(&h).unwrap();
    assert_eq!(got.scan_state, vec![1]);
    assert_eq!(got.pending_coinbase, vec![2]);
    assert_eq!(got.states, vec![vec![3]]);
}

#[test]
fn block_put_and_get() {
    let mut db = Db::open();
    let b = block(7, 70, 60);
    let h = b.hash();
    assert!(matches!(db.block_full(&h), Err(DbError::BlockNotFound(d)) if d == h));
    db.put_block(h, b.clone()).unwrap();
    let got = db.block_full(&h).unwrap();
    assert_eq!(got.header, b.header);
    assert_eq!(got.body, b.body);
}

#[test]
fn height_index_lists_every_hash_at_its_height() {
    let mut db = Db::open();
    let b1 = block(7, 71, 60);
    let b2 = block(7, 72, 60);
    let b3 = block(8, 80, 71);
    db.put_block(b1.hash(), b1.clone()).unwrap();
    db.put_block(b2.hash(), b2.clone()).unwrap();
    db.put_block(b3.hash(), b3.clone()).unwrap();
    let (h, row) = db.block(BlockId::Forward(0)).unwrap();
    assert_eq!(h, 7);
    assert_eq!(row, vec![b1.hash(), b2.hash()]);
    // Every listed hash is retrievable as a block: the height index
    // invariant seen from outside.
    for d in &row {
        assert_eq!(db.block_full(d).unwrap().header.height, 7);
    }
    let (h2, row2) = db.block(BlockId::Forward(8)).unwrap();
    assert_eq!((h2, row2), (8, vec![b3.hash()]));
    let (latest, _) = db.block(BlockId::Latest).unwrap();
    assert_eq!(latest, 8);
    assert!(db.block(BlockId::Forward(9)).is_none());
}

#[test]
fn duplicate_put_is_not_reinserted() {
    let mut db = Db::open();
    let b = block(7, 70, 60);
    db.put_block(b.hash(), b.clone()).unwrap();
    db.put_block(b.hash(), b.clone()).unwrap();
    let (_, row) = db.block(BlockId::Forward(7)).unwrap();
    assert_eq!(row, vec![b.hash()]);
}

#[test]
fn reput_at_other_height_is_refused() {
    let mut db = Db::open();
    let b = block(7, 70, 60);
    db.put_block(b.hash(), b.clone()).unwrap();
    let moved = block(8, 70, 60);
    assert_eq!(db.put_block(moved.hash(), moved), Err(DbError::BadIndex));
    // The height index did not move.
    let (h, row) = db.block(BlockId::Forward(0)).unwrap();
    assert_eq!((h, row), (7, vec![b.hash()]));
}

#[test]
fn same_height_burst_uses_the_row_cache() {
    let mut db = Db::open();
    // Many blocks at one height in a row: the write-back cache path.
    for n in 0..5u64 {
        let b = block(3, 100 + n, 2);
        db.put_block(b.hash(), b).unwrap();
    }
    let (_, row) = db.block(BlockId::Forward(3)).unwrap();
    assert_eq!(row.len(), 5);
    // Then a different height invalidates the cache and both survive.
    let b = block(4, 200, 100);
    db.put_block(b.hash(), b).unwrap();
    let (_, row3) = db.block(BlockId::Forward(3)).unwrap();
    assert_eq!(row3.len(), 5);
    let (_, row4) = db.block(BlockId::Forward(4)).unwrap();
    assert_eq!(row4.len(), 1);
}

#[test]
fn remove_block_prunes_one_height() {
    let mut db = Db::open();
    let b1 = block(7, 71, 60);
    let b2 = block(7, 72, 60);
    let b3 = block(8, 80, 71);
    db.put_block(b1.hash(), b1.clone()).unwrap();
    db.put_block(b2.hash(), b2.clone()).unwrap();
    db.put_block(b3.hash(), b3.clone()).unwrap();
    db.remove_block(7);
    assert!(matches!(db.block_full(&b1.hash()), Err(DbError::BlockNotFound(d)) if d == b1.hash()));
    assert!(matches!(db.block_full(&b2.hash()), Err(DbError::BlockNotFound(d)) if d == b2.hash()));
    let (h, row) = db.block(BlockId::Forward(0)).unwrap();
    assert_eq!((h, row), (8, vec![b3.hash()]));
    // Pruning an absent height is a no-op.
    db.remove_block(7);
    assert_eq!(db.block_full(&b3.hash()).unwrap().header.height, 8);
    // The pruned height is free again.
    let b4 = block(7, 73, 60);
    db.put_block(b4.hash(), b4.clone()).unwrap();
    let (_, row7) = db.block(BlockId::Forward(7)).unwrap();
    assert_eq!(row7, vec![b4.hash()]);
}

#[test]
fn height_of_hash_tracks_the_inverse_index() {
    let mut db = Db::open();
    let b = block(7, 70, 60);
    assert!(db.height_of_hash(&b.hash()).is_none());
    db.put_block(b.hash(), b.clone()).unwrap();
    assert_eq!(db.height_of_hash(&b.hash()), Some(7));
}
