use archive_node::block::{AuxData, Block, BlockHeader, Header};
use archive_node::bootstrap::{again, Replay, ReplayError, Storage};
use archive_node::db::{Db, DbError};
use archive_node::digest::Digest;

fn header(height: u32, own: u64, prev: u64) -> Header {
    Header {
        height,
        state_hash: Digest::of_word(own),
        prev_hash: Digest::of_word(prev),
        global_slot: height,
        coinbase_receiver: Digest::of_word(9),
        staged_hash: Digest::of_word(own + 1000),
        snarked_ledger_hash: Digest::of_word(own + 2000),
    }
}

fn block(height: u32, own: u64, prev: u64) -> Block {
    Block { header: header(height, own, prev), body: vec![height as u8] }
}

fn aux() -> AuxData {
    AuxData { scan_state: vec![1], pending_coinbase: vec![2], states: vec![vec![3]] }
}

/// A store holding a committed root block with its snapshot and aux data.
fn seeded_db(root_height: u32, root_word: u64) -> (Db, Block) {
    let mut db = Db::open();
    let root_block = block(root_height, root_word, root_word - 1);
    db.put_block(root_block.hash(), root_block.clone()).unwrap();
    db.put_ledger(root_block.snarked_ledger_hash(), vec![vec![1u8]]);
    db.put_aux(root_block.hash(), aux());
    db.put_root(root_height);
    (db, root_block)
}

#[test]
fn branch_construction_checks_the_computed_hash() {
    let expected = Digest::of_word(1000);
    // A matching computed hash constructs the branch at that hash.
    let s = Storage::new(expected, expected).unwrap();
    assert_eq!(s.staged_hash, expected);
    // A mismatch fails construction, never silently diverges.
    let wrong = Digest::of_word(1001);
    assert_eq!(
        Storage::new(wrong, expected),
        Err(ReplayError::RootMismatch { computed: wrong, expected })
    );
}

#[test]
fn apply_checks_parent_and_claimed_hash() {
    let prev = header(10, 100, 99);
    let b = block(11, 110, 100);
    let mut s = Storage { staged_hash: prev.staged_hash };
    // The collaborator's computed hash must equal the block's claim.
    let computed = b.header.staged_hash;
    s.apply_block(&b, &prev, computed).unwrap();
    assert_eq!(s.staged_hash, b.header.staged_hash);
    // A wrong computed hash drops the branch with the exact failure.
    let mut s2 = Storage { staged_hash: prev.staged_hash };
    let wrong = Digest::of_word(1);
    assert_eq!(
        s2.apply_block(&b, &prev, wrong),
        Err(ReplayError::StagedMismatch { computed: wrong, claimed: b.header.staged_hash })
    );
    assert_eq!(s2.staged_hash, prev.staged_hash);
    // A block that does not name this branch is refused.
    let stranger = block(11, 120, 55);
    assert_eq!(
        s2.apply_block(&stranger, &prev, stranger.header.staged_hash),
        Err(ReplayError::PrevMismatch {
            claimed: stranger.header.prev_hash,
            actual: prev.state_hash
        })
    );
}

#[test]
fn replaying_identical_clones_lands_on_identical_hashes() {
    let prev = header(10, 100, 99);
    let b = block(11, 110, 100);
    let s = Storage { staged_hash: prev.staged_hash };
    let mut c1 = s.clone();
    let mut c2 = s.clone();
    let computed = b.header.staged_hash;
    c1.apply_block(&b, &prev, computed).unwrap();
    c2.apply_block(&b, &prev, computed).unwrap();
    assert_eq!(c1.staged_hash, c2.staged_hash);
}

#[test]
fn again_gathers_the_root_context() {
    let (db, root_block) = seeded_db(90, 900);
    let start = again(&db).unwrap();
    assert_eq!(start.root_hash, root_block.hash());
    assert_eq!(start.root_block.header, root_block.header);
    assert_eq!(start.accounts, vec![vec![1u8]]);
    assert_eq!(start.aux.scan_state, vec![1]);
    assert_eq!(start.expected_hash, root_block.header.staged_hash);
}

#[test]
fn again_without_root_reports_it() {
    let db = Db::open();
    assert!(matches!(again(&db), Err(DbError::RootNotFound)));
}

#[test]
fn again_without_snapshot_reports_the_missing_ledger() {
    let mut db = Db::open();
    let root_block = block(90, 900, 899);
    db.put_block(root_block.hash(), root_block.clone()).unwrap();
    db.put_root(90);
    assert!(matches!(
        again(&db),
        Err(DbError::LedgerNotFound(d)) if d == root_block.snarked_ledger_hash()
    ));
}

#[test]
fn two_forks_replay_independently() {
    // Two blocks pushed at the same height with different hashes and the
    // same previous hash: both must spawn independent branches.
    let (mut db, root_block) = seeded_db(90, 900);
    let left = block(91, 911, 900);
    let right = block(91, 913, 900);
    db.put_block(left.hash(), left.clone()).unwrap();
    db.put_block(right.hash(), right.clone()).unwrap();

    let start = again(&db).unwrap();
    let mut replay = Replay::seed(&start, start.expected_hash).unwrap();
    let h = replay.load_height(&db).unwrap();
    assert_eq!(h, 91);
    assert_eq!(replay.work.len(), 2);
    // Replay both forks with their claimed hashes: both branches join
    // the next frontier, each at its own hash, with no cross-branch
    // leakage.
    let first_claim = replay.work[replay.work.len() - 1].block.header.staged_hash;
    replay.apply_next(first_claim).unwrap();
    let second_claim = replay.work[replay.work.len() - 1].block.header.staged_hash;
    replay.apply_next(second_claim).unwrap();
    assert_eq!(replay.next_map.len(), 2);
    replay.finish_height();
    assert_eq!(replay.ancestors.len(), 2);
    let mut staged: Vec<(u64, u64)> = Vec::new();
    for (hash, (hdr, branch)) in &replay.ancestors {
        assert_eq!(hdr.prev_hash, root_block.hash());
        assert_eq!(branch.staged_hash, hdr.staged_hash);
        staged.push((hash.w0, branch.staged_hash.w0));
    }
    staged.sort();
    assert_eq!(staged, vec![(911, 1911), (913, 1913)]);
}

#[test]
fn failed_branch_is_dropped_and_the_rest_go_on() {
    let (mut db, _root_block) = seeded_db(90, 900);
    let good = block(91, 911, 900);
    let bad = block(91, 913, 900);
    db.put_block(good.hash(), good.clone()).unwrap();
    db.put_block(bad.hash(), bad.clone()).unwrap();
    let start = again(&db).unwrap();
    let mut replay = Replay::seed(&start, start.expected_hash).unwrap();
    replay.load_height(&db).unwrap();
    assert_eq!(replay.work.len(), 2);
    // One pair replays to a hash that misses its claim: that branch is
    // excised, the other survives.
    let wrong = Digest::of_word(4);
    let first = replay.work[replay.work.len() - 1].block.header.state_hash;
    assert!(replay.apply_next(wrong).is_err());
    let second_claim = replay.work[replay.work.len() - 1].block.header.staged_hash;
    replay.apply_next(second_claim).unwrap();
    replay.finish_height();
    assert_eq!(replay.ancestors.len(), 1);
    assert!(replay.ancestors[0].0 != first);
}

#[test]
fn dead_branches_and_orphan_candidates_are_dropped() {
    let (mut db, _root) = seeded_db(90, 900);
    // A candidate that names no live branch is never queued.
    let orphan = block(91, 950, 777);
    db.put_block(orphan.hash(), orphan).unwrap();
    let start = again(&db).unwrap();
    let mut replay = Replay::seed(&start, start.expected_hash).unwrap();
    let h = replay.load_height(&db).unwrap();
    assert_eq!(h, 91);
    assert_eq!(replay.work.len(), 0);
    replay.finish_height();
    assert_eq!(replay.ancestors.len(), 0);
    // No further heights: the walk ends.
    assert!(replay.load_height(&db).is_none());
}

#[test]
fn seed_refuses_a_mismatched_root_hash() {
    let (db, _root_block) = seeded_db(90, 900);
    let start = again(&db).unwrap();
    let wrong = Digest::of_word(1);
    assert!(matches!(
        Replay::seed(&start, wrong),
        Err(ReplayError::RootMismatch { .. })
    ));
}
