use archive_node::block::{AuxData, Block, BlockHeader, Header};
use archive_node::catch::{should_fetch, step, CATCH_FLOOR};
use archive_node::codec::{decode_aux, decode_block_list, decode_bytes_list};
use archive_node::db::{Db, DbError};
use archive_node::digest::Digest;
use archive_node::inspect;
use archive_node::server::{get_brief, get_root, get_root_ledger, get_transitions};

fn header(height: u32, own: u64, prev: u64) -> Header {
    Header {
        height,
        state_hash: Digest::of_word(own),
        prev_hash: Digest::of_word(prev),
        global_slot: height,
        coinbase_receiver: Digest::of_word(9),
        staged_hash: Digest::of_word(own + 1000),
        snarked_ledger_hash: Digest::of_word(own + 2000),
    }
}

fn block(height: u32, own: u64, prev: u64) -> Block {
    Block { header: header(height, own, prev), body: vec![height as u8] }
}

#[test]
fn root_endpoint_reports_root_and_head() {
    let mut db = Db::open();
    assert_eq!(get_root(&db), Err(DbError::RootNotFound));
    db.put_root(90);
    assert_eq!(get_root(&db), Ok(None));
    let b1 = block(90, 900, 800);
    let b2 = block(95, 950, 900);
    db.put_block(b1.hash(), b1).unwrap();
    db.put_block(b2.hash(), b2).unwrap();
    assert_eq!(get_root(&db), Ok(Some((90, 95))));
}

#[test]
fn brief_lists_heights_ascending_from_a_position() {
    let mut db = Db::open();
    for (h, w) in [(90u32, 900u64), (92, 920), (95, 950)] {
        let b = block(h, w, w - 1);
        db.put_block(b.hash(), b).unwrap();
    }
    let all = get_brief(&db, 0);
    let heights: Vec<u32> = all.iter().map(|p| p.0).collect();
    assert_eq!(heights, vec![90, 92, 95]);
    let some = get_brief(&db, 91);
    let heights: Vec<u32> = some.iter().map(|p| p.0).collect();
    assert_eq!(heights, vec![92, 95]);
    assert_eq!(get_brief(&db, 96).len(), 0);
}

#[test]
fn transitions_endpoint_frames_the_row_blocks() {
    let mut db = Db::open();
    let b1 = block(90, 900, 800);
    let b2 = block(90, 901, 800);
    db.put_block(b1.hash(), b1.clone()).unwrap();
    db.put_block(b2.hash(), b2.clone()).unwrap();
    let bytes = get_transitions(&db, 0).unwrap();
    let (blocks, used) = decode_block_list(&bytes, 0).unwrap();
    assert_eq!(used, bytes.len());
    assert_eq!(blocks.len(), 2);
    assert_eq!(blocks[0].header, b1.header);
    assert_eq!(blocks[1].header, b2.header);
    assert!(get_transitions(&db, 91).is_none());
}

#[test]
fn root_ledger_endpoint_frames_snapshot_and_aux() {
    let mut db = Db::open();
    let root_block = block(90, 900, 800);
    db.put_block(root_block.hash(), root_block.clone()).unwrap();
    db.put_ledger(root_block.snarked_ledger_hash(), vec![vec![1u8, 2]]);
    db.put_aux(
        root_block.hash(),
        AuxData { scan_state: vec![5], pending_coinbase: vec![6], states: vec![vec![7]] },
    );
    db.put_root(90);
    let bytes = get_root_ledger(&db).unwrap();
    let (accounts, i) = decode_bytes_list(&bytes, 0).unwrap();
    assert_eq!(accounts, vec![vec![1u8, 2]]);
    let (aux, j) = decode_aux(&bytes, i).unwrap();
    assert_eq!(j, bytes.len());
    assert_eq!(aux.scan_state, vec![5]);
    assert_eq!(aux.states, vec![vec![7]]);
}

#[test]
fn root_ledger_needs_a_unique_root_row() {
    let mut db = Db::open();
    let b1 = block(90, 900, 800);
    let b2 = block(90, 901, 800);
    db.put_block(b1.hash(), b1).unwrap();
    db.put_block(b2.hash(), b2).unwrap();
    db.put_root(90);
    // Two hashes at the root height: the endpoint refuses.
    assert!(get_root_ledger(&db).is_err());
}

#[test]
fn inspector_accepts_a_connected_backup() {
    let levels = vec![
        vec![block(90, 900, 800)],
        vec![block(91, 910, 900), block(91, 911, 900)],
        vec![block(92, 920, 911)],
    ];
    assert_eq!(inspect::run(&levels), Ok(()));
}

#[test]
fn inspector_reports_the_breaking_height() {
    let levels = vec![
        vec![block(90, 900, 800)],
        vec![block(91, 910, 555)],
    ];
    assert_eq!(inspect::run(&levels), Err(91));
}

#[test]
fn inspector_reports_an_empty_breaking_level_as_zero() {
    let levels = vec![vec![block(90, 900, 800)], vec![]];
    assert_eq!(inspect::run(&levels), Err(0));
}

#[test]
fn catch_walk_steps_down_until_the_gap_closes() {
    assert!(should_fetch(CATCH_FLOOR + 1));
    assert!(!should_fetch(CATCH_FLOOR));
    let here = Digest::of_word(10);
    let parent = Digest::of_word(9);
    // The fetched block descends from the appended hash: done.
    assert_eq!(step(here, CATCH_FLOOR + 5, here), None);
    // Otherwise the walk moves to the parent one level down.
    assert_eq!(step(here, CATCH_FLOOR + 5, parent), Some((parent, CATCH_FLOOR + 4)));
}
