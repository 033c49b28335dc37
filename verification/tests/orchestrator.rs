use archive_node::block::{AuxData, Block, BlockHeader, Header};
use archive_node::client::{BestTip, RpcRequest, RpcResponse};
use archive_node::db::{BlockId, Db};
use archive_node::digest::Digest;
use archive_node::main_loop::{bootstrap, BootAction, BootError, Stage};

fn header(height: u32, own: u64, prev: u64) -> Header {
    Header {
        height,
        state_hash: Digest::of_word(own),
        prev_hash: Digest::of_word(prev),
        global_slot: height,
        coinbase_receiver: Digest::of_word(9),
        staged_hash: Digest::of_word(own + 1000),
        snarked_ledger_hash: Digest::of_word(own + 2000),
    }
}

fn block(height: u32, own: u64, prev: u64) -> Block {
    Block { header: header(height, own, prev), body: vec![height as u8] }
}

fn aux() -> AuxData {
    AuxData { scan_state: vec![1], pending_coinbase: vec![], states: vec![] }
}

/// The mock peer's chain: heights 90 (anchor) through 100 (tip), each
/// block naming the one below it. Word n00 + h encodes the height.
fn chain() -> Vec<Block> {
    let mut blocks = Vec::new();
    for h in 90..=100u32 {
        let own = 9000 + h as u64;
        let prev = if h == 90 { 8000 } else { 9000 + h as u64 - 1 };
        blocks.push(block(h, own, prev));
    }
    blocks
}

#[test]
fn fresh_node_bootstraps_back_to_the_anchor() {
    // A fresh node with no root, against a mock peer whose best tip sits
    // at height 100 with the anchor at height 90.
    let mut db = Db::open();
    let peer_chain = chain();
    let anchor = peer_chain[0].clone();
    let tip = peer_chain[10].clone();

    let (mut boot, action) = bootstrap(&db);
    assert!(matches!(action, BootAction::Rpc(RpcRequest::BestTip)));

    // Best tip arrives: the anchor is persisted, the ledger sync starts.
    let action = boot
        .on_response(
            &mut db,
            RpcResponse::BestTip(Some(BestTip { tip: tip.clone(), anchor: anchor.clone() })),
        )
        .unwrap();
    assert!(
        matches!(action, BootAction::SyncLedger { ledger_hash } if ledger_hash == anchor.snarked_ledger_hash())
    );
    assert_eq!(db.block_full(&anchor.hash()).unwrap().header, anchor.header);

    // The external ledger sync hands back the snapshot's accounts.
    let action = boot.on_ledger_synced(&mut db, vec![vec![7u8]]).unwrap();
    assert!(matches!(action, BootAction::Rpc(RpcRequest::AuxAt(h)) if h == anchor.hash()));
    assert_eq!(db.ledger(&anchor.snarked_ledger_hash()).unwrap(), vec![vec![7u8]]);

    // The aux data arrives: the backward walk begins at the tip.
    let mut action = boot.on_response(&mut db, RpcResponse::Aux(Some(aux()))).unwrap();
    // Serve the walk from the mock chain until the root is committed.
    let mut served = 0;
    while let BootAction::Rpc(RpcRequest::TransitionChain(prev)) = action {
        let found = peer_chain.iter().find(|b| b.hash() == prev).unwrap();
        action = boot
            .on_response(&mut db, RpcResponse::Chain(Some(vec![found.clone()])))
            .unwrap();
        served += 1;
        assert!(served <= 11);
    }
    assert!(matches!(action, BootAction::Idle));
    assert!(matches!(boot.stage, Stage::Steady));
    assert_eq!(served, 10);

    // Storage root is 90, and the blocks 90..=100 are all retrievable
    // by hash. The tip itself was never persisted by the walk (it walks
    // strictly below the tip), matching a walk that starts at the tip's
    // parent.
    assert_eq!(db.root(), Ok(90));
    for b in peer_chain.iter().take(10) {
        assert_eq!(db.block_full(&b.hash()).unwrap().header, b.header);
    }
    let (first, _) = db.block(BlockId::Forward(0)).unwrap();
    assert_eq!(first, 90);
}

#[test]
fn bootstrapped_node_skips_catch_up() {
    let mut db = Db::open();
    db.put_root(90);
    let (boot, action) = bootstrap(&db);
    assert!(matches!(boot.stage, Stage::Steady));
    assert!(matches!(action, BootAction::Idle));
}

#[test]
fn peer_without_tip_fails_bootstrap() {
    let mut db = Db::open();
    let (mut boot, _) = bootstrap(&db);
    let r = boot.on_response(&mut db, RpcResponse::BestTip(None));
    assert!(matches!(r, Err(BootError::PeerHasNoTip)));
}

#[test]
fn tip_equal_to_anchor_commits_at_once() {
    let mut db = Db::open();
    let anchor = block(90, 9090, 8000);
    let (mut boot, _) = bootstrap(&db);
    boot.on_response(
        &mut db,
        RpcResponse::BestTip(Some(BestTip { tip: anchor.clone(), anchor: anchor.clone() })),
    )
    .unwrap();
    boot.on_ledger_synced(&mut db, vec![]).unwrap();
    let action = boot.on_response(&mut db, RpcResponse::Aux(Some(aux()))).unwrap();
    assert!(matches!(action, BootAction::Idle));
    assert_eq!(db.root(), Ok(90));
}

#[test]
fn unexpected_response_is_refused() {
    let mut db = Db::open();
    let (mut boot, _) = bootstrap(&db);
    let r = boot.on_response(&mut db, RpcResponse::Aux(None));
    assert!(matches!(r, Err(BootError::UnexpectedResponse)));
}

#[test]
fn empty_chain_response_fails_the_walk() {
    let mut db = Db::open();
    let anchor = block(90, 9090, 8000);
    let tip = block(92, 9092, 9091);
    let (mut boot, _) = bootstrap(&db);
    boot.on_response(
        &mut db,
        RpcResponse::BestTip(Some(BestTip { tip, anchor: anchor.clone() })),
    )
    .unwrap();
    boot.on_ledger_synced(&mut db, vec![]).unwrap();
    boot.on_response(&mut db, RpcResponse::Aux(Some(aux()))).unwrap();
    let r = boot.on_response(&mut db, RpcResponse::Chain(Some(vec![])));
    assert!(matches!(r, Err(BootError::EmptyChain)));
}

#[test]
fn operator_command_fetches_one_block() {
    let mut db = Db::open();
    db.put_root(90);
    let (mut boot, _) = bootstrap(&db);
    let wanted = block(95, 9095, 9094);
    let action = boot.on_command(wanted.hash()).unwrap();
    assert!(matches!(action, BootAction::Rpc(RpcRequest::TransitionChain(h)) if h == wanted.hash()));
    let action = boot
        .on_response(&mut db, RpcResponse::Chain(Some(vec![wanted.clone()])))
        .unwrap();
    assert!(matches!(action, BootAction::Idle));
    assert_eq!(db.block_full(&wanted.hash()).unwrap().header, wanted.header);
    // Back in the steady state, the next command is accepted too.
    assert!(boot.on_command(wanted.hash()).is_some());
}

#[test]
fn missing_aux_fails_bootstrap() {
    let mut db = Db::open();
    let anchor = block(90, 9090, 8000);
    let tip = block(92, 9092, 9091);
    let (mut boot, _) = bootstrap(&db);
    boot.on_response(
        &mut db,
        RpcResponse::BestTip(Some(BestTip { tip, anchor })),
    )
    .unwrap();
    boot.on_ledger_synced(&mut db, vec![]).unwrap();
    let r = boot.on_response(&mut db, RpcResponse::Aux(None));
    assert!(matches!(r, Err(BootError::AuxUnavailable)));
}

#[test]
fn store_refusal_surfaces_during_a_fetch() {
    let mut db = Db::open();
    db.put_root(90);
    // The store already indexes this hash at height 95.
    let stored = block(95, 9095, 9094);
    db.put_block(stored.hash(), stored.clone()).unwrap();
    let (mut boot, _) = bootstrap(&db);
    boot.on_command(stored.hash()).unwrap();
    // The peer answers with a block claiming another height: the store
    // refuses to move an indexed block, and the refusal surfaces.
    let moved = Block { header: header(96, 9095, 9094), body: vec![] };
    let r = boot.on_response(&mut db, RpcResponse::Chain(Some(vec![moved])));
    assert!(matches!(r, Err(BootError::Db(_))));
}
