use archive_node::block::{AuxData, Block, BlockHeader, Header};
use archive_node::client::{
    encode_response_err, encode_response_ok, Action, BestTip, Client, ClientError, NetEvent,
    QueryTag, RpcRequest, RpcResponse, Step,
};
use archive_node::codec::{encode_block, encode_digest, encode_u32};
use archive_node::db::{BlockId, Db};
use archive_node::digest::Digest;

fn header(height: u32, own: u64, prev: u64) -> Header {
    Header {
        height,
        state_hash: Digest::of_word(own),
        prev_hash: Digest::of_word(prev),
        global_slot: height,
        coinbase_receiver: Digest::of_word(9),
        staged_hash: Digest::of_word(own + 1000),
        snarked_ledger_hash: Digest::of_word(own + 2000),
    }
}

fn block(height: u32, own: u64, prev: u64) -> Block {
    Block { header: header(height, own, prev), body: vec![height as u8] }
}

/// A success response whose payload is one block (a chain answer with one
/// element).
fn chain_response_bytes(b: &Block) -> Vec<u8> {
    let mut bytes = vec![0u8, 1u8];
    encode_u32(1, &mut bytes);
    encode_block(b, &mut bytes);
    bytes
}

#[test]
fn call_with_no_peer_buffers_exactly_one_request() {
    let mut db = Db::open();
    let mut client = Client::new();
    // No peer, no session: the request is buffered, nothing is sent.
    let action = client.rpc(RpcRequest::BestTip);
    assert!(action.is_none());
    // A connection comes up; the client opens a session but does not
    // send yet.
    let step = client.on_event(&mut db, NetEvent::ConnectionEstablished { peer: 42 });
    assert!(matches!(step, Step::Continue(Action::OpenSession { peer: 42 })));
    // The handshake completes: the buffered request is flushed exactly
    // once, tagged with id 1.
    let step = client.on_event(&mut db, NetEvent::HandshakeDone { peer: 42, session: 5 });
    match step {
        Step::Continue(Action::Send { peer, session, id, request }) => {
            assert_eq!((peer, session, id), (42, 5, 1));
            assert!(matches!(request, RpcRequest::BestTip));
        }
        _ => panic!("expected the buffered request to be sent"),
    }
    // A second handshake finds nothing buffered: no duplicate send.
    let step = client.on_event(&mut db, NetEvent::HandshakeDone { peer: 42, session: 6 });
    assert!(matches!(step, Step::Continue(Action::Idle)));
}

#[test]
fn established_connection_sends_at_once() {
    let mut db = Db::open();
    let mut client = Client::new();
    client.on_event(&mut db, NetEvent::ConnectionEstablished { peer: 42 });
    client.on_event(&mut db, NetEvent::HandshakeDone { peer: 42, session: 5 });
    let action = client.rpc(RpcRequest::TransitionChain(Digest::of_word(8)));
    match action {
        Some(Action::Send { id, .. }) => assert_eq!(id, 1),
        _ => panic!("expected an immediate send"),
    }
}

#[test]
fn mismatched_response_id_is_ignored_and_call_stays_pending() {
    let mut db = Db::open();
    let mut client = Client::new();
    client.on_event(&mut db, NetEvent::ConnectionEstablished { peer: 42 });
    client.on_event(&mut db, NetEvent::HandshakeDone { peer: 42, session: 5 });
    let wanted = block(9, 90, 80);
    client.rpc(RpcRequest::TransitionChain(wanted.hash())).unwrap();
    // An older response id must be ignored without failing the call.
    let stale = chain_response_bytes(&block(1, 10, 0));
    let step = client.on_event(&mut db, NetEvent::Response { id: 0, bytes: stale });
    assert!(matches!(step, Step::Continue(Action::Idle)));
    // The matching id settles the call with the decoded payload.
    let good = chain_response_bytes(&wanted);
    let step = client.on_event(&mut db, NetEvent::Response { id: 1, bytes: good });
    match step {
        Step::Done(Ok(RpcResponse::Chain(Some(blocks)))) => {
            assert_eq!(blocks.len(), 1);
            assert_eq!(blocks[0].header, wanted.header);
        }
        _ => panic!("expected the call to settle with the chain answer"),
    }
}

#[test]
fn malformed_response_surfaces_as_decode_failure() {
    let mut db = Db::open();
    let mut client = Client::new();
    client.on_event(&mut db, NetEvent::ConnectionEstablished { peer: 42 });
    client.on_event(&mut db, NetEvent::HandshakeDone { peer: 42, session: 5 });
    client.rpc(RpcRequest::BestTip).unwrap();
    let step = client.on_event(&mut db, NetEvent::Response { id: 1, bytes: vec![9, 9, 9] });
    assert!(matches!(step, Step::Done(Err(ClientError::Binprot))));
}

#[test]
fn remote_error_surfaces_with_its_code() {
    let mut db = Db::open();
    let mut client = Client::new();
    client.on_event(&mut db, NetEvent::ConnectionEstablished { peer: 42 });
    client.on_event(&mut db, NetEvent::HandshakeDone { peer: 42, session: 5 });
    client.rpc(RpcRequest::BestTip).unwrap();
    let mut bytes = Vec::new();
    encode_response_err(77, &mut bytes);
    let step = client.on_event(&mut db, NetEvent::Response { id: 1, bytes });
    assert!(matches!(step, Step::Done(Err(ClientError::InternalError(77)))));
}

#[test]
fn framed_best_tip_response_reads_back() {
    let mut db = Db::open();
    let mut client = Client::new();
    client.on_event(&mut db, NetEvent::ConnectionEstablished { peer: 42 });
    client.on_event(&mut db, NetEvent::HandshakeDone { peer: 42, session: 5 });
    client.rpc(RpcRequest::BestTip).unwrap();
    let tip = block(100, 9100, 9099);
    let anchor = block(90, 9090, 9089);
    let resp = RpcResponse::BestTip(Some(BestTip { tip: tip.clone(), anchor: anchor.clone() }));
    let mut bytes = Vec::new();
    encode_response_ok(&resp, &mut bytes);
    let step = client.on_event(&mut db, NetEvent::Response { id: 1, bytes });
    match step {
        Step::Done(Ok(RpcResponse::BestTip(Some(bt)))) => {
            assert_eq!(bt.tip.header, tip.header);
            assert_eq!(bt.anchor.header, anchor.header);
        }
        _ => panic!("expected the framed best tip to read back"),
    }
}

#[test]
fn framed_none_response_reads_back() {
    let mut db = Db::open();
    let mut client = Client::new();
    client.on_event(&mut db, NetEvent::ConnectionEstablished { peer: 42 });
    client.on_event(&mut db, NetEvent::HandshakeDone { peer: 42, session: 5 });
    client.rpc(RpcRequest::AuxAt(Digest::of_word(3))).unwrap();
    let mut bytes = Vec::new();
    encode_response_ok(&RpcResponse::Aux(None), &mut bytes);
    let step = client.on_event(&mut db, NetEvent::Response { id: 1, bytes });
    assert!(matches!(step, Step::Done(Ok(RpcResponse::Aux(None)))));
}

#[test]
fn connection_loss_clears_peer_but_keeps_the_buffered_request() {
    let mut db = Db::open();
    let mut client = Client::new();
    client.on_event(&mut db, NetEvent::ConnectionEstablished { peer: 42 });
    let action = client.rpc(RpcRequest::BestTip);
    assert!(action.is_none());
    client.on_event(&mut db, NetEvent::ConnectionClosed { peer: 42 });
    // Reconnect and handshake: the buffered request finally goes out.
    client.on_event(&mut db, NetEvent::ConnectionEstablished { peer: 43 });
    let step = client.on_event(&mut db, NetEvent::HandshakeDone { peer: 43, session: 8 });
    assert!(matches!(step, Step::Continue(Action::Send { id: 1, .. })));
}

#[test]
fn gossip_block_is_stored() {
    let mut db = Db::open();
    let mut client = Client::new();
    let b = block(12, 120, 110);
    let mut data = vec![0u8; 8];
    data.push(0);
    encode_block(&b, &mut data);
    let step = client.on_event(&mut db, NetEvent::Gossip { source: 77, data });
    assert!(matches!(step, Step::Continue(Action::Idle)));
    assert_eq!(db.block_full(&b.hash()).unwrap().header, b.header);
    let (h, row) = db.block(BlockId::Forward(0)).unwrap();
    assert_eq!((h, row), (12, vec![b.hash()]));
}

#[test]
fn short_broadcast_leaves_storage_untouched() {
    let mut db = Db::open();
    let mut client = Client::new();
    client.on_event(&mut db, NetEvent::Gossip { source: 77, data: vec![1, 2, 3] });
    assert!(db.block(BlockId::Latest).is_none());
}

#[test]
fn non_block_broadcast_leaves_storage_untouched() {
    let mut db = Db::open();
    let mut client = Client::new();
    let b = block(12, 120, 110);
    let mut data = vec![0u8; 8];
    data.push(3);
    encode_block(&b, &mut data);
    client.on_event(&mut db, NetEvent::Gossip { source: 77, data });
    assert!(db.block(BlockId::Latest).is_none());
}

#[test]
fn best_tip_query_is_answered_with_none() {
    let db = Db::open();
    let client = Client::new();
    let action = client.handle_incoming(&db, 1, 2, 3, QueryTag::BestTip, &vec![]);
    assert!(matches!(action, Action::RespondBestTip { peer: 1, session: 2, id: 3 }));
}

#[test]
fn aux_query_is_answered_from_the_store() {
    let mut db = Db::open();
    let client = Client::new();
    let hash = Digest::of_word(5);
    let aux = AuxData { scan_state: vec![4], pending_coinbase: vec![], states: vec![] };
    db.put_aux(hash, aux);
    let mut bytes = Vec::new();
    encode_digest(&hash, &mut bytes);
    let action = client.handle_incoming(&db, 1, 2, 3, QueryTag::AuxAtHash, &bytes);
    match action {
        Action::RespondAux { aux: Some(a), .. } => assert_eq!(a.scan_state, vec![4]),
        _ => panic!("expected the stored aux data"),
    }
    // A hash the store does not hold is answered with nothing.
    let mut other = Vec::new();
    encode_digest(&Digest::of_word(6), &mut other);
    let action = client.handle_incoming(&db, 1, 2, 3, QueryTag::AuxAtHash, &other);
    assert!(matches!(action, Action::RespondAux { aux: None, .. }));
}

#[test]
fn unknown_query_is_dropped() {
    let db = Db::open();
    let client = Client::new();
    let action = client.handle_incoming(&db, 1, 2, 3, QueryTag::Unknown, &vec![1, 2]);
    assert!(matches!(action, Action::Idle));
}

#[test]
fn transport_end_fails_the_call() {
    let client = Client::new();
    assert!(matches!(client.transport_ended(), Err(ClientError::TransportEnded)));
}
