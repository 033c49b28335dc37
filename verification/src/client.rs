//! The protocol client: one typed request at a time over a peer
//! connection.
//!
//! The client is a state machine over connection events. Beginning a call
//! either sends the request at once (peer and session ready) or buffers
//! it; the buffered request is flushed exactly once, by the first
//! handshake-done event that finds peer and session established. A
//! response settles the call only when its id matches the one
//! outstanding; anything else is an older duplicate and is ignored.
//! Transport actions — opening sessions, sending bytes, answering peers —
//! are returned to the caller as values; the machine itself never blocks.

use vstd::prelude::*;

use crate::block::{AuxData, AuxDataV, Block, BlockHeader, BlockV};
use crate::codec::{
    blocks_view, broadcast_block, dec_aux, dec_block, dec_block_list, dec_digest, dec_u32,
    decode_aux, decode_block, decode_block_list, decode_broadcast, decode_digest, decode_u32,
    enc_aux, enc_block, enc_block_list, enc_u32, encode_aux, encode_block, encode_block_list,
    encode_u32, lemma_aux_round_trip, lemma_block_list_round_trip, lemma_block_round_trip,
    lemma_u32_round_trip, wf_aux, wf_block, wf_block_seq,
};
use crate::db::{row_after_put, Db};
use crate::digest::Digest;

verus! {

/// A typed request of the wire protocol.
#[derive(Clone, Copy, PartialEq, Eq, Structural, Debug)]
pub enum RpcRequest {
    /// Ask the peer for its best tip and the proof anchor behind it.
    BestTip,
    /// Ask for the auxiliary replay data at a block hash.
    AuxAt(Digest),
    /// Ask for the block whose hash is given.
    TransitionChain(Digest),
}

/// The three response shapes, matching the three requests.
#[derive(Clone, Copy, PartialEq, Eq, Structural, Debug)]
pub enum ReqKind {
    BestTip,
    Aux,
    Chain,
}

/// The response shape a request calls for.
pub open spec fn kind_of(req: RpcRequest) -> ReqKind {
    match req {
        RpcRequest::BestTip => ReqKind::BestTip,
        RpcRequest::AuxAt(_) => ReqKind::Aux,
        RpcRequest::TransitionChain(_) => ReqKind::Chain,
    }
}

/// A best-tip answer: the chain head and the proof anchor block behind
/// it, the candidate root.
#[derive(Clone, Debug)]
pub struct BestTip {
    pub tip: Block,
    pub anchor: Block,
}

/// A typed response of the wire protocol.
#[derive(Debug)]
pub enum RpcResponse {
    /// The peer's best tip, or nothing if it knows none.
    BestTip(Option<BestTip>),
    /// The auxiliary data at the asked hash, if the peer holds it.
    Aux(Option<AuxData>),
    /// The blocks asked for, if the peer holds them.
    Chain(Option<Vec<Block>>),
}

/// Mathematical value of an [`RpcResponse`].
pub ghost enum RpcResponseV {
    BestTip(Option<(BlockV, BlockV)>),
    Aux(Option<AuxDataV>),
    Chain(Option<Seq<BlockV>>),
}

impl View for RpcResponse {
    type V = RpcResponseV;

    open spec fn view(&self) -> RpcResponseV {
        match self {
            RpcResponse::BestTip(o) => RpcResponseV::BestTip(
                match o {
                    Some(bt) => Some((bt.tip@, bt.anchor@)),
                    None => None,
                },
            ),
            RpcResponse::Aux(o) => RpcResponseV::Aux(
                match o {
                    Some(a) => Some(a@),
                    None => None,
                },
            ),
            RpcResponse::Chain(o) => RpcResponseV::Chain(
                match o {
                    Some(l) => Some(blocks_view(l@)),
                    None => None,
                },
            ),
        }
    }
}

/// Reads a response payload of the given shape, which must fill the
/// input exactly.
pub open spec fn dec_payload(kind: ReqKind, s: Seq<u8>) -> Option<RpcResponseV> {
    if s.len() < 1 {
        None
    } else {
        let body = s.drop_first();
        if s[0] == 0 {
            if body.len() == 0 {
                Some(
                    match kind {
                        ReqKind::BestTip => RpcResponseV::BestTip(None),
                        ReqKind::Aux => RpcResponseV::Aux(None),
                        ReqKind::Chain => RpcResponseV::Chain(None),
                    },
                )
            } else {
                None
            }
        } else if s[0] == 1 {
            match kind {
                ReqKind::BestTip => match dec_block(body) {
                    None => None,
                    Some((tip, r1)) => match dec_block(r1) {
                        None => None,
                        Some((anchor, r2)) => if r2.len() == 0 {
                            Some(RpcResponseV::BestTip(Some((tip, anchor))))
                        } else {
                            None
                        },
                    },
                },
                ReqKind::Aux => match dec_aux(body) {
                    None => None,
                    Some((a, r1)) => if r1.len() == 0 {
                        Some(RpcResponseV::Aux(Some(a)))
                    } else {
                        None
                    },
                },
                ReqKind::Chain => match dec_block_list(body) {
                    None => None,
                    Some((l, r1)) => if r1.len() == 0 {
                        Some(RpcResponseV::Chain(Some(l)))
                    } else {
                        None
                    },
                },
            }
        } else {
            None
        }
    }
}

/// Reads a whole response: a success tag followed by the payload, or a
/// failure tag followed by the remote error code.
pub open spec fn dec_response(kind: ReqKind, s: Seq<u8>) -> Option<Result<RpcResponseV, u32>> {
    if s.len() < 1 {
        None
    } else if s[0] == 0 {
        match dec_payload(kind, s.drop_first()) {
            None => None,
            Some(v) => Some(Ok(v)),
        }
    } else if s[0] == 1 {
        match dec_u32(s.drop_first()) {
            None => None,
            Some((code, rest)) => if rest.len() == 0 {
                Some(Err(code))
            } else {
                None
            },
        }
    } else {
        None
    }
}

/// Whether a response value is small enough for its length prefixes.
pub open spec fn wf_response(v: RpcResponseV) -> bool {
    match v {
        RpcResponseV::BestTip(None) => true,
        RpcResponseV::BestTip(Some(p)) => wf_block(p.0) && wf_block(p.1),
        RpcResponseV::Aux(None) => true,
        RpcResponseV::Aux(Some(a)) => wf_aux(a),
        RpcResponseV::Chain(None) => true,
        RpcResponseV::Chain(Some(l)) => wf_block_seq(l),
    }
}

/// The response shape a response value has.
pub open spec fn resp_kind(v: RpcResponseV) -> ReqKind {
    match v {
        RpcResponseV::BestTip(_) => ReqKind::BestTip,
        RpcResponseV::Aux(_) => ReqKind::Aux,
        RpcResponseV::Chain(_) => ReqKind::Chain,
    }
}

/// The payload layout: an option tag, then the value itself.
pub open spec fn enc_payload(v: RpcResponseV) -> Seq<u8>
    recommends
        wf_response(v),
{
    match v {
        RpcResponseV::BestTip(None) => seq![0u8],
        RpcResponseV::BestTip(Some(p)) => seq![1u8] + (enc_block(p.0) + enc_block(p.1)),
        RpcResponseV::Aux(None) => seq![0u8],
        RpcResponseV::Aux(Some(a)) => seq![1u8] + enc_aux(a),
        RpcResponseV::Chain(None) => seq![0u8],
        RpcResponseV::Chain(Some(l)) => seq![1u8] + enc_block_list(l),
    }
}

/// The whole response layout: a success tag and the payload, or a
/// failure tag and the remote error code.
pub open spec fn enc_response(v: Result<RpcResponseV, u32>) -> Seq<u8> {
    match v {
        Ok(p) => seq![0u8] + enc_payload(p),
        Err(code) => seq![1u8] + enc_u32(code),
    }
}

/// A framed response of the right shape reads back to itself.
#[verifier::spinoff_prover]
#[verifier::rlimit(100)]
pub proof fn lemma_response_round_trip(v: Result<RpcResponseV, u32>, kind: ReqKind)
    requires
        v matches Ok(p) ==> wf_response(p) && kind == resp_kind(p),
    ensures
        dec_response(kind, enc_response(v)) == Some(v),
{
    match v {
        Err(code) => {
            let s = enc_response(v);
            assert(s[0] == 1);
            assert(s.drop_first() =~= enc_u32(code) + Seq::<u8>::empty());
            lemma_u32_round_trip(code, Seq::empty());
        },
        Ok(p) => {
            let s = enc_response(v);
            assert(s[0] == 0);
            let body = s.drop_first();
            assert(body =~= enc_payload(p));
            match p {
                RpcResponseV::BestTip(None) => {
                    assert(body[0] == 0 && body.drop_first().len() == 0);
                },
                RpcResponseV::Aux(None) => {
                    assert(body[0] == 0 && body.drop_first().len() == 0);
                },
                RpcResponseV::Chain(None) => {
                    assert(body[0] == 0 && body.drop_first().len() == 0);
                },
                RpcResponseV::BestTip(Some(q)) => {
                    assert(body[0] == 1);
                    assert(body.drop_first() =~= enc_block(q.0) + (enc_block(q.1)
                        + Seq::<u8>::empty()));
                    lemma_block_round_trip(q.0, enc_block(q.1) + Seq::empty());
                    lemma_block_round_trip(q.1, Seq::empty());
                },
                RpcResponseV::Aux(Some(a)) => {
                    assert(body[0] == 1);
                    assert(body.drop_first() =~= enc_aux(a) + Seq::<u8>::empty());
                    lemma_aux_round_trip(a, Seq::empty());
                },
                RpcResponseV::Chain(Some(l)) => {
                    assert(body[0] == 1);
                    assert(body.drop_first() =~= enc_block_list(l) + Seq::<u8>::empty());
                    lemma_block_list_round_trip(l, Seq::empty());
                },
            }
        },
    }
}

/// Frames a successful response for the wire.
pub fn encode_response_ok(resp: &RpcResponse, out: &mut Vec<u8>)
    requires
        wf_response(resp@),
    ensures
        final(out)@ == old(out)@ + enc_response(Ok::<RpcResponseV, u32>(resp@)),
{
    out.push(0);
    match resp {
        RpcResponse::BestTip(None) | RpcResponse::Aux(None) | RpcResponse::Chain(None) => {
            out.push(0);
        },
        RpcResponse::BestTip(Some(bt)) => {
            out.push(1);
            encode_block(&bt.tip, out);
            encode_block(&bt.anchor, out);
        },
        RpcResponse::Aux(Some(a)) => {
            out.push(1);
            encode_aux(a, out);
        },
        RpcResponse::Chain(Some(l)) => {
            out.push(1);
            encode_block_list(l, out);
        },
    }
    assert(final(out)@ =~= old(out)@ + enc_response(Ok::<RpcResponseV, u32>(resp@)));
}

/// Frames a remote-error response for the wire.
pub fn encode_response_err(code: u32, out: &mut Vec<u8>)
    ensures
        final(out)@ == old(out)@ + enc_response(Err::<RpcResponseV, u32>(code)),
{
    out.push(1);
    encode_u32(code, out);
    assert(final(out)@ =~= old(out)@ + enc_response(Err::<RpcResponseV, u32>(code)));
}

/// Failure kinds of a call.
#[derive(Clone, Copy, PartialEq, Eq, Structural, Debug)]
pub enum ClientError {
    /// The response bytes do not decode as the expected shape.
    Binprot,
    /// The peer answered the call with an application error.
    InternalError(u32),
    /// The event source ended before a matching response arrived.
    TransportEnded,
}

/// Decodes the bytes of a matching response as the expected shape.
pub fn decode_response(kind: ReqKind, bytes: &Vec<u8>) -> (r: Result<RpcResponse, ClientError>)
    ensures
        (match r {
            Ok(resp) => dec_response(kind, bytes@) == Some(Ok::<RpcResponseV, u32>(resp@)),
            Err(ClientError::InternalError(code)) => dec_response(kind, bytes@) == Some(
                Err::<RpcResponseV, u32>(code),
            ),
            Err(ClientError::Binprot) => dec_response(kind, bytes@) is None,
            Err(ClientError::TransportEnded) => false,
        }),
{
    if bytes.len() < 1 {
        return Err(ClientError::Binprot);
    }
    let tag = bytes[0];
    proof {
        assert(bytes@.drop_first() =~= bytes@.subrange(1, bytes@.len() as int));
    }
    if tag == 1 {
        // Remote-reported failure: a 32-bit error code.
        match decode_u32(bytes, 1) {
            Some((code, j)) => {
                if j == bytes.len() {
                    assert(bytes@.subrange(j as int, bytes@.len() as int).len() == 0);
                    Err(ClientError::InternalError(code))
                } else {
                    Err(ClientError::Binprot)
                }
            },
            None => Err(ClientError::Binprot),
        }
    } else if tag != 0 {
        Err(ClientError::Binprot)
    } else {
        if bytes.len() < 2 {
            return Err(ClientError::Binprot);
        }
        let some_tag = bytes[1];
        let ghost body = bytes@.drop_first();
        proof {
            assert(body[0] == bytes@[1]);
            assert(body.drop_first() =~= bytes@.subrange(2, bytes@.len() as int));
        }
        if some_tag == 0 {
            if bytes.len() == 2 {
                Ok(
                    match kind {
                        ReqKind::BestTip => RpcResponse::BestTip(None),
                        ReqKind::Aux => RpcResponse::Aux(None),
                        ReqKind::Chain => RpcResponse::Chain(None),
                    },
                )
            } else {
                Err(ClientError::Binprot)
            }
        } else if some_tag != 1 {
            Err(ClientError::Binprot)
        } else {
            match kind {
                ReqKind::BestTip => {
                    let (tip, j1) = match decode_block(bytes, 2) {
                        Some(p) => p,
                        None => return Err(ClientError::Binprot),
                    };
                    let (anchor, j2) = match decode_block(bytes, j1) {
                        Some(p) => p,
                        None => return Err(ClientError::Binprot),
                    };
                    if j2 != bytes.len() {
                        return Err(ClientError::Binprot);
                    }
                    assert(bytes@.subrange(j2 as int, bytes@.len() as int).len() == 0);
                    Ok(RpcResponse::BestTip(Some(BestTip { tip, anchor })))
                },
                ReqKind::Aux => {
                    let (a, j1) = match decode_aux(bytes, 2) {
                        Some(p) => p,
                        None => return Err(ClientError::Binprot),
                    };
                    if j1 != bytes.len() {
                        return Err(ClientError::Binprot);
                    }
                    assert(bytes@.subrange(j1 as int, bytes@.len() as int).len() == 0);
                    Ok(RpcResponse::Aux(Some(a)))
                },
                ReqKind::Chain => {
                    let (l, j1) = match decode_block_list(bytes, 2) {
                        Some(p) => p,
                        None => return Err(ClientError::Binprot),
                    };
                    if j1 != bytes.len() {
                        return Err(ClientError::Binprot);
                    }
                    assert(bytes@.subrange(j1 as int, bytes@.len() as int).len() == 0);
                    Ok(RpcResponse::Chain(Some(l)))
                },
            }
        }
    }
}

/// A query a peer may send us, already told apart by its (name, version)
/// tag; pairs we do not serve arrive as `Unknown`.
#[derive(Clone, Copy, PartialEq, Eq, Structural, Debug)]
pub enum QueryTag {
    /// The peer asks for our best tip.
    BestTip,
    /// The peer asks for ledger and aux data at a block hash.
    AuxAtHash,
    /// Anything else: logged and dropped.
    Unknown,
}

/// A connection event handed to the client by the transport.
pub enum NetEvent {
    /// A connection to a peer came up.
    ConnectionEstablished { peer: u64 },
    /// A connection went down.
    ConnectionClosed { peer: u64 },
    /// A stream finished its handshake and is ready for requests.
    HandshakeDone { peer: u64, session: u64 },
    /// The peer sent us a request.
    Query { peer: u64, session: u64, id: u64, tag: QueryTag, bytes: Vec<u8> },
    /// The peer answered a request of ours.
    Response { id: u64, bytes: Vec<u8> },
    /// A gossip broadcast arrived.
    Gossip { source: u64, data: Vec<u8> },
    /// Anything else the transport reports; not the client's business.
    Other,
}

/// What the caller must do on the transport after a step of the machine.
pub enum Action {
    /// Nothing.
    Idle,
    /// Open a session towards the peer.
    OpenSession { peer: u64 },
    /// Send the request, tagged with the id.
    Send { peer: u64, session: u64, id: u64, request: RpcRequest },
    /// Answer a best-tip query with "none".
    RespondBestTip { peer: u64, session: u64, id: u64 },
    /// Answer an aux query; `aux` is absent when the store has nothing.
    RespondAux { peer: u64, session: u64, id: u64, aux: Option<AuxData> },
}

/// The outcome of feeding one event to the machine.
pub enum Step {
    /// The call is still pending; do what the action says and go on.
    Continue(Action),
    /// The call settled with this result.
    Done(Result<RpcResponse, ClientError>),
}

/// The client state: the tracked peer, the session, the id counter, the
/// buffered not-yet-sent request and the sent-and-awaiting one.
pub struct Client {
    pub peer: Option<u64>,
    pub session: Option<u64>,
    pub next_id: u64,
    pub pending: Option<RpcRequest>,
    pub outstanding: Option<(u64, RpcRequest)>,
}

impl Client {
    /// A client with no connection and the id counter at one.
    pub fn new() -> (r: Client)
        ensures
            r.peer is None,
            r.session is None,
            r.next_id == 1,
            r.pending is None,
            r.outstanding is None,
    {
        Client { peer: None, session: None, next_id: 1, pending: None, outstanding: None }
    }

    /// Begins a call: sends the request at once when peer and session
    /// are established, otherwise buffers exactly this one request for
    /// the next handshake.
    pub fn rpc(&mut self, request: RpcRequest) -> (r: Option<Action>)
        requires
            old(self).pending is None,
            old(self).outstanding is None,
            old(self).next_id < u64::MAX,
        ensures
            final(self).peer == old(self).peer,
            final(self).session == old(self).session,
            (match (old(self).peer, old(self).session) {
                (Some(p), Some(s)) => {
                    &&& r == Some(
                        Action::Send { peer: p, session: s, id: old(self).next_id, request },
                    )
                    &&& final(self).outstanding == Some((old(self).next_id, request))
                    &&& final(self).next_id == old(self).next_id + 1
                    &&& final(self).pending is None
                },
                _ => {
                    &&& r is None
                    &&& final(self).pending == Some(request)
                    &&& final(self).outstanding is None
                    &&& final(self).next_id == old(self).next_id
                },
            }),
    {
        match (self.peer, self.session) {
            (Some(p), Some(s)) => {
                let id = self.next_id;
                self.next_id = self.next_id + 1;
                self.outstanding = Some((id, request));
                Some(Action::Send { peer: p, session: s, id, request })
            },
            _ => {
                self.pending = Some(request);
                None
            },
        }
    }

    /// The event source ended with the call unanswered.
    pub fn transport_ended(&self) -> (r: Result<RpcResponse, ClientError>)
        ensures
            r == Err::<RpcResponse, ClientError>(ClientError::TransportEnded),
    {
        Err(ClientError::TransportEnded)
    }

    /// Answers a query from the peer out of the store: best-tip queries
    /// get "none", aux queries get what the store holds at the asked
    /// hash, and unknown queries are dropped.
    pub fn handle_incoming(
        &self,
        db: &Db,
        peer: u64,
        session: u64,
        id: u64,
        tag: QueryTag,
        bytes: &Vec<u8>,
    ) -> (r: Action)
        requires
            db.wf(),
        ensures
            (match tag {
                QueryTag::BestTip => r == (Action::RespondBestTip { peer, session, id }),
                QueryTag::AuxAtHash => (match dec_digest(bytes@) {
                    Some(p) => (p.1.len() == 0 && db.auxes().contains_key(p.0)) ==> (
                    r matches Action::RespondAux { peer: p2, session: s2, id: i2, aux: Some(a) }
                        && p2 == peer && s2 == session && i2 == id && a@ == db.auxes()[p.0]@),
                    None => r == (
                    Action::RespondAux { peer, session, id, aux: None::<AuxData> }),
                }),
                QueryTag::Unknown => r == Action::Idle,
            }),
    {
        match tag {
            QueryTag::BestTip => Action::RespondBestTip { peer, session, id },
            QueryTag::AuxAtHash => {
                proof {
                    assert(bytes@.subrange(0, bytes@.len() as int) =~= bytes@);
                }
                let (hash, j) = match decode_digest(bytes, 0) {
                    Some(p) => p,
                    None => return Action::RespondAux { peer, session, id, aux: None },
                };
                if j != bytes.len() {
                    return Action::RespondAux { peer, session, id, aux: None };
                }
                match db.aux(&hash) {
                    Ok(a) => Action::RespondAux { peer, session, id, aux: Some(a) },
                    Err(_) => Action::RespondAux { peer, session, id, aux: None },
                }
            },
            QueryTag::Unknown => Action::Idle,
        }
    }

    /// Ingests one gossip broadcast: the client tracks the gossiping
    /// peer, and a well-framed block payload is stored. A payload
    /// shorter than nine bytes, or whose ninth byte is not the block
    /// tag, or whose block does not decode, leaves the store untouched.
    pub fn process(&mut self, db: &mut Db, source: u64, data: &Vec<u8>)
        requires
            old(db).wf(),
        ensures
            final(db).wf(),
            final(self).peer == Some(source),
            final(self).session == Some(1u64),
            final(self).next_id == old(self).next_id,
            final(self).pending == old(self).pending,
            final(self).outstanding == old(self).outstanding,
            final(db).ledgers() == old(db).ledgers(),
            final(db).auxes() == old(db).auxes(),
            final(db).root_of() == old(db).root_of(),
            (match broadcast_block(data@) {
                None => {
                    &&& final(db).blocks() == old(db).blocks()
                    &&& final(db).heights() == old(db).heights()
                    &&& final(db).height_of() == old(db).height_of()
                },
                Some(bv) => {
                    let h = bv.header.state_hash;
                    if old(db).height_of().contains_key(h) && old(db).height_of()[h]
                        != bv.header.height {
                        &&& final(db).blocks() == old(db).blocks()
                        &&& final(db).heights() == old(db).heights()
                        &&& final(db).height_of() == old(db).height_of()
                    } else {
                        &&& final(db).blocks().dom() == old(db).blocks().dom().insert(h)
                        &&& final(db).blocks()[h]@ == bv
                        &&& final(db).height_of() == old(db).height_of().insert(
                            h,
                            bv.header.height,
                        )
                        &&& final(db).heights().dom() == old(db).heights().dom().insert(
                            bv.header.height,
                        )
                        &&& final(db).heights()[bv.header.height]@ == row_after_put(
                            old(db).heights(),
                            bv.header.height,
                            h,
                        )
                        &&& (forall|h2: u32|
                            h2 != bv.header.height && old(db).heights().contains_key(h2)
                                ==> final(db).heights()[h2] == old(db).heights()[h2])
                    }
                },
            }),
    {
        self.peer = Some(source);
        self.session = Some(1);
        match decode_broadcast(data) {
            Some(block) => {
                let hash = block.hash();
                let ghost bv = block@;
                match db.put_block(hash, block) {
                    Ok(_) => {
                        assert(final(db).blocks()[bv.header.state_hash]@ == bv);
                    },
                    Err(_) => {},
                }
            },
            None => {},
        }
    }

    /// Feeds one connection event to the machine.
    ///
    /// Only a response whose id matches the outstanding one settles the
    /// call; a mismatched id changes nothing. A handshake-done event
    /// flushes the buffered request exactly once. A closed connection
    /// to the tracked peer clears peer and session; the buffered request
    /// stays buffered.
    pub fn on_event(&mut self, db: &mut Db, event: NetEvent) -> (r: Step)
        requires
            old(db).wf(),
            old(self).next_id < u64::MAX,
        ensures
            final(db).wf(),
            (match event {
                NetEvent::ConnectionEstablished { peer } => {
                    &&& final(self).peer == Some(peer)
                    &&& final(self).session == old(self).session
                    &&& final(self).next_id == old(self).next_id
                    &&& final(self).pending == old(self).pending
                    &&& final(self).outstanding == old(self).outstanding
                    &&& r == Step::Continue(Action::OpenSession { peer })
                    &&& *final(db) == *old(db)
                },
                NetEvent::ConnectionClosed { peer } => {
                    &&& (if old(self).peer == Some(peer) {
                        final(self).peer is None && final(self).session is None
                    } else {
                        final(self).peer == old(self).peer && final(self).session == old(
                            self,
                        ).session
                    })
                    &&& final(self).next_id == old(self).next_id
                    &&& final(self).pending == old(self).pending
                    &&& final(self).outstanding == old(self).outstanding
                    &&& r == Step::Continue(Action::Idle)
                    &&& *final(db) == *old(db)
                },
                NetEvent::HandshakeDone { peer, session } => {
                    let ses = if old(self).session is None {
                        Some(session)
                    } else {
                        old(self).session
                    };
                    &&& final(self).session == ses
                    &&& final(self).peer == old(self).peer
                    &&& *final(db) == *old(db)
                    &&& (match (old(self).peer, ses, old(self).pending) {
                        (Some(p), Some(s), Some(q)) => {
                            &&& final(self).pending is None
                            &&& final(self).outstanding == Some((old(self).next_id, q))
                            &&& final(self).next_id == old(self).next_id + 1
                            &&& r == Step::Continue(
                                Action::Send { peer: p, session: s, id: old(self).next_id, request: q },
                            )
                        },
                        _ => {
                            &&& final(self).pending == old(self).pending
                            &&& final(self).outstanding == old(self).outstanding
                            &&& final(self).next_id == old(self).next_id
                            &&& r == Step::Continue(Action::Idle)
                        },
                    })
                },
                NetEvent::Response { id, ref bytes } => {
                    match old(self).outstanding {
                        Some((oid, req)) => {
                            if id == oid {
                                &&& final(self).peer == old(self).peer
                                &&& final(self).session == old(self).session
                                &&& final(self).next_id == old(self).next_id
                                &&& final(self).pending == old(self).pending
                                &&& final(self).outstanding is None
                                &&& *final(db) == *old(db)
                                &&& (r matches Step::Done(res) && (match res {
                                    Ok(resp) => dec_response(kind_of(req), bytes@) == Some(
                                        Ok::<RpcResponseV, u32>(resp@),
                                    ),
                                    Err(ClientError::InternalError(code)) => dec_response(
                                        kind_of(req),
                                        bytes@,
                                    ) == Some(Err::<RpcResponseV, u32>(code)),
                                    Err(ClientError::Binprot) => dec_response(
                                        kind_of(req),
                                        bytes@,
                                    ) is None,
                                    Err(ClientError::TransportEnded) => false,
                                }))
                            } else {
                                &&& *final(self) == *old(self)
                                &&& *final(db) == *old(db)
                                &&& r == Step::Continue(Action::Idle)
                            }
                        },
                        None => {
                            &&& *final(self) == *old(self)
                            &&& *final(db) == *old(db)
                            &&& r == Step::Continue(Action::Idle)
                        },
                    }
                },
                NetEvent::Other => {
                    &&& *final(self) == *old(self)
                    &&& *final(db) == *old(db)
                    &&& r == Step::Continue(Action::Idle)
                },
                NetEvent::Query { .. } => {
                    &&& *final(self) == *old(self)
                    &&& *final(db) == *old(db)
                    &&& r is Continue
                },
                NetEvent::Gossip { source, ref data } => {
                    &&& final(self).peer == Some(source)
                    &&& final(self).session == Some(1u64)
                    &&& final(self).next_id == old(self).next_id
                    &&& final(self).pending == old(self).pending
                    &&& final(self).outstanding == old(self).outstanding
                    &&& final(db).ledgers() == old(db).ledgers()
                    &&& final(db).auxes() == old(db).auxes()
                    &&& final(db).root_of() == old(db).root_of()
                    &&& (broadcast_block(data@) is None ==> final(db).blocks() == old(db).blocks()
                        && final(db).heights() == old(db).heights() && final(db).height_of()
                        == old(db).height_of())
                    &&& r == Step::Continue(Action::Idle)
                },
            }),
    {
        match event {
            NetEvent::ConnectionEstablished { peer } => {
                self.peer = Some(peer);
                Step::Continue(Action::OpenSession { peer })
            },
            NetEvent::ConnectionClosed { peer } => {
                if self.peer == Some(peer) {
                    self.peer = None;
                    self.session = None;
                }
                Step::Continue(Action::Idle)
            },
            NetEvent::HandshakeDone { peer: _, session } => {
                if self.session.is_none() {
                    self.session = Some(session);
                }
                match (self.peer, self.session) {
                    (Some(p), Some(s)) => {
                        match self.pending {
                            Some(q) => {
                                let id = self.next_id;
                                self.next_id = self.next_id + 1;
                                self.pending = None;
                                self.outstanding = Some((id, q));
                                Step::Continue(
                                    Action::Send { peer: p, session: s, id, request: q },
                                )
                            },
                            None => Step::Continue(Action::Idle),
                        }
                    },
                    _ => Step::Continue(Action::Idle),
                }
            },
            NetEvent::Query { peer, session, id, tag, bytes } => {
                let action = self.handle_incoming(db, peer, session, id, tag, &bytes);
                Step::Continue(action)
            },
            NetEvent::Response { id, bytes } => {
                match self.outstanding {
                    Some((oid, req)) => {
                        if id == oid {
                            self.outstanding = None;
                            let kind = match req {
                                RpcRequest::BestTip => ReqKind::BestTip,
                                RpcRequest::AuxAt(_) => ReqKind::Aux,
                                RpcRequest::TransitionChain(_) => ReqKind::Chain,
                            };
                            Step::Done(decode_response(kind, &bytes))
                        } else {
                            Step::Continue(Action::Idle)
                        }
                    },
                    None => Step::Continue(Action::Idle),
                }
            },
            NetEvent::Gossip { source, data } => {
                self.process(db, source, &data);
                Step::Continue(Action::Idle)
            },
            NetEvent::Other => Step::Continue(Action::Idle),
        }
    }
}

} // verus!
