//! The bootstrap orchestrator: from an empty store to a fully populated
//! one, rooted at a peer-supplied anchor.
//!
//! The orchestrator is a state machine over protocol responses. Run once
//! when the store reports no committed root, it walks the catch-up
//! sequence: best-tip discovery, ledger-snapshot sync, auxiliary-data
//! fetch, then a backward chain walk from the tip that persists every
//! block until it closes the gap at the anchor — and only then commits
//! the anchor's height as the root. A crash mid-way leaves nothing to
//! undo: every write is an idempotent upsert, and the root goes in last.
//!
//! The waits themselves — the peer calls, the chunked ledger sync — are
//! the caller's: each step returns the action to perform, and the next
//! response drives the machine on.

use vstd::prelude::*;

use crate::block::{Block, BlockHeader};
use crate::client::{RpcRequest, RpcResponse};
use crate::db::{stored_block, Db, DbError};
use crate::digest::Digest;

verus! {

/// Where the catch-up sequence stands.
pub enum Stage {
    /// Waiting for the peer's best tip and anchor.
    AwaitBestTip,
    /// Anchor persisted; waiting for the external ledger sync to finish.
    AwaitLedger { anchor_hash: Digest, anchor_height: u32, ledger_hash: Digest, tip: Block },
    /// Snapshot persisted; waiting for the auxiliary data at the anchor.
    AwaitAux { anchor_hash: Digest, anchor_height: u32, tip: Block },
    /// Walking backward from `cur` towards the anchor.
    Walk { anchor_hash: Digest, anchor_height: u32, cur: Block },
    /// Bootstrap done; serving gossip and operator commands.
    Steady,
    /// An operator asked for one block by hash; waiting for it.
    Fetching { hash: Digest },
}

/// The bootstrap orchestrator's whole state.
pub struct Bootstrap {
    pub stage: Stage,
}

/// What the caller must do next.
pub enum BootAction {
    /// Issue this request through the protocol client.
    Rpc(RpcRequest),
    /// Run the external ledger-sync collaborator for this ledger hash
    /// and hand back the accounts it materializes.
    SyncLedger { ledger_hash: Digest },
    /// Nothing; wait for gossip, commands, or nothing at all.
    Idle,
}

/// Failure kinds of bootstrap. Any of them ends the run; bootstrap is
/// externally retriable by restarting, since the root is committed last.
#[derive(Clone, Copy, PartialEq, Eq, Structural, Debug)]
pub enum BootError {
    /// The peer reports no best tip at all.
    PeerHasNoTip,
    /// The peer holds no auxiliary data for the anchor.
    AuxUnavailable,
    /// A chain response carried no block.
    EmptyChain,
    /// A response arrived that the current stage cannot use.
    UnexpectedResponse,
    /// The store refused a write.
    Db(DbError),
}

/// Begins the catch-up sequence: nothing to do when a root is already
/// committed, otherwise ask the peer for its best tip.
pub fn bootstrap(db: &Db) -> (r: (Bootstrap, BootAction))
    requires
        db.wf(),
    ensures
        (match db.root_of() {
            Some(_) => r.0.stage is Steady && r.1 is Idle,
            None => r.0.stage is AwaitBestTip && r.1 == BootAction::Rpc(RpcRequest::BestTip),
        }),
{
    match db.root() {
        Ok(_) => (Bootstrap { stage: Stage::Steady }, BootAction::Idle),
        Err(_) => (Bootstrap { stage: Stage::AwaitBestTip }, BootAction::Rpc(RpcRequest::BestTip)),
    }
}

impl Bootstrap {
    /// Feeds one protocol response to the machine.
    ///
    /// Awaiting the best tip, a tip persists the anchor block and starts
    /// the ledger sync. Awaiting auxiliary data, the data is persisted
    /// and the backward walk begins — or, when the tip already is the
    /// anchor, the root is committed at once. Walking, each block is
    /// persisted under the hash it was asked by, and reaching the anchor
    /// commits the root: the one write that ends bootstrap. Fetching, the
    /// operator's block is persisted. Everything else is unexpected.
    pub fn on_response(&mut self, db: &mut Db, resp: RpcResponse) -> (r: Result<
        BootAction,
        BootError,
    >)
        requires
            old(db).wf(),
        ensures
            final(db).wf(),
            (match old(self).stage {
                Stage::AwaitBestTip => (match resp {
                    RpcResponse::BestTip(Some(bt)) => (match r {
                        Ok(a) => {
                            &&& stored_block(*old(db), *final(db), bt.anchor.header.state_hash, bt.anchor@)
                            &&& final(self).stage matches Stage::AwaitLedger {
                                anchor_hash,
                                anchor_height,
                                ledger_hash,
                                tip,
                            } && anchor_hash == bt.anchor.header.state_hash && anchor_height
                                == bt.anchor.header.height && ledger_hash
                                == bt.anchor.header.snarked_ledger_hash && tip@ == bt.tip@
                            &&& a == (BootAction::SyncLedger {
                                ledger_hash: bt.anchor.header.snarked_ledger_hash,
                            })
                            &&& final(db).root_of() == old(db).root_of()
                        },
                        Err(e) => e is Db,
                    }),
                    RpcResponse::BestTip(None) => r == Err::<BootAction, BootError>(
                        BootError::PeerHasNoTip,
                    ),
                    _ => r == Err::<BootAction, BootError>(BootError::UnexpectedResponse),
                }),
                Stage::AwaitAux { anchor_hash, anchor_height, ref tip } => (match resp {
                    RpcResponse::Aux(Some(aux)) => {
                        &&& final(db).auxes() == old(db).auxes().insert(anchor_hash, aux)
                        &&& final(db).blocks() == old(db).blocks()
                        &&& final(db).ledgers() == old(db).ledgers()
                        &&& final(db).heights() == old(db).heights()
                        &&& (if tip.header.state_hash == anchor_hash {
                            &&& final(db).root_of() == Some(anchor_height)
                            &&& final(self).stage is Steady
                            &&& r == Ok::<BootAction, BootError>(BootAction::Idle)
                        } else {
                            &&& final(db).root_of() == old(db).root_of()
                            &&& final(self).stage matches Stage::Walk { anchor_hash: a2, anchor_height: h2, ref cur }
                                && a2 == anchor_hash && h2 == anchor_height && cur@ == tip@
                            &&& r == Ok::<BootAction, BootError>(BootAction::Rpc(
                                RpcRequest::TransitionChain(tip.header.prev_hash),
                            ))
                        })
                    },
                    RpcResponse::Aux(None) => r == Err::<BootAction, BootError>(
                        BootError::AuxUnavailable,
                    ),
                    _ => r == Err::<BootAction, BootError>(BootError::UnexpectedResponse),
                }),
                Stage::Walk { anchor_hash, anchor_height, ref cur } => (match resp {
                    RpcResponse::Chain(Some(ref blocks)) => {
                        if blocks@.len() == 0 {
                            r == Err::<BootAction, BootError>(BootError::EmptyChain)
                        } else {
                            (match r {
                                Ok(a) => {
                                    &&& stored_block(
                                        *old(db),
                                        *final(db),
                                        cur.header.prev_hash,
                                        blocks@[0]@,
                                    )
                                    &&& (if cur.header.prev_hash == anchor_hash {
                                        &&& final(db).root_of() == Some(anchor_height)
                                        &&& final(self).stage is Steady
                                        &&& a is Idle
                                    } else {
                                        &&& final(db).root_of() == old(db).root_of()
                                        &&& final(self).stage matches Stage::Walk {
                                            anchor_hash: a2,
                                            anchor_height: h2,
                                            cur: ref c2,
                                        } && a2 == anchor_hash && h2 == anchor_height && c2@
                                            == blocks@[0]@
                                        &&& a == BootAction::Rpc(
                                            RpcRequest::TransitionChain(blocks@[0].header.prev_hash),
                                        )
                                    })
                                },
                                Err(e) => e is Db,
                            })
                        }
                    },
                    _ => r == Err::<BootAction, BootError>(BootError::UnexpectedResponse),
                }),
                Stage::Fetching { hash } => (match resp {
                    RpcResponse::Chain(Some(ref blocks)) => {
                        if blocks@.len() == 0 {
                            r == Err::<BootAction, BootError>(BootError::EmptyChain)
                        } else {
                            (match r {
                                Ok(a) => {
                                    &&& stored_block(*old(db), *final(db), hash, blocks@[0]@)
                                    &&& final(db).root_of() == old(db).root_of()
                                    &&& final(self).stage is Steady
                                    &&& a is Idle
                                },
                                Err(e) => e is Db,
                            })
                        }
                    },
                    _ => r == Err::<BootAction, BootError>(BootError::UnexpectedResponse),
                }),
                _ => true,
            }),
    {
        let mut stage = Stage::Steady;
        std::mem::swap(&mut stage, &mut self.stage);
        match (stage, resp) {
            (Stage::AwaitBestTip, RpcResponse::BestTip(Some(bt))) => {
                let anchor_hash = bt.anchor.hash();
                let anchor_height = bt.anchor.height();
                let ledger_hash = bt.anchor.snarked_ledger_hash();
                match db.put_block(anchor_hash, bt.anchor) {
                    Ok(_) => {},
                    Err(e) => {
                        return Err(BootError::Db(e));
                    },
                }
                self.stage = Stage::AwaitLedger {
                    anchor_hash,
                    anchor_height,
                    ledger_hash,
                    tip: bt.tip,
                };
                Ok(BootAction::SyncLedger { ledger_hash })
            },
            (Stage::AwaitBestTip, RpcResponse::BestTip(None)) => Err(BootError::PeerHasNoTip),
            (Stage::AwaitAux { anchor_hash, anchor_height, tip }, RpcResponse::Aux(Some(aux))) => {
                db.put_aux(anchor_hash, aux);
                if tip.header.state_hash == anchor_hash {
                    db.put_root(anchor_height);
                    self.stage = Stage::Steady;
                    Ok(BootAction::Idle)
                } else {
                    let prev = tip.header.prev_hash;
                    self.stage = Stage::Walk { anchor_hash, anchor_height, cur: tip };
                    Ok(BootAction::Rpc(RpcRequest::TransitionChain(prev)))
                }
            },
            (Stage::AwaitAux { .. }, RpcResponse::Aux(None)) => Err(BootError::AuxUnavailable),
            (Stage::Walk { anchor_hash, anchor_height, cur }, RpcResponse::Chain(Some(blocks))) => {
                if blocks.len() == 0 {
                    return Err(BootError::EmptyChain);
                }
                let head = cur.header.prev_hash;
                let block = blocks[0].clone();
                let next_prev = block.header.prev_hash;
                match db.put_block(head, block) {
                    Ok(_) => {},
                    Err(e) => {
                        return Err(BootError::Db(e));
                    },
                }
                if head == anchor_hash {
                    db.put_root(anchor_height);
                    self.stage = Stage::Steady;
                    Ok(BootAction::Idle)
                } else {
                    let cur2 = db.block_full(&head);
                    match cur2 {
                        Ok(b) => {
                            self.stage = Stage::Walk { anchor_hash, anchor_height, cur: b };
                            Ok(BootAction::Rpc(RpcRequest::TransitionChain(next_prev)))
                        },
                        Err(e) => Err(BootError::Db(e)),
                    }
                }
            },
            (Stage::Fetching { hash }, RpcResponse::Chain(Some(blocks))) => {
                if blocks.len() == 0 {
                    return Err(BootError::EmptyChain);
                }
                let block = blocks[0].clone();
                match db.put_block(hash, block) {
                    Ok(_) => {
                        self.stage = Stage::Steady;
                        Ok(BootAction::Idle)
                    },
                    Err(e) => Err(BootError::Db(e)),
                }
            },
            (_, _) => Err(BootError::UnexpectedResponse),
        }
    }

    /// The external ledger sync finished: persist the snapshot's
    /// accounts under the anchor's ledger hash and ask for the
    /// auxiliary data next.
    pub fn on_ledger_synced(&mut self, db: &mut Db, accounts: Vec<Vec<u8>>) -> (r: Result<
        BootAction,
        BootError,
    >)
        requires
            old(db).wf(),
        ensures
            final(db).wf(),
            (match old(self).stage {
                Stage::AwaitLedger { anchor_hash, anchor_height, ledger_hash, ref tip } => {
                    &&& final(db).ledgers() == old(db).ledgers().insert(ledger_hash, accounts)
                    &&& final(db).blocks() == old(db).blocks()
                    &&& final(db).auxes() == old(db).auxes()
                    &&& final(db).heights() == old(db).heights()
                    &&& final(db).root_of() == old(db).root_of()
                    &&& final(self).stage matches Stage::AwaitAux {
                        anchor_hash: a2,
                        anchor_height: h2,
                        tip: ref t2,
                    } && a2 == anchor_hash && h2 == anchor_height && t2@ == tip@
                    &&& r == Ok::<BootAction, BootError>(BootAction::Rpc(
                        RpcRequest::AuxAt(anchor_hash),
                    ))
                },
                _ => r == Err::<BootAction, BootError>(BootError::UnexpectedResponse)
                    && *final(db) == *old(db),
            }),
    {
        let mut stage = Stage::Steady;
        std::mem::swap(&mut stage, &mut self.stage);
        match stage {
            Stage::AwaitLedger { anchor_hash, anchor_height, ledger_hash, tip } => {
                db.put_ledger(ledger_hash, accounts);
                self.stage = Stage::AwaitAux { anchor_hash, anchor_height, tip };
                Ok(BootAction::Rpc(RpcRequest::AuxAt(anchor_hash)))
            },
            other => {
                self.stage = other;
                Err(BootError::UnexpectedResponse)
            },
        }
    }

    /// An operator asks for one block by hash: fetch it and store it,
    /// the gap-patching command of the steady loop.
    pub fn on_command(&mut self, hash: Digest) -> (r: Option<BootAction>)
        ensures
            (match old(self).stage {
                Stage::Steady => {
                    &&& final(self).stage == (Stage::Fetching { hash })
                    &&& r == Some(BootAction::Rpc(RpcRequest::TransitionChain(hash)))
                },
                _ => r is None && final(self).stage == old(self).stage,
            }),
    {
        match self.stage {
            Stage::Steady => {
                self.stage = Stage::Fetching { hash };
                Some(BootAction::Rpc(RpcRequest::TransitionChain(hash)))
            },
            _ => None,
        }
    }
}

} // verus!
