use vstd::prelude::*;

use crate::digest::Digest;

verus! {

/// The consensus header of a block: every field of a block that the
/// synchronization and replay logic reads.
///
/// `state_hash` is the block's own identity; `prev_hash` names its parent.
/// `staged_hash` is the header's claim about the composite
/// ledger-plus-scan-state hash that holds after the block's diff is
/// applied; the replay engine checks it. `snarked_ledger_hash` names the
/// snapshot that seeds a replay root.
#[derive(Clone, Copy, PartialEq, Eq, Structural, Debug)]
pub struct Header {
    /// Chain height, monotonic along each branch.
    pub height: u32,
    /// The block's own hash.
    pub state_hash: Digest,
    /// Hash of the parent block.
    pub prev_hash: Digest,
    /// Global slot counter since genesis.
    pub global_slot: u32,
    /// Identity of the coinbase receiver.
    pub coinbase_receiver: Digest,
    /// Claimed composite hash after applying this block's diff.
    pub staged_hash: Digest,
    /// Hash of the snarked ledger this block's proof window rests on.
    pub snarked_ledger_hash: Digest,
}

/// A block: a header plus an ordered transaction-batch diff.
///
/// The diff's internal structure belongs to the external batch-apply
/// collaborator; here it is carried as bytes.
#[derive(Debug)]
pub struct Block {
    pub header: Header,
    pub body: Vec<u8>,
}

impl Clone for Block {
    /// A cloned block has the same mathematical value.
    fn clone(&self) -> (res: Block)
        ensures
            res@ == self@,
    {
        let body = self.body.clone();
        assert(body@ =~= self.body@);
        Block { header: self.header, body }
    }
}

/// Mathematical value of a [`Block`].
pub ghost struct BlockV {
    pub header: Header,
    pub body: Seq<u8>,
}

impl View for Block {
    type V = BlockV;

    open spec fn view(&self) -> BlockV {
        BlockV { header: self.header, body: self.body@ }
    }
}

/// Read access to the header fields that storage and bootstrap key on.
pub trait BlockHeader {
    /// The chain height this block claims.
    fn height(&self) -> u32;

    /// The hash under which the block is addressed.
    fn hash(&self) -> Digest;

    /// The snarked-ledger hash this block's proof window rests on.
    fn snarked_ledger_hash(&self) -> Digest;
}

impl BlockHeader for Block {
    fn height(&self) -> (r: u32)
        ensures
            r == self.header.height,
    {
        self.header.height
    }

    fn hash(&self) -> (r: Digest)
        ensures
            r == self.header.state_hash,
    {
        self.header.state_hash
    }

    fn snarked_ledger_hash(&self) -> (r: Digest)
        ensures
            r == self.header.snarked_ledger_hash,
    {
        self.header.snarked_ledger_hash
    }
}

/// Auxiliary replay data fetched for one block hash: the scan state, the
/// pending-coinbase structure, and the protocol-state values referenced by
/// in-flight scan-state entries. Their internal structure belongs to the
/// external batch-apply collaborator; here they are carried as bytes.
#[derive(Debug)]
pub struct AuxData {
    pub scan_state: Vec<u8>,
    pub pending_coinbase: Vec<u8>,
    pub states: Vec<Vec<u8>>,
}

/// Cloning a vector of byte strings keeps its deep view.
pub fn clone_rows(rows: &Vec<Vec<u8>>) -> (res: Vec<Vec<u8>>)
    ensures
        res.deep_view() == rows.deep_view(),
{
    let res = rows.clone();
    proof {
        assert forall|i: int| 0 <= i < rows@.len() implies res@[i]@ == rows@[i]@ by {
            assert(vstd::pervasive::cloned::<Vec<u8>>(rows@[i], res@[i]));
        }
        assert(res.deep_view() =~~= rows.deep_view());
    }
    res
}

impl Clone for AuxData {
    /// Cloned auxiliary data has the same mathematical value.
    fn clone(&self) -> (res: AuxData)
        ensures
            res@ == self@,
    {
        let scan_state = self.scan_state.clone();
        assert(scan_state@ =~= self.scan_state@);
        let pending_coinbase = self.pending_coinbase.clone();
        assert(pending_coinbase@ =~= self.pending_coinbase@);
        let states = clone_rows(&self.states);
        AuxData { scan_state, pending_coinbase, states }
    }
}

/// Mathematical value of an [`AuxData`].
pub ghost struct AuxDataV {
    pub scan_state: Seq<u8>,
    pub pending_coinbase: Seq<u8>,
    pub states: Seq<Seq<u8>>,
}

impl View for AuxData {
    type V = AuxDataV;

    open spec fn view(&self) -> AuxDataV {
        AuxDataV {
            scan_state: self.scan_state@,
            pending_coinbase: self.pending_coinbase@,
            states: self.states.deep_view(),
        }
    }
}

} // verus!
