//! The ancestor replay engine: re-verifies the persisted block tree by
//! replaying every block's transaction diff, fork by fork.
//!
//! A [`Storage`] value is one branch's replay state. The cryptographic
//! work — rebuilding a staged ledger from a snapshot, applying a diff —
//! belongs to the external batch-apply collaborator; it hands its
//! computed composite hash back to this engine, and the engine decides:
//! a computed hash that misses the expectation fails construction
//! ([`Storage::new`]) or drops the branch ([`Replay::apply_next`]),
//! never silently diverges.
//!
//! The engine walks the height index upward. At each height it pairs
//! every live branch with every stored candidate block whose
//! previous-state hash names that branch, replays each pair, and keeps
//! exactly the pairs whose computed hash equals the candidate's claim.
//! Branches with no matching child, and candidates matching no branch,
//! are dropped, which bounds memory to the live forks.

use vstd::prelude::*;

use crate::block::{AuxData, Block, BlockHeader, Header};
use crate::db::{distinct_keys, BlockId, Db, DbError};
use crate::digest::Digest;

verus! {

/// Failure kinds of replay: a hash that does not meet its expectation.
#[derive(Clone, Copy, PartialEq, Eq, Structural, Debug)]
pub enum ReplayError {
    /// At construction, the collaborator's computed hash missed the
    /// externally supplied expected hash.
    RootMismatch { computed: Digest, expected: Digest },
    /// A candidate block does not name the branch it was paired with.
    PrevMismatch { claimed: Digest, actual: Digest },
    /// After applying a diff, the computed hash missed the block
    /// header's claim.
    StagedMismatch { computed: Digest, claimed: Digest },
}

/// One branch's replay state: the composite ledger-plus-scan-state hash
/// it last computed. The staged ledger itself lives with the external
/// collaborator.
#[derive(Clone, Copy, PartialEq, Eq, Structural, Debug)]
pub struct Storage {
    pub staged_hash: Digest,
}

/// What applying one block to one branch yields: the advanced branch
/// when the previous-state hash and the computed hash both check out,
/// and the exact failure otherwise.
pub open spec fn apply_outcome(prev: Header, header: Header, computed: Digest) -> Result<
    Storage,
    ReplayError,
> {
    if header.prev_hash != prev.state_hash {
        Err(ReplayError::PrevMismatch { claimed: header.prev_hash, actual: prev.state_hash })
    } else if computed != header.staged_hash {
        Err(ReplayError::StagedMismatch { computed, claimed: header.staged_hash })
    } else {
        Ok(Storage { staged_hash: header.staged_hash })
    }
}

/// Replay is a function of the branch, the block and the collaborator's
/// computed hash alone: identical inputs — in particular, a cloned
/// branch in an identical state — yield the identical outcome, and a
/// successful outcome always lands on the block's claimed hash.
pub proof fn lemma_apply_deterministic(
    prev1: Header,
    header1: Header,
    computed1: Digest,
    prev2: Header,
    header2: Header,
    computed2: Digest,
)
    requires
        prev1 == prev2,
        header1 == header2,
        computed1 == computed2,
    ensures
        apply_outcome(prev1, header1, computed1) == apply_outcome(prev2, header2, computed2),
        apply_outcome(prev1, header1, computed1) matches Ok(s) ==> s.staged_hash
            == header1.staged_hash,
{
}

impl Storage {
    /// Seeds a branch from a freshly rebuilt ledger context: the
    /// collaborator's computed hash must equal the expected hash taken
    /// from the root block's header, else construction fails.
    pub fn new(computed_hash: Digest, expected_hash: Digest) -> (r: Result<Storage, ReplayError>)
        ensures
            computed_hash == expected_hash <==> r is Ok,
            (match r {
                Ok(s) => s.staged_hash == expected_hash,
                Err(e) => e == (ReplayError::RootMismatch {
                    computed: computed_hash,
                    expected: expected_hash,
                }),
            }),
    {
        if computed_hash == expected_hash {
            Ok(Storage { staged_hash: expected_hash })
        } else {
            Err(ReplayError::RootMismatch { computed: computed_hash, expected: expected_hash })
        }
    }

    /// Advances this branch by one block, given the hash the external
    /// collaborator computed for the block's diff. On any mismatch the
    /// branch is left as it was and the exact failure is returned.
    pub fn apply_block(&mut self, block: &Block, prev: &Header, computed_hash: Digest) -> (r:
        Result<(), ReplayError>)
        ensures
            (match apply_outcome(*prev, block.header, computed_hash) {
                Ok(s) => r is Ok && *final(self) == s,
                Err(e) => r == Err::<(), ReplayError>(e) && *final(self) == *old(self),
            }),
    {
        if block.header.prev_hash != prev.state_hash {
            return Err(
                ReplayError::PrevMismatch {
                    claimed: block.header.prev_hash,
                    actual: prev.state_hash,
                },
            );
        }
        if computed_hash != block.header.staged_hash {
            return Err(
                ReplayError::StagedMismatch {
                    computed: computed_hash,
                    claimed: block.header.staged_hash,
                },
            );
        }
        self.staged_hash = block.header.staged_hash;
        Ok(())
    }
}

/// Everything the external collaborator needs to rebuild the root
/// ledger context: the root block, its snapshot's accounts, the
/// auxiliary data, and the expected composite hash to check against.
pub struct ReplayStart {
    pub root_hash: Digest,
    pub root_block: Block,
    pub accounts: Vec<Vec<u8>>,
    pub aux: AuxData,
    pub expected_hash: Digest,
}

/// Gathers from the store everything replay starts from: the committed
/// root's first block, its snarked-ledger snapshot, and its auxiliary
/// data. Each absence surfaces as the store's own error, never a panic.
pub fn again(db: &Db) -> (r: Result<ReplayStart, DbError>)
    requires
        db.wf(),
    ensures
        (match r {
            Ok(rs) => {
                &&& db.root_of() matches Some(root)
                &&& exists|h: u32|
                    #![auto]
                    h >= root && db.heights().contains_key(h) && db.heights()[h]@[0]
                        == rs.root_hash
                &&& db.blocks().contains_key(rs.root_hash)
                &&& rs.root_block@ == db.blocks()[rs.root_hash]@
                &&& db.ledgers().contains_key(rs.root_block.header.snarked_ledger_hash)
                &&& rs.accounts.deep_view() == db.ledgers()[
                    rs.root_block.header.snarked_ledger_hash
                ].deep_view()
                &&& db.auxes().contains_key(rs.root_hash)
                &&& rs.aux@ == db.auxes()[rs.root_hash]@
                &&& rs.expected_hash == rs.root_block.header.staged_hash
            },
            Err(e) => (match e {
                DbError::RootNotFound => db.root_of() is None || (db.root_of() matches Some(root)
                    && (forall|h2: u32| h2 >= root ==> !db.heights().contains_key(h2))),
                DbError::BlockNotFound(d) => !db.blocks().contains_key(d),
                DbError::LedgerNotFound(d) => !db.ledgers().contains_key(d),
                DbError::AuxNotFound(d) => !db.auxes().contains_key(d),
                DbError::BadIndex => false,
            }),
        }),
{
    let root = match db.root() {
        Ok(h) => h,
        Err(e) => {
            return Err(e);
        },
    };
    let (_h, hashes) = match db.block(BlockId::Forward(root)) {
        Some(p) => p,
        None => {
            return Err(DbError::RootNotFound);
        },
    };
    let root_hash = hashes[0];
    let root_block = db.block_full(&root_hash)?;
    let accounts = db.ledger(&root_block.snarked_ledger_hash())?;
    let aux = db.aux(&root_hash)?;
    let expected_hash = root_block.header.staged_hash;
    Ok(ReplayStart { root_hash, root_block, accounts, aux, expected_hash })
}

/// One queued replay pair: a live branch and a candidate block whose
/// previous-state hash names it. `hash` is the key the candidate is
/// stored under, the key of the advanced branch.
pub struct WorkItem {
    pub hash: Digest,
    pub prev_header: Header,
    pub branch: Storage,
    pub block: Block,
}

/// Whether a queued item pairs ancestor `i` with candidate `j` of the
/// row, faithfully to the store.
pub open spec fn pair_at(
    db: &Db,
    anc: Seq<(Digest, (Header, Storage))>,
    row: Seq<Digest>,
    item: WorkItem,
    i: int,
    j: int,
) -> bool {
    &&& 0 <= i < anc.len()
    &&& 0 <= j < row.len()
    &&& item.hash == row[j]
    &&& db.blocks().contains_key(row[j])
    &&& item.block@ == db.blocks()[row[j]]@
    &&& item.block.header.prev_hash == anc[i].0
    &&& item.prev_header == anc[i].1.0
    &&& item.branch == anc[i].1.1
}

/// Whether a queued item is a genuine pairing of some live branch with
/// some candidate of the row.
pub open spec fn queued_ok(
    db: &Db,
    anc: Seq<(Digest, (Header, Storage))>,
    row: Seq<Digest>,
    item: WorkItem,
) -> bool {
    exists|i: int, j: int| #[trigger] pair_at(db, anc, row, item, i, j)
}

/// Whether the queue holds the pairing of branch `i` with candidate `j`.
pub open spec fn covered(
    db: &Db,
    anc: Seq<(Digest, (Header, Storage))>,
    row: Seq<Digest>,
    work: Seq<WorkItem>,
    i: int,
    j: int,
) -> bool {
    exists|k: int| 0 <= k < work.len() && #[trigger] pair_at(db, anc, row, work[k], i, j)
}

/// Appending to the queue loses no pairing and keeps every queued item
/// genuine when the appended one is.
proof fn lemma_queue_grows(
    db: &Db,
    anc: Seq<(Digest, (Header, Storage))>,
    row: Seq<Digest>,
    work: Seq<WorkItem>,
    item: WorkItem,
)
    requires
        queued_ok(db, anc, row, item),
        forall|k: int| 0 <= k < work.len() ==> queued_ok(db, anc, row, #[trigger] work[k]),
    ensures
        forall|k: int|
            0 <= k < work.push(item).len() ==> queued_ok(db, anc, row, #[trigger] work.push(
                item,
            )[k]),
        forall|i: int, j: int|
            covered(db, anc, row, work, i, j) ==> #[trigger] covered(
                db,
                anc,
                row,
                work.push(item),
                i,
                j,
            ),
{
    assert forall|k: int|
        0 <= k < work.push(item).len() implies queued_ok(db, anc, row, #[trigger] work.push(
        item,
    )[k]) by {
        if k < work.len() {
            assert(work.push(item)[k] == work[k]);
        } else {
            assert(work.push(item)[k] == item);
        }
    }
    assert forall|i: int, j: int|
        covered(db, anc, row, work, i, j) implies #[trigger] covered(
        db,
        anc,
        row,
        work.push(item),
        i,
        j,
    ) by {
        let k = choose|k: int| 0 <= k < work.len() && #[trigger] pair_at(db, anc, row, work[k], i, j);
        assert(work.push(item)[k] == work[k]);
        assert(pair_at(db, anc, row, work.push(item)[k], i, j));
    }
}

/// The replay frontier and its walk state: the live branches keyed by
/// their latest block hash, the next frontier being built, the queued
/// pairs of the height in hand, and the next height to fetch.
pub struct Replay {
    pub ancestors: Vec<(Digest, (Header, Storage))>,
    pub next_map: Vec<(Digest, (Header, Storage))>,
    pub work: Vec<WorkItem>,
    pub cursor: u64,
}

impl Replay {
    /// Distinct branch keys on both frontiers.
    pub open spec fn wf(&self) -> bool {
        &&& distinct_keys(self.ancestors@)
        &&& distinct_keys(self.next_map@)
    }

    /// The map of live branches.
    pub open spec fn frontier(&self) -> Map<Digest, (Header, Storage)> {
        crate::db::assoc_map(self.ancestors@)
    }

    /// The map of branches advanced past the height in hand.
    pub open spec fn next_frontier(&self) -> Map<Digest, (Header, Storage)> {
        crate::db::assoc_map(self.next_map@)
    }

    /// Seeds the frontier with the root branch, constructed from the
    /// collaborator's computed hash ([`Storage::new`]): the frontier
    /// holds exactly the root entry, and the walk starts above the
    /// root's height.
    pub fn seed(start: &ReplayStart, computed_hash: Digest) -> (r: Result<Replay, ReplayError>)
        ensures
            (computed_hash == start.expected_hash) <==> r is Ok,
            (match r {
                Ok(rp) => {
                    &&& rp.wf()
                    &&& rp.ancestors@.len() == 1
                    &&& rp.ancestors@[0].0 == start.root_hash
                    &&& rp.ancestors@[0].1.0 == start.root_block.header
                    &&& rp.ancestors@[0].1.1.staged_hash == start.expected_hash
                    &&& rp.work@.len() == 0
                    &&& rp.next_map@.len() == 0
                    &&& rp.cursor == start.root_block.header.height + 1
                },
                Err(e) => e == (ReplayError::RootMismatch {
                    computed: computed_hash,
                    expected: start.expected_hash,
                }),
            }),
    {
        let branch = Storage::new(computed_hash, start.expected_hash)?;
        let mut ancestors: Vec<(Digest, (Header, Storage))> = Vec::new();
        ancestors.push((start.root_hash, (start.root_block.header, branch)));
        Ok(
            Replay {
                ancestors,
                next_map: Vec::new(),
                work: Vec::new(),
                cursor: start.root_block.header.height as u64 + 1,
            },
        )
    }

    /// Fetches the next height present in the store and queues every
    /// branch-candidate pair of that height: exactly the candidates
    /// whose previous-state hash names a live branch, each paired with
    /// that branch. Yields the height, or nothing when the store holds
    /// no further height.
    #[verifier::loop_isolation(false)]
    #[verifier::rlimit(100)]
    pub fn load_height(&mut self, db: &Db) -> (r: Option<u32>)
        requires
            db.wf(),
            old(self).wf(),
            old(self).work@.len() == 0,
        ensures
            final(self).wf(),
            final(self).ancestors@ == old(self).ancestors@,
            final(self).next_map@ == old(self).next_map@,
            (match r {
                None => {
                    &&& final(self).work@.len() == 0
                    &&& (forall|h2: u32|
                        h2 >= old(self).cursor ==> !db.heights().contains_key(h2))
                },
                Some(h) => {
                    let row = db.heights()[h]@;
                    &&& h >= old(self).cursor
                    &&& db.heights().contains_key(h)
                    &&& (forall|h2: u32|
                        old(self).cursor <= h2 < h ==> !db.heights().contains_key(h2))
                    &&& final(self).cursor == h + 1
                    &&& (forall|k: int|
                        0 <= k < final(self).work@.len() ==> queued_ok(
                            db,
                            old(self).ancestors@,
                            row,
                            #[trigger] final(self).work@[k],
                        ))
                    &&& (forall|i: int, j: int|
                        #![trigger old(self).ancestors@[i], row[j]]
                        0 <= i < old(self).ancestors@.len() && 0 <= j < row.len()
                            && db.blocks().contains_key(row[j])
                            && db.blocks()[row[j]]@.header.prev_hash == old(self).ancestors@[i].0
                            ==> covered(db, old(self).ancestors@, row, final(self).work@, i, j))
                },
            }),
    {
        if self.cursor > u32::MAX as u64 {
            return None;
        }
        let (h, row) = match db.block(BlockId::Forward(self.cursor as u32)) {
            Some(p) => p,
            None => {
                return None;
            },
        };
        let ghost anc = self.ancestors@;
        let ghost rowv = db.heights()[h]@;
        assert(row@ == rowv);
        self.cursor = h as u64 + 1;
        let mut j: usize = 0;
        while j < row.len()
            invariant
                j <= rowv.len(),
                row@ == rowv,
                self.ancestors@ == anc,
                self.next_map@ == old(self).next_map@,
                self.cursor == h + 1,
                forall|k: int|
                    0 <= k < self.work@.len() ==> queued_ok(
                        db,
                        anc,
                        rowv,
                        #[trigger] self.work@[k],
                    ),
                forall|i2: int, j2: int|
                    #![trigger anc[i2], rowv[j2]]
                    0 <= i2 < anc.len() && 0 <= j2 < j && db.blocks().contains_key(rowv[j2])
                        && db.blocks()[rowv[j2]]@.header.prev_hash == anc[i2].0 ==> covered(
                        db,
                        anc,
                        rowv,
                        self.work@,
                        i2,
                        j2,
                    ),
            decreases rowv.len() - j,
        {
            match db.block_full(&row[j]) {
                Ok(block) => {
                    let mut i: usize = 0;
                    while i < self.ancestors.len()
                        invariant
                            i <= anc.len(),
                            j < rowv.len(),
                            row@ == rowv,
                            self.ancestors@ == anc,
                            self.next_map@ == old(self).next_map@,
                            self.cursor == h + 1,
                            db.blocks().contains_key(rowv[j as int]),
                            block@ == db.blocks()[rowv[j as int]]@,
                            forall|k: int|
                                0 <= k < self.work@.len() ==> queued_ok(
                                    db,
                                    anc,
                                    rowv,
                                    #[trigger] self.work@[k],
                                ),
                            forall|i2: int, j2: int|
                                #![trigger anc[i2], rowv[j2]]
                                0 <= i2 < anc.len() && 0 <= j2 < j && db.blocks().contains_key(
                                    rowv[j2],
                                ) && db.blocks()[rowv[j2]]@.header.prev_hash == anc[i2].0
                                    ==> covered(db, anc, rowv, self.work@, i2, j2),
                            forall|i2: int|
                                0 <= i2 < i && db.blocks()[rowv[j as int]]@.header.prev_hash == (
                                #[trigger] anc[i2]).0 ==> covered(
                                    db,
                                    anc,
                                    rowv,
                                    self.work@,
                                    i2,
                                    j as int,
                                ),
                        decreases anc.len() - i,
                    {
                        if block.header.prev_hash == self.ancestors[i].0 {
                            let item = WorkItem {
                                hash: row[j],
                                prev_header: self.ancestors[i].1.0,
                                branch: self.ancestors[i].1.1,
                                block: block.clone(),
                            };
                            let ghost wpre = self.work@;
                            proof {
                                assert(pair_at(db, anc, rowv, item, i as int, j as int));
                            }
                            self.work.push(item);
                            proof {
                                lemma_queue_grows(db, anc, rowv, wpre, item);
                                assert(pair_at(
                                    db,
                                    anc,
                                    rowv,
                                    self.work@[self.work@.len() - 1],
                                    i as int,
                                    j as int,
                                ));
                            }
                        }
                        i = i + 1;
                    }
                },
                Err(_) => {},
            }
            proof {
                assert forall|i2: int, j2: int|
                    #![trigger anc[i2], rowv[j2]]
                    0 <= i2 < anc.len() && 0 <= j2 < j + 1 && db.blocks().contains_key(rowv[j2])
                        && db.blocks()[rowv[j2]]@.header.prev_hash == anc[i2].0 implies covered(
                    db,
                    anc,
                    rowv,
                    self.work@,
                    i2,
                    j2,
                ) by {
                    if j2 == j {
                        assert(db.blocks().contains_key(rowv[j as int]));
                    }
                }
            }
            j = j + 1;
        }
        Some(h)
    }

    /// Takes the last queued pair and replays it with the hash the
    /// collaborator computed for it. A pair whose hashes check out
    /// advances its branch into the next frontier under the candidate's
    /// key; a failed pair is dropped and the failure returned, the other
    /// branches untouched.
    pub fn apply_next(&mut self, computed_hash: Digest) -> (r: Result<(), ReplayError>)
        requires
            old(self).wf(),
            old(self).work@.len() > 0,
        ensures
            final(self).wf(),
            final(self).ancestors@ == old(self).ancestors@,
            final(self).cursor == old(self).cursor,
            final(self).work@ == old(self).work@.drop_last(),
            ({
                let item = old(self).work@.last();
                match apply_outcome(item.prev_header, item.block.header, computed_hash) {
                    Ok(s) => {
                        &&& r is Ok
                        &&& final(self).next_frontier() == old(self).next_frontier().insert(
                            item.hash,
                            (item.block.header, s),
                        )
                    },
                    Err(e) => {
                        &&& r == Err::<(), ReplayError>(e)
                        &&& final(self).next_map@ == old(self).next_map@
                    },
                }
            }),
    {
        let item = match self.work.pop() {
            Some(it) => it,
            None => {
                return Ok(());
            },
        };
        let mut branch = item.branch;
        match branch.apply_block(&item.block, &item.prev_header, computed_hash) {
            Ok(_) => {
                self.next_put(item.hash, item.block.header, branch);
                Ok(())
            },
            Err(e) => Err(e),
        }
    }

    /// Upserts one advanced branch into the next frontier.
    #[verifier::loop_isolation(false)]
    fn next_put(&mut self, hash: Digest, header: Header, branch: Storage)
        requires
            distinct_keys(old(self).next_map@),
        ensures
            distinct_keys(final(self).next_map@),
            final(self).next_frontier() == old(self).next_frontier().insert(
                hash,
                (header, branch),
            ),
            final(self).ancestors@ == old(self).ancestors@,
            final(self).work@ == old(self).work@,
            final(self).cursor == old(self).cursor,
    {
        let mut i: usize = 0;
        while i < self.next_map.len()
            invariant
                i <= self.next_map@.len(),
                self == old(self),
                forall|k: int| 0 <= k < i ==> (#[trigger] self.next_map@[k]).0 != hash,
            decreases self.next_map@.len() - i,
        {
            if self.next_map[i].0 == hash {
                proof {
                    crate::db::lemma_assoc_update(
                        self.next_map@,
                        i as int,
                        hash,
                        (header, branch),
                    );
                }
                self.next_map.set(i, (hash, (header, branch)));
                assert(forall|m: int|
                    0 <= m < self.next_map@.len() ==> (#[trigger] self.next_map@[m]).0 == old(
                        self,
                    ).next_map@[m].0);
                return ;
            }
            i = i + 1;
        }
        proof {
            crate::db::lemma_assoc_push(self.next_map@, hash, (header, branch));
        }
        self.next_map.push((hash, (header, branch)));
    }

    /// Ends the height in hand: the next frontier becomes the live one.
    /// Branches that advanced no further are gone — a dead fork costs
    /// nothing from here on.
    pub fn finish_height(&mut self)
        requires
            old(self).wf(),
            old(self).work@.len() == 0,
        ensures
            final(self).wf(),
            final(self).ancestors@ == old(self).next_map@,
            final(self).next_map@.len() == 0,
            final(self).work@.len() == 0,
            final(self).cursor == old(self).cursor,
    {
        let mut moved: Vec<(Digest, (Header, Storage))> = Vec::new();
        std::mem::swap(&mut moved, &mut self.next_map);
        self.ancestors = moved;
    }
}

} // verus!
