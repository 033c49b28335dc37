//! The block store: height- and hash-addressable storage for blocks,
//! ledger snapshots and auxiliary replay data.
//!
//! Six logical regions, each its own namespace: block-by-hash,
//! ledger-snapshot-by-hash, aux-by-hash, block-hashes-by-height,
//! height-by-hash (the inverse index), and the single committed-root
//! marker. The two height indices are kept consistent with the block
//! namespace at all times, and the committed root never moves except
//! through [`Db::put_root`] and [`Db::reset_root`].

use vstd::prelude::*;

use crate::block::{AuxData, Block, BlockHeader};
use crate::digest::Digest;

verus! {

// ---------------------------------------------------------------------
// Association lists as maps
// ---------------------------------------------------------------------

/// The map held by an association list; later entries win.
pub open spec fn assoc_map<K, V>(s: Seq<(K, V)>) -> Map<K, V>
    decreases s.len(),
{
    if s.len() == 0 {
        Map::empty()
    } else {
        assoc_map(s.drop_last()).insert(s.last().0, s.last().1)
    }
}

/// Whether no key occurs twice in an association list.
pub open spec fn distinct_keys<K, V>(s: Seq<(K, V)>) -> bool {
    forall|i: int, j: int| 0 <= i < j < s.len() ==> (#[trigger] s[i]).0 != (#[trigger] s[j]).0
}

/// Each entry of an association list is in its map.
pub proof fn lemma_assoc_index<K, V>(s: Seq<(K, V)>, i: int)
    requires
        distinct_keys(s),
        0 <= i < s.len(),
    ensures
        assoc_map(s).contains_key(s[i].0),
        assoc_map(s)[s[i].0] == s[i].1,
    decreases s.len(),
{
    if i < s.len() - 1 {
        lemma_assoc_index(s.drop_last(), i);
        assert(s.drop_last()[i] == s[i]);
        assert(s[s.len() - 1].0 != s[i].0);
    }
}

/// A key missing from every entry is missing from the map.
pub proof fn lemma_assoc_absent<K, V>(s: Seq<(K, V)>, k: K)
    requires
        forall|i: int| 0 <= i < s.len() ==> (#[trigger] s[i]).0 != k,
    ensures
        !assoc_map(s).contains_key(k),
    decreases s.len(),
{
    if s.len() > 0 {
        lemma_assoc_absent(s.drop_last(), k);
    }
}

/// A key of the map is the key of some entry.
pub proof fn lemma_assoc_dom<K, V>(s: Seq<(K, V)>, k: K)
    requires
        assoc_map(s).contains_key(k),
    ensures
        exists|i: int| 0 <= i < s.len() && (#[trigger] s[i]).0 == k,
    decreases s.len(),
{
    if s.len() > 0 {
        if s.last().0 == k {
            assert(s[s.len() - 1].0 == k);
        } else {
            lemma_assoc_dom(s.drop_last(), k);
            let i = choose|i: int| 0 <= i < s.drop_last().len() && (#[trigger] s.drop_last()[i]).0
                == k;
            assert(s[i].0 == k);
        }
    }
}

/// Appending a fresh entry inserts it into the map.
pub proof fn lemma_assoc_push<K, V>(s: Seq<(K, V)>, k: K, v: V)
    ensures
        assoc_map(s.push((k, v))) == assoc_map(s).insert(k, v),
{
    assert(s.push((k, v)).drop_last() =~= s);
    assert(s.push((k, v)).last() == (k, v));
}

/// Overwriting the entry that holds a key updates the map in place.
pub proof fn lemma_assoc_update<K, V>(s: Seq<(K, V)>, i: int, k: K, v: V)
    requires
        distinct_keys(s),
        0 <= i < s.len(),
        s[i].0 == k,
    ensures
        assoc_map(s.update(i, (k, v))) == assoc_map(s).insert(k, v),
    decreases s.len(),
{
    let t = s.update(i, (k, v));
    if i == s.len() - 1 {
        assert(t.drop_last() =~= s.drop_last());
        assert(t.last() == (k, v));
        assert(assoc_map(s.drop_last()).insert(s.last().0, s.last().1).insert(k, v)
            =~= assoc_map(s.drop_last()).insert(k, v));
    } else {
        assert(t.drop_last() =~= s.drop_last().update(i, (k, v)));
        assert(s.drop_last()[i] == s[i]);
        lemma_assoc_update(s.drop_last(), i, k, v);
        assert(t.last() == s.last());
        assert(s.last().0 != k);
        assert(assoc_map(s.drop_last()).insert(k, v).insert(s.last().0, s.last().1)
            =~= assoc_map(s.drop_last()).insert(s.last().0, s.last().1).insert(k, v));
    }
}

/// Inserting an entry with a fresh key anywhere inserts it into the map.
pub proof fn lemma_assoc_insert_at<K, V>(s: Seq<(K, V)>, i: int, k: K, v: V)
    requires
        0 <= i <= s.len(),
        forall|j: int| 0 <= j < s.len() ==> (#[trigger] s[j]).0 != k,
    ensures
        assoc_map(s.insert(i, (k, v))) == assoc_map(s).insert(k, v),
    decreases s.len(),
{
    let t = s.insert(i, (k, v));
    if i == s.len() {
        assert(t =~= s.push((k, v)));
        lemma_assoc_push(s, k, v);
    } else {
        assert(t.len() == s.len() + 1);
        assert(t.last() == s.last());
        assert(t.drop_last() =~= s.drop_last().insert(i, (k, v)));
        assert(forall|j: int|
            0 <= j < s.drop_last().len() ==> (#[trigger] s.drop_last()[j]).0 != k);
        lemma_assoc_insert_at(s.drop_last(), i, k, v);
        assert(s.last().0 != k);
        assert(assoc_map(s.drop_last()).insert(k, v).insert(s.last().0, s.last().1)
            =~= assoc_map(s.drop_last()).insert(s.last().0, s.last().1).insert(k, v));
    }
}

/// Removing the entry that holds a key removes it from the map.
pub proof fn lemma_assoc_remove_at<K, V>(s: Seq<(K, V)>, i: int)
    requires
        distinct_keys(s),
        0 <= i < s.len(),
    ensures
        assoc_map(s.remove(i)) == assoc_map(s).remove(s[i].0),
    decreases s.len(),
{
    let t = s.remove(i);
    if i == s.len() - 1 {
        assert(t =~= s.drop_last());
        lemma_assoc_absent_from_distinct(s, i);
        assert(assoc_map(s.drop_last()).insert(s.last().0, s.last().1).remove(s.last().0)
            =~= assoc_map(s.drop_last()));
    } else {
        assert(t.last() == s.last());
        assert(t.drop_last() =~= s.drop_last().remove(i));
        assert(s.drop_last()[i] == s[i]);
        lemma_assoc_remove_at(s.drop_last(), i);
        assert(s.last().0 != s[i].0);
        assert(assoc_map(s.drop_last()).remove(s[i].0).insert(s.last().0, s.last().1)
            =~= assoc_map(s.drop_last()).insert(s.last().0, s.last().1).remove(s[i].0));
    }
}

/// In a distinct list, the map of everything before the last entry does
/// not hold the key at `i` when `i` is the last position.
proof fn lemma_assoc_absent_from_distinct<K, V>(s: Seq<(K, V)>, i: int)
    requires
        distinct_keys(s),
        i == s.len() - 1,
        0 <= i,
    ensures
        !assoc_map(s.drop_last()).contains_key(s[i].0),
{
    assert(forall|j: int|
        0 <= j < s.drop_last().len() ==> (#[trigger] s.drop_last()[j]).0 != s[i].0);
    lemma_assoc_absent(s.drop_last(), s[i].0);
}

// ---------------------------------------------------------------------
// The store
// ---------------------------------------------------------------------

/// Where a walk of the height index starts.
pub enum BlockId {
    /// The greatest height present.
    Latest,
    /// The least height present that is at or above the given one.
    Forward(u32),
}

/// Failure kinds of the store: a key that should be present is absent,
/// or an insert would contradict the height index.
#[derive(Clone, Copy, PartialEq, Eq, Structural, Debug)]
pub enum DbError {
    /// A block was re-put under a height other than the indexed one.
    BadIndex,
    /// No ledger snapshot under this ledger hash.
    LedgerNotFound(Digest),
    /// No block under this hash.
    BlockNotFound(Digest),
    /// No auxiliary data under this block hash.
    AuxNotFound(Digest),
    /// No root has been committed yet.
    RootNotFound,
}

/// Whether the height rows are sorted strictly ascending by height.
pub open spec fn sorted_rows(s: Seq<(u32, Vec<Digest>)>) -> bool {
    forall|i: int, j: int| 0 <= i < j < s.len() ==> (#[trigger] s[i]).0 < (#[trigger] s[j]).0
}

/// Whether the write-back cache agrees with the height index.
pub open spec fn cache_ok(cache: Option<(u32, Vec<Digest>)>, heights: Map<u32, Vec<Digest>>) -> bool {
    cache matches Some(c) ==> heights.contains_key(c.0) && heights[c.0]@ == c.1@
}

/// The height index invariant: every hash listed at a height h is a key
/// of the block namespace, is inversely indexed at exactly h, and is
/// listed only once; and every inversely indexed hash is listed at its
/// height.
pub open spec fn index_ok(
    blocks: Map<Digest, Block>,
    heights: Map<u32, Vec<Digest>>,
    height_of: Map<Digest, u32>,
) -> bool {
    &&& (forall|h: u32, i: int|
        #![trigger heights[h]@[i]]
        heights.contains_key(h) && 0 <= i < heights[h]@.len() ==> {
            let d = heights[h]@[i];
            &&& blocks.contains_key(d)
            &&& height_of.contains_key(d)
            &&& height_of[d] == h
            &&& (forall|j: int| 0 <= j < heights[h]@.len() && heights[h]@[j] == d ==> j == i)
        })
    &&& (forall|d: Digest|
        #[trigger] height_of.contains_key(d) ==> {
            let h = height_of[d];
            &&& heights.contains_key(h)
            &&& heights[h]@.contains(d)
        })
    &&& (forall|h: u32| #[trigger] heights.contains_key(h) ==> heights[h]@.len() > 0)
}

/// The store itself. All mutation is upsert; the only structural removal
/// is the explicit [`Db::remove_block`] prune.
pub struct Db {
    pub blocks: Vec<(Digest, Block)>,
    pub ledgers: Vec<(Digest, Vec<Vec<u8>>)>,
    pub auxes: Vec<(Digest, AuxData)>,
    pub by_height: Vec<(u32, Vec<Digest>)>,
    pub height_of: Vec<(Digest, u32)>,
    pub root: Option<u32>,
    pub cache: Option<(u32, Vec<Digest>)>,
}

impl Db {
    /// The block namespace: hash to full block.
    pub open spec fn blocks(&self) -> Map<Digest, Block> {
        assoc_map(self.blocks@)
    }

    /// The ledger namespace: ledger hash to account list.
    pub open spec fn ledgers(&self) -> Map<Digest, Vec<Vec<u8>>> {
        assoc_map(self.ledgers@)
    }

    /// The aux namespace: block hash to auxiliary replay data.
    pub open spec fn auxes(&self) -> Map<Digest, AuxData> {
        assoc_map(self.auxes@)
    }

    /// The height index: height to the hashes observed at it.
    pub open spec fn heights(&self) -> Map<u32, Vec<Digest>> {
        assoc_map(self.by_height@)
    }

    /// The inverse height index: hash to its height.
    pub open spec fn height_of(&self) -> Map<Digest, u32> {
        assoc_map(self.height_of@)
    }

    /// The committed root, if one exists.
    pub open spec fn root_of(&self) -> Option<u32> {
        self.root
    }

    /// Well-formedness: distinct keys in every namespace, the height
    /// rows sorted ascending, the write-back cache coherent with the
    /// height index, and the height index invariant itself.
    pub open spec fn wf(&self) -> bool {
        &&& distinct_keys(self.blocks@)
        &&& distinct_keys(self.ledgers@)
        &&& distinct_keys(self.auxes@)
        &&& distinct_keys(self.height_of@)
        &&& sorted_rows(self.by_height@)
        &&& cache_ok(self.cache, self.heights())
        &&& index_ok(self.blocks(), self.heights(), self.height_of())
    }

    /// Opens a fresh, empty store.
    pub fn open() -> (r: Db)
        ensures
            r.wf(),
            r.blocks() == Map::<Digest, Block>::empty(),
            r.ledgers() == Map::<Digest, Vec<Vec<u8>>>::empty(),
            r.auxes() == Map::<Digest, AuxData>::empty(),
            r.heights() == Map::<u32, Vec<Digest>>::empty(),
            r.height_of() == Map::<Digest, u32>::empty(),
            r.root_of() is None,
    {
        Db {
            blocks: Vec::new(),
            ledgers: Vec::new(),
            auxes: Vec::new(),
            by_height: Vec::new(),
            height_of: Vec::new(),
            root: None,
            cache: None,
        }
    }

    /// The committed root height, or `RootNotFound` before bootstrap has
    /// committed one.
    pub fn root(&self) -> (r: Result<u32, DbError>)
        ensures
            (match self.root_of() {
                Some(h) => r == Ok::<u32, DbError>(h),
                None => r == Err::<u32, DbError>(DbError::RootNotFound),
            }),
    {
        match self.root {
            Some(h) => Ok(h),
            None => Err(DbError::RootNotFound),
        }
    }

    /// Commits `height` as the root marker. This and [`Db::reset_root`]
    /// are the only operations that move the root.
    pub fn put_root(&mut self, height: u32)
        requires
            old(self).wf(),
        ensures
            final(self).wf(),
            final(self).root_of() == Some(height),
            final(self).blocks() == old(self).blocks(),
            final(self).ledgers() == old(self).ledgers(),
            final(self).auxes() == old(self).auxes(),
            final(self).heights() == old(self).heights(),
            final(self).height_of() == old(self).height_of(),
    {
        self.root = Some(height);
    }

    /// Discards the root marker: the explicit reset that lets a node be
    /// re-bootstrapped.
    pub fn reset_root(&mut self)
        requires
            old(self).wf(),
        ensures
            final(self).wf(),
            final(self).root_of() is None,
            final(self).blocks() == old(self).blocks(),
            final(self).ledgers() == old(self).ledgers(),
            final(self).auxes() == old(self).auxes(),
            final(self).heights() == old(self).heights(),
            final(self).height_of() == old(self).height_of(),
    {
        self.root = None;
    }

    /// Upserts the account list of one ledger snapshot under its ledger
    /// hash. The root and every other namespace stay as they are.
    #[verifier::loop_isolation(false)]
    pub fn put_ledger(&mut self, hash: Digest, ledger: Vec<Vec<u8>>)
        requires
            old(self).wf(),
        ensures
            final(self).wf(),
            final(self).ledgers() == old(self).ledgers().insert(hash, ledger),
            final(self).blocks() == old(self).blocks(),
            final(self).auxes() == old(self).auxes(),
            final(self).heights() == old(self).heights(),
            final(self).height_of() == old(self).height_of(),
            final(self).root_of() == old(self).root_of(),
    {
        let mut i: usize = 0;
        while i < self.ledgers.len()
            invariant
                i <= self.ledgers@.len(),
                self == old(self),
                forall|j: int| 0 <= j < i ==> (#[trigger] self.ledgers@[j]).0 != hash,
            decreases self.ledgers@.len() - i,
        {
            if self.ledgers[i].0 == hash {
                proof {
                    lemma_assoc_update(self.ledgers@, i as int, hash, ledger);
                }
                self.ledgers.set(i, (hash, ledger));
                assert(forall|m: int|
                    0 <= m < self.ledgers@.len() ==> (#[trigger] self.ledgers@[m]).0 == old(
                        self,
                    ).ledgers@[m].0);
                return ;
            }
            i = i + 1;
        }
        proof {
            lemma_assoc_push(self.ledgers@, hash, ledger);
        }
        self.ledgers.push((hash, ledger));
    }

    /// Upserts the auxiliary replay data fetched for one block hash.
    #[verifier::loop_isolation(false)]
    pub fn put_aux(&mut self, hash: Digest, aux: AuxData)
        requires
            old(self).wf(),
        ensures
            final(self).wf(),
            final(self).auxes() == old(self).auxes().insert(hash, aux),
            final(self).blocks() == old(self).blocks(),
            final(self).ledgers() == old(self).ledgers(),
            final(self).heights() == old(self).heights(),
            final(self).height_of() == old(self).height_of(),
            final(self).root_of() == old(self).root_of(),
    {
        let mut i: usize = 0;
        while i < self.auxes.len()
            invariant
                i <= self.auxes@.len(),
                self == old(self),
                forall|j: int| 0 <= j < i ==> (#[trigger] self.auxes@[j]).0 != hash,
            decreases self.auxes@.len() - i,
        {
            if self.auxes[i].0 == hash {
                proof {
                    lemma_assoc_update(self.auxes@, i as int, hash, aux);
                }
                self.auxes.set(i, (hash, aux));
                assert(forall|m: int|
                    0 <= m < self.auxes@.len() ==> (#[trigger] self.auxes@[m]).0 == old(
                        self,
                    ).auxes@[m].0);
                return ;
            }
            i = i + 1;
        }
        proof {
            lemma_assoc_push(self.auxes@, hash, aux);
        }
        self.auxes.push((hash, aux));
    }

    /// The full block stored under `hash`, or `BlockNotFound`.
    #[verifier::loop_isolation(false)]
    pub fn block_full(&self, hash: &Digest) -> (r: Result<Block, DbError>)
        requires
            self.wf(),
        ensures
            (match r {
                Ok(b) => self.blocks().contains_key(*hash) && b@ == self.blocks()[*hash]@,
                Err(e) => !self.blocks().contains_key(*hash) && e == DbError::BlockNotFound(*hash),
            }),
    {
        let mut i: usize = 0;
        while i < self.blocks.len()
            invariant
                i <= self.blocks@.len(),
                forall|j: int| 0 <= j < i ==> (#[trigger] self.blocks@[j]).0 != *hash,
            decreases self.blocks@.len() - i,
        {
            if self.blocks[i].0 == *hash {
                proof {
                    lemma_assoc_index(self.blocks@, i as int);
                }
                return Ok(self.blocks[i].1.clone());
            }
            i = i + 1;
        }
        proof {
            lemma_assoc_absent(self.blocks@, *hash);
        }
        Err(DbError::BlockNotFound(*hash))
    }

    /// The account list of the snapshot stored under `hash`, or
    /// `LedgerNotFound`.
    #[verifier::loop_isolation(false)]
    pub fn ledger(&self, hash: &Digest) -> (r: Result<Vec<Vec<u8>>, DbError>)
        requires
            self.wf(),
        ensures
            (match r {
                Ok(l) => {
                    &&& self.ledgers().contains_key(*hash)
                    &&& l.deep_view() == self.ledgers()[*hash].deep_view()
                },
                Err(e) => !self.ledgers().contains_key(*hash) && e == DbError::LedgerNotFound(
                    *hash,
                ),
            }),
    {
        let mut i: usize = 0;
        while i < self.ledgers.len()
            invariant
                i <= self.ledgers@.len(),
                forall|j: int| 0 <= j < i ==> (#[trigger] self.ledgers@[j]).0 != *hash,
            decreases self.ledgers@.len() - i,
        {
            if self.ledgers[i].0 == *hash {
                proof {
                    lemma_assoc_index(self.ledgers@, i as int);
                }
                return Ok(crate::block::clone_rows(&self.ledgers[i].1));
            }
            i = i + 1;
        }
        proof {
            lemma_assoc_absent(self.ledgers@, *hash);
        }
        Err(DbError::LedgerNotFound(*hash))
    }

    /// The auxiliary replay data stored under `hash`, or `AuxNotFound`.
    #[verifier::loop_isolation(false)]
    pub fn aux(&self, hash: &Digest) -> (r: Result<AuxData, DbError>)
        requires
            self.wf(),
        ensures
            (match r {
                Ok(a) => self.auxes().contains_key(*hash) && a@ == self.auxes()[*hash]@,
                Err(e) => !self.auxes().contains_key(*hash) && e == DbError::AuxNotFound(*hash),
            }),
    {
        let mut i: usize = 0;
        while i < self.auxes.len()
            invariant
                i <= self.auxes@.len(),
                forall|j: int| 0 <= j < i ==> (#[trigger] self.auxes@[j]).0 != *hash,
            decreases self.auxes@.len() - i,
        {
            if self.auxes[i].0 == *hash {
                proof {
                    lemma_assoc_index(self.auxes@, i as int);
                }
                return Ok(self.auxes[i].1.clone());
            }
            i = i + 1;
        }
        proof {
            lemma_assoc_absent(self.auxes@, *hash);
        }
        Err(DbError::AuxNotFound(*hash))
    }

    /// The height the inverse index assigns to `hash`, if any.
    #[verifier::loop_isolation(false)]
    pub fn height_of_hash(&self, hash: &Digest) -> (r: Option<u32>)
        requires
            self.wf(),
        ensures
            (match r {
                Some(h) => self.height_of().contains_key(*hash) && h == self.height_of()[*hash],
                None => !self.height_of().contains_key(*hash),
            }),
    {
        let mut i: usize = 0;
        while i < self.height_of.len()
            invariant
                i <= self.height_of@.len(),
                forall|j: int| 0 <= j < i ==> (#[trigger] self.height_of@[j]).0 != *hash,
            decreases self.height_of@.len() - i,
        {
            if self.height_of[i].0 == *hash {
                proof {
                    lemma_assoc_index(self.height_of@, i as int);
                }
                return Some(self.height_of[i].1);
            }
            i = i + 1;
        }
        proof {
            lemma_assoc_absent(self.height_of@, *hash);
        }
        None
    }

    /// Upserts one block into the block namespace alone; the height
    /// indices are the caller's business.
    #[verifier::loop_isolation(false)]
    fn blocks_put(&mut self, hash: Digest, block: Block)
        requires
            distinct_keys(old(self).blocks@),
        ensures
            distinct_keys(final(self).blocks@),
            final(self).blocks() == old(self).blocks().insert(hash, block),
            final(self).ledgers@ == old(self).ledgers@,
            final(self).auxes@ == old(self).auxes@,
            final(self).by_height@ == old(self).by_height@,
            final(self).height_of@ == old(self).height_of@,
            final(self).root == old(self).root,
            final(self).cache == old(self).cache,
    {
        let mut i: usize = 0;
        while i < self.blocks.len()
            invariant
                i <= self.blocks@.len(),
                self == old(self),
                forall|j: int| 0 <= j < i ==> (#[trigger] self.blocks@[j]).0 != hash,
            decreases self.blocks@.len() - i,
        {
            if self.blocks[i].0 == hash {
                proof {
                    lemma_assoc_update(self.blocks@, i as int, hash, block);
                }
                self.blocks.set(i, (hash, block));
                assert(forall|m: int|
                    0 <= m < self.blocks@.len() ==> (#[trigger] self.blocks@[m]).0 == old(
                        self,
                    ).blocks@[m].0);
                return ;
            }
            i = i + 1;
        }
        proof {
            lemma_assoc_push(self.blocks@, hash, block);
        }
        self.blocks.push((hash, block));
    }
}

/// Copies a row of digests.
#[verifier::loop_isolation(false)]
pub fn clone_row(v: &Vec<Digest>) -> (r: Vec<Digest>)
    ensures
        r@ == v@,
{
    let mut r: Vec<Digest> = Vec::new();
    let mut i: usize = 0;
    while i < v.len()
        invariant
            i <= v@.len(),
            r@ == v@.subrange(0, i as int),
        decreases v@.len() - i,
    {
        r.push(v[i]);
        i = i + 1;
        assert(r@ =~= v@.subrange(0, i as int));
    }
    assert(r@ =~= v@);
    r
}

/// The hash row a height holds after one block is recorded at it:
/// unchanged if the hash is already listed, appended otherwise.
pub open spec fn row_after_put(
    heights: Map<u32, Vec<Digest>>,
    h: u32,
    d: Digest,
) -> Seq<Digest> {
    let old_row = if heights.contains_key(h) {
        heights[h]@
    } else {
        Seq::empty()
    };
    if old_row.contains(d) {
        old_row
    } else {
        old_row.push(d)
    }
}

impl Db {
    /// The first position of the sorted height rows whose height is at or
    /// above `h`.
    #[verifier::loop_isolation(false)]
    fn row_position(&self, h: u32) -> (r: usize)
        requires
            sorted_rows(self.by_height@),
        ensures
            r <= self.by_height@.len(),
            forall|j: int| 0 <= j < r ==> (#[trigger] self.by_height@[j]).0 < h,
            forall|j: int| r <= j < self.by_height@.len() ==> (#[trigger] self.by_height@[j]).0 >= h,
    {
        let mut i: usize = 0;
        while i < self.by_height.len() && self.by_height[i].0 < h
            invariant
                i <= self.by_height@.len(),
                forall|j: int| 0 <= j < i ==> (#[trigger] self.by_height@[j]).0 < h,
            decreases self.by_height@.len() - i,
        {
            i = i + 1;
        }
        proof {
            if i < self.by_height@.len() {
                assert(forall|j: int|
                    i <= j < self.by_height@.len() ==> (#[trigger] self.by_height@[j]).0
                        >= self.by_height@[i as int].0);
            }
        }
        i
    }

    /// The hash row stored for exactly height `h`, if there is one.
    #[verifier::loop_isolation(false)]
    pub fn row_at(&self, h: u32) -> (r: Option<&Vec<Digest>>)
        requires
            self.wf(),
        ensures
            (match r {
                Some(row) => self.heights().contains_key(h) && row@ == self.heights()[h]@,
                None => !self.heights().contains_key(h),
            }),
    {
        let mut i: usize = 0;
        while i < self.by_height.len()
            invariant
                i <= self.by_height@.len(),
                forall|j: int| 0 <= j < i ==> (#[trigger] self.by_height@[j]).0 != h,
            decreases self.by_height@.len() - i,
        {
            if self.by_height[i].0 == h {
                proof {
                    assert(distinct_keys(self.by_height@));
                    lemma_assoc_index(self.by_height@, i as int);
                }
                return Some(&self.by_height[i].1);
            }
            i = i + 1;
        }
        proof {
            lemma_assoc_absent(self.by_height@, h);
        }
        None
    }

    /// Records one block under `hash`. The block lands in the block
    /// namespace; its hash is appended to the row of its height, unless
    /// already listed there; and the inverse index learns its height.
    ///
    /// A hash that the inverse index already assigns to a different
    /// height is refused as `BadIndex`: a block is immutable once stored,
    /// so its height cannot move.
    #[verifier::loop_isolation(false)]
    pub fn put_block(&mut self, hash: Digest, block: Block) -> (r: Result<(), DbError>)
        requires
            old(self).wf(),
        ensures
            final(self).wf(),
            final(self).ledgers() == old(self).ledgers(),
            final(self).auxes() == old(self).auxes(),
            final(self).root_of() == old(self).root_of(),
            (match r {
                Ok(_) => {
                    &&& !(old(self).height_of().contains_key(hash) && old(
                        self,
                    ).height_of()[hash] != block.header.height)
                    &&& final(self).blocks() == old(self).blocks().insert(hash, block)
                    &&& final(self).height_of() == old(self).height_of().insert(
                        hash,
                        block.header.height,
                    )
                    &&& final(self).heights().dom() == old(self).heights().dom().insert(
                        block.header.height,
                    )
                    &&& final(self).heights()[block.header.height]@ == row_after_put(
                        old(self).heights(),
                        block.header.height,
                        hash,
                    )
                    &&& (forall|h2: u32|
                        h2 != block.header.height && old(self).heights().contains_key(h2)
                            ==> final(self).heights()[h2] == old(self).heights()[h2])
                },
                Err(e) => {
                    &&& e == DbError::BadIndex
                    &&& old(self).height_of().contains_key(hash)
                    &&& old(self).height_of()[hash] != block.header.height
                    &&& final(self).blocks() == old(self).blocks()
                    &&& final(self).heights() == old(self).heights()
                    &&& final(self).height_of() == old(self).height_of()
                },
            }),
    {
        let height = block.height();
        match self.height_of_hash(&hash) {
            Some(h2) => {
                if h2 != height {
                    return Err(DbError::BadIndex);
                }
                // Already indexed at this very height: the row lists the
                // hash, so only the stored block is refreshed.
                assert(self.heights().contains_key(height) && self.heights()[height]@.contains(
                    hash,
                ));
                self.blocks_put(hash, block);
                proof {
                    assert(final(self).heights().dom() =~= old(self).heights().dom().insert(
                        height,
                    ));
                    assert(final(self).height_of() =~= old(self).height_of().insert(
                        hash,
                        height,
                    ));
                    assert(row_after_put(old(self).heights(), height, hash) == old(
                        self,
                    ).heights()[height]@);
                    lemma_index_ok_blocks_grow(
                        old(self).blocks(),
                        final(self).blocks(),
                        final(self).heights(),
                        final(self).height_of(),
                    );
                }
                Ok(())
            },
            None => {
                // Fresh hash: build the row for its height, through the
                // write-back cache when it matches.
                let mut row: Vec<Digest>;
                let mut cache_hit: bool = false;
                match &self.cache {
                    Some(c) => {
                        if c.0 == height {
                            row = clone_row(&c.1);
                            cache_hit = true;
                        } else {
                            row = Vec::new();
                        }
                    },
                    None => {
                        row = Vec::new();
                    },
                }
                if !cache_hit {
                    match self.row_at(height) {
                        Some(found) => {
                            row = clone_row(found);
                        },
                        None => {
                        },
                    }
                }
                assert(row@ == (if old(self).heights().contains_key(height) {
                    old(self).heights()[height]@
                } else {
                    Seq::<Digest>::empty()
                }));
                // The fresh hash cannot already be listed: a listed hash
                // is inversely indexed.
                proof {
                    if row@.contains(hash) {
                        let i = choose|i: int| 0 <= i < row@.len() && row@[i] == hash;
                        assert(old(self).heights()[height]@[i] == hash);
                        assert(old(self).height_of().contains_key(hash));
                    }
                }
                row.push(hash);
                assert(row@ == row_after_put(old(self).heights(), height, hash));
                // Write the row back into the sorted height rows.
                let pos = self.row_position(height);
                let row_for_store = clone_row(&row);
                if pos < self.by_height.len() && self.by_height[pos].0 == height {
                    proof {
                        lemma_assoc_update(self.by_height@, pos as int, height, row_for_store);
                    }
                    self.by_height.set(pos, (height, row_for_store));
                    assert(forall|m: int|
                        0 <= m < self.by_height@.len() ==> (#[trigger] self.by_height@[m]).0
                            == old(self).by_height@[m].0);
                } else {
                    proof {
                        assert(forall|j: int|
                            0 <= j < self.by_height@.len() ==> (#[trigger] self.by_height@[j]).0
                                != height);
                        lemma_assoc_insert_at(self.by_height@, pos as int, height, row_for_store);
                    }
                    self.by_height.insert(pos, (height, row_for_store));
                    assert forall|a: int, b: int|
                        0 <= a < b < self.by_height@.len() implies (#[trigger] self.by_height@[a]).0
                        < (#[trigger] self.by_height@[b]).0 by {
                        let s = old(self).by_height@;
                        if a < pos && b > pos {
                            assert(self.by_height@[a] == s[a]);
                            assert(self.by_height@[b] == s[b - 1]);
                        }
                    }
                }
                assert(sorted_rows(self.by_height@));
                assert(self.heights() == old(self).heights().insert(height, row_for_store));
                self.cache = Some((height, row));
                // The inverse index learns the fresh hash.
                proof {
                    assert forall|j: int|
                        0 <= j < self.height_of@.len() implies (#[trigger] self.height_of@[j]).0
                        != hash by {
                        if self.height_of@[j].0 == hash {
                            lemma_assoc_index(self.height_of@, j);
                        }
                    }
                    lemma_assoc_push(self.height_of@, hash, height);
                }
                self.height_of.push((hash, height));
                // And the block itself is stored.
                self.blocks_put(hash, block);
                proof {
                    assert(final(self).heights().dom() =~= old(self).heights().dom().insert(
                        height,
                    ));
                    lemma_put_block_index_ok(old(self), self, hash, block, height);
                }
                Ok(())
            },
        }
    }
}

impl Db {
    /// One step of a restartable walk of the height index.
    ///
    /// `Latest` yields the greatest height present with its hash row;
    /// `Forward(h)` yields the least height at or above `h` with its row.
    /// A walk restarts from the answer: ask `Forward(h + 1)` next.
    #[verifier::loop_isolation(false)]
    pub fn block(&self, id: BlockId) -> (r: Option<(u32, Vec<Digest>)>)
        requires
            self.wf(),
        ensures
            (match id {
                BlockId::Latest => (match r {
                    Some(p) => {
                        &&& self.heights().contains_key(p.0)
                        &&& p.1@ == self.heights()[p.0]@
                        &&& (forall|h2: u32| h2 > p.0 ==> !self.heights().contains_key(h2))
                    },
                    None => forall|h2: u32| !self.heights().contains_key(h2),
                }),
                BlockId::Forward(h0) => (match r {
                    Some(p) => {
                        &&& p.0 >= h0
                        &&& self.heights().contains_key(p.0)
                        &&& p.1@ == self.heights()[p.0]@
                        &&& (forall|h2: u32| h0 <= h2 < p.0 ==> !self.heights().contains_key(h2))
                    },
                    None => forall|h2: u32| h2 >= h0 ==> !self.heights().contains_key(h2),
                }),
            }),
    {
        match id {
            BlockId::Latest => {
                if self.by_height.len() == 0 {
                    proof {
                        assert forall|h2: u32| !self.heights().contains_key(h2) by {
                            if self.heights().contains_key(h2) {
                                lemma_assoc_dom(self.by_height@, h2);
                            }
                        }
                    }
                    None
                } else {
                    let last = self.by_height.len() - 1;
                    proof {
                        assert(distinct_keys(self.by_height@));
                        lemma_assoc_index(self.by_height@, last as int);
                        assert forall|h2: u32|
                            h2 > self.by_height@[last as int].0 implies !self.heights(
                        ).contains_key(h2) by {
                            if self.heights().contains_key(h2) {
                                lemma_assoc_dom(self.by_height@, h2);
                            }
                        }
                    }
                    Some((self.by_height[last].0, clone_row(&self.by_height[last].1)))
                }
            },
            BlockId::Forward(h0) => {
                let pos = self.row_position(h0);
                if pos == self.by_height.len() {
                    proof {
                        assert forall|h2: u32| h2 >= h0 implies !self.heights().contains_key(
                            h2,
                        ) by {
                            if self.heights().contains_key(h2) {
                                lemma_assoc_dom(self.by_height@, h2);
                            }
                        }
                    }
                    None
                } else {
                    proof {
                        assert(distinct_keys(self.by_height@));
                        lemma_assoc_index(self.by_height@, pos as int);
                        assert forall|h2: u32|
                            h0 <= h2 < self.by_height@[pos as int].0 implies !self.heights(
                        ).contains_key(h2) by {
                            if self.heights().contains_key(h2) {
                                lemma_assoc_dom(self.by_height@, h2);
                            }
                        }
                    }
                    Some((self.by_height[pos].0, clone_row(&self.by_height[pos].1)))
                }
            },
        }
    }

    /// Removes one entry of the inverse height index, if present.
    #[verifier::loop_isolation(false)]
    fn height_of_remove(&mut self, d: Digest)
        requires
            distinct_keys(old(self).height_of@),
        ensures
            distinct_keys(final(self).height_of@),
            final(self).height_of() == old(self).height_of().remove(d),
            final(self).blocks@ == old(self).blocks@,
            final(self).ledgers@ == old(self).ledgers@,
            final(self).auxes@ == old(self).auxes@,
            final(self).by_height@ == old(self).by_height@,
            final(self).root == old(self).root,
            final(self).cache == old(self).cache,
    {
        let mut i: usize = 0;
        while i < self.height_of.len()
            invariant
                i <= self.height_of@.len(),
                self == old(self),
                forall|j: int| 0 <= j < i ==> (#[trigger] self.height_of@[j]).0 != d,
            decreases self.height_of@.len() - i,
        {
            if self.height_of[i].0 == d {
                proof {
                    lemma_assoc_remove_at(self.height_of@, i as int);
                    assert(forall|a: int, b: int|
                        0 <= a < b < self.height_of@.remove(i as int).len() ==> (
                        #[trigger] self.height_of@.remove(i as int)[a]).0 != (
                        #[trigger] self.height_of@.remove(i as int)[b]).0);
                }
                self.height_of.remove(i);
                return ;
            }
            i = i + 1;
        }
        proof {
            lemma_assoc_absent(self.height_of@, d);
            assert(old(self).height_of().remove(d) =~= old(self).height_of());
        }
    }

    /// Removes one entry of the block namespace, if present.
    #[verifier::loop_isolation(false)]
    fn blocks_remove(&mut self, d: Digest)
        requires
            distinct_keys(old(self).blocks@),
        ensures
            distinct_keys(final(self).blocks@),
            final(self).blocks() == old(self).blocks().remove(d),
            final(self).height_of@ == old(self).height_of@,
            final(self).ledgers@ == old(self).ledgers@,
            final(self).auxes@ == old(self).auxes@,
            final(self).by_height@ == old(self).by_height@,
            final(self).root == old(self).root,
            final(self).cache == old(self).cache,
    {
        let mut i: usize = 0;
        while i < self.blocks.len()
            invariant
                i <= self.blocks@.len(),
                self == old(self),
                forall|j: int| 0 <= j < i ==> (#[trigger] self.blocks@[j]).0 != d,
            decreases self.blocks@.len() - i,
        {
            if self.blocks[i].0 == d {
                proof {
                    lemma_assoc_remove_at(self.blocks@, i as int);
                    assert(forall|a: int, b: int|
                        0 <= a < b < self.blocks@.remove(i as int).len() ==> (
                        #[trigger] self.blocks@.remove(i as int)[a]).0 != (
                        #[trigger] self.blocks@.remove(i as int)[b]).0);
                }
                self.blocks.remove(i);
                return ;
            }
            i = i + 1;
        }
        proof {
            lemma_assoc_absent(self.blocks@, d);
            assert(old(self).blocks().remove(d) =~= old(self).blocks());
        }
    }

    /// Prunes one height: the hash row stored at `height` disappears,
    /// and with it every listed block and its inverse-index entry. Not
    /// used by normal control flow; an operator's tool.
    #[verifier::loop_isolation(false)]
    pub fn remove_block(&mut self, height: u32)
        requires
            old(self).wf(),
        ensures
            final(self).wf(),
            final(self).ledgers() == old(self).ledgers(),
            final(self).auxes() == old(self).auxes(),
            final(self).root_of() == old(self).root_of(),
            final(self).heights() == old(self).heights().remove(height),
            final(self).height_of() == old(self).height_of().remove_keys(
                removed_row(old(self).heights(), height),
            ),
            final(self).blocks() == old(self).blocks().remove_keys(
                removed_row(old(self).heights(), height),
            ),
    {
        let ghost row_set = removed_row(old(self).heights(), height);
        let mut idx: usize = 0;
        let mut found: bool = false;
        while idx < self.by_height.len()
            invariant
                idx <= self.by_height@.len(),
                self == old(self),
                !found,
                forall|j: int| 0 <= j < idx ==> (#[trigger] self.by_height@[j]).0 != height,
            decreases self.by_height@.len() - idx,
        {
            if self.by_height[idx].0 == height {
                found = true;
                break ;
            }
            idx = idx + 1;
        }
        if !found {
            proof {
                lemma_assoc_absent(self.by_height@, height);
                assert(old(self).heights().remove(height) =~= old(self).heights());
                assert(row_set =~= Set::<Digest>::empty());
                assert(old(self).height_of().remove_keys(row_set) =~= old(self).height_of());
                assert(old(self).blocks().remove_keys(row_set) =~= old(self).blocks());
            }
            return ;
        }
        proof {
            assert(distinct_keys(self.by_height@));
            lemma_assoc_index(self.by_height@, idx as int);
            lemma_assoc_remove_at(self.by_height@, idx as int);
        }
        let row = clone_row(&self.by_height[idx].1);
        self.by_height.remove(idx);
        // The cache may hold the pruned row.
        let mut drop_cache: bool = false;
        match &self.cache {
            Some(c) => {
                if c.0 == height {
                    drop_cache = true;
                }
            },
            None => {},
        }
        if drop_cache {
            self.cache = None;
        }
        // Every listed block leaves with its inverse-index entry.
        let ghost pre = *self;
        let mut k: usize = 0;
        while k < row.len()
            invariant
                k <= row@.len(),
                row@ == removed_row_seq(old(self).heights(), height),
                self.by_height@ == pre.by_height@,
                self.ledgers@ == pre.ledgers@,
                self.auxes@ == pre.auxes@,
                self.root == pre.root,
                self.cache == pre.cache,
                distinct_keys(self.height_of@),
                distinct_keys(self.blocks@),
                self.height_of() == pre.height_of().remove_keys(row@.subrange(0, k as int).to_set()),
                self.blocks() == pre.blocks().remove_keys(row@.subrange(0, k as int).to_set()),
            decreases row@.len() - k,
        {
            let d = row[k];
            self.height_of_remove(d);
            self.blocks_remove(d);
            k = k + 1;
            proof {
                assert(row@.subrange(0, k as int) =~= row@.subrange(0, k - 1).push(d));
                assert forall|x: Digest|
                    row@.subrange(0, k as int).to_set().contains(x) == row@.subrange(
                        0,
                        k - 1,
                    ).to_set().insert(d).contains(x) by {
                    let s1 = row@.subrange(0, k as int);
                    let s0 = row@.subrange(0, k - 1);
                    if s1.contains(x) {
                        let i = choose|i: int| 0 <= i < s1.len() && s1[i] == x;
                        if i < k - 1 {
                            assert(s0[i] == x);
                        }
                    }
                    if s0.contains(x) {
                        let i = choose|i: int| 0 <= i < s0.len() && s0[i] == x;
                        assert(s1[i] == x);
                    }
                    if x == d {
                        assert(s1[k - 1] == x);
                    }
                }
                assert(row@.subrange(0, k as int).to_set() =~= row@.subrange(
                    0,
                    k - 1,
                ).to_set().insert(d));
                assert(self.height_of() =~= pre.height_of().remove_keys(
                    row@.subrange(0, k as int).to_set(),
                ));
                assert(self.blocks() =~= pre.blocks().remove_keys(
                    row@.subrange(0, k as int).to_set(),
                ));
            }
        }
        proof {
            assert(row@.subrange(0, row@.len() as int) =~= row@);
            assert(row@.to_set() =~= row_set);
            lemma_remove_block_index_ok(old(self), self, height);
        }
    }
}

/// The height index invariant holds of every well-formed store: each
/// hash listed at a height is a stored block, inversely indexed at
/// exactly that height; each inversely indexed hash is listed at its
/// height; and no row is empty. Every store operation keeps `wf`, so
/// this holds at all times.
pub proof fn lemma_height_index_invariant(db: &Db)
    requires
        db.wf(),
    ensures
        index_ok(db.blocks(), db.heights(), db.height_of()),
{
}

/// What [`Db::put_block`] leaves behind, stated over views: the block
/// namespace and both height indices learned exactly this block, and
/// everything else stands as it was.
pub open spec fn stored_block(pre: Db, post: Db, hash: Digest, b: crate::block::BlockV) -> bool {
    &&& post.blocks().dom() == pre.blocks().dom().insert(hash)
    &&& post.blocks().contains_key(hash)
    &&& post.blocks()[hash]@ == b
    &&& (forall|d: Digest|
        d != hash && pre.blocks().contains_key(d) ==> #[trigger] post.blocks()[d]
            == pre.blocks()[d])
    &&& post.height_of() == pre.height_of().insert(hash, b.header.height)
    &&& post.heights().dom() == pre.heights().dom().insert(b.header.height)
    &&& post.heights()[b.header.height]@ == row_after_put(pre.heights(), b.header.height, hash)
    &&& (forall|h2: u32|
        h2 != b.header.height && pre.heights().contains_key(h2)
            ==> #[trigger] post.heights()[h2] == pre.heights()[h2])
    &&& post.ledgers() == pre.ledgers()
    &&& post.auxes() == pre.auxes()
}

/// The hash row stored at a height, as a sequence; empty when absent.
pub open spec fn removed_row_seq(heights: Map<u32, Vec<Digest>>, height: u32) -> Seq<Digest> {
    if heights.contains_key(height) {
        heights[height]@
    } else {
        Seq::empty()
    }
}

/// The set of hashes listed at a height; empty when the height is absent.
pub open spec fn removed_row(heights: Map<u32, Vec<Digest>>, height: u32) -> Set<Digest> {
    removed_row_seq(heights, height).to_set()
}

/// After one height is pruned with everything it listed, the height
/// index invariant still holds.
proof fn lemma_remove_block_index_ok(pre: &Db, post: &Db, height: u32)
    requires
        pre.wf(),
        post.heights() == pre.heights().remove(height),
        post.height_of() == pre.height_of().remove_keys(removed_row(pre.heights(), height)),
        post.blocks() == pre.blocks().remove_keys(removed_row(pre.heights(), height)),
    ensures
        index_ok(post.blocks(), post.heights(), post.height_of()),
{
    let row_set = removed_row(pre.heights(), height);
    assert forall|h: u32, i: int|
        #![trigger post.heights()[h]@[i]]
        post.heights().contains_key(h) && 0 <= i < post.heights()[h]@.len() implies {
        let d = post.heights()[h]@[i];
        &&& post.blocks().contains_key(d)
        &&& post.height_of().contains_key(d)
        &&& post.height_of()[d] == h
        &&& (forall|j: int|
            0 <= j < post.heights()[h]@.len() && post.heights()[h]@[j] == d ==> j == i)
    } by {
        let d = post.heights()[h]@[i];
        assert(h != height);
        assert(pre.heights()[h]@[i] == d);
        assert(pre.height_of()[d] == h);
        // d is not among the pruned hashes: those sat at `height`.
        if row_set.contains(d) {
            let j = choose|j: int|
                0 <= j < removed_row_seq(pre.heights(), height).len() && removed_row_seq(
                    pre.heights(),
                    height,
                )[j] == d;
            assert(pre.heights()[height]@[j] == d);
            assert(pre.height_of()[d] == height);
        }
    }
    assert forall|d: Digest| #[trigger] post.height_of().contains_key(d) implies {
        let h = post.height_of()[d];
        &&& post.heights().contains_key(h)
        &&& post.heights()[h]@.contains(d)
    } by {
        assert(pre.height_of().contains_key(d));
        let h = pre.height_of()[d];
        assert(pre.heights()[h]@.contains(d));
        if h == height {
            let i = choose|i: int|
                0 <= i < pre.heights()[height]@.len() && pre.heights()[height]@[i] == d;
            assert(removed_row_seq(pre.heights(), height)[i] == d);
            assert(row_set.contains(d));
        }
    }
}

/// Growing the block namespace alone cannot break the height index.
proof fn lemma_index_ok_blocks_grow(
    pre_blocks: Map<Digest, Block>,
    post_blocks: Map<Digest, Block>,
    heights: Map<u32, Vec<Digest>>,
    height_of: Map<Digest, u32>,
)
    requires
        index_ok(pre_blocks, heights, height_of),
        forall|d: Digest|
            pre_blocks.contains_key(d) ==> #[trigger] post_blocks.contains_key(d),
    ensures
        index_ok(post_blocks, heights, height_of),
{
}

/// After a fresh-hash insert, the height index invariant still holds.
proof fn lemma_put_block_index_ok(pre: &Db, post: &Db, hash: Digest, block: Block, height: u32)
    requires
        pre.wf(),
        block.header.height == height,
        !pre.height_of().contains_key(hash),
        post.blocks() == pre.blocks().insert(hash, block),
        post.height_of() == pre.height_of().insert(hash, height),
        post.heights().dom() == pre.heights().dom().insert(height),
        post.heights()[height]@ == row_after_put(pre.heights(), height, hash),
        forall|h2: u32|
            h2 != height && pre.heights().contains_key(h2) ==> post.heights()[h2]
                == pre.heights()[h2],
    ensures
        index_ok(post.blocks(), post.heights(), post.height_of()),
{
    let old_row: Seq<Digest> = if pre.heights().contains_key(height) {
        pre.heights()[height]@
    } else {
        Seq::empty()
    };
    // The fresh hash is not in the old row.
    if old_row.contains(hash) {
        let i = choose|i: int| 0 <= i < old_row.len() && old_row[i] == hash;
        assert(pre.heights()[height]@[i] == hash);
        assert(pre.height_of().contains_key(hash));
    }
    let new_row = post.heights()[height]@;
    assert(new_row == old_row.push(hash));
    assert forall|h: u32, i: int|
        #![trigger post.heights()[h]@[i]]
        post.heights().contains_key(h) && 0 <= i < post.heights()[h]@.len() implies {
        let d = post.heights()[h]@[i];
        &&& post.blocks().contains_key(d)
        &&& post.height_of().contains_key(d)
        &&& post.height_of()[d] == h
        &&& (forall|j: int|
            0 <= j < post.heights()[h]@.len() && post.heights()[h]@[j] == d ==> j == i)
    } by {
        let d = post.heights()[h]@[i];
        if h == height {
            if i < old_row.len() {
                assert(d == old_row[i]);
                assert(pre.heights()[height]@[i] == d);
                assert(pre.blocks().contains_key(d));
                assert(pre.height_of()[d] == height);
                assert(d != hash);
                assert forall|j: int|
                    0 <= j < new_row.len() && new_row[j] == d implies j == i by {
                    if j < old_row.len() {
                        assert(pre.heights()[height]@[j] == d);
                    } else {
                        assert(new_row[j] == hash);
                    }
                }
            } else {
                assert(d == hash);
                assert forall|j: int|
                    0 <= j < new_row.len() && new_row[j] == d implies j == i by {
                    if j < old_row.len() {
                        assert(pre.heights()[height]@[j] == hash);
                        assert(pre.height_of().contains_key(hash));
                    }
                }
            }
        } else {
            assert(pre.heights().contains_key(h));
            assert(post.heights()[h] == pre.heights()[h]);
            assert(pre.heights()[h]@[i] == d);
            assert(pre.height_of()[d] == h);
            assert(d != hash);
        }
    }
    assert forall|d: Digest| #[trigger] post.height_of().contains_key(d) implies {
        let h = post.height_of()[d];
        &&& post.heights().contains_key(h)
        &&& post.heights()[h]@.contains(d)
    } by {
        if d == hash {
            assert(post.heights()[height]@[new_row.len() - 1] == hash);
        } else {
            assert(pre.height_of().contains_key(d));
            let h = pre.height_of()[d];
            assert(pre.heights()[h]@.contains(d));
            if h == height {
                let i = choose|i: int| 0 <= i < old_row.len() && old_row[i] == d;
                assert(new_row[i] == d);
            } else {
                assert(post.heights()[h] == pre.heights()[h]);
            }
        }
    }
}

} // verus!
