//! Chain inspection: checks that a backup of per-height block batches is
//! connected — each batch holds at least one block whose previous-state
//! hash names some block of the batch before it.

use vstd::prelude::*;

use crate::block::Block;

verus! {

/// Whether some block of `level` descends from some block of `prev`.
pub open spec fn level_connected(prev: Seq<Block>, level: Seq<Block>) -> bool {
    exists|i: int, j: int|
        0 <= i < level.len() && 0 <= j < prev.len() && (#[trigger] level[i]).header.prev_hash == (
        #[trigger] prev[j]).header.state_hash
}

/// The height the inspector reports for a breaking batch: its last
/// block's claimed height, or zero when the batch is empty.
pub open spec fn break_height(level: Seq<Block>) -> u32 {
    if level.len() == 0 {
        0
    } else {
        level.last().header.height
    }
}

/// Walks the batches in height order and checks connectivity between
/// each nonempty batch and the one after it. The first break is
/// reported with its batch's height; a fully connected backup passes.
#[verifier::loop_isolation(false)]
pub fn run(levels: &Vec<Vec<Block>>) -> (r: Result<(), u32>)
    ensures
        (match r {
            Ok(_) => forall|k: int|
                1 <= k < levels@.len() && (#[trigger] levels@[k - 1])@.len() > 0
                    ==> level_connected(levels@[k - 1]@, levels@[k]@),
            Err(h) => exists|k: int|
                {
                    &&& 1 <= k < levels@.len()
                    &&& (#[trigger] levels@[k - 1])@.len() > 0
                    &&& !level_connected(levels@[k - 1]@, levels@[k]@)
                    &&& h == break_height(levels@[k]@)
                },
        }),
{
    let mut k: usize = 1;
    while k < levels.len()
        invariant
            1 <= k,
            forall|m: int|
                1 <= m < k && m < levels@.len() && (#[trigger] levels@[m - 1])@.len() > 0
                    ==> level_connected(levels@[m - 1]@, levels@[m]@),
        decreases levels@.len() - k,
    {
        let prev = &levels[k - 1];
        let level = &levels[k];
        if prev.len() > 0 {
            let mut has: bool = false;
            let mut i: usize = 0;
            while i < level.len()
                invariant
                    i <= level@.len(),
                    has ==> level_connected(prev@, level@),
                    (!has) ==> forall|i2: int, j2: int|
                        0 <= i2 < i && 0 <= j2 < prev@.len() ==> (#[trigger] level@[i2]).header.prev_hash
                            != (#[trigger] prev@[j2]).header.state_hash,
                decreases level@.len() - i,
            {
                let mut j: usize = 0;
                while j < prev.len()
                    invariant
                        j <= prev@.len(),
                        i < level@.len(),
                        has ==> level_connected(prev@, level@),
                        (!has) ==> forall|i2: int, j2: int|
                            0 <= i2 < i && 0 <= j2 < prev@.len() ==> (
                            #[trigger] level@[i2]).header.prev_hash != (
                            #[trigger] prev@[j2]).header.state_hash,
                        (!has) ==> forall|j2: int|
                            0 <= j2 < j ==> level@[i as int].header.prev_hash != (
                            #[trigger] prev@[j2]).header.state_hash,
                    decreases prev@.len() - j,
                {
                    if level[i].header.prev_hash == prev[j].header.state_hash {
                        has = true;
                    }
                    j = j + 1;
                }
                i = i + 1;
            }
            if has == false {
                let h = if level.len() == 0 {
                    0
                } else {
                    level[level.len() - 1].header.height
                };
                proof {
                    assert(!level_connected(prev@, level@));
                }
                return Err(h);
            }
        }
        k = k + 1;
    }
    Ok(())
}

} // verus!
