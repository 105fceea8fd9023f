//! Records that share a prefix stand together in the sorted input. A pass
//! over them therefore finds, for each prefix, one block of records: where
//! it starts and how long it is. This module says when such a pass has to
//! stop.

use crate::model::BuildError;
use vstd::prelude::*;

verus! {

/// The length of the run of equal keys that `keys` ends with.
pub open spec fn run_length<K>(keys: Seq<K>) -> nat
    decreases keys.len(),
{
    if keys.len() == 0 {
        0
    } else if keys.len() >= 2 && keys[keys.len() - 2] == keys.last() {
        run_length(keys.drop_last()) + 1
    } else {
        1
    }
}

/// Why a record of key `key` cannot follow the records of keys `keys`:
/// there is no index left for it, or no room in the block that it would
/// lengthen, or it would open a block for a key that had one before.
pub open spec fn grouping_fault<K>(keys: Seq<K>, key: K) -> Option<BuildError> {
    if keys.len() >= u32::MAX {
        Some(BuildError::TooManyRecords)
    } else if keys.len() > 0 && keys.last() == key {
        if run_length(keys) >= u16::MAX {
            Some(BuildError::BlockTooLong)
        } else {
            None
        }
    } else if keys.contains(key) {
        Some(BuildError::PrefixRecurs)
    } else {
        None
    }
}

/// The fault of the first record that cannot follow those before it, if
/// there is such a record.
pub open spec fn first_fault<K>(keys: Seq<K>) -> Option<BuildError>
    decreases keys.len(),
{
    if keys.len() == 0 {
        None
    } else {
        match first_fault(keys.drop_last()) {
            Some(error) => Some(error),
            None => grouping_fault(keys.drop_last(), keys.last()),
        }
    }
}

/// A fault among the first `n` keys is the fault of all of them.
pub proof fn lemma_fault_persists<K>(keys: Seq<K>, n: int)
    requires
        0 <= n <= keys.len(),
        first_fault(keys.take(n)) is Some,
    ensures
        first_fault(keys) == first_fault(keys.take(n)),
    decreases keys.len(),
{
    if n == keys.len() {
        assert(keys.take(n) =~= keys);
    } else {
        assert(keys.drop_last().take(n) =~= keys.take(n));
        lemma_fault_persists(keys.drop_last(), n);
    }
}

/// Equal keys stand together: between two records of one key there is no
/// record of another.
pub open spec fn grouped<K>(keys: Seq<K>) -> bool {
    forall|i: int, j: int, k: int|
        0 <= i < j < k < keys.len() && keys[i] == keys[k] ==> keys[j] == keys[i]
}

/// No key has more records than a 16-bit block length can hold.
pub open spec fn short_blocks<K>(keys: Seq<K>) -> bool {
    forall|i: int, j: int| 0 <= i <= j < keys.len() && keys[i] == keys[j] ==> j - i < u16::MAX
}

/// The run that `keys` ends with: it is made of the last key, and the key
/// before it, if there is one, is another.
proof fn lemma_run<K>(keys: Seq<K>)
    requires
        keys.len() > 0,
    ensures
        1 <= run_length(keys) <= keys.len(),
        forall|j: int|
            keys.len() - run_length(keys) <= j < keys.len() ==> #[trigger] keys[j] == keys.last(),
        keys.len() > run_length(keys) ==> keys[keys.len() - run_length(keys) - 1] != keys.last(),
    decreases keys.len(),
{
    if keys.len() >= 2 && keys[keys.len() - 2] == keys.last() {
        let most = keys.drop_last();
        lemma_run(most);
        assert forall|j: int| keys.len() - run_length(keys) <= j < keys.len() implies #[trigger] keys[j]
            == keys.last() by {
            if j < most.len() {
                assert(most[j] == most.last());
            }
        }
        if keys.len() > run_length(keys) {
            assert(most[most.len() - run_length(most) - 1] != most.last());
        }
    }
}

/// A pass meets no fault exactly on input that is sorted as far as it has
/// to be: equal keys stand together, no key has more records than a block
/// can hold, and there are no more records than indices.
pub proof fn lemma_fault_free<K>(keys: Seq<K>)
    ensures
        first_fault(keys) is None <==> keys.len() <= u32::MAX && grouped(keys) && short_blocks(
            keys,
        ),
    decreases keys.len(),
{
    if keys.len() > 0 {
        let most = keys.drop_last();
        let key = keys.last();
        let n = most.len() as int;
        lemma_fault_free(most);
        assert(forall|i: int| 0 <= i < n ==> most[i] == keys[i]);
        if n > 0 {
            lemma_run(most);
        }
        if first_fault(keys) is None {
            assert(first_fault(most) is None);
            assert(grouping_fault(most, key) is None);
            assert forall|i: int, j: int, k: int|
                0 <= i < j < k < keys.len() && keys[i] == keys[k] implies keys[j] == keys[i] by {
                if k < n {
                    assert(most[i] == most[k]);
                    assert(most[j] == most[i]);
                } else {
                    assert(most[i] == key);
                    assert(most.contains(key));
                    assert(most.last() == key);
                    if j < n - 1 {
                        assert(most[i] == most[n - 1]);
                        assert(most[j] == most[i]);
                    }
                }
            }
            assert forall|i: int, j: int|
                0 <= i <= j < keys.len() && keys[i] == keys[j] implies j - i < u16::MAX by {
                if j < n {
                    assert(most[i] == most[j]);
                } else if i < n {
                    assert(most[i] == key);
                    assert(most.contains(key));
                    assert(most.last() == key);
                    let r = run_length(most) as int;
                    if i < n - r {
                        if i < n - r - 1 {
                            assert(most[i] == most[n - 1]);
                            assert(most[n - r - 1] == most[i]);
                        }
                    }
                }
            }
        }
        if keys.len() <= u32::MAX && grouped(keys) && short_blocks(keys) {
            assert forall|i: int, j: int, k: int|
                0 <= i < j < k < most.len() && most[i] == most[k] implies most[j] == most[i] by {
                assert(keys[i] == keys[k]);
                assert(keys[j] == keys[i]);
            }
            assert forall|i: int, j: int|
                0 <= i <= j < most.len() && most[i] == most[j] implies j - i < u16::MAX by {
                assert(keys[i] == keys[j]);
            }
            assert(first_fault(most) is None);
            if n > 0 && most.last() == key {
                let r = run_length(most) as int;
                assert(most[n - r] == most.last());
                assert(keys[n - r] == keys[n]);
            } else if most.contains(key) {
                let i = choose|i: int| 0 <= i < most.len() && most[i] == key;
                assert(keys[i] == keys[n]);
                assert(keys[n - 1] == keys[i]);
            }
            assert(grouping_fault(most, key) is None);
        }
    } else {
        assert(first_fault(keys) is None);
    }
}

/// A block of dense indices: where it starts and how many it holds.
pub type Block = (int, int);

/// Whether the dense index `j` lies in `block`.
pub open spec fn in_block(block: Block, j: int) -> bool {
    block.0 <= j < block.0 + block.1
}

/// The number of dense indices that the blocks hold together.
pub open spec fn total_extent(blocks: Seq<Block>) -> int
    decreases blocks.len(),
{
    if blocks.len() == 0 {
        0
    } else {
        total_extent(blocks.drop_last()) + blocks.last().1
    }
}

/// The blocks part the records among them: record `i` lies in the block
/// of its owner `owner[i]`, and in no other block.
pub open spec fn partitioned(blocks: Seq<Block>, owner: Seq<int>) -> bool {
    &&& forall|s: int| 0 <= s < blocks.len() ==> (#[trigger] blocks[s]).1 >= 0
    &&& forall|i: int|
        0 <= i < owner.len() ==> 0 <= #[trigger] owner[i] < blocks.len() && in_block(
            blocks[owner[i]],
            i,
        )
    &&& forall|s: int, j: int|
        0 <= s < blocks.len() && #[trigger] in_block(blocks[s], j) ==> 0 <= j < owner.len()
            && owner[j] == s
}

proof fn lemma_total_of_empty(blocks: Seq<Block>)
    requires
        forall|s: int| 0 <= s < blocks.len() ==> (#[trigger] blocks[s]).1 == 0,
    ensures
        total_extent(blocks) == 0,
    decreases blocks.len(),
{
    if blocks.len() > 0 {
        assert(blocks.last() == blocks[blocks.len() - 1]);
        assert forall|s: int| 0 <= s < blocks.drop_last().len() implies (
        #[trigger] blocks.drop_last()[s]).1 == 0 by {
            assert(blocks.drop_last()[s] == blocks[s]);
        }
        lemma_total_of_empty(blocks.drop_last());
    }
}

proof fn lemma_total_after_update(blocks: Seq<Block>, s: int, block: Block)
    requires
        0 <= s < blocks.len(),
    ensures
        total_extent(blocks.update(s, block)) == total_extent(blocks) - blocks[s].1 + block.1,
    decreases blocks.len(),
{
    if s == blocks.len() - 1 {
        assert(blocks.update(s, block).drop_last() =~= blocks.drop_last());
    } else {
        assert(blocks.update(s, block).drop_last() =~= blocks.drop_last().update(s, block));
        lemma_total_after_update(blocks.drop_last(), s, block);
    }
}

/// Blocks that part the records among them hold as many dense indices as
/// there are records.
pub proof fn lemma_blocks_add_up(blocks: Seq<Block>, owner: Seq<int>)
    requires
        partitioned(blocks, owner),
    ensures
        total_extent(blocks) == owner.len(),
    decreases owner.len(),
{
    if owner.len() == 0 {
        assert forall|s: int| 0 <= s < blocks.len() implies (#[trigger] blocks[s]).1 == 0 by {
            if blocks[s].1 > 0 {
                assert(in_block(blocks[s], blocks[s].0));
            }
        }
        lemma_total_of_empty(blocks);
    } else {
        let n = owner.len() as int;
        let s = owner[n - 1];
        let block = blocks[s];
        assert(in_block(block, n - 1));
        assert(in_block(block, block.0 + block.1 - 1));
        let less = blocks.update(s, (block.0, block.1 - 1));
        let fewer = owner.drop_last();
        assert forall|i: int| 0 <= i < fewer.len() implies 0 <= #[trigger] fewer[i] < less.len()
            && in_block(less[fewer[i]], i) by {
            assert(fewer[i] == owner[i]);
            assert(in_block(blocks[owner[i]], i));
        }
        assert forall|t: int, j: int|
            0 <= t < less.len() && #[trigger] in_block(less[t], j) implies 0 <= j < fewer.len()
            && fewer[j] == t by {
            assert(in_block(blocks[t], j));
            assert(owner[j] == t);
        }
        assert forall|t: int| 0 <= t < less.len() implies (#[trigger] less[t]).1 >= 0 by {
            assert(blocks[t].1 >= 0);
        }
        lemma_blocks_add_up(less, fewer);
        lemma_total_after_update(blocks, s, (block.0, block.1 - 1));
    }
}

} // verus!
