//! How a list of samples is cut into blocks of equal length, one for each
//! of a number of workers or of steps.

use vstd::prelude::*;

verus! {

/// The length of each of `blocks` blocks of a list of `len` items: the
/// items that are left over when `len` is not a multiple of `blocks` belong
/// to no block.
pub open spec fn block_len(len: nat, blocks: nat) -> nat {
    len / blocks
}

/// The block `index` of the `blocks` blocks of a list of `len` items: where
/// it starts and where it ends.
pub fn block_range(len: usize, blocks: usize, index: usize) -> (range: (usize, usize))
    requires
        blocks > 0,
        index < blocks,
    ensures
        range.0 == index * block_len(len as nat, blocks as nat),
        range.1 == range.0 + block_len(len as nat, blocks as nat),
        range.1 <= len,
{
    let block_size: usize = len / blocks;
    assert(0 <= index * block_size && index * block_size + block_size <= len) by (nonlinear_arith)
        requires
            blocks > 0,
            index < blocks,
            block_size == len / blocks,
    ;
    let start: usize = index * block_size;
    let end: usize = start + block_size;
    (start, end)
}

} // verus!
