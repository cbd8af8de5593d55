//! The block allocator: a fixed capacity cut into contiguous blocks, each
//! free or owned by one process.
//!
//! Blocks are kept in address order. Allocation is first-fit and splits the
//! block it takes; release merges the freed block with a free neighbour on
//! either side. The sizes of all blocks always add up to the capacity.

use vstd::prelude::*;

verus! {

/// One contiguous stretch of the address space.
#[derive(Clone, Copy, Debug, PartialEq, Eq, Structural)]
pub struct MemoryBlock {
    /// Capacity units in the block.
    pub size: usize,
    /// The owning process; `None` for a free block.
    pub pid: Option<u32>,
}

/// The allocator: its capacity and its blocks in address order.
pub struct MemoryManager {
    pub total: usize,
    pub blocks: Vec<MemoryBlock>,
}

/// The sizes of all blocks, added up.
pub open spec fn total_size(blocks: Seq<MemoryBlock>) -> nat
    decreases blocks.len(),
{
    if blocks.len() == 0 {
        0
    } else {
        total_size(blocks.drop_last()) + blocks.last().size as nat
    }
}

/// The sizes of the free blocks, added up.
pub open spec fn free_size(blocks: Seq<MemoryBlock>) -> nat
    decreases blocks.len(),
{
    if blocks.len() == 0 {
        0
    } else if blocks.last().pid is None {
        free_size(blocks.drop_last()) + blocks.last().size as nat
    } else {
        free_size(blocks.drop_last())
    }
}

/// The size of the largest free block; 0 where no block is free.
pub open spec fn largest_free(blocks: Seq<MemoryBlock>) -> nat
    decreases blocks.len(),
{
    if blocks.len() == 0 {
        0
    } else if blocks.last().pid is None && blocks.last().size > largest_free(blocks.drop_last()) {
        blocks.last().size as nat
    } else {
        largest_free(blocks.drop_last())
    }
}

/// The number of free blocks.
pub open spec fn free_count(blocks: Seq<MemoryBlock>) -> nat
    decreases blocks.len(),
{
    if blocks.len() == 0 {
        0
    } else if blocks.last().pid is None {
        free_count(blocks.drop_last()) + 1
    } else {
        free_count(blocks.drop_last())
    }
}

/// The block is free and holds at least `size` units.
pub open spec fn fits(block: MemoryBlock, size: nat) -> bool {
    block.pid is None && block.size >= size
}

/// The first block at or behind `from` that fits `size`, by its index.
pub open spec fn first_fit_from(blocks: Seq<MemoryBlock>, size: nat, from: int) -> Option<int>
    decreases blocks.len() - from,
{
    if from < 0 || from >= blocks.len() {
        None
    } else if fits(blocks[from], size) {
        Some(from)
    } else {
        first_fit_from(blocks, size, from + 1)
    }
}

/// The first block in address order that fits `size`, by its index.
pub open spec fn first_fit(blocks: Seq<MemoryBlock>, size: nat) -> Option<int> {
    first_fit_from(blocks, size, 0)
}

/// What becomes of a free block when `size` units of it are given to `pid`:
/// an owned block of exactly `size`, followed by the free remainder if there
/// is one.
pub open spec fn carved(block: MemoryBlock, pid: u32, size: nat) -> Seq<MemoryBlock> {
    if block.size > size {
        seq![
            MemoryBlock { size: size as usize, pid: Some(pid) },
            MemoryBlock { size: (block.size - size) as usize, pid: None },
        ]
    } else {
        seq![MemoryBlock { size: size as usize, pid: Some(pid) }]
    }
}

/// The blocks after `size` units of block `at` have been given to `pid`.
pub open spec fn placed(blocks: Seq<MemoryBlock>, at: int, pid: u32, size: nat) -> Seq<
    MemoryBlock,
> {
    blocks.subrange(0, at) + carved(blocks[at], pid, size) + blocks.subrange(
        at + 1,
        blocks.len() as int,
    )
}

/// The first block in address order that `pid` owns, by its index.
pub open spec fn owned_from(blocks: Seq<MemoryBlock>, pid: u32, from: int) -> Option<int>
    decreases blocks.len() - from,
{
    if from < 0 || from >= blocks.len() {
        None
    } else if blocks[from].pid == Some(pid) {
        Some(from)
    } else {
        owned_from(blocks, pid, from + 1)
    }
}

/// The block that `pid` owns, by its index.
pub open spec fn owned_by(blocks: Seq<MemoryBlock>, pid: u32) -> Option<int> {
    owned_from(blocks, pid, 0)
}

/// The first block of the run that merges when block `at` is freed: its left
/// neighbour if that is free, else the block itself.
pub open spec fn merge_start(blocks: Seq<MemoryBlock>, at: int) -> int {
    if at > 0 && blocks[at - 1].pid is None {
        at - 1
    } else {
        at
    }
}

/// The last block of the run that merges when block `at` is freed: its right
/// neighbour if that is free, else the block itself.
pub open spec fn merge_end(blocks: Seq<MemoryBlock>, at: int) -> int {
    if at + 1 < blocks.len() && blocks[at + 1].pid is None {
        at + 1
    } else {
        at
    }
}

/// The blocks after block `at` has been freed and merged with its free
/// neighbours into one free block.
pub open spec fn released(blocks: Seq<MemoryBlock>, at: int) -> Seq<MemoryBlock> {
    let lo = merge_start(blocks, at);
    let hi = merge_end(blocks, at);
    blocks.subrange(0, lo) + seq![
        MemoryBlock { size: total_size(blocks.subrange(lo, hi + 1)) as usize, pid: None },
    ] + blocks.subrange(hi + 1, blocks.len() as int)
}

/// No two neighbouring blocks are both free.
pub open spec fn is_coalesced(blocks: Seq<MemoryBlock>) -> bool {
    forall|i: int|
        0 <= i < blocks.len() - 1 ==> !((#[trigger] blocks[i]).pid is None && blocks[i + 1].pid
            is None)
}

/// No process owns two blocks.
pub open spec fn has_single_owners(blocks: Seq<MemoryBlock>) -> bool {
    forall|i: int, j: int|
        0 <= i < j < blocks.len() && blocks[i].pid is Some ==> blocks[i].pid != blocks[j].pid
}

/// Sizes add up over concatenation.
pub proof fn lemma_total_size_concat(a: Seq<MemoryBlock>, b: Seq<MemoryBlock>)
    ensures
        total_size(a + b) == total_size(a) + total_size(b),
    decreases b.len(),
{
    if b.len() == 0 {
        assert(a + b =~= a);
    } else {
        lemma_total_size_concat(a, b.drop_last());
        assert((a + b).drop_last() =~= a + b.drop_last());
    }
}

proof fn lemma_total_size_small(blocks: Seq<MemoryBlock>)
    ensures
        blocks.len() == 1 ==> total_size(blocks) == blocks[0].size,
        blocks.len() == 2 ==> total_size(blocks) == blocks[0].size + blocks[1].size,
        blocks.len() == 3 ==> total_size(blocks) == blocks[0].size + blocks[1].size
            + blocks[2].size,
{
    reveal_with_fuel(total_size, 4);
}

proof fn lemma_total_size_split(blocks: Seq<MemoryBlock>, lo: int, hi: int)
    requires
        0 <= lo <= hi <= blocks.len(),
    ensures
        total_size(blocks) == total_size(blocks.subrange(0, lo)) + total_size(
            blocks.subrange(lo, hi),
        ) + total_size(blocks.subrange(hi, blocks.len() as int)),
{
    let a = blocks.subrange(0, lo);
    let b = blocks.subrange(lo, hi);
    let c = blocks.subrange(hi, blocks.len() as int);
    lemma_total_size_concat(a, b);
    lemma_total_size_concat(a + b, c);
    assert(a + b + c =~= blocks);
}

/// The block chosen fits, and no block before it does; no block is chosen
/// only where none fits.
pub proof fn lemma_first_fit_is_first(blocks: Seq<MemoryBlock>, size: nat)
    ensures
        match first_fit(blocks, size) {
            Some(at) => {
                &&& 0 <= at < blocks.len()
                &&& fits(blocks[at], size)
                &&& forall|j: int| 0 <= j < at ==> !fits(#[trigger] blocks[j], size)
            },
            None => forall|j: int| 0 <= j < blocks.len() ==> !fits(#[trigger] blocks[j], size),
        },
{
    lemma_first_fit_from(blocks, size, 0);
}

proof fn lemma_first_fit_from(blocks: Seq<MemoryBlock>, size: nat, from: int)
    requires
        0 <= from,
    ensures
        match first_fit_from(blocks, size, from) {
            Some(at) => {
                &&& from <= at < blocks.len()
                &&& fits(blocks[at], size)
                &&& forall|j: int| from <= j < at ==> !fits(#[trigger] blocks[j], size)
            },
            None => forall|j: int| from <= j < blocks.len() ==> !fits(#[trigger] blocks[j], size),
        },
    decreases blocks.len() - from,
{
    if from < blocks.len() && !fits(blocks[from], size) {
        lemma_first_fit_from(blocks, size, from + 1);
    }
}

/// The block found for an owner is the first that the owner holds; none is
/// found only where the owner holds none.
pub proof fn lemma_owned_by_is_first(blocks: Seq<MemoryBlock>, pid: u32)
    ensures
        match owned_by(blocks, pid) {
            Some(at) => {
                &&& 0 <= at < blocks.len()
                &&& blocks[at].pid == Some(pid)
                &&& forall|j: int| 0 <= j < at ==> (#[trigger] blocks[j]).pid != Some(pid)
            },
            None => forall|j: int|
                0 <= j < blocks.len() ==> (#[trigger] blocks[j]).pid != Some(pid),
        },
{
    lemma_owned_from(blocks, pid, 0);
}

proof fn lemma_owned_from(blocks: Seq<MemoryBlock>, pid: u32, from: int)
    requires
        0 <= from,
    ensures
        match owned_from(blocks, pid, from) {
            Some(at) => {
                &&& from <= at < blocks.len()
                &&& blocks[at].pid == Some(pid)
                &&& forall|j: int| from <= j < at ==> (#[trigger] blocks[j]).pid != Some(pid)
            },
            None => forall|j: int|
                from <= j < blocks.len() ==> (#[trigger] blocks[j]).pid != Some(pid),
        },
    decreases blocks.len() - from,
{
    if from < blocks.len() && blocks[from].pid != Some(pid) {
        lemma_owned_from(blocks, pid, from + 1);
    }
}

/// Giving part of a fitting block to a process leaves the sum of all sizes
/// as it was.
pub proof fn lemma_placed_keeps_capacity(blocks: Seq<MemoryBlock>, at: int, pid: u32, size: nat)
    requires
        0 <= at < blocks.len(),
        fits(blocks[at], size),
    ensures
        total_size(placed(blocks, at, pid, size)) == total_size(blocks),
{
    let before = blocks.subrange(0, at);
    let middle = carved(blocks[at], pid, size);
    let behind = blocks.subrange(at + 1, blocks.len() as int);
    lemma_total_size_concat(before, middle);
    lemma_total_size_concat(before + middle, behind);
    lemma_total_size_small(middle);
    lemma_total_size_split(blocks, at, at + 1);
    lemma_total_size_small(blocks.subrange(at, at + 1));
}

/// Freeing a block and merging it with its free neighbours leaves the sum
/// of all sizes as it was.
pub proof fn lemma_released_keeps_capacity(blocks: Seq<MemoryBlock>, at: int)
    requires
        0 <= at < blocks.len(),
        total_size(blocks) <= usize::MAX,
    ensures
        total_size(released(blocks, at)) == total_size(blocks),
{
    let lo = merge_start(blocks, at);
    let hi = merge_end(blocks, at);
    let before = blocks.subrange(0, lo);
    let merged = seq![
        MemoryBlock { size: total_size(blocks.subrange(lo, hi + 1)) as usize, pid: None },
    ];
    let behind = blocks.subrange(hi + 1, blocks.len() as int);
    lemma_total_size_split(blocks, lo, hi + 1);
    lemma_total_size_concat(before, merged);
    lemma_total_size_concat(before + merged, behind);
    lemma_total_size_small(merged);
}

/// The largest free block is never larger than the free space, and where at
/// most one block is free it is all of the free space: there is then no
/// fragmentation.
pub proof fn lemma_largest_free_bounds(blocks: Seq<MemoryBlock>)
    ensures
        largest_free(blocks) <= free_size(blocks),
        free_size(blocks) <= total_size(blocks),
        free_count(blocks) <= 1 ==> largest_free(blocks) == free_size(blocks),
        free_count(blocks) == 0 ==> free_size(blocks) == 0,
    decreases blocks.len(),
{
    if blocks.len() > 0 {
        lemma_largest_free_bounds(blocks.drop_last());
    }
}

/// The largest free block is the size of some free block, and no free block
/// is larger.
pub proof fn lemma_largest_free_is_largest(blocks: Seq<MemoryBlock>)
    ensures
        forall|i: int|
            0 <= i < blocks.len() && (#[trigger] blocks[i]).pid is None ==> blocks[i].size
                <= largest_free(blocks),
        largest_free(blocks) > 0 ==> exists|i: int|
            0 <= i < blocks.len() && (#[trigger] blocks[i]).pid is None && blocks[i].size
                == largest_free(blocks),
    decreases blocks.len(),
{
    if blocks.len() > 0 {
        let front = blocks.drop_last();
        lemma_largest_free_is_largest(front);
        assert forall|i: int|
            0 <= i < blocks.len() && (#[trigger] blocks[i]).pid is None implies blocks[i].size
            <= largest_free(blocks) by {
            if i < front.len() {
                assert(front[i] == blocks[i]);
            }
        }
        if largest_free(blocks) > 0 {
            if largest_free(blocks) == largest_free(front) {
                let i = choose|i: int|
                    0 <= i < front.len() && (#[trigger] front[i]).pid is None && front[i].size
                        == largest_free(front);
                assert(blocks[i] == front[i]);
            } else {
                assert(blocks[blocks.len() - 1].pid is None);
            }
        }
    }
}

/// Allocation never puts two free blocks side by side.
pub proof fn lemma_placed_keeps_coalesced(blocks: Seq<MemoryBlock>, at: int, pid: u32, size: nat)
    requires
        0 <= at < blocks.len(),
        fits(blocks[at], size),
        is_coalesced(blocks),
    ensures
        is_coalesced(placed(blocks, at, pid, size)),
{
    let after = placed(blocks, at, pid, size);
    let grown = carved(blocks[at], pid, size).len() - 1;
    assert forall|i: int| 0 <= i < after.len() - 1 implies !((#[trigger] after[i]).pid is None
        && after[i + 1].pid is None) by {
        if i + 1 < at {
            assert(after[i] == blocks[i] && after[i + 1] == blocks[i + 1]);
        } else if i + 1 == at {
            assert(after[i + 1].pid is Some);
        } else if i == at {
            assert(after[i].pid is Some);
        } else if i == at + grown {
            // the free remainder, in front of what followed the block taken
            assert(after[i + 1] == blocks[at + 1]);
            assert(blocks[at].pid is None);
        } else {
            assert(after[i] == blocks[i - grown] && after[i + 1] == blocks[i - grown + 1]);
        }
    }
}

/// Release never leaves two free blocks side by side.
pub proof fn lemma_released_keeps_coalesced(blocks: Seq<MemoryBlock>, at: int)
    requires
        0 <= at < blocks.len(),
        blocks[at].pid is Some,
        is_coalesced(blocks),
    ensures
        is_coalesced(released(blocks, at)),
{
    let lo = merge_start(blocks, at);
    let hi = merge_end(blocks, at);
    let after = released(blocks, at);
    assert forall|i: int| 0 <= i < after.len() - 1 implies !((#[trigger] after[i]).pid is None
        && after[i + 1].pid is None) by {
        if i + 1 < lo {
            assert(after[i] == blocks[i] && after[i + 1] == blocks[i + 1]);
        } else if i + 1 == lo {
            assert(after[i] == blocks[lo - 1]);
            if lo < at {
                assert(blocks[lo].pid is None);
            }
        } else if i == lo {
            assert(after[i + 1] == blocks[hi + 1]);
            if hi > at {
                assert(blocks[hi].pid is None);
            }
        } else {
            assert(after[i] == blocks[i + hi - lo] && after[i + 1] == blocks[i + hi - lo + 1]);
        }
    }
}

/// Where no process owns two blocks and `pid` owns none, allocation to `pid`
/// keeps it so.
pub proof fn lemma_placed_keeps_single_owners(
    blocks: Seq<MemoryBlock>,
    at: int,
    pid: u32,
    size: nat,
)
    requires
        0 <= at < blocks.len(),
        fits(blocks[at], size),
        has_single_owners(blocks),
        owned_by(blocks, pid) is None,
    ensures
        has_single_owners(placed(blocks, at, pid, size)),
        owned_by(placed(blocks, at, pid, size), pid) == Some(at),
{
    let after = placed(blocks, at, pid, size);
    let grown = carved(blocks[at], pid, size).len() - 1;
    lemma_owned_by_is_first(blocks, pid);
    let origin = |i: int| if i < at { i } else { i - grown };
    assert forall|i: int, j: int|
        0 <= i < j < after.len() && after[i].pid is Some implies after[i].pid
        != after[j].pid by {
        if i != at && j != at && j != at + grown {
            assert(after[i] == blocks[origin(i)]);
            assert(after[j] == blocks[origin(j)]);
        } else if i == at {
            if j > at + grown {
                assert(after[j] == blocks[origin(j)]);
            }
        } else if j == at {
            assert(after[i] == blocks[origin(i)]);
        }
    }
    lemma_owned_by_is_first(after, pid);
    assert(after[at].pid == Some(pid));
    assert forall|j: int| 0 <= j < at implies (#[trigger] after[j]).pid != Some(pid) by {
        assert(after[j] == blocks[j]);
    }
}

/// Where no process owns two blocks, release keeps it so, and the process
/// whose block was freed owns none afterwards.
pub proof fn lemma_released_keeps_single_owners(blocks: Seq<MemoryBlock>, pid: u32)
    requires
        has_single_owners(blocks),
        owned_by(blocks, pid) is Some,
    ensures
        has_single_owners(released(blocks, owned_by(blocks, pid)->0)),
        owned_by(released(blocks, owned_by(blocks, pid)->0), pid) is None,
{
    lemma_owned_by_is_first(blocks, pid);
    let at = owned_by(blocks, pid)->0;
    let lo = merge_start(blocks, at);
    let hi = merge_end(blocks, at);
    let after = released(blocks, at);
    let origin = |i: int| if i < lo { i } else { i + hi - lo };
    assert forall|i: int| 0 <= i < after.len() && i != lo implies #[trigger] after[i]
        == blocks[origin(i)] && origin(i) != at && 0 <= origin(i) < blocks.len() by {}
    assert forall|i: int, j: int|
        0 <= i < j < after.len() && after[i].pid is Some implies after[i].pid
        != after[j].pid by {
        if j != lo {
            assert(after[i] == blocks[origin(i)]);
            assert(after[j] == blocks[origin(j)]);
        }
    }
    lemma_owned_by_is_first(after, pid);
    assert forall|j: int| 0 <= j < after.len() implies (#[trigger] after[j]).pid != Some(pid) by {
        if j != lo {
            assert(after[j] == blocks[origin(j)]);
            if origin(j) < at {
            } else {
                assert(blocks[at].pid != blocks[origin(j)].pid);
            }
        }
    }
}

impl MemoryManager {
    /// The blocks account for the whole capacity, no more and no less.
    pub open spec fn wf(&self) -> bool {
        total_size(self.blocks@) == self.total
    }

    /// An allocator over `total` units, all of them in one free block.
    pub fn new(total: usize) -> (m: Self)
        ensures
            m.total == total,
            m.blocks@ == seq![MemoryBlock { size: total, pid: None }],
            m.wf(),
            is_coalesced(m.blocks@),
            has_single_owners(m.blocks@),
    {
        let mut blocks = Vec::new();
        blocks.push(MemoryBlock { size: total, pid: None });
        proof {
            lemma_total_size_small(blocks@);
        }
        MemoryManager { total, blocks }
    }

    /// Whether the blocks add up to the capacity: `free` and `free_space`
    /// may be called exactly when this returns `true`.
    pub fn adds_up(&self) -> (ok: bool)
        ensures
            ok == self.wf(),
    {
        let n = self.blocks.len();
        let mut sum: usize = 0;
        let mut i: usize = 0;
        while i < n
            invariant
                i <= n,
                n == self.blocks@.len(),
                sum == total_size(self.blocks@.take(i as int)),
            decreases n - i,
        {
            proof {
                assert(self.blocks@.take(i + 1).drop_last() =~= self.blocks@.take(i as int));
                lemma_total_size_split(self.blocks@, 0, i + 1);
                assert(self.blocks@.subrange(0, i + 1) =~= self.blocks@.take(i + 1));
            }
            match sum.checked_add(self.blocks[i].size) {
                Some(more) => {
                    sum = more;
                },
                None => {
                    return false;
                },
            }
            i += 1;
        }
        proof {
            assert(self.blocks@.take(n as int) =~= self.blocks@);
        }
        sum == self.total
    }

    /// Gives `pid` a block of exactly `size` units from the first free block
    /// in address order that is large enough, and returns `true`. A larger
    /// block is split: the owned part comes first, the free remainder
    /// follows it. Where no free block is large enough, nothing changes and
    /// the result is `false`, whatever the free space adds up to.
    pub fn allocate(&mut self, pid: u32, size: usize) -> (granted: bool)
        ensures
            final(self).total == old(self).total,
            granted == first_fit(old(self).blocks@, size as nat) is Some,
            final(self).blocks@ == match first_fit(old(self).blocks@, size as nat) {
                Some(at) => placed(old(self).blocks@, at, pid, size as nat),
                None => old(self).blocks@,
            },
            total_size(final(self).blocks@) == total_size(old(self).blocks@),
            old(self).wf() ==> final(self).wf(),
            is_coalesced(old(self).blocks@) ==> is_coalesced(final(self).blocks@),
            has_single_owners(old(self).blocks@) && owned_by(old(self).blocks@, pid) is None
                ==> has_single_owners(final(self).blocks@),
    {
        let n = self.blocks.len();
        let mut i: usize = 0;
        while i < n
            invariant
                i <= n,
                n == self.blocks@.len(),
                self.blocks@ == old(self).blocks@,
                self.total == old(self).total,
                first_fit(self.blocks@, size as nat) == first_fit_from(
                    self.blocks@,
                    size as nat,
                    i as int,
                ),
            decreases n - i,
        {
            let block = self.blocks[i];
            if block.pid.is_none() && block.size >= size {
                self.blocks.set(i, MemoryBlock { size, pid: Some(pid) });
                if block.size > size {
                    self.blocks.insert(i + 1, MemoryBlock { size: block.size - size, pid: None });
                }
                proof {
                    let before = old(self).blocks@;
                    assert(self.blocks@ =~= placed(before, i as int, pid, size as nat));
                    lemma_placed_keeps_capacity(before, i as int, pid, size as nat);
                    if is_coalesced(before) {
                        lemma_placed_keeps_coalesced(before, i as int, pid, size as nat);
                    }
                    if has_single_owners(before) && owned_by(before, pid) is None {
                        lemma_placed_keeps_single_owners(before, i as int, pid, size as nat);
                    }
                }
                return true;
            }
            i += 1;
        }
        false
    }

    /// Frees the block that `pid` owns and merges it with a free neighbour
    /// on its left, on its right, or both, into one free block. Where `pid`
    /// owns no block, nothing changes. Should `pid` own several blocks, the
    /// first in address order is the one freed.
    pub fn free(&mut self, pid: u32)
        requires
            old(self).wf(),
        ensures
            final(self).total == old(self).total,
            final(self).blocks@ == match owned_by(old(self).blocks@, pid) {
                Some(at) => released(old(self).blocks@, at),
                None => old(self).blocks@,
            },
            final(self).wf(),
            is_coalesced(old(self).blocks@) ==> is_coalesced(final(self).blocks@),
            has_single_owners(old(self).blocks@) ==> has_single_owners(final(self).blocks@)
                && owned_by(final(self).blocks@, pid) is None,
    {
        let n = self.blocks.len();
        let mut i: usize = 0;
        while i < n
            invariant
                i <= n,
                n == self.blocks@.len(),
                self.blocks@ == old(self).blocks@,
                self.total == old(self).total,
                old(self).wf(),
                owned_by(self.blocks@, pid) == owned_from(self.blocks@, pid, i as int),
            decreases n - i,
        {
            let block = self.blocks[i];
            let mine = match block.pid {
                Some(owner) => owner == pid,
                None => false,
            };
            if mine {
                let ghost before = old(self).blocks@;
                let ghost lo = merge_start(before, i as int);
                let ghost hi = merge_end(before, i as int);
                proof {
                    lemma_total_size_split(before, lo, hi + 1);
                    lemma_total_size_small(before.subrange(lo, hi + 1));
                }
                let mut size = block.size;
                let mut at = i;
                if i + 1 < n && self.blocks[i + 1].pid.is_none() {
                    size += self.blocks[i + 1].size;
                    self.blocks.remove(i + 1);
                }
                if i > 0 && self.blocks[i - 1].pid.is_none() {
                    size += self.blocks[i - 1].size;
                    self.blocks.remove(i - 1);
                    at = i - 1;
                }
                self.blocks.set(at, MemoryBlock { size, pid: None });
                proof {
                    assert(self.blocks@ =~= released(before, i as int));
                    lemma_released_keeps_capacity(before, i as int);
                    if is_coalesced(before) {
                        lemma_released_keeps_coalesced(before, i as int);
                    }
                    if has_single_owners(before) {
                        lemma_released_keeps_single_owners(before, pid);
                    }
                }
                return ;
            }
            i += 1;
        }
    }

    /// The free space: the sizes of all free blocks, added up.
    pub fn free_space(&self) -> (free: usize)
        requires
            self.wf(),
        ensures
            free == free_size(self.blocks@),
            free <= self.total,
    {
        let n = self.blocks.len();
        let mut free: usize = 0;
        let mut i: usize = 0;
        while i < n
            invariant
                i <= n,
                n == self.blocks@.len(),
                self.wf(),
                free == free_size(self.blocks@.take(i as int)),
            decreases n - i,
        {
            proof {
                let upto = self.blocks@.take(i + 1);
                assert(upto.drop_last() =~= self.blocks@.take(i as int));
                lemma_largest_free_bounds(upto);
                lemma_total_size_split(self.blocks@, 0, i + 1);
                assert(self.blocks@.subrange(0, i + 1) =~= upto);
            }
            if self.blocks[i].pid.is_none() {
                free += self.blocks[i].size;
            }
            i += 1;
        }
        proof {
            assert(self.blocks@.take(n as int) =~= self.blocks@);
            lemma_largest_free_bounds(self.blocks@);
        }
        free
    }

    /// The size of the largest free block, 0 where no block is free. It
    /// never exceeds the free space, and equals it where at most one block
    /// is free.
    pub fn largest_free_block(&self) -> (largest: usize)
        ensures
            largest == largest_free(self.blocks@),
            largest <= free_size(self.blocks@),
            free_count(self.blocks@) <= 1 ==> largest == free_size(self.blocks@),
    {
        let n = self.blocks.len();
        let mut largest: usize = 0;
        let mut i: usize = 0;
        while i < n
            invariant
                i <= n,
                n == self.blocks@.len(),
                largest == largest_free(self.blocks@.take(i as int)),
            decreases n - i,
        {
            proof {
                assert(self.blocks@.take(i + 1).drop_last() =~= self.blocks@.take(i as int));
            }
            if self.blocks[i].pid.is_none() && self.blocks[i].size > largest {
                largest = self.blocks[i].size;
            }
            i += 1;
        }
        proof {
            assert(self.blocks@.take(n as int) =~= self.blocks@);
            lemma_largest_free_bounds(self.blocks@);
        }
        largest
    }
}

} // verus!
