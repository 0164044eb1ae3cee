//! The persistent slot allocator: fixed-size blocks in one byte image, a
//! reserved-set bitmap, a used-set bitmap and a free-id stack, kept mutually
//! consistent under reserve / update / remove / clear.

use vstd::prelude::*;

use crate::bitsetfile::BitSetFile;
use crate::bitsetfile::ContainsIterator;
use crate::container::CloneContainer;
use crate::container::Container;
use crate::error::ContainerError;
use crate::stackfile::StackFile;

verus! {

/// The identifier type of the persistent allocator.
pub type Id = u64;

/// A stored record: at most `block_size` bytes on the way in, exactly
/// `block_size` bytes on the way out.
pub type Block = Vec<u8>;

/// The id the free-stack scan settles on: the topmost entry strictly below
/// `max_id`, popping and discarding everything above it.
pub open spec fn free_pick(free: Seq<u64>, max_id: u64) -> Option<u64>
    decreases free.len(),
{
    if free.len() == 0 {
        None
    } else if free.last() < max_id {
        Some(free.last())
    } else {
        free_pick(free.drop_last(), max_id)
    }
}

/// A free-stack entry the scan adopts is strictly below `max_id`.
pub proof fn lemma_free_pick_lt(free: Seq<u64>, max_id: u64)
    requires
        free_pick(free, max_id) is Some,
    ensures
        free_pick(free, max_id)->0 < max_id,
    decreases free.len(),
{
    if free.len() > 0 && !(free.last() < max_id) {
        lemma_free_pick_lt(free.drop_last(), max_id);
    }
}

/// What the free stack keeps after the scan: everything below the adopted
/// entry, or nothing when no entry qualifies.
pub open spec fn free_rest(free: Seq<u64>, max_id: u64) -> Seq<u64>
    decreases free.len(),
{
    if free.len() == 0 {
        free
    } else if free.last() < max_id {
        free.drop_last()
    } else {
        free_rest(free.drop_last(), max_id)
    }
}

/// Writes `element` at block `offset` of the image: the image is extended
/// with zero fill to a whole number of blocks first, then the payload bytes
/// replace the front of the block; the rest of the block keeps whatever the
/// image already held there. A payload longer than the block is rejected
/// before anything is written.
#[verifier::loop_isolation(false)]
fn write_block(file: &mut Vec<u8>, offset: u64, element: &Block, block_size: usize) -> (r: Result<
    usize,
    ContainerError,
>)
    requires
        block_size >= 1,
        (offset + 1) * block_size <= usize::MAX,
    ensures
        element@.len() > block_size ==> r == Err::<usize, ContainerError>(ContainerError::Io)
            && final(file)@ == old(file)@,
        element@.len() <= block_size ==> {
            &&& r == Ok::<usize, ContainerError>(element@.len() as usize)
            &&& final(file)@.len() == (if old(file)@.len() >= (offset + 1) * block_size {
                old(file)@.len() as int
            } else {
                (offset + 1) * block_size
            })
            &&& forall|i: int|
                0 <= i < final(file)@.len() ==> final(file)@[i] == (if offset * block_size <= i
                    < offset * block_size + element@.len() {
                    element@[i - offset * block_size]
                } else if i < old(file)@.len() {
                    old(file)@[i]
                } else {
                    0u8
                })
        },
{
    if element.len() > block_size {
        return Err(ContainerError::Io);
    }
    proof {
        vstd::arithmetic::mul::lemma_mul_is_distributive_add_other_way(
            block_size as int,
            offset as int,
            1,
        );
        vstd::arithmetic::mul::lemma_mul_inequality(1, block_size as int, offset as int + 1);
    }
    let position = (offset as usize) * block_size;
    let stop = position + block_size;
    while file.len() < stop
        invariant
            old(file)@.len() <= file@.len() <= stop || file@.len() == old(file)@.len(),
            stop <= usize::MAX,
            forall|i: int| 0 <= i < old(file)@.len() ==> file@[i] == old(file)@[i],
            forall|i: int| old(file)@.len() <= i < file@.len() ==> file@[i] == 0u8,
        decreases stop - file@.len(),
    {
        file.push(0);
    }
    let mut i: usize = 0;
    while i < element.len()
        invariant
            i <= element@.len(),
            element@.len() <= block_size,
            file@.len() >= stop,
            file@.len() == (if old(file)@.len() >= stop as int {
                old(file)@.len() as int
            } else {
                stop as int
            }),
            forall|j: int|
                position <= j < position + i ==> file@[j] == element@[j - position],
            forall|j: int|
                0 <= j < file@.len() && !(position <= j < position + i) ==> file@[j] == (if j
                    < old(file)@.len() {
                    old(file)@[j]
                } else {
                    0u8
                }),
        decreases element@.len() - i,
    {
        file[position + i] = element[i];
        i += 1;
    }
    Ok(element.len())
}

/// Reads the whole block at `offset` out of the image.
#[verifier::loop_isolation(false)]
fn read_block(file: &Vec<u8>, offset: u64, block_size: usize) -> (r: Result<Block, ContainerError>)
    requires
        block_size >= 1,
        (offset + 1) * block_size <= file@.len(),
    ensures
        r matches Ok(b) && b@ == file@.subrange(
            offset * block_size,
            (offset + 1) * block_size as int,
        ),
{
    let n = file.len();
    proof {
        vstd::arithmetic::mul::lemma_mul_is_distributive_add_other_way(
            block_size as int,
            offset as int,
            1,
        );
        vstd::arithmetic::mul::lemma_mul_inequality(1, block_size as int, offset as int + 1);
        assert((offset + 1) * block_size <= n);
    }
    let position = (offset as usize) * block_size;
    let mut buffer: Vec<u8> = Vec::new();
    let mut i: usize = 0;
    while i < block_size
        invariant
            i <= block_size,
            (position + block_size) as int == (offset + 1) * block_size <= file@.len(),
            position == offset * block_size,
            buffer@.len() == i,
            forall|j: int| 0 <= j < i ==> buffer@[j] == file@[position + j],
        decreases block_size - i,
    {
        buffer.push(file[position + i]);
        i += 1;
    }
    proof {
        assert(buffer@ =~= file@.subrange(
            offset as int * block_size as int,
            (offset + 1) * block_size as int,
        ));
    }
    Ok(buffer)
}

/// A persistent container of fixed-size blocks addressed by recycled ids.
pub struct BlockFileContainer {
    container_bytes: Vec<u8>,
    reserved_bit_map: BitSetFile,
    used_bit_map: BitSetFile,
    free_list_file: StackFile,
    block_size: usize,
}

impl BlockFileContainer {
    /// The block-file image.
    pub closed spec fn spec_container(self) -> Seq<u8> {
        self.container_bytes@
    }

    /// The reserved-set bitmap.
    pub closed spec fn spec_reserved(self) -> BitSetFile {
        self.reserved_bit_map
    }

    /// The used-set bitmap.
    pub closed spec fn spec_used(self) -> BitSetFile {
        self.used_bit_map
    }

    /// The free-id stack.
    pub closed spec fn spec_free(self) -> StackFile {
        self.free_list_file
    }

    /// The fixed block size in bytes.
    pub closed spec fn spec_block_size(self) -> usize {
        self.block_size
    }

    /// Whether `id` is at least reserved.
    pub open spec fn id_reserved(self, id: int) -> bool {
        self.spec_reserved().spec_has(id)
    }

    /// Whether `id` currently holds a value.
    pub open spec fn id_used(self, id: int) -> bool {
        self.spec_used().spec_has(id)
    }

    /// The free stack's entries, bottom first.
    pub open spec fn free_view(self) -> Seq<u64> {
        self.spec_free()@
    }

    /// The stored bytes of block `id`; meaningful when the image covers it.
    pub open spec fn spec_block(self, id: int) -> Seq<u8> {
        self.spec_container().subrange(
            id * self.spec_block_size(),
            (id + 1) * self.spec_block_size(),
        )
    }

    /// The bytes block `id` reads as: the stored bytes where the image
    /// covers the block, zeros where it does not (fresh blocks read as
    /// zeros once the image grows over them).
    pub open spec fn resident_block(self, id: int) -> Seq<u8> {
        if (id + 1) * self.spec_block_size() <= self.spec_container().len() {
            self.spec_block(id)
        } else {
            Seq::new(self.spec_block_size() as nat, |i: int| 0u8)
        }
    }

    /// The invariant tying the four images together: both bitmaps and the
    /// stack are well formed, every used id is reserved, and the block image
    /// holds exactly the blocks up to the highest used id.
    pub open spec fn wf(self) -> bool {
        &&& self.spec_reserved().wf()
        &&& self.spec_used().wf()
        &&& self.spec_free().wf()
        &&& self.spec_block_size() >= 1
        &&& forall|b: int| self.id_used(b) ==> self.id_reserved(b)
        &&& self.spec_container().len() == (if self.spec_used().spec_size() == 0 {
            0int
        } else {
            (self.spec_used().spec_max() + 1) * self.spec_block_size()
        })
    }

    /// Room for one more reserved id: the counters and the reserved-set
    /// image can still grow.
    pub open spec fn can_reserve(self) -> bool {
        &&& self.spec_reserved().spec_size() < u64::MAX
        &&& self.spec_reserved().spec_max() < u64::MAX
        &&& self.spec_reserved().spec_bytes().len() < usize::MAX
    }

    /// Room to store a block at `id`: the block image and the used-set
    /// counter can take it.
    pub open spec fn can_update(self, id: int) -> bool {
        &&& (id + 1) * self.spec_block_size() <= usize::MAX
        &&& self.spec_used().spec_size() < u64::MAX
    }

    /// Room to push one more recycled id onto the free stack.
    pub open spec fn can_remove(self) -> bool {
        &&& self.spec_free().spec_entries() < u64::MAX
        &&& self.spec_free().spec_bytes().len() + 8 <= usize::MAX
    }

    /// The id the next `reserve` hands out: 0 on an empty store, else the
    /// topmost qualifying free-stack entry, else one past the highest
    /// reserved id.
    pub open spec fn reserve_choice(self) -> u64 {
        if self.spec_reserved().spec_size() == 0 {
            0u64
        } else {
            match free_pick(self.free_view(), self.spec_reserved().spec_max()) {
                Some(f) => f,
                None => (self.spec_reserved().spec_max() + 1) as u64,
            }
        }
    }

    /// What the free stack holds once `reserve` has scanned it.
    pub open spec fn free_after_reserve(self) -> Seq<u64> {
        if self.spec_reserved().spec_size() == 0 {
            self.free_view()
        } else {
            free_rest(self.free_view(), self.spec_reserved().spec_max())
        }
    }

    /// A fresh store over empty images, fixed to the given block size.
    pub fn new_with_block_size(block_size: usize) -> (r: Self)
        requires
            block_size >= 1,
        ensures
            r.wf(),
            r.spec_block_size() == block_size,
            r.spec_reserved().spec_size() == 0,
            r.spec_used().spec_size() == 0,
            r.free_view() == Seq::<u64>::empty(),
            r.spec_container().len() == 0,
            forall|b: int| !r.id_reserved(b) && !r.id_used(b),
    {
        BlockFileContainer {
            container_bytes: Vec::new(),
            reserved_bit_map: BitSetFile::new(),
            used_bit_map: BitSetFile::new(),
            free_list_file: StackFile::new(),
            block_size,
        }
    }

    /// Allocates an id. On an empty store the id is 0; otherwise the free
    /// stack is popped until an entry strictly below the highest reserved id
    /// turns up (popped entries that do not qualify are discarded for good),
    /// and if none does, one past the highest reserved id is chosen. The
    /// chosen id is marked reserved and returned.
    pub fn reserve(&mut self) -> (r: Result<Id, ContainerError>)
        requires
            old(self).wf(),
            old(self).can_reserve(),
        ensures
            final(self).wf(),
            r == Ok::<Id, ContainerError>(old(self).reserve_choice()),
            final(self).id_reserved(old(self).reserve_choice() as int),
            forall|b: int|
                final(self).id_reserved(b) == (old(self).id_reserved(b) || b == old(
                    self,
                ).reserve_choice()),
            final(self).free_view() == old(self).free_after_reserve(),
            final(self).spec_used() == old(self).spec_used(),
            final(self).spec_container() == old(self).spec_container(),
            final(self).spec_block_size() == old(self).spec_block_size(),
            final(self).spec_reserved().spec_size() == old(self).spec_reserved().spec_size() + (
            if old(self).id_reserved(old(self).reserve_choice() as int) {
                0int
            } else {
                1int
            }),
            final(self).spec_reserved().spec_max() == (if old(self).spec_reserved().spec_size()
                == 0 || old(self).reserve_choice() > old(self).spec_reserved().spec_max() {
                old(self).reserve_choice()
            } else {
                old(self).spec_reserved().spec_max()
            }),
    {
        let ghost pre = *old(self);
        let mut id: Id;
        let max = self.reserved_bit_map.max_bit();
        match max {
            Some(max_id) => {
                id = max_id + 1;
                let ghost free0 = self.free_view();
                loop
                    invariant_except_break
                        self.reserved_bit_map == pre.spec_reserved(),
                        self.used_bit_map == pre.spec_used(),
                        self.container_bytes@ == pre.spec_container(),
                        self.block_size == pre.spec_block_size(),
                        self.free_list_file.wf(),
                        free_pick(self.free_view(), max_id) == free_pick(free0, max_id),
                        free_rest(self.free_view(), max_id) == free_rest(free0, max_id),
                        id == max_id + 1,
                    ensures
                        self.reserved_bit_map == pre.spec_reserved(),
                        self.used_bit_map == pre.spec_used(),
                        self.container_bytes@ == pre.spec_container(),
                        self.block_size == pre.spec_block_size(),
                        self.free_list_file.wf(),
                        self.free_view() == free_rest(free0, max_id),
                        id == (match free_pick(free0, max_id) {
                            Some(f) => f,
                            None => (max_id + 1) as u64,
                        }),
                    decreases self.free_view().len(),
                {
                    let popped = match self.free_list_file.next() {
                        Ok(v) => v,
                        Err(_) => None,
                    };
                    match popped {
                        Some(free_id) => {
                            if free_id < max_id {
                                id = free_id;
                                break ;
                            }
                        },
                        None => {
                            break ;
                        },
                    }
                }
            },
            None => {
                id = 0;
            },
        }
        proof {
            assert(id == pre.reserve_choice());
            if pre.spec_reserved().spec_size() > 0 {
                let m = pre.spec_reserved().spec_max();
                match free_pick(pre.free_view(), m) {
                    Some(f) => {
                        lemma_free_pick_lt(pre.free_view(), m);
                        vstd::arithmetic::div_mod::lemma_div_is_ordered(id as int, m as int, 8);
                    },
                    None => {
                        vstd::arithmetic::div_mod::lemma_div_is_ordered(
                            id as int,
                            m as int + 8,
                            8,
                        );
                        assert((m as int + 8) / 8 == m as int / 8 + 1);
                    },
                }
            }
        }
        let inserted = self.reserved_bit_map.insert(id);
        proof {
            assert forall|b: int| self.id_used(b) implies self.id_reserved(b) by {
                assert(pre.id_used(b));
                assert(pre.id_reserved(b));
            }
        }
        match inserted {
            Ok(_) => Ok(id),
            Err(e) => Err(e),
        }
    }

    /// No observable difference between two states: the same images, the
    /// same counters, the same block size.
    pub open spec fn unchanged_state(pre: Self, post: Self) -> bool {
        &&& post.spec_reserved().spec_bytes() == pre.spec_reserved().spec_bytes()
        &&& post.spec_reserved().spec_size() == pre.spec_reserved().spec_size()
        &&& post.spec_reserved().spec_max() == pre.spec_reserved().spec_max()
        &&& post.spec_used().spec_bytes() == pre.spec_used().spec_bytes()
        &&& post.spec_used().spec_size() == pre.spec_used().spec_size()
        &&& post.spec_used().spec_max() == pre.spec_used().spec_max()
        &&& post.spec_free().spec_bytes() == pre.spec_free().spec_bytes()
        &&& post.spec_free().spec_entries() == pre.spec_free().spec_entries()
        &&& post.spec_container() == pre.spec_container()
        &&& post.spec_block_size() == pre.spec_block_size()
    }

    /// Stores `element` at `id`. Fails with `InvalidId`, before any change,
    /// when `id` is not reserved, and with `Io`, before any change, when the
    /// payload exceeds the block size. Otherwise marks the id used, grows
    /// the block image to cover the block (fresh bytes zero), writes the
    /// payload at the front of the block, leaves the rest of the block as it
    /// was, and returns the block's previous content if the id was already
    /// used.
    #[verifier::rlimit(100)]
    pub fn update(&mut self, id: Id, element: Block) -> (r: Result<Option<Block>, ContainerError>)
        requires
            old(self).wf(),
            old(self).can_update(id as int),
        ensures
            final(self).wf(),
            !old(self).id_reserved(id as int) ==> r == Err::<Option<Block>, ContainerError>(
                ContainerError::InvalidId,
            ) && Self::unchanged_state(*old(self), *final(self)),
            old(self).id_reserved(id as int) && element@.len() > old(self).spec_block_size() ==> r
                == Err::<Option<Block>, ContainerError>(ContainerError::Io)
                && Self::unchanged_state(*old(self), *final(self)),
            old(self).id_reserved(id as int) && element@.len() <= old(self).spec_block_size()
                ==> {
                &&& (if old(self).id_used(id as int) {
                    r matches Ok(Some(b)) && b@ == old(self).spec_block(id as int)
                } else {
                    r == Ok::<Option<Block>, ContainerError>(None)
                })
                &&& forall|b: int|
                    final(self).id_used(b) == (old(self).id_used(b) || b == id)
                &&& final(self).spec_used().spec_size() == old(self).spec_used().spec_size() + (
                if old(self).id_used(id as int) {
                    0int
                } else {
                    1int
                })
                &&& final(self).spec_used().spec_max() == (if old(self).spec_used().spec_size()
                    == 0 || id > old(self).spec_used().spec_max() {
                    id
                } else {
                    old(self).spec_used().spec_max()
                })
                &&& final(self).spec_reserved() == old(self).spec_reserved()
                &&& final(self).spec_free() == old(self).spec_free()
                &&& final(self).spec_block_size() == old(self).spec_block_size()
                &&& final(self).resident_block(id as int) == element@ + old(self).resident_block(
                    id as int,
                ).skip(element@.len() as int)
                &&& forall|j: int|
                    0 <= j && j != id ==> final(self).resident_block(j) == old(
                        self,
                    ).resident_block(j)
            },
    {
        let ghost pre = *old(self);
        let ghost bs = pre.spec_block_size() as int;
        let reserved_was_set = match self.reserved_bit_map.contains(id) {
            Ok(b) => b,
            Err(_) => false,
        };
        if !reserved_was_set {
            return Err(ContainerError::InvalidId);
        }
        if element.len() > self.block_size {
            return Err(ContainerError::Io);
        }
        proof {
            assert(id <= pre.spec_reserved().spec_max());
            vstd::arithmetic::div_mod::lemma_div_is_ordered(
                id as int,
                pre.spec_reserved().spec_max() as int,
                8,
            );
            pre.spec_reserved().lemma_len_bound();
        }
        let used_was_not_set = match self.used_bit_map.insert(id) {
            Ok(b) => b,
            Err(_) => false,
        };
        let ghost oumax = pre.spec_used().spec_max() as int;
        let old_block: Option<Block> = if !used_was_not_set {
            proof {
                assert(id as int <= oumax);
                vstd::arithmetic::mul::lemma_mul_inequality(id as int + 1, oumax + 1, bs);
            }
            match read_block(&self.container_bytes, id, self.block_size) {
                Ok(b) => Some(b),
                Err(_) => None,
            }
        } else {
            None
        };
        let written = write_block(&mut self.container_bytes, id, &element, self.block_size);
        proof {
            let post = *self;
            // The new highest used id, and with it the block image length.
            assert forall|b: int| post.id_used(b) implies post.id_reserved(b) by {
                if b != id {
                    assert(pre.id_used(b));
                    assert(pre.id_reserved(b));
                }
            }
            if pre.spec_used().spec_size() == 0 {
                assert(post.spec_used().spec_max() == id);
                assert(pre.spec_container().len() == 0);
            } else {
                if id as int > oumax {
                    vstd::arithmetic::mul::lemma_mul_strict_inequality(
                        oumax + 1,
                        id as int + 1,
                        bs,
                    );
                    assert(post.spec_used().spec_max() == id);
                } else {
                    vstd::arithmetic::mul::lemma_mul_inequality(id as int + 1, oumax + 1, bs);
                    assert(post.spec_used().spec_max() == oumax);
                }
            }
            assert(post.wf());
            // The written block, and every other block, read as promised.
            vstd::arithmetic::mul::lemma_mul_is_distributive_add_other_way(bs, id as int, 1);
            let elen = element@.len() as int;
            assert forall|i: int| 0 <= i < bs implies post.resident_block(id as int)[i] == (
            element@ + pre.resident_block(id as int).skip(elen))[i] by {
                assert(post.resident_block(id as int)[i] == post.spec_container()[id as int * bs
                    + i]);
                if i >= elen {
                    if (id as int + 1) * bs <= pre.spec_container().len() {
                        assert(pre.resident_block(id as int)[i] == pre.spec_container()[id as int
                            * bs + i]);
                    } else {
                        if pre.spec_used().spec_size() != 0 {
                            if id as int <= oumax {
                                vstd::arithmetic::mul::lemma_mul_inequality(
                                    id as int + 1,
                                    oumax + 1,
                                    bs,
                                );
                            }
                            assert(id as int > oumax);
                            vstd::arithmetic::mul::lemma_mul_inequality(oumax + 1, id as int, bs);
                        }
                        assert(id as int * bs >= pre.spec_container().len());
                    }
                }
            }
            assert(post.resident_block(id as int) =~= element@ + pre.resident_block(
                id as int,
            ).skip(elen));
            assert forall|j: int| 0 <= j && j != id implies post.resident_block(j)
                == pre.resident_block(j) by {
                vstd::arithmetic::mul::lemma_mul_is_distributive_add_other_way(bs, j, 1);
                if j < id {
                    vstd::arithmetic::mul::lemma_mul_inequality(j + 1, id as int, bs);
                } else {
                    vstd::arithmetic::mul::lemma_mul_inequality(id as int + 1, j, bs);
                }
                if (j + 1) * bs <= post.spec_container().len() {
                    assert forall|i: int| 0 <= i < bs implies post.spec_block(j)[i]
                        == pre.resident_block(j)[i] by {
                        assert(post.spec_block(j)[i] == post.spec_container()[j * bs + i]);
                        if (j + 1) * bs <= pre.spec_container().len() {
                            assert(pre.resident_block(j)[i] == pre.spec_container()[j * bs + i]);
                        } else {
                            if pre.spec_used().spec_size() != 0 {
                                if j <= oumax {
                                    vstd::arithmetic::mul::lemma_mul_inequality(
                                        j + 1,
                                        oumax + 1,
                                        bs,
                                    );
                                }
                                assert(j > oumax);
                                vstd::arithmetic::mul::lemma_mul_inequality(oumax + 1, j, bs);
                            }
                            assert(j * bs >= pre.spec_container().len());
                        }
                    }
                    assert(post.resident_block(j) =~= pre.resident_block(j));
                } else {
                    assert((j + 1) * bs > pre.spec_container().len());
                }
            }
        }
        Ok(old_block)
    }

    /// Releases `id`. Fails with `InvalidId` when the id was not reserved.
    /// A reserved-but-unused id is simply cleared and `None` returned. A
    /// used id is cleared from both sets and its stored block returned;
    /// when it was the last used id the free stack is emptied and the block
    /// image truncated to nothing, otherwise the id is pushed onto the free
    /// stack and the image truncated right after the highest remaining used
    /// block.
    #[verifier::rlimit(100)]
    pub fn remove(&mut self, id: Id) -> (r: Result<Option<Block>, ContainerError>)
        requires
            old(self).wf(),
            old(self).can_remove(),
        ensures
            final(self).wf(),
            !old(self).id_reserved(id as int) ==> r == Err::<Option<Block>, ContainerError>(
                ContainerError::InvalidId,
            ) && Self::unchanged_state(*old(self), *final(self)),
            old(self).id_reserved(id as int) ==> {
                &&& forall|b: int|
                    final(self).id_reserved(b) == (old(self).id_reserved(b) && b != id)
                &&& final(self).spec_reserved().spec_size() == old(
                    self,
                ).spec_reserved().spec_size() - 1
                &&& final(self).spec_block_size() == old(self).spec_block_size()
            },
            old(self).id_reserved(id as int) && !old(self).id_used(id as int) ==> {
                &&& r == Ok::<Option<Block>, ContainerError>(None)
                &&& final(self).spec_used().spec_bytes() == old(self).spec_used().spec_bytes()
                &&& final(self).spec_used().spec_size() == old(self).spec_used().spec_size()
                &&& final(self).spec_used().spec_max() == old(self).spec_used().spec_max()
                &&& final(self).spec_free() == old(self).spec_free()
                &&& final(self).spec_container() == old(self).spec_container()
            },
            old(self).id_used(id as int) ==> {
                &&& (r matches Ok(Some(b)) && b@ == old(self).spec_block(id as int))
                &&& forall|b: int| final(self).id_used(b) == (old(self).id_used(b) && b != id)
                &&& final(self).spec_used().spec_size() == old(self).spec_used().spec_size() - 1
                &&& (if old(self).spec_used().spec_size() == 1 {
                    final(self).free_view().len() == 0 && final(self).spec_container().len() == 0
                } else {
                    final(self).free_view() == old(self).free_view().push(id)
                        && final(self).spec_container() == old(self).spec_container().subrange(
                        0,
                        (final(self).spec_used().spec_max() + 1) * old(self).spec_block_size(),
                    )
                })
            },
    {
        let ghost pre = *old(self);
        let ghost bs = pre.spec_block_size() as int;
        let reserved_was_set = match self.reserved_bit_map.remove(id) {
            Ok(b) => b,
            Err(_) => false,
        };
        if !reserved_was_set {
            proof {
                assert forall|b: int| self.id_used(b) implies self.id_reserved(b) by {
                    assert(pre.id_used(b));
                    assert(pre.id_reserved(b));
                    assert(self.spec_reserved().spec_has(b) == pre.spec_reserved().spec_has(b));
                }
            }
            return Err(ContainerError::InvalidId);
        }
        let used_was_set = match self.used_bit_map.remove(id) {
            Ok(b) => b,
            Err(_) => false,
        };
        if !used_was_set {
            proof {
                assert forall|b: int| self.id_used(b) implies self.id_reserved(b) by {
                    assert(pre.id_used(b));
                    assert(pre.id_reserved(b));
                }
            }
            return Ok(None);
        }
        let ghost oumax = pre.spec_used().spec_max() as int;
        proof {
            assert(id as int <= oumax);
            vstd::arithmetic::mul::lemma_mul_inequality(id as int + 1, oumax + 1, bs);
        }
        let old_block = match read_block(&self.container_bytes, id, self.block_size) {
            Ok(b) => b,
            Err(_) => Vec::new(),
        };
        if self.used_bit_map.is_empty() {
            let _ = self.free_list_file.clear();
            self.container_bytes.truncate(0);
            proof {
                assert(self.spec_container() =~= Seq::<u8>::empty());
            }
        } else {
            let _ = self.free_list_file.add(id);
            let new_max = match self.used_bit_map.max_bit() {
                Some(m) => m,
                None => 0,  // the used set is known non-empty here
            };
            proof {
                assert(pre.id_used(new_max as int));
                assert(new_max as int <= oumax);
                vstd::std_specs::vec::axiom_spec_len(&self.container_bytes);
                vstd::arithmetic::mul::lemma_mul_inequality(new_max as int + 1, oumax + 1, bs);
                vstd::arithmetic::mul::lemma_mul_inequality(1, bs, new_max as int + 1);
                vstd::arithmetic::mul::lemma_mul_is_distributive_add_other_way(
                    bs,
                    new_max as int,
                    1,
                );
            }
            self.container_bytes.truncate((new_max as usize + 1) * self.block_size);
        }
        proof {
            assert forall|b: int| self.id_used(b) implies self.id_reserved(b) by {
                assert(pre.id_used(b));
                assert(pre.id_reserved(b));
            }
        }
        Ok(Some(old_block))
    }

    /// The fixed block size.
    pub fn block_size(&self) -> (r: usize)
        ensures
            r == self.spec_block_size(),
    {
        self.block_size
    }

    /// The number of reserved ids.
    pub fn size(&self) -> (r: u64)
        ensures
            r == self.spec_reserved().spec_size(),
    {
        self.reserved_bit_map.size()
    }

    /// Whether `id` is at least reserved.
    pub fn contains(&self, id: Id) -> (r: Result<bool, ContainerError>)
        requires
            self.wf(),
        ensures
            r == Ok::<bool, ContainerError>(self.id_reserved(id as int)),
    {
        self.reserved_bit_map.contains(id)
    }

    /// The stored block, if `id` is both reserved and used; `None`
    /// otherwise. Never mutates and never fails.
    pub fn get(&self, id: Id) -> (r: Result<Option<Block>, ContainerError>)
        requires
            self.wf(),
        ensures
            !(self.id_reserved(id as int) && self.id_used(id as int)) ==> r == Ok::<
                Option<Block>,
                ContainerError,
            >(None),
            self.id_reserved(id as int) && self.id_used(id as int) ==> (r matches Ok(Some(b))
                && b@ == self.spec_block(id as int)),
    {
        let is_reserved = match self.reserved_bit_map.contains(id) {
            Ok(b) => b,
            Err(_) => false,
        };
        let is_used = match self.used_bit_map.contains(id) {
            Ok(b) => b,
            Err(_) => false,
        };
        if is_reserved && is_used {
            proof {
                assert(id <= self.spec_used().spec_max());
                vstd::arithmetic::mul::lemma_mul_inequality(
                    id as int + 1,
                    self.spec_used().spec_max() as int + 1,
                    self.spec_block_size() as int,
                );
            }
            let old_block = match read_block(&self.container_bytes, id, self.block_size) {
                Ok(b) => b,
                Err(_) => Vec::new(),
            };
            Ok(Some(old_block))
        } else {
            Ok(None)
        }
    }

    /// Empties the store: the free stack, the used set, the reserved set
    /// and the block image, in that order.
    pub fn clear(&mut self) -> (r: Result<(), ContainerError>)
        requires
            old(self).wf(),
        ensures
            r == Ok::<(), ContainerError>(()),
            final(self).wf(),
            Self::cleared_from(*old(self), *final(self)),
    {
        let _ = self.free_list_file.clear();
        let _ = self.used_bit_map.clear();
        let _ = self.reserved_bit_map.clear();
        self.container_bytes.truncate(0);
        proof {
            assert(self.spec_container() =~= Seq::<u8>::empty());
        }
        Ok(())
    }

    /// How a store looks right after `clear`: empty sets and stack, an
    /// empty block image, the bitmap images cut back to their headers, and
    /// the block size kept.
    pub open spec fn cleared_from(pre: Self, post: Self) -> bool {
        &&& post.spec_free()@ == Seq::<u64>::empty()
        &&& post.spec_free().spec_bytes().len() == 0
        &&& post.spec_used().spec_size() == 0
        &&& post.spec_used().spec_max() == 0
        &&& post.spec_used().spec_bytes() == pre.spec_used().spec_bytes().subrange(0, 16)
        &&& post.spec_reserved().spec_size() == 0
        &&& post.spec_reserved().spec_max() == 0
        &&& post.spec_reserved().spec_bytes() == pre.spec_reserved().spec_bytes().subrange(0, 16)
        &&& post.spec_container().len() == 0
        &&& post.spec_block_size() == pre.spec_block_size()
        &&& forall|b: int| !post.id_reserved(b) && !post.id_used(b)
    }

    /// A cursor over every id that is at least reserved, ascending.
    pub fn reserved_ids(&self) -> (it: ContainsIterator<'_>)
        requires
            self.wf(),
            self.spec_reserved().spec_size() > 0 ==> self.spec_reserved().spec_max() < u64::MAX,
        ensures
            it.wf(),
            it.source() == self.spec_reserved(),
            it.spec_lower() == 0,
            it.spec_upper() == self.spec_reserved().spec_max(),
            it.spec_done() == (self.spec_reserved().spec_size() == 0),
    {
        self.reserved_bit_map.contains_iter()
    }

    /// A cursor over every id that currently holds a value, ascending.
    pub fn used_ids(&self) -> (it: ContainsIterator<'_>)
        requires
            self.wf(),
            self.spec_used().spec_size() > 0 ==> self.spec_used().spec_max() < u64::MAX,
        ensures
            it.wf(),
            it.source() == self.spec_used(),
            it.spec_lower() == 0,
            it.spec_upper() == self.spec_used().spec_max(),
            it.spec_done() == (self.spec_used().spec_size() == 0),
    {
        self.used_bit_map.contains_iter()
    }

    /// What `ids` returns: every id that is at least reserved, each exactly
    /// once, in ascending order.
    pub open spec fn ids_post(self, r: Seq<u64>) -> bool {
        &&& forall|i: int| 0 <= i < r.len() ==> self.id_reserved(#[trigger] r[i] as int)
        &&& forall|b: u64| self.id_reserved(b as int) ==> r.contains(b)
        &&& forall|i: int, j: int| 0 <= i < j < r.len() ==> r[i] < r[j]
    }

    /// Every id that is at least reserved, ascending.
    pub fn ids(&self) -> (r: Vec<Id>)
        requires
            self.wf(),
        ensures
            self.ids_post(r@),
    {
        let mut out: Vec<Id> = Vec::new();
        if self.reserved_bit_map.is_empty() {
            proof {
                if exists|b: u64| self.id_reserved(b as int) {
                    let b = choose|b: u64| self.id_reserved(b as int);
                    assert(!self.id_reserved(b as int));
                }
            }
            return out;
        }
        let max = match self.reserved_bit_map.max_bit() {
            Some(m) => m,
            None => 0,  // the reserved set is known non-empty here
        };
        let mut bit: u64 = 0;
        loop
            invariant_except_break
                self.wf(),
                self.spec_reserved().spec_size() > 0,
                max == self.spec_reserved().spec_max(),
                bit <= max,
                forall|i: int| 0 <= i < out@.len() ==> self.id_reserved(#[trigger] out@[i] as int),
                forall|b: u64| b < bit && self.id_reserved(b as int) ==> out@.contains(b),
                forall|i: int, j: int| 0 <= i < j < out@.len() ==> out@[i] < out@[j],
                forall|i: int| 0 <= i < out@.len() ==> out@[i] < bit,
            ensures
                self.wf(),
                forall|i: int| 0 <= i < out@.len() ==> self.id_reserved(#[trigger] out@[i] as int),
                forall|b: u64|
                    b <= self.spec_reserved().spec_max() && self.id_reserved(b as int)
                        ==> out@.contains(b),
                forall|i: int, j: int| 0 <= i < j < out@.len() ==> out@[i] < out@[j],
            decreases max - bit,
        {
            let present = match self.reserved_bit_map.contains(bit) {
                Ok(b) => b,
                Err(_) => false,
            };
            if present {
                let ghost out0 = out@;
                out.push(bit);
                proof {
                    assert forall|b: u64| b <= bit && self.id_reserved(b as int) implies
                        out@.contains(b) by {
                        if b < bit {
                            let i = choose|i: int| 0 <= i < out0.len() && out0[i] == b;
                            assert(out@[i] == b);
                        } else {
                            assert(out@[out@.len() - 1] == b);
                        }
                    }
                }
            }
            if bit == max {
                break ;
            }
            bit += 1;
        }
        proof {
            assert forall|b: u64| self.id_reserved(b as int) implies out@.contains(b) by {
                assert(b <= self.spec_reserved().spec_max());
            }
        }
        out
    }

    /// Reassembles a store from arbitrary images, checking that they belong
    /// together: both bitmaps and the stack pass validation, every used id
    /// is also reserved, and the block image covers exactly the blocks up
    /// to the highest used id. On any mismatch nothing is built: `Some` is
    /// returned exactly when the parts form a well-formed store.
    pub fn try_from_parts(
        container_bytes: Vec<u8>,
        reserved: BitSetFile,
        used: BitSetFile,
        free: StackFile,
        block_size: usize,
    ) -> (r: Option<Self>)
        ensures
            r matches Some(c) ==> {
                &&& c.wf()
                &&& c.spec_container() == container_bytes@
                &&& c.spec_reserved() == reserved
                &&& c.spec_used() == used
                &&& c.spec_free() == free
                &&& c.spec_block_size() == block_size
            },
            r is None ==> !{
                &&& reserved.wf()
                &&& used.wf()
                &&& free.wf()
                &&& block_size >= 1
                &&& (forall|b: int| used.spec_has(b) ==> reserved.spec_has(b))
                &&& container_bytes@.len() == (if used.spec_size() == 0 {
                    0int
                } else {
                    (used.spec_max() + 1) * block_size
                })
            },
    {
        if block_size == 0 {
            return None;
        }
        if !reserved.validate() {
            return None;
        }
        if !used.validate() {
            return None;
        }
        if !free.validate() {
            return None;
        }
        let n = container_bytes.len();
        match used.max_bit() {
            None => {
                if n != 0 {
                    return None;
                }
            },
            Some(umax) => {
                // Every used id must be reserved.
                let mut bit: u64 = 0;
                loop
                    invariant_except_break
                        used.wf(),
                        reserved.wf(),
                        used.spec_size() > 0,
                        umax == used.spec_max(),
                        bit <= umax,
                        forall|b: int|
                            b < bit && used.spec_has(b) ==> reserved.spec_has(b),
                    ensures
                        forall|b: int| used.spec_has(b) ==> reserved.spec_has(b),
                    decreases umax - bit,
                {
                    let is_used = match used.contains(bit) {
                        Ok(v) => v,
                        Err(_) => false,
                    };
                    if is_used {
                        let is_reserved = match reserved.contains(bit) {
                            Ok(v) => v,
                            Err(_) => false,
                        };
                        if !is_reserved {
                            return None;
                        }
                    }
                    if bit == umax {
                        proof {
                            assert forall|b: int| used.spec_has(b) implies reserved.spec_has(
                                b,
                            ) by {
                                assert(b <= used.spec_max());
                            }
                        }
                        break ;
                    }
                    bit += 1;
                }
                // The block image must cover exactly the blocks up to the
                // highest used id.
                proof {
                    vstd::std_specs::vec::axiom_spec_len(&container_bytes);
                }
                if umax >= (usize::MAX as u64) / (block_size as u64) {
                    proof {
                        let m = usize::MAX as int;
                        vstd::arithmetic::div_mod::lemma_fundamental_div_mod(m, block_size as int);
                        vstd::arithmetic::mul::lemma_mul_inequality(
                            m / block_size as int + 1,
                            umax as int + 1,
                            block_size as int,
                        );
                        vstd::arithmetic::mul::lemma_mul_is_distributive_add_other_way(
                            block_size as int,
                            m / block_size as int,
                            1,
                        );
                        assert((umax + 1) * block_size > usize::MAX);
                    }
                    return None;
                }
                proof {
                    let m = usize::MAX as int;
                    vstd::arithmetic::div_mod::lemma_fundamental_div_mod(m, block_size as int);
                    vstd::arithmetic::mul::lemma_mul_inequality(
                        umax as int + 1,
                        m / block_size as int,
                        block_size as int,
                    );
                }
                let expected = ((umax as usize) + 1) * block_size;
                if n != expected {
                    return None;
                }
            },
        }
        Some(
            BlockFileContainer {
                container_bytes,
                reserved_bit_map: reserved,
                used_bit_map: used,
                free_list_file: free,
                block_size,
            },
        )
    }

    /// Borrows the block-file image, for the embedding program to persist.
    pub fn container_bytes(&self) -> (r: &Vec<u8>)
        ensures
            r@ == self.spec_container(),
    {
        &self.container_bytes
    }

    /// Borrows the reserved-set bitmap.
    pub fn reserved_map(&self) -> (r: &BitSetFile)
        ensures
            *r == self.spec_reserved(),
    {
        &self.reserved_bit_map
    }

    /// Borrows the used-set bitmap.
    pub fn used_map(&self) -> (r: &BitSetFile)
        ensures
            *r == self.spec_used(),
    {
        &self.used_bit_map
    }

    /// Borrows the free-id stack.
    pub fn free_list(&self) -> (r: &StackFile)
        ensures
            *r == self.spec_free(),
    {
        &self.free_list_file
    }

    /// Rewrites both bitmap headers, as the embedding program does right
    /// before persisting the images.
    pub fn sync_headers(&mut self)
        requires
            old(self).wf(),
        ensures
            final(self).wf(),
            final(self).spec_block_size() == old(self).spec_block_size(),
            final(self).spec_container() == old(self).spec_container(),
            final(self).free_view() == old(self).free_view(),
            forall|b: int| final(self).id_reserved(b) == old(self).id_reserved(b),
            forall|b: int| final(self).id_used(b) == old(self).id_used(b),
            final(self).spec_reserved().spec_size() == old(self).spec_reserved().spec_size(),
            final(self).spec_used().spec_size() == old(self).spec_used().spec_size(),
            final(self).spec_reserved().spec_max() == old(self).spec_reserved().spec_max(),
            final(self).spec_used().spec_max() == old(self).spec_used().spec_max(),
            crate::bitsetfile::valid_image(final(self).spec_reserved().spec_bytes()),
            crate::bitsetfile::valid_image(final(self).spec_used().spec_bytes()),
    {
        self.reserved_bit_map.write_header();
        self.used_bit_map.write_header();
        proof {
            assert forall|b: int| self.id_used(b) implies self.id_reserved(b) by {
                assert(self.spec_used().spec_has(b) == old(self).spec_used().spec_has(b));
                assert(old(self).id_used(b));
                assert(old(self).id_reserved(b));
                assert(self.spec_reserved().spec_has(b) == old(self).spec_reserved().spec_has(b));
            }
        }
    }
}

impl Container<Block> for BlockFileContainer {
    type I = Id;

    open spec fn inv(&self) -> bool {
        self.wf()
    }

    open spec fn can_reserve(&self) -> bool {
        BlockFileContainer::can_reserve(*self)
    }

    open spec fn can_update(&self, id: Id) -> bool {
        BlockFileContainer::can_update(*self, id as int)
    }

    open spec fn can_remove(&self) -> bool {
        BlockFileContainer::can_remove(*self)
    }

    open spec fn can_insert(&self, element: &Block) -> bool {
        &&& BlockFileContainer::can_reserve(*self)
        &&& (self.reserve_choice() + 1) * self.spec_block_size() <= usize::MAX
        &&& self.spec_used().spec_size() < u64::MAX
    }

    open spec fn reserve_post(pre: Self, post: Self, r: Result<Id, ContainerError>) -> bool {
        &&& r == Ok::<Id, ContainerError>(pre.reserve_choice())
        &&& post.id_reserved(pre.reserve_choice() as int)
        &&& forall|b: int|
            post.id_reserved(b) == (pre.id_reserved(b) || b == pre.reserve_choice())
        &&& post.free_view() == pre.free_after_reserve()
        &&& post.spec_used() == pre.spec_used()
        &&& post.spec_container() == pre.spec_container()
        &&& post.spec_block_size() == pre.spec_block_size()
    }

    open spec fn insert_post(pre: Self, post: Self, element: Block, r: Result<Id, ContainerError>) -> bool {
        let id = pre.reserve_choice();
        &&& forall|b: int| post.id_reserved(b) == (pre.id_reserved(b) || b == id)
        &&& post.spec_reserved().spec_size() == pre.spec_reserved().spec_size() + (
        if pre.id_reserved(id as int) {
            0int
        } else {
            1int
        })
        &&& post.spec_reserved().spec_max() == (if pre.spec_reserved().spec_size() == 0 || id
            > pre.spec_reserved().spec_max() {
            id
        } else {
            pre.spec_reserved().spec_max()
        })
        &&& post.free_view() == pre.free_after_reserve()
        &&& post.spec_block_size() == pre.spec_block_size()
        &&& if element@.len() <= pre.spec_block_size() {
            &&& r == Ok::<Id, ContainerError>(id)
            &&& forall|b: int| post.id_used(b) == (pre.id_used(b) || b == id)
            &&& post.spec_used().spec_size() == pre.spec_used().spec_size() + (
            if pre.id_used(id as int) {
                0int
            } else {
                1int
            })
            &&& post.spec_used().spec_max() == (if pre.spec_used().spec_size() == 0 || id
                > pre.spec_used().spec_max() {
                id
            } else {
                pre.spec_used().spec_max()
            })
            &&& post.resident_block(id as int) == element@ + pre.resident_block(id as int).skip(
                element@.len() as int,
            )
            &&& forall|j: int|
                0 <= j && j != id ==> post.resident_block(j) == pre.resident_block(j)
        } else {
            // the payload was rejected after the id had been reserved
            &&& r == Err::<Id, ContainerError>(ContainerError::Io)
            &&& post.spec_used().spec_bytes() == pre.spec_used().spec_bytes()
            &&& post.spec_used().spec_size() == pre.spec_used().spec_size()
            &&& post.spec_used().spec_max() == pre.spec_used().spec_max()
            &&& post.spec_container() == pre.spec_container()
        }
    }

    open spec fn update_post(
        pre: Self,
        post: Self,
        id: Id,
        element: Block,
        r: Result<Option<Block>, ContainerError>,
    ) -> bool {
        if !pre.id_reserved(id as int) {
            &&& r == Err::<Option<Block>, ContainerError>(ContainerError::InvalidId)
            &&& Self::unchanged_state(pre, post)
        } else if element@.len() > pre.spec_block_size() {
            &&& r == Err::<Option<Block>, ContainerError>(ContainerError::Io)
            &&& Self::unchanged_state(pre, post)
        } else {
            &&& (if pre.id_used(id as int) {
                r matches Ok(Some(b)) && b@ == pre.spec_block(id as int)
            } else {
                r == Ok::<Option<Block>, ContainerError>(None)
            })
            &&& forall|b: int| post.id_used(b) == (pre.id_used(b) || b == id)
            &&& post.spec_reserved() == pre.spec_reserved()
            &&& post.spec_free() == pre.spec_free()
            &&& post.spec_block_size() == pre.spec_block_size()
            &&& post.resident_block(id as int) == element@ + pre.resident_block(id as int).skip(
                element@.len() as int,
            )
            &&& forall|j: int|
                0 <= j && j != id ==> post.resident_block(j) == pre.resident_block(j)
        }
    }

    open spec fn remove_post(pre: Self, post: Self, id: Id, r: Result<Option<Block>, ContainerError>) -> bool {
        if !pre.id_reserved(id as int) {
            &&& r == Err::<Option<Block>, ContainerError>(ContainerError::InvalidId)
            &&& Self::unchanged_state(pre, post)
        } else {
            &&& forall|b: int| post.id_reserved(b) == (pre.id_reserved(b) && b != id)
            &&& post.spec_block_size() == pre.spec_block_size()
            &&& if !pre.id_used(id as int) {
                &&& r == Ok::<Option<Block>, ContainerError>(None)
                &&& post.spec_used().spec_bytes() == pre.spec_used().spec_bytes()
                &&& post.spec_used().spec_size() == pre.spec_used().spec_size()
                &&& post.spec_free() == pre.spec_free()
                &&& post.spec_container() == pre.spec_container()
            } else {
                &&& (r matches Ok(Some(b)) && b@ == pre.spec_block(id as int))
                &&& forall|b: int| post.id_used(b) == (pre.id_used(b) && b != id)
                &&& (if pre.spec_used().spec_size() == 1 {
                    post.free_view().len() == 0 && post.spec_container().len() == 0
                } else {
                    post.free_view() == pre.free_view().push(id)
                })
            }
        }
    }

    open spec fn clear_post(pre: Self, post: Self) -> bool {
        Self::cleared_from(pre, post)
    }

    open spec fn contains_post(&self, id: Id, r: bool) -> bool {
        r == self.id_reserved(id as int)
    }

    open spec fn ids_post(&self, r: Seq<Id>) -> bool {
        BlockFileContainer::ids_post(*self, r)
    }

    fn reserve(&mut self) -> (r: Result<Id, ContainerError>) {
        BlockFileContainer::reserve(self)
    }

    fn insert(&mut self, element: Block) -> (r: Result<Id, ContainerError>) {
        let ghost pre = *old(self);
        let id = match BlockFileContainer::reserve(self) {
            Ok(id) => id,
            Err(e) => {
                return Err(e);
            },
        };
        let ghost mid = *self;
        proof {
            assert(id == pre.reserve_choice());
            assert forall|b: int| mid.id_used(b) == pre.id_used(b) by {}
            assert(mid.resident_block(id as int) == pre.resident_block(id as int));
            assert(mid.can_update(id as int));
        }
        let ur = BlockFileContainer::update(self, id, element);
        proof {
            let post = *self;
            assert forall|b: int|
                post.id_reserved(b) == (pre.id_reserved(b) || b == id) by {
                assert(post.id_reserved(b) == mid.id_reserved(b));
            }
            if element@.len() <= pre.spec_block_size() {
                assert forall|b: int| post.id_used(b) == (pre.id_used(b) || b == id) by {
                    assert(post.id_used(b) == (mid.id_used(b) || b == id));
                }
                assert(mid.spec_used().spec_size() == pre.spec_used().spec_size());
                assert(mid.spec_used().spec_max() == pre.spec_used().spec_max());
                assert(mid.id_used(id as int) == pre.id_used(id as int));
                assert(post.spec_reserved() == mid.spec_reserved());
                assert forall|j: int| 0 <= j && j != id implies post.resident_block(j)
                    == pre.resident_block(j) by {
                    assert(post.resident_block(j) == mid.resident_block(j));
                    assert(mid.resident_block(j) == pre.resident_block(j));
                }
            } else {
                assert forall|b: int| post.id_reserved(b) == mid.id_reserved(b) by {}
                assert(post.spec_reserved().spec_size() == mid.spec_reserved().spec_size());
                assert(post.spec_reserved().spec_max() == mid.spec_reserved().spec_max());
            }
        }
        match ur {
            Ok(_) => Ok(id),
            Err(e) => Err(e),
        }
    }

    fn update(&mut self, id: Id, new_element: Block) -> (r: Result<Option<Block>, ContainerError>) {
        BlockFileContainer::update(self, id, new_element)
    }

    fn remove(&mut self, id: Id) -> (r: Result<Option<Block>, ContainerError>) {
        BlockFileContainer::remove(self, id)
    }

    fn contains(&mut self, id: Id) -> (r: Result<bool, ContainerError>) {
        BlockFileContainer::contains(self, id)
    }

    fn ids(&self) -> (r: Vec<Id>) {
        BlockFileContainer::ids(self)
    }

    fn clear(&mut self) -> (r: Result<(), ContainerError>) {
        BlockFileContainer::clear(self)
    }
}

impl CloneContainer<Block> for BlockFileContainer {
    open spec fn get_clone_post(&self, id: Id, r: Result<Option<Block>, ContainerError>) -> bool {
        if self.id_reserved(id as int) && self.id_used(id as int) {
            r matches Ok(Some(b)) && b@ == self.spec_block(id as int)
        } else {
            r == Ok::<Option<Block>, ContainerError>(None)
        }
    }

    fn get_clone(&mut self, id: Id) -> (r: Result<Option<Block>, ContainerError>) {
        BlockFileContainer::get(self, id)
    }
}

/// `contains` agrees with membership in the most recently observed `ids`
/// result: whatever sequence `ids` returned for the current state, an id is
/// in it exactly when it is at least reserved, which is exactly when
/// `contains` answers true.
pub proof fn lemma_contains_iff_ids(c: BlockFileContainer, listed: Seq<u64>, id: u64)
    requires
        c.ids_post(listed),
    ensures
        listed.contains(id) == c.id_reserved(id as int),
{
    if listed.contains(id) {
        let i = choose|i: int| 0 <= i < listed.len() && listed[i] == id;
        assert(c.id_reserved(listed[i] as int));
    }
}

/// Round trip: after an `update` of a payload that fits, the id is used and
/// its stored block is the payload followed by the block's prior residual
/// bytes, which is exactly what `get` then returns.
pub proof fn lemma_update_then_get(
    pre: BlockFileContainer,
    post: BlockFileContainer,
    id: u64,
    element: Seq<u8>,
)
    requires
        pre.wf(),
        post.wf(),
        pre.id_reserved(id as int),
        element.len() <= pre.spec_block_size(),
        forall|b: int| post.id_used(b) == (pre.id_used(b) || b == id),
        post.spec_reserved() == pre.spec_reserved(),
        post.spec_block_size() == pre.spec_block_size(),
        post.resident_block(id as int) == element + pre.resident_block(id as int).skip(
            element.len() as int,
        ),
    ensures
        post.id_reserved(id as int),
        post.id_used(id as int),
        post.spec_block(id as int) == element + pre.resident_block(id as int).skip(
            element.len() as int,
        ),
{
    assert(post.id_used(id as int));
    if post.spec_used().spec_size() == 0 {
        assert(post.spec_used().spec_bytes().len() == 16);
        assert(!post.id_used(id as int));
    }
    assert(id <= post.spec_used().spec_max());
    vstd::arithmetic::mul::lemma_mul_inequality(
        id as int + 1,
        post.spec_used().spec_max() as int + 1,
        post.spec_block_size() as int,
    );
    assert((id as int + 1) * post.spec_block_size() <= post.spec_container().len());
}

/// Clear is idempotent: a second `clear` recreates byte for byte the state
/// the first one left, and that state is empty in every observable way.
pub proof fn lemma_clear_idempotent(
    c0: BlockFileContainer,
    c1: BlockFileContainer,
    c2: BlockFileContainer,
)
    requires
        c0.wf(),
        BlockFileContainer::cleared_from(c0, c1),
        BlockFileContainer::cleared_from(c1, c2),
    ensures
        c1.spec_reserved().spec_size() == 0,
        forall|b: int| !c1.id_reserved(b) && !c1.id_used(b),
        c2.spec_reserved().spec_bytes() == c1.spec_reserved().spec_bytes(),
        c2.spec_used().spec_bytes() == c1.spec_used().spec_bytes(),
        c2.spec_container() == c1.spec_container(),
        c2.free_view() == c1.free_view(),
        c2.spec_free().spec_bytes() == c1.spec_free().spec_bytes(),
        c2.spec_reserved().spec_size() == c1.spec_reserved().spec_size(),
        c2.spec_used().spec_size() == c1.spec_used().spec_size(),
        c2.spec_reserved().spec_max() == c1.spec_reserved().spec_max(),
        c2.spec_used().spec_max() == c1.spec_used().spec_max(),
        c2.spec_block_size() == c1.spec_block_size(),
{
    assert(c1.spec_reserved().spec_bytes().len() == 16);
    assert(c1.spec_used().spec_bytes().len() == 16);
    assert(c2.spec_reserved().spec_bytes() =~= c1.spec_reserved().spec_bytes());
    assert(c2.spec_used().spec_bytes() =~= c1.spec_used().spec_bytes());
    assert(c2.spec_container() =~= c1.spec_container());
    assert(c2.free_view() =~= c1.free_view());
    assert(c2.spec_free().spec_bytes() =~= c1.spec_free().spec_bytes());
}

/// Monotonic id assignment: with an empty free stack and exactly the ids
/// below `n` reserved — the state the `n`-th `reserve` call on a fresh
/// store finds, as long as nothing was removed — `reserve` chooses exactly
/// `n`.
pub proof fn lemma_reserve_monotonic(c: BlockFileContainer, n: u64)
    requires
        c.wf(),
        c.free_view().len() == 0,
        forall|b: int| c.id_reserved(b) == (0 <= b < n),
    ensures
        c.reserve_choice() == n,
{
    if n == 0 {
        if c.spec_reserved().spec_size() != 0 {
            assert(c.id_reserved(c.spec_reserved().spec_max() as int));
        }
    } else {
        assert(c.id_reserved(n - 1));
        assert(c.spec_reserved().spec_size() != 0);
        let m = c.spec_reserved().spec_max();
        assert(c.id_reserved(m as int));
        assert(m == n - 1);
        assert(free_pick(c.free_view(), m) is None);
    }
}

/// Recycling: right after a `remove` pushed a freed id that lies strictly
/// below the highest reserved id, the next `reserve` adopts exactly that
/// id from the top of the free stack.
pub proof fn lemma_reserve_recycles(c: BlockFileContainer, id: u64)
    requires
        c.wf(),
        c.spec_reserved().spec_size() > 0,
        c.free_view().len() > 0,
        c.free_view().last() == id,
        id < c.spec_reserved().spec_max(),
    ensures
        c.reserve_choice() == id,
{
}

} // verus!


