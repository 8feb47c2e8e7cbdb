//! A bump arena of bytes: allocations are appended to the current block, a
//! new and larger block is started when the current one is full, and nothing
//! is freed until the whole arena is dropped.
use vstd::prelude::*;

verus! {

/// Where an allocation lives: `len` bytes from `offset` in block `block`.
#[derive(Clone, Copy, Debug, PartialEq, Eq, Structural)]
pub struct ArenaSlice {
    pub block: usize,
    pub offset: usize,
    pub len: usize,
}

struct Block {
    data: Vec<u8>,
    capacity: usize,
}

/// A bump allocator over a growing list of fixed-capacity blocks.
pub struct Arena {
    data: Vec<Block>,
}

/// The bytes needed after `len` to reach a multiple of `align`.
pub open spec fn padding(len: nat, align: nat) -> nat {
    ((align - len % align) % align as int) as nat
}

/// The capacity of the block started when a request of `bytes` does not fit
/// a block of `capacity`: twice the larger of the two, saturating.
pub open spec fn grown_capacity(capacity: usize, bytes: usize) -> usize {
    let size = if capacity >= bytes {
        capacity
    } else {
        bytes
    };
    if 2 * size > usize::MAX {
        usize::MAX
    } else {
        (2 * size) as usize
    }
}

pub open spec fn zeros(n: nat) -> Seq<u8> {
    Seq::new(n, |i: int| 0u8)
}

impl Arena {
    /// The contents of each block, oldest first.
    pub closed spec fn blocks(&self) -> Seq<Seq<u8>> {
        self.data@.map_values(|b: Block| b.data@)
    }

    /// The capacity of each block, oldest first.
    pub closed spec fn capacities(&self) -> Seq<usize> {
        self.data@.map_values(|b: Block| b.capacity)
    }

    /// The arena's invariant: there is a current block, and no block holds
    /// more than its capacity.
    pub open spec fn wf(&self) -> bool {
        &&& self.blocks().len() >= 1
        &&& self.capacities().len() == self.blocks().len()
        &&& forall|i: int|
            0 <= i < self.blocks().len() ==> #[trigger] self.blocks()[i].len()
                <= self.capacities()[i]
    }

    /// The bytes used in the current block.
    pub open spec fn used(&self) -> nat {
        self.blocks().last().len()
    }

    /// Whether `bytes` more, aligned to `align`, fit in the current block.
    pub open spec fn fits(&self, bytes: usize, align: usize) -> bool {
        self.used() + padding(self.used(), align as nat) + bytes <= self.capacities().last()
    }

    /// Where an allocation of `bytes` aligned to `align` lands.
    pub open spec fn next_slice(&self, bytes: usize, align: usize) -> ArenaSlice {
        if self.fits(bytes, align) {
            ArenaSlice {
                block: (self.blocks().len() - 1) as usize,
                offset: (self.used() + padding(self.used(), align as nat)) as usize,
                len: bytes,
            }
        } else {
            ArenaSlice { block: self.blocks().len() as usize, offset: 0, len: bytes }
        }
    }

    /// The block contents after allocating `fill.len()` bytes aligned to
    /// `align` and writing `fill` there.
    pub open spec fn blocks_after(&self, align: usize, fill: Seq<u8>) -> Seq<Seq<u8>> {
        if self.fits(fill.len() as usize, align) {
            self.blocks().update(
                self.blocks().len() - 1,
                self.blocks().last() + zeros(padding(self.used(), align as nat)) + fill,
            )
        } else {
            self.blocks().push(fill)
        }
    }

    /// The block capacities after allocating `bytes` aligned to `align`.
    pub open spec fn capacities_after(&self, bytes: usize, align: usize) -> Seq<usize> {
        if self.fits(bytes, align) {
            self.capacities()
        } else {
            self.capacities().push(grown_capacity(self.capacities().last(), bytes))
        }
    }

    /// An arena whose first block holds `capacity` bytes.
    pub fn with_capacity(capacity: usize) -> (a: Arena)
        ensures
            a.wf(),
            a.blocks() == seq![Seq::<u8>::empty()],
            a.capacities() == seq![capacity],
    {
        let mut data: Vec<Block> = Vec::new();
        data.push(Block { data: Vec::with_capacity(capacity), capacity });
        let a = Arena { data };
        assert(a.blocks() =~= seq![Seq::<u8>::empty()]);
        assert(a.capacities() =~= seq![capacity]);
        a
    }

    /// The number of blocks.
    pub fn num_blocks(&self) -> (r: usize)
        ensures
            r == self.blocks().len(),
    {
        self.data.len()
    }

    /// Reserves room for `bytes` bytes aligned to `align`, padding the target
    /// block up to the aligned offset; the payload is for the caller to append.
    fn reserve(&mut self, bytes: usize, align: usize) -> (r: ArenaSlice)
        requires
            old(self).wf(),
            align > 0,
        ensures
            r == old(self).next_slice(bytes, align),
            final(self).capacities() == old(self).capacities_after(bytes, align),
            final(self).blocks().len() == r.block + 1,
            final(self).data@.len() == r.block + 1,
            final(self).blocks() == (if old(self).fits(bytes, align) {
                old(self).blocks().update(
                    r.block as int,
                    old(self).blocks().last() + zeros(padding(old(self).used(), align as nat)),
                )
            } else {
                old(self).blocks().push(Seq::<u8>::empty())
            }),
            final(self).blocks()[r.block as int].len() == r.offset,
            r.offset + bytes <= final(self).capacities()[r.block as int],
            forall|i: int|
                0 <= i < r.block ==> #[trigger] final(self).blocks()[i].len()
                    <= final(self).capacities()[i],
    {
        let last = self.data.len() - 1;
        let ghost old_blocks = self.blocks();
        let ghost old_caps = self.capacities();
        let ghost old_data = self.data@;
        let len = self.data[last].data.len();
        let capacity = self.data[last].capacity;
        assert(old_blocks[last as int] == old_data[last as int].data@);
        assert(old_blocks[last as int].len() <= old_caps[last as int]);
        let pad = (align - len % align) % align;
        let avail = capacity - len;
        if pad <= avail && bytes <= avail - pad {
            let mut block = match self.data.pop() {
                Some(b) => b,
                None => vstd::pervasive::unreached(),
            };
            let mut i: usize = 0;
            let ghost start = block.data@;
            while i < pad
                invariant
                    i <= pad,
                    block.data@ == start + zeros(i as nat),
                    block.capacity == old_data[last as int].capacity,
                decreases pad - i,
            {
                block.data.push(0u8);
                i = i + 1;
                assert(block.data@ =~= start + zeros(i as nat));
            }
            assert(block.capacity == old_data[last as int].capacity);
            self.data.push(block);
            proof {
                assert(self.data@ =~= old_data.update(last as int, block));
                assert(self.blocks() =~= old_blocks.update(
                    last as int,
                    old_blocks.last() + zeros(pad as nat),
                ));
                assert(self.capacities() =~= old_caps);
            }
            ArenaSlice { block: last, offset: len + pad, len: bytes }
        } else {
            let size = if capacity >= bytes {
                capacity
            } else {
                bytes
            };
            let grown = size.saturating_add(size);
            self.data.push(Block { data: Vec::with_capacity(grown), capacity: grown });
            proof {
                assert(self.blocks() =~= old_blocks.push(Seq::<u8>::empty()));
                assert(self.capacities() =~= old_caps.push(grown));
            }
            ArenaSlice { block: last + 1, offset: 0, len: bytes }
        }
    }

    /// Appends `fill` to the last block.
    fn append_last(&mut self, fill: &[u8])
        requires
            old(self).data@.len() >= 1,
        ensures
            final(self).capacities() == old(self).capacities(),
            final(self).blocks() == old(self).blocks().update(
                old(self).blocks().len() - 1,
                old(self).blocks().last() + fill@,
            ),
    {
        let ghost old_blocks = self.blocks();
        let ghost old_caps = self.capacities();
        let ghost old_data = self.data@;
        let mut block = match self.data.pop() {
            Some(b) => b,
            None => vstd::pervasive::unreached(),
        };
        let ghost start = block.data@;
        let mut i: usize = 0;
        while i < fill.len()
            invariant
                i <= fill@.len(),
                block.data@ == start + fill@.subrange(0, i as int),
                block.capacity == old_data.last().capacity,
            decreases fill@.len() - i,
        {
            block.data.push(fill[i]);
            i = i + 1;
            assert(block.data@ =~= start + fill@.subrange(0, i as int));
        }
        assert(fill@.subrange(0, fill@.len() as int) =~= fill@);
        assert(block.capacity == old_data.last().capacity);
        self.data.push(block);
        assert(self.data@ =~= old_data.update(old_data.len() - 1, block));
        assert(self.blocks() =~= old_blocks.update(
            old_blocks.len() - 1,
            old_blocks.last() + fill@,
        ));
        assert(self.capacities() =~= old_caps);
    }

    /// Allocates `bytes` zeroed bytes aligned to `align`: in the current block
    /// if they fit after the padding, else at the start of a new block of
    /// `grown_capacity` bytes.
    pub fn alloc_bytes(&mut self, bytes: usize, align: usize) -> (r: ArenaSlice)
        requires
            old(self).wf(),
            align > 0,
        ensures
            final(self).wf(),
            r == old(self).next_slice(bytes, align),
            r.offset % align == 0,
            final(self).blocks() == old(self).blocks_after(align, zeros(bytes as nat)),
            final(self).capacities() == old(self).capacities_after(bytes, align),
    {
        let mut z: Vec<u8> = Vec::new();
        let mut i: usize = 0;
        while i < bytes
            invariant
                i <= bytes,
                z@ == zeros(i as nat),
            decreases bytes - i,
        {
            z.push(0u8);
            i = i + 1;
            assert(z@ =~= zeros(i as nat));
        }
        self.alloc_slice(z.as_slice(), align)
    }

    /// Copies `values` into the arena at an offset aligned to `align`.
    pub fn alloc_slice(&mut self, values: &[u8], align: usize) -> (r: ArenaSlice)
        requires
            old(self).wf(),
            align > 0,
        ensures
            final(self).wf(),
            r == old(self).next_slice(values@.len() as usize, align),
            r.offset % align == 0,
            final(self).blocks() == old(self).blocks_after(align, values@),
            final(self).capacities() == old(self).capacities_after(values@.len() as usize, align),
    {
        let ghost a = *self;
        let r = self.reserve(values.len(), align);
        proof {
            let u = a.used() as int;
            let al = align as int;
            if a.fits(values.len(), align) {
                assert((u + (al - u % al) % al) % al == 0) by (nonlinear_arith)
                    requires
                        al > 0,
                        u >= 0,
                ;
            }
        }
        self.append_last(values);
        proof {
            if a.fits(values.len(), align) {
                assert(self.blocks() =~= a.blocks_after(align, values@));
            } else {
                assert(self.blocks() =~= a.blocks_after(align, values@));
            }
        }
        r
    }

    /// A copy of the bytes at `slice`.
    pub fn read(&self, slice: ArenaSlice) -> (r: Vec<u8>)
        requires
            slice.block < self.blocks().len(),
            slice.offset + slice.len <= self.blocks()[slice.block as int].len(),
        ensures
            r@ == self.blocks()[slice.block as int].subrange(
                slice.offset as int,
                slice.offset + slice.len,
            ),
    {
        let data = &self.data[slice.block].data;
        assert(data@ == self.blocks()[slice.block as int]);
        let n = data.len();
        let mut r: Vec<u8> = Vec::new();
        let mut i: usize = 0;
        while i < slice.len
            invariant
                i <= slice.len,
                slice.offset + slice.len <= data@.len(),
                n == data@.len(),
                slice.block < self.blocks().len(),
                data@ == self.blocks()[slice.block as int],
                r@ == data@.subrange(slice.offset as int, slice.offset + i),
            decreases slice.len - i,
        {
            r.push(data[slice.offset + i]);
            i = i + 1;
            assert(r@ =~= data@.subrange(slice.offset as int, slice.offset + i));
        }
        r
    }
}

/// An allocation never disturbs earlier ones: every block keeps its contents
/// as a prefix. When the request does not fit after the current block's
/// padding, a new block is appended whose capacity holds the request.
pub proof fn lemma_alloc_keeps_earlier(a: Arena, align: usize, fill: Seq<u8>)
    requires
        a.wf(),
        align > 0,
        fill.len() <= usize::MAX,
    ensures
        a.blocks_after(align, fill).len() >= a.blocks().len(),
        forall|i: int|
            0 <= i < a.blocks().len() ==> #[trigger] a.blocks_after(align, fill)[i].subrange(
                0,
                a.blocks()[i].len() as int,
            ) == a.blocks()[i],
        !a.fits(fill.len() as usize, align) ==> {
            &&& a.blocks_after(align, fill).len() == a.blocks().len() + 1
            &&& a.capacities_after(fill.len() as usize, align).last() >= fill.len()
            &&& a.capacities_after(fill.len() as usize, align).last() >= a.capacities().last()
        },
{
    let after = a.blocks_after(align, fill);
    assert forall|i: int| 0 <= i < a.blocks().len() implies #[trigger] after[i].subrange(
        0,
        a.blocks()[i].len() as int,
    ) == a.blocks()[i] by {
        assert(after[i].subrange(0, a.blocks()[i].len() as int) =~= a.blocks()[i]);
    }
}

} // verus!
