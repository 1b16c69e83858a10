//! Freelist allocator: a region split into fixed 64-byte slots.
//!
//! The region is described by a base address and a length that is a whole
//! multiple of [`BLOCK_SIZE`]. Free slots are kept on a stack; allocation
//! pops a slot, deallocation pushes it back. A request larger than one slot
//! always fails, so every successful allocation returns exactly one slot.

use vstd::prelude::*;

verus! {

/// Fixed slot size in bytes; one allocation can never serve more than this.
pub const BLOCK_SIZE: usize = 64;

/// Construction parameters for [`FreelistAlloc`]: the base address of the
/// caller-owned byte region and its length in bytes.
#[derive(Clone, Copy)]
pub struct FreelistAllocParam {
    pub base_addr: usize,
    pub len: usize,
}

impl FreelistAllocParam {
    pub fn new(base_addr: usize, len: usize) -> (p: Self)
        ensures
            p.base_addr == base_addr,
            p.len == len,
    {
        FreelistAllocParam { base_addr, len }
    }

    /// What `FreelistAlloc::new` demands of the parameters: a non-null base,
    /// a length that is a positive whole number of slots, and a region that
    /// fits in the address space.
    pub open spec fn valid(self) -> bool {
        &&& self.base_addr >= 1
        &&& self.len >= BLOCK_SIZE
        &&& self.len % BLOCK_SIZE == 0
        &&& self.base_addr + self.len <= usize::MAX
    }
}

/// A fixed-slot allocator over one contiguous byte region.
pub struct FreelistAlloc {
    /// First address of the region.
    base_addr: usize,
    /// One past the last address of the region.
    end_addr: usize,
    /// Stack of free slot addresses; allocation pops from the top.
    free: Vec<usize>,
    /// The bytes of the region.
    mem: Vec<u8>,
    /// Slot addresses handed out and not yet returned.
    live: Ghost<Seq<usize>>,
}

impl FreelistAlloc {
    /// First address of the region.
    pub closed spec fn base_spec(self) -> usize {
        self.base_addr
    }

    /// One past the last address of the region.
    pub closed spec fn end_spec(self) -> usize {
        self.end_addr
    }

    /// The stack of free slot addresses; the last element is allocated next.
    pub closed spec fn free_slots(self) -> Seq<usize> {
        self.free@
    }

    /// The slot addresses currently handed out.
    pub closed spec fn live_slots(self) -> Seq<usize> {
        self.live@
    }

    /// The bytes of the region, indexed from `base_spec()`.
    pub closed spec fn mem_bytes(self) -> Seq<u8> {
        self.mem@
    }

    /// `p` is the address of a whole slot inside the region.
    pub open spec fn slot_ok(self, p: usize) -> bool {
        &&& self.base_spec() <= p
        &&& p + BLOCK_SIZE <= self.end_spec()
        &&& (p - self.base_spec()) % (BLOCK_SIZE as int) == 0
    }

    /// Region well-formedness: every slot address on the free stack or handed
    /// out is a distinct whole slot, and together they account for every slot
    /// of the region.
    pub open spec fn wf(self) -> bool {
        &&& 1 <= self.base_spec() < self.end_spec() <= usize::MAX
        &&& (self.end_spec() - self.base_spec()) % (BLOCK_SIZE as int) == 0
        &&& self.mem_bytes().len() == self.end_spec() - self.base_spec()
        &&& forall|i: int|
            0 <= i < self.free_slots().len() ==> self.slot_ok(#[trigger] self.free_slots()[i])
        &&& forall|i: int|
            0 <= i < self.live_slots().len() ==> self.slot_ok(#[trigger] self.live_slots()[i])
        &&& forall|i: int, j: int|
            0 <= i < j < self.free_slots().len()
                ==> self.free_slots()[i] != self.free_slots()[j]
        &&& forall|i: int, j: int|
            0 <= i < j < self.live_slots().len()
                ==> self.live_slots()[i] != self.live_slots()[j]
        &&& forall|i: int, j: int|
            0 <= i < self.free_slots().len() && 0 <= j < self.live_slots().len()
                ==> self.free_slots()[i] != self.live_slots()[j]
        &&& self.free_slots().len() + self.live_slots().len()
            == (self.end_spec() - self.base_spec()) / (BLOCK_SIZE as int)
    }

    /// Two distinct whole slots of the same region never overlap.
    pub proof fn lemma_slots_disjoint(self, p: usize, q: usize)
        requires
            self.slot_ok(p),
            self.slot_ok(q),
            p != q,
        ensures
            p + BLOCK_SIZE <= q || q + BLOCK_SIZE <= p,
    {
        let b = self.base_spec() as int;
        let a = (p - b) / (BLOCK_SIZE as int);
        let c = (q - b) / (BLOCK_SIZE as int);
        vstd::arithmetic::div_mod::lemma_fundamental_div_mod(p - b, BLOCK_SIZE as int);
        vstd::arithmetic::div_mod::lemma_fundamental_div_mod(q - b, BLOCK_SIZE as int);
        assert(p - b == BLOCK_SIZE * a);
        assert(q - b == BLOCK_SIZE * c);
        if a < c {
            assert(BLOCK_SIZE * a + BLOCK_SIZE <= BLOCK_SIZE * c) by (nonlinear_arith)
                requires a < c;
        } else {
            assert(a != c);
            assert(BLOCK_SIZE * c + BLOCK_SIZE <= BLOCK_SIZE * a) by (nonlinear_arith)
                requires c < a;
        }
    }

    /// Set up a fresh region: all `len / BLOCK_SIZE` slots start free, in
    /// address order, and every byte of the region is zero.
    pub fn new(param: FreelistAllocParam) -> (r: Self)
        requires
            param.valid(),
        ensures
            r.wf(),
            r.base_spec() == param.base_addr,
            r.end_spec() == param.base_addr + param.len,
            r.live_slots() == Seq::<usize>::empty(),
            r.free_slots().len() == param.len as int / (BLOCK_SIZE as int),
            forall|j: int|
                0 <= j < r.free_slots().len()
                    ==> #[trigger] r.free_slots()[j] == param.base_addr + j * BLOCK_SIZE,
            r.mem_bytes() == Seq::new(param.len as nat, |i: int| 0u8),
    {
        let base_addr = param.base_addr;
        let len = param.len;
        let end_addr = base_addr + len;
        let nblocks = len / BLOCK_SIZE;
        let mut free: Vec<usize> = Vec::new();
        let mut j: usize = 0;
        proof {
            vstd::arithmetic::div_mod::lemma_fundamental_div_mod(len as int, BLOCK_SIZE as int);
        }
        while j < nblocks
            invariant
                nblocks == len as int / (BLOCK_SIZE as int),
                len == nblocks * BLOCK_SIZE,
                base_addr + len <= usize::MAX,
                0 <= j <= nblocks,
                free@.len() == j,
                forall|i: int|
                    0 <= i < j ==> #[trigger] free@[i] == base_addr + i * BLOCK_SIZE,
            decreases nblocks - j,
        {
            proof {
                assert((j + 1) * BLOCK_SIZE <= nblocks * BLOCK_SIZE) by (nonlinear_arith)
                    requires j + 1 <= nblocks, BLOCK_SIZE >= 1;
                assert(j * BLOCK_SIZE + BLOCK_SIZE == (j + 1) * BLOCK_SIZE) by (nonlinear_arith);
            }
            let slot = base_addr + j * BLOCK_SIZE;
            free.push(slot);
            j = j + 1;
        }
        let mut mem: Vec<u8> = Vec::new();
        let mut i: usize = 0;
        while i < len
            invariant
                0 <= i <= len,
                mem@.len() == i,
                forall|t: int| 0 <= t < i ==> mem@[t] == 0u8,
            decreases len - i,
        {
            mem.push(0u8);
            i = i + 1;
        }
        let r = FreelistAlloc {
            base_addr,
            end_addr,
            free,
            mem,
            live: Ghost(Seq::empty()),
        };
        proof {
            assert forall|a: int, b: int|
                0 <= a < b < r.free_slots().len() implies r.free_slots()[a] != r.free_slots()[b] by {
                assert(a * BLOCK_SIZE < b * BLOCK_SIZE) by (nonlinear_arith)
                    requires a < b, BLOCK_SIZE >= 1;
            }
            assert forall|a: int|
                0 <= a < r.free_slots().len() implies r.slot_ok(#[trigger] r.free_slots()[a]) by {
                assert((a + 1) * BLOCK_SIZE <= nblocks * BLOCK_SIZE) by (nonlinear_arith)
                    requires a + 1 <= nblocks, BLOCK_SIZE >= 1;
                assert(a * BLOCK_SIZE + BLOCK_SIZE == (a + 1) * BLOCK_SIZE) by (nonlinear_arith);
                let p = r.free_slots()[a];
                assert(p - base_addr == a * BLOCK_SIZE);
                vstd::arithmetic::div_mod::lemma_mod_multiples_basic(a, BLOCK_SIZE as int);
            }
            assert(r.mem_bytes() =~= Seq::new(param.len as nat, |t: int| 0u8));
        }
        r
    }

    /// Range check: is `p` an address inside this region?
    pub fn contains_ptr(&self, p: usize) -> (r: bool)
        ensures
            r == (self.base_spec() <= p < self.end_spec()),
    {
        p >= self.base_addr && p < self.end_addr
    }

    /// Serve a request of `size` bytes. The alignment argument is accepted
    /// for interface compatibility and ignored: every slot is naturally
    /// aligned to `BLOCK_SIZE` bytes past the region base. Succeeds exactly
    /// when the request fits in one slot and a slot is free; the returned
    /// address is a whole slot disjoint from every outstanding allocation.
    pub fn allocate(&mut self, size: usize, _align: usize) -> (r: Option<usize>)
        requires
            old(self).wf(),
        ensures
            final(self).wf(),
            final(self).base_spec() == old(self).base_spec(),
            final(self).end_spec() == old(self).end_spec(),
            final(self).mem_bytes() == old(self).mem_bytes(),
            r is Some <==> size <= BLOCK_SIZE && old(self).free_slots().len() > 0,
            r is None ==> final(self).free_slots() == old(self).free_slots()
                && final(self).live_slots() == old(self).live_slots(),
            r matches Some(p) ==> p == old(self).free_slots().last(),
            r matches Some(p) ==> final(self).free_slots() == old(self).free_slots().drop_last(),
            r matches Some(p) ==> final(self).live_slots() == old(self).live_slots().push(p),
            r matches Some(p) ==> old(self).slot_ok(p) && p >= 1,
            r matches Some(p)
                ==> forall|j: int|
                    0 <= j < old(self).live_slots().len()
                        ==> p + BLOCK_SIZE <= #[trigger] old(self).live_slots()[j]
                            || old(self).live_slots()[j] + BLOCK_SIZE <= p,
    {
        if size > BLOCK_SIZE {
            return None;
        }
        if self.free.len() == 0 {
            return None;
        }
        let p = self.free.pop().unwrap();
        proof {
            self.live@ = self.live@.push(p);
            assert(self.free_slots() =~= old(self).free_slots().drop_last());
            assert forall|j: int|
                0 <= j < old(self).live_slots().len() implies p + BLOCK_SIZE
                <= #[trigger] old(self).live_slots()[j]
                || old(self).live_slots()[j] + BLOCK_SIZE <= p by {
                let q = old(self).live_slots()[j];
                assert(p != q);
                old(self).lemma_slots_disjoint(p, q);
            }
        }
        Some(p)
    }

    /// Return slot `p` to the free stack. The size and alignment arguments
    /// are accepted for interface compatibility and ignored: the slot size is
    /// fixed. `p` must be a slot previously returned by `allocate` on this
    /// region and not yet deallocated.
    pub fn deallocate(&mut self, p: usize, _size: usize, _align: usize)
        requires
            old(self).wf(),
            old(self).live_slots().contains(p),
        ensures
            final(self).wf(),
            final(self).base_spec() == old(self).base_spec(),
            final(self).end_spec() == old(self).end_spec(),
            final(self).mem_bytes() == old(self).mem_bytes(),
            final(self).free_slots() == old(self).free_slots().push(p),
            final(self).live_slots().len() == old(self).live_slots().len() - 1,
            exists|j: int|
                0 <= j < old(self).live_slots().len() && old(self).live_slots()[j] == p
                    && final(self).live_slots() == old(self).live_slots().remove(j),
    {
        self.free.push(p);
        proof {
            let j = choose|j: int|
                0 <= j < self.live@.len() && self.live@[j] == p;
            self.live@.remove_ensures(j);
            self.live@ = self.live@.remove(j);
            assert forall|a: int|
                0 <= a < self.live_slots().len() implies self.slot_ok(
                #[trigger] self.live_slots()[a],
            ) by {
                if a < j {
                    assert(self.live_slots()[a] == old(self).live_slots()[a]);
                } else {
                    assert(self.live_slots()[a] == old(self).live_slots()[a + 1]);
                }
            }
        }
    }

    /// Store one byte at `addr`, which must lie inside the region. Every
    /// other byte of the region keeps its value, so a later `read_byte` at
    /// `addr` returns exactly `val`.
    pub fn write_byte(&mut self, addr: usize, val: u8)
        requires
            old(self).wf(),
            old(self).base_spec() <= addr < old(self).end_spec(),
        ensures
            final(self).wf(),
            final(self).base_spec() == old(self).base_spec(),
            final(self).end_spec() == old(self).end_spec(),
            final(self).free_slots() == old(self).free_slots(),
            final(self).live_slots() == old(self).live_slots(),
            final(self).mem_bytes() == old(self).mem_bytes().update(
                addr - old(self).base_spec(),
                val,
            ),
    {
        let i = addr - self.base_addr;
        self.mem.set(i, val);
    }

    /// Load the byte at `addr`, which must lie inside the region.
    pub fn read_byte(&self, addr: usize) -> (r: u8)
        requires
            self.wf(),
            self.base_spec() <= addr < self.end_spec(),
        ensures
            r == self.mem_bytes()[addr - self.base_spec()],
    {
        let i = addr - self.base_addr;
        self.mem[i]
    }
}

} // verus!
