//! The allocation facade: one freelist region for small requests, one
//! buddy region for everything else.
//!
//! A request of at most [`BLOCK_SIZE`] bytes first tries the freelist
//! region and falls back to the buddy region when that tier is exhausted;
//! larger requests go straight to the buddy region. On deallocation the
//! owning region is found by an address range check, which is unambiguous
//! because the two regions occupy disjoint address ranges. The facade is
//! meant for a single execution context and provides no synchronization.

use vstd::prelude::*;

verus! {

use crate::buddy_alloc::lemma_pw_pos;
use crate::buddy_alloc::pw;
use crate::buddy_alloc::{BuddyAlloc, BuddyAllocParam};
use crate::freelist_alloc::{BLOCK_SIZE, FreelistAlloc, FreelistAllocParam};

/// A two-tier allocator over two caller-owned regions.
pub struct NonThreadsafeAlloc {
    /// Parameters the freelist region was built from.
    freelist_alloc_param: FreelistAllocParam,
    /// Parameters the buddy region was built from.
    buddy_alloc_param: BuddyAllocParam,
    /// The small-request tier.
    inner_freelist_alloc: FreelistAlloc,
    /// The general-purpose tier.
    inner_buddy_alloc: BuddyAlloc,
}

impl NonThreadsafeAlloc {
    /// The freelist tier.
    pub closed spec fn fl(self) -> FreelistAlloc {
        self.inner_freelist_alloc
    }

    /// The buddy tier.
    pub closed spec fn bd(self) -> BuddyAlloc {
        self.inner_buddy_alloc
    }

    /// The freelist region's parameters.
    pub closed spec fn fl_param(self) -> FreelistAllocParam {
        self.freelist_alloc_param
    }

    /// The buddy region's parameters.
    pub closed spec fn bd_param(self) -> BuddyAllocParam {
        self.buddy_alloc_param
    }

    /// The two regions' address ranges do not overlap.
    pub open spec fn params_disjoint(fp: FreelistAllocParam, bp: BuddyAllocParam) -> bool {
        fp.base_addr + fp.len <= bp.base_addr || bp.base_addr + bp.len <= fp.base_addr
    }

    /// Both tiers are well-formed, cover exactly their parameter ranges,
    /// and those ranges are disjoint.
    pub open spec fn wf(self) -> bool {
        &&& self.fl().wf()
        &&& self.bd().wf()
        &&& self.fl().base_spec() == self.fl_param().base_addr
        &&& self.fl().end_spec() == self.fl_param().base_addr + self.fl_param().len
        &&& self.bd().mem_base_spec() == self.bd_param().base_addr
        &&& self.bd().mem_bytes().len() == self.bd_param().len
        &&& self.bd().tree_end() <= self.bd_param().base_addr + self.bd_param().len
        &&& Self::params_disjoint(self.fl_param(), self.bd_param())
    }

    /// Build both tiers over their caller-owned regions, which must be
    /// valid for their respective constructors and disjoint.
    pub fn new(
        freelist_alloc_param: FreelistAllocParam,
        buddy_alloc_param: BuddyAllocParam,
    ) -> (r: Self)
        requires
            freelist_alloc_param.valid(),
            buddy_alloc_param.valid(),
            Self::params_disjoint(freelist_alloc_param, buddy_alloc_param),
        ensures
            r.wf(),
            r.fl_param() == freelist_alloc_param,
            r.bd_param() == buddy_alloc_param,
            r.fl().live_slots() == Seq::<usize>::empty(),
            r.bd().live_blocks() == Seq::<(int, int)>::empty(),
            r.fl().free_slots().len() == freelist_alloc_param.len as int / (BLOCK_SIZE as int),
            r.bd().free_bytes_spec() == r.bd().managed_bytes(),
    {
        let inner_freelist_alloc = FreelistAlloc::new(freelist_alloc_param);
        let inner_buddy_alloc = BuddyAlloc::new(buddy_alloc_param);
        NonThreadsafeAlloc {
            freelist_alloc_param,
            buddy_alloc_param,
            inner_freelist_alloc,
            inner_buddy_alloc,
        }
    }

    /// Serve a request of `size` bytes: requests of at most [`BLOCK_SIZE`]
    /// bytes try the freelist tier first and fall back to the buddy tier;
    /// larger requests go straight to the buddy tier. The returned address
    /// lies in the serving tier's region, so the range check on
    /// deallocation routes it back there. Fails exactly when both tiers
    /// would fail.
    pub fn allocate(&mut self, size: usize, align: usize) -> (r: Option<usize>)
        requires
            old(self).wf(),
        ensures
            final(self).wf(),
            final(self).fl_param() == old(self).fl_param(),
            final(self).bd_param() == old(self).bd_param(),
            r is Some <==> (size <= BLOCK_SIZE && old(self).fl().free_slots().len() > 0) || old(self).bd().can_serve(size),
            r is None ==> final(self).bd() == old(self).bd() && final(self).fl().free_slots()
                == old(self).fl().free_slots() && final(self).fl().live_slots() == old(self).fl().live_slots(),
            // a freelist slot when the freelist tier serves it
            (size <= BLOCK_SIZE && old(self).fl().free_slots().len() > 0) ==> (r matches Some(p)
                && old(self).fl().slot_ok(p) && final(self).bd() == old(self).bd() && final(self).fl().free_slots() == old(self).fl().free_slots().drop_last() && final(self).fl().live_slots() == old(self).fl().live_slots().push(p)),
            // otherwise a buddy block, outside the freelist region
            !(size <= BLOCK_SIZE && old(self).fl().free_slots().len() > 0) ==> (r matches Some(p)
                ==> (!(old(self).fl().base_spec() <= p < old(self).fl().end_spec())
                && final(self).fl().free_slots() == old(self).fl().free_slots() && final(self).fl().live_slots() == old(self).fl().live_slots() && old(self).bd().managed_start()
                <= p && p < old(self).bd().tree_end() && final(self).bd().live_blocks().len()
                == old(self).bd().live_blocks().len() + 1)),
            r matches Some(p) ==> p >= 1,
    {
        if size <= BLOCK_SIZE {
            let attempt = self.inner_freelist_alloc.allocate(size, align);
            if attempt.is_some() {
                return attempt;
            }
        }
        let r = self.inner_buddy_alloc.allocate(size, align);
        proof {
            if r is Some {
                let p = r->0;
                let (k, i) = self.bd().live_blocks().last();
                lemma_pw_pos(k);
                old(self).bd().lemma_wf_facts();
                let te = old(self).bd().tree_end();
                let lf = old(self).bd().leaf_spec();
                assert(p < te) by (nonlinear_arith)
                    requires
                        p + pw(k) * lf <= te,
                        pw(k) >= 1,
                        lf >= 16,
                ;
                assert(p >= old(self).bd().mem_base_spec());
                assert(p < old(self).bd().mem_base_spec() + old(self).bd().mem_bytes().len());
                assert(!(old(self).fl().base_spec() <= p < old(self).fl().end_spec()));
            }
        }
        r
    }

    /// Return an allocation to the tier that owns its address: the
    /// freelist tier when the address lies in the freelist region, the
    /// buddy tier otherwise. The address must be outstanding in the tier
    /// that owns it.
    pub fn deallocate(&mut self, addr: usize, size: usize, align: usize)
        requires
            old(self).wf(),
            (old(self).fl().base_spec() <= addr < old(self).fl().end_spec()) ==> old(self).fl().live_slots().contains(addr),
            !(old(self).fl().base_spec() <= addr < old(self).fl().end_spec()) ==> (exists|w: int|
                0 <= w < old(self).bd().live_blocks().len() && addr as int == old(self).bd().addr_of(
                    (#[trigger] old(self).bd().live_blocks()[w]).0,
                    old(self).bd().live_blocks()[w].1,
                )),
        ensures
            final(self).wf(),
            final(self).fl_param() == old(self).fl_param(),
            final(self).bd_param() == old(self).bd_param(),
            (old(self).fl().base_spec() <= addr < old(self).fl().end_spec()) ==> (final(self).fl().free_slots() == old(self).fl().free_slots().push(addr) && final(self).bd()
                == old(self).bd()),
            !(old(self).fl().base_spec() <= addr < old(self).fl().end_spec()) ==> (final(self).fl() == old(self).fl() && final(self).bd().live_blocks().len() == old(self).bd().live_blocks().len() - 1),
    {
        let in_freelist = self.inner_freelist_alloc.contains_ptr(addr);
        if in_freelist {
            self.inner_freelist_alloc.deallocate(addr, size, align);
        } else {
            self.inner_buddy_alloc.deallocate(addr, size, align);
        }
    }
}

} // verus!
