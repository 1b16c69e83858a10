//! Buddy allocator: one contiguous region managed as a binary tree of
//! power-of-two blocks.
//!
//! The region is described by a base address, a length, and a leaf size (the
//! smallest allocatable unit). A block of order `k` spans `leaf_size * 2^k`
//! bytes; the block of order `k` and index `i` is the parent of the blocks
//! `2 * i` and `2 * i + 1` at order `k - 1`, which are each other's buddies.
//!
//! A prefix of the region is reserved for the allocator's bookkeeping tables:
//! one record per order holding the free-list sentinel and the locations of
//! that order's two bit tables (four machine words), followed by the tables
//! themselves, each padded to whole 16-byte units. The blocks after the
//! prefix are managed; the reserved prefix is never handed out.
//!
//! Per order the allocator keeps a free list of block indices and two bit
//! arrays:
//!
//! * `alloc_bits` holds one bit per *pair* of buddies, storing the exclusive
//!   or of the two blocks' in-use states. Toggling the bit when one block of
//!   the pair changes state yields zero exactly when the buddy is also free,
//!   which makes the merge decision on deallocation a single bit test.
//! * `split_bits` (orders above zero) holds one bit per block, set while the
//!   block is divided into its two children. Deallocation re-derives the
//!   order of a block from these bits alone, so the layout passed to
//!   `deallocate` never has to match the one passed to `allocate`.

use vstd::prelude::*;

verus! {

use vstd::arithmetic::div_mod::lemma_fundamental_div_mod;
use vstd::arithmetic::div_mod::lemma_fundamental_div_mod_converse;

/// The smallest permitted leaf size: enough bytes for one free-list node of
/// two machine words.
pub const MIN_LEAF_SIZE_ALIGN: usize = 16;

/// `2^k` for `k >= 0` (and `1` for negative `k`, which never arises).
pub open spec fn pw(k: int) -> int
    decreases k,
{
    if k <= 0 {
        1
    } else {
        2 * pw(k - 1)
    }
}

pub proof fn lemma_pw_pos(k: int)
    ensures
        pw(k) >= 1,
    decreases k,
{
    if k > 0 {
        lemma_pw_pos(k - 1);
    }
}

/// `pw` is monotone: more doublings give a value at least as large.
pub proof fn lemma_pw_mono(a: int, b: int)
    requires
        a <= b,
    ensures
        pw(a) <= pw(b),
    decreases b - a,
{
    if a < b {
        lemma_pw_mono(a, b - 1);
        lemma_pw_pos(b - 1);
    }
}

/// Doublings compose: `2^(a+b) = 2^a * 2^b`.
pub proof fn lemma_pw_adds(a: int, b: int)
    requires
        0 <= a,
        0 <= b,
    ensures
        pw(a + b) == pw(a) * pw(b),
    decreases b,
{
    if b == 0 {
    } else {
        lemma_pw_adds(a, b - 1);
        assert(pw(a + b) == 2 * pw(a + b - 1));
        assert(2 * (pw(a) * pw(b - 1)) == pw(a) * (2 * pw(b - 1))) by (nonlinear_arith);
    }
}

/// Each doubling at least adds one: `2^k >= k + 1`.
pub proof fn lemma_pw_ge_linear(k: int)
    requires
        0 <= k,
    ensures
        pw(k) >= k + 1,
    decreases k,
{
    if k > 0 {
        lemma_pw_ge_linear(k - 1);
    }
}

/// Doublings outgrow squares (up to a small offset): `2^k + 16 >= k * k`.
pub proof fn lemma_pw_quad(k: int)
    requires
        0 <= k,
    ensures
        pw(k) + 16 >= k * k,
    decreases k,
{
    if k <= 4 {
        lemma_pw_pos(k);
        assert(k * k <= 16) by (nonlinear_arith)
            requires
                0 <= k <= 4,
        ;
        assert(pw(k) + 16 >= k * k);
    } else if k == 5 {
        assert(pw(0) == 1);
        assert(pw(1) == 2);
        assert(pw(2) == 4);
        assert(pw(3) == 8);
        assert(pw(4) == 16);
        assert(pw(5) == 32);
        assert(k * k == 25) by (nonlinear_arith)
            requires
                k == 5,
        ;
        assert(pw(k) + 16 >= k * k);
    } else if k == 6 {
        assert(pw(0) == 1);
        assert(pw(1) == 2);
        assert(pw(2) == 4);
        assert(pw(3) == 8);
        assert(pw(4) == 16);
        assert(pw(5) == 32);
        assert(pw(6) == 64);
        assert(k * k == 36) by (nonlinear_arith)
            requires
                k == 6,
        ;
        assert(pw(k) + 16 >= k * k);
    } else {
        lemma_pw_quad(k - 1);
        assert(pw(k) == 2 * pw(k - 1));
        assert(2 * ((k - 1) * (k - 1)) >= k * k + 16) by (nonlinear_arith)
            requires
                k >= 7,
        ;
        assert(2 * (pw(k - 1) + 16) >= 2 * ((k - 1) * (k - 1)));
        assert(pw(k) + 32 >= k * k + 16);
        assert(pw(k) + 16 >= k * k);
    }
}

/// A vector of `n` cleared bits.
fn falses(n: usize) -> (r: Vec<bool>)
    ensures
        r@.len() == n,
        forall|i: int| 0 <= i < n ==> !(#[trigger] r@[i]),
{
    let mut r: Vec<bool> = Vec::new();
    let mut i: usize = 0;
    while i < n
        invariant
            0 <= i <= n,
            r@.len() == i,
            forall|t: int| 0 <= t < i ==> !(#[trigger] r@[t]),
        decreases n - i,
    {
        r.push(false);
        i = i + 1;
    }
    r
}

/// Size in bytes of an order-`k` block with the given leaf size.
pub fn block_size(k: usize, leaf_size: usize) -> (r: usize)
    requires
        pw(k as int) * leaf_size <= usize::MAX,
    ensures
        r == pw(k as int) * leaf_size,
{
    let mut size: usize = leaf_size;
    let mut t: usize = 0;
    while t < k
        invariant
            0 <= t <= k,
            size == pw(t as int) * leaf_size,
            pw(k as int) * leaf_size <= usize::MAX,
        decreases k - t,
    {
        proof {
            lemma_pw_mono(t + 1, k as int);
            lemma_pw_pos(t as int);
            assert(pw(t + 1) * leaf_size <= pw(k as int) * leaf_size) by (nonlinear_arith)
                requires
                    pw(t + 1) <= pw(k as int),
                    leaf_size >= 0,
            ;
            assert(2 * (pw(t as int) * leaf_size) == pw(t + 1) * leaf_size) by (nonlinear_arith)
                requires
                    pw(t + 1) == 2 * pw(t as int),
            ;
        }
        size = size * 2;
        t = t + 1;
    }
    size
}

/// `n` rounded up to the next multiple of `unit`.
pub fn roundup(n: usize, unit: usize) -> (r: usize)
    requires
        unit >= 1,
        n + unit <= usize::MAX,
    ensures
        r % unit == 0,
        n <= r < n + unit,
{
    let rem = n % unit;
    if rem == 0 {
        n
    } else {
        proof {
            lemma_fundamental_div_mod(n as int, unit as int);
            let q = n as int / unit as int;
            assert((n + (unit - rem)) == unit * (q + 1)) by (nonlinear_arith)
                requires
                    n == unit * q + rem,
            ;
            assert(unit * (q + 1) % (unit as int) == 0) by {
                vstd::arithmetic::div_mod::lemma_mod_multiples_basic(q + 1, unit as int);
                assert((q + 1) * unit == unit * (q + 1)) by (nonlinear_arith);
            }
        }
        n + (unit - rem)
    }
}

/// `n` rounded down to a multiple of `unit`.
pub fn rounddown(n: usize, unit: usize) -> (r: usize)
    requires
        unit >= 1,
    ensures
        r % unit == 0,
        n - unit < r <= n,
{
    let rem = n % unit;
    proof {
        lemma_fundamental_div_mod(n as int, unit as int);
        let q = n as int / unit as int;
        assert(n - rem == unit * q);
        assert(unit * q % (unit as int) == 0) by {
            vstd::arithmetic::div_mod::lemma_mod_multiples_basic(q, unit as int);
            assert(q * unit == unit * q) by (nonlinear_arith);
        }
    }
    n - rem
}

/// Construction parameters for [`BuddyAlloc`]: the base address of the
/// caller-owned byte region, its length, and the leaf (smallest block) size.
#[derive(Clone, Copy)]
pub struct BuddyAllocParam {
    pub base_addr: usize,
    pub len: usize,
    pub leaf_size: usize,
}

impl BuddyAllocParam {
    pub fn new(base_addr: usize, len: usize, leaf_size: usize) -> (p: Self)
        ensures
            p.base_addr == base_addr,
            p.len == len,
            p.leaf_size == leaf_size,
    {
        BuddyAllocParam { base_addr, len, leaf_size }
    }

    /// What `BuddyAlloc::new` demands: a non-null base; a power-of-two leaf
    /// of at least [`MIN_LEAF_SIZE_ALIGN`] bytes; a region of at least
    /// sixteen leaves that fits in the address space. The bound of a quarter
    /// of the address space keeps every intermediate size computation inside
    /// `usize`.
    pub open spec fn valid(self) -> bool {
        &&& self.base_addr >= 1
        &&& self.leaf_size >= MIN_LEAF_SIZE_ALIGN
        &&& exists|e: int| 0 <= e && self.leaf_size == pw(e)
        &&& self.len >= 16 * self.leaf_size
        &&& self.base_addr + self.len <= usize::MAX
        &&& self.len <= usize::MAX / 4
    }
}

/// A buddy allocator over one contiguous byte region.
pub struct BuddyAlloc {
    /// Smallest allocatable unit in bytes.
    leaf_size: usize,
    /// Base of the block tree: the region base rounded up to the leaf size.
    base: usize,
    /// Top order: the whole tree is one (conceptual) block of this order.
    k_max: usize,
    /// `pw(k_max)`: the tree's span in leaves.
    total_leaves: usize,
    /// Leaves `[0, reserved)` hold the bookkeeping prefix and are never
    /// handed out; `1 <= reserved <= total_leaves`.
    reserved: usize,
    /// Per order, the indices of the free blocks of that order.
    free_lists: Vec<Vec<usize>>,
    /// Per order, one bit per buddy pair: the exclusive or of the two
    /// blocks' in-use states.
    alloc_bits: Vec<Vec<bool>>,
    /// Per order above zero, one bit per block: set while the block is
    /// split into its two children.
    split_bits: Vec<Vec<bool>>,
    /// Sum in bytes of the blocks on all free lists.
    free_bytes: usize,
    /// Base address of the caller's region (not yet rounded).
    mem_base: usize,
    /// The bytes of the caller's region.
    mem: Vec<u8>,
    /// Outstanding allocations as `(order, index)` pairs.
    live: Ghost<Seq<(int, int)>>,
}

impl BuddyAlloc {
    // ----- views of the state, for contracts -----

    /// Smallest allocatable unit in bytes.
    pub closed spec fn leaf_spec(self) -> usize {
        self.leaf_size
    }

    /// Base of the block tree (region base rounded up to the leaf size).
    pub closed spec fn base_spec(self) -> usize {
        self.base
    }

    /// Top order of the tree.
    pub closed spec fn k_max_spec(self) -> int {
        self.k_max as int
    }

    /// The tree's span in leaves.
    pub closed spec fn total_spec(self) -> int {
        self.total_leaves as int
    }

    /// Number of leaves reserved for the bookkeeping prefix.
    pub closed spec fn reserved_spec(self) -> int {
        self.reserved as int
    }

    /// First managed address: tree base plus the reserved prefix.
    pub open spec fn managed_start(self) -> int {
        self.base_spec() + self.reserved_spec() * self.leaf_spec()
    }

    /// One past the last tree address.
    pub open spec fn tree_end(self) -> int {
        self.base_spec() + self.total_spec() * self.leaf_spec()
    }

    /// Capacity in bytes of the managed part of the region.
    pub open spec fn managed_bytes(self) -> int {
        (self.total_spec() - self.reserved_spec()) * self.leaf_spec()
    }

    /// The free list of order `k`, as block indices.
    pub closed spec fn free_list(self, k: int) -> Seq<usize> {
        self.free_lists@[k]@
    }

    /// Sum in bytes of the blocks on all free lists.
    pub closed spec fn free_bytes_spec(self) -> usize {
        self.free_bytes
    }

    /// Outstanding allocations as `(order, index)` pairs.
    pub closed spec fn live_blocks(self) -> Seq<(int, int)> {
        self.live@
    }

    /// Base address of the caller's region.
    pub closed spec fn mem_base_spec(self) -> usize {
        self.mem_base
    }

    /// The bytes of the caller's region, indexed from `mem_base_spec()`.
    pub closed spec fn mem_bytes(self) -> Seq<u8> {
        self.mem@
    }

    /// Address of block `(k, i)`.
    pub open spec fn addr_of(self, k: int, i: int) -> int {
        self.base_spec() + i * pw(k) * self.leaf_spec()
    }

    // ----- block geometry, in leaves relative to the tree base -----

    /// Number of blocks of order `k` in the tree.
    pub open spec fn nb(self, k: int) -> int {
        pw(self.k_max_spec() - k)
    }

    /// `(k, i)` names a block of the tree.
    pub open spec fn in_range(self, k: int, i: int) -> bool {
        0 <= k <= self.k_max_spec() && 0 <= i < self.nb(k)
    }

    /// First leaf of block `(k, i)`.
    pub open spec fn blk_lo(self, k: int, i: int) -> int {
        i * pw(k)
    }

    /// One past the last leaf of block `(k, i)`.
    pub open spec fn blk_hi(self, k: int, i: int) -> int {
        (i + 1) * pw(k)
    }

    // ----- block status -----

    /// Block `(k, i)` is currently split into its two children.
    pub closed spec fn is_split(self, k: int, i: int) -> bool {
        1 <= k && self.split_bits@[k]@[i]
    }

    /// Block `(k, i)` is an outstanding allocation.
    pub open spec fn is_live(self, k: int, i: int) -> bool {
        self.live_blocks().contains((k, i))
    }

    /// Block `(k, i)` is on its order's free list.
    pub open spec fn on_list(self, k: int, i: int) -> bool {
        exists|t: int|
            0 <= t < self.free_list(k).len() && self.free_list(k)[t] as int == i
    }

    /// Block `(k, i)` lies wholly inside the reserved prefix.
    pub open spec fn fully_reserved(self, k: int, i: int) -> bool {
        self.blk_hi(k, i) <= self.reserved_spec()
    }

    /// The reserved boundary cuts through the inside of block `(k, i)`.
    pub open spec fn straddles(self, k: int, i: int) -> bool {
        self.blk_lo(k, i) < self.reserved_spec() < self.blk_hi(k, i)
    }

    /// Block `(k, i)` is in use at its own order: allocated, split, or part
    /// of the reserved prefix.
    pub open spec fn used(self, k: int, i: int) -> bool {
        self.is_live(k, i) || self.is_split(k, i) || self.fully_reserved(k, i)
    }

    /// The in-use state of the sibling of an existing block, taking a
    /// missing sibling (only possible at the top order) as free.
    pub open spec fn used_in_pair(self, k: int, i: int) -> bool {
        i < self.nb(k) && self.used(k, i)
    }

    /// Block `(k, i)` is addressable at its order: it is the top block, or
    /// its parent is split.
    pub open spec fn active(self, k: int, i: int) -> bool {
        k == self.k_max_spec() || self.is_split(k + 1, i / 2)
    }

    // ----- sums -----

    /// Sum in bytes of the blocks on the free lists of orders below `k`.
    pub closed spec fn flsum_upto(self, k: int) -> int
        decreases k,
    {
        if k <= 0 {
            0
        } else {
            self.flsum_upto(k - 1) + self.free_list(k - 1).len() * pw(k - 1) * self.leaf_spec()
        }
    }

    /// Sum in bytes of the blocks on all free lists.
    pub open spec fn flsum(self) -> int {
        self.flsum_upto(self.k_max_spec() + 1)
    }

    /// Sum in bytes of a sequence of `(order, index)` blocks.
    pub closed spec fn blocks_sum(s: Seq<(int, int)>, leaf: usize) -> int
        decreases s.len(),
    {
        if s.len() == 0 {
            0
        } else {
            Self::blocks_sum(s.drop_last(), leaf) + pw(s.last().0) * leaf
        }
    }

    /// Sum in bytes of the outstanding allocations.
    pub open spec fn live_sum(self) -> int {
        Self::blocks_sum(self.live_blocks(), self.leaf_spec())
    }

    // ----- well-formedness -----

    /// The pair bit of order `k` and pair index `p`.
    pub closed spec fn alloc_bit(self, k: int, p: int) -> bool {
        self.alloc_bits@[k]@[p]
    }

    /// Scalar fields and table dimensions are consistent.
    pub closed spec fn wf_dims(self) -> bool {
        &&& self.leaf_spec() >= MIN_LEAF_SIZE_ALIGN
        &&& 1 <= self.base_spec()
        &&& 0 <= self.k_max_spec()
        &&& self.total_spec() == pw(self.k_max_spec())
        &&& 1 <= self.reserved_spec() <= self.total_spec()
        &&& self.mem_base_spec() >= 1
        &&& self.mem_base_spec() <= self.base_spec()
        &&& self.tree_end() <= self.mem_base_spec() + self.mem_bytes().len()
        &&& self.mem_base_spec() + self.mem_bytes().len() <= usize::MAX
        &&& self.free_lists@.len() == self.k_max_spec() + 1
        &&& self.alloc_bits@.len() == self.k_max_spec() + 1
        &&& self.split_bits@.len() == self.k_max_spec() + 1
        &&& self.split_bits@[0]@.len() == 0
        &&& forall|k: int|
            1 <= k <= self.k_max_spec() ==> (#[trigger] self.split_bits@[k]@.len()) == self.nb(k)
        &&& forall|k: int|
            0 <= k <= self.k_max_spec() ==> (#[trigger] self.alloc_bits@[k]@.len()) == (self.nb(k)
                + 1) / 2
    }

    /// Free-list entries name managed blocks of the tree, without duplicates.
    pub open spec fn wf_elems(self) -> bool {
        &&& forall|k: int, t: int|
            0 <= k <= self.k_max_spec() && 0 <= t < self.free_list(k).len() ==> {
                let i = #[trigger] self.free_list(k)[t] as int;
                self.in_range(k, i) && self.reserved_spec() <= self.blk_lo(k, i)
            }
        &&& forall|k: int, t1: int, t2: int|
            0 <= k <= self.k_max_spec() && 0 <= t1 < t2 < self.free_list(k).len()
                ==> #[trigger] self.free_list(k)[t1] != #[trigger] self.free_list(k)[t2]
    }

    /// Outstanding allocations name managed, addressable, unsplit blocks.
    pub open spec fn wf_live(self) -> bool {
        &&& forall|j: int|
            0 <= j < self.live_blocks().len() ==> {
                let (k, i) = #[trigger] self.live_blocks()[j];
                &&& self.in_range(k, i)
                &&& self.reserved_spec() <= self.blk_lo(k, i)
                &&& self.active(k, i)
                &&& !self.is_split(k, i)
            }
        &&& forall|j1: int, j2: int|
            0 <= j1 < j2 < self.live_blocks().len()
                ==> #[trigger] self.live_blocks()[j1] != #[trigger] self.live_blocks()[j2]
    }

    /// Split blocks are addressable, not allocated, and not wholly inside
    /// the reserved prefix; a block cut by the reserved boundary is split.
    pub open spec fn wf_split(self) -> bool {
        &&& forall|k: int, i: int|
            self.in_range(k, i) && #[trigger] self.is_split(k, i) ==> self.active(k, i)
                && !self.is_live(k, i) && self.blk_hi(k, i) > self.reserved_spec()
        &&& forall|k: int, i: int|
            self.in_range(k, i) && #[trigger] self.straddles(k, i) && 1 <= k ==> self.is_split(
                k,
                i,
            )
    }

    /// A block is on its order's free list exactly when it is addressable,
    /// not allocated, not split, and past the reserved prefix — except for
    /// one block `(k0, i0)` (no block, when out of range).
    pub open spec fn wf_iff_except(self, k0: int, i0: int) -> bool {
        forall|k: int, i: int|
            self.in_range(k, i) && !(k == k0 && i == i0) ==> ((#[trigger] self.on_list(k, i))
                <==> (self.active(k, i) && !self.is_live(k, i) && !self.is_split(k, i)
                && self.reserved_spec() <= self.blk_lo(k, i)))
    }

    /// The free-list membership law, with no exceptions.
    pub open spec fn wf_iff(self) -> bool {
        self.wf_iff_except(-1, 0)
    }

    /// Every pair bit is the exclusive or of its two blocks' in-use states —
    /// except the pair `(k0, p0)` (no pair, when out of range).
    pub open spec fn wf_bits_except(self, k0: int, p0: int) -> bool {
        forall|k: int, p: int|
            0 <= k <= self.k_max_spec() && 0 <= p < (self.nb(k) + 1) / 2 && !(k == k0 && p == p0)
                ==> (#[trigger] self.alloc_bit(k, p)) == (self.used_in_pair(k, 2 * p)
                != self.used_in_pair(k, 2 * p + 1))
    }

    /// The pair-bit law, with no exceptions.
    pub open spec fn wf_bits(self) -> bool {
        self.wf_bits_except(-1, 0)
    }

    /// Full well-formedness, including the two accounting laws: the free
    /// byte counter equals the sum of the blocks on the free lists, and
    /// together with the outstanding allocations it accounts for every
    /// managed byte.
    pub open spec fn wf(self) -> bool {
        &&& self.wf_dims()
        &&& self.wf_elems()
        &&& self.wf_live()
        &&& self.wf_split()
        &&& self.wf_iff()
        &&& self.wf_bits()
        &&& self.free_bytes_spec() == self.flsum()
        &&& self.free_bytes_spec() + self.live_sum() == self.managed_bytes()
    }

    // ----- structural lemmas about the block tree -----

    /// A block and its two children cover the same leaves, and the children
    /// are in range whenever the parent is.
    pub proof fn lemma_child_geom(self, k: int, i: int)
        requires
            1 <= k <= self.k_max_spec(),
            0 <= i < self.nb(k),
        ensures
            self.in_range(k - 1, 2 * i),
            self.in_range(k - 1, 2 * i + 1),
            self.blk_lo(k - 1, 2 * i) == self.blk_lo(k, i),
            self.blk_hi(k - 1, 2 * i) == self.blk_lo(k - 1, 2 * i + 1),
            self.blk_hi(k - 1, 2 * i + 1) == self.blk_hi(k, i),
            (2 * i) / 2 == i && (2 * i + 1) / 2 == i,
    {
        lemma_pw_pos(k - 1);
        lemma_pw_pos(self.k_max_spec() - k);
        assert(self.nb(k - 1) == 2 * self.nb(k));
        assert(2 * i + 1 < 2 * self.nb(k)) by (nonlinear_arith)
            requires
                i < self.nb(k),
        ;
        assert((2 * i) * pw(k - 1) == i * (2 * pw(k - 1))) by (nonlinear_arith);
        assert((2 * i + 1) * pw(k - 1) == i * (2 * pw(k - 1)) + pw(k - 1)) by (nonlinear_arith);
        assert((2 * i + 2) * pw(k - 1) == (i + 1) * (2 * pw(k - 1))) by (nonlinear_arith);
    }

    /// A block and its parent: the parent is in range and contains it.
    pub proof fn lemma_parent_geom(self, k: int, i: int)
        requires
            0 <= k < self.k_max_spec(),
            0 <= i < self.nb(k),
        ensures
            self.in_range(k + 1, i / 2),
            self.blk_lo(k + 1, i / 2) <= self.blk_lo(k, i),
            self.blk_hi(k, i) <= self.blk_hi(k + 1, i / 2),
            self.blk_lo(k + 1, i / 2) == self.blk_lo(k, 2 * (i / 2)),
    {
        lemma_pw_pos(k);
        lemma_pw_pos(self.k_max_spec() - k - 1);
        assert(self.nb(k) == 2 * self.nb(k + 1));
        assert(i / 2 < self.nb(k + 1)) by (nonlinear_arith)
            requires
                0 <= i < 2 * self.nb(k + 1),
        ;
        let q = i / 2;
        assert(i == 2 * q || i == 2 * q + 1);
        self.lemma_child_geom(k + 1, q);
        assert(self.blk_lo(k, 2 * q) <= self.blk_lo(k, 2 * q + 1)) by (nonlinear_arith)
            requires
                pw(k) >= 1,
        ;
        assert(self.blk_hi(k, 2 * q) <= self.blk_hi(k, 2 * q + 1)) by (nonlinear_arith)
            requires
                pw(k) >= 1,
        ;
    }

    /// Every leaf of a block lies below the tree's total span.
    pub proof fn lemma_block_in_tree(self, k: int, i: int)
        requires
            self.wf_dims(),
            self.in_range(k, i),
        ensures
            0 <= self.blk_lo(k, i) < self.blk_hi(k, i) <= self.total_spec(),
    {
        lemma_pw_pos(k);
        lemma_pw_adds(k, self.k_max_spec() - k);
        assert((i + 1) * pw(k) <= self.nb(k) * pw(k)) by (nonlinear_arith)
            requires
                i + 1 <= self.nb(k),
                pw(k) >= 1,
        ;
        assert(self.nb(k) * pw(k) == pw(k) * self.nb(k)) by (nonlinear_arith);
        assert(i * pw(k) < (i + 1) * pw(k)) by (nonlinear_arith)
            requires
                pw(k) >= 1,
        ;
        assert(0 <= i * pw(k)) by (nonlinear_arith)
            requires
                0 <= i,
                pw(k) >= 1,
        ;
    }

    /// Walking up from an addressable block, every strict ancestor up to the
    /// top of the tree is split.
    pub proof fn lemma_split_chain(self, k: int, i: int, j: int)
        requires
            self.wf_dims(),
            self.wf_split(),
            self.in_range(k, i),
            self.active(k, i),
            k < j <= self.k_max_spec(),
        ensures
            self.in_range(j, i / pw(j - k)),
            self.is_split(j, i / pw(j - k)),
        decreases j - k,
    {
        lemma_pw_pos(j - k);
        self.lemma_parent_geom(k, i);
        assert(self.is_split(k + 1, i / 2));
        if j == k + 1 {
            assert(pw(0) == 1);
            assert(pw(1) == 2);
        } else {
            assert(self.active(k + 1, i / 2));
            self.lemma_split_chain(k + 1, i / 2, j);
            lemma_pw_pos(j - k - 1);
            vstd::arithmetic::div_mod::lemma_div_denominator(i, 2, pw(j - k - 1));
            assert(2 * pw(j - k - 1) == pw(j - k));
        }
    }

    /// Two overlapping blocks are nested: the one of the higher order
    /// contains the other, and is its iterated parent.
    pub proof fn lemma_overlap_is_ancestor(self, k1: int, i1: int, k2: int, i2: int)
        requires
            self.in_range(k1, i1),
            self.in_range(k2, i2),
            k2 <= k1,
            self.blk_lo(k2, i2) < self.blk_hi(k1, i1),
            self.blk_lo(k1, i1) < self.blk_hi(k2, i2),
        ensures
            i1 == i2 / pw(k1 - k2),
            self.blk_lo(k1, i1) <= self.blk_lo(k2, i2),
            self.blk_hi(k2, i2) <= self.blk_hi(k1, i1),
    {
        let d = pw(k1 - k2);
        let p = pw(k2);
        lemma_pw_pos(k1 - k2);
        lemma_pw_pos(k2);
        lemma_pw_adds(k2, k1 - k2);
        assert(pw(k1) == p * d) by (nonlinear_arith)
            requires
                pw(k1) == pw(k2) * pw(k1 - k2),
                p == pw(k2),
                d == pw(k1 - k2),
        ;
        // overlap, divided through by the positive factor p
        assert(i2 < (i1 + 1) * d && i1 * d < i2 + 1) by (nonlinear_arith)
            requires
                i2 * p < (i1 + 1) * (p * d),
                i1 * (p * d) < (i2 + 1) * p,
                p >= 1,
                d >= 1,
        ;
        assert(d * i1 <= i2 < d * i1 + d) by (nonlinear_arith)
            requires
                i2 < (i1 + 1) * d,
                i1 * d < i2 + 1,
                d >= 1,
        ;
        lemma_fundamental_div_mod_converse(i2, d, i1, i2 - d * i1);
        assert(self.blk_lo(k1, i1) <= self.blk_lo(k2, i2)) by (nonlinear_arith)
            requires
                d * i1 <= i2,
                p >= 1,
                self.blk_lo(k1, i1) == i1 * (p * d),
                self.blk_lo(k2, i2) == i2 * p,
        ;
        assert(self.blk_hi(k2, i2) <= self.blk_hi(k1, i1)) by (nonlinear_arith)
            requires
                i2 + 1 <= d * i1 + d,
                p >= 1,
                self.blk_hi(k1, i1) == (i1 + 1) * (p * d),
                self.blk_hi(k2, i2) == (i2 + 1) * p,
        ;
    }

    /// A block is available when it is on a free list or is an outstanding
    /// allocation.
    pub open spec fn placed(self, k: int, i: int) -> bool {
        self.on_list(k, i) || self.is_live(k, i)
    }

    /// Any two distinct addressable, unsplit blocks occupy disjoint leaf
    /// spans: were they nested, every strict ancestor of the inner one would
    /// be split, the outer one included.
    pub proof fn lemma_active_disjoint(self, k1: int, i1: int, k2: int, i2: int)
        requires
            self.wf_dims(),
            self.wf_split(),
            self.in_range(k1, i1),
            self.in_range(k2, i2),
            self.active(k1, i1),
            !self.is_split(k1, i1),
            self.active(k2, i2),
            !self.is_split(k2, i2),
            !(k1 == k2 && i1 == i2),
        ensures
            self.blk_hi(k1, i1) <= self.blk_lo(k2, i2) || self.blk_hi(k2, i2) <= self.blk_lo(
                k1,
                i1,
            ),
    {
        if self.blk_lo(k2, i2) < self.blk_hi(k1, i1) && self.blk_lo(k1, i1) < self.blk_hi(
            k2,
            i2,
        ) {
            if k1 == k2 {
                self.lemma_overlap_is_ancestor(k1, i1, k2, i2);
                self.lemma_overlap_is_ancestor(k2, i2, k1, i1);
                assert(pw(0) == 1);
                assert(i1 == i2);
            } else if k2 < k1 {
                self.lemma_overlap_is_ancestor(k1, i1, k2, i2);
                self.lemma_split_chain(k2, i2, k1);
                assert(self.is_split(k1, i1));
            } else {
                self.lemma_overlap_is_ancestor(k2, i2, k1, i1);
                self.lemma_split_chain(k1, i1, k2);
                assert(self.is_split(k2, i2));
            }
        }
    }

    /// Any two distinct placed blocks occupy disjoint leaf spans.
    pub proof fn lemma_placed_disjoint(self, k1: int, i1: int, k2: int, i2: int)
        requires
            self.wf_dims(),
            self.wf_split(),
            self.wf_live(),
            self.wf_iff(),
            self.in_range(k1, i1),
            self.in_range(k2, i2),
            self.placed(k1, i1),
            self.placed(k2, i2),
            !(k1 == k2 && i1 == i2),
        ensures
            self.blk_hi(k1, i1) <= self.blk_lo(k2, i2) || self.blk_hi(k2, i2) <= self.blk_lo(
                k1,
                i1,
            ),
    {
        assert(self.active(k1, i1) && !self.is_split(k1, i1));
        assert(self.active(k2, i2) && !self.is_split(k2, i2));
        self.lemma_active_disjoint(k1, i1, k2, i2);
    }

    // ----- lemmas about the two sums -----

    /// `flsum_upto` only depends on the list lengths and the leaf size.
    pub proof fn lemma_flsum_agree(s1: Self, s2: Self, upto: int)
        requires
            s1.leaf_spec() == s2.leaf_spec(),
            forall|k: int|
                0 <= k < upto ==> (#[trigger] s1.free_list(k)).len() == s2.free_list(k).len(),
        ensures
            s1.flsum_upto(upto) == s2.flsum_upto(upto),
        decreases upto,
    {
        if upto > 0 {
            Self::lemma_flsum_agree(s1, s2, upto - 1);
        }
    }

    /// Changing the length of one order's free list by `d` changes the sum
    /// by `d` blocks of that order.
    pub proof fn lemma_flsum_update(s1: Self, s2: Self, j: int, d: int, upto: int)
        requires
            s1.leaf_spec() == s2.leaf_spec(),
            0 <= j,
            s2.free_list(j).len() == s1.free_list(j).len() + d,
            forall|k: int|
                0 <= k < upto && k != j ==> (#[trigger] s1.free_list(k)).len() == s2.free_list(
                    k,
                ).len(),
        ensures
            s2.flsum_upto(upto) == s1.flsum_upto(upto) + if j < upto {
                d * pw(j) * s1.leaf_spec()
            } else {
                0
            },
        decreases upto,
    {
        if upto > 0 {
            Self::lemma_flsum_update(s1, s2, j, d, upto - 1);
            if j == upto - 1 {
                assert((s1.free_list(j).len() + d) * pw(j) * s1.leaf_spec() == s1.free_list(
                    j,
                ).len() * pw(j) * s1.leaf_spec() + d * pw(j) * s1.leaf_spec()) by (nonlinear_arith);
            }
        }
    }

    /// Appending a block adds its size to the sum.
    pub proof fn lemma_blocks_sum_push(s: Seq<(int, int)>, leaf: usize, x: (int, int))
        ensures
            Self::blocks_sum(s.push(x), leaf) == Self::blocks_sum(s, leaf) + pw(x.0) * leaf,
    {
        assert(s.push(x).drop_last() =~= s);
        assert(s.push(x).last() == x);
    }

    // ----- construction arithmetic -----
    //
    // With `r` leaves reserved, the initial state of order `k` is fixed by
    // the quotient `q = r / 2^k`, whether the division is exact, and the
    // ceiling `u`: the blocks of index below `u` lie at least partly inside
    // the prefix, the block cut by the boundary (if any) has index `q`, and
    // the one initial free block of the order (if any) has index `u`.

    /// Floor of `r / 2^k`.
    pub open spec fn q_of(r: int, k: int) -> int {
        r / pw(k)
    }

    /// Whether `2^k` divides `r`.
    pub open spec fn exact_of(r: int, k: int) -> bool {
        r % pw(k) == 0
    }

    /// Ceiling of `r / 2^k`.
    pub open spec fn u_of(r: int, k: int) -> int {
        if Self::exact_of(r, k) {
            Self::q_of(r, k)
        } else {
            Self::q_of(r, k) + 1
        }
    }

    /// One halving step of the quotient, exactness, and ceiling.
    pub proof fn lemma_q_step(r: int, k: int)
        requires
            r >= 0,
            k >= 0,
        ensures
            Self::q_of(r, k + 1) == Self::q_of(r, k) / 2,
            Self::exact_of(r, k + 1) == (Self::exact_of(r, k) && Self::q_of(r, k) % 2 == 0),
            Self::u_of(r, k + 1) == (Self::u_of(r, k) + 1) / 2,
    {
        let p = pw(k);
        lemma_pw_pos(k);
        assert(pw(k + 1) == 2 * p);
        vstd::arithmetic::div_mod::lemma_div_denominator(r, p, 2);
        assert(r / (p * 2) == r / (2 * p)) by (nonlinear_arith);
        let q = r / p;
        let m = r % p;
        lemma_fundamental_div_mod(r, p);
        let qq = q / 2;
        let b = q % 2;
        lemma_fundamental_div_mod(q, 2);
        assert(r == (2 * p) * qq + (p * b + m)) by (nonlinear_arith)
            requires
                r == p * q + m,
                q == 2 * qq + b,
        ;
        assert(0 <= p * b + m < 2 * p) by (nonlinear_arith)
            requires
                0 <= m < p,
                0 <= b < 2,
        ;
        lemma_fundamental_div_mod_converse(r, 2 * p, qq, p * b + m);
        assert((r % (2 * p) == 0) == (b == 0 && m == 0)) by (nonlinear_arith)
            requires
                r % (2 * p) == p * b + m,
                0 <= m < p,
                0 <= b < 2,
                p >= 1,
        ;
        assert(Self::exact_of(r, k + 1) == (b == 0 && m == 0));
    }

    /// A block starts inside the reserved prefix exactly when its index is
    /// below the ceiling `u`; and the first free index `u` starts at or past
    /// the prefix.
    pub proof fn lemma_used_bound(r: int, k: int, i: int)
        requires
            r >= 0,
            k >= 0,
            i >= 0,
        ensures
            (i < Self::u_of(r, k)) == (i * pw(k) < r),
            r <= Self::u_of(r, k) * pw(k),
            (i + 1) * pw(k) <= r ==> i < Self::u_of(r, k),
    {
        let p = pw(k);
        lemma_pw_pos(k);
        let q = r / p;
        let m = r % p;
        lemma_fundamental_div_mod(r, p);
        assert(q >= 0) by (nonlinear_arith)
            requires
                r == p * q + m,
                0 <= m < p,
                r >= 0,
        ;
        if m == 0 {
            assert((i < q) == (i * p < p * q)) by (nonlinear_arith)
                requires
                    p >= 1,
                    i >= 0,
                    q >= 0,
            ;
            assert(r <= q * p) by (nonlinear_arith)
                requires
                    r == p * q,
            ;
            assert((i + 1) * p <= r ==> i < q) by (nonlinear_arith)
                requires
                    r == p * q,
                    p >= 1,
            ;
        } else {
            assert((i < q + 1) == (i * p < p * q + m)) by (nonlinear_arith)
                requires
                    p >= 1,
                    i >= 0,
                    q >= 0,
                    0 < m < p,
            ;
            assert(r <= (q + 1) * p) by (nonlinear_arith)
                requires
                    r == p * q + m,
                    m < p,
            ;
            assert((i + 1) * p <= r ==> i < q + 1) by (nonlinear_arith)
                requires
                    r == p * q + m,
                    p >= 1,
                    0 < m < p,
                    i >= 0,
                    q >= 0,
            ;
        }
    }

    /// Iterated halving of the ceiling: the order-`t` ceiling for `r` equals
    /// the order-`t - 1` ceiling for the halved prefix.
    pub proof fn lemma_u_eq(r: int, t: int)
        requires
            r >= 0,
            t >= 1,
        ensures
            Self::u_of(r, t) == Self::u_of(Self::u_of(r, 1), t - 1),
        decreases t,
    {
        let r2 = Self::u_of(r, 1);
        assert(pw(0) == 1);
        assert(Self::u_of(r, 0) == r);
        assert(Self::u_of(r2, 0) == r2) by {
            Self::lemma_q_step(r, 0);
            assert(r2 >= 0);
        }
        if t == 1 {
        } else {
            Self::lemma_u_eq(r, t - 1);
            Self::lemma_q_step(r, t - 1);
            Self::lemma_q_step(r2, t - 2);
        }
    }

    /// The initial free contribution of order `k`: one block of `2^k` leaves
    /// when the first index past the prefix is odd and its block fits in the
    /// tree, none otherwise.
    pub open spec fn init_term(r: int, kmax: int, k: int) -> int {
        if Self::u_of(r, k) % 2 == 1 && Self::u_of(r, k) + 1 <= pw(kmax - k) {
            pw(k)
        } else {
            0
        }
    }

    /// Total initial free leaves contributed by the orders below `k`.
    pub open spec fn init_sum_upto(r: int, kmax: int, k: int) -> int
        decreases k,
    {
        if k <= 0 {
            0
        } else {
            Self::init_sum_upto(r, kmax, k - 1) + Self::init_term(r, kmax, k - 1)
        }
    }

    /// The orders above zero contribute twice what the halved prefix
    /// contributes to a tree one order lower.
    pub proof fn lemma_init_shift(r: int, kmax: int, k: int)
        requires
            r >= 0,
            kmax >= 1,
            1 <= k <= kmax + 1,
        ensures
            Self::init_sum_upto(r, kmax, k) == Self::init_term(r, kmax, 0) + 2
                * Self::init_sum_upto(Self::u_of(r, 1), kmax - 1, k - 1),
        decreases k,
    {
        let r2 = Self::u_of(r, 1);
        assert(Self::init_sum_upto(r, kmax, 0) == 0);
        assert(Self::init_sum_upto(r2, kmax - 1, 0) == 0);
        if k == 1 {
            assert(Self::init_sum_upto(r, kmax, 1) == Self::init_term(r, kmax, 0));
        } else {
            Self::lemma_init_shift(r, kmax, k - 1);
            Self::lemma_u_eq(r, k - 1);
            assert(Self::init_term(r, kmax, k - 1) == 2 * Self::init_term(r2, kmax - 1, k - 2))
                by {
                assert(Self::u_of(r, k - 1) == Self::u_of(r2, k - 2));
                assert(pw(kmax - (k - 1)) == pw((kmax - 1) - (k - 2)));
                assert(pw(k - 1) == 2 * pw(k - 2));
            }
            assert(Self::init_sum_upto(r, kmax, k) == Self::init_sum_upto(r, kmax, k - 1)
                + Self::init_term(r, kmax, k - 1));
            assert(Self::init_sum_upto(r2, kmax - 1, k - 1) == Self::init_sum_upto(
                r2,
                kmax - 1,
                k - 2,
            ) + Self::init_term(r2, kmax - 1, k - 2));
        }
    }

    /// With `r` of the tree's `2^kmax` leaves reserved, the initial free
    /// blocks cover exactly the remaining leaves.
    pub proof fn lemma_init_sum(r: int, kmax: int)
        requires
            0 <= kmax,
            1 <= r <= pw(kmax),
        ensures
            Self::init_sum_upto(r, kmax, kmax + 1) == pw(kmax) - r,
        decreases kmax,
    {
        assert(pw(0) == 1);
        if kmax == 0 {
            assert(r == 1);
            assert(Self::u_of(r, 0) == r);
            assert(Self::init_term(1, 0, 0) == 0);
            assert(Self::init_sum_upto(r, 0, 0) == 0);
            assert(Self::init_sum_upto(r, 0, 1) == Self::init_sum_upto(r, 0, 0) + Self::init_term(
                r,
                0,
                0,
            ));
        } else {
            let r2 = Self::u_of(r, 1);
            Self::lemma_q_step(r, 0);
            assert(Self::u_of(r, 0) == r);
            assert(r2 == (r + 1) / 2);
            assert(1 <= r2 <= pw(kmax - 1)) by {
                assert(pw(kmax) == 2 * pw(kmax - 1));
                assert((r + 1) / 2 >= 1);
                assert(r + 1 <= 2 * pw(kmax - 1) + 1);
                assert((2 * pw(kmax - 1) + 1) / 2 == pw(kmax - 1));
            }
            Self::lemma_init_shift(r, kmax, kmax + 1);
            Self::lemma_init_sum(r2, kmax - 1);
            assert(Self::init_sum_upto(r, kmax, kmax + 1) == Self::init_term(r, kmax, 0) + 2 * (
            pw(kmax - 1) - r2));
            if r % 2 == 0 {
                assert(Self::init_term(r, kmax, 0) == 0);
                assert(2 * r2 == r);
            } else {
                assert(2 * r2 == r + 1);
                if r + 1 <= pw(kmax) {
                    assert(Self::init_term(r, kmax, 0) == 1);
                } else {
                    assert(r == pw(kmax));
                    assert(pw(kmax) % 2 == 0);
                    assert(false);
                }
            }
        }
    }

    /// Removing a block subtracts its size from the sum.
    pub proof fn lemma_blocks_sum_remove(s: Seq<(int, int)>, leaf: usize, j: int)
        requires
            0 <= j < s.len(),
        ensures
            Self::blocks_sum(s.remove(j), leaf) == Self::blocks_sum(s, leaf) - pw(s[j].0) * leaf,
        decreases s.len(),
    {
        if j == s.len() - 1 {
            assert(s.remove(j) =~= s.drop_last());
        } else {
            let t = s.drop_last();
            assert(s.remove(j).drop_last() =~= t.remove(j));
            assert(s.remove(j).last() == s.last());
            assert(s.remove(j).len() == s.len() - 1);
            Self::lemma_blocks_sum_remove(t, leaf, j);
            assert(t[j] == s[j]);
        }
    }

    // ----- the freshly constructed state -----

    /// The state a region is in right after construction: nothing is
    /// allocated, each order holds at most one free block, and the tables
    /// are exactly those induced by the reserved prefix.
    spec fn is_init_state(self) -> bool {
        let r = self.reserved_spec();
        &&& self.live_blocks() == Seq::<(int, int)>::empty()
        &&& forall|k: int|
            0 <= k <= self.k_max_spec() ==> (#[trigger] self.free_list(k)).len() == (if Self::u_of(
                r,
                k,
            ) % 2 == 1 && Self::u_of(r, k) + 1 <= self.nb(k) {
                1int
            } else {
                0int
            })
        &&& forall|k: int, t: int|
            0 <= k <= self.k_max_spec() && 0 <= t < self.free_list(k).len()
                ==> #[trigger] self.free_list(k)[t] as int == Self::u_of(r, k)
        &&& forall|k: int, i: int|
            1 <= k <= self.k_max_spec() && 0 <= i < self.nb(k) ==> (#[trigger] self.is_split(k, i))
                == (i == Self::q_of(r, k) && !Self::exact_of(r, k))
        &&& forall|k: int, p: int|
            0 <= k <= self.k_max_spec() && 0 <= p < (self.nb(k) + 1) / 2 ==> (
            #[trigger] self.alloc_bit(k, p)) == (Self::u_of(r, k) % 2 == 1 && p == Self::u_of(
                r,
                k,
            ) / 2)
        &&& self.free_bytes_spec() == self.managed_bytes()
    }

    /// In a fresh region a block is in use exactly when it starts inside the
    /// reserved prefix.
    proof fn lemma_init_used(self, k: int, i: int)
        requires
            self.wf_dims(),
            self.is_init_state(),
            self.in_range(k, i),
        ensures
            self.used(k, i) == (i < Self::u_of(self.reserved_spec(), k)),
            Self::u_of(self.reserved_spec(), k) <= self.nb(k),
    {
        let r = self.reserved_spec();
        let p = pw(k);
        let u = Self::u_of(r, k);
        lemma_pw_pos(k);
        Self::lemma_used_bound(r, k, i);
        Self::lemma_used_bound(r, k, self.nb(k));
        lemma_pw_adds(k, self.k_max_spec() - k);
        assert(self.nb(k) * p == pw(self.k_max_spec())) by (nonlinear_arith)
            requires
                pw(self.k_max_spec()) == pw(k) * pw(self.k_max_spec() - k),
                p == pw(k),
                self.nb(k) == pw(self.k_max_spec() - k),
        ;
        // u <= nb(k), since the prefix fits in the tree
        assert(!(self.nb(k) * p < r));
        assert(u <= self.nb(k));
        assert(self.live_blocks().len() == 0);
        assert(!self.is_live(k, i));
        if i < u {
            if (i + 1) * p <= r {
                assert(self.fully_reserved(k, i));
            } else {
                assert(i * p < r < (i + 1) * p);
                if k == 0 {
                    assert(pw(0) == 1);
                    assert(false);
                } else {
                    assert((i + 1) * p == i * p + p) by (nonlinear_arith);
                    lemma_fundamental_div_mod_converse(r, p, i, r - i * p);
                    assert(i == Self::q_of(r, k) && !Self::exact_of(r, k));
                    assert(self.is_split(k, i));
                }
            }
        } else {
            assert(!(i * p < r));
            assert(!self.fully_reserved(k, i)) by (nonlinear_arith)
                requires
                    self.fully_reserved(k, i) == ((i + 1) * p <= r),
                    !(i * p < r),
                    p >= 1,
            ;
            if self.is_split(k, i) {
                assert(i == Self::q_of(r, k) && !Self::exact_of(r, k));
                lemma_fundamental_div_mod(r, p);
                assert(i * p < r) by (nonlinear_arith)
                    requires
                        r == p * Self::q_of(r, k) + r % p,
                        i == Self::q_of(r, k),
                        r % p > 0,
                ;
                assert(false);
            }
        }
    }

    /// A fresh region is well-formed and every managed byte is free.
    proof fn lemma_new_wf(self)
        requires
            self.wf_dims(),
            self.is_init_state(),
        ensures
            self.wf(),
    {
        let r = self.reserved_spec();
        let kmx = self.k_max_spec();
        assert(pw(0) == 1);
        // wf_elems
        assert forall|k: int, t: int|
            0 <= k <= kmx && 0 <= t < self.free_list(k).len() implies {
            let i = #[trigger] self.free_list(k)[t] as int;
            self.in_range(k, i) && self.reserved_spec() <= self.blk_lo(k, i)
        } by {
            let i = self.free_list(k)[t] as int;
            let u = Self::u_of(r, k);
            assert(i == u && u % 2 == 1 && u + 1 <= self.nb(k));
            Self::lemma_used_bound(r, k, 0);
            assert(r <= u * pw(k));
        }
        // wf_split
        assert forall|k: int, i: int|
            self.in_range(k, i) && #[trigger] self.is_split(k, i) implies self.active(k, i)
            && !self.is_live(k, i) && self.blk_hi(k, i) > self.reserved_spec() by {
            let q = Self::q_of(r, k);
            assert(k >= 1 && i == q && !Self::exact_of(r, k));
            lemma_pw_pos(k);
            lemma_fundamental_div_mod(r, pw(k));
            assert(self.blk_hi(k, i) > r) by (nonlinear_arith)
                requires
                    r == pw(k) * q + r % pw(k),
                    r % pw(k) < pw(k),
                    i == q,
                    self.blk_hi(k, i) == (i + 1) * pw(k),
            ;
            if k < kmx {
                Self::lemma_q_step(r, k);
                self.lemma_parent_geom(k, i);
                assert(self.is_split(k + 1, i / 2));
            }
            assert(self.live_blocks().len() == 0);
        }
        assert forall|k: int, i: int|
            self.in_range(k, i) && #[trigger] self.straddles(k, i) && 1 <= k implies self.is_split(
            k,
            i,
        ) by {
            lemma_pw_pos(k);
            assert((i + 1) * pw(k) == i * pw(k) + pw(k)) by (nonlinear_arith);
            lemma_fundamental_div_mod_converse(r, pw(k), i, r - i * pw(k));
            assert(i == Self::q_of(r, k) && !Self::exact_of(r, k));
        }
        // wf_iff
        assert forall|k: int, i: int| self.in_range(k, i) implies ((#[trigger] self.on_list(k, i))
            == (self.active(k, i) && !self.is_live(k, i) && !self.is_split(k, i)
            && self.reserved_spec() <= self.blk_lo(k, i))) by {
            self.lemma_init_iff(k, i);
        }
        // wf_bits
        assert forall|k: int, p: int|
            0 <= k <= kmx && 0 <= p < (self.nb(k) + 1) / 2 implies (#[trigger] self.alloc_bit(
            k,
            p,
        )) == (self.used_in_pair(k, 2 * p) != self.used_in_pair(k, 2 * p + 1)) by {
            let u = Self::u_of(r, k);
            lemma_pw_pos(kmx - k);
            if 2 * p < self.nb(k) {
                self.lemma_init_used(k, 2 * p);
            }
            if 2 * p + 1 < self.nb(k) {
                self.lemma_init_used(k, 2 * p + 1);
            }
            Self::lemma_used_bound(r, k, 0);
            assert(u >= 0);
            if 2 * p + 1 < self.nb(k) {
                assert(self.used_in_pair(k, 2 * p) == (2 * p < u));
                assert(self.used_in_pair(k, 2 * p + 1) == (2 * p + 1 < u));
                assert(((2 * p < u) != (2 * p + 1 < u)) == (u == 2 * p + 1));
                assert((u == 2 * p + 1) == (u % 2 == 1 && p == u / 2));
            } else {
                // the right slot of the pair is past the tree: only at the top
                assert(2 * p == self.nb(k) - 1);
                assert(self.used_in_pair(k, 2 * p + 1) == false);
                assert(self.used_in_pair(k, 2 * p) == (2 * p < u));
                assert(u <= self.nb(k));
                assert((2 * p < u) == (u == self.nb(k)));
                assert((u == 2 * p + 1) == (u % 2 == 1 && p == u / 2));
            }
        }
        // the sums
        self.lemma_init_flsum(kmx + 1);
        Self::lemma_init_sum(r, kmx);
        assert(self.flsum() == (pw(kmx) - r) * self.leaf_spec());
        assert(self.live_sum() == 0);
        assert(self.managed_bytes() == (self.total_spec() - r) * self.leaf_spec());
    }

    /// The free-list membership law holds in a fresh region.
    proof fn lemma_init_iff(self, k: int, i: int)
        requires
            self.wf_dims(),
            self.is_init_state(),
            self.in_range(k, i),
        ensures
            self.on_list(k, i) == (self.active(k, i) && !self.is_live(k, i) && !self.is_split(
                k,
                i,
            ) && self.reserved_spec() <= self.blk_lo(k, i)),
    {
        let r = self.reserved_spec();
        let kmx = self.k_max_spec();
        let u = Self::u_of(r, k);
        let p = pw(k);
        lemma_pw_pos(k);
        assert(pw(0) == 1);
        assert(self.live_blocks().len() == 0);
        assert(!self.is_live(k, i));
        Self::lemma_used_bound(r, k, 0);
        assert(u >= 0);
        let listed = u % 2 == 1 && u + 1 <= self.nb(k);
        assert(self.on_list(k, i) == (listed && i == u)) by {
            if listed && i == u {
                assert(self.free_list(k)[0] as int == i);
                assert(self.on_list(k, i));
            } else {
                if self.on_list(k, i) {
                    let t = choose|t: int|
                        0 <= t < self.free_list(k).len() && self.free_list(k)[t] as int == i;
                    assert(self.free_list(k).len() == 1 && i == u);
                }
            }
        }
        if listed && i == u {
            // listed implies the right-hand side
            assert(r <= u * p);
            assert(!self.is_split(k, i)) by {
                if k >= 1 && i == Self::q_of(r, k) && !Self::exact_of(r, k) {
                    assert(u == Self::q_of(r, k) + 1);
                    assert(false);
                }
            }
            if k < kmx {
                Self::lemma_q_step(r, k);
                assert(!Self::exact_of(r, k + 1)) by {
                    if Self::exact_of(r, k + 1) {
                        assert(Self::exact_of(r, k) && Self::q_of(r, k) % 2 == 0);
                        assert(u == Self::q_of(r, k));
                        assert(false);
                    }
                }
                assert(Self::u_of(r, k + 1) == (u + 1) / 2);
                assert(Self::q_of(r, k + 1) == (u + 1) / 2 - 1 || Self::q_of(r, k + 1) == u / 2)
                    by {
                    if Self::exact_of(r, k) {
                        assert(Self::q_of(r, k) == u);
                    } else {
                        assert(Self::q_of(r, k) == u - 1);
                    }
                }
                assert(Self::q_of(r, k + 1) == u / 2) by {
                    if Self::exact_of(r, k) {
                        assert(Self::q_of(r, k + 1) == u / 2);
                    } else {
                        assert(Self::q_of(r, k + 1) == (u - 1) / 2);
                        assert((u - 1) / 2 == u / 2);
                    }
                }
                self.lemma_parent_geom(k, i);
                assert(self.is_split(k + 1, i / 2));
                assert(self.active(k, i));
            } else {
                assert(self.active(k, i));
            }
        } else {
            // not listed: show the right-hand side fails
            if self.active(k, i) && !self.is_split(k, i) && r <= self.blk_lo(k, i) {
                if k == kmx {
                    assert(self.nb(k) == 1);
                    assert(i == 0);
                    assert(self.blk_lo(k, i) == 0);
                    assert(r >= 1);
                    assert(false);
                } else {
                    assert(self.is_split(k + 1, i / 2));
                    let q1 = Self::q_of(r, k + 1);
                    assert(i / 2 == q1 && !Self::exact_of(r, k + 1));
                    let pp = pw(k + 1);
                    lemma_pw_pos(k + 1);
                    lemma_fundamental_div_mod(r, pp);
                    assert(pp * q1 < r) by (nonlinear_arith)
                        requires
                            r == pp * q1 + r % pp,
                            r % pp > 0,
                    ;
                    assert(r < pp * q1 + pp) by (nonlinear_arith)
                        requires
                            r == pp * q1 + r % pp,
                            r % pp < pp,
                    ;
                    self.lemma_parent_geom(k, i);
                    assert(pp == 2 * p);
                    assert(i == 2 * q1 || i == 2 * q1 + 1);
                    assert(self.blk_lo(k, 2 * q1) == q1 * pp) by (nonlinear_arith)
                        requires
                            self.blk_lo(k, 2 * q1) == (2 * q1) * p,
                            pp == 2 * p,
                    ;
                    if i == 2 * q1 {
                        assert(self.blk_lo(k, i) < r) by (nonlinear_arith)
                            requires
                                self.blk_lo(k, i) == q1 * pp,
                                pp * q1 < r,
                        ;
                        assert(false);
                    } else {
                        // the right child: its index is the ceiling, and it is odd
                        assert(i == 2 * q1 + 1);
                        assert((i - 1) * p == q1 * pp) by (nonlinear_arith)
                            requires
                                pp == 2 * p,
                                i == 2 * q1 + 1,
                        ;
                        assert((i - 1) * p < r) by (nonlinear_arith)
                            requires
                                (i - 1) * p == q1 * pp,
                                pp * q1 < r,
                        ;
                        Self::lemma_used_bound(r, k, i - 1);
                        Self::lemma_used_bound(r, k, i);
                        assert(i - 1 < u);
                        assert(!(i * p < r));
                        assert(!(i < u));
                        assert(u == i);
                        assert(u % 2 == 1);
                        assert(u + 1 <= self.nb(k));
                        assert(listed);
                        assert(false);
                    }
                }
            }
        }
    }

    /// A sum of block sizes is never negative.
    pub proof fn lemma_blocks_sum_nonneg(s: Seq<(int, int)>, leaf: usize)
        requires
            forall|j: int| 0 <= j < s.len() ==> (#[trigger] s[j]).0 >= 0,
        ensures
            Self::blocks_sum(s, leaf) >= 0,
        decreases s.len(),
    {
        if s.len() > 0 {
            Self::lemma_blocks_sum_nonneg(s.drop_last(), leaf);
            lemma_pw_pos(s.last().0);
            assert(pw(s.last().0) * leaf >= 0) by (nonlinear_arith)
                requires
                    pw(s.last().0) >= 1,
            ;
        }
    }

    /// Well-formedness does not depend on the contents of the backing
    /// bytes, only on their number.
    proof fn lemma_wf_frame(s1: Self, s2: Self)
        requires
            s1.wf(),
            s2.leaf_size == s1.leaf_size,
            s2.base == s1.base,
            s2.k_max == s1.k_max,
            s2.total_leaves == s1.total_leaves,
            s2.reserved == s1.reserved,
            s2.free_lists == s1.free_lists,
            s2.alloc_bits == s1.alloc_bits,
            s2.split_bits == s1.split_bits,
            s2.free_bytes == s1.free_bytes,
            s2.live@ == s1.live@,
            s2.mem_base == s1.mem_base,
            s2.mem@.len() == s1.mem@.len(),
        ensures
            s2.wf(),
    {
        Self::lemma_pieces_frame(s1, s2);
        Self::lemma_flsum_agree(s1, s2, s1.k_max_spec() + 1);
    }

    /// The structural parts of well-formedness do not depend on the byte
    /// counter or the backing bytes.
    proof fn lemma_pieces_frame(s1: Self, s2: Self)
        requires
            s1.wf_dims(),
            s1.wf_elems(),
            s1.wf_live(),
            s1.wf_split(),
            s1.wf_iff(),
            s1.wf_bits(),
            s2.leaf_size == s1.leaf_size,
            s2.base == s1.base,
            s2.k_max == s1.k_max,
            s2.total_leaves == s1.total_leaves,
            s2.reserved == s1.reserved,
            s2.free_lists == s1.free_lists,
            s2.alloc_bits == s1.alloc_bits,
            s2.split_bits == s1.split_bits,
            s2.live@ == s1.live@,
            s2.mem_base == s1.mem_base,
            s2.mem@.len() == s1.mem@.len(),
        ensures
            s2.wf_dims(),
            s2.wf_elems(),
            s2.wf_live(),
            s2.wf_split(),
            s2.wf_iff(),
            s2.wf_bits(),
    {
        assert forall|k: int| 0 <= k implies s2.free_list(k) == s1.free_list(k) by {}
        assert forall|k: int, i: int| true implies #[trigger] s2.is_split(k, i) == s1.is_split(
            k,
            i,
        ) by {}
        assert forall|k: int, i: int| true implies #[trigger] s2.active(k, i) == s1.active(
            k,
            i,
        ) by {}
        assert forall|k: int, i: int| true implies #[trigger] s2.is_live(k, i) == s1.is_live(
            k,
            i,
        ) by {}
        assert forall|k: int, i: int| true implies #[trigger] s2.used(k, i) == s1.used(k, i) by {}
        assert forall|k: int, p: int| true implies #[trigger] s2.alloc_bit(k, p) == s1.alloc_bit(
            k,
            p,
        ) by {}
        assert forall|k: int, i: int| true implies #[trigger] s2.on_list(k, i) == s1.on_list(
            k,
            i,
        ) by {
            assert(s2.free_list(k) == s1.free_list(k));
        }
        assert(s2.wf_dims());
        assert(s2.wf_elems());
        assert forall|w: int|
            0 <= w < s2.live_blocks().len() implies {
            let (kw, xw) = #[trigger] s2.live_blocks()[w];
            &&& s2.in_range(kw, xw)
            &&& s2.reserved_spec() <= s2.blk_lo(kw, xw)
            &&& s2.active(kw, xw)
            &&& !s2.is_split(kw, xw)
        } by {
            assert(s2.live_blocks()[w] == s1.live_blocks()[w]);
            let (kw, xw) = s1.live_blocks()[w];
            assert(s2.active(kw, xw) == s1.active(kw, xw));
            assert(s2.is_split(kw, xw) == s1.is_split(kw, xw));
        }
        assert forall|w1: int, w2: int|
            0 <= w1 < w2 < s2.live_blocks().len() implies (#[trigger] s2.live_blocks()[w1]) != (
        #[trigger] s2.live_blocks()[w2]) by {
            assert(s2.live_blocks()[w1] == s1.live_blocks()[w1]);
            assert(s2.live_blocks()[w2] == s1.live_blocks()[w2]);
        }
        assert(s2.wf_live());
        assert forall|k: int, i: int|
            s2.in_range(k, i) && #[trigger] s2.is_split(k, i) implies s2.active(k, i)
            && !s2.is_live(k, i) && s2.blk_hi(k, i) > s2.reserved_spec() by {
            assert(s1.is_split(k, i));
        }
        assert forall|k: int, i: int|
            s2.in_range(k, i) && #[trigger] s2.straddles(k, i) && 1 <= k implies s2.is_split(
            k,
            i,
        ) by {
            assert(s1.straddles(k, i));
        }
        assert(s2.wf_iff());
        assert(s2.wf_bits());
    }

    /// How many bytes the region can still hand out: the sum of the blocks
    /// on all free lists. Together with the outstanding allocations it
    /// accounts for every managed byte, so it never exceeds the capacity.
    pub fn available_bytes(&self) -> (r: usize)
        requires
            self.wf(),
        ensures
            r == self.free_bytes_spec(),
            r == self.flsum(),
            r + self.live_sum() == self.managed_bytes(),
            r <= self.managed_bytes(),
    {
        proof {
            Self::lemma_blocks_sum_nonneg(self.live_blocks(), self.leaf_spec());
        }
        self.free_bytes
    }

    /// Store one byte at `addr`, which must lie inside the caller's region.
    /// Every other byte keeps its value, so a later `read_byte` at `addr`
    /// returns exactly `val`.
    pub fn write_byte(&mut self, addr: usize, val: u8)
        requires
            old(self).wf(),
            old(self).mem_base_spec() <= addr,
            addr - old(self).mem_base_spec() < old(self).mem_bytes().len(),
        ensures
            final(self).wf(),
            final(self).leaf_spec() == old(self).leaf_spec(),
            final(self).base_spec() == old(self).base_spec(),
            final(self).k_max_spec() == old(self).k_max_spec(),
            final(self).total_spec() == old(self).total_spec(),
            final(self).reserved_spec() == old(self).reserved_spec(),
            final(self).mem_base_spec() == old(self).mem_base_spec(),
            final(self).free_bytes_spec() == old(self).free_bytes_spec(),
            final(self).live_blocks() == old(self).live_blocks(),
            forall|k: int|
                0 <= k <= old(self).k_max_spec() ==> final(self).free_list(k) == old(
                    self,
                ).free_list(k),
            final(self).mem_bytes() == old(self).mem_bytes().update(
                addr - old(self).mem_base_spec(),
                val,
            ),
    {
        let i = addr - self.mem_base;
        self.mem.set(i, val);
        proof {
            Self::lemma_wf_frame(*old(self), *self);
        }
    }

    /// Load the byte at `addr`, which must lie inside the caller's region.
    pub fn read_byte(&self, addr: usize) -> (r: u8)
        requires
            self.wf(),
            self.mem_base_spec() <= addr,
            addr - self.mem_base_spec() < self.mem_bytes().len(),
        ensures
            r == self.mem_bytes()[addr - self.mem_base_spec()],
    {
        let i = addr - self.mem_base;
        self.mem[i]
    }

    /// The invariant between the steps of an allocation or a deallocation:
    /// everything holds but for one block `(k0, i0)` that is in flight — it
    /// is addressable, whole, unallocated and past the reserved prefix, yet
    /// on no free list.
    spec fn mid_state(self, k0: int, i0: int) -> bool {
        &&& self.wf_dims()
        &&& self.wf_elems()
        &&& self.wf_live()
        &&& self.wf_split()
        &&& self.wf_iff_except(k0, i0)
        &&& self.in_range(k0, i0)
        &&& self.reserved_spec() <= self.blk_lo(k0, i0)
        &&& self.active(k0, i0)
        &&& !self.is_split(k0, i0)
        &&& !self.is_live(k0, i0)
        &&& !self.on_list(k0, i0)
    }

    /// Popping the last block off the order-`j` free list leaves a
    /// well-formed state with that block in flight.
    proof fn lemma_pop_step(s1: Self, s2: Self, j: int)
        requires
            s1.wf(),
            0 <= j <= s1.k_max_spec(),
            s1.free_list(j).len() > 0,
            s2.leaf_size == s1.leaf_size,
            s2.base == s1.base,
            s2.k_max == s1.k_max,
            s2.total_leaves == s1.total_leaves,
            s2.reserved == s1.reserved,
            s2.alloc_bits == s1.alloc_bits,
            s2.split_bits == s1.split_bits,
            s2.free_bytes == s1.free_bytes,
            s2.live == s1.live,
            s2.mem_base == s1.mem_base,
            s2.mem == s1.mem,
            s2.free_lists@.len() == s1.free_lists@.len(),
            s2.free_list(j) == s1.free_list(j).drop_last(),
            forall|t: int|
                0 <= t < s1.free_lists@.len() && t != j ==> (#[trigger] s2.free_lists@[t])
                    == s1.free_lists@[t],
        ensures
            s2.mid_state(j, s1.free_list(j).last() as int),
            s2.wf_bits(),
            s2.flsum() == s1.flsum() - pw(j) * s1.leaf_spec(),
        decreases 0int,
    {
        let i = s1.free_list(j).last() as int;
        assert(s1.on_list(j, i)) by {
            assert(s1.free_list(j)[s1.free_list(j).len() - 1] as int == i);
        }
        assert(s1.active(j, i) && !s1.is_live(j, i) && !s1.is_split(j, i) && s1.reserved_spec()
            <= s1.blk_lo(j, i));
        // pointwise equalities for everything but the popped list
        assert forall|t: int, x: int| true implies #[trigger] s2.is_split(t, x) == s1.is_split(
            t,
            x,
        ) by {}
        assert forall|t: int, x: int| true implies #[trigger] s2.active(t, x) == s1.active(
            t,
            x,
        ) by {}
        assert forall|t: int, x: int| true implies #[trigger] s2.is_live(t, x) == s1.is_live(
            t,
            x,
        ) by {}
        assert forall|t: int, x: int| true implies #[trigger] s2.used(t, x) == s1.used(t, x) by {}
        assert forall|t: int, p: int| true implies #[trigger] s2.alloc_bit(t, p) == s1.alloc_bit(
            t,
            p,
        ) by {}
        assert(!s2.on_list(j, i)) by {
            if s2.on_list(j, i) {
                let t = choose|t: int|
                    0 <= t < s2.free_list(j).len() && s2.free_list(j)[t] as int == i;
                assert(s1.free_list(j)[t] as int == i);
                assert(s1.free_list(j)[s1.free_list(j).len() - 1] as int == i);
                assert(t < s1.free_list(j).len() - 1);
                assert(false);
            }
        }
        assert forall|t: int, x: int|
            !(t == j && x == i) && 0 <= t <= s1.k_max_spec() implies #[trigger] s2.on_list(t, x)
            == s1.on_list(t, x) by {
            if t != j {
                assert(s2.free_lists@[t] == s1.free_lists@[t]);
                assert(s2.free_list(t) == s1.free_list(t));
            } else {
                if s2.on_list(t, x) {
                    let w = choose|w: int|
                        0 <= w < s2.free_list(t).len() && s2.free_list(t)[w] as int == x;
                    assert(s1.free_list(t)[w] as int == x);
                    assert(s1.on_list(t, x));
                }
                if s1.on_list(t, x) {
                    let w = choose|w: int|
                        0 <= w < s1.free_list(t).len() && s1.free_list(t)[w] as int == x;
                    assert(w != s1.free_list(t).len() - 1);
                    assert(s2.free_list(t)[w] as int == x);
                    assert(s2.on_list(t, x));
                }
            }
        }
        assert(s2.wf_dims());
        assert forall|k: int, t: int|
            0 <= k <= s2.k_max_spec() && 0 <= t < s2.free_list(k).len() implies {
            let x = #[trigger] s2.free_list(k)[t] as int;
            s2.in_range(k, x) && s2.reserved_spec() <= s2.blk_lo(k, x)
        } by {
            if k == j {
                assert(s2.free_list(k) == s1.free_list(k).drop_last());
                assert(s2.free_list(k)[t] == s1.free_list(k)[t]);
                assert(s1.free_list(k)[t] as int == s2.free_list(k)[t] as int);
            } else {
                assert(s2.free_lists@[k] == s1.free_lists@[k]);
                assert(s2.free_list(k)[t] == s1.free_list(k)[t]);
            }
        }
        assert forall|k: int, t1: int, t2: int|
            0 <= k <= s2.k_max_spec() && 0 <= t1 < t2 < s2.free_list(k).len() implies (
        #[trigger] s2.free_list(k)[t1]) != (#[trigger] s2.free_list(k)[t2]) by {
            if k == j {
                assert(s2.free_list(k) == s1.free_list(k).drop_last());
                assert(s2.free_list(k)[t1] == s1.free_list(k)[t1]);
                assert(s2.free_list(k)[t2] == s1.free_list(k)[t2]);
            } else {
                assert(s2.free_lists@[k] == s1.free_lists@[k]);
                assert(s2.free_list(k)[t1] == s1.free_list(k)[t1]);
                assert(s2.free_list(k)[t2] == s1.free_list(k)[t2]);
            }
        }
        assert forall|w: int|
            0 <= w < s2.live_blocks().len() implies {
            let (kw, xw) = #[trigger] s2.live_blocks()[w];
            &&& s2.in_range(kw, xw)
            &&& s2.reserved_spec() <= s2.blk_lo(kw, xw)
            &&& s2.active(kw, xw)
            &&& !s2.is_split(kw, xw)
        } by {
            assert(s2.live_blocks()[w] == s1.live_blocks()[w]);
            let (kw, xw) = s1.live_blocks()[w];
            assert(s2.active(kw, xw) == s1.active(kw, xw));
            assert(s2.is_split(kw, xw) == s1.is_split(kw, xw));
        }
        assert forall|w1: int, w2: int|
            0 <= w1 < w2 < s2.live_blocks().len() implies (#[trigger] s2.live_blocks()[w1]) != (
        #[trigger] s2.live_blocks()[w2]) by {
            assert(s2.live_blocks()[w1] == s1.live_blocks()[w1]);
            assert(s2.live_blocks()[w2] == s1.live_blocks()[w2]);
        }
        assert(s2.wf_live());
        assert forall|k: int, x: int|
            s2.in_range(k, x) && #[trigger] s2.is_split(k, x) implies s2.active(k, x)
            && !s2.is_live(k, x) && s2.blk_hi(k, x) > s2.reserved_spec() by {
            assert(s1.is_split(k, x));
            assert(s2.active(k, x) == s1.active(k, x));
            assert(s2.is_live(k, x) == s1.is_live(k, x));
        }
        assert forall|k: int, x: int|
            s2.in_range(k, x) && #[trigger] s2.straddles(k, x) && 1 <= k implies s2.is_split(
            k,
            x,
        ) by {
            assert(s1.straddles(k, x));
            assert(s2.is_split(k, x) == s1.is_split(k, x));
        }
        assert(s2.wf_split());
        assert forall|t: int, x: int|
            s2.in_range(t, x) && !(t == j && x == i) implies ((#[trigger] s2.on_list(t, x)) == (
        s2.active(t, x) && !s2.is_live(t, x) && !s2.is_split(t, x) && s2.reserved_spec()
            <= s2.blk_lo(t, x))) by {
            assert(s2.on_list(t, x) == s1.on_list(t, x));
            assert(s2.active(t, x) == s1.active(t, x));
            assert(s2.is_live(t, x) == s1.is_live(t, x));
            assert(s2.is_split(t, x) == s1.is_split(t, x));
            assert(s1.on_list(t, x) == (s1.active(t, x) && !s1.is_live(t, x) && !s1.is_split(t, x)
                && s1.reserved_spec() <= s1.blk_lo(t, x)));
        }
        assert(s2.wf_iff_except(j, i));
        assert forall|t: int, p: int|
            0 <= t <= s2.k_max_spec() && 0 <= p < (s2.nb(t) + 1) / 2 implies (
        #[trigger] s2.alloc_bit(t, p)) == (s2.used_in_pair(t, 2 * p) != s2.used_in_pair(
            t,
            2 * p + 1,
        )) by {
            assert(s2.alloc_bit(t, p) == s1.alloc_bit(t, p));
            assert(s1.alloc_bit(t, p) == (s1.used_in_pair(t, 2 * p) != s1.used_in_pair(
                t,
                2 * p + 1,
            )));
            if 2 * p < s1.nb(t) {
                assert(s2.used(t, 2 * p) == s1.used(t, 2 * p));
            }
            if 2 * p + 1 < s1.nb(t) {
                assert(s2.used(t, 2 * p + 1) == s1.used(t, 2 * p + 1));
            }
        }
        assert(s2.wf_bits());
        assert forall|t: int|
            0 <= t < s1.k_max_spec() + 1 && t != j implies (#[trigger] s1.free_list(t)).len()
            == s2.free_list(t).len() by {
            assert(s2.free_lists@[t] == s1.free_lists@[t]);
        }
        assert(s2.free_list(j).len() == s1.free_list(j).len() + (-1));
        Self::lemma_flsum_update(s1, s2, j, -1, s1.k_max_spec() + 1);
        lemma_pw_pos(j);
        assert(s2.flsum_upto(s1.k_max_spec() + 1) == s1.flsum_upto(s1.k_max_spec() + 1) + (-1) * pw(
            j,
        ) * s1.leaf_spec());
        assert((-1) * pw(j) * s1.leaf_spec() == -(pw(j) * s1.leaf_spec())) by (nonlinear_arith);
        assert(s2.flsum() == s2.flsum_upto(s2.k_max_spec() + 1));
        assert(s2.k_max_spec() == s1.k_max_spec());
    }

    /// Splitting the in-flight block: flip its pair bit, set its split bit,
    /// push its right child, and the left child is in flight.
    proof fn lemma_split_step(s1: Self, s2: Self, ck: int, ci: int)
        requires
            s1.mid_state(ck, ci),
            s1.wf_bits(),
            1 <= ck,
            s2.leaf_size == s1.leaf_size,
            s2.base == s1.base,
            s2.k_max == s1.k_max,
            s2.total_leaves == s1.total_leaves,
            s2.reserved == s1.reserved,
            s2.free_bytes == s1.free_bytes,
            s2.live == s1.live,
            s2.mem_base == s1.mem_base,
            s2.mem == s1.mem,
            s2.alloc_bits@.len() == s1.alloc_bits@.len(),
            s2.alloc_bits@[ck]@ == s1.alloc_bits@[ck]@.update(
                ci / 2,
                !s1.alloc_bits@[ck]@[ci / 2],
            ),
            forall|t: int|
                0 <= t < s1.alloc_bits@.len() && t != ck ==> (#[trigger] s2.alloc_bits@[t])
                    == s1.alloc_bits@[t],
            s2.split_bits@.len() == s1.split_bits@.len(),
            s2.split_bits@[ck]@ == s1.split_bits@[ck]@.update(ci, true),
            forall|t: int|
                0 <= t < s1.split_bits@.len() && t != ck ==> (#[trigger] s2.split_bits@[t])
                    == s1.split_bits@[t],
            s2.free_lists@.len() == s1.free_lists@.len(),
            s2.free_list(ck - 1) == s1.free_list(ck - 1).push((2 * ci + 1) as usize),
            forall|t: int|
                0 <= t < s1.free_lists@.len() && t != ck - 1 ==> (#[trigger] s2.free_lists@[t])
                    == s1.free_lists@[t],
        ensures
            s2.mid_state(ck - 1, 2 * ci),
            s2.wf_bits(),
            s2.blk_lo(ck - 1, 2 * ci) == s1.blk_lo(ck, ci),
            s2.blk_hi(ck - 1, 2 * ci) <= s1.blk_hi(ck, ci),
            s2.flsum() == s1.flsum() + pw(ck - 1) * s1.leaf_spec(),
        decreases 0int,
    {
        let kl = s1.k_max_spec();
        let r = s1.reserved_spec();
        let lc = 2 * ci;
        let rc = 2 * ci + 1;
        s1.lemma_child_geom(ck, ci);
        lemma_pw_pos(ck - 1);
        lemma_pw_pos(ck);
        lemma_pw_pos(kl - ck);
        assert(ci / 2 < (s1.nb(ck) + 1) / 2) by (nonlinear_arith)
            requires
                0 <= ci < s1.nb(ck),
        ;
        // pointwise maps
        assert forall|t: int, x: int| !(t == ck && x == ci) && 1 <= t <= kl && 0 <= x < s1.nb(
            t,
        ) implies #[trigger] s2.is_split(t, x) == s1.is_split(t, x) by {
            if t != ck {
                assert(s2.split_bits@[t] == s1.split_bits@[t]);
            }
        }
        assert(s2.is_split(ck, ci));
        lemma_pw_mono(kl - ck, kl - (ck - 1));
        assert(s1.nb(ck - 1) == 2 * s1.nb(ck));
        lemma_pw_mono(kl - (ck - 1), kl);
        assert(s1.nb(ck - 1) <= s1.total_spec());
        assert(0 <= rc < s1.total_spec());
        assert(((rc as usize) as int) == rc);
        assert forall|t: int, x: int| true implies #[trigger] s2.is_live(t, x) == s1.is_live(
            t,
            x,
        ) by {}
        assert forall|t: int, x: int|
            !(t == ck - 1 && x == rc) && 0 <= t <= kl implies #[trigger] s2.on_list(t, x)
            == s1.on_list(t, x) by {
            if t == ck - 1 {
                assert(s2.free_list(t) == s1.free_list(t).push(rc as usize));
                if s2.on_list(t, x) {
                    let w = choose|w: int|
                        0 <= w < s2.free_list(t).len() && s2.free_list(t)[w] as int == x;
                    if w == s1.free_list(t).len() {
                        assert(s2.free_list(t)[w] as int == rc);
                        assert(false);
                    }
                    assert(s1.free_list(t)[w] as int == x);
                    assert(s1.on_list(t, x));
                }
                if s1.on_list(t, x) {
                    let w = choose|w: int|
                        0 <= w < s1.free_list(t).len() && s1.free_list(t)[w] as int == x;
                    assert(s2.free_list(t)[w] as int == x);
                }
            } else {
                assert(s2.free_lists@[t] == s1.free_lists@[t]);
                assert(s2.free_list(t) == s1.free_list(t));
            }
        }
        assert(s2.on_list(ck - 1, rc)) by {
            let w = s2.free_list(ck - 1).len() - 1;
            assert(s2.free_list(ck - 1)[w] as int == rc);
        }
        // the children were not addressable before the split
        assert(!s1.active(ck - 1, lc) && !s1.active(ck - 1, rc));
        assert(!s1.is_live(ck - 1, lc) && !s1.is_live(ck - 1, rc)) by {
            if s1.is_live(ck - 1, lc) {
                let w = choose|w: int|
                    0 <= w < s1.live@.len() && s1.live@[w] == (ck - 1, lc);
                assert(s1.active(ck - 1, lc));
            }
            if s1.is_live(ck - 1, rc) {
                let w = choose|w: int|
                    0 <= w < s1.live@.len() && s1.live@[w] == (ck - 1, rc);
                assert(s1.active(ck - 1, rc));
            }
        }
        assert(!s1.is_split(ck - 1, lc) && !s1.is_split(ck - 1, rc));
        assert(!s1.on_list(ck - 1, lc) && !s1.on_list(ck - 1, rc));
        // activeness changes exactly at the two children
        assert forall|t: int, x: int|
            !(t == ck - 1 && (x == lc || x == rc)) && 0 <= t <= kl && 0 <= x < s2.nb(
                t,
            ) implies #[trigger] s2.active(t, x) == s1.active(t, x) by {
            if t < kl {
                assert(x / 2 < s2.nb(t + 1)) by (nonlinear_arith)
                    requires
                        0 <= x < s2.nb(t),
                        s2.nb(t) == 2 * s2.nb(t + 1),
                ;
                if t + 1 == ck && x / 2 == ci {
                    assert(x == lc || x == rc);
                    assert(false);
                }
            }
        }
        assert(s2.active(ck - 1, lc) && s2.active(ck - 1, rc)) by {
            assert(s2.is_split(ck, ci));
            assert(lc / 2 == ci && rc / 2 == ci);
        }
        // in-use changes exactly at the split block
        assert(!s1.used(ck, ci)) by {
            assert(s1.blk_hi(ck, ci) > s1.blk_lo(ck, ci)) by (nonlinear_arith)
                requires
                    pw(ck) >= 1,
                    s1.blk_hi(ck, ci) == (ci + 1) * pw(ck),
                    s1.blk_lo(ck, ci) == ci * pw(ck),
            ;
        }
        assert(s2.used(ck, ci));
        assert forall|t: int, x: int| !(t == ck && x == ci) && 0 <= t <= kl && 0 <= x < s1.nb(
            t,
        ) implies #[trigger] s2.used(t, x) == s1.used(t, x) by {
            assert(s2.is_live(t, x) == s1.is_live(t, x));
            if 1 <= t {
                assert(s2.is_split(t, x) == s1.is_split(t, x));
            }
        }
        // dimensions
        assert(s2.wf_dims()) by {
            assert forall|k: int| 1 <= k <= kl implies (#[trigger] s2.split_bits@[k]@.len())
                == s2.nb(k) by {
                if k != ck {
                    assert(s2.split_bits@[k] == s1.split_bits@[k]);
                }
            }
            assert forall|k: int| 0 <= k <= kl implies (#[trigger] s2.alloc_bits@[k]@.len()) == (
            s2.nb(k) + 1) / 2 by {
                if k != ck {
                    assert(s2.alloc_bits@[k] == s1.alloc_bits@[k]);
                }
            }
        }
        // free-list elements
        assert(r <= s1.blk_lo(ck - 1, rc) && s1.in_range(ck - 1, rc)) by {
            assert(r <= s1.blk_lo(ck, ci));
            assert(s1.blk_lo(ck - 1, rc) >= s1.blk_lo(ck - 1, lc)) by (nonlinear_arith)
                requires
                    pw(ck - 1) >= 1,
                    s1.blk_lo(ck - 1, rc) == rc * pw(ck - 1),
                    s1.blk_lo(ck - 1, lc) == lc * pw(ck - 1),
                    rc == lc + 1,
            ;
        }
        assert forall|k: int, t: int|
            0 <= k <= kl && 0 <= t < s2.free_list(k).len() implies {
            let x = #[trigger] s2.free_list(k)[t] as int;
            s2.in_range(k, x) && r <= s2.blk_lo(k, x)
        } by {
            if k == ck - 1 {
                assert(s2.free_list(k) == s1.free_list(k).push(rc as usize));
                if t == s2.free_list(k).len() - 1 {
                    assert(s2.free_list(k)[t] == (rc as usize));
                    assert(s2.free_list(k)[t] as int == rc);
                    assert(s2.in_range(k, rc) && r <= s2.blk_lo(k, rc));
                } else {
                    assert(s2.free_list(k)[t] == s1.free_list(k)[t]);
                    let x = s1.free_list(k)[t] as int;
                    assert(s1.in_range(k, x) && r <= s1.blk_lo(k, x));
                }
            } else {
                assert(s2.free_lists@[k] == s1.free_lists@[k]);
                assert(s2.free_list(k)[t] == s1.free_list(k)[t]);
                let x = s1.free_list(k)[t] as int;
                assert(s1.in_range(k, x) && r <= s1.blk_lo(k, x));
            }
        }
        assert forall|k: int, t1: int, t2: int|
            0 <= k <= kl && 0 <= t1 < t2 < s2.free_list(k).len() implies (
        #[trigger] s2.free_list(k)[t1]) != (#[trigger] s2.free_list(k)[t2]) by {
            if k == ck - 1 {
                assert(s2.free_list(k) == s1.free_list(k).push(rc as usize));
                assert(s1.free_list(k)[t1] == s2.free_list(k)[t1]);
                if t2 == s2.free_list(k).len() - 1 {
                    assert(s2.free_list(k)[t2] == (rc as usize));
                    if s2.free_list(k)[t1] == (rc as usize) {
                        assert(s1.free_list(k)[t1] as int == rc);
                        assert(s1.on_list(ck - 1, rc));
                        assert(false);
                    }
                } else {
                    assert(s1.free_list(k)[t2] == s2.free_list(k)[t2]);
                    assert(s1.free_list(k)[t1] != s1.free_list(k)[t2]);
                }
            } else {
                assert(s2.free_lists@[k] == s1.free_lists@[k]);
                assert(s2.free_list(k)[t1] == s1.free_list(k)[t1]);
                assert(s2.free_list(k)[t2] == s1.free_list(k)[t2]);
                assert(s1.free_list(k)[t1] != s1.free_list(k)[t2]);
            }
        }
        // live blocks
        assert forall|w: int|
            0 <= w < s2.live_blocks().len() implies {
            let (k, x) = #[trigger] s2.live_blocks()[w];
            &&& s2.in_range(k, x)
            &&& r <= s2.blk_lo(k, x)
            &&& s2.active(k, x)
            &&& !s2.is_split(k, x)
        } by {
            let (k, x) = s2.live_blocks()[w];
            assert(s1.is_live(k, x));
            assert(s1.active(k, x));
            if k == ck - 1 && (x == lc || x == rc) {
                assert(!s1.active(k, x));
                assert(false);
            }
            if k == ck && x == ci {
                assert(s1.is_live(ck, ci));
                assert(false);
            }
        }
        assert(s2.wf_live());
        // split blocks
        assert forall|k: int, x: int|
            s2.in_range(k, x) && #[trigger] s2.is_split(k, x) implies s2.active(k, x)
            && !s2.is_live(k, x) && s2.blk_hi(k, x) > r by {
            if k == ck && x == ci {
                assert(s2.active(ck, ci) == s1.active(ck, ci));
                assert(s1.blk_hi(ck, ci) > s1.blk_lo(ck, ci)) by (nonlinear_arith)
                    requires
                        pw(ck) >= 1,
                        s1.blk_hi(ck, ci) == (ci + 1) * pw(ck),
                        s1.blk_lo(ck, ci) == ci * pw(ck),
                ;
            } else {
                assert(s1.is_split(k, x));
                assert(s1.active(k, x));
                if k == ck - 1 && (x == lc || x == rc) {
                    assert(false);
                }
            }
        }
        assert forall|k: int, x: int|
            s2.in_range(k, x) && #[trigger] s2.straddles(k, x) && 1 <= k implies s2.is_split(
            k,
            x,
        ) by {
            assert(s1.straddles(k, x));
            assert(s1.is_split(k, x));
            if k == ck && x == ci {
            } else {
                assert(s2.is_split(k, x) == s1.is_split(k, x));
            }
        }
        // the membership law, with the left child now in flight
        assert forall|k: int, x: int|
            s2.in_range(k, x) && !(k == ck - 1 && x == lc) implies ((#[trigger] s2.on_list(k, x))
            == (s2.active(k, x) && !s2.is_live(k, x) && !s2.is_split(k, x) && r <= s2.blk_lo(
            k,
            x,
        ))) by {
            if k == ck && x == ci {
                assert(!s2.on_list(k, x));
                assert(s2.is_split(k, x));
            } else if k == ck - 1 && x == rc {
                assert(s2.on_list(k, x));
                assert(s2.active(k, x) && !s2.is_live(k, x) && !s2.is_split(k, x));
                assert(r <= s2.blk_lo(ck - 1, rc)) by (nonlinear_arith)
                    requires
                        r <= s1.blk_lo(ck, ci),
                        s1.blk_lo(ck, ci) == s1.blk_lo(ck - 1, lc),
                        s1.blk_lo(ck - 1, lc) == lc * pw(ck - 1),
                        s2.blk_lo(ck - 1, rc) == rc * pw(ck - 1),
                        rc == lc + 1,
                        pw(ck - 1) >= 1,
                ;
            } else {
                assert(s2.on_list(k, x) == s1.on_list(k, x));
                assert(s2.active(k, x) == s1.active(k, x));
                assert(s2.is_live(k, x) == s1.is_live(k, x));
                if 1 <= k {
                    assert(s2.is_split(k, x) == s1.is_split(k, x));
                }
            }
        }
        // pair bits
        assert forall|k: int, p: int|
            0 <= k <= kl && 0 <= p < (s2.nb(k) + 1) / 2 implies (#[trigger] s2.alloc_bit(k, p))
            == (s2.used_in_pair(k, 2 * p) != s2.used_in_pair(k, 2 * p + 1)) by {
            if k == ck && p == ci / 2 {
                assert(s2.alloc_bit(k, p) == !s1.alloc_bit(k, p));
                assert(ci == 2 * p || ci == 2 * p + 1);
                if ci == 2 * p {
                    if 2 * p + 1 < s1.nb(k) {
                        assert(s2.used(k, 2 * p + 1) == s1.used(k, 2 * p + 1));
                    }
                } else {
                    assert(s2.used(k, 2 * p) == s1.used(k, 2 * p));
                }
            } else if k == ck {
                assert(s2.alloc_bit(k, p) == s1.alloc_bit(k, p));
                assert(2 * p != ci && 2 * p + 1 != ci) by (nonlinear_arith)
                    requires
                        p != ci / 2,
                ;
                if 2 * p < s1.nb(k) {
                    assert(s2.used(k, 2 * p) == s1.used(k, 2 * p));
                }
                if 2 * p + 1 < s1.nb(k) {
                    assert(s2.used(k, 2 * p + 1) == s1.used(k, 2 * p + 1));
                }
            } else {
                assert(s2.alloc_bits@[k] == s1.alloc_bits@[k]);
                assert(s2.alloc_bit(k, p) == s1.alloc_bit(k, p));
                if 2 * p < s1.nb(k) {
                    assert(s2.used(k, 2 * p) == s1.used(k, 2 * p));
                }
                if 2 * p + 1 < s1.nb(k) {
                    assert(s2.used(k, 2 * p + 1) == s1.used(k, 2 * p + 1));
                }
            }
        }
        // the left child is in flight
        assert(!s2.is_live(ck - 1, lc));
        assert(!s2.is_split(ck - 1, lc));
        assert(!s2.on_list(ck - 1, lc));
        assert(r <= s2.blk_lo(ck - 1, lc));
        assert(s2.blk_hi(ck - 1, lc) <= s1.blk_hi(ck, ci)) by {
            assert(s1.blk_lo(ck - 1, rc) <= s1.blk_hi(ck - 1, rc)) by (nonlinear_arith)
                requires
                    pw(ck - 1) >= 1,
                    s1.blk_lo(ck - 1, rc) == rc * pw(ck - 1),
                    s1.blk_hi(ck - 1, rc) == (rc + 1) * pw(ck - 1),
            ;
        }
        assert forall|t: int|
            0 <= t < s1.k_max_spec() + 1 && t != ck - 1 implies (#[trigger] s1.free_list(
            t,
        )).len() == s2.free_list(t).len() by {
            assert(s2.free_lists@[t] == s1.free_lists@[t]);
        }
        Self::lemma_flsum_update(s1, s2, ck - 1, 1, kl + 1);
    }

    /// The final step of an allocation: flip the pair bit of the in-flight
    /// block and record it as allocated.
    proof fn lemma_alloc_finish(s1: Self, s2: Self, k: int, i: int)
        requires
            s1.mid_state(k, i),
            s1.wf_bits(),
            s1.free_bytes == s1.flsum() + pw(k) * s1.leaf_spec(),
            s1.free_bytes + s1.live_sum() == s1.managed_bytes(),
            s2.leaf_size == s1.leaf_size,
            s2.base == s1.base,
            s2.k_max == s1.k_max,
            s2.total_leaves == s1.total_leaves,
            s2.reserved == s1.reserved,
            s2.free_lists == s1.free_lists,
            s2.split_bits == s1.split_bits,
            s2.mem_base == s1.mem_base,
            s2.mem == s1.mem,
            s2.alloc_bits@.len() == s1.alloc_bits@.len(),
            s2.alloc_bits@[k]@ == s1.alloc_bits@[k]@.update(i / 2, !s1.alloc_bits@[k]@[i / 2]),
            forall|t: int|
                0 <= t < s1.alloc_bits@.len() && t != k ==> (#[trigger] s2.alloc_bits@[t])
                    == s1.alloc_bits@[t],
            s2.live@ == s1.live@.push((k, i)),
            s2.free_bytes == s1.free_bytes - pw(k) * s1.leaf_spec(),
        ensures
            s2.wf(),
            forall|w: int|
                0 <= w < s1.live_blocks().len() ==> ({
                    let (kw, iw) = #[trigger] s1.live_blocks()[w];
                    s1.blk_hi(k, i) <= s1.blk_lo(kw, iw) || s1.blk_hi(kw, iw) <= s1.blk_lo(k, i)
                }),
        decreases 0int,
    {
        let kl = s1.k_max_spec();
        let r = s1.reserved_spec();
        lemma_pw_pos(k);
        lemma_pw_pos(kl - k);
        assert(i / 2 < (s1.nb(k) + 1) / 2) by (nonlinear_arith)
            requires
                0 <= i < s1.nb(k),
        ;
        assert forall|t: int, x: int| true implies #[trigger] s2.is_split(t, x) == s1.is_split(
            t,
            x,
        ) by {}
        assert forall|t: int, x: int| true implies #[trigger] s2.active(t, x) == s1.active(
            t,
            x,
        ) by {}
        assert forall|t: int, x: int| true implies #[trigger] s2.on_list(t, x) == s1.on_list(
            t,
            x,
        ) by {
            assert(s2.free_list(t) == s1.free_list(t));
        }
        assert(s2.is_live(k, i)) by {
            assert(s2.live@[s1.live@.len() as int] == (k, i));
        }
        assert forall|t: int, x: int| !(t == k && x == i) implies #[trigger] s2.is_live(t, x)
            == s1.is_live(t, x) by {
            if s2.is_live(t, x) {
                let w = choose|w: int| 0 <= w < s2.live@.len() && s2.live@[w] == (t, x);
                assert(w < s1.live@.len());
                assert(s1.live@[w] == (t, x));
            }
            if s1.is_live(t, x) {
                let w = choose|w: int| 0 <= w < s1.live@.len() && s1.live@[w] == (t, x);
                assert(s2.live@[w] == (t, x));
            }
        }
        assert(!s1.used(k, i)) by {
            assert(s1.blk_hi(k, i) > s1.blk_lo(k, i)) by (nonlinear_arith)
                requires
                    pw(k) >= 1,
                    s1.blk_hi(k, i) == (i + 1) * pw(k),
                    s1.blk_lo(k, i) == i * pw(k),
            ;
        }
        assert(s2.used(k, i));
        assert forall|t: int, x: int| !(t == k && x == i) implies #[trigger] s2.used(t, x)
            == s1.used(t, x) by {}
        assert(s2.wf_dims()) by {
            assert forall|kx: int| 0 <= kx <= kl implies (#[trigger] s2.alloc_bits@[kx]@.len())
                == (s2.nb(kx) + 1) / 2 by {
                if kx != k {
                    assert(s2.alloc_bits@[kx] == s1.alloc_bits@[kx]);
                }
            }
        }
        assert(s2.wf_elems()) by {
            assert forall|kx: int, t: int|
                0 <= kx <= kl && 0 <= t < s2.free_list(kx).len() implies {
                let x = #[trigger] s2.free_list(kx)[t] as int;
                s2.in_range(kx, x) && r <= s2.blk_lo(kx, x)
            } by {
                assert(s2.free_list(kx) == s1.free_list(kx));
            }
            assert forall|kx: int, t1: int, t2: int|
                0 <= kx <= kl && 0 <= t1 < t2 < s2.free_list(kx).len() implies (
            #[trigger] s2.free_list(kx)[t1]) != (#[trigger] s2.free_list(kx)[t2]) by {
                assert(s2.free_list(kx) == s1.free_list(kx));
            }
        }
        assert(s2.wf_live()) by {
            assert forall|w: int|
                0 <= w < s2.live_blocks().len() implies {
                let (kw, xw) = #[trigger] s2.live_blocks()[w];
                &&& s2.in_range(kw, xw)
                &&& r <= s2.blk_lo(kw, xw)
                &&& s2.active(kw, xw)
                &&& !s2.is_split(kw, xw)
            } by {
                if w < s1.live@.len() {
                    assert(s2.live_blocks()[w] == s1.live_blocks()[w]);
                } else {
                    assert(s2.live_blocks()[w] == (k, i));
                }
            }
            assert forall|w1: int, w2: int|
                0 <= w1 < w2 < s2.live_blocks().len() implies (#[trigger] s2.live_blocks()[w1])
                != (#[trigger] s2.live_blocks()[w2]) by {
                if w2 == s1.live@.len() {
                    assert(s2.live_blocks()[w2] == (k, i));
                    assert(s2.live_blocks()[w1] == s1.live_blocks()[w1]);
                    if s1.live_blocks()[w1] == (k, i) {
                        assert(s1.is_live(k, i));
                        assert(false);
                    }
                } else {
                    assert(s2.live_blocks()[w1] == s1.live_blocks()[w1]);
                    assert(s2.live_blocks()[w2] == s1.live_blocks()[w2]);
                }
            }
        }
        assert(s2.wf_split()) by {
            assert forall|kx: int, x: int|
                s2.in_range(kx, x) && #[trigger] s2.is_split(kx, x) implies s2.active(kx, x)
                && !s2.is_live(kx, x) && s2.blk_hi(kx, x) > r by {
                assert(s1.is_split(kx, x));
                if kx == k && x == i {
                    assert(!s1.is_split(k, i));
                    assert(false);
                }
                assert(s2.active(kx, x) == s1.active(kx, x));
                assert(s2.is_live(kx, x) == s1.is_live(kx, x));
            }
            assert forall|kx: int, x: int|
                s2.in_range(kx, x) && #[trigger] s2.straddles(kx, x) && 1 <= kx implies s2.is_split(
                kx,
                x,
            ) by {
                assert(s1.straddles(kx, x));
                assert(s2.is_split(kx, x) == s1.is_split(kx, x));
            }
        }
        assert(s2.wf_iff()) by {
            assert forall|kx: int, x: int| s2.in_range(kx, x) implies ((#[trigger] s2.on_list(
                kx,
                x,
            )) == (s2.active(kx, x) && !s2.is_live(kx, x) && !s2.is_split(kx, x) && r
                <= s2.blk_lo(kx, x))) by {
                if kx == k && x == i {
                    assert(!s2.on_list(k, i));
                    assert(s2.is_live(k, i));
                } else {
                    assert(s2.on_list(kx, x) == s1.on_list(kx, x));
                    assert(s2.is_live(kx, x) == s1.is_live(kx, x));
                }
            }
        }
        assert(s2.wf_bits()) by {
            assert forall|kx: int, p: int|
                0 <= kx <= kl && 0 <= p < (s2.nb(kx) + 1) / 2 implies (#[trigger] s2.alloc_bit(
                kx,
                p,
            )) == (s2.used_in_pair(kx, 2 * p) != s2.used_in_pair(kx, 2 * p + 1)) by {
                if kx == k && p == i / 2 {
                    assert(s2.alloc_bit(kx, p) == !s1.alloc_bit(kx, p));
                    assert(i == 2 * p || i == 2 * p + 1);
                    if i == 2 * p {
                        if 2 * p + 1 < s1.nb(kx) {
                            assert(s2.used(kx, 2 * p + 1) == s1.used(kx, 2 * p + 1));
                        }
                    } else {
                        assert(s2.used(kx, 2 * p) == s1.used(kx, 2 * p));
                    }
                } else if kx == k {
                    assert(s2.alloc_bit(kx, p) == s1.alloc_bit(kx, p));
                    assert(2 * p != i && 2 * p + 1 != i) by (nonlinear_arith)
                        requires
                            p != i / 2,
                    ;
                    if 2 * p < s1.nb(kx) {
                        assert(s2.used(kx, 2 * p) == s1.used(kx, 2 * p));
                    }
                    if 2 * p + 1 < s1.nb(kx) {
                        assert(s2.used(kx, 2 * p + 1) == s1.used(kx, 2 * p + 1));
                    }
                } else {
                    assert(s2.alloc_bits@[kx] == s1.alloc_bits@[kx]);
                    assert(s2.alloc_bit(kx, p) == s1.alloc_bit(kx, p));
                    if 2 * p < s1.nb(kx) {
                        assert(s2.used(kx, 2 * p) == s1.used(kx, 2 * p));
                    }
                    if 2 * p + 1 < s1.nb(kx) {
                        assert(s2.used(kx, 2 * p + 1) == s1.used(kx, 2 * p + 1));
                    }
                }
            }
        }
        Self::lemma_flsum_agree(s1, s2, kl + 1);
        Self::lemma_blocks_sum_push(s1.live@, s1.leaf_size, (k, i));
        // the new block is disjoint from every prior allocation
        assert forall|w: int|
            0 <= w < s1.live_blocks().len() implies ({
            let (kw, iw) = #[trigger] s1.live_blocks()[w];
            s1.blk_hi(k, i) <= s1.blk_lo(kw, iw) || s1.blk_hi(kw, iw) <= s1.blk_lo(k, i)
        }) by {
            let (kw, iw) = s1.live_blocks()[w];
            assert(s1.is_live(kw, iw));
            assert(s1.active(kw, iw) && !s1.is_split(kw, iw));
            if kw == k && iw == i {
                assert(s1.is_live(k, i));
                assert(false);
            }
            s1.lemma_active_disjoint(k, i, kw, iw);
        }
    }

    /// A free-list sum is never negative.
    proof fn lemma_flsum_nonneg(self, upto: int)
        ensures
            self.flsum_upto(upto) >= 0,
        decreases upto,
    {
        if upto > 0 {
            self.lemma_flsum_nonneg(upto - 1);
            lemma_pw_pos(upto - 1);
            assert(self.free_list(upto - 1).len() * pw(upto - 1) * self.leaf_spec() >= 0)
                by (nonlinear_arith)
                requires
                    pw(upto - 1) >= 1,
                    self.free_list(upto - 1).len() >= 0,
                    self.leaf_spec() >= 0,
            ;
        }
    }

    /// Facts about a well-formed region's geometry, for callers that hold
    /// a region but cannot see inside its tables.
    pub proof fn lemma_wf_facts(self)
        requires
            self.wf(),
        ensures
            self.leaf_spec() >= MIN_LEAF_SIZE_ALIGN,
            1 <= self.mem_base_spec() <= self.base_spec(),
            self.base_spec() < self.managed_start() <= self.tree_end(),
            self.tree_end() <= self.mem_base_spec() + self.mem_bytes().len(),
            0 <= self.managed_bytes(),
    {
        lemma_pw_pos(self.k_max_spec());
        assert(self.reserved_spec() * self.leaf_spec() >= 1) by (nonlinear_arith)
            requires
                self.reserved_spec() >= 1,
                self.leaf_spec() >= 1,
        ;
        assert(self.reserved_spec() * self.leaf_spec() <= self.total_spec() * self.leaf_spec())
            by (nonlinear_arith)
            requires
                self.reserved_spec() <= self.total_spec(),
                self.leaf_spec() >= 0,
        ;
        assert((self.total_spec() - self.reserved_spec()) * self.leaf_spec() >= 0)
            by (nonlinear_arith)
            requires
                self.reserved_spec() <= self.total_spec(),
                self.leaf_spec() >= 0,
        ;
    }

    /// Allocate, deallocate, allocate again: once a block of order `k` or
    /// above is back on a free list, every request that a block of order
    /// `k` can hold is servable — in particular the request the freed
    /// block itself served.
    pub proof fn lemma_freed_block_serves_again(self, k: int, j: int, size: usize)
        requires
            self.wf(),
            0 <= k <= j <= self.k_max_spec(),
            self.free_list(j).len() > 0,
            pw(k) * self.leaf_spec() >= size,
        ensures
            self.can_serve(size),
    {
        lemma_pw_mono(k, j);
        assert(pw(j) * self.leaf_spec() >= pw(k) * self.leaf_spec()) by (nonlinear_arith)
            requires
                pw(j) >= pw(k),
                self.leaf_spec() >= 0,
        ;
    }

    /// A request of `size` bytes can be served exactly when some order
    /// large enough for it has a free block.
    pub open spec fn can_serve(self, size: usize) -> bool {
        exists|j: int|
            0 <= j <= self.k_max_spec() && pw(j) * self.leaf_spec() >= size && (
            #[trigger] self.free_list(j)).len() > 0
    }

    /// Once every outstanding allocation has been returned, the whole
    /// managed capacity is free again, exactly as after construction.
    pub proof fn lemma_all_returned_all_free(self)
        requires
            self.wf(),
            self.live_blocks().len() == 0,
        ensures
            self.free_bytes_spec() == self.managed_bytes(),
    {
        assert(self.live_sum() == 0);
    }

    /// A request beyond the free byte count cannot be served: every free
    /// block is counted in the sum of the free lists.
    pub proof fn lemma_oversize_fails(self, size: usize)
        requires
            self.wf(),
            size > self.free_bytes_spec(),
        ensures
            !self.can_serve(size),
    {
        assert forall|j: int|
            0 <= j <= self.k_max_spec() && (#[trigger] self.free_list(j)).len()
                > 0 implies !(pw(j) * self.leaf_spec() >= size) by {
            self.lemma_flsum_term_bound(j, self.k_max_spec() + 1);
        }
    }

    /// A non-empty free list contributes at least one of its blocks to the
    /// free-list sum below `upto`.
    proof fn lemma_flsum_term_bound(self, j: int, upto: int)
        requires
            0 <= j < upto,
            self.free_list(j).len() > 0,
        ensures
            pw(j) * self.leaf_spec() <= self.flsum_upto(upto),
        decreases upto,
    {
        self.lemma_flsum_nonneg(upto - 1);
        lemma_pw_pos(upto - 1);
        if j == upto - 1 {
            assert(self.free_list(j).len() * pw(j) * self.leaf_spec() >= 1 * pw(j)
                * self.leaf_spec()) by (nonlinear_arith)
                requires
                    self.free_list(j).len() >= 1,
                    pw(j) >= 1,
                    self.leaf_spec() >= 0,
            ;
        } else {
            self.lemma_flsum_term_bound(j, upto - 1);
            assert(self.free_list(upto - 1).len() * pw(upto - 1) * self.leaf_spec() >= 0)
                by (nonlinear_arith)
                requires
                    self.free_list(upto - 1).len() >= 0,
                    pw(upto - 1) >= 1,
                    self.leaf_spec() >= 0,
            ;
        }
    }

    /// Serve a request of `size` bytes. The alignment argument is accepted
    /// for interface compatibility and ignored: a block is naturally aligned
    /// to its own size past the tree base, which is at least the leaf size.
    ///
    /// The request is rounded up to the smallest block order whose size
    /// reaches it (a request of zero bytes is served with one leaf), and
    /// succeeds exactly when some free list of that order or above is
    /// non-empty. On success the returned address names a whole managed
    /// block, disjoint from every outstanding allocation; on failure the
    /// state is unchanged.
    #[verifier::loop_isolation(false)]
    pub fn allocate(&mut self, size: usize, _align: usize) -> (r: Option<usize>)
        requires
            old(self).wf(),
        ensures
            final(self).wf(),
            final(self).leaf_spec() == old(self).leaf_spec(),
            final(self).base_spec() == old(self).base_spec(),
            final(self).k_max_spec() == old(self).k_max_spec(),
            final(self).total_spec() == old(self).total_spec(),
            final(self).reserved_spec() == old(self).reserved_spec(),
            final(self).mem_base_spec() == old(self).mem_base_spec(),
            final(self).mem_bytes() == old(self).mem_bytes(),
            r is Some <==> old(self).can_serve(size),
            r is None ==> *final(self) == *old(self),
            r matches Some(p) ==> ({
                let (k, i) = final(self).live_blocks().last();
                &&& final(self).live_blocks() == old(self).live_blocks().push((k, i))
                &&& 0 <= k <= old(self).k_max_spec()
                &&& pw(k) * old(self).leaf_spec() >= size
                &&& (k == 0 || pw(k - 1) * old(self).leaf_spec() < size)
                &&& old(self).in_range(k, i)
                &&& p == old(self).base_spec() + old(self).blk_lo(k, i) * old(self).leaf_spec()
                &&& old(self).managed_start() <= p
                &&& p + pw(k) * old(self).leaf_spec() <= old(self).tree_end()
                &&& (p - old(self).base_spec()) % (pw(k) * old(self).leaf_spec()) == 0
                &&& final(self).free_bytes_spec() == old(self).free_bytes_spec() - pw(k) * old(
                    self,
                ).leaf_spec()
                &&& forall|w: int|
                    0 <= w < old(self).live_blocks().len() ==> ({
                        let (kw, iw) = #[trigger] old(self).live_blocks()[w];
                        old(self).blk_hi(k, i) <= old(self).blk_lo(kw, iw) || old(self).blk_hi(
                            kw,
                            iw,
                        ) <= old(self).blk_lo(k, i)
                    })
            }),
    {
        let ghost kl = old(self).k_max_spec();
        let ghost leaf = old(self).leaf_spec() as int;
        proof {
            lemma_pw_pos(kl);
            lemma_pw_ge_linear(kl);
            assert(self.k_max < usize::MAX);
            assert(self.total_spec() * leaf <= usize::MAX) by {
                assert(self.tree_end() <= usize::MAX);
            }
            assert(16 * self.total_spec() <= self.total_spec() * leaf) by (nonlinear_arith)
                requires
                    leaf >= 16,
                    self.total_spec() >= 1,
            ;
        }
        // the smallest order whose block size reaches the request
        let mut k: usize = 0;
        let mut bs: usize = self.leaf_size;
        while bs < size && k < self.k_max
            invariant
                self.wf(),
                self == old(self),
                0 <= k <= self.k_max,
                bs == pw(k as int) * self.leaf_spec(),
                k > 0 ==> pw(k as int - 1) * self.leaf_spec() < size,
            decreases self.k_max - k,
        {
            proof {
                lemma_pw_mono(k as int + 1, kl);
                lemma_pw_pos(k as int);
                assert(pw(k as int + 1) * leaf <= pw(kl) * leaf) by (nonlinear_arith)
                    requires
                        pw(k as int + 1) <= pw(kl),
                        leaf >= 0,
                ;
                assert(2 * (pw(k as int) * leaf) == pw(k as int + 1) * leaf) by (nonlinear_arith)
                    requires
                        pw(k as int + 1) == 2 * pw(k as int),
                ;
            }
            bs = bs * 2;
            k = k + 1;
        }
        if bs < size {
            // even the whole tree is too small
            proof {
                assert forall|j: int|
                    0 <= j <= kl implies !(pw(j) * leaf >= size && old(self).free_list(j).len()
                    > 0) by {
                    lemma_pw_mono(j, kl);
                    lemma_pw_pos(j);
                    assert(pw(j) * leaf <= pw(kl) * leaf) by (nonlinear_arith)
                        requires
                            pw(j) <= pw(kl),
                            leaf >= 0,
                    ;
                }
            }
            return None;
        }
        // the first order at or above it with a free block
        let mut j: usize = k;
        while j <= self.k_max && self.free_lists[j].len() == 0
            invariant
                self.wf(),
                self == old(self),
                k <= j <= self.k_max + 1,
                self.k_max < usize::MAX,
                forall|t: int| k <= t < j ==> (#[trigger] self.free_list(t)).len() == 0,
                bs == pw(k as int) * self.leaf_spec(),
                bs >= size,
                k > 0 ==> pw(k as int - 1) * self.leaf_spec() < size,
            decreases self.k_max + 1 - j,
        {
            j = j + 1;
        }
        if j > self.k_max {
            proof {
                assert forall|jx: int|
                    0 <= jx <= kl implies !(pw(jx) * leaf >= size && old(self).free_list(jx).len()
                    > 0) by {
                    if jx < k {
                        lemma_pw_mono(jx, k as int - 1);
                        lemma_pw_pos(jx);
                        assert(pw(jx) * leaf <= pw(k as int - 1) * leaf) by (nonlinear_arith)
                            requires
                                pw(jx) <= pw(k as int - 1),
                                leaf >= 0,
                        ;
                    }
                }
            }
            return None;
        }
        // take the most recently freed block of that order
        let ghost i0 = old(self).free_list(j as int).last();
        let i = self.free_lists[j].pop().unwrap();
        proof {
            assert(self.free_list(j as int) =~= old(self).free_list(j as int).drop_last());
            assert forall|t: int|
                0 <= t < old(self).free_lists@.len() && t != j implies (
            #[trigger] self.free_lists@[t]) == old(self).free_lists@[t] by {}
            Self::lemma_pop_step(*old(self), *self, j as int);
            assert(i == i0);
        }
        // split downward until the block has the requested order
        let mut ck = j;
        let mut ci = i;
        while ck > k
            invariant
                self.leaf_size == old(self).leaf_size,
                self.base == old(self).base,
                self.k_max == old(self).k_max,
                self.total_leaves == old(self).total_leaves,
                self.reserved == old(self).reserved,
                self.mem_base == old(self).mem_base,
                self.mem == old(self).mem,
                self.live@ == old(self).live@,
                self.free_bytes == old(self).free_bytes,
                self.mid_state(ck as int, ci as int),
                self.wf_bits(),
                k <= ck <= kl,
                bs == pw(k as int) * self.leaf_spec(),
                bs >= size,
                k > 0 ==> pw(k as int - 1) * self.leaf_spec() < size,
                self.free_bytes == self.flsum() + pw(ck as int) * self.leaf_spec(),
                self.free_bytes + self.live_sum() == self.managed_bytes(),
            decreases ck,
        {
            let ghost s1 = *self;
            let ghost cki = ck as int;
            let ghost cii = ci as int;
            proof {
                lemma_pw_pos(cki);
                lemma_pw_pos(kl - cki);
                s1.lemma_child_geom(cki, cii);
                lemma_pw_mono(kl - cki, kl);
                assert(s1.total_spec() == pw(kl));
                assert(s1.nb(cki) <= s1.total_spec());
                assert(2 * cii + 1 < 2 * s1.nb(cki)) by (nonlinear_arith)
                    requires
                        cii < s1.nb(cki),
                ;
                assert(2 * cii + 1 <= usize::MAX);
                assert(cii / 2 < (s1.nb(cki) + 1) / 2) by (nonlinear_arith)
                    requires
                        0 <= cii < s1.nb(cki),
                ;
            }
            let pair = ci / 2;
            let b = self.alloc_bits[ck][pair];
            self.alloc_bits[ck].set(pair, !b);
            self.split_bits[ck].set(ci, true);
            self.free_lists[ck - 1].push(2 * ci + 1);
            proof {
                assert(self.alloc_bits@[cki]@ =~= s1.alloc_bits@[cki]@.update(
                    cii / 2,
                    !s1.alloc_bits@[cki]@[cii / 2],
                ));
                assert(self.split_bits@[cki]@ =~= s1.split_bits@[cki]@.update(cii, true));
                assert(self.free_list(cki - 1) =~= s1.free_list(cki - 1).push(
                    (2 * cii + 1) as usize,
                ));
                assert forall|t: int|
                    0 <= t < s1.alloc_bits@.len() && t != cki implies (
                #[trigger] self.alloc_bits@[t]) == s1.alloc_bits@[t] by {}
                assert forall|t: int|
                    0 <= t < s1.split_bits@.len() && t != cki implies (
                #[trigger] self.split_bits@[t]) == s1.split_bits@[t] by {}
                assert forall|t: int|
                    0 <= t < s1.free_lists@.len() && t != cki - 1 implies (
                #[trigger] self.free_lists@[t]) == s1.free_lists@[t] by {}
                Self::lemma_split_step(s1, *self, cki, cii);
                assert(pw(cki) == 2 * pw(cki - 1));
                assert(pw(cki) * s1.leaf_spec() == pw(cki - 1) * s1.leaf_spec() + pw(cki - 1)
                    * s1.leaf_spec()) by (nonlinear_arith)
                    requires
                        pw(cki) == 2 * pw(cki - 1),
                ;
            }
            ci = 2 * ci;
            ck = ck - 1;
        }
        // the block now has the requested order: mark it allocated
        let ghost s1 = *self;
        let ghost ki = k as int;
        let ghost cii = ci as int;
        proof {
            lemma_pw_pos(ki);
            lemma_pw_pos(kl - ki);
            assert(cii / 2 < (s1.nb(ki) + 1) / 2) by (nonlinear_arith)
                requires
                    0 <= cii < s1.nb(ki),
            ;
            s1.lemma_flsum_nonneg(kl + 1);
        }
        let pair = ci / 2;
        let b = self.alloc_bits[ck][pair];
        self.alloc_bits[ck].set(pair, !b);
        proof {
            self.live@ = self.live@.push((ki, cii));
        }
        self.free_bytes = self.free_bytes - bs;
        proof {
            assert(self.alloc_bits@[ki]@ =~= s1.alloc_bits@[ki]@.update(
                cii / 2,
                !s1.alloc_bits@[ki]@[cii / 2],
            ));
            assert forall|t: int|
                0 <= t < s1.alloc_bits@.len() && t != ki implies (#[trigger] self.alloc_bits@[t])
                == s1.alloc_bits@[t] by {}
            Self::lemma_alloc_finish(s1, *self, ki, cii);
        }
        // its address
        proof {
            s1.lemma_block_in_tree(ki, cii);
            assert(cii * pw(ki) + pw(ki) == (cii + 1) * pw(ki)) by (nonlinear_arith);
            assert(cii * pw(ki) * leaf + pw(ki) * leaf <= s1.total_spec() * leaf)
                by (nonlinear_arith)
                requires
                    (cii + 1) * pw(ki) <= s1.total_spec(),
                    leaf >= 0,
                    cii * pw(ki) + pw(ki) == (cii + 1) * pw(ki),
            ;
            assert(cii * pw(ki) * leaf >= s1.reserved_spec() * leaf) by (nonlinear_arith)
                requires
                    cii * pw(ki) >= s1.reserved_spec(),
                    leaf >= 0,
            ;
            assert(cii * (pw(ki) * leaf) == cii * pw(ki) * leaf) by (nonlinear_arith);
            vstd::arithmetic::div_mod::lemma_mod_multiples_basic(cii, pw(ki) * leaf);
            assert(pw(ki) * leaf > 0) by (nonlinear_arith)
                requires
                    pw(ki) >= 1,
                    leaf >= 16,
            ;
            assert(cii * (pw(ki) * leaf) % (pw(ki) * leaf) == 0);
            // the success witness
            lemma_pw_mono(ki, j as int);
            assert(pw(j as int) * leaf >= pw(ki) * leaf) by (nonlinear_arith)
                requires
                    pw(j as int) >= pw(ki),
                    leaf >= 0,
            ;
            assert(old(self).free_list(j as int).len() > 0);
        }
        let p = self.base + ci * bs;
        Some(p)
    }

    /// In the middle of a deallocation the pair bit of the in-flight block
    /// still counts the block as in use: it is the negation of the law.
    spec fn pair_flipped(self, k0: int, i0: int) -> bool {
        self.alloc_bit(k0, i0 / 2) == !(self.used_in_pair(k0, 2 * (i0 / 2))
            != self.used_in_pair(k0, 2 * (i0 / 2) + 1))
    }

    /// An allocated block's order can be read back off the split bits: no
    /// ancestor of its first leaf below its own order is split, and its
    /// parent (if any) is.
    proof fn lemma_live_derivation(self, w: int)
        requires
            self.wf(),
            0 <= w < self.live_blocks().len(),
        ensures
            ({
                let (k, i) = self.live_blocks()[w];
                let li = self.blk_lo(k, i);
                &&& forall|t: int|
                    0 <= t < k ==> !self.is_split(t + 1, #[trigger] (li / pw(t + 1)))
                &&& k < self.k_max_spec() ==> self.is_split(k + 1, li / pw(k + 1)) && li / pw(
                    k + 1,
                ) == i / 2
                &&& forall|t: int| 0 <= t <= k ==> #[trigger] (li / pw(t)) == i * pw(k - t)
            }),
        decreases 0int,
    {
        let (k, i) = self.live_blocks()[w];
        let li = self.blk_lo(k, i);
        let kl = self.k_max_spec();
        assert(self.in_range(k, i) && self.active(k, i) && !self.is_split(k, i));
        assert forall|t: int| 0 <= t <= k implies #[trigger] (li / pw(t)) == i * pw(k - t) by {
            lemma_pw_pos(t);
            lemma_pw_pos(k - t);
            lemma_pw_adds(t, k - t);
            assert(li == (i * pw(k - t)) * pw(t)) by (nonlinear_arith)
                requires
                    li == i * pw(k),
                    pw(k) == pw(t) * pw(k - t),
            ;
            assert(pw(t) * (i * pw(k - t)) == (i * pw(k - t)) * pw(t)) by (nonlinear_arith);
            vstd::arithmetic::div_mod::lemma_div_multiples_vanish(i * pw(k - t), pw(t));
        }
        assert forall|t: int| 0 <= t < k implies !self.is_split(t + 1, #[trigger] (li / pw(t
            + 1))) by {
            let a = li / pw(t + 1);
            assert(a == i * pw(k - t - 1));
            lemma_pw_pos(t + 1);
            lemma_pw_pos(k - t - 1);
            lemma_pw_pos(kl - t - 1);
            lemma_pw_adds(t + 1, k - t - 1);
            assert(a * pw(t + 1) == li) by (nonlinear_arith)
                requires
                    a == i * pw(k - t - 1),
                    li == i * pw(k),
                    pw(k) == pw(t + 1) * pw(k - t - 1),
            ;
            assert(a >= 0) by (nonlinear_arith)
                requires
                    a == i * pw(k - t - 1),
                    i >= 0,
                    pw(k - t - 1) >= 1,
            ;
            // the ancestor is a block of the tree
            lemma_pw_adds(t + 1, kl - t - 1);
            self.lemma_block_in_tree(k, i);
            assert(a < self.nb(t + 1)) by (nonlinear_arith)
                requires
                    a * pw(t + 1) == li,
                    li < self.total_spec(),
                    self.total_spec() == pw(t + 1) * self.nb(t + 1),
                    pw(t + 1) >= 1,
                    self.nb(t + 1) >= 1,
                    a >= 0,
            ;
            if self.is_split(t + 1, a) {
                assert(self.active(t + 1, a));
                self.lemma_split_chain(t + 1, a, k);
                lemma_pw_pos(k - t - 1);
                assert(a / pw(k - t - 1) == i) by {
                    lemma_pw_pos(k - t - 1);
                    assert(pw(k - t - 1) * i == a) by (nonlinear_arith)
                        requires
                            a == i * pw(k - t - 1),
                    ;
                    vstd::arithmetic::div_mod::lemma_div_multiples_vanish(i, pw(k - t - 1));
                }
                assert(self.is_split(k, i));
                assert(false);
            }
        }
        if k < kl {
            self.lemma_parent_geom(k, i);
            assert(self.is_split(k + 1, i / 2));
            assert(li / pw(k + 1) == i / 2) by {
                lemma_pw_pos(k);
                assert(pw(k + 1) == 2 * pw(k));
                vstd::arithmetic::div_mod::lemma_div_denominator(li, pw(k), 2);
                assert(li / (pw(k) * 2) == li / (2 * pw(k))) by (nonlinear_arith);
                assert(li / pw(k) == i);
            }
        }
    }

    /// Dropping an entry from the allocation record leaves its block in
    /// flight, with its pair bit still counting it as in use.
    proof fn lemma_free_start(s1: Self, s2: Self, w: int)
        requires
            s1.wf(),
            0 <= w < s1.live_blocks().len(),
            s2.leaf_size == s1.leaf_size,
            s2.base == s1.base,
            s2.k_max == s1.k_max,
            s2.total_leaves == s1.total_leaves,
            s2.reserved == s1.reserved,
            s2.free_lists == s1.free_lists,
            s2.alloc_bits == s1.alloc_bits,
            s2.split_bits == s1.split_bits,
            s2.free_bytes == s1.free_bytes,
            s2.mem_base == s1.mem_base,
            s2.mem == s1.mem,
            s2.live@ == s1.live@.remove(w),
        ensures
            s2.mid_state(s1.live_blocks()[w].0, s1.live_blocks()[w].1),
            s2.wf_bits_except(s1.live_blocks()[w].0, s1.live_blocks()[w].1 / 2),
            s2.pair_flipped(s1.live_blocks()[w].0, s1.live_blocks()[w].1),
            s2.flsum() == s1.flsum(),
            Self::blocks_sum(s2.live@, s2.leaf_size) == Self::blocks_sum(s1.live@, s1.leaf_size)
                - pw(s1.live_blocks()[w].0) * s1.leaf_spec(),
        decreases 0int,
    {
        let (k, i) = s1.live_blocks()[w];
        let kl = s1.k_max_spec();
        s1.live@.remove_ensures(w);
        assert forall|t: int, x: int| true implies #[trigger] s2.is_split(t, x) == s1.is_split(
            t,
            x,
        ) by {}
        assert forall|t: int, x: int| true implies #[trigger] s2.active(t, x) == s1.active(
            t,
            x,
        ) by {}
        assert forall|t: int, x: int| true implies #[trigger] s2.on_list(t, x) == s1.on_list(
            t,
            x,
        ) by {
            assert(s2.free_list(t) == s1.free_list(t));
        }
        assert forall|t: int, p: int| true implies #[trigger] s2.alloc_bit(t, p) == s1.alloc_bit(
            t,
            p,
        ) by {}
        assert(!s2.is_live(k, i)) by {
            if s2.is_live(k, i) {
                let v = choose|v: int| 0 <= v < s2.live@.len() && s2.live@[v] == (k, i);
                if v < w {
                    assert(s1.live@[v] == (k, i));
                    assert(s1.live@[v] != s1.live@[w]);
                } else {
                    assert(s1.live@[v + 1] == (k, i));
                    assert(s1.live@[v + 1] != s1.live@[w]);
                }
                assert(false);
            }
        }
        assert forall|t: int, x: int| !(t == k && x == i) implies #[trigger] s2.is_live(t, x)
            == s1.is_live(t, x) by {
            if s2.is_live(t, x) {
                let v = choose|v: int| 0 <= v < s2.live@.len() && s2.live@[v] == (t, x);
                if v < w {
                    assert(s1.live@[v] == (t, x));
                } else {
                    assert(s1.live@[v + 1] == (t, x));
                }
            }
            if s1.is_live(t, x) {
                let v = choose|v: int| 0 <= v < s1.live@.len() && s1.live@[v] == (t, x);
                if v < w {
                    assert(s2.live@[v] == (t, x));
                } else {
                    assert(v != w);
                    assert(s2.live@[v - 1] == (t, x));
                }
            }
        }
        assert(s1.is_live(k, i));
        assert(s1.in_range(k, i) && s1.reserved_spec() <= s1.blk_lo(k, i) && s1.active(k, i)
            && !s1.is_split(k, i));
        assert(!s2.on_list(k, i)) by {
            assert(s1.on_list(k, i) == (s1.active(k, i) && !s1.is_live(k, i) && !s1.is_split(k, i)
                && s1.reserved_spec() <= s1.blk_lo(k, i)));
        }
        assert forall|t: int, x: int| !(t == k && x == i) implies #[trigger] s2.used(t, x)
            == s1.used(t, x) by {}
        assert(s2.wf_dims());
        assert(s2.wf_elems()) by {
            assert forall|kx: int, t: int|
                0 <= kx <= kl && 0 <= t < s2.free_list(kx).len() implies {
                let x = #[trigger] s2.free_list(kx)[t] as int;
                s2.in_range(kx, x) && s2.reserved_spec() <= s2.blk_lo(kx, x)
            } by {
                assert(s2.free_list(kx) == s1.free_list(kx));
            }
            assert forall|kx: int, t1: int, t2: int|
                0 <= kx <= kl && 0 <= t1 < t2 < s2.free_list(kx).len() implies (
            #[trigger] s2.free_list(kx)[t1]) != (#[trigger] s2.free_list(kx)[t2]) by {
                assert(s2.free_list(kx) == s1.free_list(kx));
            }
        }
        assert(s2.wf_live()) by {
            assert forall|v: int|
                0 <= v < s2.live_blocks().len() implies {
                let (kw, xw) = #[trigger] s2.live_blocks()[v];
                &&& s2.in_range(kw, xw)
                &&& s2.reserved_spec() <= s2.blk_lo(kw, xw)
                &&& s2.active(kw, xw)
                &&& !s2.is_split(kw, xw)
            } by {
                if v < w {
                    assert(s2.live_blocks()[v] == s1.live_blocks()[v]);
                } else {
                    assert(s2.live_blocks()[v] == s1.live_blocks()[v + 1]);
                }
            }
            assert forall|v1: int, v2: int|
                0 <= v1 < v2 < s2.live_blocks().len() implies (#[trigger] s2.live_blocks()[v1])
                != (#[trigger] s2.live_blocks()[v2]) by {
                let u1: int = if v1 < w {
                    v1
                } else {
                    v1 + 1
                };
                let u2: int = if v2 < w {
                    v2
                } else {
                    v2 + 1
                };
                assert(s2.live_blocks()[v1] == s1.live_blocks()[u1]);
                assert(s2.live_blocks()[v2] == s1.live_blocks()[u2]);
            }
        }
        assert(s2.wf_split()) by {
            assert forall|kx: int, x: int|
                s2.in_range(kx, x) && #[trigger] s2.is_split(kx, x) implies s2.active(kx, x)
                && !s2.is_live(kx, x) && s2.blk_hi(kx, x) > s2.reserved_spec() by {
                assert(s1.is_split(kx, x));
                if kx == k && x == i {
                    assert(false);
                }
                assert(s2.is_live(kx, x) == s1.is_live(kx, x));
            }
            assert forall|kx: int, x: int|
                s2.in_range(kx, x) && #[trigger] s2.straddles(kx, x) && 1 <= kx implies s2.is_split(
                kx,
                x,
            ) by {
                assert(s1.straddles(kx, x));
                assert(s2.is_split(kx, x) == s1.is_split(kx, x));
            }
        }
        assert(s2.wf_iff_except(k, i)) by {
            assert forall|t: int, x: int|
                s2.in_range(t, x) && !(t == k && x == i) implies ((#[trigger] s2.on_list(t, x))
                == (s2.active(t, x) && !s2.is_live(t, x) && !s2.is_split(t, x)
                && s2.reserved_spec() <= s2.blk_lo(t, x))) by {
                assert(s2.on_list(t, x) == s1.on_list(t, x));
                assert(s2.is_live(t, x) == s1.is_live(t, x));
                assert(s1.on_list(t, x) == (s1.active(t, x) && !s1.is_live(t, x) && !s1.is_split(
                    t,
                    x,
                ) && s1.reserved_spec() <= s1.blk_lo(t, x)));
            }
        }
        assert(s2.wf_bits_except(k, i / 2)) by {
            assert forall|t: int, p: int|
                0 <= t <= kl && 0 <= p < (s2.nb(t) + 1) / 2 && !(t == k && p == i / 2) implies (
            #[trigger] s2.alloc_bit(t, p)) == (s2.used_in_pair(t, 2 * p) != s2.used_in_pair(
                t,
                2 * p + 1,
            )) by {
                assert(s1.alloc_bit(t, p) == (s1.used_in_pair(t, 2 * p) != s1.used_in_pair(
                    t,
                    2 * p + 1,
                )));
                assert(2 * p != i || t != k) by (nonlinear_arith)
                    requires
                        !(t == k && p == i / 2),
                ;
                assert(2 * p + 1 != i || t != k) by (nonlinear_arith)
                    requires
                        !(t == k && p == i / 2),
                ;
                if 2 * p < s1.nb(t) {
                    assert(s2.used(t, 2 * p) == s1.used(t, 2 * p));
                }
                if 2 * p + 1 < s1.nb(t) {
                    assert(s2.used(t, 2 * p + 1) == s1.used(t, 2 * p + 1));
                }
            }
        }
        assert(s2.pair_flipped(k, i)) by {
            let p = i / 2;
            assert(s1.alloc_bit(k, p) == (s1.used_in_pair(k, 2 * p) != s1.used_in_pair(
                k,
                2 * p + 1,
            )));
            assert(i == 2 * p || i == 2 * p + 1);
            assert(s1.used(k, i));
            lemma_pw_pos(k);
            assert(s2.blk_hi(k, i) > s2.blk_lo(k, i)) by (nonlinear_arith)
                requires
                    pw(k) >= 1,
                    s2.blk_hi(k, i) == (i + 1) * pw(k),
                    s2.blk_lo(k, i) == i * pw(k),
            ;
            assert(!s2.used(k, i));
            if i == 2 * p {
                if 2 * p + 1 < s1.nb(k) {
                    assert(s2.used(k, 2 * p + 1) == s1.used(k, 2 * p + 1));
                }
            } else {
                assert(s2.used(k, 2 * p) == s1.used(k, 2 * p));
            }
        }
        Self::lemma_flsum_agree(s1, s2, kl + 1);
        Self::lemma_blocks_sum_remove(s1.live@, s1.leaf_size, w);
    }

    /// When the flipped pair bit of the in-flight block is set, its buddy
    /// is free and sits on the free list of the same order.
    proof fn lemma_buddy_on_list(s1: Self, ck: int, ci: int)
        requires
            s1.mid_state(ck, ci),
            s1.wf_bits_except(ck, ci / 2),
            s1.pair_flipped(ck, ci),
            0 <= ck < s1.k_max_spec(),
            s1.alloc_bit(ck, ci / 2) == true,
        ensures
            ({
                let bd = if ci % 2 == 0 {
                    ci + 1
                } else {
                    ci - 1
                };
                s1.on_list(ck, bd) && s1.in_range(ck, bd)
            }),
        decreases 0int,
    {
        let kl = s1.k_max_spec();
        let bd: int = if ci % 2 == 0 {
            ci + 1
        } else {
            ci - 1
        };
        let pp = ci / 2;
        lemma_pw_pos(ck);
        lemma_pw_pos(kl - ck);
        lemma_pw_pos(kl - ck - 1);
        assert(s1.nb(ck) == 2 * s1.nb(ck + 1));
        assert(s1.nb(ck) % 2 == 0) by (nonlinear_arith)
            requires
                s1.nb(ck) == 2 * s1.nb(ck + 1),
        ;
        assert(ci % 2 == 0 ==> ci + 1 < s1.nb(ck)) by (nonlinear_arith)
            requires
                0 <= ci < s1.nb(ck),
                s1.nb(ck) % 2 == 0,
        ;
        assert(ci == 2 * pp || ci == 2 * pp + 1);
        assert(bd == 2 * pp || bd == 2 * pp + 1);
        assert(bd / 2 == pp && bd != ci);
        assert(s1.in_range(ck, bd));
        assert(!s1.used(ck, ci)) by {
            assert(s1.blk_hi(ck, ci) > s1.blk_lo(ck, ci)) by (nonlinear_arith)
                requires
                    pw(ck) >= 1,
                    s1.blk_hi(ck, ci) == (ci + 1) * pw(ck),
                    s1.blk_lo(ck, ci) == ci * pw(ck),
            ;
        }
        assert(s1.used_in_pair(ck, 2 * pp) == s1.used_in_pair(ck, 2 * pp + 1));
        assert(!s1.used_in_pair(ck, bd));
        assert(!s1.used(ck, bd));
        s1.lemma_parent_geom(ck, ci);
        assert(s1.is_split(ck + 1, pp));
        assert(s1.active(ck, bd));
        assert(!s1.is_live(ck, bd) && !s1.is_split(ck, bd));
        assert(s1.reserved_spec() <= s1.blk_lo(ck, bd)) by {
            assert(!s1.fully_reserved(ck, bd));
            if s1.straddles(ck, bd) {
                if ck >= 1 {
                    assert(s1.is_split(ck, bd));
                    assert(false);
                } else {
                    assert(pw(0) == 1);
                    assert(s1.blk_lo(0, bd) == bd && s1.blk_hi(0, bd) == bd + 1);
                    assert(false);
                }
            }
            assert(s1.blk_hi(ck, bd) > s1.blk_lo(ck, bd)) by (nonlinear_arith)
                requires
                    pw(ck) >= 1,
                    s1.blk_hi(ck, bd) == (bd + 1) * pw(ck),
                    s1.blk_lo(ck, bd) == bd * pw(ck),
            ;
        }
        assert(s1.on_list(ck, bd));
    }

    /// One coalescing step: the pair bit says the buddy is also free, so
    /// flip it back, take the buddy off its free list, clear the parent's
    /// split bit, and the parent is in flight.
    proof fn lemma_merge_step(s1: Self, s2: Self, ck: int, ci: int, t3: int)
        requires
            s1.mid_state(ck, ci),
            s1.wf_bits_except(ck, ci / 2),
            s1.pair_flipped(ck, ci),
            0 <= ck < s1.k_max_spec(),
            s1.alloc_bit(ck, ci / 2) == true,
            0 <= t3 < s1.free_list(ck).len(),
            s1.free_list(ck)[t3] as int == (if ci % 2 == 0 {
                ci + 1
            } else {
                ci - 1
            }),
            s2.leaf_size == s1.leaf_size,
            s2.base == s1.base,
            s2.k_max == s1.k_max,
            s2.total_leaves == s1.total_leaves,
            s2.reserved == s1.reserved,
            s2.free_bytes == s1.free_bytes,
            s2.live == s1.live,
            s2.mem_base == s1.mem_base,
            s2.mem == s1.mem,
            s2.alloc_bits@.len() == s1.alloc_bits@.len(),
            s2.alloc_bits@[ck]@ == s1.alloc_bits@[ck]@.update(ci / 2, false),
            forall|t: int|
                0 <= t < s1.alloc_bits@.len() && t != ck ==> (#[trigger] s2.alloc_bits@[t])
                    == s1.alloc_bits@[t],
            s2.split_bits@.len() == s1.split_bits@.len(),
            s2.split_bits@[ck + 1]@ == s1.split_bits@[ck + 1]@.update(ci / 2, false),
            forall|t: int|
                0 <= t < s1.split_bits@.len() && t != ck + 1 ==> (#[trigger] s2.split_bits@[t])
                    == s1.split_bits@[t],
            s2.free_lists@.len() == s1.free_lists@.len(),
            s2.free_list(ck) == s1.free_list(ck).remove(t3),
            forall|t: int|
                0 <= t < s1.free_lists@.len() && t != ck ==> (#[trigger] s2.free_lists@[t])
                    == s1.free_lists@[t],
        ensures
            s2.mid_state(ck + 1, ci / 2),
            s2.wf_bits_except(ck + 1, (ci / 2) / 2),
            s2.pair_flipped(ck + 1, ci / 2),
            s2.flsum() == s1.flsum() - pw(ck) * s1.leaf_spec(),
            s2.blk_lo(ck + 1, ci / 2) >= s1.reserved_spec(),
        decreases 0int,
    {
        let kl = s1.k_max_spec();
        let r = s1.reserved_spec();
        let bd: int = if ci % 2 == 0 {
            ci + 1
        } else {
            ci - 1
        };
        let pp = ci / 2;
        lemma_pw_pos(ck);
        lemma_pw_pos(kl - ck);
        lemma_pw_pos(kl - ck - 1);
        s1.lemma_parent_geom(ck, ci);
        assert(s1.nb(ck) == 2 * s1.nb(ck + 1));
        assert(ci == 2 * pp || ci == 2 * pp + 1);
        assert(bd == 2 * pp || bd == 2 * pp + 1);
        assert(bd / 2 == pp && bd != ci);
        assert(s1.in_range(ck, bd)) by {
            assert(s1.free_list(ck)[t3] as int == bd);
        }
        // the parent was split, since the in-flight block is addressable
        assert(s1.is_split(ck + 1, pp));
        // the buddy is unused: the flipped pair bit said so
        assert(!s1.used(ck, ci)) by {
            assert(s1.blk_hi(ck, ci) > s1.blk_lo(ck, ci)) by (nonlinear_arith)
                requires
                    pw(ck) >= 1,
                    s1.blk_hi(ck, ci) == (ci + 1) * pw(ck),
                    s1.blk_lo(ck, ci) == ci * pw(ck),
            ;
        }
        assert(!s1.used(ck, bd)) by {
            // the flipped pair bit is set, so the two in-use states agree,
            // and the in-flight block is not in use
            assert(s1.pair_flipped(ck, ci));
            assert(s1.used_in_pair(ck, 2 * pp) == s1.used_in_pair(ck, 2 * pp + 1));
            if ci == 2 * pp {
                assert(!s1.used_in_pair(ck, ci));
                assert(!s1.used_in_pair(ck, bd));
            } else {
                assert(!s1.used_in_pair(ck, ci));
                assert(!s1.used_in_pair(ck, bd));
            }
        }
        assert(s1.on_list(ck, bd)) by {
            assert(s1.free_list(ck)[t3] as int == bd);
        }
        assert(r <= s1.blk_lo(ck, bd)) by {
            assert(s1.free_list(ck)[t3] as int == bd);
        }
        // pointwise maps
        assert forall|t: int, x: int|
            !(t == ck + 1 && x == pp) && 1 <= t <= kl && 0 <= x < s1.nb(t) implies (
        #[trigger] s2.is_split(t, x)) == s1.is_split(t, x) by {
            if t != ck + 1 {
                assert(s2.split_bits@[t] == s1.split_bits@[t]);
            }
        }
        assert(!s2.is_split(ck + 1, pp));
        assert forall|t: int, x: int| true implies #[trigger] s2.is_live(t, x) == s1.is_live(
            t,
            x,
        ) by {}
        // no-duplication gives that removal erases the buddy
        assert(!s2.on_list(ck, bd)) by {
            if s2.on_list(ck, bd) {
                let v = choose|v: int|
                    0 <= v < s2.free_list(ck).len() && s2.free_list(ck)[v] as int == bd;
                s1.free_list(ck).remove_ensures(t3);
                if v < t3 {
                    assert(s1.free_list(ck)[v] as int == bd);
                    assert(s1.free_list(ck)[v] == s1.free_list(ck)[t3]);
                } else {
                    assert(s1.free_list(ck)[v + 1] as int == bd);
                    assert(s1.free_list(ck)[v + 1] == s1.free_list(ck)[t3]);
                }
                assert(false);
            }
        }
        assert forall|t: int, x: int|
            !(t == ck && x == bd) && 0 <= t <= kl implies #[trigger] s2.on_list(t, x)
            == s1.on_list(t, x) by {
            if t == ck {
                s1.free_list(ck).remove_ensures(t3);
                if s2.on_list(t, x) {
                    let v = choose|v: int|
                        0 <= v < s2.free_list(t).len() && s2.free_list(t)[v] as int == x;
                    if v < t3 {
                        assert(s1.free_list(t)[v] as int == x);
                    } else {
                        assert(s1.free_list(t)[v + 1] as int == x);
                    }
                    assert(s1.on_list(t, x));
                }
                if s1.on_list(t, x) {
                    let v = choose|v: int|
                        0 <= v < s1.free_list(t).len() && s1.free_list(t)[v] as int == x;
                    assert(v != t3);
                    if v < t3 {
                        assert(s2.free_list(t)[v] as int == x);
                    } else {
                        assert(s2.free_list(t)[v - 1] as int == x);
                    }
                    assert(s2.on_list(t, x));
                }
            } else {
                assert(s2.free_lists@[t] == s1.free_lists@[t]);
                assert(s2.free_list(t) == s1.free_list(t));
            }
        }
        // activeness changes exactly at the two merged children
        assert forall|t: int, x: int|
            !(t == ck && (x == ci || x == bd)) && 0 <= t <= kl && 0 <= x < s2.nb(
                t,
            ) implies #[trigger] s2.active(t, x) == s1.active(t, x) by {
            if t < kl {
                assert(x / 2 < s2.nb(t + 1)) by (nonlinear_arith)
                    requires
                        0 <= x < s2.nb(t),
                        s2.nb(t) == 2 * s2.nb(t + 1),
                ;
                if t + 1 == ck + 1 && x / 2 == pp {
                    assert(x == 2 * pp || x == 2 * pp + 1);
                    assert(false);
                }
            }
        }
        assert(!s2.active(ck, ci) && !s2.active(ck, bd));
        // in-use changes exactly at the parent
        assert(s1.used(ck + 1, pp));
        assert(!s2.used(ck + 1, pp)) by {
            assert(!s1.is_live(ck + 1, pp));
            assert(s1.blk_hi(ck + 1, pp) > r);
        }
        assert forall|t: int, x: int|
            !(t == ck + 1 && x == pp) && 0 <= t <= kl && 0 <= x < s1.nb(t) implies (
        #[trigger] s2.used(t, x)) == s1.used(t, x) by {
            if 1 <= t {
                assert(s2.is_split(t, x) == s1.is_split(t, x));
            }
        }
        // dimensions
        assert(s2.wf_dims()) by {
            assert forall|k: int| 1 <= k <= kl implies (#[trigger] s2.split_bits@[k]@.len())
                == s2.nb(k) by {
                if k != ck + 1 {
                    assert(s2.split_bits@[k] == s1.split_bits@[k]);
                }
            }
            assert forall|k: int| 0 <= k <= kl implies (#[trigger] s2.alloc_bits@[k]@.len()) == (
            s2.nb(k) + 1) / 2 by {
                if k != ck {
                    assert(s2.alloc_bits@[k] == s1.alloc_bits@[k]);
                }
            }
        }
        // free-list elements
        assert forall|k: int, t: int|
            0 <= k <= kl && 0 <= t < s2.free_list(k).len() implies {
            let x = #[trigger] s2.free_list(k)[t] as int;
            s2.in_range(k, x) && r <= s2.blk_lo(k, x)
        } by {
            if k == ck {
                s1.free_list(ck).remove_ensures(t3);
                let u: int = if t < t3 {
                    t
                } else {
                    t + 1
                };
                assert(s2.free_list(k)[t] == s1.free_list(k)[u]);
                let x = s1.free_list(k)[u] as int;
                assert(s1.in_range(k, x) && r <= s1.blk_lo(k, x));
            } else {
                assert(s2.free_lists@[k] == s1.free_lists@[k]);
                assert(s2.free_list(k)[t] == s1.free_list(k)[t]);
                let x = s1.free_list(k)[t] as int;
                assert(s1.in_range(k, x) && r <= s1.blk_lo(k, x));
            }
        }
        assert forall|k: int, t1: int, t2: int|
            0 <= k <= kl && 0 <= t1 < t2 < s2.free_list(k).len() implies (
        #[trigger] s2.free_list(k)[t1]) != (#[trigger] s2.free_list(k)[t2]) by {
            if k == ck {
                s1.free_list(ck).remove_ensures(t3);
                let u1: int = if t1 < t3 {
                    t1
                } else {
                    t1 + 1
                };
                let u2: int = if t2 < t3 {
                    t2
                } else {
                    t2 + 1
                };
                assert(s2.free_list(k)[t1] == s1.free_list(k)[u1]);
                assert(s2.free_list(k)[t2] == s1.free_list(k)[u2]);
                assert(s1.free_list(k)[u1] != s1.free_list(k)[u2]);
            } else {
                assert(s2.free_lists@[k] == s1.free_lists@[k]);
                assert(s2.free_list(k)[t1] == s1.free_list(k)[t1]);
                assert(s2.free_list(k)[t2] == s1.free_list(k)[t2]);
                assert(s1.free_list(k)[t1] != s1.free_list(k)[t2]);
            }
        }
        // live blocks
        assert forall|w: int|
            0 <= w < s2.live_blocks().len() implies {
            let (kw, xw) = #[trigger] s2.live_blocks()[w];
            &&& s2.in_range(kw, xw)
            &&& r <= s2.blk_lo(kw, xw)
            &&& s2.active(kw, xw)
            &&& !s2.is_split(kw, xw)
        } by {
            let (kw, xw) = s2.live_blocks()[w];
            assert(s1.is_live(kw, xw));
            assert(s1.active(kw, xw) && !s1.is_split(kw, xw));
            if kw == ck && (xw == ci || xw == bd) {
                assert(!s1.is_live(ck, ci) && !s1.is_live(ck, bd));
                assert(false);
            }
            if kw == ck + 1 && xw == pp {
                assert(s1.is_split(ck + 1, pp));
                assert(false);
            }
        }
        assert(s2.wf_live());
        // split blocks
        assert forall|k: int, x: int|
            s2.in_range(k, x) && #[trigger] s2.is_split(k, x) implies s2.active(k, x)
            && !s2.is_live(k, x) && s2.blk_hi(k, x) > r by {
            assert(s1.is_split(k, x));
            assert(s1.active(k, x));
            if k == ck && (x == ci || x == bd) {
                assert(false);
            }
        }
        assert forall|k: int, x: int|
            s2.in_range(k, x) && #[trigger] s2.straddles(k, x) && 1 <= k implies s2.is_split(
            k,
            x,
        ) by {
            assert(s1.straddles(k, x));
            assert(s1.is_split(k, x));
            if k == ck + 1 && x == pp {
                // the parent starts at or past the prefix, so it cannot be
                // cut by the prefix boundary
                assert(s1.blk_lo(ck + 1, pp) == s1.blk_lo(ck, 2 * pp));
                assert(r <= s1.blk_lo(ck, 2 * pp)) by {
                    if ci == 2 * pp {
                        assert(r <= s1.blk_lo(ck, ci));
                    } else {
                        assert(r <= s1.blk_lo(ck, bd));
                    }
                }
                assert(!s1.straddles(ck + 1, pp));
                assert(false);
            }
        }
        // the membership law, with the parent in flight
        assert forall|k: int, x: int|
            s2.in_range(k, x) && !(k == ck + 1 && x == pp) implies ((#[trigger] s2.on_list(k, x))
            == (s2.active(k, x) && !s2.is_live(k, x) && !s2.is_split(k, x) && r <= s2.blk_lo(
            k,
            x,
        ))) by {
            if k == ck && x == ci {
                assert(!s2.on_list(k, x));
                assert(!s2.active(k, x));
            } else if k == ck && x == bd {
                assert(!s2.on_list(k, x));
                assert(!s2.active(k, x));
            } else {
                assert(s2.on_list(k, x) == s1.on_list(k, x));
                assert(s2.active(k, x) == s1.active(k, x));
                assert(s2.is_live(k, x) == s1.is_live(k, x));
                if 1 <= k {
                    assert(s2.is_split(k, x) == s1.is_split(k, x));
                }
                if !(k == ck && x == ci) {
                    assert(s1.on_list(k, x) == (s1.active(k, x) && !s1.is_live(k, x)
                        && !s1.is_split(k, x) && r <= s1.blk_lo(k, x)));
                }
            }
        }
        // pair bits: the merged pair is consistent again, the parent's pair
        // is the new exception
        assert forall|k: int, p: int|
            0 <= k <= kl && 0 <= p < (s2.nb(k) + 1) / 2 && !(k == ck + 1 && p == (ci / 2)
                / 2) implies (#[trigger] s2.alloc_bit(k, p)) == (s2.used_in_pair(k, 2 * p)
            != s2.used_in_pair(k, 2 * p + 1)) by {
            if k == ck && p == pp {
                assert(s2.alloc_bit(k, p) == false);
                assert(!s2.used(ck, ci) && !s2.used(ck, bd)) by {
                    assert(s2.used(ck, ci) == s1.used(ck, ci));
                    assert(s2.used(ck, bd) == s1.used(ck, bd));
                }
                assert(2 * p == ci || 2 * p == bd);
                assert(2 * p + 1 == ci || 2 * p + 1 == bd);
            } else if k == ck {
                assert(s2.alloc_bit(k, p) == s1.alloc_bit(k, p));
                assert(s1.alloc_bit(k, p) == (s1.used_in_pair(k, 2 * p) != s1.used_in_pair(
                    k,
                    2 * p + 1,
                ))) by {
                    assert(!(k == ck && p == ci / 2));
                }
                assert(2 * p != ci && 2 * p + 1 != ci && 2 * p != bd && 2 * p + 1 != bd)
                    by (nonlinear_arith)
                    requires
                        p != pp,
                        ci == 2 * pp || ci == 2 * pp + 1,
                        bd == 2 * pp || bd == 2 * pp + 1,
                ;
                if 2 * p < s1.nb(k) {
                    assert(s2.used(k, 2 * p) == s1.used(k, 2 * p));
                }
                if 2 * p + 1 < s1.nb(k) {
                    assert(s2.used(k, 2 * p + 1) == s1.used(k, 2 * p + 1));
                }
            } else {
                assert(s2.alloc_bits@[k] == s1.alloc_bits@[k]);
                assert(s2.alloc_bit(k, p) == s1.alloc_bit(k, p));
                assert(s1.alloc_bit(k, p) == (s1.used_in_pair(k, 2 * p) != s1.used_in_pair(
                    k,
                    2 * p + 1,
                )));
                if k == ck + 1 && (2 * p == pp || 2 * p + 1 == pp) {
                    assert(p == pp / 2) by (nonlinear_arith)
                        requires
                            2 * p == pp || 2 * p + 1 == pp,
                    ;
                    assert(false);
                }
                if 2 * p < s1.nb(k) {
                    assert(s2.used(k, 2 * p) == s1.used(k, 2 * p));
                }
                if 2 * p + 1 < s1.nb(k) {
                    assert(s2.used(k, 2 * p + 1) == s1.used(k, 2 * p + 1));
                }
            }
        }
        // the parent's pair bit still counts the parent as in use
        assert(s2.pair_flipped(ck + 1, pp)) by {
            let p2 = pp / 2;
            assert(s2.alloc_bit(ck + 1, p2) == s1.alloc_bit(ck + 1, p2)) by {
                assert(s2.alloc_bits@[ck + 1] == s1.alloc_bits@[ck + 1]);
            }
            assert(s1.alloc_bit(ck + 1, p2) == (s1.used_in_pair(ck + 1, 2 * p2)
                != s1.used_in_pair(ck + 1, 2 * p2 + 1)));
            assert(pp == 2 * p2 || pp == 2 * p2 + 1);
            if pp == 2 * p2 {
                if 2 * p2 + 1 < s1.nb(ck + 1) {
                    assert(s2.used(ck + 1, 2 * p2 + 1) == s1.used(ck + 1, 2 * p2 + 1));
                }
            } else {
                assert(s2.used(ck + 1, 2 * p2) == s1.used(ck + 1, 2 * p2));
            }
        }
        // the parent is in flight
        assert(s2.active(ck + 1, pp)) by {
            assert(s2.active(ck + 1, pp) == s1.active(ck + 1, pp));
            assert(s1.active(ck + 1, pp));
        }
        assert(!s2.is_live(ck + 1, pp));
        assert(!s2.on_list(ck + 1, pp)) by {
            assert(s2.on_list(ck + 1, pp) == s1.on_list(ck + 1, pp));
            assert(s1.on_list(ck + 1, pp) == (s1.active(ck + 1, pp) && !s1.is_live(ck + 1, pp)
                && !s1.is_split(ck + 1, pp) && r <= s1.blk_lo(ck + 1, pp)));
        }
        assert(r <= s2.blk_lo(ck + 1, pp)) by {
            assert(s1.blk_lo(ck + 1, pp) == s1.blk_lo(ck, 2 * pp));
            if ci == 2 * pp {
                assert(r <= s1.blk_lo(ck, ci));
            } else {
                assert(r <= s1.blk_lo(ck, bd));
            }
        }
        assert forall|t: int|
            0 <= t < kl + 1 && t != ck implies (#[trigger] s1.free_list(t)).len()
            == s2.free_list(t).len() by {
            assert(s2.free_lists@[t] == s1.free_lists@[t]);
        }
        Self::lemma_flsum_update(s1, s2, ck, -1, kl + 1);
        assert((-1) * pw(ck) * s1.leaf_spec() == -(pw(ck) * s1.leaf_spec())) by (nonlinear_arith);
    }

    /// The final step of a deallocation: flip the pair bit back and put the
    /// coalesced block on its order's free list.
    proof fn lemma_free_finish(s1: Self, s2: Self, ck: int, ci: int)
        requires
            s1.mid_state(ck, ci),
            s1.wf_bits_except(ck, ci / 2),
            s1.pair_flipped(ck, ci),
            s2.leaf_size == s1.leaf_size,
            s2.base == s1.base,
            s2.k_max == s1.k_max,
            s2.total_leaves == s1.total_leaves,
            s2.reserved == s1.reserved,
            s2.free_bytes == s1.free_bytes,
            s2.live == s1.live,
            s2.mem_base == s1.mem_base,
            s2.mem == s1.mem,
            s2.split_bits == s1.split_bits,
            s2.alloc_bits@.len() == s1.alloc_bits@.len(),
            s2.alloc_bits@[ck]@ == s1.alloc_bits@[ck]@.update(
                ci / 2,
                !s1.alloc_bits@[ck]@[ci / 2],
            ),
            forall|t: int|
                0 <= t < s1.alloc_bits@.len() && t != ck ==> (#[trigger] s2.alloc_bits@[t])
                    == s1.alloc_bits@[t],
            s2.free_lists@.len() == s1.free_lists@.len(),
            s2.free_list(ck) == s1.free_list(ck).push(ci as usize),
            0 <= ci <= usize::MAX,
            forall|t: int|
                0 <= t < s1.free_lists@.len() && t != ck ==> (#[trigger] s2.free_lists@[t])
                    == s1.free_lists@[t],
        ensures
            s2.wf_dims(),
            s2.wf_elems(),
            s2.wf_live(),
            s2.wf_split(),
            s2.wf_iff(),
            s2.wf_bits(),
            s2.flsum() == s1.flsum() + pw(ck) * s1.leaf_spec(),
        decreases 0int,
    {
        let kl = s1.k_max_spec();
        let r = s1.reserved_spec();
        let pp = ci / 2;
        lemma_pw_pos(ck);
        lemma_pw_pos(kl - ck);
        assert(ci == 2 * pp || ci == 2 * pp + 1);
        assert(pp < (s1.nb(ck) + 1) / 2) by (nonlinear_arith)
            requires
                0 <= ci < s1.nb(ck),
                pp == ci / 2,
        ;
        assert(!s1.used(ck, ci)) by {
            assert(s1.blk_hi(ck, ci) > s1.blk_lo(ck, ci)) by (nonlinear_arith)
                requires
                    pw(ck) >= 1,
                    s1.blk_hi(ck, ci) == (ci + 1) * pw(ck),
                    s1.blk_lo(ck, ci) == ci * pw(ck),
            ;
        }
        assert forall|t: int, x: int| true implies #[trigger] s2.is_split(t, x) == s1.is_split(
            t,
            x,
        ) by {}
        assert forall|t: int, x: int| true implies #[trigger] s2.active(t, x) == s1.active(
            t,
            x,
        ) by {}
        assert forall|t: int, x: int| true implies #[trigger] s2.is_live(t, x) == s1.is_live(
            t,
            x,
        ) by {}
        assert forall|t: int, x: int| true implies #[trigger] s2.used(t, x) == s1.used(t, x) by {}
        assert(s2.on_list(ck, ci)) by {
            let w = s2.free_list(ck).len() - 1;
            assert(s2.free_list(ck)[w] as int == ci);
        }
        assert forall|t: int, x: int|
            !(t == ck && x == ci) && 0 <= t <= kl implies #[trigger] s2.on_list(t, x)
            == s1.on_list(t, x) by {
            if t == ck {
                assert(s2.free_list(t) == s1.free_list(t).push(ci as usize));
                if s2.on_list(t, x) {
                    let w = choose|w: int|
                        0 <= w < s2.free_list(t).len() && s2.free_list(t)[w] as int == x;
                    if w == s1.free_list(t).len() {
                        assert(s2.free_list(t)[w] as int == ci);
                        assert(false);
                    }
                    assert(s1.free_list(t)[w] as int == x);
                    assert(s1.on_list(t, x));
                }
                if s1.on_list(t, x) {
                    let w = choose|w: int|
                        0 <= w < s1.free_list(t).len() && s1.free_list(t)[w] as int == x;
                    assert(s2.free_list(t)[w] as int == x);
                }
            } else {
                assert(s2.free_lists@[t] == s1.free_lists@[t]);
                assert(s2.free_list(t) == s1.free_list(t));
            }
        }
        assert(s2.wf_dims()) by {
            assert forall|k: int| 0 <= k <= kl implies (#[trigger] s2.alloc_bits@[k]@.len()) == (
            s2.nb(k) + 1) / 2 by {
                if k != ck {
                    assert(s2.alloc_bits@[k] == s1.alloc_bits@[k]);
                }
            }
        }
        assert forall|k: int, t: int|
            0 <= k <= kl && 0 <= t < s2.free_list(k).len() implies {
            let x = #[trigger] s2.free_list(k)[t] as int;
            s2.in_range(k, x) && r <= s2.blk_lo(k, x)
        } by {
            if k == ck {
                assert(s2.free_list(k) == s1.free_list(k).push(ci as usize));
                if t == s2.free_list(k).len() - 1 {
                    assert(s2.free_list(k)[t] as int == ci);
                } else {
                    assert(s2.free_list(k)[t] == s1.free_list(k)[t]);
                    let x = s1.free_list(k)[t] as int;
                    assert(s1.in_range(k, x) && r <= s1.blk_lo(k, x));
                }
            } else {
                assert(s2.free_lists@[k] == s1.free_lists@[k]);
                assert(s2.free_list(k)[t] == s1.free_list(k)[t]);
                let x = s1.free_list(k)[t] as int;
                assert(s1.in_range(k, x) && r <= s1.blk_lo(k, x));
            }
        }
        assert forall|k: int, t1: int, t2: int|
            0 <= k <= kl && 0 <= t1 < t2 < s2.free_list(k).len() implies (
        #[trigger] s2.free_list(k)[t1]) != (#[trigger] s2.free_list(k)[t2]) by {
            if k == ck {
                assert(s2.free_list(k) == s1.free_list(k).push(ci as usize));
                assert(s2.free_list(k)[t1] == s1.free_list(k)[t1]);
                if t2 == s2.free_list(k).len() - 1 {
                    assert(s2.free_list(k)[t2] as int == ci);
                    if s1.free_list(k)[t1] as int == ci {
                        assert(s1.on_list(ck, ci));
                        assert(false);
                    }
                } else {
                    assert(s2.free_list(k)[t2] == s1.free_list(k)[t2]);
                    assert(s1.free_list(k)[t1] != s1.free_list(k)[t2]);
                }
            } else {
                assert(s2.free_lists@[k] == s1.free_lists@[k]);
                assert(s2.free_list(k)[t1] == s1.free_list(k)[t1]);
                assert(s2.free_list(k)[t2] == s1.free_list(k)[t2]);
                assert(s1.free_list(k)[t1] != s1.free_list(k)[t2]);
            }
        }
        assert(s2.wf_live()) by {
            assert forall|w: int|
                0 <= w < s2.live_blocks().len() implies {
                let (kw, xw) = #[trigger] s2.live_blocks()[w];
                &&& s2.in_range(kw, xw)
                &&& r <= s2.blk_lo(kw, xw)
                &&& s2.active(kw, xw)
                &&& !s2.is_split(kw, xw)
            } by {
                assert(s2.live_blocks()[w] == s1.live_blocks()[w]);
                let (kw, xw) = s1.live_blocks()[w];
                assert(s2.active(kw, xw) == s1.active(kw, xw));
                assert(s2.is_split(kw, xw) == s1.is_split(kw, xw));
            }
            assert forall|w1: int, w2: int|
                0 <= w1 < w2 < s2.live_blocks().len() implies (#[trigger] s2.live_blocks()[w1])
                != (#[trigger] s2.live_blocks()[w2]) by {
                assert(s2.live_blocks()[w1] == s1.live_blocks()[w1]);
                assert(s2.live_blocks()[w2] == s1.live_blocks()[w2]);
            }
        }
        assert(s2.wf_split()) by {
            assert forall|k: int, x: int|
                s2.in_range(k, x) && #[trigger] s2.is_split(k, x) implies s2.active(k, x)
                && !s2.is_live(k, x) && s2.blk_hi(k, x) > r by {
                assert(s1.is_split(k, x));
            }
            assert forall|k: int, x: int|
                s2.in_range(k, x) && #[trigger] s2.straddles(k, x) && 1 <= k implies s2.is_split(
                k,
                x,
            ) by {
                assert(s1.straddles(k, x));
            }
        }
        assert(s2.wf_iff()) by {
            assert forall|k: int, x: int| s2.in_range(k, x) implies ((#[trigger] s2.on_list(k, x))
                == (s2.active(k, x) && !s2.is_live(k, x) && !s2.is_split(k, x) && r <= s2.blk_lo(
                k,
                x,
            ))) by {
                if k == ck && x == ci {
                    assert(s2.on_list(k, x));
                } else {
                    assert(s2.on_list(k, x) == s1.on_list(k, x));
                    assert(s1.on_list(k, x) == (s1.active(k, x) && !s1.is_live(k, x)
                        && !s1.is_split(k, x) && r <= s1.blk_lo(k, x)));
                }
            }
        }
        assert(s2.wf_bits()) by {
            assert forall|k: int, p: int|
                0 <= k <= kl && 0 <= p < (s2.nb(k) + 1) / 2 implies (#[trigger] s2.alloc_bit(
                k,
                p,
            )) == (s2.used_in_pair(k, 2 * p) != s2.used_in_pair(k, 2 * p + 1)) by {
                if k == ck && p == pp {
                    assert(s2.alloc_bit(k, p) == !s1.alloc_bit(k, p));
                    assert(s1.alloc_bit(k, p) == !(s1.used_in_pair(k, 2 * p) != s1.used_in_pair(
                        k,
                        2 * p + 1,
                    )));
                } else if k == ck {
                    assert(s2.alloc_bit(k, p) == s1.alloc_bit(k, p));
                    assert(s1.alloc_bit(k, p) == (s1.used_in_pair(k, 2 * p) != s1.used_in_pair(
                        k,
                        2 * p + 1,
                    )));
                } else {
                    assert(s2.alloc_bits@[k] == s1.alloc_bits@[k]);
                    assert(s2.alloc_bit(k, p) == s1.alloc_bit(k, p));
                    assert(s1.alloc_bit(k, p) == (s1.used_in_pair(k, 2 * p) != s1.used_in_pair(
                        k,
                        2 * p + 1,
                    )));
                }
            }
        }
        assert forall|t: int|
            0 <= t < kl + 1 && t != ck implies (#[trigger] s1.free_list(t)).len()
            == s2.free_list(t).len() by {
            assert(s2.free_lists@[t] == s1.free_lists@[t]);
        }
        Self::lemma_flsum_update(s1, s2, ck, 1, kl + 1);
    }

    /// Return the block at `addr` — which must be an outstanding allocation
    /// of this region — and coalesce it with its buddy as long as the pair
    /// bit reports the buddy free. The size and alignment arguments are
    /// accepted for interface compatibility and ignored: the block's order
    /// is re-derived from the split bits alone, so the layout given here
    /// need not match the one used at allocation.
    #[verifier::loop_isolation(false)]
    #[verifier::rlimit(100)]
    pub fn deallocate(&mut self, addr: usize, _size: usize, _align: usize)
        requires
            old(self).wf(),
            exists|w: int|
                0 <= w < old(self).live_blocks().len() && addr as int == old(self).addr_of(
                    (#[trigger] old(self).live_blocks()[w]).0,
                    old(self).live_blocks()[w].1,
                ),
        ensures
            final(self).wf(),
            final(self).leaf_spec() == old(self).leaf_spec(),
            final(self).base_spec() == old(self).base_spec(),
            final(self).k_max_spec() == old(self).k_max_spec(),
            final(self).total_spec() == old(self).total_spec(),
            final(self).reserved_spec() == old(self).reserved_spec(),
            final(self).mem_base_spec() == old(self).mem_base_spec(),
            final(self).mem_bytes() == old(self).mem_bytes(),
            final(self).live_blocks().len() == old(self).live_blocks().len() - 1,
            exists|w: int|
                0 <= w < old(self).live_blocks().len() && addr as int == old(self).addr_of(
                    (#[trigger] old(self).live_blocks()[w]).0,
                    old(self).live_blocks()[w].1,
                ) && final(self).live_blocks() == old(self).live_blocks().remove(w)
                    && final(self).free_bytes_spec() == old(self).free_bytes_spec() + pw(
                    old(self).live_blocks()[w].0,
                ) * old(self).leaf_spec() && (exists|jf: int|
                    old(self).live_blocks()[w].0 <= jf <= old(self).k_max_spec() && (
                    #[trigger] final(self).free_list(jf)).len() > 0),
    {
        let ghost kl = old(self).k_max_spec();
        let ghost leaf = old(self).leaf_spec() as int;
        let ghost w0 = choose|w: int|
            0 <= w < old(self).live_blocks().len() && addr as int == old(self).addr_of(
                (#[trigger] old(self).live_blocks()[w]).0,
                old(self).live_blocks()[w].1,
            );
        let ghost (k0, i0) = old(self).live_blocks()[w0];
        let ghost li0 = old(self).blk_lo(k0, i0);
        proof {
            lemma_pw_pos(k0);
            lemma_pw_ge_linear(kl);
            assert(self.k_max < usize::MAX);
            old(self).lemma_block_in_tree(k0, i0);
            assert(li0 * leaf >= 0 && li0 * leaf <= self.total_spec() * leaf) by (nonlinear_arith)
                requires
                    0 <= li0 <= self.total_spec(),
                    leaf >= 16,
            ;
            assert(self.total_spec() * leaf + self.base_spec() <= usize::MAX) by {
                assert(self.tree_end() <= usize::MAX);
            }
            old(self).lemma_live_derivation(w0);
            assert(li0 / pw(0) == i0 * pw(k0));
            assert(pw(0) == 1);
            assert(addr as int == self.base_spec() + i0 * pw(k0) * leaf);
            assert(i0 * pw(k0) * leaf == li0 * leaf) by (nonlinear_arith)
                requires
                    li0 == i0 * pw(k0),
            ;
        }
        // the first leaf of the freed block
        let li = (addr - self.base) / self.leaf_size;
        proof {
            assert(leaf * li0 == li0 * leaf) by (nonlinear_arith);
            vstd::arithmetic::div_mod::lemma_div_multiples_vanish(li0, leaf);
            assert(li == li0);
        }
        // read the block's order back off the split bits
        let mut k: usize = self.k_max;
        let mut found = false;
        let mut dd: usize = li / 2;
        let mut t: usize = 0;
        proof {
            assert(pw(1) == 2);
        }
        while t < self.k_max
            invariant
                *self == *old(self),
                0 <= t <= kl,
                dd == li0 / pw(t as int + 1),
                !found ==> k == self.k_max,
                !found ==> forall|x: int|
                    0 <= x < t ==> !self.is_split(x + 1, #[trigger] (li0 / pw(x + 1))),
                found ==> k as int == k0,
            decreases self.k_max - t,
        {
            let ghost ti = t as int;
            proof {
                lemma_pw_pos(ti + 1);
                lemma_pw_pos(kl - ti - 1);
                lemma_pw_adds(ti + 1, kl - ti - 1);
                vstd::arithmetic::div_mod::lemma_fundamental_div_mod(li0, pw(ti + 1));
                assert(li0 / pw(ti + 1) * pw(ti + 1) <= li0) by (nonlinear_arith)
                    requires
                        li0 == pw(ti + 1) * (li0 / pw(ti + 1)) + li0 % pw(ti + 1),
                        li0 % pw(ti + 1) >= 0,
                ;
                vstd::arithmetic::div_mod::lemma_div_pos_is_pos(li0, pw(ti + 1));
                assert(li0 / pw(ti + 1) < self.nb(ti + 1)) by (nonlinear_arith)
                    requires
                        0 <= li0 < self.total_spec(),
                        self.total_spec() == pw(ti + 1) * self.nb(ti + 1),
                        pw(ti + 1) >= 1,
                        self.nb(ti + 1) >= 1,
                        li0 / pw(ti + 1) * pw(ti + 1) <= li0,
                        li0 / pw(ti + 1) >= 0,
                ;
            }
            if !found && self.split_bits[t + 1][dd] {
                k = t;
                found = true;
                proof {
                    // nothing below the true order is split, so this is it
                    if t as int != k0 {
                        if (t as int) < k0 {
                            assert(!self.is_split(t as int + 1, li0 / pw(t as int + 1)));
                            assert(false);
                        } else {
                            assert(k0 < t as int);
                            assert(k0 < kl);
                            assert(self.is_split(k0 + 1, li0 / pw(k0 + 1)));
                            assert(false);
                        }
                    }
                }
            }
            proof {
                lemma_pw_pos(t as int + 1);
                vstd::arithmetic::div_mod::lemma_div_denominator(li0, pw(t as int + 1), 2);
                assert(li0 / (pw(t as int + 1) * 2) == li0 / (2 * pw(t as int + 1)))
                    by (nonlinear_arith);
            }
            dd = dd / 2;
            t = t + 1;
        }
        proof {
            if !found {
                if k0 < kl {
                    assert(self.is_split(k0 + 1, li0 / pw(k0 + 1)));
                    assert(false);
                }
                assert(k0 == kl);
            }
            assert(k as int == k0);
        }
        // the block's index at its order
        let mut ci: usize = li;
        let mut t2: usize = 0;
        while t2 < k
            invariant
                *self == *old(self),
                0 <= t2 <= k,
                k as int == k0,
                ci == li0 / pw(t2 as int),
            decreases k - t2,
        {
            proof {
                lemma_pw_pos(t2 as int);
                vstd::arithmetic::div_mod::lemma_div_denominator(li0, pw(t2 as int), 2);
                assert(li0 / (pw(t2 as int) * 2) == li0 / (2 * pw(t2 as int)))
                    by (nonlinear_arith);
            }
            ci = ci / 2;
            t2 = t2 + 1;
        }
        proof {
            assert(ci as int == li0 / pw(k0));
            assert(li0 / pw(k0) == i0 * pw(k0 - k0));
            assert(pw(k0 - k0) == pw(0));
            assert(pw(0) == 1);
            assert(i0 * pw(k0 - k0) == i0) by (nonlinear_arith)
                requires
                    pw(k0 - k0) == 1,
            ;
            assert(ci as int == i0);
        }
        // the size of the block being returned
        proof {
            lemma_pw_mono(k0, kl);
            assert(pw(k0) * leaf <= pw(kl) * leaf) by (nonlinear_arith)
                requires
                    pw(k0) <= pw(kl),
                    leaf >= 0,
            ;
            assert(pw(kl) * leaf <= usize::MAX) by {
                assert(self.tree_end() <= usize::MAX);
            }
        }
        let bs0 = block_size(k, self.leaf_size);
        // drop the allocation record: the block is now in flight
        proof {
            self.live@ = self.live@.remove(w0);
            Self::lemma_free_start(*old(self), *self, w0);
        }
        // coalesce upward while the pair bit reports the buddy free
        let mut ck = k;
        let mut merging = true;
        while merging
            invariant
                self.leaf_size == old(self).leaf_size,
                self.base == old(self).base,
                self.k_max == old(self).k_max,
                self.total_leaves == old(self).total_leaves,
                self.reserved == old(self).reserved,
                self.mem_base == old(self).mem_base,
                self.mem == old(self).mem,
                self.live@ == old(self).live_blocks().remove(w0),
                self.free_bytes == old(self).free_bytes,
                merging ==> self.mid_state(ck as int, ci as int),
                merging ==> self.wf_bits_except(ck as int, ci as int / 2),
                merging ==> self.pair_flipped(ck as int, ci as int),
                merging ==> k0 <= ck <= kl,
                merging ==> self.free_bytes == self.flsum() + pw(ck as int) * self.leaf_spec()
                    - pw(k0) * self.leaf_spec(),
                !merging ==> self.wf_dims() && self.wf_elems() && self.wf_live()
                    && self.wf_split() && self.wf_iff() && self.wf_bits(),
                !merging ==> self.free_bytes == self.flsum() - pw(k0) * self.leaf_spec(),
                !merging ==> k0 <= ck <= kl && self.free_list(ck as int).len() > 0,
            decreases (if merging {
                kl + 1 - ck
            } else {
                0int
            }),
        {
            let ghost s1 = *self;
            let ghost cki = ck as int;
            let ghost cii = ci as int;
            proof {
                lemma_pw_pos(cki);
                lemma_pw_pos(kl - cki);
                assert(cii / 2 < (s1.nb(cki) + 1) / 2) by (nonlinear_arith)
                    requires
                        0 <= cii < s1.nb(cki),
                ;
            }
            let pair = ci / 2;
            let b0 = self.alloc_bits[ck][pair];
            self.alloc_bits[ck].set(pair, !b0);
            let b = !b0;
            if ck < self.k_max && !b {
                // the buddy is free too: merge with it
                let ghost s2 = *self;
                let buddy = if ci % 2 == 0 {
                    ci + 1
                } else {
                    ci - 1
                };
                proof {
                    assert(b0 == true);
                    Self::lemma_buddy_on_list(s1, cki, cii);
                    assert(s1.nb(cki) == 2 * s1.nb(cki + 1));
                    assert(s1.nb(cki) % 2 == 0) by (nonlinear_arith)
                        requires
                            s1.nb(cki) == 2 * s1.nb(cki + 1),
                    ;
                    assert(cii % 2 == 0 ==> cii + 1 < s1.nb(cki)) by (nonlinear_arith)
                        requires
                            0 <= cii < s1.nb(cki),
                            s1.nb(cki) % 2 == 0,
                    ;
                    assert(buddy as int == (if cii % 2 == 0 {
                        cii + 1
                    } else {
                        cii - 1
                    }));
                    assert(s1.on_list(cki, buddy as int));
                }
                // find it and take it off
                let mut t3: usize = 0;
                while t3 < self.free_lists[ck].len() && self.free_lists[ck][t3] != buddy
                    invariant
                        *self == s2,
                        0 <= t3 <= s2.free_list(cki).len(),
                        forall|v: int| 0 <= v < t3 ==> (#[trigger] s2.free_list(cki)[v]) != buddy,
                    decreases s2.free_list(cki).len() - t3,
                {
                    t3 = t3 + 1;
                }
                proof {
                    assert(t3 < s2.free_list(cki).len()) by {
                        assert(s1.on_list(cki, buddy as int));
                        let v = choose|v: int|
                            0 <= v < s1.free_list(cki).len() && s1.free_list(cki)[v] as int
                                == buddy as int;
                        assert(s2.free_list(cki) == s1.free_list(cki));
                        if t3 >= s2.free_list(cki).len() {
                            assert(s2.free_list(cki)[v] != buddy);
                            assert(s2.free_list(cki)[v] as int == buddy as int);
                            assert(false);
                        }
                    }
                }
                let removed = self.free_lists[ck].remove(t3);
                self.split_bits[ck + 1].set(ci / 2, false);
                proof {
                    assert(removed == buddy);
                    assert(self.alloc_bits@[cki]@ =~= s1.alloc_bits@[cki]@.update(
                        cii / 2,
                        false,
                    )) by {
                        assert(self.alloc_bits@[cki]@ == s1.alloc_bits@[cki]@.update(
                            cii / 2,
                            !s1.alloc_bits@[cki]@[cii / 2],
                        ));
                        assert(s1.alloc_bits@[cki]@[cii / 2] == s1.alloc_bit(cki, cii / 2));
                    }
                    assert(self.split_bits@[cki + 1]@ =~= s1.split_bits@[cki + 1]@.update(
                        cii / 2,
                        false,
                    ));
                    assert(self.free_list(cki) =~= s1.free_list(cki).remove(t3 as int));
                    assert forall|tx: int|
                        0 <= tx < s1.alloc_bits@.len() && tx != cki implies (
                    #[trigger] self.alloc_bits@[tx]) == s1.alloc_bits@[tx] by {}
                    assert forall|tx: int|
                        0 <= tx < s1.split_bits@.len() && tx != cki + 1 implies (
                    #[trigger] self.split_bits@[tx]) == s1.split_bits@[tx] by {}
                    assert forall|tx: int|
                        0 <= tx < s1.free_lists@.len() && tx != cki implies (
                    #[trigger] self.free_lists@[tx]) == s1.free_lists@[tx] by {}
                    Self::lemma_merge_step(s1, *self, cki, cii, t3 as int);
                    assert(pw(cki + 1) == 2 * pw(cki));
                    assert(pw(cki + 1) * s1.leaf_spec() == pw(cki) * s1.leaf_spec() + pw(cki)
                        * s1.leaf_spec()) by (nonlinear_arith)
                        requires
                            pw(cki + 1) == 2 * pw(cki),
                    ;
                }
                ci = ci / 2;
                ck = ck + 1;
            } else {
                // the buddy is in use (or there is none): stop here
                self.free_lists[ck].push(ci);
                proof {
                    assert(self.alloc_bits@[cki]@ =~= s1.alloc_bits@[cki]@.update(
                        cii / 2,
                        !s1.alloc_bits@[cki]@[cii / 2],
                    ));
                    assert(self.free_list(cki) =~= s1.free_list(cki).push(ci));
                    assert forall|tx: int|
                        0 <= tx < s1.alloc_bits@.len() && tx != cki implies (
                    #[trigger] self.alloc_bits@[tx]) == s1.alloc_bits@[tx] by {}
                    assert forall|tx: int|
                        0 <= tx < s1.free_lists@.len() && tx != cki implies (
                    #[trigger] self.free_lists@[tx]) == s1.free_lists@[tx] by {}
                    Self::lemma_free_finish(s1, *self, cki, cii);
                    assert(self.free_list(cki).len() > 0);
                }
                merging = false;
            }
        }
        // account for the returned bytes
        proof {
            self.lemma_flsum_nonneg(kl + 1);
            Self::lemma_blocks_sum_nonneg(self.live@, self.leaf_size);
            assert(old(self).free_bytes + old(self).live_sum() == old(self).managed_bytes());
            assert(Self::blocks_sum(self.live@, self.leaf_size) == old(self).live_sum() - pw(k0)
                * leaf);
            assert(self.free_bytes + bs0 == self.managed_bytes() - Self::blocks_sum(
                self.live@,
                self.leaf_size,
            ));
            assert(self.managed_bytes() <= self.total_spec() * leaf) by (nonlinear_arith)
                requires
                    self.managed_bytes() == (self.total_spec() - self.reserved_spec()) * leaf,
                    0 <= self.reserved_spec(),
                    leaf >= 0,
            ;
            assert(self.total_spec() * leaf <= usize::MAX) by {
                assert(self.tree_end() <= usize::MAX);
            }
        }
        let ghost s3 = *self;
        self.free_bytes = self.free_bytes + bs0;
        proof {
            Self::lemma_pieces_frame(s3, *self);
            Self::lemma_flsum_agree(s3, *self, kl + 1);
            assert(self.free_bytes == self.flsum());
            assert(self.free_bytes + self.live_sum() == self.managed_bytes());
            assert(self.live@ == old(self).live_blocks().remove(w0));
            old(self).live_blocks().remove_ensures(w0);
            assert(k0 <= ck as int <= kl && self.free_list(ck as int).len() > 0);
        }
    }

    /// The tables of order `t` as construction lays them out: at most one
    /// free block (index `u`), at most one split bit (the block cut by the
    /// prefix boundary), at most one pair bit (the pair `u` completes).
    spec fn init_row_ok(
        fl: Vec<usize>,
        ab: Vec<bool>,
        sb: Vec<bool>,
        r: int,
        kmx: int,
        t: int,
    ) -> bool {
        let nbt = pw(kmx - t);
        let u = Self::u_of(r, t);
        &&& fl@.len() == (if u % 2 == 1 && u + 1 <= nbt {
            1int
        } else {
            0int
        })
        &&& forall|t2: int| 0 <= t2 < fl@.len() ==> (#[trigger] fl@[t2]) as int == u
        &&& ab@.len() == (nbt + 1) / 2
        &&& forall|p: int| 0 <= p < ab@.len() ==> (#[trigger] ab@[p]) == (u % 2 == 1 && p == u / 2)
        &&& sb@.len() == (if t == 0 {
            0int
        } else {
            nbt
        })
        &&& forall|i: int|
            0 <= i < sb@.len() ==> (#[trigger] sb@[i]) == (i == Self::q_of(r, t)
                && !Self::exact_of(r, t))
    }

    /// Set up a fresh region over `[param.base_addr, param.base_addr +
    /// param.len)`. The tree base is the region base rounded up to the leaf
    /// size; the tree spans the largest power of two of leaves that fits;
    /// the bookkeeping prefix is reserved; everything past it starts free,
    /// so `available_bytes` starts at `managed_bytes`. Every byte of the
    /// region is zero.
    pub fn new(param: BuddyAllocParam) -> (s: Self)
        requires
            param.valid(),
        ensures
            s.wf(),
            s.leaf_spec() == param.leaf_size,
            s.mem_base_spec() == param.base_addr,
            s.mem_bytes().len() == param.len,
            forall|t: int| 0 <= t < param.len ==> (#[trigger] s.mem_bytes()[t]) == 0u8,
            s.live_blocks() == Seq::<(int, int)>::empty(),
            s.free_bytes_spec() == s.managed_bytes(),
            param.base_addr <= s.base_spec() < param.base_addr + param.leaf_size,
            s.tree_end() <= param.base_addr + param.len,
    {
        let BuddyAllocParam { base_addr, len, leaf_size } = param;
        let b0 = roundup(base_addr, leaf_size);
        let end0 = rounddown(base_addr + len, leaf_size);
        let span = end0 - b0;
        let span_leaves = span / leaf_size;
        proof {
            assert(span > 14 * leaf_size);
            vstd::arithmetic::div_mod::lemma_div_is_ordered(
                leaf_size as int,
                span as int,
                leaf_size as int,
            );
            vstd::arithmetic::div_mod::lemma_div_by_self(leaf_size as int);
            lemma_fundamental_div_mod(span as int, leaf_size as int);
            assert(span_leaves * leaf_size <= span) by (nonlinear_arith)
                requires
                    span as int == leaf_size * span_leaves + span as int % (leaf_size as int),
                    span as int % (leaf_size as int) >= 0,
            ;
        }
        proof {
            // the leaf count fits comfortably: the region is at most a
            // quarter of the address space and a leaf is at least 16 bytes
            vstd::arithmetic::div_mod::lemma_div_is_ordered(
                span as int,
                usize::MAX as int / 4,
                leaf_size as int,
            );
            vstd::arithmetic::div_mod::lemma_div_is_ordered_by_denominator(
                usize::MAX as int / 4,
                16,
                leaf_size as int,
            );
            assert(usize::MAX as int / 4 / 16 <= usize::MAX / 64) by (nonlinear_arith);
            assert(span_leaves <= usize::MAX / 64);
        }
        // the largest power of two of leaves that fits
        let mut k_max: usize = 0;
        let mut total: usize = 1;
        proof {
            assert(pw(0) == 1);
        }
        while 2 * total <= span_leaves
            invariant
                1 <= total <= span_leaves,
                total == pw(k_max as int),
                k_max <= total,
                span_leaves <= usize::MAX / 64,
            decreases span_leaves - total,
        {
            total = 2 * total;
            k_max = k_max + 1;
            proof {
                lemma_pw_ge_linear(k_max as int);
            }
        }
        proof {
            lemma_pw_quad(k_max as int);
            assert(142 * (k_max as int + 1) <= total + 21600) by (nonlinear_arith)
                requires
                    (k_max as int) * (k_max as int) <= pw(k_max as int) + 16,
                    pw(k_max as int) == total,
                    k_max >= 0,
            ;
        }
        // bookkeeping bytes: one four-word record per order plus the bit
        // tables, each padded to whole 16-byte units
        let mut meta: usize = 32 * (k_max + 1);
        let mut nb: usize = total;
        let mut k: usize = 0;
        while k <= k_max
            invariant
                0 <= k <= k_max + 1,
                142 * (k_max as int + 1) <= total + 21600,
                total == pw(k_max as int),
                k <= k_max ==> nb == pw(k_max as int - k as int),
                total <= span_leaves,
                span_leaves <= usize::MAX / 64,
                meta >= 32,
                k <= k_max ==> meta <= 32 * (k_max + 1) + 110 * k + 4 * (total - nb),
                k == k_max + 1 ==> meta <= 32 * (k_max + 1) + 110 * k + 4 * total,
            decreases k_max + 1 - k,
        {
            proof {
                lemma_pw_pos(k_max as int - k as int);
                lemma_pw_mono(k_max as int - k as int, k_max as int);
                assert(1 <= nb <= total);
            }
            let pairs = (nb + 1) / 2;
            proof {
                assert(pairs <= nb) by (nonlinear_arith)
                    requires
                        pairs == (nb + 1) / 2,
                        nb >= 1,
                ;
                assert((pairs + 7) / 8 <= pairs + 7) by (nonlinear_arith)
                    requires
                        pairs >= 0,
                ;
                assert((nb + 7) / 8 <= nb + 7) by (nonlinear_arith)
                    requires
                        nb >= 0,
                ;
            }
            let ab = roundup((pairs + 7) / 8, 16);
            let sb = if k >= 1 {
                roundup((nb + 7) / 8, 16)
            } else {
                0
            };
            proof {
                assert(ab <= nb + 22);
                assert(sb <= nb + 22);
            }
            meta = meta + ab + sb;
            proof {
                if k < k_max {
                    assert(pw(k_max as int - k as int) == 2 * pw(k_max as int - (k + 1)));
                }
            }
            nb = nb / 2;
            k = k + 1;
        }
        // reserved prefix in leaves, clamped to the whole tree
        proof {
            assert(leaf_size <= len);
            assert(meta + leaf_size <= usize::MAX);
        }
        let mr = roundup(meta, leaf_size);
        let q0 = mr / leaf_size;
        proof {
            lemma_fundamental_div_mod(mr as int, leaf_size as int);
            assert(q0 >= 1) by (nonlinear_arith)
                requires
                    mr as int == leaf_size * q0 + mr as int % (leaf_size as int),
                    mr as int % (leaf_size as int) == 0,
                    mr >= 1,
                    leaf_size >= 1,
                    q0 >= 0,
            ;
        }
        let reserved = if q0 >= total {
            total
        } else {
            q0
        };
        // build the per-order tables
        let mut free_lists: Vec<Vec<usize>> = Vec::new();
        let mut alloc_bits: Vec<Vec<bool>> = Vec::new();
        let mut split_bits: Vec<Vec<bool>> = Vec::new();
        let mut nb2: usize = total;
        let mut qv: usize = reserved;
        let mut ex: bool = true;
        let mut k2: usize = 0;
        proof {
            assert(Self::q_of(reserved as int, 0) == reserved);
            assert(Self::exact_of(reserved as int, 0));
        }
        while k2 <= k_max
            invariant
                0 <= k2 <= k_max + 1,
                142 * (k_max as int + 1) <= total + 21600,
                1 <= reserved <= total,
                total == pw(k_max as int),
                total <= usize::MAX / 64,
                k2 <= k_max ==> nb2 == pw(k_max as int - k2 as int),
                k2 <= k_max ==> qv == Self::q_of(reserved as int, k2 as int),
                k2 <= k_max ==> ex == Self::exact_of(reserved as int, k2 as int),
                free_lists@.len() == k2,
                alloc_bits@.len() == k2,
                split_bits@.len() == k2,
                forall|t: int|
                    0 <= t < k2 ==> Self::init_row_ok(
                        #[trigger] free_lists@[t],
                        alloc_bits@[t],
                        split_bits@[t],
                        reserved as int,
                        k_max as int,
                        t,
                    ),
            decreases k_max + 1 - k2,
        {
            let ghost rr = reserved as int;
            let ghost kk = k2 as int;
            let ghost kmx = k_max as int;
            proof {
                lemma_pw_pos(kmx - kk);
                lemma_pw_pos(kk);
                // the ceiling never exceeds the block count of the order
                Self::lemma_used_bound(rr, kk, pw(kmx - kk));
                lemma_pw_adds(kk, kmx - kk);
                assert(pw(kmx - kk) * pw(kk) == pw(kmx)) by (nonlinear_arith)
                    requires
                        pw(kmx) == pw(kk) * pw(kmx - kk),
                ;
                assert(!(pw(kmx - kk) * pw(kk) < rr));
                assert(Self::u_of(rr, kk) <= nb2);
                assert(qv <= Self::u_of(rr, kk));
            }
            let u: usize = if ex {
                qv
            } else {
                qv + 1
            };
            let mut row: Vec<usize> = Vec::new();
            if u % 2 == 1 && u <= nb2 - 1 {
                row.push(u);
            }
            free_lists.push(row);
            let pairs = (nb2 + 1) / 2;
            let mut ab = falses(pairs);
            if u % 2 == 1 {
                proof {
                    assert(u as int / 2 < pairs) by (nonlinear_arith)
                        requires
                            u % 2 == 1,
                            u <= nb2,
                            pairs == (nb2 + 1) / 2,
                            nb2 >= 1,
                    ;
                }
                ab.set(u / 2, true);
            }
            alloc_bits.push(ab);
            let mut sbv: Vec<bool> = if k2 == 0 {
                Vec::new()
            } else {
                falses(nb2)
            };
            if k2 >= 1 && !ex {
                proof {
                    lemma_fundamental_div_mod(rr, pw(kk));
                    assert(qv < nb2) by (nonlinear_arith)
                        requires
                            rr == pw(kk) * qv + rr % pw(kk),
                            rr % pw(kk) > 0,
                            rr <= pw(kk) * nb2,
                            pw(kk) >= 1,
                            qv >= 0,
                            nb2 >= 0,
                    ;
                }
                sbv.set(qv, true);
            }
            split_bits.push(sbv);
            proof {
                assert(Self::init_row_ok(
                    free_lists@[kk],
                    alloc_bits@[kk],
                    split_bits@[kk],
                    rr,
                    kmx,
                    kk,
                ));
                Self::lemma_q_step(rr, kk);
                if kk < kmx {
                    assert(pw(kmx - kk) == 2 * pw(kmx - (kk + 1)));
                }
            }
            let ex_next = ex && qv % 2 == 0;
            qv = qv / 2;
            ex = ex_next;
            nb2 = nb2 / 2;
            k2 = k2 + 1;
        }
        // the backing bytes
        let mut mem: Vec<u8> = Vec::new();
        let mut i: usize = 0;
        while i < len
            invariant
                0 <= i <= len,
                mem@.len() == i,
                forall|t: int| 0 <= t < i ==> (#[trigger] mem@[t]) == 0u8,
            decreases len - i,
        {
            mem.push(0u8);
            i = i + 1;
        }
        proof {
            assert(total * leaf_size <= span_leaves * leaf_size) by (nonlinear_arith)
                requires
                    total <= span_leaves,
                    leaf_size >= 0,
            ;
            assert((total - reserved) * leaf_size <= total * leaf_size) by (nonlinear_arith)
                requires
                    0 <= reserved <= total,
                    leaf_size >= 0,
            ;
            assert((total - reserved) * leaf_size >= 0) by (nonlinear_arith)
                requires
                    reserved <= total,
                    leaf_size >= 0,
            ;
        }
        let free_bytes = (total - reserved) * leaf_size;
        let s = BuddyAlloc {
            leaf_size,
            base: b0,
            k_max,
            total_leaves: total,
            reserved,
            free_lists,
            alloc_bits,
            split_bits,
            free_bytes,
            mem_base: base_addr,
            mem,
            live: Ghost(Seq::empty()),
        };
        proof {
            assert(s.wf_dims()) by {
                assert forall|kx: int| 1 <= kx <= s.k_max_spec() implies (
                #[trigger] s.split_bits@[kx]@.len()) == s.nb(kx) by {
                    assert(Self::init_row_ok(
                        s.free_lists@[kx],
                        s.alloc_bits@[kx],
                        s.split_bits@[kx],
                        s.reserved_spec(),
                        s.k_max_spec(),
                        kx,
                    ));
                }
                assert forall|kx: int| 0 <= kx <= s.k_max_spec() implies (
                #[trigger] s.alloc_bits@[kx]@.len()) == (s.nb(kx) + 1) / 2 by {
                    assert(Self::init_row_ok(
                        s.free_lists@[kx],
                        s.alloc_bits@[kx],
                        s.split_bits@[kx],
                        s.reserved_spec(),
                        s.k_max_spec(),
                        kx,
                    ));
                }
                assert(Self::init_row_ok(
                    s.free_lists@[0],
                    s.alloc_bits@[0],
                    s.split_bits@[0],
                    s.reserved_spec(),
                    s.k_max_spec(),
                    0,
                ));
            }
            assert(s.is_init_state()) by {
                assert forall|kx: int, ix: int|
                    1 <= kx <= s.k_max_spec() && 0 <= ix < s.nb(kx) implies (#[trigger] s.is_split(
                    kx,
                    ix,
                )) == (ix == Self::q_of(s.reserved_spec(), kx) && !Self::exact_of(
                    s.reserved_spec(),
                    kx,
                )) by {
                    assert(Self::init_row_ok(
                        s.free_lists@[kx],
                        s.alloc_bits@[kx],
                        s.split_bits@[kx],
                        s.reserved_spec(),
                        s.k_max_spec(),
                        kx,
                    ));
                }
                assert forall|kx: int, px: int|
                    0 <= kx <= s.k_max_spec() && 0 <= px < (s.nb(kx) + 1) / 2 implies (
                #[trigger] s.alloc_bit(kx, px)) == (Self::u_of(s.reserved_spec(), kx) % 2 == 1
                    && px == Self::u_of(s.reserved_spec(), kx) / 2) by {
                    assert(Self::init_row_ok(
                        s.free_lists@[kx],
                        s.alloc_bits@[kx],
                        s.split_bits@[kx],
                        s.reserved_spec(),
                        s.k_max_spec(),
                        kx,
                    ));
                }
                assert forall|kx: int|
                    0 <= kx <= s.k_max_spec() implies (#[trigger] s.free_list(kx)).len() == (
                if Self::u_of(s.reserved_spec(), kx) % 2 == 1 && Self::u_of(s.reserved_spec(), kx)
                    + 1 <= s.nb(kx) {
                    1int
                } else {
                    0int
                }) by {
                    assert(Self::init_row_ok(
                        s.free_lists@[kx],
                        s.alloc_bits@[kx],
                        s.split_bits@[kx],
                        s.reserved_spec(),
                        s.k_max_spec(),
                        kx,
                    ));
                }
                assert forall|kx: int, tx: int|
                    0 <= kx <= s.k_max_spec() && 0 <= tx < s.free_list(kx).len() implies (
                #[trigger] s.free_list(kx)[tx]) as int == Self::u_of(s.reserved_spec(), kx) by {
                    assert(Self::init_row_ok(
                        s.free_lists@[kx],
                        s.alloc_bits@[kx],
                        s.split_bits@[kx],
                        s.reserved_spec(),
                        s.k_max_spec(),
                        kx,
                    ));
                }
            }
            s.lemma_new_wf();
        }
        s
    }

    /// In a fresh region the free-list sum counts the initial blocks.
    proof fn lemma_init_flsum(self, k: int)
        requires
            self.wf_dims(),
            self.is_init_state(),
            k <= self.k_max_spec() + 1,
        ensures
            self.flsum_upto(k) == Self::init_sum_upto(
                self.reserved_spec(),
                self.k_max_spec(),
                k,
            ) * self.leaf_spec(),
        decreases k,
    {
        let r = self.reserved_spec();
        let kmx = self.k_max_spec();
        if k <= 0 {
        } else {
            self.lemma_init_flsum(k - 1);
            let term = Self::init_term(r, kmx, k - 1);
            assert(self.free_list(k - 1).len() * pw(k - 1) * self.leaf_spec() == term
                * self.leaf_spec()) by {
                if Self::u_of(r, k - 1) % 2 == 1 && Self::u_of(r, k - 1) + 1 <= self.nb(k - 1) {
                    assert(self.free_list(k - 1).len() == 1);
                    assert(term == pw(k - 1));
                } else {
                    assert(self.free_list(k - 1).len() == 0);
                    assert(term == 0);
                }
            }
            assert((Self::init_sum_upto(r, kmx, k - 1) + term) * self.leaf_spec()
                == Self::init_sum_upto(r, kmx, k - 1) * self.leaf_spec() + term
                * self.leaf_spec()) by (nonlinear_arith);
        }
    }
}

} // verus!
