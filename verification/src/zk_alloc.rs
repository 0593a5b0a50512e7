//! Placement decisions of a bump-pointer arena.
//!
//! A hot and a cold region are split into slabs, one of each per thread. An allocation moves the
//! thread's cursor; freeing does nothing. A phase begins with every thread back at the start of
//! its hot slab, which it learns from a generation counter at its next allocation. What does not
//! fit goes to the system allocator.

use vstd::prelude::*;

verus! {

pub const HOT_SLAB_SIZE: u64 = 0x4000_0000;

pub const COLD_SLAB_SIZE: u64 = 0x1_C000_0000;

/// Slabs beyond the number of threads the process is built for.
pub const SLACK: u64 = 4;

/// What all threads share.
#[derive(Debug)]
pub struct ZkAllocator {
    /// Threads the process is built for.
    pub num_threads: u64,
    /// Counts the phases.
    pub generation: u64,
    /// Whether allocations go to the arena.
    pub active: bool,
    /// Start of the hot region, zero while it is not mapped.
    pub hot_region_base: u64,
    /// Start of the cold region, zero while it is not mapped.
    pub cold_region_base: u64,
    /// The slab that the next new thread takes.
    pub thread_idx: u64,
}

/// What a thread keeps.
#[derive(Clone, Copy, Debug)]
pub struct ThreadArena {
    /// Where the next allocation lands.
    pub ptr: u64,
    /// End of the slab in use.
    pub end: u64,
    /// Start of the hot slab, zero while the thread has no slab.
    pub base: u64,
    pub hot_end: u64,
    pub cold_base: u64,
    pub cold_end: u64,
    /// The generation seen last.
    pub generation: u64,
    /// Whether the hot slab was left in this phase.
    pub in_cold: bool,
    /// Whether the thread came too late for a slab.
    pub no_slab: bool,
}

/// Where an allocation goes.
#[derive(Clone, Copy, PartialEq, Eq, Structural, Debug)]
pub enum Placement {
    Arena(u64),
    System,
}

/// What a reallocation does.
#[derive(Clone, Copy, PartialEq, Eq, Structural, Debug)]
pub enum Reallocation {
    /// The block stays where it is.
    Keep,
    /// A new block is allocated and this many bytes are copied to it.
    Move { bytes: u64 },
}

/// The smallest multiple of `align` that is not below `p`.
pub open spec fn align_up(p: int, align: int) -> int {
    (p + align - 1) / align * align
}

/// An allocation fits between a cursor and an end.
pub open spec fn fits(p: int, end: int, size: int, align: int) -> bool {
    align_up(p, align) + size <= end
}

impl ZkAllocator {
    pub open spec fn max_threads(self) -> int {
        self.num_threads + SLACK
    }

    pub open spec fn hot_region_size(self) -> int {
        HOT_SLAB_SIZE * self.max_threads()
    }

    pub open spec fn cold_region_size(self) -> int {
        COLD_SLAB_SIZE * self.max_threads()
    }

    /// The regions lie in the address space with room behind them for any single allocation.
    pub open spec fn regions_fit(self) -> bool {
        &&& self.hot_region_base + self.hot_region_size() <= 0x4000_0000_0000_0000
        &&& self.cold_region_base + self.cold_region_size() <= 0x4000_0000_0000_0000
        &&& self.num_threads <= 0x1_0000_0000
    }

    pub open spec fn mapped(self) -> bool {
        self.hot_region_base != 0 && self.cold_region_base != 0
    }

    /// The two regions have no address in common.
    pub open spec fn regions_apart(self) -> bool {
        ||| self.hot_region_base + self.hot_region_size() <= self.cold_region_base
        ||| self.cold_region_base + self.cold_region_size() <= self.hot_region_base
    }

    /// An address lies in one of the mapped regions.
    pub open spec fn owns(self, addr: int) -> bool {
        ||| self.hot_region_base != 0 && self.hot_region_base <= addr < self.hot_region_base
            + self.hot_region_size()
        ||| self.cold_region_base != 0 && self.cold_region_base <= addr < self.cold_region_base
            + self.cold_region_size()
    }
}

/// The thread has slab `idx`.
pub open spec fn has_slab(z: ZkAllocator, t: ThreadArena, idx: int) -> bool {
    &&& 0 <= idx < z.max_threads()
    &&& t.base == z.hot_region_base + idx * HOT_SLAB_SIZE
    &&& t.hot_end == t.base + HOT_SLAB_SIZE
    &&& t.cold_base == z.cold_region_base + idx * COLD_SLAB_SIZE
    &&& t.cold_end == t.cold_base + COLD_SLAB_SIZE
}

/// The cursor lies in the hot slab.
pub open spec fn cursor_hot(t: ThreadArena) -> bool {
    t.end == t.hot_end && t.base <= t.ptr <= t.hot_end
}

/// The cursor lies in the cold slab.
pub open spec fn cursor_cold(t: ThreadArena) -> bool {
    t.in_cold && t.end == t.cold_end && t.cold_base <= t.ptr <= t.cold_end
}

/// A thread's state fits the regions: it has no slab and no room, or it has one of the slabs and
/// its cursor lies in it.
pub open spec fn thread_wf(z: ZkAllocator, t: ThreadArena) -> bool {
    if t.base == 0 {
        t.ptr == 0 && t.end == 0 && t.cold_base == 0 && t.cold_end == 0
    } else {
        &&& z.mapped()
        &&& exists|idx: int| #[trigger] has_slab(z, t, idx)
        &&& cursor_hot(t) || cursor_cold(t)
    }
}

/// A thread that has not allocated.
pub fn new_thread() -> (r: ThreadArena)
    ensures
        r == (ThreadArena {
            ptr: 0,
            end: 0,
            base: 0,
            hot_end: 0,
            cold_base: 0,
            cold_end: 0,
            generation: 0,
            in_cold: false,
            no_slab: false,
        }),
        forall|z: ZkAllocator| #[trigger] thread_wf(z, r),
{
    ThreadArena {
        ptr: 0,
        end: 0,
        base: 0,
        hot_end: 0,
        cold_base: 0,
        cold_end: 0,
        generation: 0,
        in_cold: false,
        no_slab: false,
    }
}

/// Activates the arena and resets every thread's slab.
pub fn begin_phase(z: &mut ZkAllocator)
    ensures
        final(z).generation == if old(z).generation == u64::MAX {
            0
        } else {
            old(z).generation + 1
        },
        final(z).active,
        final(z).num_threads == old(z).num_threads,
        final(z).hot_region_base == old(z).hot_region_base,
        final(z).cold_region_base == old(z).cold_region_base,
        final(z).thread_idx == old(z).thread_idx,
{
    z.generation = z.generation.wrapping_add(1);
    z.active = true;
}

/// Deactivates the arena.
pub fn end_phase(z: &mut ZkAllocator)
    ensures
        *final(z) == (ZkAllocator { active: false, ..*old(z) }),
{
    z.active = false;
}

/// Rounds up to a multiple of `align`.
fn next_multiple(p: u64, align: u64) -> (r: u64)
    requires
        align > 0,
        p + align <= u64::MAX,
    ensures
        r == align_up(p as int, align as int),
        r as int % align as int == 0,
        p <= r < p + align,
{
    let rest: u64 = p % align;
    proof {
        let (pi, a, q) = (p as int, align as int, p as int / align as int);
        vstd::arithmetic::div_mod::lemma_fundamental_div_mod(pi, a);
        assert(a * q == q * a) by (nonlinear_arith);
        if rest == 0 {
            vstd::arithmetic::div_mod::lemma_fundamental_div_mod_converse(
                pi + a - 1,
                a,
                q,
                a - 1,
            );
            vstd::arithmetic::div_mod::lemma_mod_multiples_basic(q, a);
        } else {
            assert((q + 1) * a == q * a + a) by (nonlinear_arith);
            vstd::arithmetic::div_mod::lemma_fundamental_div_mod_converse(
                pi + a - 1,
                a,
                q + 1,
                rest - 1,
            );
            vstd::arithmetic::div_mod::lemma_mod_multiples_basic(q + 1, a);
        }
    }
    if rest == 0 {
        p
    } else {
        p + (align - rest)
    }
}

/// The slabs of a new thread, where one is left.
pub open spec fn with_slab(z: ZkAllocator, t: ThreadArena) -> ThreadArena {
    if t.base != 0 {
        t
    } else {
        let base = z.hot_region_base + z.thread_idx * HOT_SLAB_SIZE;
        let cold_base = z.cold_region_base + z.thread_idx * COLD_SLAB_SIZE;
        ThreadArena {
            base: base as u64,
            hot_end: (base + HOT_SLAB_SIZE) as u64,
            cold_base: cold_base as u64,
            cold_end: (cold_base + COLD_SLAB_SIZE) as u64,
            ..t
        }
    }
}

/// A thread at the start of its hot slab in the current phase.
pub open spec fn at_start(z: ZkAllocator, t: ThreadArena) -> ThreadArena {
    ThreadArena {
        ptr: t.base,
        end: t.hot_end,
        in_cold: false,
        generation: z.generation,
        ..t
    }
}

/// A thread that has placed an allocation at its cursor.
pub open spec fn advanced(t: ThreadArena, size: int, align: int) -> ThreadArena {
    ThreadArena { ptr: (align_up(t.ptr as int, align) + size) as u64, ..t }
}

/// A thread at the start of its cold slab.
pub open spec fn at_cold_start(t: ThreadArena) -> ThreadArena {
    ThreadArena { ptr: t.cold_base, end: t.cold_end, in_cold: true, ..t }
}

/// Where an allocation goes in the slab in use, or else, once per phase, in the cold slab.
pub open spec fn placed(t: ThreadArena, size: int, align: int) -> (ThreadArena, Placement) {
    let cold = at_cold_start(t);
    if fits(t.ptr as int, t.end as int, size, align) {
        (
            advanced(t, size, align),
            Placement::Arena(align_up(t.ptr as int, align) as u64),
        )
    } else if t.no_slab || t.in_cold {
        (t, Placement::System)
    } else if t.cold_base != 0 && fits(cold.ptr as int, cold.end as int, size, align) {
        (
            advanced(cold, size, align),
            Placement::Arena(align_up(cold.ptr as int, align) as u64),
        )
    } else {
        (ThreadArena { in_cold: true, ..t }, Placement::System)
    }
}

/// The thread of an allocation takes a slab.
pub open spec fn takes_slab(z: ZkAllocator, t: ThreadArena) -> bool {
    z.active && t.generation != z.generation && !t.no_slab && t.base == 0
}

/// Where an allocation goes, and the thread's state after it.
pub open spec fn allocation(z: ZkAllocator, t: ThreadArena, size: int, align: int) -> (
    ThreadArena,
    Placement,
) {
    if !z.active {
        (t, Placement::System)
    } else if t.generation == z.generation {
        placed(t, size, align)
    } else if t.no_slab {
        (t, Placement::System)
    } else if t.base == 0 && z.thread_idx >= z.max_threads() {
        (ThreadArena { no_slab: true, ..t }, Placement::System)
    } else {
        placed(at_start(z, with_slab(z, t)), size, align)
    }
}

proof fn lemma_slab_bounds(n: int, idx: int, slab: int)
    requires
        0 <= idx < n,
        slab > 0,
    ensures
        0 <= idx * slab,
        idx * slab + slab <= slab * n,
{
    assert(0 <= idx * slab && idx * slab + slab <= slab * n) by (nonlinear_arith)
        requires
            0 <= idx < n,
            slab > 0,
    ;
}

/// Bounds of a well-formed thread's addresses.
proof fn lemma_thread_bounds(z: ZkAllocator, t: ThreadArena)
    requires
        thread_wf(z, t),
        z.regions_fit(),
    ensures
        t.ptr <= 0x4000_0000_0000_0000,
        t.end <= 0x4000_0000_0000_0000,
        t.cold_base <= 0x4000_0000_0000_0000,
        t.cold_end <= 0x4000_0000_0000_0000,
{
    if t.base != 0 {
        let idx = choose|idx: int| #[trigger] has_slab(z, t, idx);
        lemma_slab_bounds(z.max_threads(), idx, HOT_SLAB_SIZE as int);
        lemma_slab_bounds(z.max_threads(), idx, COLD_SLAB_SIZE as int);
    }
}

impl ZkAllocator {
    /// The thread's next allocation takes a slab, so it uses up a number.
    pub fn needs_slab(&self, t: &ThreadArena) -> (r: bool)
        ensures
            r == takes_slab(*self, *t),
            r <==> self.active && t.generation != self.generation && !t.no_slab && t.base == 0,
    {
        self.active && t.generation != self.generation && !t.no_slab && t.base == 0
    }

    /// The regions have to be mapped before the thread's next allocation.
    pub fn needs_region(&self, t: &ThreadArena) -> (r: bool)
        ensures
            r == (takes_slab(*self, *t) && !self.mapped()),
            r <==> self.active && t.generation != self.generation && !t.no_slab && t.base == 0 && (
            self.hot_region_base == 0 || self.cold_region_base == 0),
    {
        self.needs_slab(t) && !(self.hot_region_base != 0 && self.cold_region_base != 0)
    }

    /// Places an allocation of `size` bytes in the slab in use, or else in the cold slab.
    fn place(t: &mut ThreadArena, size: u64, align: u64, Ghost(z): Ghost<ZkAllocator>) -> (r:
        Placement)
        requires
            align > 0,
            size <= 0x4000_0000_0000_0000,
            align <= 0x4000_0000_0000_0000,
            z.regions_fit(),
            thread_wf(z, *old(t)),
        ensures
            (*final(t), r) == placed(*old(t), size as int, align as int),
    {
        proof {
            lemma_thread_bounds(z, *t);
        }
        let aligned: u64 = next_multiple(t.ptr, align);
        let new_ptr: u64 = aligned + size;
        if new_ptr <= t.end {
            t.ptr = new_ptr;
            return Placement::Arena(aligned);
        }
        if !t.no_slab && !t.in_cold {
            t.in_cold = true;
            if t.cold_base != 0 {
                let cold_aligned: u64 = next_multiple(t.cold_base, align);
                let cold_ptr: u64 = cold_aligned + size;
                if cold_ptr <= t.cold_end {
                    t.ptr = cold_ptr;
                    t.end = t.cold_end;
                    return Placement::Arena(cold_aligned);
                }
            }
        }
        Placement::System
    }

    /// Decides where an allocation of a thread goes.
    pub fn allocate(&mut self, t: &mut ThreadArena, size: u64, align: u64) -> (r: Placement)
        requires
            align > 0,
            size <= 0x4000_0000_0000_0000,
            align <= 0x4000_0000_0000_0000,
            old(self).regions_fit(),
            thread_wf(*old(self), *old(t)),
            takes_slab(*old(self), *old(t)) ==> old(self).mapped(),
            old(self).thread_idx < u64::MAX,
        ensures
            (*final(t), r) == allocation(*old(self), *old(t), size as int, align as int),
            *final(self) == (ZkAllocator {
                thread_idx: if takes_slab(*old(self), *old(t)) {
                    (old(self).thread_idx + 1) as u64
                } else {
                    old(self).thread_idx
                },
                ..*old(self)
            }),
            thread_wf(*final(self), *final(t)),
    {
        let ghost z = *self;
        let ghost t0 = *t;
        if !self.active {
            return Placement::System;
        }
        if t.generation != self.generation {
            if t.no_slab {
                return Placement::System;
            }
            if t.base == 0 {
                let idx: u64 = self.thread_idx;
                self.thread_idx = idx + 1;
                if idx >= self.num_threads + SLACK {
                    t.no_slab = true;
                    return Placement::System;
                }
                proof {
                    lemma_slab_bounds(z.max_threads(), idx as int, HOT_SLAB_SIZE as int);
                    lemma_slab_bounds(z.max_threads(), idx as int, COLD_SLAB_SIZE as int);
                }
                t.base = self.hot_region_base + idx * HOT_SLAB_SIZE;
                t.hot_end = t.base + HOT_SLAB_SIZE;
                t.cold_base = self.cold_region_base + idx * COLD_SLAB_SIZE;
                t.cold_end = t.cold_base + COLD_SLAB_SIZE;
            }
            t.ptr = t.base;
            t.end = t.hot_end;
            t.in_cold = false;
            t.generation = self.generation;
            proof {
                assert(*t == at_start(z, with_slab(z, t0)));
                if t0.base != 0 {
                    let idx = choose|idx: int| #[trigger] has_slab(z, t0, idx);
                    assert(has_slab(z, *t, idx));
                } else {
                    assert(has_slab(z, *t, z.thread_idx as int));
                }
                assert(thread_wf(z, *t));
            }
        }
        let ghost before = *t;
        let r = Self::place(t, size, align, Ghost(z));
        proof {
            lemma_placed_wf(z, before, size as int, align as int);
            lemma_same_regions(z, *self, *t);
        }
        r
    }

    /// Whether freeing an address is left to the arena, which does nothing.
    pub fn is_arena_address(&self, addr: u64) -> (r: bool)
        requires
            self.regions_fit(),
        ensures
            r == self.owns(addr as int),
    {
        let n: u64 = self.num_threads + SLACK;
        let hot: u64 = self.hot_region_base;
        let cold: u64 = self.cold_region_base;
        (hot != 0 && addr >= hot && addr < hot + HOT_SLAB_SIZE * n) || (cold != 0 && addr >= cold
            && addr < cold + COLD_SLAB_SIZE * n)
    }
}

/// Decides what a reallocation does: a block only moves to grow.
pub fn reallocation(old_size: u64, new_size: u64) -> (r: Reallocation)
    ensures
        r == if new_size <= old_size {
            Reallocation::Keep
        } else {
            Reallocation::Move { bytes: old_size }
        },
{
    if new_size <= old_size {
        Reallocation::Keep
    } else {
        Reallocation::Move { bytes: old_size }
    }
}

/// The multiple of `align` among the `align` numbers from `p` on is the aligned start.
proof fn lemma_aligned_start(p: int, align: int, start: int)
    requires
        align > 0,
        p >= 0,
        p <= start < p + align,
        start % align == 0,
    ensures
        start == align_up(p, align),
{
    lemma_align_up(p, align);
    let a = align_up(p, align);
    vstd::arithmetic::div_mod::lemma_fundamental_div_mod(start, align);
    vstd::arithmetic::div_mod::lemma_fundamental_div_mod(a, align);
    let (q, r) = (start / align, a / align);
    assert(q == r) by (nonlinear_arith)
        requires
            align > 0,
            -align < align * q - align * r < align,
    ;
}

/// A thread of the current phase gets room wherever its slab has some: `start` is the first aligned
/// address from the cursor on, `cold_start` the first in the cold slab. The cursor moves to the end
/// of the block and nothing else of the thread changes. Where the slab in use has no room left the
/// thread turns to its cold slab, once, and what does not fit there goes to the system. So does
/// everything outside of a phase.
pub proof fn law_allocation_takes_room(
    z: ZkAllocator,
    t: ThreadArena,
    size: int,
    align: int,
    start: int,
    cold_start: int,
)
    requires
        align > 0,
        size >= 0,
        z.regions_fit(),
        thread_wf(z, t),
        t.ptr <= start < t.ptr + align,
        start % align == 0,
        t.cold_base <= cold_start < t.cold_base + align,
        cold_start % align == 0,
    ensures
        ({
            let (t2, r) = allocation(z, t, size, align);
            &&& !z.active ==> r == Placement::System && t2 == t
            &&& z.active && t.generation == z.generation ==> {
                &&& start + size <= t.end ==> r == Placement::Arena(start as u64) && t2 == (
                ThreadArena { ptr: (start + size) as u64, ..t })
                &&& start + size > t.end && (t.no_slab || t.in_cold) ==> r == Placement::System
                    && t2 == t
                &&& start + size > t.end && !t.no_slab && !t.in_cold && t.cold_base != 0
                    && cold_start + size <= t.cold_end ==> r == Placement::Arena(cold_start as u64)
                    && t2 == (ThreadArena {
                    ptr: (cold_start + size) as u64,
                    end: t.cold_end,
                    in_cold: true,
                    ..t
                })
                &&& start + size > t.end && !t.no_slab && !t.in_cold && (t.cold_base == 0
                    || cold_start + size > t.cold_end) ==> r == Placement::System && t2 == (
                ThreadArena { in_cold: true, ..t })
            }
        }),
{
    lemma_aligned_start(t.ptr as int, align, start);
    lemma_aligned_start(t.cold_base as int, align, cold_start);
}

/// A thread's first allocation in a phase starts over at the front of its hot slab. A thread without
/// slabs takes the next pair, a gigabyte of the hot region and seven of the cold one, and where
/// there are no more it stays with the system.
pub proof fn law_first_allocation_of_phase(
    z: ZkAllocator,
    t: ThreadArena,
    size: int,
    align: int,
    base: int,
    cold_base: int,
    start: int,
)
    requires
        align > 0,
        size >= 0,
        z.regions_fit(),
        thread_wf(z, t),
        z.active,
        t.generation != z.generation,
        t.base == 0 ==> base == z.hot_region_base + z.thread_idx * 0x4000_0000,
        t.base == 0 ==> cold_base == z.cold_region_base + z.thread_idx * 0x1_C000_0000,
        t.base != 0 ==> base == t.base && cold_base == t.cold_base,
        base <= start < base + align,
        start % align == 0,
        size <= 0x4000_0000,
        start + size <= base + 0x4000_0000,
    ensures
        ({
            let (t2, r) = allocation(z, t, size, align);
            &&& t.no_slab ==> r == Placement::System && t2 == t
            &&& !t.no_slab && t.base == 0 && z.thread_idx >= z.num_threads + 4 ==> r
                == Placement::System && t2 == (ThreadArena { no_slab: true, ..t })
            &&& !t.no_slab && (t.base != 0 || z.thread_idx < z.num_threads + 4) ==> {
                &&& r == Placement::Arena(start as u64)
                &&& t2.base == base
                &&& t2.hot_end == base + 0x4000_0000
                &&& t2.cold_base == cold_base
                &&& t2.cold_end == cold_base + 0x1_C000_0000
                &&& t2.ptr == start + size
                &&& t2.end == t2.hot_end
                &&& t2.generation == z.generation
                &&& !t2.in_cold
                &&& !t2.no_slab
            }
        }),
{
    lemma_aligned_start(base, align, start);
    if !t.no_slab && t.base == 0 && z.thread_idx < z.max_threads() {
        let idx = z.thread_idx as int;
        lemma_slab_bounds(z.max_threads(), idx, HOT_SLAB_SIZE as int);
        lemma_slab_bounds(z.max_threads(), idx, COLD_SLAB_SIZE as int);
    }
    if t.base != 0 {
        let idx = choose|idx: int| #[trigger] has_slab(z, t, idx);
        assert(has_slab(z, t, idx));
    }
}

/// The arena's addresses are those of the slabs, of which there are four more than threads: hot
/// ones of a gigabyte each and cold ones of seven.
pub proof fn law_arena_is_its_slabs(z: ZkAllocator, addr: int)
    ensures
        z.owns(addr) <==> {
            ||| z.hot_region_base != 0 && addr >= z.hot_region_base && (addr - z.hot_region_base)
                / 0x4000_0000 < z.num_threads + 4
            ||| z.cold_region_base != 0 && addr >= z.cold_region_base && (addr
                - z.cold_region_base) / 0x1_C000_0000 < z.num_threads + 4
        },
{
}

proof fn lemma_same_regions(z: ZkAllocator, z2: ZkAllocator, t: ThreadArena)
    requires
        thread_wf(z, t),
        z2.num_threads == z.num_threads,
        z2.hot_region_base == z.hot_region_base,
        z2.cold_region_base == z.cold_region_base,
    ensures
        thread_wf(z2, t),
{
    if t.base != 0 {
        let idx = choose|idx: int| #[trigger] has_slab(z, t, idx);
        assert(has_slab(z2, t, idx));
    }
}

proof fn lemma_align_up(p: int, align: int)
    requires
        align > 0,
        p >= 0,
    ensures
        p <= align_up(p, align) < p + align,
        align_up(p, align) % align == 0,
{
    let q = (p + align - 1) / align;
    vstd::arithmetic::div_mod::lemma_fundamental_div_mod(p + align - 1, align);
    assert(align * q == q * align) by (nonlinear_arith);
    vstd::arithmetic::div_mod::lemma_mod_multiples_basic(q, align);
}

proof fn lemma_placed_wf(z: ZkAllocator, t: ThreadArena, size: int, align: int)
    requires
        align > 0,
        size >= 0,
        z.regions_fit(),
        thread_wf(z, t),
    ensures
        thread_wf(z, placed(t, size, align).0),
{
    lemma_thread_bounds(z, t);
    lemma_align_up(t.ptr as int, align);
    lemma_align_up(t.cold_base as int, align);
    let t2 = placed(t, size, align).0;
    if t.base != 0 {
        let idx = choose|idx: int| #[trigger] has_slab(z, t, idx);
        assert(has_slab(z, t2, idx));
    }
}

/// The addresses of a thread's slabs that this phase has used.
pub open spec fn used(t: ThreadArena, addr: int) -> bool {
    if cursor_cold(t) && t.end != t.hot_end {
        t.base <= addr < t.hot_end || t.cold_base <= addr < t.ptr
    } else {
        t.base <= addr < t.ptr
    }
}

/// The addresses of an allocation.
pub open spec fn covers(r: Placement, size: int, addr: int) -> bool {
    r matches Placement::Arena(start) && start <= addr < start + size
}

/// What the arena hands out is aligned, lies in the regions, and was not used in this phase
/// before: so no two allocations of a thread in one phase overlap. What was used stays used.
pub proof fn law_allocations_do_not_overlap(
    z: ZkAllocator,
    t: ThreadArena,
    size: int,
    align: int,
    addr: int,
)
    requires
        align > 0,
        size >= 0,
        z.regions_fit(),
        z.regions_apart(),
        thread_wf(z, t),
        takes_slab(z, t) ==> z.mapped(),
    ensures
        ({
            let (t2, r) = allocation(z, t, size, align);
            &&& r matches Placement::Arena(start) ==> start as int % align == 0
            &&& covers(r, size, addr) ==> z.owns(addr) && used(t2, addr)
            &&& t.generation == z.generation && covers(r, size, addr) ==> !used(t, addr)
            &&& t.generation == z.generation && used(t, addr) ==> used(t2, addr)
        }),
{
    let (t2, r) = allocation(z, t, size, align);
    if z.active {
        if t.generation == z.generation {
            lemma_placed_fresh(z, t, size, align, addr);
        } else if !t.no_slab && !(t.base == 0 && z.thread_idx >= z.max_threads()) {
            let s = at_start(z, with_slab(z, t));
            if t.base == 0 {
                let idx = z.thread_idx as int;
                lemma_slab_bounds(z.max_threads(), idx, HOT_SLAB_SIZE as int);
                lemma_slab_bounds(z.max_threads(), idx, COLD_SLAB_SIZE as int);
                assert(has_slab(z, s, idx));
            } else {
                let idx = choose|idx: int| #[trigger] has_slab(z, t, idx);
                assert(has_slab(z, s, idx));
            }
            assert(thread_wf(z, s));
            lemma_placed_fresh(z, s, size, align, addr);
        }
    }
}

proof fn lemma_placed_fresh(z: ZkAllocator, t: ThreadArena, size: int, align: int, addr: int)
    requires
        align > 0,
        size >= 0,
        z.regions_fit(),
        z.regions_apart(),
        thread_wf(z, t),
    ensures
        ({
            let (t2, r) = placed(t, size, align);
            &&& r matches Placement::Arena(start) ==> start as int % align == 0
            &&& covers(r, size, addr) ==> z.owns(addr) && used(t2, addr) && !used(t, addr)
            &&& used(t, addr) ==> used(t2, addr)
        }),
{
    lemma_thread_bounds(z, t);
    lemma_align_up(t.ptr as int, align);
    lemma_align_up(t.cold_base as int, align);
    if t.base != 0 {
        let idx = choose|idx: int| #[trigger] has_slab(z, t, idx);
        lemma_slab_bounds(z.max_threads(), idx, HOT_SLAB_SIZE as int);
        lemma_slab_bounds(z.max_threads(), idx, COLD_SLAB_SIZE as int);
    }
}

/// Slabs of different threads have no address in common.
pub proof fn law_slabs_disjoint(
    z: ZkAllocator,
    t: ThreadArena,
    u: ThreadArena,
    i: int,
    j: int,
    addr: int,
)
    requires
        has_slab(z, t, i),
        has_slab(z, u, j),
        i != j,
    ensures
        !(t.base <= addr < t.hot_end && u.base <= addr < u.hot_end),
        !(t.cold_base <= addr < t.cold_end && u.cold_base <= addr < u.cold_end),
{
    let (h, c) = (HOT_SLAB_SIZE as int, COLD_SLAB_SIZE as int);
    if i < j {
        assert(i * h + h <= j * h && i * c + c <= j * c) by (nonlinear_arith)
            requires
                i + 1 <= j,
                h > 0,
                c > 0,
        ;
    } else {
        assert(j * h + h <= i * h && j * c + c <= i * c) by (nonlinear_arith)
            requires
                j + 1 <= i,
                h > 0,
                c > 0,
        ;
    }
}

/// After a phase has begun, a thread with a slab allocates from the start of its hot slab.
pub proof fn law_phase_resets(z: ZkAllocator, t: ThreadArena, size: int, align: int)
    requires
        z.active,
        t.generation != z.generation,
        !t.no_slab,
        t.base != 0,
        fits(t.base as int, t.hot_end as int, size, align),
    ensures
        allocation(z, t, size, align).1 == Placement::Arena(
            align_up(t.base as int, align) as u64,
        ),
{
}

} // verus!
