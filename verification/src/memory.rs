//! Memory of the virtual machine, as the tables see it.

use crate::field::{KoalaBear, Ring};
use vstd::prelude::*;

verus! {

/// Why a run of the virtual machine stops.
#[derive(Clone, Copy, PartialEq, Eq, Structural, Debug)]
pub enum RunnerError {
    /// The address was read before anything was written to it.
    UndefinedMemory(usize),
}

/// Word-addressed memory.
pub trait MemoryAccess: Sized {
    /// What the memory holds, by address.
    spec fn contents(&self) -> Map<int, KoalaBear>;

    /// Whether a memory with these contents lets `val` be written at `addr`.
    spec fn accepts(contents: Map<int, KoalaBear>, addr: int, val: KoalaBear) -> bool;

    /// The contents after `val` was written at `addr`.
    spec fn stored(contents: Map<int, KoalaBear>, addr: int, val: KoalaBear) -> Map<int, KoalaBear>;

    fn get(&self, addr: usize) -> (r: Result<KoalaBear, RunnerError>)
        ensures
            r == if self.contents().dom().contains(addr as int) {
                Ok::<KoalaBear, RunnerError>(self.contents()[addr as int])
            } else {
                Err(RunnerError::UndefinedMemory(addr))
            },
    ;

    /// Writes one cell. What the memory already held elsewhere stays; a refused write changes
    /// nothing.
    fn set(&mut self, addr: usize, val: KoalaBear) -> (r: Result<(), RunnerError>)
        requires
            addr < usize::MAX,
        ensures
            r is Ok <==> Self::accepts(old(self).contents(), addr as int, val),
            r is Ok ==> {
                let after = final(self).contents();
                let before = old(self).contents();
                &&& after == Self::stored(before, addr as int, val)
                &&& after.dom().contains(addr as int)
                &&& after[addr as int] == val
                &&& forall|a: int|
                    a != addr && #[trigger] before.dom().contains(a) ==> after.dom().contains(a)
                        && after[a] == before[a]
            },
            r is Err ==> *final(self) == *old(self),
    ;
}

/// What a memory holds at an address, if anything.
pub trait MemoryLookup: MemoryAccess {
    spec fn lookup(&self, addr: int) -> Option<KoalaBear>;
}

impl<M: MemoryAccess> MemoryLookup for M {
    open spec fn lookup(&self, addr: int) -> Option<KoalaBear> {
        if self.contents().dom().contains(addr) {
            Some(self.contents()[addr])
        } else {
            None
        }
    }
}

/// The result of reading `len` cells from `addr` on: their values if all hold one, else the
/// address of the first that does not.
pub open spec fn slice_read<M: MemoryAccess>(
    m: M,
    addr: int,
    len: int,
    r: Result<Vec<KoalaBear>, RunnerError>,
) -> bool {
    match r {
        Ok(v) => {
            &&& v@.len() == len
            &&& forall|j: int| 0 <= j < len ==> #[trigger] m.lookup(addr + j) == Some(v@[j])
        },
        Err(RunnerError::UndefinedMemory(e)) => {
            &&& addr <= e < addr + len
            &&& m.lookup(e as int) is None
            &&& forall|j: int| 0 <= j < e - addr ==> #[trigger] m.lookup(addr + j) is Some
        },
    }
}

/// Reads `len` consecutive cells, or reports the first one that holds nothing.
pub fn get_slice<M: MemoryAccess>(memory: &M, addr: usize, len: usize) -> (r: Result<Vec<KoalaBear>, RunnerError>)
    requires
        addr + len <= usize::MAX,
    ensures
        slice_read(*memory, addr as int, len as int, r),
        r matches Ok(v) ==> v@.len() == len,
        r matches Ok(v) ==> forall|j: int|
            0 <= j < len ==> #[trigger] memory.lookup(addr + j) == Some(v@[j]),
        r matches Err(RunnerError::UndefinedMemory(e)) ==> addr <= e < addr + len && memory.lookup(
            e as int,
        ) is None,
        r matches Err(RunnerError::UndefinedMemory(e)) ==> forall|j: int|
            0 <= j < e - addr ==> #[trigger] memory.lookup(addr + j) is Some,
{
    let mut out: Vec<KoalaBear> = Vec::new();
    let mut i: usize = 0;
    while i < len
        invariant
            i <= len,
            addr + len <= usize::MAX,
            out@.len() == i,
            forall|j: int| 0 <= j < i ==> #[trigger] memory.lookup(addr + j) == Some(out@[j]),
        decreases len - i,
    {
        match memory.get(addr + i) {
            Ok(v) => {
                out.push(v);
            },
            Err(e) => {
                assert(memory.lookup(addr + i) is None);
                return Err(e);
            },
        }
        i += 1;
    }
    Ok(out)
}

/// The contents after the first `k` of `vals` were written from `addr` on, one after the other.
pub open spec fn stored_first<M: MemoryAccess>(
    contents: Map<int, KoalaBear>,
    addr: int,
    vals: Seq<KoalaBear>,
    k: int,
) -> Map<int, KoalaBear>
    decreases k,
{
    if k <= 0 {
        contents
    } else {
        M::stored(stored_first::<M>(contents, addr, vals, k - 1), addr + k - 1, vals[k - 1])
    }
}

/// The first `k` of `vals` can be written from `addr` on, one after the other.
pub open spec fn accepts_first<M: MemoryAccess>(
    contents: Map<int, KoalaBear>,
    addr: int,
    vals: Seq<KoalaBear>,
    k: int,
) -> bool {
    forall|j: int|
        0 <= j < k ==> M::accepts(
            #[trigger] stored_first::<M>(contents, addr, vals, j),
            addr + j,
            vals[j],
        )
}

/// All of `vals` can be written from `addr` on, one after the other.
pub open spec fn accepts_all<M: MemoryAccess>(
    contents: Map<int, KoalaBear>,
    addr: int,
    vals: Seq<KoalaBear>,
) -> bool {
    accepts_first::<M>(contents, addr, vals, vals.len() as int)
}

/// The contents after all of `vals` were written from `addr` on.
pub open spec fn stored_all<M: MemoryAccess>(
    contents: Map<int, KoalaBear>,
    addr: int,
    vals: Seq<KoalaBear>,
) -> Map<int, KoalaBear> {
    stored_first::<M>(contents, addr, vals, vals.len() as int)
}

/// The values ahead of the first one that is refused were written, and no more.
pub open spec fn stopped_at_refusal<M: MemoryAccess>(
    before: Map<int, KoalaBear>,
    after: Map<int, KoalaBear>,
    addr: int,
    vals: Seq<KoalaBear>,
) -> bool {
    exists|k: int|
        {
            &&& 0 <= k < vals.len()
            &&& accepts_first::<M>(before, addr, vals, k)
            &&& after == #[trigger] stored_first::<M>(before, addr, vals, k)
            &&& !M::accepts(after, addr + k, vals[k])
        }
}

/// Writes consecutive cells in order, up to the first one that is refused.
pub fn set_slice<M: MemoryAccess>(memory: &mut M, addr: usize, vals: &[KoalaBear]) -> (r: Result<(), RunnerError>)
    requires
        addr + vals@.len() <= usize::MAX,
    ensures
        r is Ok <==> accepts_all::<M>(old(memory).contents(), addr as int, vals@),
        r is Ok ==> final(memory).contents() == stored_all::<M>(
            old(memory).contents(),
            addr as int,
            vals@,
        ),
        r is Err ==> stopped_at_refusal::<M>(
            old(memory).contents(),
            final(memory).contents(),
            addr as int,
            vals@,
        ),
        r is Ok ==> forall|j: int|
            0 <= j < vals@.len() ==> #[trigger] final(memory).lookup(addr + j) == Some(vals@[j]),
        forall|a: int|
            !(addr <= a < addr + vals@.len()) && old(memory).lookup(a) is Some
                ==> #[trigger] final(memory).lookup(a) == old(memory).lookup(a),
{
    let ghost start = memory.contents();
    let mut i: usize = 0;
    while i < vals.len()
        invariant
            i <= vals@.len(),
            addr + vals@.len() <= usize::MAX,
            start == old(memory).contents(),
            memory.contents() == stored_first::<M>(start, addr as int, vals@, i as int),
            accepts_first::<M>(start, addr as int, vals@, i as int),
            forall|j: int|
                0 <= j < i ==> #[trigger] memory.lookup(addr + j) == Some(vals@[j]),
            forall|a: int|
                !(addr <= a < addr + vals@.len()) && old(memory).lookup(a) is Some
                    ==> #[trigger] memory.lookup(a) == old(memory).lookup(a),
        decreases vals@.len() - i,
    {
        let ghost before = *memory;
        match memory.set(addr + i, vals[i]) {
            Ok(()) => {},
            Err(e) => {
                proof {
                    let reached = stored_first::<M>(start, addr as int, vals@, i as int);
                    assert(!M::accepts(reached, addr + i, vals@[i as int]));
                }
                return Err(e);
            },
        }
        proof {
            assert forall|j: int| 0 <= j < i + 1 implies #[trigger] memory.lookup(addr + j) == Some(
                vals@[j],
            ) by {
                if j < i {
                    assert(before.lookup(addr + j) == Some(vals@[j]));
                    assert(before.contents().dom().contains(addr + j));
                }
            }
            assert forall|a: int|
                !(addr <= a < addr + vals@.len()) && old(memory).lookup(a) is Some implies
                #[trigger] memory.lookup(a) == old(memory).lookup(a) by {
                assert(before.lookup(a) == old(memory).lookup(a));
                assert(before.contents().dom().contains(a));
            }
        }
        i += 1;
    }
    Ok(())
}

/// Memory whose cells are all defined up to some address; writing past the end fills the gap
/// with zeros.
pub struct VecMemory {
    pub cells: Vec<KoalaBear>,
}

impl MemoryAccess for VecMemory {
    open spec fn contents(&self) -> Map<int, KoalaBear> {
        Map::new(|a: int| 0 <= a < self.cells@.len(), |a: int| self.cells@[a])
    }

    open spec fn accepts(contents: Map<int, KoalaBear>, addr: int, val: KoalaBear) -> bool {
        true
    }

    /// Cells below the address that held nothing hold zero.
    open spec fn stored(contents: Map<int, KoalaBear>, addr: int, val: KoalaBear) -> Map<
        int,
        KoalaBear,
    > {
        Map::new(
            |a: int| contents.dom().contains(a) || 0 <= a <= addr,
            |a: int|
                if a == addr {
                    val
                } else if contents.dom().contains(a) {
                    contents[a]
                } else {
                    KoalaBear::ring_zero()
                },
        )
    }

    fn get(&self, addr: usize) -> (r: Result<KoalaBear, RunnerError>) {
        if addr < self.cells.len() {
            Ok(self.cells[addr])
        } else {
            Err(RunnerError::UndefinedMemory(addr))
        }
    }

    fn set(&mut self, addr: usize, val: KoalaBear) -> (r: Result<(), RunnerError>)
        ensures
            final(self).cells@.len() == if addr < old(self).cells@.len() {
                old(self).cells@.len() as int
            } else {
                addr + 1
            },
            forall|a: int|
                old(self).cells@.len() <= a < addr ==> final(self).cells@[a]
                    == KoalaBear::ring_zero(),
    {
        while self.cells.len() <= addr
            invariant
                addr < usize::MAX,
                old(self).cells@.len() <= self.cells@.len(),
                self.cells@.len() <= addr + 1 || self.cells@.len() == old(self).cells@.len(),
                forall|a: int|
                    0 <= a < old(self).cells@.len() ==> self.cells@[a] == old(self).cells@[a],
                forall|a: int|
                    old(self).cells@.len() <= a < self.cells@.len() ==> self.cells@[a]
                        == KoalaBear::ring_zero(),
            decreases addr + 1 - self.cells@.len(),
        {
            self.cells.push(KoalaBear::zero());
        }
        self.cells[addr] = val;
        proof {
            let before = old(self).contents();
            assert(self.contents() =~= Self::stored(before, addr as int, val));
            assert forall|a: int| a != addr && #[trigger] before.dom().contains(a) implies self.contents().dom().contains(
            a) && self.contents()[a] == before[a] by {}
        }
        Ok(())
    }
}

} // verus!
