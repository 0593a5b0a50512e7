//! Hooks of a preloaded allocator, looked up once by name.

use vstd::prelude::*;

verus! {

/// Stands for a hook that was looked up and is not there.
pub const RESOLVED_NULL: usize = 1;

/// The address of a hook: zero before it was looked up.
#[derive(Clone, Copy, Debug)]
pub struct HookCache {
    pub addr: usize,
}

impl HookCache {
    pub fn new() -> (r: Self)
        ensures
            r.addr == 0,
    {
        HookCache { addr: 0 }
    }

    /// Whether the hook has to be looked up before it is called.
    pub fn needs_lookup(&self) -> (r: bool)
        ensures
            r == (self.addr == 0),
    {
        self.addr == 0
    }

    /// Keeps the address that a lookup gave, where zero means that there is no hook.
    pub fn resolve(&mut self, handle: usize)
        ensures
            final(self).addr == if handle == 0 {
                RESOLVED_NULL
            } else {
                handle
            },
    {
        self.addr = if handle == 0 {
            RESOLVED_NULL
        } else {
            handle
        };
    }

    /// The address to call, where there is a hook.
    pub fn target(&self) -> (r: Option<usize>)
        requires
            self.addr != 0,
        ensures
            r == if self.addr == RESOLVED_NULL {
                None::<usize>
            } else {
                Some(self.addr)
            },
    {
        if self.addr == RESOLVED_NULL {
            None
        } else {
            Some(self.addr)
        }
    }
}

} // verus!
