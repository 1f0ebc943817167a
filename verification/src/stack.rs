//! System stack information for conservative stack scanning: where the stack
//! starts and which way it grows, and the extent of the stack to scan.
use vstd::prelude::*;

verus! {

/// Stack growth orientation
#[derive(Copy, Clone, Debug, PartialEq, Eq, Structural)]
pub enum Grows {
    Up,
    Down,
}

/// System stack information for an OS thread. The stack base is a high
/// address for downward growing stacks, or a low address for upward growing
/// stacks.
pub struct SystemStackInfo {
    base: usize,
    orientation: Grows,
}

/// The address the stack grows from: the end of its memory for a stack that
/// grows down, its start otherwise.
pub open spec fn stack_start(stack_base: int, stack_size: int, orientation: Grows) -> int {
    if orientation == Grows::Down {
        stack_base + stack_size
    } else {
        stack_base
    }
}

/// The lowest address and the number of words of the stack region between
/// the stack's base and a current stack address.
pub open spec fn scan_extent_spec(base: int, stack_ptr: int, orientation: Grows, word_size: int) -> (
    int,
    int,
) {
    if orientation == Grows::Down {
        (stack_ptr, (base - stack_ptr) / word_size)
    } else {
        (base, (stack_ptr - base) / word_size)
    }
}

impl SystemStackInfo {
    /// The address the stack grows from.
    pub closed spec fn start_addr(&self) -> usize {
        self.base
    }

    /// Which way the stack grows.
    pub closed spec fn growth(&self) -> Grows {
        self.orientation
    }

    /// The address the stack grows from.
    pub fn base(&self) -> (b: usize)
        ensures
            b == self.start_addr(),
    {
        self.base
    }

    /// Which way the stack grows.
    pub fn orientation(&self) -> (g: Grows)
        ensures
            g == self.growth(),
    {
        self.orientation
    }

    /// Stack information from the thread's stack memory and growth direction.
    pub fn with_bounds(stack_base: usize, stack_size: usize, orientation: Grows) -> (s:
        SystemStackInfo)
        requires
            orientation == Grows::Down ==> stack_base + stack_size <= usize::MAX,
        ensures
            s.start_addr() == stack_start(stack_base as int, stack_size as int, orientation),
            s.growth() == orientation,
    {
        let stack_start = if orientation == Grows::Down {
            stack_base + stack_size
        } else {
            stack_base
        };
        SystemStackInfo { base: stack_start, orientation: orientation }
    }

    /// Whether the stack grows up or down, judged by comparing the address
    /// of a local in a callee's frame with that of one in its caller's frame.
    pub fn stack_orientation(callee_local: usize, caller_local: usize) -> (g: Grows)
        ensures
            g == if callee_local < caller_local {
                Grows::Down
            } else {
                Grows::Up
            },
    {
        if callee_local < caller_local {
            Grows::Down
        } else {
            Grows::Up
        }
    }

    /// The region to scan, as its lowest address and its length in words,
    /// given the current stack address.
    pub fn scan_extent(&self, stack_ptr: usize, word_size: usize) -> (r: (usize, usize))
        requires
            word_size > 0,
            self.growth() == Grows::Down ==> stack_ptr <= self.start_addr(),
            self.growth() == Grows::Up ==> self.start_addr() <= stack_ptr,
        ensures
            (r.0 as int, r.1 as int) == scan_extent_spec(
                self.start_addr() as int,
                stack_ptr as int,
                self.growth(),
                word_size as int,
            ),
    {
        let mut stack_ptr = stack_ptr;
        let mut stack_base = self.base;
        // swap top and base when the stack grows downward for correct slice
        // value ordering
        if self.orientation == Grows::Down {
            let t = stack_ptr;
            stack_ptr = stack_base;
            stack_base = t;
        }
        let stack_len = (stack_ptr - stack_base) / word_size;
        (stack_base, stack_len)
    }
}

} // verus!
