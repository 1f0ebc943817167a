//! Scope-guarded tracing of heap objects.
use vstd::prelude::*;

use crate::allocator::TraceVisitor;
use crate::heap::HeapTracer;
use crate::safeptr::MutatorScope;

verus! {

/// This empty struct provides scope guarded access to `Trace::trace()` so
/// that safe access can be assured.
pub struct GcScope;

impl MutatorScope for GcScope {

}

/// This trait must be implemented by all types that are heap allocated
pub trait Trace {
    fn trace<V: TraceVisitor>(&self, v: &mut V, guard: &dyn MutatorScope);
}

/// Wraps `HeapTracer` with the additional scope guard that enables safe
/// tracing
pub struct TraceVisitorProxy<'guard> {
    guard: &'guard dyn MutatorScope,
    tracer: HeapTracer,
}

impl<'guard> TraceVisitorProxy<'guard> {
    /// The tracer wrapped.
    pub closed spec fn tracer(&self) -> HeapTracer {
        self.tracer
    }

    pub fn new(guard: &'guard GcScope) -> (p: TraceVisitorProxy<'guard>)
        ensures
            p.tracer().pending() == Seq::<usize>::empty(),
    {
        TraceVisitorProxy { guard, tracer: HeapTracer::new() }
    }
}

} // verus!
