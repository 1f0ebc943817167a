//! Scope-guard limited Hashable trait type
use std::hash::Hasher;
use vstd::prelude::*;

use crate::safeptr::MutatorScope;

verus! {

/// Similar to Hash but for use in a mutator lifetime-limited scope
pub trait Hashable {
    fn hash<H: Hasher>(&self, guard: &dyn MutatorScope, hasher: &mut H);
}

} // verus!
