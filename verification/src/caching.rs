//! Where a resolved instance is cached, by the scope of its provider.
use vstd::prelude::*;
use crate::types::Scope;

verus! {

/// The first position at or after `i` that is a scope boundary, if any.
pub open spec fn first_boundary_from(boundaries: Seq<bool>, i: int) -> Option<int>
    decreases boundaries.len() - i,
{
    if i < 0 || i >= boundaries.len() {
        None
    } else if boundaries[i] {
        Some(i)
    } else {
        first_boundary_from(boundaries, i + 1)
    }
}

/// The injector that caches an instance of a provider of scope `scope`,
/// resolved from the first injector of a chain that runs from it to the root;
/// `boundaries[k]` tells whether the `k`-th injector of the chain starts a scope.
/// None for a transient provider, else its position in the chain: the root for
/// `Root`, the resolving injector for `Module`, and for `Scoped` the nearest
/// scope boundary, or the resolving injector when there is none.
pub open spec fn cache_target_spec(scope: Scope, boundaries: Seq<bool>) -> Option<int> {
    match scope {
        Scope::Transient => None,
        Scope::Root => Some(boundaries.len() - 1),
        Scope::Module => Some(0),
        Scope::Scoped => match first_boundary_from(boundaries, 0) {
            Some(k) => Some(k),
            None => Some(0),
        },
    }
}

/// Chooses the injector, by position in the chain from the resolving injector
/// to the root, that caches an instance of a provider of scope `scope`.
pub fn cache_target(scope: Scope, boundaries: &Vec<bool>) -> (res: Option<usize>)
    requires
        boundaries.len() > 0,
    ensures
        match res {
            Some(k) => cache_target_spec(scope, boundaries@) == Some(k as int) && k < boundaries.len(),
            None => cache_target_spec(scope, boundaries@) is None,
        },
{
    match scope {
        Scope::Transient => None,
        Scope::Root => Some(boundaries.len() - 1),
        Scope::Module => Some(0),
        Scope::Scoped => {
            let mut i: usize = 0;
            while i < boundaries.len()
                invariant
                    scope == Scope::Scoped,
                    i <= boundaries.len(),
                    first_boundary_from(boundaries@, 0) == first_boundary_from(boundaries@, i as int),
                decreases boundaries.len() - i,
            {
                if boundaries[i] {
                    return Some(i);
                }
                i = i + 1;
            }
            Some(0)
        },
    }
}

} // verus!
