//! Detection of circular resolution at run time: the set of types being
//! resolved, and a guard that holds one type in it.
use vstd::prelude::*;
use vstd::string::*;
use std::any::TypeId;
use crate::error::{Error, ErrorKind};
use crate::types::same_type;

verus! {

/// The types whose resolution is under way (on one thread), each once.
#[derive(Debug)]
pub struct ResolveSet {
    pub active: Vec<TypeId>,
}

impl View for ResolveSet {
    type V = Set<TypeId>;

    open spec fn view(&self) -> Set<TypeId> {
        self.active@.to_set()
    }
}

impl ResolveSet {
    /// No type occurs twice.
    pub open spec fn wf(&self) -> bool {
        self.active@.no_duplicates()
    }

    /// An empty set.
    pub fn new() -> (res: Self)
        ensures
            res@ == Set::<TypeId>::empty(),
            res.wf(),
    {
        let res = ResolveSet { active: Vec::new() };
        assert(res@ =~= Set::<TypeId>::empty());
        res
    }

    /// The position of `t`, if it is in the set.
    fn position(&self, t: &TypeId) -> (res: Option<usize>)
        ensures
            match res {
                Some(i) => i < self.active@.len() && self.active@[i as int] == *t,
                None => !self@.contains(*t),
            },
    {
        let mut i: usize = 0;
        while i < self.active.len()
            invariant
                i <= self.active.len(),
                forall|j: int| 0 <= j < i ==> self.active@[j] != *t,
            decreases self.active.len() - i,
        {
            if same_type(&self.active[i], t) {
                return Some(i);
            }
            i = i + 1;
        }
        proof {
            if self@.contains(*t) {
                let j = choose|j: int| 0 <= j < self.active@.len() && self.active@[j] == *t;
                assert(self.active@[j] == *t);
            }
        }
        None
    }
}

/// Holds one type in a resolve set while it is being resolved.
#[derive(Debug)]
pub struct ResolveGuard {
    type_id: TypeId,
}

/// The text that `TypeId`'s `Debug` gives for a type identifier.
pub uninterp spec fn type_id_debug(t: TypeId) -> Seq<char>;

/// The text of a type identifier, as its `Debug` shows it.
///
/// Trusted: formats with `TypeId`'s `Debug`, whose text is a function of the
/// identifier's value alone; what that text is is left unsaid.
#[verifier::external_body]
fn type_id_text(t: &TypeId) -> (res: String)
    ensures
        res@ == type_id_debug(*t),
{
    format!("{:?}", t)
}

impl ResolveGuard {
    /// The type the guard holds.
    pub closed spec fn held(&self) -> TypeId {
        self.type_id
    }

    /// Starts resolving `type_id`: refused with a circular-dependency error
    /// when it is already being resolved; otherwise it joins the set.
    pub fn push(set: &mut ResolveSet, type_id: TypeId) -> (res: Result<Self, Error>)
        requires
            old(set).wf(),
        ensures
            final(set).wf(),
            old(set)@.contains(type_id) ==> {
                &&& res matches Err(e)
                &&& e.kind == ErrorKind::CircularDependency
                &&& e.message@ == "Circular dependency detected while resolving type_id: "@ + type_id_debug(type_id)
                &&& final(set)@ == old(set)@
            },
            !old(set)@.contains(type_id) ==> {
                &&& res matches Ok(g)
                &&& g.held() == type_id
                &&& final(set)@ == old(set)@.insert(type_id)
            },
    {
        if set.position(&type_id).is_some() {
            let mut m = String::from_str("Circular dependency detected while resolving type_id: ");
            let text = type_id_text(&type_id);
            m.append(text.as_str());
            return Err(Error::new(ErrorKind::CircularDependency, m));
        }
        let ghost before = set.active@;
        set.active.push(type_id);
        proof {
            broadcast use vstd::seq_lib::group_seq_properties;
            assert(set.active@ == before.push(type_id));
            assert(set@ =~= before.to_set().insert(type_id));
            assert forall|a: int, b: int| 0 <= a < b < set.active@.len() implies set.active@[a] != set.active@[b] by {
                if b == before.len() {
                    assert(before.contains(before[a]));
                }
            }
        }
        Ok(ResolveGuard { type_id })
    }

    /// Ends the resolution the guard stands for: its type leaves the set.
    pub fn release(self, set: &mut ResolveSet)
        requires
            old(set).wf(),
        ensures
            final(set).wf(),
            final(set)@ == old(set)@.remove(self.held()),
    {
        let ghost before = set.active@;
        match set.position(&self.type_id) {
            Some(i) => {
                set.active.remove(i);
                proof {
                    broadcast use vstd::seq_lib::group_seq_properties;
                    before.remove_ensures(i as int);
                    assert(set.active@ == before.remove(i as int));
                    assert forall|a: int, b: int| 0 <= a < b < set.active@.len() implies set.active@[a] != set.active@[b] by {
                        let a0 = if a < i { a } else { a + 1 };
                        let b0 = if b < i { b } else { b + 1 };
                        assert(set.active@[a] == before[a0]);
                        assert(set.active@[b] == before[b0]);
                    }
                    assert(set@ =~= before.to_set().remove(self.type_id)) by {
                        assert forall|x: TypeId| set.active@.contains(x) <==> before.contains(x) && x != self.type_id by {
                            if set.active@.contains(x) {
                                let k = choose|k: int| 0 <= k < set.active@.len() && set.active@[k] == x;
                                let k0 = if k < i { k } else { k + 1 };
                                assert(before[k0] == x);
                                assert(k0 != i);
                            }
                            if before.contains(x) && x != self.type_id {
                                let k = choose|k: int| 0 <= k < before.len() && before[k] == x;
                                if k < i {
                                    assert(set.active@[k] == x);
                                } else {
                                    assert(k != i);
                                    assert(set.active@[k - 1] == x);
                                }
                            }
                        }
                    }
                }
            },
            None => {
                assert(set@ =~= before.to_set().remove(self.type_id));
            },
        }
    }
}

/// Releasing a guard undoes its push: pushing a type the set did not hold and
/// then releasing its guard gives back the set as it was, and while the guard
/// is held the type is in the set, so a second push of it is refused.
pub proof fn lemma_release_undoes_push(s: Set<TypeId>, t: TypeId)
    requires
        !s.contains(t),
    ensures
        s.insert(t).contains(t),
        s.insert(t).remove(t) == s,
{
    assert(s.insert(t).remove(t) =~= s);
}

} // verus!
