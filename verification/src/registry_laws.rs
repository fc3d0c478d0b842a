//! What merging an injector chain's registrations guarantees: a nearer
//! injector's single, named and dynamic bindings win over those of the same
//! key further up, the other bindings stay, and set members add up in order.
use vstd::prelude::*;
use std::any::TypeId;
use crate::meta::{DynamicProviderGraphMeta, NamedBinding, ProviderGraphMeta};
use crate::registry::{overlay_single, overlay_singles, overlay_dynamic, overlay_dynamics, overlay_named_one, overlay_named,
    extend_set, extend_sets};

verus! {

/// The single binding of type `t` in `s`, if any.
pub open spec fn single_for(s: Seq<ProviderGraphMeta>, t: TypeId) -> Option<ProviderGraphMeta> {
    if exists|i: int| 0 <= i < s.len() && s[i].type_id == t {
        Some(s[choose|i: int| 0 <= i < s.len() && s[i].type_id == t])
    } else {
        None
    }
}

/// Each type occurs once in `s`.
pub open spec fn singles_unique(s: Seq<ProviderGraphMeta>) -> bool {
    forall|i: int, j: int| 0 <= i < j < s.len() ==> s[i].type_id != s[j].type_id
}

proof fn lemma_single_for_at(s: Seq<ProviderGraphMeta>, i: int)
    requires
        singles_unique(s),
        0 <= i < s.len(),
    ensures
        single_for(s, s[i].type_id) == Some(s[i]),
{
    let t = s[i].type_id;
    let j = choose|j: int| 0 <= j < s.len() && s[j].type_id == t;
    if j < i {
        assert(s[j].type_id != s[i].type_id);
    } else if i < j {
        assert(s[i].type_id != s[j].type_id);
    }
}

proof fn lemma_overlay_single(s: Seq<ProviderGraphMeta>, m: ProviderGraphMeta, t: TypeId)
    requires
        singles_unique(s),
    ensures
        singles_unique(overlay_single(s, m)),
        single_for(overlay_single(s, m), t) == if t == m.type_id { Some(m) } else { single_for(s, t) },
{
    let r = overlay_single(s, m);
    if exists|i: int| 0 <= i < s.len() && s[i].type_id == m.type_id {
        let i = choose|i: int| 0 <= i < s.len() && s[i].type_id == m.type_id;
        assert(r == s.update(i, m));
        assert forall|a: int, b: int| 0 <= a < b < r.len() implies r[a].type_id != r[b].type_id by {
            assert(r[a].type_id == s[a].type_id);
            assert(r[b].type_id == s[b].type_id);
        }
        if t == m.type_id {
            lemma_single_for_at(r, i);
        } else if exists|j: int| 0 <= j < s.len() && s[j].type_id == t {
            let j = choose|j: int| 0 <= j < s.len() && s[j].type_id == t;
            assert(r[j] == s[j]);
            lemma_single_for_at(r, j);
            lemma_single_for_at(s, j);
        } else {
            assert forall|a: int| 0 <= a < r.len() implies r[a].type_id != t by {
                if a != i {
                    assert(r[a] == s[a]);
                }
            }
        }
    } else {
        assert(r == s.push(m));
        assert forall|a: int, b: int| 0 <= a < b < r.len() implies r[a].type_id != r[b].type_id by {
            if b == s.len() {
                assert(r[a] == s[a]);
            }
        }
        if t == m.type_id {
            lemma_single_for_at(r, s.len() as int);
        } else if exists|j: int| 0 <= j < s.len() && s[j].type_id == t {
            let j = choose|j: int| 0 <= j < s.len() && s[j].type_id == t;
            assert(r[j] == s[j]);
            lemma_single_for_at(r, j);
            lemma_single_for_at(s, j);
        } else {
            assert forall|a: int| 0 <= a < r.len() implies r[a].type_id != t by {
                if a < s.len() {
                    assert(r[a] == s[a]);
                }
            }
        }
    }
}

proof fn lemma_single_for_last(s: Seq<ProviderGraphMeta>, t: TypeId)
    requires
        singles_unique(s),
        s.len() > 0,
    ensures
        singles_unique(s.drop_last()),
        single_for(s, t) == if t == s.last().type_id { Some(s.last()) } else { single_for(s.drop_last(), t) },
{
    let d = s.drop_last();
    assert forall|a: int, b: int| 0 <= a < b < d.len() implies d[a].type_id != d[b].type_id by {
        assert(d[a] == s[a] && d[b] == s[b]);
    }
    if t == s.last().type_id {
        lemma_single_for_at(s, s.len() - 1);
    } else if exists|j: int| 0 <= j < d.len() && d[j].type_id == t {
        let j = choose|j: int| 0 <= j < d.len() && d[j].type_id == t;
        assert(d[j] == s[j]);
        lemma_single_for_at(s, j);
        lemma_single_for_at(d, j);
    } else {
        assert forall|a: int| 0 <= a < s.len() implies s[a].type_id != t by {
            if a < d.len() {
                assert(d[a] == s[a]);
            }
        }
    }
}

/// The nearer binding wins: after overlaying `layer` on `base`, the single
/// binding of a type is the layer's when the layer has one, else the base's;
/// each type still occurs once.
pub proof fn lemma_overlay_singles(base: Seq<ProviderGraphMeta>, layer: Seq<ProviderGraphMeta>, t: TypeId)
    requires
        singles_unique(base),
        singles_unique(layer),
    ensures
        singles_unique(overlay_singles(base, layer)),
        single_for(overlay_singles(base, layer), t) == match single_for(layer, t) {
            Some(m) => Some(m),
            None => single_for(base, t),
        },
    decreases layer.len(),
{
    if layer.len() > 0 {
        lemma_single_for_last(layer, t);
        lemma_overlay_singles(base, layer.drop_last(), t);
        lemma_overlay_single(overlay_singles(base, layer.drop_last()), layer.last(), t);
    }
}

/// The dynamic provider named `n` in `s`, if any.
pub open spec fn dynamic_for(s: Seq<DynamicProviderGraphMeta>, n: Seq<char>) -> Option<DynamicProviderGraphMeta> {
    if exists|i: int| 0 <= i < s.len() && s[i].name@ == n {
        Some(s[choose|i: int| 0 <= i < s.len() && s[i].name@ == n])
    } else {
        None
    }
}

/// Each name occurs once in `s`.
pub open spec fn dynamics_unique(s: Seq<DynamicProviderGraphMeta>) -> bool {
    forall|i: int, j: int| 0 <= i < j < s.len() ==> s[i].name@ != s[j].name@
}

proof fn lemma_dynamic_for_at(s: Seq<DynamicProviderGraphMeta>, i: int)
    requires
        dynamics_unique(s),
        0 <= i < s.len(),
    ensures
        dynamic_for(s, s[i].name@) == Some(s[i]),
{
    let n = s[i].name@;
    let j = choose|j: int| 0 <= j < s.len() && s[j].name@ == n;
    if j < i {
        assert(s[j].name@ != s[i].name@);
    } else if i < j {
        assert(s[i].name@ != s[j].name@);
    }
}

proof fn lemma_overlay_dynamic(s: Seq<DynamicProviderGraphMeta>, d: DynamicProviderGraphMeta, n: Seq<char>)
    requires
        dynamics_unique(s),
    ensures
        dynamics_unique(overlay_dynamic(s, d)),
        dynamic_for(overlay_dynamic(s, d), n) == if n == d.name@ { Some(d) } else { dynamic_for(s, n) },
{
    let r = overlay_dynamic(s, d);
    if exists|i: int| 0 <= i < s.len() && s[i].name@ == d.name@ {
        let i = choose|i: int| 0 <= i < s.len() && s[i].name@ == d.name@;
        assert(r == s.update(i, d));
        assert forall|a: int, b: int| 0 <= a < b < r.len() implies r[a].name@ != r[b].name@ by {
            assert(r[a].name@ == s[a].name@);
            assert(r[b].name@ == s[b].name@);
        }
        if n == d.name@ {
            lemma_dynamic_for_at(r, i);
        } else if exists|j: int| 0 <= j < s.len() && s[j].name@ == n {
            let j = choose|j: int| 0 <= j < s.len() && s[j].name@ == n;
            assert(r[j] == s[j]);
            lemma_dynamic_for_at(r, j);
            lemma_dynamic_for_at(s, j);
        } else {
            assert forall|a: int| 0 <= a < r.len() implies r[a].name@ != n by {
                if a != i {
                    assert(r[a] == s[a]);
                }
            }
        }
    } else {
        assert(r == s.push(d));
        assert forall|a: int, b: int| 0 <= a < b < r.len() implies r[a].name@ != r[b].name@ by {
            if b == s.len() {
                assert(r[a] == s[a]);
            }
        }
        if n == d.name@ {
            lemma_dynamic_for_at(r, s.len() as int);
        } else if exists|j: int| 0 <= j < s.len() && s[j].name@ == n {
            let j = choose|j: int| 0 <= j < s.len() && s[j].name@ == n;
            assert(r[j] == s[j]);
            lemma_dynamic_for_at(r, j);
            lemma_dynamic_for_at(s, j);
        } else {
            assert forall|a: int| 0 <= a < r.len() implies r[a].name@ != n by {
                if a < s.len() {
                    assert(r[a] == s[a]);
                }
            }
        }
    }
}

proof fn lemma_dynamic_for_last(s: Seq<DynamicProviderGraphMeta>, n: Seq<char>)
    requires
        dynamics_unique(s),
        s.len() > 0,
    ensures
        dynamics_unique(s.drop_last()),
        dynamic_for(s, n) == if n == s.last().name@ { Some(s.last()) } else { dynamic_for(s.drop_last(), n) },
{
    let d = s.drop_last();
    assert forall|a: int, b: int| 0 <= a < b < d.len() implies d[a].name@ != d[b].name@ by {
        assert(d[a] == s[a] && d[b] == s[b]);
    }
    if n == s.last().name@ {
        lemma_dynamic_for_at(s, s.len() - 1);
    } else if exists|j: int| 0 <= j < d.len() && d[j].name@ == n {
        let j = choose|j: int| 0 <= j < d.len() && d[j].name@ == n;
        assert(d[j] == s[j]);
        lemma_dynamic_for_at(s, j);
        lemma_dynamic_for_at(d, j);
    } else {
        assert forall|a: int| 0 <= a < s.len() implies s[a].name@ != n by {
            if a < d.len() {
                assert(d[a] == s[a]);
            }
        }
    }
}

/// The nearer dynamic provider wins: after overlaying `layer` on `base`, the
/// provider of a name is the layer's when the layer has one, else the base's;
/// each name still occurs once.
pub proof fn lemma_overlay_dynamics(base: Seq<DynamicProviderGraphMeta>, layer: Seq<DynamicProviderGraphMeta>, n: Seq<char>)
    requires
        dynamics_unique(base),
        dynamics_unique(layer),
    ensures
        dynamics_unique(overlay_dynamics(base, layer)),
        dynamic_for(overlay_dynamics(base, layer), n) == match dynamic_for(layer, n) {
            Some(d) => Some(d),
            None => dynamic_for(base, n),
        },
    decreases layer.len(),
{
    if layer.len() > 0 {
        lemma_dynamic_for_last(layer, n);
        lemma_overlay_dynamics(base, layer.drop_last(), n);
        lemma_overlay_dynamic(overlay_dynamics(base, layer.drop_last()), layer.last(), n);
    }
}

/// The named binding of type `t` under `n` in `s`, if any.
pub open spec fn named_for(s: Seq<NamedBinding>, t: TypeId, n: Seq<char>) -> Option<NamedBinding> {
    if exists|i: int| 0 <= i < s.len() && s[i].key.type_id == t && s[i].key.name@ == n {
        Some(s[choose|i: int| 0 <= i < s.len() && s[i].key.type_id == t && s[i].key.name@ == n])
    } else {
        None
    }
}

/// Each key (type and name) occurs once in `s`.
pub open spec fn named_unique(s: Seq<NamedBinding>) -> bool {
    forall|i: int, j: int| 0 <= i < j < s.len() ==> !(s[i].key.type_id == s[j].key.type_id && s[i].key.name@ == s[j].key.name@)
}

proof fn lemma_named_for_at(s: Seq<NamedBinding>, i: int)
    requires
        named_unique(s),
        0 <= i < s.len(),
    ensures
        named_for(s, s[i].key.type_id, s[i].key.name@) == Some(s[i]),
{
    let t = s[i].key.type_id;
    let n = s[i].key.name@;
    let j = choose|j: int| 0 <= j < s.len() && s[j].key.type_id == t && s[j].key.name@ == n;
    if j < i {
        assert(!(s[j].key.type_id == s[i].key.type_id && s[j].key.name@ == s[i].key.name@));
    } else if i < j {
        assert(!(s[i].key.type_id == s[j].key.type_id && s[i].key.name@ == s[j].key.name@));
    }
}

proof fn lemma_overlay_named_one(s: Seq<NamedBinding>, b: NamedBinding, t: TypeId, n: Seq<char>)
    requires
        named_unique(s),
    ensures
        named_unique(overlay_named_one(s, b)),
        named_for(overlay_named_one(s, b), t, n) == if t == b.key.type_id && n == b.key.name@ {
            Some(b)
        } else {
            named_for(s, t, n)
        },
{
    let r = overlay_named_one(s, b);
    if exists|i: int| 0 <= i < s.len() && s[i].key.type_id == b.key.type_id && s[i].key.name@ == b.key.name@ {
        let i = choose|i: int| 0 <= i < s.len() && s[i].key.type_id == b.key.type_id && s[i].key.name@ == b.key.name@;
        assert(r == s.update(i, b));
        assert forall|x: int, y: int| 0 <= x < y < r.len() implies
            !(r[x].key.type_id == r[y].key.type_id && r[x].key.name@ == r[y].key.name@) by {
            assert(r[x].key.type_id == s[x].key.type_id && r[x].key.name@ == s[x].key.name@);
            assert(r[y].key.type_id == s[y].key.type_id && r[y].key.name@ == s[y].key.name@);
        }
        if t == b.key.type_id && n == b.key.name@ {
            lemma_named_for_at(r, i);
        } else if exists|j: int| 0 <= j < s.len() && s[j].key.type_id == t && s[j].key.name@ == n {
            let j = choose|j: int| 0 <= j < s.len() && s[j].key.type_id == t && s[j].key.name@ == n;
            assert(r[j] == s[j]);
            lemma_named_for_at(r, j);
            lemma_named_for_at(s, j);
        } else {
            assert forall|a: int| 0 <= a < r.len() implies !(r[a].key.type_id == t && r[a].key.name@ == n) by {
                if a != i {
                    assert(r[a] == s[a]);
                }
            }
        }
    } else {
        assert(r == s.push(b));
        assert forall|x: int, y: int| 0 <= x < y < r.len() implies
            !(r[x].key.type_id == r[y].key.type_id && r[x].key.name@ == r[y].key.name@) by {
            if y == s.len() {
                assert(r[x] == s[x]);
            }
        }
        if t == b.key.type_id && n == b.key.name@ {
            lemma_named_for_at(r, s.len() as int);
        } else if exists|j: int| 0 <= j < s.len() && s[j].key.type_id == t && s[j].key.name@ == n {
            let j = choose|j: int| 0 <= j < s.len() && s[j].key.type_id == t && s[j].key.name@ == n;
            assert(r[j] == s[j]);
            lemma_named_for_at(r, j);
            lemma_named_for_at(s, j);
        } else {
            assert forall|a: int| 0 <= a < r.len() implies !(r[a].key.type_id == t && r[a].key.name@ == n) by {
                if a < s.len() {
                    assert(r[a] == s[a]);
                }
            }
        }
    }
}

proof fn lemma_named_for_last(s: Seq<NamedBinding>, t: TypeId, n: Seq<char>)
    requires
        named_unique(s),
        s.len() > 0,
    ensures
        named_unique(s.drop_last()),
        named_for(s, t, n) == if t == s.last().key.type_id && n == s.last().key.name@ {
            Some(s.last())
        } else {
            named_for(s.drop_last(), t, n)
        },
{
    let d = s.drop_last();
    assert forall|a: int, b: int| 0 <= a < b < d.len() implies
        !(d[a].key.type_id == d[b].key.type_id && d[a].key.name@ == d[b].key.name@) by {
        assert(d[a] == s[a] && d[b] == s[b]);
    }
    if t == s.last().key.type_id && n == s.last().key.name@ {
        lemma_named_for_at(s, s.len() - 1);
    } else if exists|j: int| 0 <= j < d.len() && d[j].key.type_id == t && d[j].key.name@ == n {
        let j = choose|j: int| 0 <= j < d.len() && d[j].key.type_id == t && d[j].key.name@ == n;
        assert(d[j] == s[j]);
        lemma_named_for_at(s, j);
        lemma_named_for_at(d, j);
    } else {
        assert forall|a: int| 0 <= a < s.len() implies !(s[a].key.type_id == t && s[a].key.name@ == n) by {
            if a < d.len() {
                assert(d[a] == s[a]);
            }
        }
    }
}

/// The nearer named binding wins: after overlaying `layer` on `base`, the
/// binding of a type under a name is the layer's when the layer has one, else
/// the base's; each key still occurs once.
pub proof fn lemma_overlay_named(base: Seq<NamedBinding>, layer: Seq<NamedBinding>, t: TypeId, n: Seq<char>)
    requires
        named_unique(base),
        named_unique(layer),
    ensures
        named_unique(overlay_named(base, layer)),
        named_for(overlay_named(base, layer), t, n) == match named_for(layer, t, n) {
            Some(b) => Some(b),
            None => named_for(base, t, n),
        },
    decreases layer.len(),
{
    if layer.len() > 0 {
        lemma_named_for_last(layer, t, n);
        lemma_overlay_named(base, layer.drop_last(), t, n);
        lemma_overlay_named_one(overlay_named(base, layer.drop_last()), layer.last(), t, n);
    }
}

/// The members of the set of type `t` in `s`; none if `s` has no such set.
pub open spec fn members_for(s: Seq<(TypeId, Seq<ProviderGraphMeta>)>, t: TypeId) -> Seq<ProviderGraphMeta> {
    if exists|i: int| 0 <= i < s.len() && s[i].0 == t {
        s[choose|i: int| 0 <= i < s.len() && s[i].0 == t].1
    } else {
        seq![]
    }
}

/// Each set type occurs once in `s`.
pub open spec fn sets_unique(s: Seq<(TypeId, Seq<ProviderGraphMeta>)>) -> bool {
    forall|i: int, j: int| 0 <= i < j < s.len() ==> s[i].0 != s[j].0
}

proof fn lemma_members_for_at(s: Seq<(TypeId, Seq<ProviderGraphMeta>)>, i: int)
    requires
        sets_unique(s),
        0 <= i < s.len(),
    ensures
        members_for(s, s[i].0) == s[i].1,
{
    let t = s[i].0;
    let j = choose|j: int| 0 <= j < s.len() && s[j].0 == t;
    if j < i {
        assert(s[j].0 != s[i].0);
    } else if i < j {
        assert(s[i].0 != s[j].0);
    }
}

proof fn lemma_extend_set(s: Seq<(TypeId, Seq<ProviderGraphMeta>)>, t0: TypeId, ms: Seq<ProviderGraphMeta>, t: TypeId)
    requires
        sets_unique(s),
    ensures
        sets_unique(extend_set(s, t0, ms)),
        members_for(extend_set(s, t0, ms), t) == if t == t0 { members_for(s, t) + ms } else { members_for(s, t) },
{
    let r = extend_set(s, t0, ms);
    if exists|i: int| 0 <= i < s.len() && s[i].0 == t0 {
        let i = choose|i: int| 0 <= i < s.len() && s[i].0 == t0;
        assert(r == s.update(i, (t0, s[i].1 + ms)));
        assert forall|a: int, b: int| 0 <= a < b < r.len() implies r[a].0 != r[b].0 by {
            assert(r[a].0 == s[a].0);
            assert(r[b].0 == s[b].0);
        }
        lemma_members_for_at(s, i);
        if t == t0 {
            lemma_members_for_at(r, i);
        } else if exists|j: int| 0 <= j < s.len() && s[j].0 == t {
            let j = choose|j: int| 0 <= j < s.len() && s[j].0 == t;
            assert(r[j] == s[j]);
            lemma_members_for_at(r, j);
            lemma_members_for_at(s, j);
        } else {
            assert forall|a: int| 0 <= a < r.len() implies r[a].0 != t by {
                if a != i {
                    assert(r[a] == s[a]);
                }
            }
        }
    } else {
        assert(r == s.push((t0, ms)));
        assert forall|a: int, b: int| 0 <= a < b < r.len() implies r[a].0 != r[b].0 by {
            if b == s.len() {
                assert(r[a] == s[a]);
            }
        }
        if t == t0 {
            lemma_members_for_at(r, s.len() as int);
            assert(seq![] + ms =~= ms);
        } else if exists|j: int| 0 <= j < s.len() && s[j].0 == t {
            let j = choose|j: int| 0 <= j < s.len() && s[j].0 == t;
            assert(r[j] == s[j]);
            lemma_members_for_at(r, j);
            lemma_members_for_at(s, j);
        } else {
            assert forall|a: int| 0 <= a < r.len() implies r[a].0 != t by {
                if a < s.len() {
                    assert(r[a] == s[a]);
                }
            }
        }
    }
}

proof fn lemma_members_for_last(s: Seq<(TypeId, Seq<ProviderGraphMeta>)>, t: TypeId)
    requires
        sets_unique(s),
        s.len() > 0,
    ensures
        sets_unique(s.drop_last()),
        members_for(s, t) == if t == s.last().0 { s.last().1 } else { members_for(s.drop_last(), t) },
        t == s.last().0 ==> members_for(s.drop_last(), t) == Seq::<ProviderGraphMeta>::empty(),
{
    let d = s.drop_last();
    assert forall|a: int, b: int| 0 <= a < b < d.len() implies d[a].0 != d[b].0 by {
        assert(d[a] == s[a] && d[b] == s[b]);
    }
    if t == s.last().0 {
        lemma_members_for_at(s, s.len() - 1);
        assert forall|a: int| 0 <= a < d.len() implies d[a].0 != t by {
            assert(d[a] == s[a]);
        }
    } else if exists|j: int| 0 <= j < d.len() && d[j].0 == t {
        let j = choose|j: int| 0 <= j < d.len() && d[j].0 == t;
        assert(d[j] == s[j]);
        lemma_members_for_at(s, j);
        lemma_members_for_at(d, j);
    } else {
        assert forall|a: int| 0 <= a < s.len() implies s[a].0 != t by {
            if a < d.len() {
                assert(d[a] == s[a]);
            }
        }
    }
}

/// Set members add up: after extending `base` with `layer`, the members of
/// the set of a type are the base's, then the layer's, in order; each set type
/// still occurs once.
pub proof fn lemma_extend_sets(
    base: Seq<(TypeId, Seq<ProviderGraphMeta>)>,
    layer: Seq<(TypeId, Seq<ProviderGraphMeta>)>,
    t: TypeId,
)
    requires
        sets_unique(base),
        sets_unique(layer),
    ensures
        sets_unique(extend_sets(base, layer)),
        members_for(extend_sets(base, layer), t) == members_for(base, t) + members_for(layer, t),
    decreases layer.len(),
{
    if layer.len() == 0 {
        assert(members_for(base, t) + seq![] =~= members_for(base, t));
    } else {
        let d = layer.drop_last();
        lemma_members_for_last(layer, t);
        lemma_extend_sets(base, d, t);
        lemma_extend_set(extend_sets(base, d), layer.last().0, layer.last().1, t);
        if t == layer.last().0 {
            assert(members_for(base, t) + members_for(d, t) =~= members_for(base, t));
        }
    }
}

} // verus!
