use crate::heap::{NamespaceEntry, Runtime, TypeObject};
use vstd::prelude::*;

verus! {

/// Whether type `t` is `base` or derives from it, at any depth.
pub open spec fn is_subclass(types: Seq<TypeObject>, t: nat, base: nat) -> bool
    decreases t,
{
    if t == base {
        true
    } else if t < types.len() {
        match types[t as int].tp_base {
            Some(b) => b < t && is_subclass(types, b as nat, base),
            None => false,
        }
    } else {
        false
    }
}

/// The type bound last to `name` in the namespace `ns`.
pub open spec fn resolve_spec(ns: Seq<NamespaceEntry>, name: u64) -> Option<usize>
    decreases ns.len(),
{
    if ns.len() == 0 {
        None
    } else if ns.last().name == name {
        Some(ns.last().ty)
    } else {
        resolve_spec(ns.drop_last(), name)
    }
}

/// The types bound in `ns` that derive from `base`, in binding order.
pub open spec fn subclasses_in(types: Seq<TypeObject>, ns: Seq<NamespaceEntry>, base: nat) -> Seq<
    usize,
>
    decreases ns.len(),
{
    if ns.len() == 0 {
        Seq::empty()
    } else {
        let rest = subclasses_in(types, ns.drop_last(), base);
        if is_subclass(types, ns.last().ty as nat, base) {
            rest.push(ns.last().ty)
        } else {
            rest
        }
    }
}

/// The identities of the node types, as a flat set.
#[derive(Clone, Debug)]
pub struct NodeTypeSet {
    pub members: Vec<usize>,
}

/// How a type is recognised as a node type.
#[derive(Clone, Debug)]
pub enum NodeTypeTest {
    /// Membership in a set of types collected beforehand: exact for any
    /// depth of derivation.
    Exact(NodeTypeSet),
    /// A walk of at most two steps up the derivation chain: the type is a
    /// node type when its base is `base`, or its base's base is `base` or
    /// `secondary`. Cheaper, and blind to deeper derivations and to `base`
    /// itself.
    Ancestors { base: usize, secondary: usize },
}

/// A type name that the namespace does not bind.
#[derive(Clone, Copy, Debug, PartialEq, Eq, Structural)]
pub struct LookupError {
    pub name: u64,
}

impl NodeTypeTest {
    /// Whether the type `t` of `rt` is a node type under this test.
    pub open spec fn holds(&self, rt: Runtime, t: nat) -> bool {
        match self {
            NodeTypeTest::Exact(s) => s.members@.contains(t as usize),
            NodeTypeTest::Ancestors { base, secondary } => match rt.types@[t as int].tp_base {
                None => false,
                Some(f) => f == *base || match rt.types@[f as int].tp_base {
                    Some(s) => s == *base || s == *secondary,
                    None => false,
                },
            },
        }
    }

    /// Decides `holds` for a type of the runtime.
    pub fn contains(&self, rt: &Runtime, t: usize) -> (r: bool)
        requires
            rt.wf(),
            t < rt.types@.len(),
        ensures
            r == self.holds(*rt, t as nat),
    {
        match self {
            NodeTypeTest::Exact(s) => {
                let mut i: usize = 0;
                while i < s.members.len()
                    invariant
                        i <= s.members@.len(),
                        self.holds(*rt, t as nat) == s.members@.contains(t),
                        forall|k: int| 0 <= k < i ==> s.members@[k] != t,
                    decreases s.members@.len() - i,
                {
                    if s.members[i] == t {
                        assert(s.members@[i as int] == t);
                        assert(s.members@.contains(t));
                        return true;
                    }
                    i = i + 1;
                }
                false
            },
            NodeTypeTest::Ancestors { base, secondary } => {
                assert(rt.type_ok(t as int));
                match rt.types[t].tp_base {
                    None => false,
                    Some(f) => {
                        if f == *base {
                            true
                        } else {
                            match rt.types[f].tp_base {
                                Some(s) => s == *base || s == *secondary,
                                None => false,
                            }
                        }
                    },
                }
            },
        }
    }

    /// This test is the one that `NodeTypeRegistry` builds from the base
    /// type `base` and, for the ancestor walk, the secondary base.
    pub open spec fn is_built_from(&self, rt: Runtime, base: usize, secondary: Option<usize>) -> bool {
        match self {
            NodeTypeTest::Exact(s) => secondary is None && s.members@ == subclasses_in(
                rt.types@,
                rt.namespace@,
                base as nat,
            ),
            NodeTypeTest::Ancestors { base: b, secondary: s } => secondary == Some(*s) && *b
                == base,
        }
    }
}

/// Whether type `t` derives from `base`, by walking up its chain of bases.
pub fn is_subclass_of(rt: &Runtime, t: usize, base: usize) -> (r: bool)
    requires
        rt.wf(),
        t < rt.types@.len(),
    ensures
        r == is_subclass(rt.types@, t as nat, base as nat),
{
    let mut cur = t;
    loop
        invariant
            rt.wf(),
            cur < rt.types@.len(),
            is_subclass(rt.types@, t as nat, base as nat) == is_subclass(
                rt.types@,
                cur as nat,
                base as nat,
            ),
        decreases cur,
    {
        if cur == base {
            return true;
        }
        assert(rt.type_ok(cur as int));
        match rt.types[cur].tp_base {
            None => return false,
            Some(b) => {
                cur = b;
            },
        }
    }
}

/// The type that the namespace binds to `name`, the last binding winning.
pub fn resolve(rt: &Runtime, name: u64) -> (r: Option<usize>)
    ensures
        r == resolve_spec(rt.namespace@, name),
{
    let ns = &rt.namespace;
    let mut i: usize = ns.len();
    assert(ns@.subrange(0, ns@.len() as int) =~= ns@);
    while i > 0
        invariant
            i <= ns@.len(),
            ns@ == rt.namespace@,
            resolve_spec(ns@, name) == resolve_spec(ns@.subrange(0, i as int), name),
        decreases i,
    {
        let e = ns[i - 1];
        assert(ns@.subrange(0, i as int).drop_last() =~= ns@.subrange(0, i - 1));
        assert(ns@.subrange(0, i as int).last() == e);
        if e.name == name {
            assert(resolve_spec(ns@.subrange(0, i as int), name) == Some(e.ty));
            return Some(e.ty);
        }
        i = i - 1;
    }
    None
}

/// Collects every type of the namespace that derives from `base`.
pub fn build_node_type_set(rt: &Runtime, base: usize) -> (r: NodeTypeSet)
    requires
        rt.wf(),
    ensures
        r.members@ == subclasses_in(rt.types@, rt.namespace@, base as nat),
{
    let ns = &rt.namespace;
    let mut members: Vec<usize> = Vec::new();
    let mut i: usize = 0;
    while i < ns.len()
        invariant
            rt.wf(),
            ns == &rt.namespace,
            i <= ns@.len(),
            members@ == subclasses_in(rt.types@, ns@.subrange(0, i as int), base as nat),
        decreases ns@.len() - i,
    {
        let e = ns[i];
        assert(ns@.subrange(0, i + 1).drop_last() =~= ns@.subrange(0, i as int));
        if is_subclass_of(rt, e.ty, base) {
            members.push(e.ty);
        }
        i = i + 1;
    }
    assert(ns@.subrange(0, ns@.len() as int) =~= ns@);
    NodeTypeSet { members }
}

/// The secondary base type, resolved when a name is given.
pub open spec fn secondary_of(rt: Runtime, secondary_name: Option<u64>) -> Option<usize> {
    match secondary_name {
        Some(n) => resolve_spec(rt.namespace@, n),
        None => None,
    }
}

/// The name that building a node-type test fails to resolve, if any: the
/// base name first, then the secondary name when one is given.
pub open spec fn build_error(rt: Runtime, base_name: u64, secondary_name: Option<u64>) -> Option<
    LookupError,
> {
    if resolve_spec(rt.namespace@, base_name) is None {
        Some(LookupError { name: base_name })
    } else if secondary_name is Some && secondary_of(rt, secondary_name) is None {
        Some(LookupError { name: secondary_name->0 })
    } else {
        None
    }
}

/// The node-type test of one cache scope, built on first use and then kept.
pub struct NodeTypeRegistry {
    pub cache: Option<NodeTypeTest>,
}

impl NodeTypeRegistry {
    /// An empty cache.
    pub fn new() -> (r: NodeTypeRegistry)
        ensures
            r.cache is None,
    {
        NodeTypeRegistry { cache: None }
    }

    /// Builds the node-type test unless one is cached.
    ///
    /// The base type is resolved by `base_name`. With a `secondary_name`,
    /// the test is the two-step ancestor walk against both types; without
    /// one, it is membership in the set of every namespace type that
    /// derives from the base. A name that the namespace does not bind is
    /// reported and leaves the cache empty, so that a later call tries
    /// again.
    pub fn get_or_build(&mut self, rt: &Runtime, base_name: u64, secondary_name: Option<u64>) -> (r:
        Result<(), LookupError>)
        requires
            rt.wf(),
        ensures
            old(self).cache is Some ==> r is Ok && final(self).cache == old(self).cache,
            old(self).cache is None ==> {
                &&& r is Err <==> build_error(*rt, base_name, secondary_name) is Some
                &&& r is Err ==> r == Err::<(), LookupError>(
                    build_error(*rt, base_name, secondary_name)->0,
                ) && final(self).cache is None
                &&& r is Ok ==> final(self).cache is Some && final(self).cache->0.is_built_from(
                    *rt,
                    resolve_spec(rt.namespace@, base_name)->0,
                    secondary_of(*rt, secondary_name),
                )
            },
    {
        if self.cache.is_some() {
            return Ok(());
        }
        let base = match resolve(rt, base_name) {
            Some(b) => b,
            None => return Err(LookupError { name: base_name }),
        };
        let test = match secondary_name {
            Some(n) => match resolve(rt, n) {
                Some(s) => NodeTypeTest::Ancestors { base, secondary: s },
                None => return Err(LookupError { name: n }),
            },
            None => NodeTypeTest::Exact(build_node_type_set(rt, base)),
        };
        self.cache = Some(test);
        Ok(())
    }
}

} // verus!
