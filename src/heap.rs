use crate::pydict::{PyDictKeysObject, PyDictUnicodeEntry};
use vstd::prelude::*;

verus! {

/// A type of the host runtime: the type it derives from, if any, and the
/// names (interned-text handles) of the fields its instances declare.
#[derive(Clone, Debug)]
pub struct TypeObject {
    pub tp_base: Option<usize>,
    pub fields: Vec<u64>,
}

/// What an object carries besides its type.
#[derive(Clone, Debug)]
pub enum Payload {
    /// A value with nothing to traverse: a number, a text, a flag, none.
    Plain,
    /// The elements of a built-in list, by object handle.
    List(Vec<usize>),
    /// An instance with an attribute store, which may be absent.
    Instance(Option<PyDictKeysObject>),
}

/// An object of the host runtime: its type handle and its payload.
#[derive(Clone, Debug)]
pub struct PyObj {
    pub ob_type: usize,
    pub payload: Payload,
}

/// A name bound in the namespace that defines the node types.
#[derive(Clone, Copy, Debug, PartialEq, Eq, Structural)]
pub struct NamespaceEntry {
    pub name: u64,
    pub ty: usize,
}

/// The part of the host runtime that a walk reads.
///
/// Types and objects are numbered by their position. A type derives only
/// from a type with a smaller number and an object refers only to objects
/// with smaller numbers, so the object graph has no cycle.
#[derive(Clone, Debug)]
pub struct Runtime {
    pub types: Vec<TypeObject>,
    pub objects: Vec<PyObj>,
    /// The namespace that defines the node types.
    pub namespace: Vec<NamespaceEntry>,
    /// The built-in list type.
    pub list_type: usize,
}

/// Every object that `p` refers to has a number below `bound`.
pub open spec fn payload_refs_below(p: Payload, bound: nat) -> bool {
    match p {
        Payload::Plain => true,
        Payload::List(items) => forall|k: int| 0 <= k < items@.len() ==> items@[k] < bound,
        Payload::Instance(None) => true,
        Payload::Instance(Some(d)) => d.wf() && forall|k: int|
            0 <= k < d.dk_nentries && (#[trigger] d.dk_entries@[k]).me_value is Some
                ==> d.dk_entries@[k].me_value->0 < bound,
    }
}

/// The values of a live slot lie below `bound` for every slot of `s`.
pub open spec fn slots_below(s: Seq<PyDictUnicodeEntry>, bound: nat) -> bool {
    forall|k: int| 0 <= k < s.len() && (#[trigger] s[k]).me_value is Some ==> s[k].me_value->0 < bound
}

impl Runtime {
    pub open spec fn type_ok(&self, t: int) -> bool {
        let ty = self.types@[t];
        ty.tp_base matches Some(b) ==> b < t
    }

    pub open spec fn object_ok(&self, i: int) -> bool {
        let o = self.objects@[i];
        &&& o.ob_type < self.types@.len()
        &&& payload_refs_below(o.payload, i as nat)
    }

    /// Types derive from earlier types, objects refer to earlier objects,
    /// every attribute store is well formed, and every name of the
    /// namespace and the list type denote types.
    pub open spec fn wf(&self) -> bool {
        &&& forall|t: int| 0 <= t < self.types@.len() ==> #[trigger] self.type_ok(t)
        &&& forall|i: int| 0 <= i < self.objects@.len() ==> #[trigger] self.object_ok(i)
        &&& forall|k: int|
            0 <= k < self.namespace@.len() ==> (#[trigger] self.namespace@[k]).ty
                < self.types@.len()
        &&& self.list_type < self.types@.len()
    }

    /// A runtime that holds only the list type and an empty namespace.
    pub fn new() -> (r: Runtime)
        ensures
            r.wf(),
            r.types@.len() == 1,
            r.objects@.len() == 0,
            r.namespace@.len() == 0,
            r.list_type == 0,
            r.types@[0].tp_base is None,
    {
        let list = TypeObject { tp_base: None, fields: Vec::new() };
        let mut types: Vec<TypeObject> = Vec::new();
        types.push(list);
        let r = Runtime { types, objects: Vec::new(), namespace: Vec::new(), list_type: 0 };
        assert(r.type_ok(0));
        r
    }

    /// Adds a type and returns its handle, or `None` when the base is not
    /// an existing type.
    pub fn add_type(&mut self, tp_base: Option<usize>, fields: Vec<u64>) -> (r: Option<usize>)
        requires
            old(self).wf(),
        ensures
            final(self).wf(),
            r is Some <==> (tp_base matches Some(b) ==> b < old(self).types@.len()),
            r is Some ==> r->0 == old(self).types@.len() && final(self).types@ == old(
                self,
            ).types@.push(TypeObject { tp_base, fields }),
            r is None ==> *final(self) == *old(self),
            final(self).objects@ == old(self).objects@,
            final(self).namespace@ == old(self).namespace@,
            final(self).list_type == old(self).list_type,
    {
        let n = self.types.len();
        if let Some(b) = tp_base {
            if b >= n {
                return None;
            }
        }
        self.types.push(TypeObject { tp_base, fields });
        proof {
            assert forall|t: int| 0 <= t < self.types@.len() implies #[trigger] self.type_ok(t) by {
                if t < n {
                    assert(old(self).type_ok(t));
                }
            }
            assert forall|i: int| 0 <= i < self.objects@.len() implies #[trigger] self.object_ok(
                i,
            ) by {
                assert(old(self).object_ok(i));
            }
        }
        Some(n)
    }

    /// Binds `name` to the type `ty` in the namespace that defines the node
    /// types; `false`, with nothing changed, when `ty` is not a type.
    pub fn bind_name(&mut self, name: u64, ty: usize) -> (r: bool)
        requires
            old(self).wf(),
        ensures
            final(self).wf(),
            r == (ty < old(self).types@.len()),
            r ==> final(self).namespace@ == old(self).namespace@.push(NamespaceEntry { name, ty }),
            !r ==> final(self).namespace@ == old(self).namespace@,
            final(self).types@ == old(self).types@,
            final(self).objects@ == old(self).objects@,
            final(self).list_type == old(self).list_type,
    {
        if ty >= self.types.len() {
            return false;
        }
        self.namespace.push(NamespaceEntry { name, ty });
        proof {
            assert forall|i: int| 0 <= i < self.objects@.len() implies #[trigger] self.object_ok(
                i,
            ) by {
                assert(old(self).object_ok(i));
            }
            assert forall|t: int| 0 <= t < self.types@.len() implies #[trigger] self.type_ok(t) by {
                assert(old(self).type_ok(t));
            }
        }
        true
    }

    /// Adds an object and returns its handle, or `None` when its type is
    /// not a type, it refers to an object not yet added, or its attribute
    /// store counts more used slots than it holds.
    pub fn add_object(&mut self, obj: PyObj) -> (r: Option<usize>)
        requires
            old(self).wf(),
        ensures
            final(self).wf(),
            r is Some <==> (obj.ob_type < old(self).types@.len() && payload_refs_below(
                obj.payload,
                old(self).objects@.len(),
            )),
            r is Some ==> r->0 == old(self).objects@.len() && final(self).objects@ == old(
                self,
            ).objects@.push(obj),
            r is None ==> final(self).objects@ == old(self).objects@,
            final(self).types@ == old(self).types@,
            final(self).namespace@ == old(self).namespace@,
            final(self).list_type == old(self).list_type,
    {
        let n = self.objects.len();
        if obj.ob_type >= self.types.len() {
            return None;
        }
        let ok = match &obj.payload {
            Payload::Plain => true,
            Payload::List(items) => all_below(items, n),
            Payload::Instance(None) => true,
            Payload::Instance(Some(d)) => {
                if d.dk_nentries > d.dk_entries.len() {
                    false
                } else {
                    let ok = live_values_below(d.unicode_entries(), n);
                    proof {
                        if ok {
                            assert forall|k: int|
                                0 <= k < d.dk_nentries && (#[trigger] d.dk_entries@[k]).me_value is Some
                                implies d.dk_entries@[k].me_value->0 < n by {
                                assert(d.used_slots()[k] == d.dk_entries@[k]);
                            }
                        } else {
                            let k = choose|k: int|
                                0 <= k < d.used_slots().len()
                                    && (#[trigger] d.used_slots()[k]).me_value is Some
                                    && d.used_slots()[k].me_value->0 >= n;
                            assert(d.dk_entries@[k] == d.used_slots()[k]);
                        }
                    }
                    ok
                }
            },
        };
        if !ok {
            return None;
        }
        self.objects.push(obj);
        proof {
            assert forall|i: int| 0 <= i < self.objects@.len() implies #[trigger] self.object_ok(
                i,
            ) by {
                if i < n {
                    assert(old(self).object_ok(i));
                }
            }
            assert forall|t: int| 0 <= t < self.types@.len() implies #[trigger] self.type_ok(t) by {
                assert(old(self).type_ok(t));
            }
        }
        Some(n)
    }
}

fn all_below(items: &Vec<usize>, bound: usize) -> (r: bool)
    ensures
        r == forall|k: int| 0 <= k < items@.len() ==> items@[k] < bound,
{
    let mut i: usize = 0;
    while i < items.len()
        invariant
            i <= items@.len(),
            forall|k: int| 0 <= k < i ==> items@[k] < bound,
        decreases items@.len() - i,
    {
        if items[i] >= bound {
            return false;
        }
        i = i + 1;
    }
    true
}

fn live_values_below(s: &[PyDictUnicodeEntry], bound: usize) -> (r: bool)
    ensures
        r == slots_below(s@, bound as nat),
{
    let mut i: usize = 0;
    while i < s.len()
        invariant
            i <= s@.len(),
            forall|k: int| 0 <= k < i && (#[trigger] s@[k]).me_value is Some ==> s@[k].me_value->0 < bound,
        decreases s@.len() - i,
    {
        if let Some(v) = s[i].me_value {
            if v >= bound {
                return false;
            }
        }
        i = i + 1;
    }
    true
}

} // verus!
