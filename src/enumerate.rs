use crate::heap::{Payload, Runtime};
use crate::pydict::{PyDictKeysObject, PyDictUnicodeEntry};
use crate::walk::{attr_values, lookup_spec, reflective_values};
use vstd::prelude::*;

verus! {

/// The attribute store of object `obj`, when it has one.
pub fn get_instance_dict_fast(rt: &Runtime, obj: usize) -> (r: Option<&PyDictKeysObject>)
    requires
        rt.wf(),
        obj < rt.objects@.len(),
    ensures
        match rt.objects@[obj as int].payload {
            Payload::Instance(Some(d)) => r == Some(&d) && d.wf(),
            _ => r is None,
        },
{
    assert(rt.object_ok(obj as int));
    match &rt.objects[obj].payload {
        Payload::Instance(Some(d)) => Some(d),
        _ => None,
    }
}

/// The value bound to `key` in the used slots `s`, found by a scan.
pub fn lookup(s: &[PyDictUnicodeEntry], key: u64) -> (r: Option<usize>)
    ensures
        r == lookup_spec(s@, key),
{
    let mut j: usize = 0;
    assert(s@.subrange(0, s@.len() as int) =~= s@);
    while j < s.len()
        invariant
            j <= s@.len(),
            lookup_spec(s@, key) == lookup_spec(s@.subrange(j as int, s@.len() as int), key),
        decreases s@.len() - j,
    {
        let e = s[j];
        assert(s@.subrange(j as int, s@.len() as int).drop_first() =~= s@.subrange(
            j + 1,
            s@.len() as int,
        ));
        assert(s@.subrange(j as int, s@.len() as int)[0] == e);
        if e.me_value.is_some() && e.me_key == key {
            return e.me_value;
        }
        j = j + 1;
    }
    None
}

/// The reflective strategy: looks up each declared field name in turn and
/// keeps what is found, skipping missing attributes.
pub fn reflective_attribute_values(fields: &Vec<u64>, d: &PyDictKeysObject) -> (r: Vec<usize>)
    requires
        d.wf(),
    ensures
        r@ == reflective_values(fields@, d.used_slots()),
{
    let s = d.unicode_entries();
    let mut r: Vec<usize> = Vec::new();
    let mut i: usize = 0;
    while i < fields.len()
        invariant
            i <= fields@.len(),
            s@ == d.used_slots(),
            r@ == reflective_values(fields@.subrange(0, i as int), s@),
        decreases fields@.len() - i,
    {
        let name = fields[i];
        assert(fields@.subrange(0, i + 1).drop_last() =~= fields@.subrange(0, i as int));
        if let Some(v) = lookup(s, name) {
            r.push(v);
        }
        i = i + 1;
    }
    assert(fields@.subrange(0, fields@.len() as int) =~= fields@);
    r
}

fn reversed(v: Vec<usize>) -> (r: Vec<usize>)
    ensures
        r@ == v@.reverse(),
{
    let mut r: Vec<usize> = Vec::new();
    let mut i: usize = v.len();
    while i > 0
        invariant
            i <= v@.len(),
            r@ == v@.subrange(i as int, v@.len() as int).reverse(),
        decreases i,
    {
        i = i - 1;
        r.push(v[i]);
        assert(r@ =~= v@.subrange(i as int, v@.len() as int).reverse());
    }
    r
}

/// The attribute values of object `obj`, forward or reversed.
///
/// A text-keyed store is decoded directly, in one pass over its entry
/// array; any other store falls back to the reflective strategy over the
/// fields that the object's type declares; an object without a store has
/// none.
pub fn attribute_values(rt: &Runtime, obj: usize, reverse: bool) -> (r: Vec<usize>)
    requires
        rt.wf(),
        obj < rt.objects@.len(),
    ensures
        r@ == if reverse {
            attr_values(*rt, obj).reverse()
        } else {
            attr_values(*rt, obj)
        },
{
    match get_instance_dict_fast(rt, obj) {
        None => {
            let r: Vec<usize> = Vec::new();
            assert(r@ =~= attr_values(*rt, obj).reverse());
            r
        },
        Some(d) => {
            if d.is_unicode() {
                if reverse {
                    d.values_reverse()
                } else {
                    d.values_forward()
                }
            } else {
                let ty = rt.objects[obj].ob_type;
                assert(rt.object_ok(obj as int));
                let vals = reflective_attribute_values(&rt.types[ty].fields, d);
                if reverse {
                    reversed(vals)
                } else {
                    vals
                }
            }
        },
    }
}

} // verus!
