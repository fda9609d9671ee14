use fast_walk::{
    walk, walk_node_iterative, walk_node_recursive, Child, LookupError, NodeTypeRegistry,
    NodeTypeSet, NodeTypeTest, Payload, PyDictKeysObject, PyDictUnicodeEntry, PyObj,
    ReverseDictValuesIter, Runtime, DICT_KEYS_UNICODE,
};

const AST_NAME: u64 = 1000;
const EXPR_NAME: u64 = 1001;
const STMT_NAME: u64 = 1002;

fn keys(kind: u8, slots: &[(u64, Option<usize>)]) -> PyDictKeysObject {
    let entries: Vec<PyDictUnicodeEntry> = slots
        .iter()
        .map(|&(k, v)| PyDictUnicodeEntry { me_key: k, me_value: v })
        .collect();
    PyDictKeysObject {
        dk_log2_size: 3,
        dk_log2_index_bytes: 3,
        dk_kind: kind,
        dk_version: 0,
        dk_usable: 8 - entries.len(),
        dk_nentries: entries.len(),
        dk_entries: entries,
    }
}

fn collect_reverse(d: &PyDictKeysObject) -> Vec<usize> {
    let mut it = ReverseDictValuesIter::new(d);
    let mut out = Vec::new();
    while let Some(v) = it.next() {
        out.push(v);
    }
    out
}

struct Types {
    ast: usize,
    expr: usize,
    stmt: usize,
    name: usize,
    scalar: usize,
}

/// A runtime with a base node type, an expression and a statement category
/// derived from it, a name type derived from the expression category, and a
/// scalar type, all but the scalar bound in the namespace.
fn runtime() -> (Runtime, Types) {
    let mut rt = Runtime::new();
    let ast = rt.add_type(None, vec![]).unwrap();
    let expr = rt.add_type(Some(ast), vec![]).unwrap();
    let stmt = rt.add_type(Some(ast), vec![]).unwrap();
    let name = rt.add_type(Some(expr), vec![10]).unwrap();
    let scalar = rt.add_type(None, vec![]).unwrap();
    assert!(rt.bind_name(AST_NAME, ast));
    assert!(rt.bind_name(EXPR_NAME, expr));
    assert!(rt.bind_name(STMT_NAME, stmt));
    assert!(rt.bind_name(2000, name));
    (rt, Types { ast, expr, stmt, name, scalar })
}

fn node(rt: &mut Runtime, ty: usize, slots: &[(u64, Option<usize>)]) -> usize {
    rt.add_object(PyObj { ob_type: ty, payload: Payload::Instance(Some(keys(DICT_KEYS_UNICODE, slots))) })
        .unwrap()
}

fn scalar(rt: &mut Runtime, ty: usize) -> usize {
    rt.add_object(PyObj { ob_type: ty, payload: Payload::Plain }).unwrap()
}

fn list(rt: &mut Runtime, items: Vec<usize>) -> usize {
    let lt = rt.list_type;
    rt.add_object(PyObj { ob_type: lt, payload: Payload::List(items) }).unwrap()
}

fn walk_exact(rt: &Runtime, root: usize) -> Vec<usize> {
    let mut reg = NodeTypeRegistry::new();
    walk(rt, &mut reg, AST_NAME, None, root).unwrap()
}

#[test]
fn test_empty_dict_no_values() {
    let d = keys(DICT_KEYS_UNICODE, &[]);
    let values = collect_reverse(&d);
    assert_eq!(values.len(), 0);
}

#[test]
fn test_string_keys_dict_values() {
    let d = keys(DICT_KEYS_UNICODE, &[(1, Some(11)), (2, Some(12)), (3, Some(13))]);
    let values = collect_reverse(&d);
    assert_eq!(values.len(), 3);
}

#[test]
fn reverse_iterator_yields_values_last_first() {
    let d = keys(DICT_KEYS_UNICODE, &[(1, Some(11)), (2, Some(12)), (3, Some(13))]);
    assert_eq!(collect_reverse(&d), vec![13, 12, 11]);
    assert_eq!(d.values_forward(), vec![11, 12, 13]);
}

#[test]
fn tombstones_are_skipped_in_both_directions() {
    let d = keys(
        DICT_KEYS_UNICODE,
        &[(1, Some(11)), (2, None), (3, Some(13)), (4, None), (5, Some(15))],
    );
    assert_eq!(d.values_forward(), vec![11, 13, 15]);
    assert_eq!(d.values_reverse(), vec![15, 13, 11]);
    assert_eq!(collect_reverse(&d), vec![15, 13, 11]);
}

#[test]
fn slots_past_the_used_count_are_not_read() {
    let mut d = keys(DICT_KEYS_UNICODE, &[(1, Some(11)), (2, Some(12)), (3, Some(13))]);
    d.dk_nentries = 2;
    assert_eq!(d.values_forward(), vec![11, 12]);
    assert_eq!(d.values_reverse(), vec![12, 11]);
    assert_eq!(d.unicode_entries().len(), 2);
}

#[test]
fn entries_start_after_the_index() {
    let d = keys(DICT_KEYS_UNICODE, &[]);
    assert_eq!(d.entries_ptr(), 8);
    let mut big = keys(DICT_KEYS_UNICODE, &[]);
    big.dk_log2_index_bytes = 10;
    assert_eq!(big.entries_ptr(), 1024);
    assert!(d.is_unicode());
    assert!(!keys(0, &[]).is_unicode());
}

#[test]
fn leaf_walks_to_itself() {
    let (mut rt, t) = runtime();
    let absent = rt.add_object(PyObj { ob_type: t.name, payload: Payload::Instance(None) }).unwrap();
    let empty = node(&mut rt, t.name, &[]);
    let s = scalar(&mut rt, t.scalar);
    let deleted = node(&mut rt, t.name, &[(10, None), (11, None)]);
    let _ = s;
    assert_eq!(walk_exact(&rt, absent), vec![absent]);
    assert_eq!(walk_exact(&rt, empty), vec![empty]);
    assert_eq!(walk_exact(&rt, deleted), vec![deleted]);
}

#[test]
fn child_then_list_in_field_order() {
    let (mut rt, t) = runtime();
    let a = node(&mut rt, t.name, &[]);
    let b = node(&mut rt, t.name, &[]);
    let c = node(&mut rt, t.name, &[]);
    let l = list(&mut rt, vec![b, c]);
    let root = node(&mut rt, t.stmt, &[(20, Some(a)), (21, Some(l))]);
    assert_eq!(walk_exact(&rt, root), vec![root, a, b, c]);
    let mut reg = NodeTypeRegistry::new();
    assert_eq!(walk(&rt, &mut reg, AST_NAME, Some(EXPR_NAME), root).unwrap(), vec![root, a, b, c]);
}

#[test]
fn scalars_are_never_emitted() {
    let (mut rt, t) = runtime();
    let n1 = scalar(&mut rt, t.scalar);
    let n2 = scalar(&mut rt, t.scalar);
    let leaf = node(&mut rt, t.name, &[(30, Some(n1))]);
    let root = node(&mut rt, t.stmt, &[(31, Some(n2)), (32, Some(leaf)), (33, Some(n1))]);
    assert_eq!(walk_exact(&rt, root), vec![root, leaf]);
}

#[test]
fn mixed_list_keeps_nodes_in_order() {
    let (mut rt, t) = runtime();
    let x = node(&mut rt, t.name, &[]);
    let s1 = scalar(&mut rt, t.scalar);
    let y = node(&mut rt, t.name, &[]);
    let s2 = scalar(&mut rt, t.scalar);
    let inner = list(&mut rt, vec![x]);
    let l = list(&mut rt, vec![s1, y, s2, inner, x]);
    let root = node(&mut rt, t.stmt, &[(40, Some(l))]);
    // A list nested in a list is not a node and is not entered.
    assert_eq!(walk_exact(&rt, root), vec![root, y, x]);
}

#[test]
fn nested_preorder() {
    let (mut rt, t) = runtime();
    let d = node(&mut rt, t.name, &[]);
    let c = node(&mut rt, t.name, &[(1, Some(d))]);
    let e = node(&mut rt, t.name, &[]);
    let b = node(&mut rt, t.stmt, &[(1, Some(c)), (2, Some(e))]);
    let f = node(&mut rt, t.name, &[]);
    let l = list(&mut rt, vec![b, f]);
    let root = node(&mut rt, t.stmt, &[(3, Some(l))]);
    assert_eq!(walk_exact(&rt, root), vec![root, b, c, d, e, f]);
}

fn build_tree(rt: &mut Runtime, t: &Types, depth: u32, seed: &mut u64) -> usize {
    *seed = seed.wrapping_mul(6364136223846793005).wrapping_add(1442695040888963407);
    let branching = if depth == 0 { 0 } else { (*seed >> 33) % 6 };
    let mut slots: Vec<(u64, Option<usize>)> = Vec::new();
    for k in 0..branching {
        *seed = seed.wrapping_mul(6364136223846793005).wrapping_add(1442695040888963407);
        let pick = (*seed >> 40) % 4;
        let child = if pick == 0 {
            scalar(rt, t.scalar)
        } else if pick == 1 {
            let a = build_tree(rt, t, depth - 1, seed);
            let s = scalar(rt, t.scalar);
            let b = build_tree(rt, t, depth - 1, seed);
            list(rt, vec![a, s, b])
        } else {
            build_tree(rt, t, depth - 1, seed)
        };
        let value = if pick == 3 && k % 2 == 1 { None } else { Some(child) };
        slots.push((100 + k, value));
    }
    let ty = if depth % 2 == 0 { t.name } else { t.stmt };
    node(rt, ty, &slots)
}

#[test]
fn recursive_and_iterative_agree() {
    for seed0 in 1..30u64 {
        let (mut rt, t) = runtime();
        let mut seed = seed0;
        let root = build_tree(&mut rt, &t, 5, &mut seed);
        let test = NodeTypeTest::Exact(NodeTypeSet { members: vec![t.ast, t.expr, t.stmt, t.name] });
        let mut rec = Vec::new();
        walk_node_recursive(&rt, &test, root, &mut rec);
        let mut it = Vec::new();
        walk_node_iterative(&rt, &test, root, &mut it);
        assert_eq!(rec, it);
        assert!(!rec.is_empty());
        assert_eq!(rec[0], root);
        assert_eq!(rec, walk_exact(&rt, root));
    }
}

#[test]
fn deep_chain_iterative_matches_recursive() {
    let (mut rt, t) = runtime();
    let mut cur = node(&mut rt, t.name, &[]);
    let mut expected = vec![cur];
    for _ in 0..20 {
        cur = node(&mut rt, t.name, &[(7, Some(cur))]);
        expected.push(cur);
    }
    expected.reverse();
    let test = NodeTypeTest::Ancestors { base: t.ast, secondary: t.expr };
    let mut rec = Vec::new();
    walk_node_recursive(&rt, &test, cur, &mut rec);
    let mut it = Vec::new();
    walk_node_iterative(&rt, &test, cur, &mut it);
    assert_eq!(rec, expected);
    assert_eq!(it, expected);
}

#[test]
fn walk_is_idempotent() {
    let (mut rt, t) = runtime();
    let a = node(&mut rt, t.name, &[]);
    let l = list(&mut rt, vec![a, a]);
    let root = node(&mut rt, t.stmt, &[(1, Some(a)), (2, Some(l))]);
    let before = format!("{:?}", rt);
    let mut reg = NodeTypeRegistry::new();
    let first = walk(&rt, &mut reg, AST_NAME, None, root).unwrap();
    let second = walk(&rt, &mut reg, AST_NAME, None, root).unwrap();
    assert_eq!(first, second);
    assert_eq!(first, vec![root, a, a, a]);
    assert_eq!(format!("{:?}", rt), before);
}

#[test]
fn missing_base_type_is_reported_and_retried() {
    let (mut rt, t) = runtime();
    let root = node(&mut rt, t.stmt, &[]);
    let mut reg = NodeTypeRegistry::new();
    assert_eq!(walk(&rt, &mut reg, 4242, None, root), Err(LookupError { name: 4242 }));
    assert!(reg.cache.is_none());
    assert_eq!(
        walk(&rt, &mut reg, AST_NAME, Some(4343), root),
        Err(LookupError { name: 4343 })
    );
    assert!(reg.cache.is_none());
    assert_eq!(walk(&rt, &mut reg, AST_NAME, None, root), Ok(vec![root]));
    assert!(reg.cache.is_some());
    // Once built, the cache answers without resolving again.
    assert_eq!(walk(&rt, &mut reg, 4242, None, root), Ok(vec![root]));
}

#[test]
fn exact_set_sees_deep_subclasses_ancestor_walk_does_not() {
    let (mut rt, t) = runtime();
    // base <- expr <- name <- mid <- deep: four steps from the base.
    let mid = rt.add_type(Some(t.name), vec![]).unwrap();
    let deep = rt.add_type(Some(mid), vec![]).unwrap();
    assert!(rt.bind_name(3000, mid));
    assert!(rt.bind_name(3001, deep));
    let leaf = node(&mut rt, deep, &[]);
    let shallow = node(&mut rt, t.name, &[]);
    let root = node(&mut rt, t.stmt, &[(1, Some(leaf)), (2, Some(shallow))]);

    let mut exact = NodeTypeRegistry::new();
    assert_eq!(walk(&rt, &mut exact, AST_NAME, None, root).unwrap(), vec![root, leaf, shallow]);
    let mut shortcut = NodeTypeRegistry::new();
    assert_eq!(
        walk(&rt, &mut shortcut, AST_NAME, Some(EXPR_NAME), root).unwrap(),
        vec![root, shallow]
    );
}

#[test]
fn exact_set_holds_the_base_and_its_subclasses() {
    let (rt, t) = runtime();
    let set = fast_walk::registry::build_node_type_set(&rt, t.ast);
    assert_eq!(set.members, vec![t.ast, t.expr, t.stmt, t.name]);
    assert!(fast_walk::registry::is_subclass_of(&rt, t.name, t.ast));
    assert!(!fast_walk::registry::is_subclass_of(&rt, t.scalar, t.ast));
    assert_eq!(fast_walk::registry::resolve(&rt, EXPR_NAME), Some(t.expr));
    assert_eq!(fast_walk::registry::resolve(&rt, 9), None);
}

#[test]
fn ancestor_walk_misses_the_base_itself() {
    let (mut rt, t) = runtime();
    let base_obj = node(&mut rt, t.ast, &[]);
    let name_obj = node(&mut rt, t.name, &[]);
    let test = NodeTypeTest::Ancestors { base: t.ast, secondary: t.expr };
    assert_eq!(fast_walk::classify(&rt, &test, base_obj), Child::Scalar);
    assert_eq!(fast_walk::classify(&rt, &test, name_obj), Child::Node);
    let exact = NodeTypeTest::Exact(NodeTypeSet { members: vec![t.ast] });
    assert_eq!(fast_walk::classify(&rt, &exact, base_obj), Child::Node);
}

#[test]
fn classify_kinds() {
    let (mut rt, t) = runtime();
    let n = node(&mut rt, t.name, &[]);
    let s = scalar(&mut rt, t.scalar);
    let l = list(&mut rt, vec![n, s]);
    let test = NodeTypeTest::Exact(NodeTypeSet { members: vec![t.name] });
    assert_eq!(fast_walk::classify(&rt, &test, n), Child::Node);
    assert_eq!(fast_walk::classify(&rt, &test, s), Child::Scalar);
    assert_eq!(fast_walk::classify(&rt, &test, l), Child::NodeList);
    assert_eq!(fast_walk::get_length_of_list(&rt, l), 2);
    assert_eq!(fast_walk::get_item_of_list(&rt, l, 1), s);
    assert!(fast_walk::is_list(&rt, l));
    assert!(!fast_walk::is_list(&rt, n));
}

#[test]
fn general_store_falls_back_to_declared_fields() {
    let (mut rt, t) = runtime();
    // Fields declared as [10, 11, 12]; the store holds them in another order.
    let ty = rt.add_type(Some(t.stmt), vec![10, 11, 12]).unwrap();
    let a = node(&mut rt, t.name, &[]);
    let b = node(&mut rt, t.name, &[]);
    let store = keys(0, &[(12, Some(b)), (99, Some(a)), (10, Some(a)), (11, None)]);
    let root = rt.add_object(PyObj { ob_type: ty, payload: Payload::Instance(Some(store)) }).unwrap();
    assert_eq!(fast_walk::attribute_values(&rt, root, false), vec![a, b]);
    assert_eq!(fast_walk::attribute_values(&rt, root, true), vec![b, a]);
    assert_eq!(walk_exact(&rt, root), vec![root, a, b]);
}

#[test]
fn unicode_store_is_read_in_insertion_order() {
    let (mut rt, t) = runtime();
    let ty = rt.add_type(Some(t.stmt), vec![10, 11, 12]).unwrap();
    let a = node(&mut rt, t.name, &[]);
    let b = node(&mut rt, t.name, &[]);
    let root = node(&mut rt, ty, &[(12, Some(b)), (10, Some(a))]);
    assert_eq!(fast_walk::attribute_values(&rt, root, false), vec![b, a]);
    assert_eq!(walk_exact(&rt, root), vec![root, b, a]);
}

#[test]
fn lookup_finds_live_slot() {
    let d = keys(0, &[(1, None), (2, Some(5)), (1, Some(6))]);
    assert_eq!(fast_walk::lookup(d.unicode_entries(), 1), Some(6));
    assert_eq!(fast_walk::lookup(d.unicode_entries(), 2), Some(5));
    assert_eq!(fast_walk::lookup(d.unicode_entries(), 3), None);
}

#[test]
fn builders_reject_forward_references() {
    let (mut rt, t) = runtime();
    assert_eq!(rt.add_type(Some(999), vec![]), None);
    assert!(!rt.bind_name(5, 999));
    let n = rt.objects.len();
    assert_eq!(rt.add_object(PyObj { ob_type: t.name, payload: Payload::List(vec![n]) }), None);
    assert_eq!(rt.add_object(PyObj { ob_type: 999, payload: Payload::Plain }), None);
    let bad = keys(DICT_KEYS_UNICODE, &[(1, Some(n + 3))]);
    assert_eq!(rt.add_object(PyObj { ob_type: t.name, payload: Payload::Instance(Some(bad)) }), None);
    let mut short = keys(DICT_KEYS_UNICODE, &[]);
    short.dk_nentries = 1;
    assert_eq!(rt.add_object(PyObj { ob_type: t.name, payload: Payload::Instance(Some(short)) }), None);
    // A tombstone past the object's own number is fine.
    let ok = keys(DICT_KEYS_UNICODE, &[(1, None)]);
    assert_eq!(rt.add_object(PyObj { ob_type: t.name, payload: Payload::Instance(Some(ok)) }), Some(n));
}
