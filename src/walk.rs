use crate::heap::{Payload, Runtime};
use crate::pydict::{DICT_KEYS_UNICODE, PyDictUnicodeEntry, live_values};
use crate::enumerate::attribute_values;
use crate::registry::{
    LookupError, NodeTypeRegistry, NodeTypeTest, build_error, resolve_spec, secondary_of,
};
use vstd::prelude::*;

verus! {

/// What an attribute value is to the walk.
#[derive(Clone, Copy, Debug, PartialEq, Eq, Structural)]
pub enum Child {
    /// A node: visited.
    Node,
    /// A built-in list: its node elements are visited, the rest skipped.
    NodeList,
    /// Anything else: ignored.
    Scalar,
}

/// Classifies the object `v`: a node when its type passes the node-type
/// test, a list when its type is exactly the built-in list type.
pub open spec fn classify_spec(rt: Runtime, test: NodeTypeTest, v: usize) -> Child {
    let ty = rt.objects@[v as int].ob_type;
    if test.holds(rt, ty as nat) {
        Child::Node
    } else if ty == rt.list_type {
        Child::NodeList
    } else {
        Child::Scalar
    }
}

pub open spec fn is_node(rt: Runtime, test: NodeTypeTest, v: usize) -> bool {
    classify_spec(rt, test, v) == Child::Node
}

/// The elements of the list object `v`.
pub open spec fn list_items(rt: Runtime, v: usize) -> Seq<usize> {
    match rt.objects@[v as int].payload {
        Payload::List(items) => items@,
        _ => Seq::empty(),
    }
}

/// The node elements of `items`, in order.
pub open spec fn list_nodes(rt: Runtime, test: NodeTypeTest, items: Seq<usize>) -> Seq<usize>
    decreases items.len(),
{
    if items.len() == 0 {
        Seq::empty()
    } else {
        let head = if is_node(rt, test, items[0]) {
            seq![items[0]]
        } else {
            Seq::empty()
        };
        head + list_nodes(rt, test, items.drop_first())
    }
}

/// The nodes that one attribute value contributes to its owner's children.
pub open spec fn value_children(rt: Runtime, test: NodeTypeTest, v: usize) -> Seq<usize> {
    match classify_spec(rt, test, v) {
        Child::Node => seq![v],
        Child::NodeList => list_nodes(rt, test, list_items(rt, v)),
        Child::Scalar => Seq::empty(),
    }
}

/// The children contributed by a sequence of attribute values, in order.
pub open spec fn children_of_values(rt: Runtime, test: NodeTypeTest, vals: Seq<usize>) -> Seq<
    usize,
>
    decreases vals.len(),
{
    if vals.len() == 0 {
        Seq::empty()
    } else {
        value_children(rt, test, vals[0]) + children_of_values(rt, test, vals.drop_first())
    }
}

/// The value of the first live slot of `s` whose key is `key`.
pub open spec fn lookup_spec(s: Seq<PyDictUnicodeEntry>, key: u64) -> Option<usize>
    decreases s.len(),
{
    if s.len() == 0 {
        None
    } else if s[0].me_value is Some && s[0].me_key == key {
        s[0].me_value
    } else {
        lookup_spec(s.drop_first(), key)
    }
}

/// The values that looking up each declared field in turn finds, a
/// missing attribute being skipped.
pub open spec fn reflective_values(fields: Seq<u64>, s: Seq<PyDictUnicodeEntry>) -> Seq<usize>
    decreases fields.len(),
{
    if fields.len() == 0 {
        Seq::empty()
    } else {
        let rest = reflective_values(fields.drop_last(), s);
        match lookup_spec(s, fields.last()) {
            Some(v) => rest.push(v),
            None => rest,
        }
    }
}

/// The attribute values of object `i`, in forward order: read directly
/// from a text-keyed store, looked up by declared field name in any other
/// store, none without a store.
pub open spec fn attr_values(rt: Runtime, i: usize) -> Seq<usize> {
    let o = rt.objects@[i as int];
    match o.payload {
        Payload::Instance(Some(d)) => if d.dk_kind == DICT_KEYS_UNICODE {
            d.values_spec()
        } else {
            reflective_values(rt.types@[o.ob_type as int].fields@, d.used_slots())
        },
        _ => Seq::empty(),
    }
}

/// The children of object `i`, in the order the walk visits them.
pub open spec fn children(rt: Runtime, test: NodeTypeTest, i: usize) -> Seq<usize> {
    children_of_values(rt, test, attr_values(rt, i))
}

/// The preorder depth-first walk from `i`: `i` itself, then the walk of
/// each child in turn.
pub open spec fn walk_spec(rt: Runtime, test: NodeTypeTest, i: usize) -> Seq<usize>
    decreases i, 1nat, 0nat,
{
    seq![i] + walk_all(rt, test, children(rt, test, i), i)
}

/// The walks of the members of `s` below `bound`, one after the other.
pub open spec fn walk_all(rt: Runtime, test: NodeTypeTest, s: Seq<usize>, bound: usize) -> Seq<
    usize,
>
    decreases bound, 0nat, s.len(),
{
    if s.len() == 0 {
        Seq::empty()
    } else if s[0] < bound {
        walk_spec(rt, test, s[0]) + walk_all(rt, test, s.drop_first(), bound)
    } else {
        walk_all(rt, test, s.drop_first(), bound)
    }
}

/// What remains to be emitted for a stack of pending nodes, top first.
pub open spec fn walk_stack(rt: Runtime, test: NodeTypeTest, st: Seq<usize>) -> Seq<usize>
    decreases st.len(),
{
    if st.len() == 0 {
        Seq::empty()
    } else {
        walk_spec(rt, test, st.last()) + walk_stack(rt, test, st.drop_last())
    }
}

pub open spec fn all_below(s: Seq<usize>, bound: usize) -> bool {
    forall|k: int| 0 <= k < s.len() ==> s[k] < bound
}

/// Every member of `s` is an object of `rt`.
pub open spec fn in_heap(s: Seq<usize>, rt: Runtime) -> bool {
    forall|k: int| 0 <= k < s.len() ==> s[k] < rt.objects@.len()
}

proof fn lemma_children_concat(rt: Runtime, test: NodeTypeTest, a: Seq<usize>, b: Seq<usize>)
    ensures
        children_of_values(rt, test, a + b) == children_of_values(rt, test, a)
            + children_of_values(rt, test, b),
    decreases a.len(),
{
    if a.len() == 0 {
        assert(a + b =~= b);
    } else {
        assert((a + b).drop_first() =~= a.drop_first() + b);
        lemma_children_concat(rt, test, a.drop_first(), b);
    }
}

proof fn lemma_list_nodes_concat(rt: Runtime, test: NodeTypeTest, a: Seq<usize>, b: Seq<usize>)
    ensures
        list_nodes(rt, test, a + b) == list_nodes(rt, test, a) + list_nodes(rt, test, b),
    decreases a.len(),
{
    if a.len() == 0 {
        assert(a + b =~= b);
    } else {
        assert((a + b).drop_first() =~= a.drop_first() + b);
        lemma_list_nodes_concat(rt, test, a.drop_first(), b);
    }
}

proof fn lemma_walk_all_concat(
    rt: Runtime,
    test: NodeTypeTest,
    a: Seq<usize>,
    b: Seq<usize>,
    bound: usize,
)
    ensures
        walk_all(rt, test, a + b, bound) == walk_all(rt, test, a, bound) + walk_all(
            rt,
            test,
            b,
            bound,
        ),
    decreases a.len(),
{
    if a.len() == 0 {
        assert(a + b =~= b);
    } else {
        assert((a + b).drop_first() =~= a.drop_first() + b);
        lemma_walk_all_concat(rt, test, a.drop_first(), b, bound);
    }
}

/// Pushing `s` reversed onto a stack puts the walks of `s`, in order, in
/// front of what the stack had pending.
proof fn lemma_walk_stack_push_reversed(
    rt: Runtime,
    test: NodeTypeTest,
    base: Seq<usize>,
    s: Seq<usize>,
    bound: usize,
)
    requires
        all_below(s, bound),
    ensures
        walk_stack(rt, test, base + s.reverse()) == walk_all(rt, test, s, bound) + walk_stack(
            rt,
            test,
            base,
        ),
    decreases s.len(),
{
    if s.len() == 0 {
        assert(base + s.reverse() =~= base);
    } else {
        let t = s.drop_first();
        assert(base + s.reverse() =~= (base + t.reverse()).push(s[0]));
        assert((base + s.reverse()).drop_last() =~= base + t.reverse());
        lemma_walk_stack_push_reversed(rt, test, base, t, bound);
    }
}

proof fn lemma_live_values_from_slots(s: Seq<PyDictUnicodeEntry>, bound: usize)
    requires
        forall|k: int|
            0 <= k < s.len() && (#[trigger] s[k]).me_value is Some ==> s[k].me_value->0 < bound,
    ensures
        all_below(live_values(s), bound),
    decreases s.len(),
{
    if s.len() > 0 {
        lemma_live_values_from_slots(s.drop_last(), bound);
        assert(s.drop_last().len() == s.len() - 1);
        assert(s[s.len() - 1] == s.last());
    }
}

proof fn lemma_lookup_below(s: Seq<PyDictUnicodeEntry>, key: u64, bound: usize)
    requires
        forall|k: int|
            0 <= k < s.len() && (#[trigger] s[k]).me_value is Some ==> s[k].me_value->0 < bound,
    ensures
        lookup_spec(s, key) matches Some(v) ==> v < bound,
    decreases s.len(),
{
    if s.len() > 0 {
        assert forall|k: int|
            0 <= k < s.drop_first().len() && (#[trigger] s.drop_first()[k]).me_value is Some
            implies s.drop_first()[k].me_value->0 < bound by {
            assert(s.drop_first()[k] == s[k + 1]);
        }
        lemma_lookup_below(s.drop_first(), key, bound);
    }
}

proof fn lemma_reflective_below(fields: Seq<u64>, s: Seq<PyDictUnicodeEntry>, bound: usize)
    requires
        forall|k: int|
            0 <= k < s.len() && (#[trigger] s[k]).me_value is Some ==> s[k].me_value->0 < bound,
    ensures
        all_below(reflective_values(fields, s), bound),
    decreases fields.len(),
{
    if fields.len() > 0 {
        lemma_reflective_below(fields.drop_last(), s, bound);
        lemma_lookup_below(s, fields.last(), bound);
    }
}

/// The attribute values of an object are earlier objects.
proof fn lemma_attr_values_below(rt: Runtime, i: usize)
    requires
        rt.wf(),
        i < rt.objects@.len(),
    ensures
        all_below(attr_values(rt, i), i),
{
    assert(rt.object_ok(i as int));
    let o = rt.objects@[i as int];
    if let Payload::Instance(Some(d)) = o.payload {
        let s = d.used_slots();
        assert forall|k: int| 0 <= k < s.len() && (#[trigger] s[k]).me_value is Some implies s[k].me_value->0
            < i by {
            assert(s[k] == d.dk_entries@[k]);
        }
        lemma_live_values_from_slots(s, i);
        lemma_reflective_below(rt.types@[o.ob_type as int].fields@, s, i);
    }
}

proof fn lemma_list_nodes_subset(rt: Runtime, test: NodeTypeTest, items: Seq<usize>, bound: usize)
    requires
        all_below(items, bound),
    ensures
        all_below(list_nodes(rt, test, items), bound),
    decreases items.len(),
{
    if items.len() > 0 {
        lemma_list_nodes_subset(rt, test, items.drop_first(), bound);
    }
}

proof fn lemma_children_of_values_below(
    rt: Runtime,
    test: NodeTypeTest,
    vals: Seq<usize>,
    bound: usize,
)
    requires
        rt.wf(),
        all_below(vals, bound),
        bound <= rt.objects@.len(),
    ensures
        all_below(children_of_values(rt, test, vals), bound),
    decreases vals.len(),
{
    if vals.len() > 0 {
        let v = vals[0];
        lemma_children_of_values_below(rt, test, vals.drop_first(), bound);
        if classify_spec(rt, test, v) == Child::NodeList {
            assert(rt.object_ok(v as int));
            lemma_list_nodes_subset(rt, test, list_items(rt, v), v);
        }
    }
}

/// Every child of an object is an earlier object.
pub proof fn lemma_children_below(rt: Runtime, test: NodeTypeTest, i: usize)
    requires
        rt.wf(),
        i < rt.objects@.len(),
    ensures
        all_below(children(rt, test, i), i),
{
    lemma_attr_values_below(rt, i);
    lemma_children_of_values_below(rt, test, attr_values(rt, i), i);
}


/// Whether object `obj` is a node: its type passes the node-type test.
pub fn isinstance_of_ast(rt: &Runtime, test: &NodeTypeTest, obj: usize) -> (r: bool)
    requires
        rt.wf(),
        obj < rt.objects@.len(),
    ensures
        r == is_node(*rt, *test, obj),
{
    assert(rt.object_ok(obj as int));
    test.contains(rt, rt.objects[obj].ob_type)
}

/// Whether object `obj` is exactly of the built-in list type.
pub fn is_list(rt: &Runtime, obj: usize) -> (r: bool)
    requires
        obj < rt.objects@.len(),
    ensures
        r == (rt.objects@[obj as int].ob_type == rt.list_type),
{
    rt.objects[obj].ob_type == rt.list_type
}

/// Number of elements of the list object `obj`.
pub fn get_length_of_list(rt: &Runtime, obj: usize) -> (r: usize)
    requires
        obj < rt.objects@.len(),
    ensures
        r == list_items(*rt, obj).len(),
{
    match &rt.objects[obj].payload {
        Payload::List(items) => items.len(),
        _ => 0,
    }
}

/// Element `index` of the list object `obj`.
pub fn get_item_of_list(rt: &Runtime, obj: usize, index: usize) -> (r: usize)
    requires
        obj < rt.objects@.len(),
        index < list_items(*rt, obj).len(),
    ensures
        r == list_items(*rt, obj)[index as int],
{
    match &rt.objects[obj].payload {
        Payload::List(items) => items[index],
        _ => 0,
    }
}

/// Classifies an attribute value.
pub fn classify(rt: &Runtime, test: &NodeTypeTest, v: usize) -> (r: Child)
    requires
        rt.wf(),
        v < rt.objects@.len(),
    ensures
        r == classify_spec(*rt, *test, v),
{
    if isinstance_of_ast(rt, test, v) {
        Child::Node
    } else if is_list(rt, v) {
        Child::NodeList
    } else {
        Child::Scalar
    }
}

proof fn lemma_single_value(rt: Runtime, test: NodeTypeTest, v: usize)
    ensures
        children_of_values(rt, test, seq![v]) == value_children(rt, test, v),
{
    assert(seq![v].len() == 1 && seq![v][0] == v);
    assert(seq![v].drop_first() =~= Seq::<usize>::empty());
    assert(children_of_values(rt, test, Seq::<usize>::empty()) == Seq::<usize>::empty());
    assert(value_children(rt, test, v) + Seq::<usize>::empty() =~= value_children(rt, test, v));
}

proof fn lemma_walk_single(rt: Runtime, test: NodeTypeTest, v: usize, bound: usize)
    requires
        v < bound,
    ensures
        walk_all(rt, test, seq![v], bound) == walk_spec(rt, test, v),
{
    assert(seq![v].len() == 1 && seq![v][0] == v);
    assert(seq![v].drop_first() =~= Seq::<usize>::empty());
    assert(walk_all(rt, test, Seq::<usize>::empty(), bound) == Seq::<usize>::empty());
    assert(walk_spec(rt, test, v) + Seq::<usize>::empty() =~= walk_spec(rt, test, v));
}

proof fn lemma_list_single(rt: Runtime, test: NodeTypeTest, x: usize)
    ensures
        list_nodes(rt, test, seq![x]) == if is_node(rt, test, x) {
            seq![x]
        } else {
            Seq::<usize>::empty()
        },
{
    assert(seq![x].len() == 1 && seq![x][0] == x);
    assert(seq![x].drop_first() =~= Seq::<usize>::empty());
    assert(list_nodes(rt, test, Seq::<usize>::empty()) == Seq::<usize>::empty());
    assert(seq![x] + Seq::<usize>::empty() =~= seq![x]);
    assert(Seq::<usize>::empty() + Seq::<usize>::empty() =~= Seq::<usize>::empty());
}

/// The recursive strategy: appends the preorder walk from `node`.
pub fn walk_node_recursive(
    rt: &Runtime,
    test: &NodeTypeTest,
    node: usize,
    result_list: &mut Vec<usize>,
)
    requires
        rt.wf(),
        node < rt.objects@.len(),
    ensures
        final(result_list)@ == old(result_list)@ + walk_spec(*rt, *test, node),
    decreases node,
{
    result_list.push(node);
    let ghost pre = result_list@;
    let vals = attribute_values(rt, node, false);
    proof {
        lemma_attr_values_below(*rt, node);
    }
    let mut k: usize = 0;
    while k < vals.len()
        invariant
            rt.wf(),
            node < rt.objects@.len(),
            vals@ == attr_values(*rt, node),
            all_below(vals@, node),
            k <= vals@.len(),
            result_list@ == pre + walk_all(
                *rt,
                *test,
                children_of_values(*rt, *test, vals@.subrange(0, k as int)),
                node,
            ),
        decreases vals@.len() - k,
    {
        let v = vals[k];
        let ghost before = children_of_values(*rt, *test, vals@.subrange(0, k as int));
        proof {
            assert(vals@.subrange(0, k + 1) =~= vals@.subrange(0, k as int) + seq![v]);
            lemma_children_concat(*rt, *test, vals@.subrange(0, k as int), seq![v]);
            lemma_single_value(*rt, *test, v);
            lemma_walk_all_concat(*rt, *test, before, value_children(*rt, *test, v), node);
        }
        match classify(rt, test, v) {
            Child::Node => {
                walk_node_recursive(rt, test, v, result_list);
                proof {
                    lemma_walk_single(*rt, *test, v, node);
                }
            },
            Child::NodeList => {
                let n = get_length_of_list(rt, v);
                let ghost items = list_items(*rt, v);
                let ghost mid = result_list@;
                proof {
                    assert(rt.object_ok(v as int));
                }
                let mut j: usize = 0;
                while j < n
                    invariant
                        rt.wf(),
                        v < node,
                        node < rt.objects@.len(),
                        items == list_items(*rt, v),
                        n == items.len(),
                        all_below(items, v),
                        j <= n,
                        result_list@ == mid + walk_all(
                            *rt,
                            *test,
                            list_nodes(*rt, *test, items.subrange(0, j as int)),
                            node,
                        ),
                    decreases n - j,
                {
                    let x = get_item_of_list(rt, v, j);
                    proof {
                        let a = list_nodes(*rt, *test, items.subrange(0, j as int));
                        assert(items.subrange(0, j + 1) =~= items.subrange(0, j as int) + seq![x]);
                        lemma_list_nodes_concat(*rt, *test, items.subrange(0, j as int), seq![x]);
                        lemma_list_single(*rt, *test, x);
                        lemma_walk_all_concat(*rt, *test, a, list_nodes(*rt, *test, seq![x]), node);
                        assert(walk_all(*rt, *test, Seq::<usize>::empty(), node) =~= Seq::<usize>::empty());
                    }
                    if isinstance_of_ast(rt, test, x) {
                        walk_node_recursive(rt, test, x, result_list);
                        proof {
                            lemma_walk_single(*rt, *test, x, node);
                        }
                    }
                    j = j + 1;
                }
                assert(items.subrange(0, n as int) =~= items);
            },
            Child::Scalar => {},
        }
        k = k + 1;
    }
    assert(vals@.subrange(0, vals@.len() as int) =~= vals@);
}

/// The iterative strategy: appends the same preorder walk from `node`,
/// keeping pending nodes on a stack instead of the call stack. Each node's
/// attribute values are read in reverse and its children pushed in
/// reverse, so that they come off the stack left to right.
pub fn walk_node_iterative(
    rt: &Runtime,
    test: &NodeTypeTest,
    node: usize,
    result_list: &mut Vec<usize>,
)
    requires
        rt.wf(),
        node < rt.objects@.len(),
    ensures
        final(result_list)@ == old(result_list)@ + walk_spec(*rt, *test, node),
{
    let mut stack: Vec<usize> = Vec::new();
    stack.push(node);
    proof {
        assert(stack@.drop_last() =~= Seq::<usize>::empty());
        assert(walk_stack(*rt, *test, Seq::<usize>::empty()) == Seq::<usize>::empty());
        assert(walk_spec(*rt, *test, node) + Seq::<usize>::empty() =~= walk_spec(*rt, *test, node));
    }
    while stack.len() > 0
        invariant
            rt.wf(),
            in_heap(stack@, *rt),
            result_list@ + walk_stack(*rt, *test, stack@) == old(result_list)@ + walk_spec(
                *rt,
                *test,
                node,
            ),
        decreases walk_stack(*rt, *test, stack@).len(),
    {
        let ghost whole = stack@;
        let cur = stack.pop().unwrap();
        let ghost rest = stack@;
        assert(rest =~= whole.drop_last());
        result_list.push(cur);
        let vals = attribute_values(rt, cur, true);
        let ghost fwd = attr_values(*rt, cur);
        let ghost n = fwd.len();
        proof {
            lemma_attr_values_below(*rt, cur);
            assert(fwd.subrange(n as int, n as int) =~= Seq::<usize>::empty());
            assert(stack@ =~= rest + children_of_values(*rt, *test, fwd.subrange(n as int, n as int)).reverse());
        }
        let mut k: usize = 0;
        while k < vals.len()
            invariant
                rt.wf(),
                cur < rt.objects@.len(),
                fwd == attr_values(*rt, cur),
                n == fwd.len(),
                vals@ == fwd.reverse(),
                all_below(fwd, cur),
                in_heap(stack@, *rt),
                k <= n,
                stack@ == rest + children_of_values(
                    *rt,
                    *test,
                    fwd.subrange(n - k, n as int),
                ).reverse(),
            decreases n - k,
        {
            let v = vals[k];
            let ghost tail = children_of_values(*rt, *test, fwd.subrange(n - k, n as int));
            let ghost s0 = stack@;
            proof {
                let a = fwd.subrange(n - k - 1, n as int);
                assert(a[0] == v);
                assert(a.drop_first() =~= fwd.subrange(n - k, n as int));
                assert((value_children(*rt, *test, v) + tail).reverse() =~= tail.reverse()
                    + value_children(*rt, *test, v).reverse());
            }
            match classify(rt, test, v) {
                Child::Node => {
                    stack.push(v);
                    assert(stack@ =~= s0 + seq![v].reverse());
                },
                Child::NodeList => {
                    let len = get_length_of_list(rt, v);
                    let ghost items = list_items(*rt, v);
                    proof {
                        assert(rt.object_ok(v as int));
                        assert(items.subrange(len as int, len as int) =~= Seq::<usize>::empty());
                        assert(stack@ =~= s0 + list_nodes(*rt, *test, items.subrange(len as int, len as int)).reverse());
                    }
                    let mut j: usize = len;
                    while j > 0
                        invariant
                            rt.wf(),
                            v < cur,
                            cur < rt.objects@.len(),
                            items == list_items(*rt, v),
                            len == items.len(),
                            all_below(items, v),
                            in_heap(stack@, *rt),
                            j <= len,
                            stack@ == s0 + list_nodes(
                                *rt,
                                *test,
                                items.subrange(j as int, len as int),
                            ).reverse(),
                        decreases j,
                    {
                        j = j - 1;
                        let x = get_item_of_list(rt, v, j);
                        let ghost s1 = stack@;
                        let ghost after = list_nodes(*rt, *test, items.subrange(j + 1, len as int));
                        proof {
                            let a = items.subrange(j as int, len as int);
                            assert(a[0] == x);
                            assert(a.drop_first() =~= items.subrange(j + 1, len as int));
                        }
                        if isinstance_of_ast(rt, test, x) {
                            stack.push(x);
                            assert((seq![x] + after).reverse() =~= after.reverse() + seq![x]);
                            assert(stack@ =~= s0 + (seq![x] + after).reverse());
                        } else {
                            assert(Seq::<usize>::empty() + after =~= after);
                        }
                    }
                    assert(items.subrange(0, len as int) =~= items);
                },
                Child::Scalar => {
                    assert(value_children(*rt, *test, v).reverse() =~= Seq::<usize>::empty());
                    assert(stack@ =~= s0 + value_children(*rt, *test, v).reverse());
                },
            }
            proof {
                assert(stack@ =~= rest + children_of_values(
                    *rt,
                    *test,
                    fwd.subrange(n - k - 1, n as int),
                ).reverse());
            }
            k = k + 1;
        }
        proof {
            assert(fwd.subrange(0, n as int) =~= fwd);
            lemma_children_below(*rt, *test, cur);
            lemma_walk_stack_push_reversed(*rt, *test, rest, children(*rt, *test, cur), cur);
        }
    }
}


/// Walks the tree under `node` and returns every node met, in preorder,
/// with the node-type test of `registry`, which is built on first use.
///
/// Fails only when the test has to be built and a type name does not
/// resolve; the cache then stays empty, so that a later call tries again.
pub fn walk(
    rt: &Runtime,
    registry: &mut NodeTypeRegistry,
    base_name: u64,
    secondary_name: Option<u64>,
    node: usize,
) -> (r: Result<Vec<usize>, LookupError>)
    requires
        rt.wf(),
        node < rt.objects@.len(),
    ensures
        old(registry).cache is Some ==> final(registry).cache == old(registry).cache && r is Ok,
        old(registry).cache is None ==> {
            &&& r is Err <==> build_error(*rt, base_name, secondary_name) is Some
            &&& r is Err ==> r->Err_0 == build_error(*rt, base_name, secondary_name)->0
                && final(registry).cache is None
            &&& r is Ok ==> final(registry).cache is Some && final(registry).cache->0.is_built_from(
                *rt,
                resolve_spec(rt.namespace@, base_name)->0,
                secondary_of(*rt, secondary_name),
            )
        },
        r is Ok ==> final(registry).cache is Some && r->Ok_0@ == walk_spec(
            *rt,
            final(registry).cache->0,
            node,
        ),
{
    match registry.get_or_build(rt, base_name, secondary_name) {
        Err(e) => Err(e),
        Ok(()) => {
            let mut result_list: Vec<usize> = Vec::new();
            match &registry.cache {
                Some(test) => walk_node_iterative(rt, test, node, &mut result_list),
                None => {},
            }
            Ok(result_list)
        },
    }
}

/// Object `i` has no attribute store, or one without a live slot.
pub open spec fn has_no_attributes(rt: Runtime, i: usize) -> bool {
    match rt.objects@[i as int].payload {
        Payload::Instance(Some(d)) => forall|k: int|
            0 <= k < d.dk_nentries ==> (#[trigger] d.dk_entries@[k]).me_value is None,
        _ => true,
    }
}

proof fn lemma_no_live_slots(s: Seq<PyDictUnicodeEntry>, fields: Seq<u64>)
    requires
        forall|k: int| 0 <= k < s.len() ==> (#[trigger] s[k]).me_value is None,
    ensures
        live_values(s) == Seq::<usize>::empty(),
        reflective_values(fields, s) == Seq::<usize>::empty(),
    decreases s.len() + fields.len(),
{
    if s.len() > 0 {
        assert(s[s.len() - 1] == s.last());
        lemma_no_live_slots(s.drop_last(), Seq::empty());
    }
    if fields.len() > 0 {
        lemma_no_live_slots(s, fields.drop_last());
        lemma_lookup_none(s, fields.last());
    }
}

proof fn lemma_lookup_none(s: Seq<PyDictUnicodeEntry>, key: u64)
    requires
        forall|k: int| 0 <= k < s.len() ==> (#[trigger] s[k]).me_value is None,
    ensures
        lookup_spec(s, key) is None,
    decreases s.len(),
{
    if s.len() > 0 {
        assert(s[0].me_value is None);
        assert forall|k: int| 0 <= k < s.drop_first().len() implies (#[trigger] s.drop_first()[k]).me_value is None by {
            assert(s.drop_first()[k] == s[k + 1]);
        }
        lemma_lookup_none(s.drop_first(), key);
    }
}

/// A node without attributes walks to itself alone.
pub proof fn lemma_leaf_walk(rt: Runtime, test: NodeTypeTest, i: usize)
    requires
        rt.wf(),
        i < rt.objects@.len(),
        has_no_attributes(rt, i),
    ensures
        walk_spec(rt, test, i) == seq![i],
{
    assert(rt.object_ok(i as int));
    let o = rt.objects@[i as int];
    if let Payload::Instance(Some(d)) = o.payload {
        let s = d.used_slots();
        assert forall|k: int| 0 <= k < s.len() implies (#[trigger] s[k]).me_value is None by {
            assert(s[k] == d.dk_entries@[k]);
        }
        lemma_no_live_slots(s, rt.types@[o.ob_type as int].fields@);
    }
    assert(attr_values(rt, i) =~= Seq::<usize>::empty());
    assert(children(rt, test, i) == Seq::<usize>::empty());
    assert(walk_all(rt, test, Seq::<usize>::empty(), i) == Seq::<usize>::empty());
    assert(seq![i] + Seq::<usize>::empty() =~= seq![i]);
}

/// Popping a node off a stack of pending nodes, emitting it and pushing
/// its children in reverse leaves the output still to come unchanged: the
/// stack discipline emits exactly the recursive preorder.
pub proof fn lemma_stack_step(rt: Runtime, test: NodeTypeTest, base: Seq<usize>, node: usize)
    requires
        rt.wf(),
        node < rt.objects@.len(),
    ensures
        walk_stack(rt, test, base.push(node)) == seq![node] + walk_stack(
            rt,
            test,
            base + children(rt, test, node).reverse(),
        ),
{
    lemma_children_below(rt, test, node);
    lemma_walk_stack_push_reversed(rt, test, base, children(rt, test, node), node);
    assert(base.push(node).drop_last() =~= base);
    assert(seq![node] + walk_all(rt, test, children(rt, test, node), node) + walk_stack(rt, test, base)
        =~= seq![node] + (walk_all(rt, test, children(rt, test, node), node) + walk_stack(
        rt,
        test,
        base,
    )));
}

/// The node elements that a list contributes are its elements that are
/// nodes, in their order in the list.
pub proof fn lemma_list_keeps_node_elements(rt: Runtime, test: NodeTypeTest, items: Seq<usize>)
    ensures
        list_nodes(rt, test, items) == items.filter(|x: usize| is_node(rt, test, x)),
    decreases items.len(),
{
    reveal(Seq::filter);
    if items.len() > 0 {
        let t = items.drop_first();
        lemma_list_keeps_node_elements(rt, test, t);
        assert(items =~= seq![items[0]] + t);
        t.lemma_filter_prepend(items[0], |x: usize| is_node(rt, test, x));
    }
}

proof fn lemma_list_nodes_are_nodes(rt: Runtime, test: NodeTypeTest, items: Seq<usize>)
    ensures
        forall|k: int|
            0 <= k < list_nodes(rt, test, items).len() ==> is_node(
                rt,
                test,
                #[trigger] list_nodes(rt, test, items)[k],
            ),
    decreases items.len(),
{
    if items.len() > 0 {
        lemma_list_nodes_are_nodes(rt, test, items.drop_first());
        let h = if is_node(rt, test, items[0]) {
            seq![items[0]]
        } else {
            Seq::<usize>::empty()
        };
        let t = list_nodes(rt, test, items.drop_first());
        assert(list_nodes(rt, test, items) == h + t);
        assert forall|k: int| 0 <= k < (h + t).len() implies is_node(rt, test, #[trigger] (h + t)[k]) by {
            if k >= h.len() {
                assert((h + t)[k] == t[k - h.len()]);
            }
        }
    }
}

proof fn lemma_children_of_values_are_nodes(rt: Runtime, test: NodeTypeTest, vals: Seq<usize>)
    ensures
        forall|k: int|
            0 <= k < children_of_values(rt, test, vals).len() ==> is_node(
                rt,
                test,
                #[trigger] children_of_values(rt, test, vals)[k],
            ),
    decreases vals.len(),
{
    if vals.len() > 0 {
        lemma_children_of_values_are_nodes(rt, test, vals.drop_first());
        lemma_list_nodes_are_nodes(rt, test, list_items(rt, vals[0]));
        let h = value_children(rt, test, vals[0]);
        let t = children_of_values(rt, test, vals.drop_first());
        assert forall|k: int| 0 <= k < (h + t).len() implies is_node(rt, test, #[trigger] (h + t)[k]) by {
            if k >= h.len() {
                assert((h + t)[k] == t[k - h.len()]);
            }
        }
    }
}

proof fn lemma_walk_tail_nodes(rt: Runtime, test: NodeTypeTest, i: usize)
    ensures
        forall|k: int|
            1 <= k < walk_spec(rt, test, i).len() ==> is_node(
                rt,
                test,
                #[trigger] walk_spec(rt, test, i)[k],
            ),
    decreases i, 1nat, 0nat,
{
    let c = children(rt, test, i);
    lemma_children_of_values_are_nodes(rt, test, attr_values(rt, i));
    lemma_walk_all_nodes(rt, test, c, i);
    let w = walk_all(rt, test, c, i);
    assert forall|k: int| 1 <= k < (seq![i] + w).len() implies is_node(rt, test, #[trigger] (seq![i] + w)[k]) by {
        assert((seq![i] + w)[k] == w[k - 1]);
    }
}

proof fn lemma_walk_all_nodes(rt: Runtime, test: NodeTypeTest, s: Seq<usize>, bound: usize)
    requires
        forall|j: int| 0 <= j < s.len() ==> is_node(rt, test, #[trigger] s[j]),
    ensures
        forall|k: int|
            0 <= k < walk_all(rt, test, s, bound).len() ==> is_node(
                rt,
                test,
                #[trigger] walk_all(rt, test, s, bound)[k],
            ),
    decreases bound, 0nat, s.len(),
{
    if s.len() > 0 {
        let t = s.drop_first();
        assert forall|j: int| 0 <= j < t.len() implies is_node(rt, test, #[trigger] t[j]) by {
            assert(t[j] == s[j + 1]);
        }
        lemma_walk_all_nodes(rt, test, t, bound);
        if s[0] < bound {
            lemma_walk_tail_nodes(rt, test, s[0]);
            let h = walk_spec(rt, test, s[0]);
            let w = walk_all(rt, test, t, bound);
            assert(h[0] == s[0]);
            assert(walk_all(rt, test, s, bound) == h + w);
            assert forall|k: int| 0 <= k < (h + w).len() implies is_node(rt, test, #[trigger] (h + w)[k]) by {
                if k >= h.len() {
                    assert((h + w)[k] == w[k - h.len()]);
                } else if k == 0 {
                    assert((h + w)[0] == s[0]);
                }
            }
        } else {
            assert(walk_all(rt, test, s, bound) == walk_all(rt, test, t, bound));
        }
    }
}

/// Everything a walk emits after its root is a node: values that are not
/// nodes, and lists themselves, never appear.
pub proof fn lemma_walk_emits_only_nodes(rt: Runtime, test: NodeTypeTest, i: usize)
    ensures
        walk_spec(rt, test, i)[0] == i,
        forall|k: int|
            1 <= k < walk_spec(rt, test, i).len() ==> is_node(
                rt,
                test,
                #[trigger] walk_spec(rt, test, i)[k],
            ),
{
    lemma_walk_tail_nodes(rt, test, i);
}

} // verus!
