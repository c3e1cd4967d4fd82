use grip::gc_json::{GCValue, InnerValue, JsonHeap, JsonTree, Number, ValueExt};

fn obj(members: Vec<(&str, JsonTree)>) -> JsonTree {
    JsonTree::Object(members.into_iter().map(|(k, v)| (k.to_string(), v)).collect())
}

fn num(n: u64) -> JsonTree {
    JsonTree::Number(Number::PosInt(n))
}

fn as_u64(t: &JsonTree) -> Option<u64> {
    match t {
        JsonTree::Number(n) => n.as_u64(),
        _ => None,
    }
}

fn is_object(t: &JsonTree) -> bool {
    matches!(t, JsonTree::Object(_))
}

fn gc_to_json(heap: &JsonHeap, v: GCValue) -> JsonTree {
    v.into_with_recursion_limit(heap, 64)
}

#[test]
fn dot_index_safe() {
    let mut heap = JsonHeap::new();
    let mut json = GCValue::from_tree(&mut heap, &obj(vec![("a", obj(vec![("b", num(123))]))]));

    let r = json.dot_index_safe(&heap, "a.b").unwrap();
    assert_eq!(as_u64(&gc_to_json(&heap, r)).unwrap(), 123);
    assert!(json.dot_index_safe(&heap, "a.b.c").is_err());
    assert!(json.dot_index_safe(&heap, "a..").is_err());
    let r = json.dot_index_safe(&heap, "a").unwrap();
    assert!(is_object(&gc_to_json(&heap, r)));

    assert!(json.dot_index_safe_mut(&mut heap, "a.b.c").is_err());
    let r = json.dot_index_safe_mut(&mut heap, "a.b").unwrap();
    assert_eq!(as_u64(&gc_to_json(&heap, r)).unwrap(), 123);
    assert!(json.dot_index_safe_mut(&mut heap, "a..").is_err());
    let r = json.dot_index_safe_mut(&mut heap, "a").unwrap();
    assert!(is_object(&gc_to_json(&heap, r)));

    let r = json.index_selective_safe(&heap, "a.b", true).unwrap();
    assert_eq!(as_u64(&gc_to_json(&heap, r)).unwrap(), 123);
    assert!(json.index_selective_safe(&heap, "a.b.c", true).is_err());
    assert!(json.index_selective_safe(&heap, "a..", true).is_err());
    let r = json.index_selective_safe(&heap, "a", true).unwrap();
    assert!(is_object(&gc_to_json(&heap, r)));

    let r = json.index_selective_safe_mut(&mut heap, "a.b", true).unwrap();
    assert_eq!(as_u64(&gc_to_json(&heap, r)).unwrap(), 123);
    assert!(json.index_selective_safe_mut(&mut heap, "a.b.c", true).is_err());
    assert!(json.index_selective_safe_mut(&mut heap, "a..", true).is_err());
    let r = json.index_selective_safe_mut(&mut heap, "a", true).unwrap();
    assert!(is_object(&gc_to_json(&heap, r)));

    let r = json.index_selective_safe(&heap, "a", false).unwrap();
    assert!(is_object(&gc_to_json(&heap, r)));
    assert!(json.index_selective_safe(&heap, "a.b.c", false).is_err());

    let r = json.index_selective_safe_mut(&mut heap, "a", false).unwrap();
    assert!(is_object(&gc_to_json(&heap, r)));
    assert!(json.index_selective_safe_mut(&mut heap, "a.b.c", false).is_err());
}

fn msg(e: &grip::errors::Error) -> String {
    match &e.kind {
        grip::errors::ErrorKind::Msg(m) => m.clone(),
        _ => panic!("expected a plain message"),
    }
}

#[test]
fn lookup_error_messages() {
    let mut heap = JsonHeap::new();
    let json = GCValue::from_tree(&mut heap, &obj(vec![("a", obj(vec![("b", num(1))]))]));
    let e = json.dot_index_safe(&heap, "a..").unwrap_err();
    assert_eq!(msg(&e), "Double/Empty separator in `a..`");
    let e = json.dot_index_safe(&heap, "a.x").unwrap_err();
    assert_eq!(msg(&e), "Can't index json using `x`, because json doesn't contain it");
    let e = json.dot_index_safe(&heap, "a.b.c").unwrap_err();
    assert_eq!(msg(&e), "Can't index json using `c` json stops is not object.");
    let e = json.dot_index_safe(&heap, "").unwrap_err();
    assert_eq!(msg(&e), "Double/Empty separator in ``");
    // Without dot notation the whole name is one member name.
    let e = json.index_selective_safe(&heap, "a.b", false).unwrap_err();
    assert_eq!(msg(&e), "Can't index json using `a.b`, because json doesn't contain it");
}

#[test]
fn dotted_path_is_stepwise() {
    let mut heap = JsonHeap::new();
    let json = GCValue::from_tree(
        &mut heap,
        &obj(vec![("x", obj(vec![("y", obj(vec![("z", num(5))]))]))]),
    );
    let whole = json.dot_index_safe(&heap, "x.y.z").unwrap();
    let first = json.dot_index_safe(&heap, "x").unwrap();
    let rest = first.dot_index_safe(&heap, "y.z").unwrap();
    assert_eq!(whole.cell, rest.cell);
    // A name without dots is the same with and without dot notation.
    let a = json.index_selective_safe(&heap, "x", true).unwrap();
    let b = json.index_selective_safe(&heap, "x", false).unwrap();
    assert_eq!(a.cell, b.cell);
}

#[test]
fn tree_round_trip_and_recursion_limit() {
    let mut heap = JsonHeap::new();
    let tree = obj(vec![
        ("list", JsonTree::Array(vec![num(1), JsonTree::Null, JsonTree::Bool(true)])),
        ("name", JsonTree::String("gRIP".to_string())),
    ]);
    let g = GCValue::from_tree(&mut heap, &tree);
    match g.into_with_recursion_limit(&heap, 3) {
        JsonTree::Object(ms) => {
            assert_eq!(ms.len(), 2);
            assert_eq!(ms[0].0, "list");
            match &ms[0].1 {
                JsonTree::Array(items) => {
                    assert_eq!(items.len(), 3);
                    assert_eq!(as_u64(&items[0]), Some(1));
                    assert!(matches!(items[1], JsonTree::Null));
                    assert!(matches!(items[2], JsonTree::Bool(true)));
                },
                _ => panic!("expected an array"),
            }
            assert!(matches!(&ms[1].1, JsonTree::String(s) if s == "gRIP"));
        },
        _ => panic!("expected an object"),
    }
    // At limit 1 the object is written out empty; at 2 its array is empty.
    match g.into_with_recursion_limit(&heap, 1) {
        JsonTree::Object(ms) => assert!(ms.is_empty()),
        _ => panic!("expected an object"),
    }
    match g.into_with_recursion_limit(&heap, 2) {
        JsonTree::Object(ms) => match &ms[0].1 {
            JsonTree::Array(items) => assert!(items.is_empty()),
            _ => panic!("expected an array"),
        },
        _ => panic!("expected an object"),
    }
}

#[test]
fn deep_clone_is_independent() {
    let mut heap = JsonHeap::new();
    let g = GCValue::from_tree(&mut heap, &obj(vec![("s", JsonTree::String("old".to_string()))]));
    let copy = g.deep_clone_with_recursion_limit(&mut heap, 10);
    assert_ne!(copy.cell, g.cell);
    let source_member = g.dot_index_safe(&heap, "s").unwrap();
    heap.set_string(source_member.cell, "new".to_string());
    let copied_member = copy.dot_index_safe(&heap, "s").unwrap();
    assert!(matches!(copied_member.borrow_inner_ref(&heap), InnerValue::String(s) if s == "old"));
    assert!(matches!(source_member.borrow_inner_ref(&heap), InnerValue::String(s) if s == "new"));
    assert_eq!(heap.equals(copy, g), Some(false));
}

#[test]
fn equality_of_values() {
    let mut heap = JsonHeap::new();
    let a = GCValue::from_tree(&mut heap, &obj(vec![("x", num(1)), ("y", JsonTree::Bool(false))]));
    let b = GCValue::from_tree(&mut heap, &obj(vec![("y", JsonTree::Bool(false)), ("x", num(1))]));
    let c = GCValue::from_tree(&mut heap, &obj(vec![("x", num(2)), ("y", JsonTree::Bool(false))]));
    assert_eq!(heap.equals(a, b), Some(true));
    assert_eq!(heap.equals(a, c), Some(false));
    assert_eq!(heap.equals(a, a), Some(true));
    let z1 = GCValue::from_tree(&mut heap, &JsonTree::Number(Number::Float(0)));
    let z2 = GCValue::from_tree(&mut heap, &JsonTree::Number(Number::Float(0x8000_0000_0000_0000)));
    assert_eq!(heap.equals(z1, z2), Some(true));
}

#[test]
fn a_value_that_holds_itself_cannot_be_compared() {
    let mut heap = JsonHeap::new();
    let a = GCValue::from_tree(&mut heap, &JsonTree::Array(vec![]));
    heap.array_push(a.cell, a);
    let b = GCValue::from_tree(&mut heap, &JsonTree::Array(vec![]));
    heap.array_push(b.cell, b);
    assert_eq!(heap.equals(a, b), None);
}

#[test]
fn borrow_inner_ref_mut_writes_the_cell() {
    let mut heap = JsonHeap::new();
    let g = GCValue::new(&mut heap, InnerValue::Null);
    *g.borrow_inner_ref_mut(&mut heap) = InnerValue::Bool(true);
    assert!(matches!(g.borrow_inner_ref(&heap), InnerValue::Bool(true)));
}

#[test]
fn numbers_as_integers() {
    assert_eq!(Number::from_isize(-3).as_i64(), Some(-3));
    assert_eq!(Number::from_isize(7).as_u64(), Some(7));
    assert_eq!(Number::PosInt(u64::MAX).as_i64(), None);
    assert_eq!(Number::Float(0).as_i64(), None);
    assert!(Number::PosInt(3).equals(&Number::PosInt(3)));
    assert!(!Number::PosInt(3).equals(&Number::NegInt(-3)));
}

#[test]
fn sweep_empties_what_roots_cannot_reach() {
    let mut heap = JsonHeap::new();
    let kept = GCValue::from_tree(&mut heap, &JsonTree::Array(vec![num(1), JsonTree::String("x".to_string())]));
    let dropped = GCValue::from_tree(&mut heap, &JsonTree::String("gone".to_string()));
    // A value that holds itself is kept while a root reaches it.
    let cycle = GCValue::from_tree(&mut heap, &JsonTree::Array(vec![]));
    heap.array_push(cycle.cell, cycle);
    heap.sweep(&vec![kept.cell, cycle.cell]);
    assert!(matches!(dropped.borrow_inner_ref(&heap), InnerValue::Null));
    match kept.into_with_recursion_limit(&heap, 5) {
        JsonTree::Array(items) => {
            assert_eq!(items.len(), 2);
            assert_eq!(as_u64(&items[0]), Some(1));
            assert!(matches!(&items[1], JsonTree::String(s) if s == "x"));
        },
        _ => panic!("expected an array"),
    }
    match cycle.borrow_inner_ref(&heap) {
        InnerValue::Array(items) => assert_eq!(items[0].cell, cycle.cell),
        _ => panic!("expected an array"),
    }
    // With no root, everything is emptied.
    heap.sweep(&vec![]);
    assert!(matches!(kept.borrow_inner_ref(&heap), InnerValue::Null));
}
