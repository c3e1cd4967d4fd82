use grip::errors::{Error, ErrorKind};
use grip::ffi::json::JsonStore;
use grip::gc_json::{JsonTree, Number};
use libc::c_char;

fn ffi_message(e: &Error) -> String {
    match &e.kind {
        ErrorKind::FFIError(m) => m.clone(),
        _ => panic!("not an FFI error: {:?}", e),
    }
}

fn plain_message(e: &Error) -> String {
    match &e.kind {
        ErrorKind::Msg(m) => m.clone(),
        _ => panic!("not a plain message: {:?}", e),
    }
}

fn obj(members: Vec<(&str, JsonTree)>) -> JsonTree {
    JsonTree::Object(members.into_iter().map(|(k, v)| (k.to_string(), v)).collect())
}

fn num(n: u64) -> JsonTree {
    JsonTree::Number(Number::PosInt(n))
}

fn text(s: &str) -> JsonTree {
    JsonTree::String(s.to_string())
}

fn read_string(store: &JsonStore, h: isize) -> String {
    let mut buf: [c_char; 64] = [0; 64];
    let n = store.json_get_string(h, &mut buf, 63).unwrap();
    let bytes: Vec<u8> = buf[..n as usize].iter().map(|c| *c as u8).collect();
    String::from_utf8(bytes).unwrap()
}

fn sample(store: &mut JsonStore) -> isize {
    store.json_add_tree(&obj(vec![
        ("a", obj(vec![("b", num(123)), ("s", text("hi"))])),
        ("list", JsonTree::Array(vec![num(1), text("two"), JsonTree::Bool(true), JsonTree::Null])),
        ("t", JsonTree::Bool(false)),
    ]))
}

#[test]
fn handles_start_above_one() {
    let mut store = JsonStore::new();
    assert_eq!(store.json_init_null(), 2);
    assert_eq!(store.json_init_object(), 3);
    assert!(store.has_room_for_handle());
}

#[test]
fn types_of_values() {
    let mut store = JsonStore::new();
    let n = store.json_init_null();
    let s = store.json_init_string(b"x").unwrap();
    let x = store.json_init_number(5);
    let o = store.json_init_object();
    let a = store.json_init_array();
    let b = store.json_init_bool(true);
    assert_eq!(store.json_get_type(n).unwrap(), 1);
    assert_eq!(store.json_get_type(s).unwrap(), 2);
    assert_eq!(store.json_get_type(x).unwrap(), 3);
    assert_eq!(store.json_get_type(o).unwrap(), 4);
    assert_eq!(store.json_get_type(a).unwrap(), 5);
    assert_eq!(store.json_get_type(b).unwrap(), 6);
    let e = store.json_get_type(77).unwrap_err();
    assert_eq!(ffi_message(&e), "Invalid JSON value handle 77");
}

#[test]
fn number_round_trip() {
    let mut store = JsonStore::new();
    let h = store.json_init_number(-42);
    assert_eq!(store.json_get_number(h).unwrap(), -42);
    let big = store.json_init_number_value(Number::PosInt(u64::MAX));
    let e = store.json_get_number(big).unwrap_err();
    assert_eq!(ffi_message(&e), "Number is not integer");
    let s = store.json_init_string(b"n").unwrap();
    let e = store.json_get_number(s).unwrap_err();
    assert_eq!(ffi_message(&e), "JSON Handle is not number. String");
    assert!(matches!(store.json_get_number_value(big).unwrap(), Number::PosInt(u64::MAX)));
}

#[test]
fn string_round_trip() {
    let mut store = JsonStore::new();
    let h = store.json_init_string("grüße".as_bytes()).unwrap();
    assert_eq!(read_string(&store, h), "grüße");
    let e = store.json_init_string(&[0xFF, 0xFE]).unwrap_err();
    assert_eq!(ffi_message(&e), "Invalid string. Can't create UTF-8 string");
    assert_eq!(e.causes[0], "Can't create string from raw pointer.");
    let b = store.json_init_bool(true);
    let mut buf: [c_char; 4] = [3; 4];
    let e = store.json_get_string(b, &mut buf, 3).unwrap_err();
    assert_eq!(ffi_message(&e), "JSON Handle is not string. Bool");
    assert_eq!(buf, [3; 4]);
}

#[test]
fn bools() {
    let mut store = JsonStore::new();
    let t = store.json_init_bool(true);
    let f = store.json_init_bool(false);
    assert_eq!(store.json_get_bool(t).unwrap(), 1);
    assert_eq!(store.json_get_bool(f).unwrap(), 0);
    let n = store.json_init_null();
    assert_eq!(ffi_message(&store.json_get_bool(n).unwrap_err()), "JSON Handle is not bool. Null");
}

#[test]
fn array_reads() {
    let mut store = JsonStore::new();
    let root = sample(&mut store);
    let list = store.json_object_get_value(root, b"list", false).unwrap();
    assert_eq!(store.json_array_get_count(list).unwrap(), 4);
    assert_eq!(store.json_array_get_number(list, 0).unwrap(), 1);
    let mut buf: [c_char; 8] = [0; 8];
    assert_eq!(store.json_array_get_string(list, 1, &mut buf, 7).unwrap(), 3);
    assert_eq!(&buf[..4], &['t' as c_char, 'w' as c_char, 'o' as c_char, 0]);
    assert_eq!(store.json_array_get_bool(list, 2).unwrap(), 1);
    // A value that is not a boolean is reported as "not number".
    let e = store.json_array_get_bool(list, 0).unwrap_err();
    assert_eq!(ffi_message(&e), "JSON Handle is not number. Number");
    let e = store.json_array_get_number(list, 4).unwrap_err();
    assert_eq!(ffi_message(&e), "Index 4 is out of bounds");
    let e = store.json_array_get_number(list, -1).unwrap_err();
    assert_eq!(ffi_message(&e), "Index/Size -1 should be greater or equal to zero.");
    let e = store.json_array_get_count(root).unwrap_err();
    assert_eq!(ffi_message(&e), "JSON Handle is not array. Object");
    assert!(matches!(store.json_array_get_number_value(list, 0).unwrap(), Number::PosInt(1)));
}

#[test]
fn array_item_handle_aliases_the_item() {
    let mut store = JsonStore::new();
    let outer = store.json_add_tree(&JsonTree::Array(vec![obj(vec![("k", num(1))])]));
    let item = store.json_array_get_value(outer, 0).unwrap();
    assert_eq!(store.json_object_set_number(item, b"k", 9, false).unwrap(), 1);
    let again = store.json_array_get_value(outer, 0).unwrap();
    assert_eq!(store.json_object_get_number(again, b"k", false).unwrap(), 9);
}

#[test]
fn array_writes() {
    let mut store = JsonStore::new();
    let a = store.json_init_array();
    assert_eq!(store.json_array_append_number(a, 1).unwrap(), 1);
    assert_eq!(store.json_array_append_string(a, b"s").unwrap(), 1);
    assert_eq!(store.json_array_append_bool(a, false).unwrap(), 1);
    assert_eq!(store.json_array_append_null(a).unwrap(), 1);
    assert_eq!(store.json_array_append_number_value(a, Number::NegInt(-5)).unwrap(), 1);
    assert_eq!(store.json_array_get_count(a).unwrap(), 5);
    assert_eq!(store.json_array_get_number(a, 4).unwrap(), -5);

    assert_eq!(store.json_array_replace_number(a, 0, 10).unwrap(), 1);
    assert_eq!(store.json_array_get_number(a, 0).unwrap(), 10);
    assert_eq!(store.json_array_replace_string(a, 2, b"x").unwrap(), 1);
    let mut buf: [c_char; 4] = [0; 4];
    store.json_array_get_string(a, 2, &mut buf, 3).unwrap();
    assert_eq!(buf[0], 'x' as c_char);
    assert_eq!(store.json_array_replace_bool(a, 1, true).unwrap(), 1);
    assert_eq!(store.json_array_get_bool(a, 1).unwrap(), 1);
    assert_eq!(store.json_array_replace_null(a, 1).unwrap(), 1);
    let e = store.json_array_replace_number_value(a, 9, Number::PosInt(1)).unwrap_err();
    assert_eq!(ffi_message(&e), "Index 9 is out of bounds");

    assert_eq!(store.json_array_remove(a, 0).unwrap(), 1);
    assert_eq!(store.json_array_get_count(a).unwrap(), 4);
    let e = store.json_array_remove(a, -2).unwrap_err();
    assert_eq!(ffi_message(&e), "Index/Size -2 should be greater or equal to zero.");
    assert_eq!(store.json_array_clear(a).unwrap(), 1);
    assert_eq!(store.json_array_get_count(a).unwrap(), 0);
}

#[test]
fn append_value_then_read_back() {
    let mut store = JsonStore::new();
    let a = store.json_init_array();
    let v = store.json_init_string(b"shared").unwrap();
    assert_eq!(store.json_array_append_value(a, v).unwrap(), 1);
    assert_eq!(store.json_array_get_count(a).unwrap(), 1);
    let item = store.json_array_get_value(a, 0).unwrap();
    assert_eq!(read_string(&store, item), "shared");
    // The array refers to the value itself: replacing it in place is seen.
    let o = store.json_add_tree(&obj(vec![("k", text("old"))]));
    let k = store.json_object_get_value(o, b"k", false).unwrap();
    assert_eq!(store.json_array_replace_value(a, 0, k).unwrap(), 1);
    assert_eq!(store.json_object_set_string(o, b"k", b"new", false).unwrap(), 1);
    let item = store.json_array_get_value(a, 0).unwrap();
    assert_eq!(read_string(&store, item), "new");
}

#[test]
fn replace_value_checks_the_value_first() {
    let mut store = JsonStore::new();
    let a = store.json_init_array();
    let e = store.json_array_replace_value(a, 0, 999).unwrap_err();
    assert_eq!(ffi_message(&e), "Invalid JSON value handle 999");
    let v = store.json_init_null();
    let e = store.json_array_replace_value(a, 0, v).unwrap_err();
    assert_eq!(ffi_message(&e), "Index 0 is out of bounds");
    // Appending checks the array first.
    let e = store.json_array_append_value(v, 999).unwrap_err();
    assert_eq!(ffi_message(&e), "JSON Handle is not array. Null");
}

#[test]
fn object_reads_with_and_without_dots() {
    let mut store = JsonStore::new();
    let root = sample(&mut store);
    assert_eq!(store.json_object_get_number(root, b"a.b", true).unwrap(), 123);
    let e = store.json_object_get_number(root, b"a.b", false).unwrap_err();
    assert_eq!(plain_message(&e), "Can't index json using `a.b`, because json doesn't contain it");
    let mut buf: [c_char; 8] = [0; 8];
    assert_eq!(store.json_object_get_string(root, b"a.s", &mut buf, 7, true).unwrap(), 2);
    assert_eq!(store.json_object_get_bool(root, b"t", false).unwrap(), 0);
    let e = store.json_object_get_bool(root, b"a", false).unwrap_err();
    assert_eq!(ffi_message(&e), "JSON at object index is not bool. Object");
    let e = store.json_object_get_number(root, b"t", false).unwrap_err();
    assert_eq!(ffi_message(&e), "JSON at object index is not number. Bool");
    let e = store.json_object_get_string(root, b"t", &mut buf, 7, false).unwrap_err();
    assert_eq!(ffi_message(&e), "JSON at object index is not string. Bool");
    let e = store.json_object_get_number(root, b"a..b", true).unwrap_err();
    assert_eq!(plain_message(&e), "Double/Empty separator in `a..b`");
    let e = store.json_object_get_number(root, &[0xFF], false).unwrap_err();
    assert_eq!(plain_message(&e), "Can't create string from raw pointer.");
    let e = store.json_object_get_number(5000, b"a", false).unwrap_err();
    assert_eq!(ffi_message(&e), "Invalid JSON value handle 5000");
    assert!(matches!(store.json_object_get_number_value(root, b"a.b", true).unwrap(), Number::PosInt(123)));
}

#[test]
fn object_counts_names_and_members() {
    let mut store = JsonStore::new();
    let root = sample(&mut store);
    assert_eq!(store.json_object_get_count(root).unwrap(), 3);
    let mut buf: [c_char; 8] = [0; 8];
    assert_eq!(store.json_object_get_name(root, 1, &mut buf, 7).unwrap(), 4);
    assert_eq!(&buf[..5], &['l' as c_char, 'i' as c_char, 's' as c_char, 't' as c_char, 0]);
    let e = store.json_object_get_name(root, 3, &mut buf, 7).unwrap_err();
    assert_eq!(plain_message(&e), "Index wasn't found");
    let e = store.json_object_get_name(root, -1, &mut buf, 7).unwrap_err();
    assert_eq!(ffi_message(&e), "Index/Size -1 should be greater or equal to zero.");
    let t = store.json_object_get_value_at(root, 2).unwrap();
    assert_eq!(store.json_get_bool(t).unwrap(), 0);
    let a = store.json_init_array();
    let e = store.json_object_get_count(a).unwrap_err();
    assert_eq!(ffi_message(&e), "JSON Handle is not object. Array");
}

#[test]
fn has_value_by_type() {
    let mut store = JsonStore::new();
    let root = sample(&mut store);
    assert_eq!(store.json_object_has_value(root, b"a.b", 3, true).unwrap(), 1);
    assert_eq!(store.json_object_has_value(root, b"a.b", 2, true).unwrap(), 0);
    assert_eq!(store.json_object_has_value(root, b"list", 7, false).unwrap(), 1);
    assert_eq!(store.json_object_has_value(root, b"list", 5, false).unwrap(), 1);
    let e = store.json_object_has_value(root, b"t", 8, false).unwrap_err();
    assert_eq!(ffi_message(&e), "Invalid json type: 8");
    let e = store.json_object_has_value(root, b"t", 0, false).unwrap_err();
    assert_eq!(ffi_message(&e), "Invalid json type: 0");
    assert!(store.json_object_has_value(root, b"missing", 7, false).is_err());
}

#[test]
fn object_set_then_read() {
    let mut store = JsonStore::new();
    let root = sample(&mut store);
    let v = store.json_init_number(77);
    assert_eq!(store.json_object_set_value(root, b"t", v, false).unwrap(), 1);
    assert_eq!(store.json_object_get_number(root, b"t", false).unwrap(), 77);
    // The member keeps its place.
    let mut buf: [c_char; 8] = [0; 8];
    store.json_object_get_name(root, 2, &mut buf, 7).unwrap();
    assert_eq!(&buf[..2], &['t' as c_char, 0]);
    assert_eq!(store.json_object_set_bool(root, b"a.b", true, true).unwrap(), 1);
    assert_eq!(store.json_object_get_bool(root, b"a.b", true).unwrap(), 1);
    assert_eq!(store.json_object_set_null(root, b"a.b", true).unwrap(), 1);
    assert_eq!(store.json_object_has_value(root, b"a.b", 1, true).unwrap(), 1);
    assert_eq!(store.json_object_set_number_value(root, b"t", Number::NegInt(-1), false).unwrap(), 1);
    assert_eq!(store.json_object_get_number(root, b"t", false).unwrap(), -1);
    // Setting needs the member to exist already.
    assert!(store.json_object_set_bool(root, b"new", true, false).is_err());
    let e = store.json_object_set_value(root, b"t", 4242, false).unwrap_err();
    assert_eq!(ffi_message(&e), "Invalid JSON value handle 4242");
}

#[test]
fn set_string_and_number_in_place() {
    let mut store = JsonStore::new();
    let root = sample(&mut store);
    let s = store.json_object_get_value(root, b"a.s", true).unwrap();
    assert_eq!(store.json_object_set_string(root, b"a.s", b"changed", true).unwrap(), 1);
    assert_eq!(read_string(&store, s), "changed");
    let e = store.json_object_set_string(root, b"a.b", b"x", true).unwrap_err();
    assert_eq!(ffi_message(&e), "Object at index is not string: Number");
    let e = store.json_object_set_string(root, b"a.s", &[0xFF], true).unwrap_err();
    assert_eq!(ffi_message(&e), "Can't create UTF-8 string");
    let b = store.json_object_get_value(root, b"a.b", true).unwrap();
    assert_eq!(store.json_object_set_number(root, b"a.b", -8, true).unwrap(), 1);
    assert_eq!(store.json_get_number(b).unwrap(), -8);
    let e = store.json_object_set_number(root, b"t", 1, false).unwrap_err();
    assert_eq!(ffi_message(&e), "Object at index is not number: Bool");
}

#[test]
fn remove_and_clear_members() {
    let mut store = JsonStore::new();
    let root = sample(&mut store);
    assert_eq!(store.json_object_remove(root, b"a").unwrap(), 1);
    assert_eq!(store.json_object_get_count(root).unwrap(), 2);
    // The last member took the removed one's place.
    let mut buf: [c_char; 8] = [0; 8];
    store.json_object_get_name(root, 0, &mut buf, 7).unwrap();
    assert_eq!(&buf[..2], &['t' as c_char, 0]);
    assert!(store.json_object_get_number(root, b"a", false).is_err());
    assert_eq!(store.json_object_remove(root, b"nothing").unwrap(), 1);
    assert_eq!(store.json_object_get_count(root).unwrap(), 2);
    let e = store.json_object_remove(root, &[0xFF]).unwrap_err();
    assert_eq!(ffi_message(&e), "Can't create UTF-8 string");
    assert_eq!(store.json_object_clear(root).unwrap(), 1);
    assert_eq!(store.json_object_get_count(root).unwrap(), 0);
}

#[test]
fn equality_between_handles() {
    let mut store = JsonStore::new();
    let a = store.json_add_tree(&obj(vec![("x", num(1))]));
    let b = store.json_add_tree(&obj(vec![("x", num(1))]));
    let c = store.json_add_tree(&obj(vec![("x", num(2))]));
    assert_eq!(store.json_equals(a, b).unwrap(), Some(true));
    assert_eq!(store.json_equals(a, c).unwrap(), Some(false));
    assert_eq!(store.json_equals(a, a).unwrap(), Some(true));
    let e = store.json_equals(99, a).unwrap_err();
    assert_eq!(ffi_message(&e), "value1 handle 99 is invalid");
    let e = store.json_equals(a, 98).unwrap_err();
    assert_eq!(ffi_message(&e), "value2 98 handle is invalid");
}

#[test]
fn deep_copy_is_a_separate_value() {
    let mut store = JsonStore::new();
    let root = sample(&mut store);
    let copy = store.json_deep_copy(root, 10).unwrap();
    assert_eq!(store.json_equals(root, copy).unwrap(), Some(true));
    store.json_object_set_string(root, b"a.s", b"bye", true).unwrap();
    let mut buf: [c_char; 8] = [0; 8];
    store.json_object_get_string(copy, b"a.s", &mut buf, 7, true).unwrap();
    assert_eq!(&buf[..3], &['h' as c_char, 'i' as c_char, 0]);
    assert_eq!(store.json_equals(root, copy).unwrap(), Some(false));
    let shallow = store.json_deep_copy(root, 1).unwrap();
    assert_eq!(store.json_object_get_count(shallow).unwrap(), 0);
    let e = store.json_deep_copy(root, -1).unwrap_err();
    assert_eq!(ffi_message(&e), "Index/Size -1 should be greater or equal to zero.");
}

#[test]
fn serialising_reads_the_tree_back() {
    let mut store = JsonStore::new();
    let tree = obj(vec![("k", JsonTree::Array(vec![num(3), text("v")]))]);
    let h = store.json_add_tree(&tree);
    match store.json_to_tree(h, 5).unwrap() {
        JsonTree::Object(ms) => {
            assert_eq!(ms.len(), 1);
            assert_eq!(ms[0].0, "k");
            match &ms[0].1 {
                JsonTree::Array(items) => {
                    assert_eq!(items.len(), 2);
                    assert!(matches!(items[0], JsonTree::Number(Number::PosInt(3))));
                    assert!(matches!(&items[1], JsonTree::String(s) if s == "v"));
                },
                _ => panic!("expected an array"),
            }
        },
        _ => panic!("expected an object"),
    }
    let e = store.json_to_tree(h, -3).unwrap_err();
    assert_eq!(ffi_message(&e), "Index/Size -3 should be greater or equal to zero.");
}

#[test]
fn validation_compares_names_and_types() {
    let mut store = JsonStore::new();
    let schema = store.json_add_tree(&obj(vec![("id", num(0)), ("name", text(""))]));
    let good = store.json_add_tree(&obj(vec![("id", num(5)), ("name", text("x"))]));
    let wrong_type = store.json_add_tree(&obj(vec![("id", text("5")), ("name", text("x"))]));
    let wrong_order = store.json_add_tree(&obj(vec![("name", text("x")), ("id", num(5))]));
    assert_eq!(store.json_validate(schema, good).unwrap(), 1);
    assert_eq!(store.json_validate(schema, wrong_type).unwrap(), 0);
    assert_eq!(store.json_validate(schema, wrong_order).unwrap(), 0);
    let arr = store.json_init_array();
    let e = store.json_validate(arr, good).unwrap_err();
    assert_eq!(ffi_message(&e), "JSON schema is not object");
    let e = store.json_validate(schema, arr).unwrap_err();
    assert_eq!(ffi_message(&e), "JSON schema is not object");
}

#[test]
fn destroying_a_handle_keeps_other_references() {
    let mut store = JsonStore::new();
    let root = sample(&mut store);
    let a = store.json_object_get_value(root, b"a", false).unwrap();
    assert_eq!(store.destroy_json_value(root).unwrap(), 1);
    assert_eq!(store.json_object_get_number(a, b"b", false).unwrap(), 123);
    let e = store.destroy_json_value(root).unwrap_err();
    assert_eq!(ffi_message(&e), format!("Invalid json value handle {}", root));
}

#[test]
fn changing_a_copy_leaves_its_source() {
    let mut store = JsonStore::new();
    let root = sample(&mut store);
    let copy = store.json_deep_copy(root, 10).unwrap();
    store.json_object_set_number(copy, b"a.b", 1, true).unwrap();
    store.json_object_clear(copy).unwrap();
    assert_eq!(store.json_object_get_number(root, b"a.b", true).unwrap(), 123);
    assert_eq!(store.json_object_get_count(root).unwrap(), 3);
}

#[test]
fn set_through_a_dotted_path_then_read() {
    let mut store = JsonStore::new();
    let root = sample(&mut store);
    let v = store.json_init_string(b"fresh").unwrap();
    assert_eq!(store.json_object_set_value(root, b"a.b", v, true).unwrap(), 1);
    let mut buf: [c_char; 8] = [0; 8];
    assert_eq!(store.json_object_get_string(root, b"a.b", &mut buf, 7, true).unwrap(), 5);
    // When the path goes through the member that is set, the path itself
    // changes: here `a.a` with `a` referring back to the object.
    let o = store.json_add_tree(&obj(vec![("a", JsonTree::Null)]));
    assert_eq!(store.json_object_set_value(o, b"a", o, false).unwrap(), 1);
    let w = store.json_init_number(5);
    assert_eq!(store.json_object_set_value(o, b"a.a", w, true).unwrap(), 1);
    assert!(store.json_object_get_number(o, b"a.a", true).is_err());
}

#[test]
fn collecting_keeps_what_handles_reach() {
    let mut store = JsonStore::new();
    let root = sample(&mut store);
    let list = store.json_object_get_value(root, b"list", false).unwrap();
    let other = store.json_init_string(b"temporary").unwrap();
    assert_eq!(store.destroy_json_value(root).unwrap(), 1);
    assert_eq!(store.destroy_json_value(other).unwrap(), 1);
    store.collect();
    assert_eq!(store.json_array_get_count(list).unwrap(), 4);
    let mut buf: [c_char; 8] = [0; 8];
    assert_eq!(store.json_array_get_string(list, 1, &mut buf, 7).unwrap(), 3);
    assert_eq!(store.json_array_get_number(list, 0).unwrap(), 1);
    let copy = store.json_deep_copy(list, 4).unwrap();
    assert_eq!(store.json_equals(list, copy).unwrap(), Some(true));
}

#[test]
fn new_handles_are_fresh_after_destroy() {
    let mut store = JsonStore::new();
    let a = store.json_init_null();
    let b = store.json_init_bool(true);
    store.destroy_json_value(b).unwrap();
    let c = store.json_init_number(1);
    assert!(a > 1 && b > a && c > b);
    assert!(store.json_get_type(b).is_err());
}

#[test]
fn equality_is_symmetric() {
    let mut store = JsonStore::new();
    let a = store.json_add_tree(&obj(vec![("x", num(1)), ("y", num(2))]));
    let b = store.json_add_tree(&obj(vec![("y", num(2)), ("x", num(1))]));
    let c = store.json_add_tree(&obj(vec![("y", num(3)), ("x", num(1))]));
    assert_eq!(store.json_equals(a, b).unwrap(), Some(true));
    assert_eq!(store.json_equals(b, a).unwrap(), Some(true));
    assert_eq!(store.json_equals(a, c).unwrap(), Some(false));
    assert_eq!(store.json_equals(c, a).unwrap(), Some(false));
}

#[test]
fn collections_are_due_once_a_second() {
    assert!(!JsonStore::collection_due(0));
    assert!(!JsonStore::collection_due(999));
    assert!(JsonStore::collection_due(1000));
    assert!(JsonStore::collection_due(60_000));
}

#[test]
fn equality_answers_on_deep_values_without_cycles() {
    let mut store = JsonStore::new();
    let mut t = num(1);
    for _ in 0..20 {
        t = JsonTree::Array(vec![t, num(2)]);
    }
    let a = store.json_add_tree(&t);
    let b = store.json_add_tree(&t);
    assert_eq!(store.json_equals(a, a).unwrap(), Some(true));
    assert_eq!(store.json_equals(a, b).unwrap(), Some(true));
    let n = store.json_add_tree(&num(1));
    assert_eq!(store.json_equals(n, a).unwrap(), Some(false));
}
