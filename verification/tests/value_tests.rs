//! Tests for the value tree: containers, equality, text rendering, node
//! handles and the linked list behind them.

use ylong_json::{Array, JsonValue, LinkedList, Number, Object};

fn num(n: i32) -> JsonValue {
    JsonValue::new_number(Number::from(n))
}

fn sample_array(values: &[i32]) -> Array {
    let mut array = Array::new();
    for v in values {
        array.push(num(*v));
    }
    array
}

fn sample_object(pairs: &[(&str, &str)]) -> Object {
    let mut object = Object::new();
    for (k, v) in pairs {
        object.insert(String::from(*k), JsonValue::new_string(v));
    }
    object
}

#[test]
fn ut_array_eq() {
    let array1 = sample_array(&[1]);
    let array2 = sample_array(&[1, 2]);
    let array3 = sample_array(&[1, 3]);

    assert!(array1 == array1);
    assert!(array1 != array2);
    assert!(array2 != array3);
}

#[test]
fn vec_ut_array_fmt() {
    let array = sample_array(&[1, 2]);
    assert_eq!(array.to_text(), "[1,2]");
    assert_eq!(array.to_text(), "[1,2]");
}

#[test]
fn linked_list_ut_array_fmt() {
    let array = sample_array(&[1, 2]);
    assert_eq!(array.to_text(), "[1,2]");
    assert_eq!(array.to_text(), "[1,2]");
}

#[test]
fn vec_ut_object_fmt() {
    let object = sample_object(&[("key1", "value1"), ("key2", "value2")]);
    assert_eq!(
        object.to_text(),
        "{\"key1\":\"value1\",\"key2\":\"value2\"}"
    );
    assert_eq!(
        object.to_text(),
        "{\"key1\":\"value1\",\"key2\":\"value2\"}"
    );
}

#[test]
fn linked_list_ut_object_fmt() {
    let object = sample_object(&[("key1", "value1"), ("key2", "value2")]);
    assert_eq!(
        object.to_text(),
        "{\"key1\":\"value1\",\"key2\":\"value2\"}"
    );
    assert_eq!(
        object.to_text(),
        "{\"key1\":\"value1\",\"key2\":\"value2\"}"
    );
}

#[test]
fn btree_ut_object_fmt() {
    let object = sample_object(&[("key1", "value1"), ("key2", "value2")]);
    assert_eq!(
        object.to_text(),
        "{\"key1\":\"value1\",\"key2\":\"value2\"}"
    );
    assert_eq!(
        object.to_text(),
        "{\"key1\":\"value1\",\"key2\":\"value2\"}"
    );
}

#[test]
fn vec_ut_object_eq() {
    let object1 = sample_object(&[("key1", "value1")]);
    let object2 = sample_object(&[("key1", "value1"), ("key2", "value2")]);
    let object3 = sample_object(&[("key1", "value1"), ("key3", "value3")]);

    assert!(object1 == object1);
    assert!(object1 != object2);
    assert!(object2 != object3);
}

#[test]
fn btree_ut_object_eq() {
    let object1 = sample_object(&[("key1", "value1")]);
    let object2 = sample_object(&[("key1", "value1"), ("key2", "value2")]);
    let object3 = sample_object(&[("key1", "value1"), ("key3", "value3")]);

    assert!(object1 == object1);
    assert!(object1 != object2);
    assert!(object2 != object3);
}

#[test]
fn ut_linked_list_default() {
    let made: LinkedList<i32> = LinkedList::default();
    let fresh: LinkedList<i32> = LinkedList::new();
    assert_eq!(made.len(), fresh.len());
    assert!(made.is_empty());
    assert!(fresh.is_empty());
}

#[test]
fn ut_linked_list_pop_back() {
    let mut list = LinkedList::new();
    assert_eq!(list.pop_back(), None);

    list.push_back(1i32);
    assert_eq!(list.pop_back(), Some(1));
}

#[test]
fn ut_array_pop() {
    let mut array = sample_array(&[1]);
    assert!(array.pop() == Some(num(1)));
    assert!(array.pop() == None);
}

#[test]
fn ut_array_last() {
    let array = sample_array(&[1]);
    assert!(array.last() == Some(&num(1)));

    let array = Array::new();
    assert!(array.last() == None);
}

#[test]
fn ut_array_get_node() {
    let array = sample_array(&[1, 2, 3, 4, 5, 6]);
    assert!(array.get_node(0).is_some());
    assert!(array.get_node(1).is_some());
    assert!(array.get_node(2).is_some());
    assert!(array.get_node(3).is_some());
    assert!(array.get_node(4).is_some());
    assert!(array.get_node(5).is_some());
    assert!(array.get_node(6).is_none());
}

#[test]
fn ut_object_contains_key() {
    let object = sample_object(&[("key1", "value1")]);
    assert!(object.contains_key("key1"));
    assert!(!object.contains_key("key2"));
}

#[test]
fn ut_object_get_node() {
    let object = sample_object(&[("key1", "value1")]);
    assert!(object.get_node("key1").is_some());
    assert!(object.get_node("key2").is_none());
}

#[test]
fn container_removal_keeps_order() {
    // Removing the middle element leaves the others in their order.
    let mut array = sample_array(&[10, 20, 30]);
    assert_eq!(array.len(), 3);
    let second = array.remove(1);
    assert!(second == Some(num(20)));
    assert_eq!(array.len(), 2);
    assert!(array.get(0) == Some(&num(10)));
    assert!(array.get(1) == Some(&num(30)));

    // Removing through a node handle takes out exactly the element the
    // handle was obtained at, matching removal by position.
    let mut by_handle = sample_array(&[10, 20, 30]);
    let handle = by_handle.get_node(1).unwrap();
    let taken = by_handle.remove_node(handle);
    assert!(taken == num(20));
    assert_eq!(by_handle.len(), 2);
    assert!(by_handle.get(0) == Some(&num(10)));
    assert!(by_handle.get(1) == Some(&num(30)));

    // A handle stays usable across the removal of another node.
    let mut stable = sample_array(&[10, 20, 30]);
    let last = stable.get_node(2).unwrap();
    let _ = stable.remove(0);
    assert!(stable.node_value(last) == &num(30));
}

#[test]
fn object_node_removal() {
    let mut object = sample_object(&[("a", "1"), ("b", "2")]);
    let handle = object.get_node("a").unwrap();
    let taken = object.remove_node(handle);
    assert!(taken == JsonValue::new_string("1"));
    assert_eq!(object.len(), 1);
    assert!(object.get("a").is_none());
    assert!(object.get("b") == Some(&JsonValue::new_string("2")));
}

#[test]
fn value_accessors() {
    assert!(JsonValue::new_null().is_null());
    assert!(JsonValue::new_boolean(true).is_true());
    assert!(JsonValue::new_boolean(false).is_false());
    assert!(num(3).is_number());
    assert!(JsonValue::new_string("x").is_string());
    assert!(JsonValue::new_array(Array::new()).is_array());
    assert!(JsonValue::new_object(Object::new()).is_object());

    assert!(JsonValue::new_boolean(true).try_as_boolean().unwrap() == &true);
    assert!(JsonValue::new_null().try_as_boolean().is_err());
    assert!(JsonValue::new_string("x").try_into_string().unwrap() == String::from("x"));
    assert!(JsonValue::new_null().try_into_array().is_err());
}

#[test]
fn number_accessors() {
    assert!(Number::Unsigned(1).is_unsigned());
    assert!(Number::Signed(1).is_signed());
    assert!(Number::new_float_literal("1.0").unwrap().is_float());

    assert!(Number::Unsigned(1).try_as_u64().unwrap() == 1);
    assert!(Number::Signed(1).try_as_u64().is_err());
    assert!(Number::Signed(1).try_as_i64().unwrap() == 1);
    assert!(Number::Unsigned(u64::MAX).try_as_i64().is_err());
    assert!(Number::new_float_literal("1.0").unwrap().try_as_i64().is_err());

    // A float literal must carry a fraction or an exponent.
    assert!(Number::new_float_literal("10").is_err());
    assert!(Number::new_float_literal("1.").is_err());
    assert!(Number::new_float_literal("x").is_err());
}

#[test]
fn number_value_equality() {
    // Equal values in different spellings are equal numbers.
    let a = Number::new_float_literal("1.0").unwrap();
    assert!(a == Number::Unsigned(1));
    assert!(a == Number::Signed(1));
    assert!(Number::new_float_literal("0.5e1").unwrap() == Number::Unsigned(5));
    assert!(Number::Unsigned(1) != Number::Unsigned(2));
    assert!(a != Number::new_float_literal("1.5").unwrap());
    assert!(Number::new_float_literal("120e-1").unwrap() == Number::new_float_literal("1.2e1").unwrap());
    assert!(Number::Signed(-3) == Number::new_float_literal("-3.0").unwrap());
    assert!(Number::Signed(-3) != Number::Unsigned(3));
}

#[test]
fn value_text_rendering() {
    assert!(JsonValue::new_null().to_text() == "null");
    assert!(JsonValue::new_boolean(true).to_text() == "true");
    assert!(num(-12).to_text() == "-12");
    assert!(Number::Unsigned(907).to_text() == "907");
    assert!(JsonValue::new_string("a\"b").to_text() == "\"a\\\"b\"");
    assert!(JsonValue::new_string("a\nb").to_text() == "\"a\\nb\"");
}

#[test]
fn value_set_index_materializes() {
    // Overwriting inside the array.
    let mut value = JsonValue::from_text(b"[1]").unwrap();
    value.set_index(0, num(7));
    assert!(value == JsonValue::from_text(b"[7]").unwrap());

    // Past the end: the array is extended with nulls up to the index.
    value.set_index(3, JsonValue::new_boolean(true));
    assert!(value == JsonValue::from_text(b"[7,null,null,true]").unwrap());

    // A non-array becomes an array reaching the requested index.
    let mut value = JsonValue::new_null();
    value.set_index(0, JsonValue::new_null());
    assert!(value.is_array());
    assert!(value == JsonValue::from_text(b"[null]").unwrap());

    let mut value = JsonValue::new_boolean(false);
    value.set_index(2, num(9));
    assert!(value == JsonValue::from_text(b"[null,null,9]").unwrap());
}

#[test]
fn value_set_key_materializes() {
    // Overwriting the first match keeps the pair count.
    let mut value = JsonValue::from_text(b"{\"key1\":\"value1\"}").unwrap();
    value.set_key("key1", JsonValue::new_boolean(true));
    assert!(value == JsonValue::from_text(b"{\"key1\":true}").unwrap());

    // A missing key is appended as a new pair.
    value.set_key("key2", JsonValue::new_null());
    assert!(value == JsonValue::from_text(b"{\"key1\":true,\"key2\":null}").unwrap());

    // A non-object becomes a one-pair object.
    let mut value = JsonValue::new_null();
    value.set_key("key1", JsonValue::new_null());
    assert!(value.is_object());
    assert!(value == JsonValue::from_text(b"{\"key1\":null}").unwrap());
}

#[test]
fn value_remove_index() {
    let mut value = JsonValue::from_text(b"[1]").unwrap();
    assert!(value.remove_index(0) == Some(num(1)));
    assert!(value.remove_index(0) == None);

    // A non-array value stays untouched.
    let mut other = JsonValue::new_boolean(true);
    assert!(other.remove_index(0) == None);
    assert!(other == JsonValue::new_boolean(true));
}

#[test]
fn value_remove_key() {
    let mut value = JsonValue::from_text(b"{\"key\":\"value\"}").unwrap();
    assert!(value.remove_key("key") == Some(JsonValue::new_string("value")));
    assert!(value.remove_key("key") == None);

    // A non-object value stays untouched.
    let mut other = JsonValue::new_null();
    assert!(other.remove_key("key") == None);
    assert!(other == JsonValue::new_null());
}

#[test]
fn array_replace_by_position_and_handle() {
    let mut array = sample_array(&[1, 2, 3]);
    assert!(array.replace(1, num(9)) == Some(num(2)));
    assert!(array.replace(3, num(0)) == None);
    assert!(array.get(0) == Some(&num(1)));
    assert!(array.get(1) == Some(&num(9)));
    assert!(array.get(2) == Some(&num(3)));

    // Replacement at a handle touches exactly that node, and the handle
    // keeps naming it afterwards.
    let handle = array.get_node(2).unwrap();
    assert!(array.replace_node(handle, num(4)) == num(3));
    assert!(array.node_value(handle) == &num(4));
    assert_eq!(array.len(), 3);
}

#[test]
fn object_replace_node_keeps_key() {
    let mut object = sample_object(&[("a", "1"), ("b", "2")]);
    let handle = object.get_node("a").unwrap();
    let old = object.replace_node(handle, JsonValue::new_string("9"));
    assert!(old == JsonValue::new_string("1"));
    assert!(object.get("a") == Some(&JsonValue::new_string("9")));
    assert!(object.get("b") == Some(&JsonValue::new_string("2")));
    assert_eq!(object.len(), 2);
}

#[test]
fn cursor_removal() {
    let mut list = LinkedList::new();
    list.push_back(1i32);
    list.push_back(2i32);
    list.push_back(3i32);

    // On the middle node: removal hands the element back and the cursor
    // advances to the node that followed.
    let mut cursor = list.cursor_front();
    cursor.move_next(&list);
    assert_eq!(cursor.remove_current(&mut list), Some(2));
    assert_eq!(list.len(), 2);
    assert_eq!(cursor.current(&list), Some(&3));

    // Removing the last node leaves the cursor on the virtual position,
    // where removal does nothing.
    assert_eq!(cursor.remove_current(&mut list), Some(3));
    assert!(cursor.current(&list).is_none());
    assert_eq!(cursor.remove_current(&mut list), None);
    assert_eq!(list.len(), 1);
    assert_eq!(list.pop_back(), Some(1));
}
