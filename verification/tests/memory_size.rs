use std::mem::size_of;

use shared_lru::memory_size::{charged_with_spare, JsonValue};
use shared_lru::MemorySize;

#[test]
fn plain_values_report_their_footprint() {
    assert_eq!(MemorySize::bytes(&42u64), 8);
    assert_eq!(MemorySize::bytes(&7u8), 1);
    assert_eq!(MemorySize::bytes(&true), 1);
    assert_eq!(MemorySize::bytes(&-3i32), 4);
    assert_eq!(MemorySize::bytes(&(1u8, 2u32)), size_of::<(u8, u32)>());
}

#[test]
fn references_are_charged_as_pointers() {
    let value: u64 = 9;
    assert_eq!(MemorySize::bytes(&&value), size_of::<&u64>());
    assert_eq!(MemorySize::bytes(&"apple"), size_of::<&str>());
}

#[test]
fn strings_add_their_content() {
    assert_eq!(MemorySize::bytes(&String::from("apple")), size_of::<String>() + 5);
    assert_eq!(MemorySize::bytes(&String::new()), size_of::<String>());
    let s = "apple";
    assert_eq!(<str as MemorySize>::bytes(s), 5);
}

#[test]
fn vectors_add_content_and_spare_capacity() {
    let v: Vec<u8> = vec![1, 2];
    assert_eq!(MemorySize::bytes(&v), size_of::<Vec<u8>>() + 2);

    let mut w: Vec<u16> = Vec::with_capacity(8);
    w.push(1);
    assert!(MemorySize::bytes(&w) >= size_of::<Vec<u16>>() + 2);

    let nested: Vec<Vec<u8>> = vec![vec![1, 2, 3]];
    assert_eq!(
        MemorySize::bytes(&nested),
        size_of::<Vec<Vec<u8>>>() + size_of::<Vec<u8>>() + 3
    );
}

#[test]
fn deques_are_charged_like_vectors() {
    let mut d: std::collections::VecDeque<u8> = std::collections::VecDeque::new();
    d.push_back(1);
    d.push_back(2);
    assert!(MemorySize::bytes(&d) >= size_of::<std::collections::VecDeque<u8>>() + 2);
}

#[test]
fn options_add_their_payload() {
    assert_eq!(MemorySize::bytes(&None::<u32>), size_of::<Option<u32>>());
    assert_eq!(MemorySize::bytes(&Some(5u32)), size_of::<Option<u32>>() + 4);
}

#[test]
fn json_values_charge_footprint_plus_content() {
    let j = size_of::<JsonValue>();
    let s = size_of::<String>();

    assert_eq!(MemorySize::bytes(&JsonValue::Null), j);
    assert_eq!(MemorySize::bytes(&JsonValue::Bool(true)), j);
    assert_eq!(MemorySize::bytes(&JsonValue::Number), j);
    assert_eq!(MemorySize::bytes(&JsonValue::Text(String::from("xy"))), j + 2);

    let arr = JsonValue::Array(vec![JsonValue::Null, JsonValue::Number]);
    assert_eq!(MemorySize::bytes(&arr), j + 2 * j);

    let obj = JsonValue::Object(vec![
        (String::from("a"), JsonValue::Text(String::from("xy"))),
        (String::from("bc"), JsonValue::Array(vec![JsonValue::Null])),
    ]);
    assert_eq!(
        MemorySize::bytes(&obj),
        j + (s + 1 + j + 2) + (s + 2 + j + j)
    );
}

#[test]
fn spare_capacity_charge_is_exact() {
    assert_eq!(charged_with_spare(10, 2, 5, 4), 10 + 3 * 4);
    assert_eq!(charged_with_spare(10, 5, 5, 4), 10);
    assert_eq!(charged_with_spare(usize::MAX - 1, 0, 1, 4), usize::MAX);
    assert_eq!(charged_with_spare(0, 0, usize::MAX, usize::MAX), usize::MAX);
}
