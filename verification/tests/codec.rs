use gensokyo::codec::byte::{ByteKey, ByteValue};
use gensokyo::codec::{Key, Value};

#[test]
fn byte_key_orders_lexicographically() {
    let a = ByteKey::new(b"abc");
    let b = ByteKey::new(b"abd");
    let p = ByteKey::new(b"ab");
    assert!(a.key_le(&b));
    assert!(!b.key_le(&a));
    assert!(p.key_le(&a));
    assert!(!a.key_le(&p));
    assert!(a.key_le(&a));
    assert!(ByteKey::new(b"").key_le(&p));
}

#[test]
fn byte_key_copies_compare_like_their_source() {
    let a = ByteKey::new(b"xy");
    let c = Key::to_owned(&a);
    assert!(a.key_le(&c));
    assert!(c.key_le(&a));
}

#[test]
fn byte_key_renders_utf8() {
    let k = ByteKey::new(b"hello");
    assert_eq!(Key::to_string(&k), "hello");
}

#[test]
fn byte_value_renders_utf8() {
    let v = ByteValue::new(b"world");
    assert_eq!(Value::to_string(&v), "world");
}

#[test]
fn integer_key_renders_decimal() {
    assert_eq!(Key::to_string(&42i32), "42");
    assert_eq!(Key::to_string(&-7i32), "-7");
}
