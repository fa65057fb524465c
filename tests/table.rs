use lox::table::{hash, Table};
use lox::value::Value;

#[test]
fn lots_of_entries() {
    let mut table = Table::default();
    for i in 0..100 {
        assert_eq!(table.insert(&i.to_string(), Value::Number((i as f64).to_bits())), None);
    }
    for i in 0..100 {
        assert_eq!(table.get(&i.to_string()), Some(&Value::Number((i as f64).to_bits())));
    }
    for i in -100..0 {
        assert_eq!(table.get(&i.to_string()), None);
    }
    for i in 101..200 {
        assert_eq!(table.get(&i.to_string()), None);
    }
}

#[test]
fn delete_entries() {
    let mut table = Table::default();
    for i in 0..100 {
        assert_eq!(table.insert(&i.to_string(), Value::Number((i as f64).to_bits())), None);
    }
    for i in (0..100).skip(1).step_by(2) {
        assert_eq!(table.delete(&i.to_string()), true);
    }
    for i in (0..100).step_by(2) {
        assert_eq!(table.get(&i.to_string()), Some(&Value::Number((i as f64).to_bits())));
    }
    for i in (0..100).skip(1).step_by(2) {
        assert_eq!(table.get(&i.to_string()), None);
    }
}

#[test]
fn insert_gives_previous_value() {
    let mut table = Table::default();
    assert_eq!(table.insert("k", Value::Bool(true)), None);
    assert_eq!(table.insert("k", Value::Nil), Some(Value::Bool(true)));
    assert_eq!(table.get("k"), Some(&Value::Nil));
}

#[test]
fn get_on_empty_table() {
    let table = Table::default();
    assert_eq!(table.get("missing"), None);
    assert_eq!(table.capacity(), 0);
}

#[test]
fn delete_on_empty_table_and_missing_key() {
    let mut table = Table::default();
    assert!(!table.delete("x"));
    table.insert("x", Value::Nil);
    assert!(!table.delete("y"));
    assert!(table.delete("x"));
    assert!(!table.delete("x"));
}

#[test]
fn reinsert_after_delete() {
    let mut table = Table::default();
    for i in 0..20 {
        table.insert(&format!("key{}", i), Value::Number((i as f64).to_bits()));
    }
    assert!(table.delete("key7"));
    assert_eq!(table.get("key7"), None);
    for i in (0..20).filter(|i| *i != 7) {
        assert_eq!(table.get(&format!("key{}", i)), Some(&Value::Number((i as f64).to_bits())));
    }
    assert_eq!(table.insert("key7", Value::string("back".to_string())), None);
    assert_eq!(table.get("key7"), Some(&Value::string("back".to_string())));
}

#[test]
fn capacity_grows_from_eight_by_doubling() {
    let mut table = Table::default();
    table.insert("a", Value::Nil);
    assert_eq!(table.capacity(), 8);
    for i in 0..6 {
        table.insert(&i.to_string(), Value::Nil);
    }
    // Seven entries do not fit in three quarters of eight slots.
    assert_eq!(table.capacity(), 16);
    for i in 0..100 {
        table.insert(&format!("x{}", i), Value::Nil);
    }
    assert_eq!(table.capacity(), 256);
}

#[test]
fn string_keys_with_shared_probe_chains() {
    let mut table = Table::default();
    let keys: Vec<String> = (0..40).map(|i| format!("{}", i * 8)).collect();
    for (i, k) in keys.iter().enumerate() {
        table.insert(k, Value::Number((i as f64).to_bits()));
    }
    for k in keys.iter().step_by(3) {
        assert!(table.delete(k));
    }
    for (i, k) in keys.iter().enumerate() {
        let expected = if i % 3 == 0 { None } else { Some(Value::Number((i as f64).to_bits())) };
        assert_eq!(table.get(k).cloned(), expected);
    }
}

#[test]
fn fnv1a_hash_values() {
    assert_eq!(hash(""), 2166136261);
    let a = (2166136261usize ^ 97).wrapping_mul(16777619);
    assert_eq!(hash("a"), a);
    let ab = (a ^ 98).wrapping_mul(16777619);
    assert_eq!(hash("ab"), ab);
    assert_ne!(hash("ab"), hash("ba"));
}
