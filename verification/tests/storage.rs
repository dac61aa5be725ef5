use gensokyo::storage::{Engine, InMemEngine};

#[test]
fn test_in_mem_engine() {
    let mut engine = InMemEngine::new();
    for i in 0..1000 {
        let v = engine.get(&i).unwrap();
        assert_eq!(v, None);
        engine.put(i, i).unwrap();
        let v = engine.get(&i).unwrap();
        assert_eq!(v, Some(i));
    }
    for i in 0..1000 {
        let v;
        let expected = if i % 2 == 0 {
            v = 2 * i;
            Some(v)
        } else {
            None
        };
        match expected {
            Some(v) => engine.put(i, v).unwrap(),
            None => engine.del(&i).unwrap(),
        }
        let v = engine.get(&i).unwrap();
        assert_eq!(v, expected);
    }
    let vs = engine.scan(&995, &1002).unwrap();
    assert_eq!(vs, vec![1992, 1996]);
}

#[test]
fn scan_of_empty_range_is_empty() {
    let mut engine = InMemEngine::new();
    engine.put(5, 50).unwrap();
    assert_eq!(engine.scan(&5, &5).unwrap(), Vec::<i32>::new());
    assert_eq!(engine.scan(&6, &9).unwrap(), Vec::<i32>::new());
    assert_eq!(engine.scan(&5, &6).unwrap(), vec![50]);
}

#[test]
fn delete_of_absent_key_is_a_no_op() {
    let mut engine = InMemEngine::new();
    engine.put(1, 10).unwrap();
    engine.del(&2).unwrap();
    assert_eq!(engine.get(&1).unwrap(), Some(10));
    assert_eq!(engine.get(&2).unwrap(), None);
}

#[test]
fn put_replaces_value_and_keeps_order() {
    let mut engine = InMemEngine::new();
    engine.put(3, 30).unwrap();
    engine.put(1, 10).unwrap();
    engine.put(2, 20).unwrap();
    engine.put(2, 25).unwrap();
    assert_eq!(engine.get(&2).unwrap(), Some(25));
    assert_eq!(engine.scan(&0, &10).unwrap(), vec![10, 25, 30]);
}
