use altered_catalog::string_pool::{StringPool, POOL_CAPACITY};

#[test]
fn a_new_pool_is_empty() {
    let pool = StringPool::new();
    assert_eq!(pool.len(), 0);
    assert!(pool.get_strings().is_empty());
    assert_eq!(pool.lookup("x"), None);
}

#[test]
fn interning_again_gives_the_same_handle() {
    let mut pool = StringPool::new();
    let first = pool.add_string("alpha");
    let second = pool.add_string("alpha");
    let third = pool.add_string("alpha");
    assert_eq!(first, 0);
    assert_eq!(second, first);
    assert_eq!(third, first);
    assert_eq!(pool.len(), 1);
}

#[test]
fn distinct_strings_get_handles_in_order_of_insertion() {
    let mut pool = StringPool::new();
    let names = ["delta", "alpha", "", "charlie", "bravo"];
    for (i, name) in names.iter().enumerate() {
        assert_eq!(pool.add_string(name) as usize, i);
    }
    assert_eq!(pool.len(), names.len());
    let stored: Vec<&str> = pool.get_strings().iter().map(|s| s.as_str()).collect();
    assert_eq!(stored, names);
    for (i, name) in names.iter().enumerate() {
        assert_eq!(pool.add_string(name) as usize, i);
        assert_eq!(pool.lookup(name), Some(i as u16));
    }
    assert_eq!(pool.len(), names.len());
}

#[test]
fn interleaved_repeats_do_not_take_handles() {
    let mut pool = StringPool::new();
    assert_eq!(pool.add_string("a"), 0);
    assert_eq!(pool.add_string("b"), 1);
    assert_eq!(pool.add_string("a"), 0);
    assert_eq!(pool.add_string("c"), 2);
    assert_eq!(pool.add_string("b"), 1);
    assert_eq!(pool.into_strings(), vec!["a".to_string(), "b".to_string(), "c".to_string()]);
}

#[test]
fn a_full_pool_refuses_new_strings_and_keeps_old_ones() {
    let mut pool = StringPool::new();
    for i in 0..POOL_CAPACITY {
        assert_eq!(pool.try_add_string(&format!("s{}", i)), Some(i as u16));
    }
    assert_eq!(pool.len(), POOL_CAPACITY);
    assert_eq!(pool.try_add_string("one too many"), None);
    assert_eq!(pool.len(), POOL_CAPACITY);
    assert_eq!(pool.try_add_string("s0"), Some(0));
    assert_eq!(pool.try_add_string("s65535"), Some(65535));
    assert_eq!(pool.add_string("s12345"), 12345);
    assert_eq!(pool.lookup("one too many"), None);
}
