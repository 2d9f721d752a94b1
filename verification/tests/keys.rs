use altered_catalog::keys::{key_order, same_text, KeyOrder};

#[test]
fn keys_are_ordered_byte_by_byte() {
    assert_eq!(key_order("a", "b"), KeyOrder::Before);
    assert_eq!(key_order("b", "a"), KeyOrder::After);
    assert_eq!(key_order("abc", "abc"), KeyOrder::Same);
    assert_eq!(key_order("", ""), KeyOrder::Same);
    assert_eq!(key_order("Z", "a"), KeyOrder::Before);
    assert_eq!(key_order("R10", "R2"), KeyOrder::Before);
}

#[test]
fn a_prefix_comes_first() {
    assert_eq!(key_order("", "a"), KeyOrder::Before);
    assert_eq!(key_order("ab", "abc"), KeyOrder::Before);
    assert_eq!(key_order("abc", "ab"), KeyOrder::After);
}

#[test]
fn the_order_is_that_of_the_standard_library() {
    let keys = ["", "a", "ab", "b", "é", "z", "日本", "\u{10FFFF}", "A", "R1", "R10", "R2"];
    for a in keys {
        for b in keys {
            let expected = if a < b {
                KeyOrder::Before
            } else if a == b {
                KeyOrder::Same
            } else {
                KeyOrder::After
            };
            assert_eq!(key_order(a, b), expected);
            assert_eq!(same_text(a, b), a == b);
        }
    }
}
