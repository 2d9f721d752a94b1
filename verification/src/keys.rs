//! Reference keys and their order.
//!
//! Keys are strings. They are ordered byte by byte over their UTF-8 encoding,
//! the shorter of two keys first where one is a prefix of the other. Tables in
//! this crate keep their entries strictly ascending in that order, which makes
//! every key unique and the order of iteration reproducible.

use vstd::prelude::*;
use vstd::utf8::*;

verus! {

/// `a` and `b` hold the same bytes at every position below `k`.
pub open spec fn agree_below(a: Seq<u8>, b: Seq<u8>, k: int) -> bool {
    &&& 0 <= k <= a.len()
    &&& k <= b.len()
    &&& forall|j: int| 0 <= j < k ==> a[j] == b[j]
}

/// `a` comes strictly before `b`: at the first position where they part, `a`
/// has ended or holds the smaller byte.
pub open spec fn bytes_before(a: Seq<u8>, b: Seq<u8>) -> bool {
    exists|k: int| #[trigger]
        agree_below(a, b, k) && k < b.len() && (k == a.len() || a[k] < b[k])
}

/// The order on keys: that of their UTF-8 encodings.
pub open spec fn key_before(a: Seq<char>, b: Seq<char>) -> bool {
    bytes_before(encode_utf8(a), encode_utf8(b))
}

/// The byte order is transitive.
pub proof fn lemma_bytes_before_transitive(a: Seq<u8>, b: Seq<u8>, c: Seq<u8>)
    requires
        bytes_before(a, b),
        bytes_before(b, c),
    ensures
        bytes_before(a, c),
{
    let k1 = choose|k: int| #[trigger]
        agree_below(a, b, k) && k < b.len() && (k == a.len() || a[k] < b[k]);
    let k2 = choose|k: int| #[trigger]
        agree_below(b, c, k) && k < c.len() && (k == b.len() || b[k] < c[k]);
    let k = if k1 <= k2 { k1 } else { k2 };
    assert(agree_below(a, c, k));
}

/// Two byte strings are equal, or one comes before the other.
pub proof fn lemma_bytes_before_total(a: Seq<u8>, b: Seq<u8>)
    ensures
        a == b || bytes_before(a, b) || bytes_before(b, a),
{
    lemma_first_gap(a, b, 0);
}

proof fn lemma_first_gap(a: Seq<u8>, b: Seq<u8>, k: int)
    requires
        agree_below(a, b, k),
    ensures
        a == b || bytes_before(a, b) || bytes_before(b, a),
    decreases a.len() - k,
{
    if k == a.len() || k == b.len() {
        if a.len() == b.len() {
            assert(a =~= b);
        } else if k == a.len() {
            assert(agree_below(a, b, k) && k < b.len());
        } else {
            assert(agree_below(b, a, k) && k < a.len());
        }
    } else if a[k] == b[k] {
        assert(agree_below(a, b, k + 1));
        lemma_first_gap(a, b, k + 1);
    } else if a[k] < b[k] {
        assert(agree_below(a, b, k));
    } else {
        assert(agree_below(b, a, k));
    }
}

/// No key comes before itself.
pub proof fn lemma_key_before_irreflexive(a: Seq<char>)
    ensures
        !key_before(a, a),
{
}

/// The key order is transitive.
pub proof fn lemma_key_before_transitive(a: Seq<char>, b: Seq<char>, c: Seq<char>)
    requires
        key_before(a, b),
        key_before(b, c),
    ensures
        key_before(a, c),
{
    lemma_bytes_before_transitive(encode_utf8(a), encode_utf8(b), encode_utf8(c));
}

/// Of two keys, at most one comes before the other.
pub proof fn lemma_key_before_asymmetric(a: Seq<char>, b: Seq<char>)
    requires
        key_before(a, b),
    ensures
        !key_before(b, a),
        a != b,
{
    if key_before(b, a) {
        lemma_key_before_transitive(a, b, a);
    }
}

/// Two keys are equal, or one comes before the other.
pub proof fn lemma_key_before_total(a: Seq<char>, b: Seq<char>)
    ensures
        a == b || key_before(a, b) || key_before(b, a),
{
    lemma_bytes_before_total(encode_utf8(a), encode_utf8(b));
    if encode_utf8(a) == encode_utf8(b) {
        encode_utf8_decode_utf8(a);
        encode_utf8_decode_utf8(b);
    }
}

/// How one key stands to another.
#[derive(Clone, Copy, Debug, PartialEq, Eq, Structural)]
pub enum KeyOrder {
    Before,
    Same,
    After,
}

/// The place of `a` relative to `b` in the key order.
pub open spec fn key_order_of(a: Seq<char>, b: Seq<char>) -> KeyOrder {
    if a == b {
        KeyOrder::Same
    } else if key_before(a, b) {
        KeyOrder::Before
    } else {
        KeyOrder::After
    }
}

/// Decides how `a` stands to `b`.
pub fn key_order(a: &str, b: &str) -> (order: KeyOrder)
    ensures
        order == key_order_of(a@, b@),
        order == KeyOrder::After ==> key_before(b@, a@),
{
    let x = a.as_bytes();
    let y = b.as_bytes();
    let mut i: usize = 0;
    while i < x.len() && i < y.len()
        invariant
            x@ == encode_utf8(a@),
            y@ == encode_utf8(b@),
            agree_below(x@, y@, i as int),
        decreases x.len() - i,
    {
        if x[i] != y[i] {
            proof {
                if x[i as int] < y[i as int] {
                    assert(agree_below(x@, y@, i as int));
                    lemma_key_before_asymmetric(a@, b@);
                } else {
                    assert(agree_below(y@, x@, i as int));
                    lemma_key_before_asymmetric(b@, a@);
                }
            }
            return if x[i] < y[i] {
                KeyOrder::Before
            } else {
                KeyOrder::After
            };
        }
        i += 1;
    }
    proof {
        if x.len() == y.len() {
            assert(x@ =~= y@);
            encode_utf8_decode_utf8(a@);
            encode_utf8_decode_utf8(b@);
        } else if i == x.len() {
            assert(agree_below(x@, y@, i as int));
            lemma_key_before_asymmetric(a@, b@);
        } else {
            assert(agree_below(y@, x@, i as int));
            lemma_key_before_asymmetric(b@, a@);
        }
    }
    if x.len() == y.len() {
        KeyOrder::Same
    } else if i == x.len() {
        KeyOrder::Before
    } else {
        KeyOrder::After
    }
}

/// Whether two strings hold the same characters.
pub fn same_text(a: &str, b: &str) -> (same: bool)
    ensures
        same == (a@ == b@),
{
    match key_order(a, b) {
        KeyOrder::Same => true,
        _ => false,
    }
}

/// The keys ascend strictly, so none occurs twice.
pub open spec fn ascending(keys: Seq<Seq<char>>) -> bool {
    forall|i: int, j: int| 0 <= i < j < keys.len() ==> key_before(keys[i], keys[j])
}

/// The position at which `key` stands in `keys`, or would have to be inserted
/// to keep them ascending: the number of keys that come before it.
pub open spec fn rank(keys: Seq<Seq<char>>, key: Seq<char>) -> int
    decreases keys.len(),
{
    if keys.len() == 0 {
        0
    } else if key_before(keys.last(), key) {
        keys.len() as int
    } else {
        rank(keys.drop_last(), key)
    }
}

/// In ascending keys the rank of a key parts the keys that come before it
/// from those that do not, and finds the key where it is present.
pub proof fn lemma_rank_splits(keys: Seq<Seq<char>>, key: Seq<char>)
    requires
        ascending(keys),
    ensures
        0 <= rank(keys, key) <= keys.len(),
        forall|i: int| 0 <= i < rank(keys, key) ==> key_before(#[trigger] keys[i], key),
        forall|i: int|
            rank(keys, key) <= i < keys.len() ==> !key_before(#[trigger] keys[i], key),
        forall|i: int|
            rank(keys, key) < i < keys.len() ==> key_before(key, #[trigger] keys[i]),
        keys.contains(key) <==> (rank(keys, key) < keys.len() && keys[rank(keys, key)] == key),
        !keys.contains(key) && rank(keys, key) < keys.len() ==> key_before(
            key,
            keys[rank(keys, key)],
        ),
    decreases keys.len(),
{
    if keys.len() == 0 {
    } else if key_before(keys.last(), key) {
        assert forall|i: int| 0 <= i < keys.len() implies key_before(#[trigger] keys[i], key) by {
            if i < keys.len() - 1 {
                lemma_key_before_transitive(keys[i], keys.last(), key);
            }
        }
        if keys.contains(key) {
            let i = choose|i: int| 0 <= i < keys.len() && keys[i] == key;
            lemma_key_before_irreflexive(key);
        }
    } else {
        let rest = keys.drop_last();
        assert(ascending(rest)) by {
            assert forall|i: int, j: int| 0 <= i < j < rest.len() implies key_before(
                rest[i],
                rest[j],
            ) by {
                assert(rest[i] == keys[i] && rest[j] == keys[j]);
            }
        }
        lemma_rank_splits(rest, key);
        let r = rank(rest, key);
        assert forall|i: int| 0 <= i < r implies key_before(#[trigger] keys[i], key) by {
            assert(rest[i] == keys[i]);
        }
        assert forall|i: int| r <= i < keys.len() implies !key_before(#[trigger] keys[i], key) by {
            if i < rest.len() {
                assert(rest[i] == keys[i]);
            }
        }
        assert forall|i: int| r < i < keys.len() implies key_before(key, #[trigger] keys[i]) by {
            lemma_key_before_total(keys[r], key);
            if keys[r] == key {
                assert(key_before(keys[r], keys[i]));
            } else {
                assert(key_before(key, keys[r]));
                lemma_key_before_transitive(key, keys[r], keys[i]);
            }
        }
        if keys.contains(key) {
            let i = choose|i: int| 0 <= i < keys.len() && keys[i] == key;
            if i < r {
                lemma_key_before_irreflexive(key);
            }
            if i > r {
                lemma_key_before_irreflexive(key);
            }
            assert(i == r);
        }
        if !keys.contains(key) && r < keys.len() {
            lemma_key_before_total(keys[r], key);
        }
    }
}

/// A key that is not among ascending keys can be inserted at its rank.
pub proof fn lemma_insert_at_rank(keys: Seq<Seq<char>>, key: Seq<char>)
    requires
        ascending(keys),
        !keys.contains(key),
    ensures
        ascending(keys.insert(rank(keys, key), key)),
        rank(keys.insert(rank(keys, key), key), key) == rank(keys, key),
{
    lemma_rank_splits(keys, key);
    let r = rank(keys, key);
    let next = keys.insert(r, key);
    assert forall|i: int, j: int| 0 <= i < j < next.len() implies key_before(next[i], next[j]) by {
        if j < r {
            assert(next[i] == keys[i] && next[j] == keys[j]);
        } else if j == r {
            assert(next[i] == keys[i]);
        } else if i < r {
            assert(next[i] == keys[i] && next[j] == keys[j - 1]);
        } else if i == r {
            assert(next[j] == keys[j - 1]);
            if j - 1 == r {
            }
        } else {
            assert(next[i] == keys[i - 1] && next[j] == keys[j - 1]);
        }
    }
    lemma_rank_is(next, key, r);
}

/// Ascending keys stay ascending when one of them is taken out.
pub proof fn lemma_remove_keeps_ascending(keys: Seq<Seq<char>>, at: int)
    requires
        ascending(keys),
        0 <= at < keys.len(),
    ensures
        ascending(keys.remove(at)),
        !keys.remove(at).contains(keys[at]),
{
    let next = keys.remove(at);
    assert forall|i: int, j: int| 0 <= i < j < next.len() implies key_before(next[i], next[j]) by {
        let a = if i < at { i } else { i + 1 };
        let b = if j < at { j } else { j + 1 };
        assert(next[i] == keys[a] && next[j] == keys[b]);
    }
    if next.contains(keys[at]) {
        let i = choose|i: int| 0 <= i < next.len() && next[i] == keys[at];
        let a = if i < at { i } else { i + 1 };
        assert(next[i] == keys[a]);
        lemma_key_before_irreflexive(keys[at]);
        if a < at {
            assert(key_before(keys[a], keys[at]));
        } else {
            assert(key_before(keys[at], keys[a]));
        }
    }
}

/// The rank of a key is the one position that parts the smaller keys from
/// the rest.
pub proof fn lemma_rank_is(keys: Seq<Seq<char>>, key: Seq<char>, at: int)
    requires
        ascending(keys),
        0 <= at <= keys.len(),
        forall|i: int| 0 <= i < at ==> key_before(#[trigger] keys[i], key),
        at < keys.len() ==> !key_before(keys[at], key),
    ensures
        rank(keys, key) == at,
{
    lemma_rank_splits(keys, key);
    let r = rank(keys, key);
    if r < at {
        assert(key_before(keys[r], key));
    }
    if r > at {
        assert(key_before(keys[at], key));
    }
}

/// Among ascending keys a key stands at one position only.
pub proof fn lemma_ascending_distinct(keys: Seq<Seq<char>>)
    requires
        ascending(keys),
    ensures
        keys.no_duplicates(),
{
    assert forall|i: int, j: int|
        0 <= i < keys.len() && 0 <= j < keys.len() && i != j implies keys[i] != keys[j] by {
        if i < j {
            lemma_key_before_asymmetric(keys[i], keys[j]);
        } else {
            lemma_key_before_asymmetric(keys[j], keys[i]);
        }
    }
}

/// Something that is filed under a key.
pub trait Keyed {
    /// The key, as a sequence of characters.
    spec fn key_view(&self) -> Seq<char>;

    /// The key.
    fn key(&self) -> (k: &str)
        ensures
            k@ == self.key_view(),
    ;
}

/// The keys of `items`, in their order.
pub open spec fn keys_of<T: Keyed>(items: Seq<T>) -> Seq<Seq<char>> {
    Seq::new(items.len(), |i: int| items[i].key_view())
}

/// Looks `key` up by bisection in a vector whose keys ascend. `Ok` holds the
/// index of the item filed under `key`; `Err` holds the index at which such
/// an item would have to be inserted. Either way the index is the rank of
/// `key`.
pub fn find_key<T: Keyed>(items: &Vec<T>, key: &str) -> (found: Result<usize, usize>)
    requires
        ascending(keys_of(items@)),
    ensures
        found is Ok <==> keys_of(items@).contains(key@),
        match found {
            Ok(i) => i == rank(keys_of(items@), key@) && i < items.len()
                && items[i as int].key_view() == key@,
            Err(i) => i == rank(keys_of(items@), key@) && i <= items.len(),
        },
{
    let mut low: usize = 0;
    let mut high: usize = items.len();
    let ghost keys = keys_of(items@);
    proof {
        lemma_rank_splits(keys, key@);
    }
    while low < high
        invariant
            keys == keys_of(items@),
            ascending(keys),
            0 <= low <= high <= items.len(),
            low <= rank(keys, key@) <= high,
            keys.contains(key@) ==> rank(keys, key@) < high,
            forall|i: int| 0 <= i < rank(keys, key@) ==> key_before(#[trigger] keys[i], key@),
            forall|i: int|
                rank(keys, key@) <= i < keys.len() ==> !key_before(#[trigger] keys[i], key@),
            keys.contains(key@) <==> (rank(keys, key@) < keys.len() && keys[rank(keys, key@)]
                == key@),
        decreases high - low,
    {
        let mid: usize = low + (high - low) / 2;
        let ghost r = rank(keys, key@);
        assert(keys[mid as int] == items@[mid as int].key_view());
        match key_order(items[mid].key(), key) {
            KeyOrder::Before => {
                low = mid + 1;
            },
            KeyOrder::Same => {
                proof {
                    lemma_key_before_irreflexive(key@);
                    if mid > r {
                        assert(key_before(keys[r], keys[mid as int]));
                    }
                }
                return Ok(mid);
            },
            KeyOrder::After => {
                proof {
                    lemma_key_before_asymmetric(key@, keys[mid as int]);
                }
                high = mid;
            },
        }
    }
    Err(low)
}

} // verus!
