//! A pool that stores each distinct string once and hands out small handles.

use vstd::hash_map::StringHashMap;
use vstd::prelude::*;
use vstd::string::*;

verus! {

/// The largest number of strings a pool can hold: a handle has 16 bits.
pub const POOL_CAPACITY: usize = 0x1_0000;

/// The strings of a sequence, each as its sequence of characters.
pub open spec fn texts_of(strings: Seq<String>) -> Seq<Seq<char>> {
    strings.map_values(|s: String| s@)
}

/// The pool after `s` has been interned: unchanged where `s` is already in
/// it, else with `s` appended.
pub open spec fn interned(pool: Seq<Seq<char>>, s: Seq<char>) -> Seq<Seq<char>> {
    if pool.contains(s) {
        pool
    } else {
        pool.push(s)
    }
}

/// The handle of `s` in a pool that holds it: the position of `s`.
pub open spec fn handle_of(pool: Seq<Seq<char>>, s: Seq<char>) -> int {
    pool.index_of(s)
}

/// The pool after every string of `strings` has been interned in turn.
pub open spec fn interned_all(pool: Seq<Seq<char>>, strings: Seq<Seq<char>>) -> Seq<Seq<char>>
    decreases strings.len(),
{
    if strings.len() == 0 {
        pool
    } else {
        interned(interned_all(pool, strings.drop_last()), strings.last())
    }
}

/// Interning a string after a list of strings is interning the list with
/// the string at its end.
pub proof fn lemma_interned_all_push(pool: Seq<Seq<char>>, strings: Seq<Seq<char>>, s: Seq<char>)
    ensures
        interned_all(pool, strings.push(s)) == interned(interned_all(pool, strings), s),
{
    assert(strings.push(s).drop_last() =~= strings);
}

/// Interning two lists one after the other is interning their concatenation.
pub proof fn lemma_interned_all_concat(
    pool: Seq<Seq<char>>,
    first: Seq<Seq<char>>,
    second: Seq<Seq<char>>,
)
    ensures
        interned_all(pool, first + second) == interned_all(interned_all(pool, first), second),
    decreases second.len(),
{
    if second.len() == 0 {
        assert(first + second =~= first);
    } else {
        assert((first + second).drop_last() =~= first + second.drop_last());
        lemma_interned_all_concat(pool, first, second.drop_last());
    }
}

/// Interning a list keeps a pool free of repetitions, keeps what it held at
/// the same handles, and leaves every string of the list in it.
pub proof fn lemma_interned_all_extends(pool: Seq<Seq<char>>, strings: Seq<Seq<char>>)
    requires
        pool.no_duplicates(),
    ensures
        interned_all(pool, strings).no_duplicates(),
        pool.len() <= interned_all(pool, strings).len(),
        forall|t: Seq<char>|
            pool.contains(t) ==> #[trigger] interned_all(pool, strings).contains(t) && handle_of(
                interned_all(pool, strings),
                t,
            ) == handle_of(pool, t),
        forall|i: int|
            0 <= i < strings.len() ==> interned_all(pool, strings).contains(#[trigger] strings[i]),
    decreases strings.len(),
{
    if strings.len() > 0 {
        let front = strings.drop_last();
        lemma_interned_all_extends(pool, front);
        let mid = interned_all(pool, front);
        lemma_interned_extends(mid, strings.last());
        assert forall|i: int| 0 <= i < strings.len() implies interned_all(pool, strings).contains(
            #[trigger] strings[i],
        ) by {
            if i < front.len() {
                assert(front[i] == strings[i]);
                assert(mid.contains(front[i]));
            }
        }
        assert forall|t: Seq<char>| pool.contains(t) implies #[trigger] interned_all(
            pool,
            strings,
        ).contains(t) && handle_of(interned_all(pool, strings), t) == handle_of(pool, t) by {
            assert(mid.contains(t));
        }
    }
}

/// In a pool without repetitions a string has one position only.
pub proof fn lemma_handle_unique(pool: Seq<Seq<char>>, s: Seq<char>, i: int)
    requires
        pool.no_duplicates(),
        0 <= i < pool.len(),
        pool[i] == s,
    ensures
        handle_of(pool, s) == i,
        pool.contains(s),
{
    assert(pool.contains(s));
    let j = pool.index_of(s);
    assert(0 <= j < pool.len() && pool[j] == s);
}

/// Interning keeps a pool free of repetitions, keeps what it held at the same
/// handles, and leaves the string in it.
pub proof fn lemma_interned_extends(pool: Seq<Seq<char>>, s: Seq<char>)
    requires
        pool.no_duplicates(),
    ensures
        interned(pool, s).no_duplicates(),
        interned(pool, s).contains(s),
        pool.len() <= interned(pool, s).len() <= pool.len() + 1,
        forall|i: int| 0 <= i < pool.len() ==> interned(pool, s)[i] == #[trigger] pool[i],
        forall|t: Seq<char>|
            pool.contains(t) ==> interned(pool, s).contains(t) && handle_of(interned(pool, s), t)
                == handle_of(pool, t),
{
    let next = interned(pool, s);
    if pool.contains(s) {
    } else {
        assert(next[pool.len() as int] == s);
        assert forall|i: int, j: int|
            0 <= i < next.len() && 0 <= j < next.len() && i != j implies next[i] != next[j] by {
            if i < pool.len() && j < pool.len() {
            } else if i < pool.len() {
                assert(pool.contains(pool[i]));
            } else if j < pool.len() {
                assert(pool.contains(pool[j]));
            }
        }
        assert forall|t: Seq<char>| pool.contains(t) implies next.contains(t) && handle_of(next, t)
            == handle_of(pool, t) by {
            let i = pool.index_of(t);
            assert(next[i] == t);
            lemma_handle_unique(next, t, i);
        }
    }
}

/// Interning the same string again changes nothing and gives the same handle.
pub proof fn lemma_intern_idempotent(pool: Seq<Seq<char>>, s: Seq<char>)
    requires
        pool.no_duplicates(),
    ensures
        interned(interned(pool, s), s) == interned(pool, s),
        handle_of(interned(interned(pool, s), s), s) == handle_of(interned(pool, s), s),
{
    lemma_interned_extends(pool, s);
}

/// Interning distinct strings into an empty pool gives each the handle that
/// is its place in the order of insertion: the pool is the list itself.
pub proof fn lemma_intern_distinct_in_order(strings: Seq<Seq<char>>)
    requires
        strings.no_duplicates(),
    ensures
        interned_all(Seq::empty(), strings) == strings,
        forall|i: int|
            0 <= i < strings.len() ==> handle_of(
                interned_all(Seq::empty(), strings),
                #[trigger] strings[i],
            ) == i,
    decreases strings.len(),
{
    if strings.len() == 0 {
    } else {
        let rest = strings.drop_last();
        assert(rest.no_duplicates()) by {
            assert forall|i: int, j: int|
                0 <= i < rest.len() && 0 <= j < rest.len() && i != j implies rest[i]
                != rest[j] by {
                assert(rest[i] == strings[i] && rest[j] == strings[j]);
            }
        }
        lemma_intern_distinct_in_order(rest);
        if rest.contains(strings.last()) {
            let i = rest.index_of(strings.last());
            assert(strings[i] == strings[strings.len() - 1]);
        }
        assert(rest.push(strings.last()) =~= strings);
    }
    assert forall|i: int| 0 <= i < strings.len() implies handle_of(
        interned_all(Seq::empty(), strings),
        #[trigger] strings[i],
    ) == i by {
        lemma_handle_unique(strings, strings[i], i);
    }
}

/// A set of distinct strings, each known by the 16-bit handle it got when it
/// was first added. Handles are handed out in order, starting at zero.
pub struct StringPool {
    strings: Vec<String>,
    string_to_index: StringHashMap<u16>,
}

impl View for StringPool {
    type V = Seq<Seq<char>>;

    /// The strings of the pool, by handle.
    closed spec fn view(&self) -> Seq<Seq<char>> {
        texts_of(self.strings@)
    }
}

impl StringPool {
    /// The index agrees with the list of strings, and no handle is out of
    /// range.
    pub closed spec fn wf(&self) -> bool {
        &&& self.strings.len() <= POOL_CAPACITY
        &&& forall|i: int|
            0 <= i < self.strings.len() ==> self.string_to_index@.contains_key(
                #[trigger] self.strings[i]@,
            ) && self.string_to_index@[self.strings[i]@] == i
        &&& forall|k: Seq<char>| #[trigger]
            self.string_to_index@.contains_key(k) ==> self.string_to_index@[k]
                < self.strings.len() && self.strings[self.string_to_index@[k] as int]@ == k
    }

    /// A well-formed pool holds no string twice and at most `POOL_CAPACITY`.
    pub proof fn lemma_wf_distinct(&self)
        requires
            self.wf(),
        ensures
            self@.no_duplicates(),
            self@.len() <= POOL_CAPACITY,
    {
        assert forall|i: int, j: int|
            0 <= i < self@.len() && 0 <= j < self@.len() && i != j implies self@[i]
            != self@[j] by {
            assert(self@[i] == self.strings[i]@);
            assert(self@[j] == self.strings[j]@);
        }
    }

    /// An empty pool.
    pub fn new() -> (pool: Self)
        ensures
            pool.wf(),
            pool@ == Seq::<Seq<char>>::empty(),
    {
        let pool = StringPool { strings: Vec::new(), string_to_index: StringHashMap::new() };
        assert(pool@ =~= Seq::<Seq<char>>::empty());
        pool
    }

    /// The number of strings in the pool.
    pub fn len(&self) -> (n: usize)
        ensures
            n == self@.len(),
    {
        self.strings.len()
    }

    /// The handle of `s`, if the pool holds it.
    pub fn lookup(&self, s: &str) -> (handle: Option<u16>)
        requires
            self.wf(),
        ensures
            handle is Some <==> self@.contains(s@),
            handle is Some ==> handle->0 as int == handle_of(self@, s@),
    {
        proof {
            self.lemma_wf_distinct();
        }
        match self.string_to_index.get(s) {
            Some(index) => {
                proof {
                    assert(self@[*index as int] == self.strings[*index as int]@);
                    lemma_handle_unique(self@, s@, *index as int);
                }
                Some(*index)
            },
            None => {
                proof {
                    if self@.contains(s@) {
                        let i = self@.index_of(s@);
                        assert(self.strings[i]@ == s@);
                    }
                }
                None
            },
        }
    }

    /// Interns `s`: gives the handle the pool already has for it, or stores
    /// it under the next free handle. A full pool takes no new string.
    pub fn add_string(&mut self, s: &str) -> (handle: u16)
        requires
            old(self).wf(),
            old(self)@.contains(s@) || old(self)@.len() < POOL_CAPACITY,
        ensures
            final(self).wf(),
            final(self)@ == interned(old(self)@, s@),
            handle as int == handle_of(final(self)@, s@),
            handle < final(self)@.len(),
            final(self)@[handle as int] == s@,
    {
        proof {
            self.lemma_wf_distinct();
            lemma_interned_extends(self@, s@);
        }
        match self.lookup(s) {
            Some(index) => {
                proof {
                    let i = self@.index_of(s@);
                    assert(self@[i] == s@);
                }
                index
            },
            None => {
                let index: u16 = self.strings.len() as u16;
                let ghost before = *self;
                self.strings.push(String::from_str(s));
                self.string_to_index.insert(String::from_str(s), index);
                proof {
                    assert(self@ =~= before@.push(s@));
                    assert forall|i: int|
                        0 <= i < self.strings.len() implies self.string_to_index@.contains_key(
                        #[trigger] self.strings[i]@,
                    ) && self.string_to_index@[self.strings[i]@] == i by {
                        if i < before.strings.len() {
                            assert(self.strings[i] == before.strings[i]);
                            assert(before@[i] == before.strings[i]@);
                            assert(before@.contains(before@[i]));
                        }
                    }
                    assert forall|k: Seq<char>| #[trigger]
                        self.string_to_index@.contains_key(k) implies self.string_to_index@[k]
                        < self.strings.len() && self.strings[self.string_to_index@[k] as int]@
                        == k by {
                        if k != s@ {
                            assert(before.string_to_index@.contains_key(k));
                            let j = before.string_to_index@[k] as int;
                            assert(self.strings[j] == before.strings[j]);
                        }
                    }
                    lemma_handle_unique(self@, s@, index as int);
                }
                index
            },
        }
    }

    /// Like `add_string`, but refuses where the pool is full and `s` is new:
    /// the result is then `None` and the pool is as it was.
    pub fn try_add_string(&mut self, s: &str) -> (handle: Option<u16>)
        requires
            old(self).wf(),
        ensures
            final(self).wf(),
            handle is None <==> !old(self)@.contains(s@) && old(self)@.len() >= POOL_CAPACITY,
            handle is None ==> final(self)@ == old(self)@,
            handle is Some ==> final(self)@ == interned(old(self)@, s@) && handle->0 as int
                == handle_of(final(self)@, s@) && final(self)@[handle->0 as int] == s@,
    {
        if self.strings.len() < POOL_CAPACITY {
            Some(self.add_string(s))
        } else {
            match self.lookup(s) {
                Some(index) => {
                    proof {
                        let i = self@.index_of(s@);
                        assert(self@[i] == s@);
                    }
                    Some(index)
                },
                None => None,
            }
        }
    }

    /// Gives up the pool for its strings, in the order of their handles.
    pub fn into_strings(self) -> (strings: Vec<String>)
        ensures
            texts_of(strings@) == self@,
    {
        self.strings
    }

    /// The strings of the pool, in the order of their handles.
    pub fn get_strings(&self) -> (strings: &[String])
        ensures
            texts_of(strings@) == self@,
    {
        self.strings.as_slice()
    }
}

} // verus!
