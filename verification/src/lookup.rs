//! Lookup tables: short reference codes with what they stand for.
//!
//! A table keeps its entries in the order of their codes. The place of a code
//! in that order is its index in the encoded database. An entry, once in the
//! table, is never replaced.
//!
//! A table takes every code that is offered to it. Only the encoded database
//! is limited: its index fields have 16 bits, so a catalog is encoded only
//! where none of its tables holds more than `TABLE_CAPACITY` codes.

use crate::keys::{ascending, find_key, keys_of, lemma_insert_at_rank, rank, Keyed};
use crate::string_pool::texts_of;
use vstd::prelude::*;
use vstd::string::*;

verus! {

/// The most codes of one table that encoded records can tell apart: an index
/// has 16 bits. A table itself may hold more.
pub const TABLE_CAPACITY: usize = 0x1_0000;

/// What a rarity code stands for.
#[derive(Clone, Debug, PartialEq, Eq)]
pub struct RarityInfo {
    pub name: String,
}

/// What a faction code stands for.
#[derive(Clone, Debug, PartialEq, Eq)]
pub struct FactionInfo {
    pub name: String,
    pub color: String,
}

/// What a card-type code stands for.
#[derive(Clone, Debug, PartialEq, Eq)]
pub struct CardTypeInfo {
    pub name: String,
}

/// Something that a lookup table describes by a few strings.
pub trait Described {
    /// The strings of the description, in a fixed order.
    spec fn description(&self) -> Seq<Seq<char>>;

    /// Appends copies of the strings of the description to `out`.
    fn describe(&self, out: &mut Vec<String>)
        ensures
            texts_of(final(out)@) == texts_of(old(out)@) + self.description(),
    ;
}

impl Described for RarityInfo {
    open spec fn description(&self) -> Seq<Seq<char>> {
        seq![self.name@]
    }

    fn describe(&self, out: &mut Vec<String>) {
        out.push(self.name.clone());
        assert(texts_of(out@) =~= texts_of(old(out)@) + self.description());
    }
}

impl Described for FactionInfo {
    open spec fn description(&self) -> Seq<Seq<char>> {
        seq![self.name@, self.color@]
    }

    fn describe(&self, out: &mut Vec<String>) {
        out.push(self.name.clone());
        out.push(self.color.clone());
        assert(texts_of(out@) =~= texts_of(old(out)@) + self.description());
    }
}

impl Described for CardTypeInfo {
    open spec fn description(&self) -> Seq<Seq<char>> {
        seq![self.name@]
    }

    fn describe(&self, out: &mut Vec<String>) {
        out.push(self.name.clone());
        assert(texts_of(out@) =~= texts_of(old(out)@) + self.description());
    }
}

/// One entry of a lookup table.
#[derive(Clone, Debug, PartialEq, Eq)]
pub struct LookupEntry<V> {
    pub reference: String,
    pub info: V,
}

impl<V> Keyed for LookupEntry<V> {
    open spec fn key_view(&self) -> Seq<char> {
        self.reference@
    }

    fn key(&self) -> (k: &str) {
        self.reference.as_str()
    }
}

/// The index that stands for `code` in encoded records: its place among the
/// codes of the table. A code that the table does not hold gets index 0, the
/// same as the first code of the table; `LookupTable::position` tells the two
/// apart.
pub open spec fn code_index(codes: Seq<Seq<char>>, code: Seq<char>) -> int {
    if codes.contains(code) {
        rank(codes, code)
    } else {
        0
    }
}

/// The entries after `entry` has been offered: put in at the rank of its
/// code where the code is new, and left as they were where the table has the
/// code already.
pub open spec fn offered<V>(entries: Seq<LookupEntry<V>>, entry: LookupEntry<V>) -> Seq<
    LookupEntry<V>,
> {
    if keys_of(entries).contains(entry.reference@) {
        entries
    } else {
        entries.insert(rank(keys_of(entries), entry.reference@), entry)
    }
}

/// A table from reference codes to descriptions, in the order of the codes.
#[derive(Clone, Debug, PartialEq, Eq)]
pub struct LookupTable<V> {
    entries: Vec<LookupEntry<V>>,
}

impl<V> LookupTable<V> {
    /// The entries, in the order of their codes.
    pub closed spec fn entries_view(&self) -> Seq<LookupEntry<V>> {
        self.entries@
    }

    /// The codes of the table, in their order.
    pub open spec fn codes(&self) -> Seq<Seq<char>> {
        keys_of(self.entries_view())
    }

    /// The codes ascend, so each code has one entry.
    pub open spec fn wf(&self) -> bool {
        ascending(self.codes())
    }

    /// There are no more codes than an encoded record has indices for.
    pub open spec fn is_indexable(&self) -> bool {
        self.codes().len() <= TABLE_CAPACITY
    }

    /// Whether there are no more codes than an encoded record has indices
    /// for.
    pub fn fits_indices(&self) -> (fits: bool)
        ensures
            fits == self.is_indexable(),
    {
        self.entries.len() <= TABLE_CAPACITY
    }

    /// An empty table.
    pub fn new() -> (table: Self)
        ensures
            table.wf(),
            table.entries_view() == Seq::<LookupEntry<V>>::empty(),
    {
        LookupTable { entries: Vec::new() }
    }

    /// The number of entries.
    pub fn len(&self) -> (n: usize)
        ensures
            n == self.entries_view().len(),
    {
        self.entries.len()
    }

    /// The entries, in the order of their codes.
    pub fn entries(&self) -> (entries: &[LookupEntry<V>])
        ensures
            entries@ == self.entries_view(),
    {
        self.entries.as_slice()
    }

    /// The place of `code` among the codes, or `None` where the table does
    /// not hold it.
    pub fn position(&self, code: &str) -> (index: Option<usize>)
        requires
            self.wf(),
        ensures
            index is Some <==> self.codes().contains(code@),
            index is Some ==> index->0 as int == rank(self.codes(), code@) && index->0
                < self.codes().len(),
    {
        match find_key(&self.entries, code) {
            Ok(i) => Some(i),
            Err(_) => None,
        }
    }

    /// The index that encoded records carry for `code`. It has 16 bits, so
    /// the table must not hold more codes than that.
    pub fn index_or_zero(&self, code: &str) -> (index: u16)
        requires
            self.wf(),
            self.is_indexable(),
        ensures
            index as int == code_index(self.codes(), code@),
    {
        match self.position(code) {
            Some(i) => i as u16,
            None => 0,
        }
    }

    /// The index of `code` for a format that has one byte for it: the low
    /// byte of the place of `code`, and 0 for a code that the table does not
    /// hold.
    pub fn index_byte(&self, code: &str) -> (index: u8)
        requires
            self.wf(),
        ensures
            index as int == code_index(self.codes(), code@) % 256,
    {
        match self.position(code) {
            Some(i) => (i % 256) as u8,
            None => 0,
        }
    }

    /// What `code` stands for, if the table holds it.
    pub fn get(&self, code: &str) -> (info: Option<&V>)
        requires
            self.wf(),
        ensures
            info is Some <==> self.codes().contains(code@),
            info is Some ==> *info->0 == self.entries_view()[rank(self.codes(), code@)].info,
    {
        match find_key(&self.entries, code) {
            Ok(i) => Some(&self.entries[i].info),
            Err(_) => None,
        }
    }

    /// Adds an entry for a code that the table does not hold yet. Where the
    /// code is already there, nothing changes and the result is `false`.
    pub fn insert_if_absent(&mut self, reference: String, info: V) -> (added: bool)
        requires
            old(self).wf(),
        ensures
            final(self).wf(),
            added <==> !old(self).codes().contains(reference@),
            added ==> final(self).entries_view() == old(self).entries_view().insert(
                rank(old(self).codes(), reference@),
                LookupEntry { reference, info },
            ),
            !added ==> final(self).entries_view() == old(self).entries_view(),
            final(self).entries_view() == offered(
                old(self).entries_view(),
                LookupEntry { reference, info },
            ),
    {
        match find_key(&self.entries, reference.as_str()) {
            Ok(_) => false,
            Err(at) => {
                proof {
                    lemma_insert_at_rank(self.codes(), reference@);
                }
                let ghost before = self.codes();
                self.entries.insert(at, LookupEntry { reference, info });
                assert(self.codes() =~= before.insert(at as int, reference@));
                true
            },
        }
    }
}

/// The strings of a table: for each entry, in index order, its code and then
/// its description.
pub open spec fn table_texts<V: Described>(entries: Seq<LookupEntry<V>>) -> Seq<Seq<char>>
    decreases entries.len(),
{
    if entries.len() == 0 {
        Seq::empty()
    } else {
        table_texts(entries.drop_last()) + seq![entries.last().reference@]
            + entries.last().info.description()
    }
}

impl<V: Described> LookupTable<V> {
    /// Copies of the strings of the table: for each entry, in index order,
    /// its code and then its description.
    pub fn texts(&self) -> (texts: Vec<String>)
        ensures
            texts_of(texts@) == table_texts(self.entries_view()),
    {
        let mut texts: Vec<String> = Vec::new();
        let mut i: usize = 0;
        assert(self.entries@.take(0) =~= Seq::<LookupEntry<V>>::empty());
        assert(texts_of(texts@) =~= Seq::<Seq<char>>::empty());
        while i < self.entries.len()
            invariant
                i <= self.entries.len(),
                texts_of(texts@) == table_texts(self.entries@.take(i as int)),
            decreases self.entries.len() - i,
        {
            let entry = &self.entries[i];
            proof {
                assert(self.entries@.take(i + 1).drop_last() =~= self.entries@.take(i as int));
                assert(self.entries@.take(i + 1).last() == *entry);
            }
            let ghost before = texts@;
            texts.push(entry.reference.clone());
            assert(texts_of(texts@) =~= texts_of(before) + seq![entry.reference@]);
            entry.info.describe(&mut texts);
            i += 1;
        }
        assert(self.entries@.take(self.entries.len() as int) =~= self.entries@);
        texts
    }
}

/// The three lookup tables of a catalog.
#[derive(Clone, Debug, PartialEq, Eq)]
pub struct LookupTables {
    pub rarities: LookupTable<RarityInfo>,
    pub factions: LookupTable<FactionInfo>,
    pub card_types: LookupTable<CardTypeInfo>,
}

impl LookupTables {
    /// Each of the three tables is well formed.
    pub open spec fn wf(&self) -> bool {
        &&& self.rarities.wf()
        &&& self.factions.wf()
        &&& self.card_types.wf()
    }

    /// None of the three tables holds more codes than an encoded record has
    /// indices for.
    pub open spec fn are_indexable(&self) -> bool {
        &&& self.rarities.is_indexable()
        &&& self.factions.is_indexable()
        &&& self.card_types.is_indexable()
    }

    /// Whether none of the three tables holds more codes than an encoded
    /// record has indices for.
    pub fn fit_indices(&self) -> (fit: bool)
        ensures
            fit == self.are_indexable(),
    {
        self.rarities.fits_indices() && self.factions.fits_indices()
            && self.card_types.fits_indices()
    }

    /// Three empty tables.
    pub fn new() -> (tables: Self)
        ensures
            tables.wf(),
            tables.rarities.entries_view().len() == 0,
            tables.factions.entries_view().len() == 0,
            tables.card_types.entries_view().len() == 0,
    {
        LookupTables {
            rarities: LookupTable::new(),
            factions: LookupTable::new(),
            card_types: LookupTable::new(),
        }
    }
}

} // verus!
