//! The normalized catalog: card records under unique reference keys, three
//! lookup tables, and a little metadata.
//!
//! Records are kept in a vector whose keys ascend. The contents of a catalog
//! are described twice: as the sequence of record views in key order, and as
//! the map from key to record view that the sequence stands for.

use crate::keys::{
    ascending, find_key, key_before, keys_of, lemma_ascending_distinct, lemma_insert_at_rank,
    lemma_rank_splits, lemma_remove_keeps_ascending, rank, Keyed,
};
use crate::lookup::LookupTables;
use vstd::prelude::*;

verus! {

/// The three power values of a card.
#[derive(Clone, Copy, Debug, PartialEq, Eq, Structural)]
pub struct PowerStats {
    pub m: u8,
    pub o: u8,
    pub f: u8,
}

/// One card of the catalog.
#[derive(Debug, PartialEq, Eq)]
pub struct CardRecord {
    /// The key under which the card is filed.
    pub reference: String,
    pub name: String,
    pub type_ref: String,
    pub faction_ref: String,
    pub rarity_ref: String,
    pub image_path: String,
    pub qr_url: String,
    pub main_cost: u8,
    pub recall_cost: u8,
    pub is_suspended: bool,
    pub power: PowerStats,
}

/// What a card record holds, with its strings as sequences of characters.
pub struct CardView {
    pub reference: Seq<char>,
    pub name: Seq<char>,
    pub type_ref: Seq<char>,
    pub faction_ref: Seq<char>,
    pub rarity_ref: Seq<char>,
    pub image_path: Seq<char>,
    pub qr_url: Seq<char>,
    pub main_cost: u8,
    pub recall_cost: u8,
    pub is_suspended: bool,
    pub power: PowerStats,
}

impl View for CardRecord {
    type V = CardView;

    open spec fn view(&self) -> CardView {
        CardView {
            reference: self.reference@,
            name: self.name@,
            type_ref: self.type_ref@,
            faction_ref: self.faction_ref@,
            rarity_ref: self.rarity_ref@,
            image_path: self.image_path@,
            qr_url: self.qr_url@,
            main_cost: self.main_cost,
            recall_cost: self.recall_cost,
            is_suspended: self.is_suspended,
            power: self.power,
        }
    }
}

impl Clone for CardRecord {
    fn clone(&self) -> (copy: Self)
        ensures
            copy == *self,
    {
        CardRecord {
            reference: self.reference.clone(),
            name: self.name.clone(),
            type_ref: self.type_ref.clone(),
            faction_ref: self.faction_ref.clone(),
            rarity_ref: self.rarity_ref.clone(),
            image_path: self.image_path.clone(),
            qr_url: self.qr_url.clone(),
            main_cost: self.main_cost,
            recall_cost: self.recall_cost,
            is_suspended: self.is_suspended,
            power: self.power,
        }
    }
}

impl Keyed for CardRecord {
    open spec fn key_view(&self) -> Seq<char> {
        self.reference@
    }

    fn key(&self) -> (k: &str) {
        self.reference.as_str()
    }
}

impl CardRecord {
    /// Whether two records hold the same values in every field.
    pub fn same_as(&self, other: &CardRecord) -> (same: bool)
        ensures
            same == (self@ == other@),
    {
        self.reference == other.reference && self.name == other.name && self.type_ref
            == other.type_ref && self.faction_ref == other.faction_ref && self.rarity_ref
            == other.rarity_ref && self.image_path == other.image_path && self.qr_url
            == other.qr_url && self.main_cost == other.main_cost && self.recall_cost
            == other.recall_cost && self.is_suspended == other.is_suspended && self.power.m
            == other.power.m && self.power.o == other.power.o && self.power.f == other.power.f
    }
}

/// The keys of a sequence of record views, in their order.
pub open spec fn card_keys(cards: Seq<CardView>) -> Seq<Seq<char>> {
    Seq::new(cards.len(), |i: int| cards[i].reference)
}

/// The records are in key order, each key once.
pub open spec fn is_card_table(cards: Seq<CardView>) -> bool {
    ascending(card_keys(cards))
}

/// The map from key to record that a card table stands for.
pub open spec fn record_map(cards: Seq<CardView>) -> Map<Seq<char>, CardView> {
    Map::new(
        |k: Seq<char>| card_keys(cards).contains(k),
        |k: Seq<char>| cards[rank(card_keys(cards), k)],
    )
}

/// The table with `card` put under its key, in place of the record that was
/// there if there was one.
pub open spec fn with_card(cards: Seq<CardView>, card: CardView) -> Seq<CardView> {
    let at = rank(card_keys(cards), card.reference);
    if card_keys(cards).contains(card.reference) {
        cards.update(at, card)
    } else {
        cards.insert(at, card)
    }
}

/// The table without the record under `key`; the table itself where it has
/// none.
pub open spec fn without_card(cards: Seq<CardView>, key: Seq<char>) -> Seq<CardView> {
    if card_keys(cards).contains(key) {
        cards.remove(rank(card_keys(cards), key))
    } else {
        cards
    }
}

/// Every record of a card table is the value of its key in the record map.
pub proof fn lemma_record_map_at(cards: Seq<CardView>, i: int)
    requires
        is_card_table(cards),
        0 <= i < cards.len(),
    ensures
        record_map(cards).contains_key(cards[i].reference),
        record_map(cards)[cards[i].reference] == cards[i],
        rank(card_keys(cards), cards[i].reference) == i,
{
    let keys = card_keys(cards);
    assert(keys[i] == cards[i].reference);
    lemma_rank_splits(keys, cards[i].reference);
    lemma_ascending_distinct(keys);
}

/// Putting a card into a table gives a table whose map is the old map with
/// the card inserted under its key.
pub proof fn lemma_with_card(cards: Seq<CardView>, card: CardView)
    requires
        is_card_table(cards),
    ensures
        is_card_table(with_card(cards, card)),
        record_map(with_card(cards, card)) == record_map(cards).insert(card.reference, card),
{
    let keys = card_keys(cards);
    let key = card.reference;
    let at = rank(keys, key);
    let next = with_card(cards, card);
    lemma_rank_splits(keys, key);
    if keys.contains(key) {
        assert(card_keys(next) =~= keys);
    } else {
        lemma_insert_at_rank(keys, key);
        assert(card_keys(next) =~= keys.insert(at, key));
    }
    let next_keys = card_keys(next);
    assert(next_keys[at] == key);
    assert forall|k: Seq<char>| next_keys.contains(k) <==> (keys.contains(k) || k == key) by {
        if next_keys.contains(k) {
            let i = choose|i: int| 0 <= i < next_keys.len() && next_keys[i] == k;
            if keys.contains(key) {
                assert(keys[i] == k);
            } else if i < at {
                assert(keys[i] == k);
            } else if i > at {
                assert(keys[i - 1] == k);
            }
        }
        if keys.contains(k) {
            let i = choose|i: int| 0 <= i < keys.len() && keys[i] == k;
            if keys.contains(key) {
                assert(next_keys[i] == k);
            } else if i < at {
                assert(next_keys[i] == k);
            } else {
                assert(next_keys[i + 1] == k);
            }
        }
    }
    assert forall|k: Seq<char>| next_keys.contains(k) implies #[trigger] record_map(next)[k]
        == record_map(cards).insert(key, card)[k] by {
        let i = choose|i: int| 0 <= i < next_keys.len() && next_keys[i] == k;
        lemma_record_map_at(next, i);
        if k != key {
            let j = choose|j: int| 0 <= j < keys.len() && keys[j] == k;
            lemma_record_map_at(cards, j);
            lemma_ascending_distinct(next_keys);
            if keys.contains(key) {
                assert(next_keys[j] == k);
            } else if j < at {
                assert(next_keys[j] == k);
            } else {
                assert(next_keys[j + 1] == k);
            }
        } else {
            lemma_ascending_distinct(next_keys);
        }
    }
    assert(record_map(next) =~= record_map(cards).insert(key, card));
}

/// Taking a key out of a table gives a table whose map is the old map
/// without that key.
pub proof fn lemma_without_card(cards: Seq<CardView>, key: Seq<char>)
    requires
        is_card_table(cards),
    ensures
        is_card_table(without_card(cards, key)),
        record_map(without_card(cards, key)) == record_map(cards).remove(key),
{
    let keys = card_keys(cards);
    let at = rank(keys, key);
    let next = without_card(cards, key);
    lemma_rank_splits(keys, key);
    if keys.contains(key) {
        lemma_remove_keeps_ascending(keys, at);
        assert(card_keys(next) =~= keys.remove(at));
        let next_keys = card_keys(next);
        assert forall|k: Seq<char>| next_keys.contains(k) <==> (keys.contains(k) && k != key) by {
            if next_keys.contains(k) {
                let i = choose|i: int| 0 <= i < next_keys.len() && next_keys[i] == k;
                if i < at {
                    assert(keys[i] == k);
                } else {
                    assert(keys[i + 1] == k);
                }
            }
            if keys.contains(k) && k != key {
                let i = choose|i: int| 0 <= i < keys.len() && keys[i] == k;
                if i < at {
                    assert(next_keys[i] == k);
                } else {
                    assert(next_keys[i - 1] == k);
                }
            }
        }
        assert forall|k: Seq<char>| next_keys.contains(k) implies #[trigger] record_map(next)[k]
            == record_map(cards)[k] by {
            let i = choose|i: int| 0 <= i < next_keys.len() && next_keys[i] == k;
            lemma_record_map_at(next, i);
            let j = if i < at { i } else { i + 1 };
            lemma_record_map_at(cards, j);
        }
        assert(record_map(next) =~= record_map(cards).remove(key));
    } else {
        assert(record_map(next) =~= record_map(cards).remove(key));
    }
}

/// Two card tables that stand for the same map are the same sequence.
pub proof fn lemma_same_records_same_table(a: Seq<CardView>, b: Seq<CardView>)
    requires
        is_card_table(a),
        is_card_table(b),
        record_map(a) == record_map(b),
    ensures
        a == b,
{
    let ka = card_keys(a);
    let kb = card_keys(b);
    lemma_ascending_distinct(ka);
    lemma_ascending_distinct(kb);
    assert(ka.to_set() =~= kb.to_set()) by {
        assert forall|k: Seq<char>| ka.contains(k) <==> kb.contains(k) by {
            assert(record_map(a).contains_key(k) == ka.contains(k));
            assert(record_map(b).contains_key(k) == kb.contains(k));
        }
    }
    ka.unique_seq_to_set();
    kb.unique_seq_to_set();
    assert(a.len() == b.len());
    assert forall|i: int| 0 <= i < a.len() implies #[trigger] a[i] == b[i] by {
        lemma_record_map_at(a, i);
        let k = a[i].reference;
        assert(record_map(b).contains_key(k));
        let j = choose|j: int| 0 <= j < kb.len() && kb[j] == k;
        lemma_record_map_at(b, j);
        lemma_rank_counts(a, b, k);
    }
    assert(a =~= b);
}

/// In two tables with the same keys a key has the same rank.
proof fn lemma_rank_counts(a: Seq<CardView>, b: Seq<CardView>, key: Seq<char>)
    requires
        is_card_table(a),
        is_card_table(b),
        record_map(a).dom() == record_map(b).dom(),
    ensures
        rank(card_keys(a), key) == rank(card_keys(b), key),
{
    let ka = card_keys(a);
    let kb = card_keys(b);
    lemma_rank_splits(ka, key);
    lemma_rank_splits(kb, key);
    lemma_ascending_distinct(ka);
    lemma_ascending_distinct(kb);
    let ra = rank(ka, key);
    let rb = rank(kb, key);
    // The keys below the rank are exactly the keys of the map that come
    // before `key`; both tables hold each of them once.
    let below_a = ka.take(ra);
    let below_b = kb.take(rb);
    assert forall|k: Seq<char>| below_a.contains(k) <==> below_b.contains(k) by {
        if below_a.contains(k) {
            let i = choose|i: int| 0 <= i < below_a.len() && below_a[i] == k;
            assert(ka[i] == k);
            assert(ka.contains(k));
            assert(record_map(a).dom().contains(k));
            assert(record_map(b).dom().contains(k));
            let j = choose|j: int| 0 <= j < kb.len() && kb[j] == k;
            if j >= rb {
                assert(!key_before(kb[j], key));
            }
            assert(below_b[j] == k);
        }
        if below_b.contains(k) {
            let j = choose|j: int| 0 <= j < below_b.len() && below_b[j] == k;
            assert(kb[j] == k);
            assert(kb.contains(k));
            assert(record_map(b).dom().contains(k));
            assert(record_map(a).dom().contains(k));
            let i = choose|i: int| 0 <= i < ka.len() && ka[i] == k;
            if i >= ra {
                assert(!key_before(ka[i], key));
            }
            assert(below_a[i] == k);
        }
    }
    assert(below_a.no_duplicates());
    assert(below_b.no_duplicates());
    assert(below_a.to_set() =~= below_b.to_set());
    below_a.unique_seq_to_set();
    below_b.unique_seq_to_set();
}

/// The views of a sequence of records, in their order.
pub open spec fn views_of(cards: Seq<CardRecord>) -> Seq<CardView> {
    cards.map_values(|c: CardRecord| c@)
}

/// The keys of records are the keys of their views.
pub proof fn lemma_keys_of_views(cards: Seq<CardRecord>)
    ensures
        keys_of(cards) == card_keys(views_of(cards)),
{
    assert(keys_of(cards) =~= card_keys(views_of(cards)));
}

/// Where a catalog comes from and when it was made.
#[derive(Clone, Debug, PartialEq, Eq)]
pub struct Meta {
    pub script_version: String,
    /// Milliseconds since the Unix epoch, UTC.
    pub generated_at_utc: i64,
    pub source_set: String,
    pub data_sources: Vec<String>,
    pub total_cards: usize,
}

/// The card records of a catalog, each under its own key, in key order.
#[derive(Debug, PartialEq, Eq)]
pub struct CardTable {
    cards: Vec<CardRecord>,
}

impl CardTable {
    /// The records, in key order.
    pub closed spec fn card_views(&self) -> Seq<CardView> {
        views_of(self.cards@)
    }

    /// The records, by key.
    pub open spec fn records(&self) -> Map<Seq<char>, CardView> {
        record_map(self.card_views())
    }

    /// The keys ascend, so each record has a key of its own.
    pub open spec fn wf(&self) -> bool {
        is_card_table(self.card_views())
    }

    /// A table without records.
    pub fn new() -> (table: Self)
        ensures
            table.wf(),
            table.card_views() == Seq::<CardView>::empty(),
    {
        let table = CardTable { cards: Vec::new() };
        assert(table.card_views() =~= Seq::<CardView>::empty());
        table
    }

    /// The number of records.
    pub fn len(&self) -> (n: usize)
        ensures
            n == self.card_views().len(),
    {
        self.cards.len()
    }

    /// The records, in key order.
    pub fn as_slice(&self) -> (cards: &[CardRecord])
        ensures
            views_of(cards@) == self.card_views(),
    {
        self.cards.as_slice()
    }

    /// The record under `reference`, if there is one.
    pub fn get(&self, reference: &str) -> (card: Option<&CardRecord>)
        requires
            self.wf(),
        ensures
            card is Some <==> self.records().contains_key(reference@),
            card is Some ==> card->0@ == self.records()[reference@],
    {
        proof {
            lemma_keys_of_views(self.cards@);
        }
        match find_key(&self.cards, reference) {
            Ok(i) => Some(&self.cards[i]),
            Err(_) => None,
        }
    }

    /// Whether there is a record under `reference`.
    pub fn contains_key(&self, reference: &str) -> (present: bool)
        requires
            self.wf(),
        ensures
            present == self.records().contains_key(reference@),
    {
        self.get(reference).is_some()
    }

    /// Files `card` under its key, in place of the record that was there if
    /// there was one.
    pub fn insert(&mut self, card: CardRecord)
        requires
            old(self).wf(),
        ensures
            final(self).wf(),
            final(self).card_views() == with_card(old(self).card_views(), card@),
            final(self).records() == old(self).records().insert(card@.reference, card@),
    {
        proof {
            lemma_keys_of_views(self.cards@);
            lemma_with_card(self.card_views(), card@);
        }
        let ghost before = self.card_views();
        match find_key(&self.cards, card.reference.as_str()) {
            Ok(i) => {
                self.cards[i] = card;
                assert(self.card_views() =~= before.update(i as int, card@));
            },
            Err(i) => {
                self.cards.insert(i, card);
                assert(self.card_views() =~= before.insert(i as int, card@));
            },
        }
    }

    /// Takes out the record under `reference` and returns it. A table that
    /// has no such record stays as it is.
    pub fn remove(&mut self, reference: &str) -> (removed: Option<CardRecord>)
        requires
            old(self).wf(),
        ensures
            final(self).wf(),
            final(self).card_views() == without_card(old(self).card_views(), reference@),
            final(self).records() == old(self).records().remove(reference@),
            removed is Some <==> old(self).records().contains_key(reference@),
            removed is Some ==> removed->0@ == old(self).records()[reference@],
    {
        proof {
            lemma_keys_of_views(self.cards@);
            lemma_without_card(self.card_views(), reference@);
        }
        let ghost before = self.card_views();
        match find_key(&self.cards, reference) {
            Ok(i) => {
                let card = self.cards.remove(i);
                assert(self.card_views() =~= before.remove(i as int));
                Some(card)
            },
            Err(_) => None,
        }
    }
}

/// A catalog: metadata, lookup tables and card records.
#[derive(Debug, PartialEq, Eq)]
pub struct OptimizedData {
    pub meta: Meta,
    pub lookup_tables: LookupTables,
    pub cards: CardTable,
}

impl OptimizedData {
    /// The card table and the lookup tables are well formed.
    pub open spec fn wf(&self) -> bool {
        &&& self.cards.wf()
        &&& self.lookup_tables.wf()
    }
}

} // verus!
