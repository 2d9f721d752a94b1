//! The encoded database: what a catalog becomes when its strings are pooled,
//! its reference codes are replaced by table indices, and its records are put
//! in the order of their numeric identities.

use crate::catalog::{views_of, CardRecord, CardView, OptimizedData};
use crate::error::CatalogError;
use crate::identity::{generate_numeric_id, identity_of};
use crate::lookup::{code_index, LookupTables, TABLE_CAPACITY};
use crate::ordering::{
    ascending_ids, lemma_sorted_by_id, sort_by_id, sorted_by_id, OptimizedCard,
};
use crate::packing::{pack_power_values, packed_word};
use crate::string_pool::{
    handle_of, interned, interned_all, lemma_interned_all_concat, lemma_interned_all_extends,
    lemma_interned_all_push, lemma_interned_extends, texts_of, StringPool, POOL_CAPACITY,
};
use vstd::prelude::*;
use vstd::string::*;

verus! {

/// The strings of a record that go into the pool, in the order in which they
/// are interned.
pub open spec fn record_strings(card: CardView) -> Seq<Seq<char>> {
    seq![card.reference, card.name, card.image_path, card.qr_url]
}

/// The strings of all records, record after record.
pub open spec fn pooled_strings(cards: Seq<CardView>) -> Seq<Seq<char>>
    decreases cards.len(),
{
    if cards.len() == 0 {
        Seq::empty()
    } else {
        pooled_strings(cards.drop_last()) + record_strings(cards.last())
    }
}

/// The string pool of a catalog: the distinct strings of its records, each at
/// the place of its first occurrence.
pub open spec fn pool_of(cards: Seq<CardView>) -> Seq<Seq<char>> {
    interned_all(Seq::empty(), pooled_strings(cards))
}

/// The codes of the three lookup tables, each list in index order.
pub struct TableCodes {
    pub rarities: Seq<Seq<char>>,
    pub factions: Seq<Seq<char>>,
    pub card_types: Seq<Seq<char>>,
}

/// The codes of the lookup tables of a catalog.
pub open spec fn codes_of(tables: LookupTables) -> TableCodes {
    TableCodes {
        rarities: tables.rarities.codes(),
        factions: tables.factions.codes(),
        card_types: tables.card_types.codes(),
    }
}

/// The encoded form of a record, given the pool and the table codes.
pub open spec fn encoded_card(card: CardView, pool: Seq<Seq<char>>, codes: TableCodes)
    -> OptimizedCard {
    OptimizedCard {
        id: identity_of(card.reference),
        reference_idx: handle_of(pool, card.reference) as u16,
        name_idx: handle_of(pool, card.name) as u16,
        faction_id: code_index(codes.factions, card.faction_ref) as u16,
        rarity_id: code_index(codes.rarities, card.rarity_ref) as u16,
        card_type_id: code_index(codes.card_types, card.type_ref) as u16,
        main_cost: card.main_cost,
        recall_cost: card.recall_cost,
        power_packed: packed_word(card.power.m, card.power.o, card.power.f),
        image_path_idx: handle_of(pool, card.image_path) as u16,
        qr_url_idx: handle_of(pool, card.qr_url) as u16,
        flags: if card.is_suspended {
            1u8
        } else {
            0u8
        },
    }
}

/// The encoded forms of the records, in the order of the records.
pub open spec fn encoded_cards(cards: Seq<CardView>, pool: Seq<Seq<char>>, codes: TableCodes)
    -> Seq<OptimizedCard> {
    Seq::new(cards.len(), |i: int| encoded_card(cards[i], pool, codes))
}

/// An encoded database, with its strings as sequences of characters.
pub struct EncodedView {
    pub strings: Seq<Seq<char>>,
    pub cards: Seq<OptimizedCard>,
}

/// An encoded database: the string pool and the encoded records in the order
/// of their identities.
#[derive(Debug, PartialEq, Eq)]
pub struct EncodedDatabase {
    pub strings: Vec<String>,
    pub cards: Vec<OptimizedCard>,
}

impl View for EncodedDatabase {
    type V = EncodedView;

    open spec fn view(&self) -> EncodedView {
        EncodedView { strings: texts_of(self.strings@), cards: self.cards@ }
    }
}

/// Some record is filed under the empty key.
pub open spec fn has_missing_key(cards: Seq<CardView>) -> bool {
    exists|i: int| 0 <= i < cards.len() && (#[trigger] cards[i]).reference.len() == 0
}

/// The encoded database of a catalog.
pub open spec fn encoding_of(cards: Seq<CardView>, codes: TableCodes) -> EncodedView {
    EncodedView {
        strings: pool_of(cards),
        cards: sorted_by_id(encoded_cards(cards, pool_of(cards), codes)),
    }
}

/// None of the three lists of codes is longer than an encoded record has
/// indices for.
pub open spec fn codes_fit(codes: TableCodes) -> bool {
    &&& codes.rarities.len() <= TABLE_CAPACITY
    &&& codes.factions.len() <= TABLE_CAPACITY
    &&& codes.card_types.len() <= TABLE_CAPACITY
}

/// What encoding a catalog gives: a failure where a record has no key, or
/// else where a lookup table holds more codes than there are indices, or
/// else where the strings do not fit the pool, and the encoded database
/// otherwise.
pub open spec fn encode_result(cards: Seq<CardView>, codes: TableCodes) -> Result<
    EncodedView,
    CatalogError,
> {
    if has_missing_key(cards) {
        Err(CatalogError::MissingKey)
    } else if !codes_fit(codes) {
        Err(CatalogError::TableOverflow)
    } else if pool_of(cards).len() > POOL_CAPACITY {
        Err(CatalogError::PoolOverflow)
    } else {
        Ok(encoding_of(cards, codes))
    }
}

/// The strings of a concatenation are the strings of its parts.
proof fn lemma_pooled_strings_concat(first: Seq<CardView>, second: Seq<CardView>)
    ensures
        pooled_strings(first + second) == pooled_strings(first) + pooled_strings(second),
    decreases second.len(),
{
    if second.len() == 0 {
        assert(first + second =~= first);
        assert(pooled_strings(first) + pooled_strings(second) =~= pooled_strings(first));
    } else {
        assert((first + second).drop_last() =~= first + second.drop_last());
        assert((first + second).last() == second.last());
        lemma_pooled_strings_concat(first, second.drop_last());
        assert(pooled_strings(first + second) =~= pooled_strings(first) + pooled_strings(second));
    }
}

/// The pool of a catalog has no repetitions, and the pool of its first
/// records is no longer than the pool of all.
proof fn lemma_pool_grows(cards: Seq<CardView>, n: int)
    requires
        0 <= n <= cards.len(),
    ensures
        pool_of(cards).no_duplicates(),
        pool_of(cards.take(n)).no_duplicates(),
        pool_of(cards.take(n)).len() <= pool_of(cards).len(),
{
    let head = cards.take(n);
    let tail = cards.skip(n);
    assert(head + tail =~= cards);
    lemma_pooled_strings_concat(head, tail);
    lemma_interned_all_concat(Seq::empty(), pooled_strings(head), pooled_strings(tail));
    lemma_interned_all_extends(Seq::empty(), pooled_strings(head));
    lemma_interned_all_extends(pool_of(head), pooled_strings(tail));
}

/// The pool after one more record: the strings of the record interned into
/// the pool of the records before it.
proof fn lemma_pool_step(cards: Seq<CardView>, n: int)
    requires
        0 <= n < cards.len(),
    ensures
        pool_of(cards.take(n + 1)) == interned_all(
            pool_of(cards.take(n)),
            record_strings(cards[n]),
        ),
{
    assert(cards.take(n + 1).drop_last() =~= cards.take(n));
    assert(cards.take(n + 1).last() == cards[n]);
    lemma_interned_all_concat(
        Seq::empty(),
        pooled_strings(cards.take(n)),
        record_strings(cards[n]),
    );
}

/// Every string of the first `n` records is in the pool of these records.
proof fn lemma_pool_holds(cards: Seq<CardView>, n: int, j: int)
    requires
        0 <= j < n <= cards.len(),
    ensures
        pool_of(cards.take(n)).contains(cards[j].reference),
        pool_of(cards.take(n)).contains(cards[j].name),
        pool_of(cards.take(n)).contains(cards[j].image_path),
        pool_of(cards.take(n)).contains(cards[j].qr_url),
    decreases n,
{
    lemma_pool_grows(cards, n - 1);
    lemma_pool_step(cards, n - 1);
    let before = pool_of(cards.take(n - 1));
    let strings = record_strings(cards[n - 1]);
    lemma_interned_all_extends(before, strings);
    if j == n - 1 {
        assert(strings[0] == cards[j].reference);
        assert(strings[1] == cards[j].name);
        assert(strings[2] == cards[j].image_path);
        assert(strings[3] == cards[j].qr_url);
    } else {
        lemma_pool_holds(cards, n - 1, j);
    }
}

/// The encoded forms of the first `n` records do not change when the next
/// record is pooled.
proof fn lemma_encoded_cards_stable(cards: Seq<CardView>, n: int, codes: TableCodes)
    requires
        0 <= n < cards.len(),
    ensures
        encoded_cards(cards.take(n + 1), pool_of(cards.take(n + 1)), codes).drop_last()
            == encoded_cards(cards.take(n), pool_of(cards.take(n)), codes),
{
    let before = pool_of(cards.take(n));
    let after = pool_of(cards.take(n + 1));
    lemma_pool_grows(cards, n);
    lemma_pool_step(cards, n);
    lemma_interned_all_extends(before, record_strings(cards[n]));
    let left = encoded_cards(cards.take(n + 1), after, codes).drop_last();
    let right = encoded_cards(cards.take(n), before, codes);
    assert forall|j: int| 0 <= j < n implies left[j] == right[j] by {
        lemma_pool_holds(cards, n, j);
        assert(cards.take(n + 1)[j] == cards[j]);
        assert(cards.take(n)[j] == cards[j]);
        assert(after.contains(cards[j].reference));
        assert(after.contains(cards[j].name));
        assert(after.contains(cards[j].image_path));
        assert(after.contains(cards[j].qr_url));
    }
    assert(left =~= right);
}

/// The pool handles of the strings of one record.
struct RecordHandles {
    reference: u16,
    name: u16,
    image_path: u16,
    qr_url: u16,
}

/// Interns the four pooled strings of `card`. The result is `None` where the
/// pool cannot take them all; the pool may then hold some of them.
fn intern_record(pool: &mut StringPool, card: &CardRecord) -> (handles: Option<RecordHandles>)
    requires
        old(pool).wf(),
    ensures
        final(pool).wf(),
        handles is None <==> interned_all(old(pool)@, record_strings(card@)).len()
            > POOL_CAPACITY,
        handles is Some ==> {
            let after = interned_all(old(pool)@, record_strings(card@));
            &&& final(pool)@ == after
            &&& handles->0.reference as int == handle_of(after, card@.reference)
            &&& handles->0.name as int == handle_of(after, card@.name)
            &&& handles->0.image_path as int == handle_of(after, card@.image_path)
            &&& handles->0.qr_url as int == handle_of(after, card@.qr_url)
        },
{
    let ghost start = pool@;
    let ghost s = record_strings(card@);
    let ghost has_key_text = interned(start, card@.reference);
    let ghost has_name = interned(has_key_text, card@.name);
    let ghost has_path = interned(has_name, card@.image_path);
    let ghost has_all = interned(has_path, card@.qr_url);
    proof {
        pool.lemma_wf_distinct();
        lemma_interned_extends(start, card@.reference);
        lemma_interned_extends(has_key_text, card@.name);
        lemma_interned_extends(has_name, card@.image_path);
        lemma_interned_extends(has_path, card@.qr_url);
        assert(s =~= Seq::<Seq<char>>::empty().push(card@.reference).push(card@.name).push(
            card@.image_path,
        ).push(card@.qr_url));
        let e = Seq::<Seq<char>>::empty();
        lemma_interned_all_push(start, e, card@.reference);
        lemma_interned_all_push(start, e.push(card@.reference), card@.name);
        lemma_interned_all_push(start, e.push(card@.reference).push(card@.name), card@.image_path);
        lemma_interned_all_push(
            start,
            e.push(card@.reference).push(card@.name).push(card@.image_path),
            card@.qr_url,
        );
        assert(interned_all(start, s) == has_all);
    }
    let reference_idx = match pool.try_add_string(card.reference.as_str()) {
        Some(h) => h,
        None => {
            return None;
        },
    };
    let name_idx = match pool.try_add_string(card.name.as_str()) {
        Some(h) => h,
        None => {
            return None;
        },
    };
    let image_path_idx = match pool.try_add_string(card.image_path.as_str()) {
        Some(h) => h,
        None => {
            return None;
        },
    };
    let qr_url_idx = match pool.try_add_string(card.qr_url.as_str()) {
        Some(h) => h,
        None => {
            return None;
        },
    };
    proof {
        pool.lemma_wf_distinct();
    }
    Some(
        RecordHandles {
            reference: reference_idx,
            name: name_idx,
            image_path: image_path_idx,
            qr_url: qr_url_idx,
        },
    )
}

/// Whether some record of the catalog is filed under the empty key.
fn find_missing_key(cards: &[CardRecord]) -> (missing: bool)
    ensures
        missing == has_missing_key(views_of(cards@)),
{
    let mut i: usize = 0;
    while i < cards.len()
        invariant
            i <= cards.len(),
            forall|j: int| 0 <= j < i ==> (#[trigger] views_of(cards@)[j]).reference.len() != 0,
        decreases cards.len() - i,
    {
        if cards[i].reference.as_str().is_empty() {
            assert(views_of(cards@)[i as int].reference.len() == 0);
            return true;
        }
        i += 1;
    }
    false
}

/// Encodes a catalog.
///
/// A catalog with a record under the empty key is refused, then one with a
/// lookup table of more codes than there are indices, then one with more
/// distinct strings than a pool holds.
///
/// The records are taken in key order. The strings of each (key, name,
/// image path, QR URL) are interned, its three reference codes are replaced
/// by their table indices, a code that its table does not hold by index 0,
/// its power values are packed, and its costs and its suspended flag are
/// carried over. The encoded records are then put in ascending order of identity,
/// records of equal identity in the order of their keys.
pub fn encode_catalog(data: &OptimizedData) -> (outcome: Result<EncodedDatabase, CatalogError>)
    requires
        data.wf(),
    ensures
        match outcome {
            Ok(db) => encode_result(data.cards.card_views(), codes_of(data.lookup_tables)) == Ok::<
                EncodedView,
                CatalogError,
            >(db@) && ascending_ids(db@.cards) && db@.cards.len() == data.cards.card_views().len(),
            Err(e) => encode_result(data.cards.card_views(), codes_of(data.lookup_tables))
                == Err::<EncodedView, CatalogError>(e),
        },
{
    let cards = data.cards.as_slice();
    let ghost all = data.cards.card_views();
    let ghost codes = codes_of(data.lookup_tables);
    if find_missing_key(cards) {
        return Err(CatalogError::MissingKey);
    }
    if !data.lookup_tables.fit_indices() {
        return Err(CatalogError::TableOverflow);
    }
    let mut pool = StringPool::new();
    let mut records: Vec<OptimizedCard> = Vec::new();
    let mut i: usize = 0;
    proof {
        assert(all.take(0) =~= Seq::<CardView>::empty());
        assert(encoded_cards(all.take(0), pool@, codes) =~= Seq::<OptimizedCard>::empty());
    }
    while i < cards.len()
        invariant
            data.wf(),
            all == views_of(cards@),
            all == data.cards.card_views(),
            codes == codes_of(data.lookup_tables),
            i <= cards.len(),
            !has_missing_key(all),
            data.lookup_tables.are_indexable(),
            pool.wf(),
            pool@ == pool_of(all.take(i as int)),
            records@ == encoded_cards(all.take(i as int), pool@, codes),
        decreases cards.len() - i,
    {
        let card = &cards[i];
        assert(card@ == all[i as int]);
        proof {
            lemma_pool_step(all, i as int);
            lemma_pool_grows(all, i + 1);
            lemma_encoded_cards_stable(all, i as int, codes);
        }
        let handles = match intern_record(&mut pool, card) {
            Some(h) => h,
            None => {
                return Err(CatalogError::PoolOverflow);
            },
        };
        let encoded = OptimizedCard {
            id: generate_numeric_id(card.reference.as_str()),
            reference_idx: handles.reference,
            name_idx: handles.name,
            faction_id: data.lookup_tables.factions.index_or_zero(card.faction_ref.as_str()),
            rarity_id: data.lookup_tables.rarities.index_or_zero(card.rarity_ref.as_str()),
            card_type_id: data.lookup_tables.card_types.index_or_zero(card.type_ref.as_str()),
            main_cost: card.main_cost,
            recall_cost: card.recall_cost,
            power_packed: pack_power_values(card.power.m, card.power.o, card.power.f),
            image_path_idx: handles.image_path,
            qr_url_idx: handles.qr_url,
            flags: if card.is_suspended {
                1
            } else {
                0
            },
        };
        let ghost before = records@;
        records.push(encoded);
        proof {
            let next = encoded_cards(all.take(i + 1), pool@, codes);
            assert(all.take(i + 1)[i as int] == all[i as int]);
            assert(next.last() == encoded);
            assert(next.drop_last() == before);
            assert(records@ =~= next);
        }
        i += 1;
    }
    proof {
        assert(all.take(cards.len() as int) =~= all);
        pool.lemma_wf_distinct();
        assert(encoded_cards(all, pool@, codes).len() == all.len());
    }
    let sorted = sort_by_id(&records);
    Ok(EncodedDatabase { strings: pool.into_strings(), cards: sorted })
}

/// The records of an encoded database never descend in identity, and they
/// are the encoded records of the catalog, each as often as it occurs there.
pub proof fn lemma_encoding_ascends(cards: Seq<CardView>, codes: TableCodes)
    ensures
        ascending_ids(encoding_of(cards, codes).cards),
        encoding_of(cards, codes).cards.len() == cards.len(),
        encoding_of(cards, codes).cards.to_multiset() == encoded_cards(
            cards,
            pool_of(cards),
            codes,
        ).to_multiset(),
{
    lemma_sorted_by_id(encoded_cards(cards, pool_of(cards), codes));
}

/// Some two records have the same identity. The keys of a catalog differ, so
/// two such records stand for different keys whose identities collide.
pub open spec fn has_collision(cards: Seq<OptimizedCard>) -> bool {
    exists|i: int, j: int| 0 <= i < j < cards.len() && cards[i].id == cards[j].id
}

/// Whether two records of an ascending sequence have the same identity.
/// An encoded database with a collision still holds every record; only a
/// reader that looks a record up by identity alone may find another one.
pub fn has_identity_collision(cards: &Vec<OptimizedCard>) -> (found: bool)
    requires
        ascending_ids(cards@),
    ensures
        found == has_collision(cards@),
{
    if cards.len() < 2 {
        return false;
    }
    let mut i: usize = 0;
    while i + 1 < cards.len()
        invariant
            i < cards.len(),
            ascending_ids(cards@),
            forall|a: int, b: int| 0 <= a < b <= i ==> cards@[a].id < cards@[b].id,
        decreases cards.len() - i,
    {
        if cards[i].id == cards[i + 1].id {
            assert(0 <= i < i + 1 < cards@.len() && cards@[i as int].id == cards@[i + 1].id);
            return true;
        }
        assert forall|a: int, b: int| 0 <= a < b <= i + 1 implies cards@[a].id < cards@[b].id by {
            if b == i + 1 && a < i {
                assert(cards@[a].id < cards@[i as int].id);
            }
        }
        i += 1;
    }
    false
}

} // verus!
