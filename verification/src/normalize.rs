//! From harvested cards to a catalog.
//!
//! A harvested card is what was read of one card at its source, every value
//! as it was found. Normalizing files the cards under their keys and gathers
//! the lookup tables from the codes that the cards name.

use crate::catalog::{with_card, CardRecord, CardTable, CardView, Meta, OptimizedData, PowerStats};
use crate::lookup::{
    offered, CardTypeInfo, FactionInfo, LookupEntry, LookupTable, LookupTables, RarityInfo,
};
use vstd::prelude::*;
use vstd::string::*;
use vstd::utf8::*;

verus! {

/// A reference code as a harvested card names it, with its description.
#[derive(Clone, Debug, PartialEq, Eq)]
pub struct RawCode {
    pub reference: String,
    pub name: String,
    /// The color of a faction; empty for the other codes.
    pub color: String,
}

/// One card as it was harvested. A text that the source did not have is
/// empty, a number that it did not have is zero, and a code that it did not
/// have is `None`.
#[derive(Clone, Debug, PartialEq, Eq)]
pub struct RawCard {
    pub reference: String,
    pub name: String,
    pub image_path: String,
    pub qr_url: String,
    pub rarity: Option<RawCode>,
    pub faction: Option<RawCode>,
    pub card_type: Option<RawCode>,
    pub main_cost: i64,
    pub recall_cost: i64,
    pub mountain_power: i64,
    pub ocean_power: i64,
    pub forest_power: i64,
    pub is_suspended: bool,
}

/// The text of a value that the source may not have: empty where it has
/// none.
pub fn text_or_empty(value: Option<&str>) -> (text: String)
    ensures
        text@ == match value {
            Some(v) => v@,
            None => Seq::<char>::empty(),
        },
{
    match value {
        Some(v) => String::from_str(v),
        None => String::new(),
    }
}

/// Whether a byte is a decimal digit.
pub open spec fn is_digit(byte: u8) -> bool {
    0x30 <= byte <= 0x39
}

/// Whether all bytes are decimal digits.
pub open spec fn all_digits(digits: Seq<u8>) -> bool {
    forall|i: int| 0 <= i < digits.len() ==> is_digit(#[trigger] digits[i])
}

/// The number that decimal digits spell; zero for none.
pub open spec fn digits_value(digits: Seq<u8>) -> nat
    decreases digits.len(),
{
    if digits.len() == 0 {
        0
    } else {
        digits_value(digits.drop_last()) * 10 + (digits.last() - 0x30) as nat
    }
}

/// The number that a text spells, given by its bytes: a plus or a minus sign
/// or none, then one decimal digit or more, the whole within the range of 64
/// bits. `None` for every other text.
pub open spec fn spelled_number(bytes: Seq<u8>) -> Option<i64> {
    let negative = bytes.len() > 0 && bytes[0] == 0x2D;
    let signed = bytes.len() > 0 && (bytes[0] == 0x2D || bytes[0] == 0x2B);
    let digits = if signed {
        bytes.skip(1)
    } else {
        bytes
    };
    if digits.len() == 0 || !all_digits(digits) {
        None
    } else if negative {
        if digits_value(digits) <= 0x8000_0000_0000_0000 {
            Some((0 - digits_value(digits)) as i64)
        } else {
            None
        }
    } else if digits_value(digits) <= 0x7FFF_FFFF_FFFF_FFFF {
        Some(digits_value(digits) as i64)
    } else {
        None
    }
}

/// The number of a text that the source may not have, or that may spell no
/// number: zero in both cases.
pub open spec fn number_of(value: Option<Seq<char>>) -> i64 {
    match value {
        Some(v) => match spelled_number(encode_utf8(v)) {
            Some(n) => n,
            None => 0,
        },
        None => 0,
    }
}

/// More digits spell no smaller number.
proof fn lemma_digits_value_grows(digits: Seq<u8>, n: int)
    requires
        0 <= n <= digits.len(),
        all_digits(digits),
    ensures
        digits_value(digits.take(n)) <= digits_value(digits),
    decreases digits.len() - n,
{
    if n < digits.len() {
        assert(digits.take(n + 1).drop_last() =~= digits.take(n));
        assert(is_digit(digits[n]));
        assert(digits.take(n + 1).last() == digits[n]);
        lemma_digits_value_grows(digits, n + 1);
    } else {
        assert(digits.take(n) =~= digits);
    }
}

/// The number that the bytes from `from` on spell as digits, if they are
/// digits and the number is at most `limit`.
fn read_digits(bytes: &[u8], from: usize, limit: u64) -> (value: Option<u64>)
    requires
        from <= bytes@.len(),
        9 <= limit <= 0x8000_0000_0000_0000,
    ensures
        value is Some <==> all_digits(bytes@.skip(from as int)) && digits_value(
            bytes@.skip(from as int),
        ) <= limit,
        value is Some ==> value->0 == digits_value(bytes@.skip(from as int)),
{
    let ghost digits = bytes@.skip(from as int);
    let mut i: usize = from;
    while i < bytes.len()
        invariant
            from <= i <= bytes@.len(),
            digits == bytes@.skip(from as int),
            forall|k: int| 0 <= k < i - from ==> is_digit(#[trigger] digits[k]),
        decreases bytes.len() - i,
    {
        if bytes[i] < 0x30 || bytes[i] > 0x39 {
            assert(!is_digit(digits[i - from]));
            return None;
        }
        i += 1;
    }
    assert(all_digits(digits));
    let mut acc: u64 = 0;
    let mut j: usize = from;
    assert(digits.take(0) =~= Seq::<u8>::empty());
    while j < bytes.len()
        invariant
            from <= j <= bytes@.len(),
            digits == bytes@.skip(from as int),
            all_digits(digits),
            9 <= limit <= 0x8000_0000_0000_0000,
            acc == digits_value(digits.take(j - from)),
            acc <= limit,
        decreases bytes.len() - j,
    {
        assert(is_digit(digits[j - from]) && digits[j - from] == bytes@[j as int]);
        let d: u64 = (bytes[j] - 0x30) as u64;
        proof {
            assert(digits.take(j - from + 1).drop_last() =~= digits.take(j - from));
            assert(digits.take(j - from + 1).last() == bytes@[j as int]);
            lemma_digits_value_grows(digits, j - from + 1);
        }
        if acc > (limit - d) / 10 {
            return None;
        }
        acc = acc * 10 + d;
        j += 1;
    }
    assert(digits.take(bytes.len() - from) =~= digits);
    Some(acc)
}

/// The number of a text that the source may not have: what the text spells,
/// and zero where there is no text or it spells no number.
pub fn number_or_zero(value: Option<&str>) -> (number: i64)
    ensures
        number == number_of(
            match value {
                Some(v) => Some(v@),
                None => None,
            },
        ),
{
    let text = match value {
        Some(v) => v,
        None => {
            return 0;
        },
    };
    let bytes = text.as_bytes();
    if bytes.len() == 0 {
        return 0;
    }
    if bytes[0] == 0x2D {
        if bytes.len() == 1 {
            return 0;
        }
        match read_digits(bytes, 1, 0x8000_0000_0000_0000) {
            Some(magnitude) => {
                if magnitude == 0x8000_0000_0000_0000 {
                    i64::MIN
                } else {
                    0 - (magnitude as i64)
                }
            },
            None => 0,
        }
    } else if bytes[0] == 0x2B {
        if bytes.len() == 1 {
            return 0;
        }
        match read_digits(bytes, 1, 0x7FFF_FFFF_FFFF_FFFF) {
            Some(magnitude) => magnitude as i64,
            None => 0,
        }
    } else {
        assert(bytes@.skip(0) =~= bytes@);
        match read_digits(bytes, 0, 0x7FFF_FFFF_FFFF_FFFF) {
            Some(magnitude) => magnitude as i64,
            None => 0,
        }
    }
}

/// The byte nearest to `value`.
pub open spec fn clamped(value: i64) -> u8 {
    if value < 0 {
        0
    } else if value > 255 {
        255
    } else {
        value as u8
    }
}

/// Brings a number into the range of a byte: a negative one becomes 0, one
/// above 255 becomes 255.
pub fn clamp_to_byte(value: i64) -> (byte: u8)
    ensures
        byte == clamped(value),
{
    if value < 0 {
        0
    } else if value > 255 {
        255
    } else {
        value as u8
    }
}

/// The reference of a code that may be missing: empty where it is.
pub open spec fn code_reference(code: Option<RawCode>) -> Seq<char> {
    match code {
        Some(c) => c.reference@,
        None => Seq::empty(),
    }
}

/// The record that a harvested card becomes.
pub open spec fn card_of(raw: RawCard) -> CardView {
    CardView {
        reference: raw.reference@,
        name: raw.name@,
        type_ref: code_reference(raw.card_type),
        faction_ref: code_reference(raw.faction),
        rarity_ref: code_reference(raw.rarity),
        image_path: raw.image_path@,
        qr_url: raw.qr_url@,
        main_cost: clamped(raw.main_cost),
        recall_cost: clamped(raw.recall_cost),
        is_suspended: raw.is_suspended,
        power: PowerStats {
            m: clamped(raw.mountain_power),
            o: clamped(raw.ocean_power),
            f: clamped(raw.forest_power),
        },
    }
}

/// The records of the harvested cards: each card that has a key is filed
/// under it, a later card in place of an earlier one with the same key.
pub open spec fn normalized_cards(harvest: Seq<RawCard>) -> Seq<CardView>
    decreases harvest.len(),
{
    if harvest.len() == 0 {
        Seq::empty()
    } else if harvest.last().reference@.len() == 0 {
        normalized_cards(harvest.drop_last())
    } else {
        with_card(normalized_cards(harvest.drop_last()), card_of(harvest.last()))
    }
}

/// Whether a code goes into its table: a code without a reference only where
/// such codes are kept.
pub open spec fn is_listed(code: Option<RawCode>, keep_empty_codes: bool) -> bool {
    code is Some && (keep_empty_codes || code->0.reference@.len() > 0)
}

/// The rarity table of the harvested cards: the first description of each
/// code stays.
pub open spec fn gathered_rarities(harvest: Seq<RawCard>, keep_empty_codes: bool) -> Seq<
    LookupEntry<RarityInfo>,
>
    decreases harvest.len(),
{
    if harvest.len() == 0 {
        Seq::empty()
    } else if is_listed(harvest.last().rarity, keep_empty_codes) {
        offered(
            gathered_rarities(harvest.drop_last(), keep_empty_codes),
            LookupEntry {
                reference: harvest.last().rarity->0.reference,
                info: RarityInfo { name: harvest.last().rarity->0.name },
            },
        )
    } else {
        gathered_rarities(harvest.drop_last(), keep_empty_codes)
    }
}

/// The faction table of the harvested cards: the first description of each
/// code stays.
pub open spec fn gathered_factions(harvest: Seq<RawCard>, keep_empty_codes: bool) -> Seq<
    LookupEntry<FactionInfo>,
>
    decreases harvest.len(),
{
    if harvest.len() == 0 {
        Seq::empty()
    } else if is_listed(harvest.last().faction, keep_empty_codes) {
        offered(
            gathered_factions(harvest.drop_last(), keep_empty_codes),
            LookupEntry {
                reference: harvest.last().faction->0.reference,
                info: FactionInfo {
                    name: harvest.last().faction->0.name,
                    color: harvest.last().faction->0.color,
                },
            },
        )
    } else {
        gathered_factions(harvest.drop_last(), keep_empty_codes)
    }
}

/// The card-type table of the harvested cards: the first description of each
/// code stays.
pub open spec fn gathered_card_types(harvest: Seq<RawCard>, keep_empty_codes: bool) -> Seq<
    LookupEntry<CardTypeInfo>,
>
    decreases harvest.len(),
{
    if harvest.len() == 0 {
        Seq::empty()
    } else if is_listed(harvest.last().card_type, keep_empty_codes) {
        offered(
            gathered_card_types(harvest.drop_last(), keep_empty_codes),
            LookupEntry {
                reference: harvest.last().card_type->0.reference,
                info: CardTypeInfo { name: harvest.last().card_type->0.name },
            },
        )
    } else {
        gathered_card_types(harvest.drop_last(), keep_empty_codes)
    }
}

/// A copy of the reference of a code that may be missing.
fn reference_of(code: &Option<RawCode>) -> (reference: String)
    ensures
        reference@ == code_reference(*code),
{
    match code {
        Some(c) => c.reference.clone(),
        None => String::new(),
    }
}

/// The record that a harvested card becomes.
pub fn to_record(raw: &RawCard) -> (card: CardRecord)
    ensures
        card@ == card_of(*raw),
{
    CardRecord {
        reference: raw.reference.clone(),
        name: raw.name.clone(),
        type_ref: reference_of(&raw.card_type),
        faction_ref: reference_of(&raw.faction),
        rarity_ref: reference_of(&raw.rarity),
        image_path: raw.image_path.clone(),
        qr_url: raw.qr_url.clone(),
        main_cost: clamp_to_byte(raw.main_cost),
        recall_cost: clamp_to_byte(raw.recall_cost),
        is_suspended: raw.is_suspended,
        power: PowerStats {
            m: clamp_to_byte(raw.mountain_power),
            o: clamp_to_byte(raw.ocean_power),
            f: clamp_to_byte(raw.forest_power),
        },
    }
}

/// Whether a code goes into its table.
fn listed(code: &Option<RawCode>, keep_empty_codes: bool) -> (yes: bool)
    ensures
        yes == is_listed(*code, keep_empty_codes),
{
    match code {
        Some(c) => keep_empty_codes || !c.reference.as_str().is_empty(),
        None => false,
    }
}

/// What `normalize` says of the catalog that it makes.
pub open spec fn is_normalized(
    catalog: OptimizedData,
    harvest: Seq<RawCard>,
    keep_empty_codes: bool,
    script_version: Seq<char>,
    source_set: Seq<char>,
    data_sources: Vec<String>,
    generated_at: i64,
) -> bool {
    &&& catalog.wf()
    &&& catalog.cards.card_views() == normalized_cards(harvest)
    &&& catalog.lookup_tables.rarities.entries_view() == gathered_rarities(
        harvest,
        keep_empty_codes,
    )
    &&& catalog.lookup_tables.factions.entries_view() == gathered_factions(
        harvest,
        keep_empty_codes,
    )
    &&& catalog.lookup_tables.card_types.entries_view() == gathered_card_types(
        harvest,
        keep_empty_codes,
    )
    &&& catalog.meta.script_version@ == script_version
    &&& catalog.meta.source_set@ == source_set
    &&& catalog.meta.data_sources == data_sources
    &&& catalog.meta.generated_at_utc == generated_at
    &&& catalog.meta.total_cards == normalized_cards(harvest).len()
}

/// Makes a catalog of harvested cards.
///
/// The cards are taken in their order. Each code that a card names is added
/// to its lookup table unless the table has it already; a code without a
/// reference is added only where `keep_empty_codes` is set. A card without a
/// key is then passed over; any other is filed under its key, in place of an
/// earlier card with the same key. Costs and power values are brought into
/// the range of a byte. The record count of the metadata is the number of
/// records of the catalog.
pub fn normalize(
    harvest: &Vec<RawCard>,
    keep_empty_codes: bool,
    script_version: &str,
    source_set: &str,
    data_sources: Vec<String>,
    generated_at: i64,
) -> (catalog: OptimizedData)
    ensures
        is_normalized(
            catalog,
            harvest@,
            keep_empty_codes,
            script_version@,
            source_set@,
            data_sources,
            generated_at,
        ),
{
    let mut rarities: LookupTable<RarityInfo> = LookupTable::new();
    let mut factions: LookupTable<FactionInfo> = LookupTable::new();
    let mut card_types: LookupTable<CardTypeInfo> = LookupTable::new();
    let mut cards = CardTable::new();
    let mut i: usize = 0;
    assert(harvest@.take(0) =~= Seq::<RawCard>::empty());
    while i < harvest.len()
        invariant
            i <= harvest.len(),
            rarities.wf(),
            factions.wf(),
            card_types.wf(),
            cards.wf(),
            cards.card_views() == normalized_cards(harvest@.take(i as int)),
            rarities.entries_view() == gathered_rarities(harvest@.take(i as int), keep_empty_codes),
            factions.entries_view() == gathered_factions(harvest@.take(i as int), keep_empty_codes),
            card_types.entries_view() == gathered_card_types(
                harvest@.take(i as int),
                keep_empty_codes,
            ),
        decreases harvest.len() - i,
    {
        let raw = &harvest[i];
        proof {
            assert(harvest@.take(i + 1).drop_last() =~= harvest@.take(i as int));
            assert(harvest@.take(i + 1).last() == *raw);
        }
        if listed(&raw.rarity, keep_empty_codes) {
            match &raw.rarity {
                Some(code) => {
                    let _ = rarities.insert_if_absent(
                        code.reference.clone(),
                        RarityInfo { name: code.name.clone() },
                    );
                },
                None => {},
            }
        }
        if listed(&raw.faction, keep_empty_codes) {
            match &raw.faction {
                Some(code) => {
                    let _ = factions.insert_if_absent(
                        code.reference.clone(),
                        FactionInfo { name: code.name.clone(), color: code.color.clone() },
                    );
                },
                None => {},
            }
        }
        if listed(&raw.card_type, keep_empty_codes) {
            match &raw.card_type {
                Some(code) => {
                    let _ = card_types.insert_if_absent(
                        code.reference.clone(),
                        CardTypeInfo { name: code.name.clone() },
                    );
                },
                None => {},
            }
        }
        if !raw.reference.as_str().is_empty() {
            cards.insert(to_record(raw));
        }
        i += 1;
    }
    assert(harvest@.take(harvest.len() as int) =~= harvest@);
    let total_cards = cards.len();
    OptimizedData {
        meta: Meta {
            script_version: String::from_str(script_version),
            generated_at_utc: generated_at,
            source_set: String::from_str(source_set),
            data_sources,
            total_cards,
        },
        lookup_tables: LookupTables { rarities, factions, card_types },
        cards,
    }
}

} // verus!
