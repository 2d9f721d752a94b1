//! The encoded database as one buffer.
//!
//! The buffer is a FlatBuffers buffer whose root is a vector of seven
//! offsets, one for each section:
//!
//! 0. the string pool, a vector of strings in handle order;
//! 1. the rarity table, a vector of strings: code and name of each entry;
//! 2. the faction table, a vector of strings: code, name and color of each
//!    entry;
//! 3. the card-type table, a vector of strings: code and name of each entry;
//! 4. the records, a byte string: `RECORD_WIDTH` bytes for each record, in
//!    ascending order of identity;
//! 5. the version of the generator, a string;
//! 6. the trailer, a byte string: the time of generation and the number of
//!    records, each in eight bytes.
//!
//! Numbers are written with the least significant byte first.

use crate::catalog::{CardView, Meta, OptimizedData};
use crate::encoder::{codes_of, encode_catalog, encode_result, EncodedDatabase, EncodedView};
use crate::error::CatalogError;
use crate::framing::{
    builder_bytes, finish_buffer, finished_buffer, framed_bytes, framed_offsets, framed_text,
    has_room, lemma_framed_lengths, new_builder, push_bytes, push_offsets, push_text,
    BufferBuilder, BUFFER_LIMIT,
};
use crate::lookup::{table_texts, LookupTables};
use crate::ordering::OptimizedCard;
use crate::string_pool::texts_of;
use vstd::bytes::{
    spec_u16_to_le_bytes, spec_u32_to_le_bytes, spec_u64_to_le_bytes, u16_to_le_bytes,
    u32_to_le_bytes, u64_to_le_bytes,
};
use vstd::prelude::*;
use vstd::string::*;
use vstd::utf8::*;

verus! {

/// The number of bytes of one record in the buffer.
pub const RECORD_WIDTH: usize = 28;

/// The room that a new buffer starts with.
pub const INITIAL_CAPACITY: usize = 0x8_0000;

/// The bytes of one record: identity and packed power in four bytes each;
/// the handles of key, name, image path and QR URL and the indices of
/// faction, rarity and card type in two bytes each; main cost, recall cost
/// and flags in one byte each; three zero bytes.
pub open spec fn card_bytes(card: OptimizedCard) -> Seq<u8> {
    spec_u32_to_le_bytes(card.id) + spec_u32_to_le_bytes(card.power_packed)
        + spec_u16_to_le_bytes(card.reference_idx) + spec_u16_to_le_bytes(card.name_idx)
        + spec_u16_to_le_bytes(card.image_path_idx) + spec_u16_to_le_bytes(card.qr_url_idx)
        + spec_u16_to_le_bytes(card.faction_id) + spec_u16_to_le_bytes(card.rarity_id)
        + spec_u16_to_le_bytes(card.card_type_id) + seq![
        card.main_cost,
        card.recall_cost,
        card.flags,
        0u8,
        0u8,
        0u8,
    ]
}

/// The bytes of the records, record after record.
pub open spec fn records_bytes(cards: Seq<OptimizedCard>) -> Seq<u8>
    decreases cards.len(),
{
    if cards.len() == 0 {
        Seq::empty()
    } else {
        records_bytes(cards.drop_last()) + card_bytes(cards.last())
    }
}

/// The bytes of the trailer: the time of generation, then the number of
/// records.
pub open spec fn trailer_bytes(generated_at: i64, count: usize) -> Seq<u8> {
    spec_u64_to_le_bytes(generated_at as u64) + spec_u64_to_le_bytes(count as u64)
}

/// A buffer in the making: what has been written, and the offsets of the
/// items that the next vector of offsets will list.
pub struct Draft {
    pub bytes: Seq<u8>,
    pub marks: Seq<u32>,
}

/// One section of the buffer.
pub enum Section {
    /// A vector of strings.
    Texts(Seq<Seq<char>>),
    /// A string.
    Text(Seq<char>),
    /// A byte string.
    Bytes(Seq<u8>),
}

/// A draft with nothing written from `bytes` on.
pub open spec fn fresh(bytes: Seq<u8>) -> Option<Draft> {
    Some(Draft { bytes, marks: Seq::empty() })
}

/// The draft after a string has been written and marked; `None` where the
/// buffer has no room for it, or had none before.
pub open spec fn with_text(draft: Option<Draft>, text: Seq<char>) -> Option<Draft> {
    match draft {
        Some(d) => if has_room(d.bytes.len(), encode_utf8(text).len()) {
            let bytes = framed_text(d.bytes, text);
            Some(Draft { bytes, marks: d.marks.push(bytes.len() as u32) })
        } else {
            None
        },
        None => None,
    }
}

/// The draft after strings have been written and marked in their order.
pub open spec fn with_texts(draft: Option<Draft>, texts: Seq<Seq<char>>) -> Option<Draft>
    decreases texts.len(),
{
    if texts.len() == 0 {
        draft
    } else {
        with_text(with_texts(draft, texts.drop_last()), texts.last())
    }
}

/// The draft after a byte string has been written and marked.
pub open spec fn with_bytes(draft: Option<Draft>, items: Seq<u8>) -> Option<Draft> {
    match draft {
        Some(d) => if has_room(d.bytes.len(), items.len()) {
            let bytes = framed_bytes(d.bytes, items);
            Some(Draft { bytes, marks: d.marks.push(bytes.len() as u32) })
        } else {
            None
        },
        None => None,
    }
}

/// What is written after the vector of the marks of a draft has been added.
pub open spec fn with_marks(draft: Option<Draft>) -> Option<Seq<u8>> {
    match draft {
        Some(d) => if has_room(d.bytes.len(), 4 * d.marks.len()) {
            Some(framed_offsets(d.bytes, d.marks))
        } else {
            None
        },
        None => None,
    }
}

/// What is written after a section has been added behind `written`.
pub open spec fn section_written(written: Seq<u8>, section: Section) -> Option<Seq<u8>> {
    match section {
        Section::Texts(texts) => with_marks(with_texts(fresh(written), texts)),
        Section::Text(text) => match with_text(fresh(written), text) {
            Some(d) => Some(d.bytes),
            None => None,
        },
        Section::Bytes(items) => match with_bytes(fresh(written), items) {
            Some(d) => Some(d.bytes),
            None => None,
        },
    }
}

/// The draft after a section has been written and marked.
pub open spec fn with_section(draft: Option<Draft>, section: Section) -> Option<Draft> {
    match draft {
        Some(d) => match section_written(d.bytes, section) {
            Some(bytes) => Some(Draft { bytes, marks: d.marks.push(bytes.len() as u32) }),
            None => None,
        },
        None => None,
    }
}

/// The finished buffer of a draft: the vector of its marks is written and
/// made the root.
pub open spec fn finished(draft: Option<Draft>) -> Option<Seq<u8>> {
    match with_marks(draft) {
        Some(bytes) => if has_room(bytes.len(), 0) {
            Some(finished_buffer(bytes, bytes.len() as u32))
        } else {
            None
        },
        None => None,
    }
}

/// The buffer of an encoded database with the lookup tables and the metadata
/// of its catalog; `None` where it would outgrow the buffer limit.
pub open spec fn database_image(db: EncodedView, tables: LookupTables, meta: Meta) -> Option<
    Seq<u8>,
> {
    let d0 = fresh(Seq::empty());
    let d1 = with_section(d0, Section::Texts(db.strings));
    let d2 = with_section(d1, Section::Texts(table_texts(tables.rarities.entries_view())));
    let d3 = with_section(d2, Section::Texts(table_texts(tables.factions.entries_view())));
    let d4 = with_section(d3, Section::Texts(table_texts(tables.card_types.entries_view())));
    let d5 = with_section(d4, Section::Bytes(records_bytes(db.cards)));
    let d6 = with_section(d5, Section::Text(meta.script_version@));
    let d7 = with_section(
        d6,
        Section::Bytes(trailer_bytes(meta.generated_at_utc, db.cards.len() as usize)),
    );
    finished(d7)
}

/// What making the buffer of a catalog gives: the failure of the encoding
/// where it fails, a buffer overflow where the buffer would outgrow its
/// limit, and the buffer otherwise.
pub open spec fn database_result(cards: Seq<CardView>, tables: LookupTables, meta: Meta) -> Result<
    Seq<u8>,
    CatalogError,
> {
    match encode_result(cards, codes_of(tables)) {
        Err(e) => Err(e),
        Ok(db) => match database_image(db, tables, meta) {
            Some(bytes) => Ok(bytes),
            None => Err(CatalogError::BufferOverflow),
        },
    }
}

/// Once a draft has failed, it stays failed.
proof fn lemma_with_texts_fails(draft: Option<Draft>, texts: Seq<Seq<char>>, n: int)
    requires
        0 <= n <= texts.len(),
        with_texts(draft, texts.take(n)) is None,
    ensures
        with_texts(draft, texts) is None,
    decreases texts.len() - n,
{
    if n < texts.len() {
        assert(texts.take(n + 1).drop_last() =~= texts.take(n));
        lemma_with_texts_fails(draft, texts, n + 1);
    } else {
        assert(texts.take(n) =~= texts);
    }
}

/// Appends the bytes of `card` to `out`.
fn push_card(out: &mut Vec<u8>, card: &OptimizedCard)
    ensures
        final(out)@ == old(out)@ + card_bytes(*card),
{
    let mut id = u32_to_le_bytes(card.id);
    let mut power = u32_to_le_bytes(card.power_packed);
    let mut reference = u16_to_le_bytes(card.reference_idx);
    let mut name = u16_to_le_bytes(card.name_idx);
    let mut image_path = u16_to_le_bytes(card.image_path_idx);
    let mut qr_url = u16_to_le_bytes(card.qr_url_idx);
    let mut faction = u16_to_le_bytes(card.faction_id);
    let mut rarity = u16_to_le_bytes(card.rarity_id);
    let mut card_type = u16_to_le_bytes(card.card_type_id);
    out.append(&mut id);
    out.append(&mut power);
    out.append(&mut reference);
    out.append(&mut name);
    out.append(&mut image_path);
    out.append(&mut qr_url);
    out.append(&mut faction);
    out.append(&mut rarity);
    out.append(&mut card_type);
    out.push(card.main_cost);
    out.push(card.recall_cost);
    out.push(card.flags);
    out.push(0);
    out.push(0);
    out.push(0);
    assert(out@ =~= old(out)@ + card_bytes(*card));
}

/// The bytes of the records, record after record.
fn records_to_bytes(cards: &Vec<OptimizedCard>) -> (bytes: Vec<u8>)
    ensures
        bytes@ == records_bytes(cards@),
{
    let mut bytes: Vec<u8> = Vec::new();
    let mut i: usize = 0;
    assert(cards@.take(0) =~= Seq::<OptimizedCard>::empty());
    while i < cards.len()
        invariant
            i <= cards.len(),
            bytes@ == records_bytes(cards@.take(i as int)),
        decreases cards.len() - i,
    {
        proof {
            assert(cards@.take(i + 1).drop_last() =~= cards@.take(i as int));
            assert(cards@.take(i + 1).last() == cards@[i as int]);
        }
        push_card(&mut bytes, &cards[i]);
        i += 1;
    }
    assert(cards@.take(cards.len() as int) =~= cards@);
    bytes
}

/// The bytes of the trailer.
fn trailer_to_bytes(generated_at: i64, count: usize) -> (bytes: Vec<u8>)
    ensures
        bytes@ == trailer_bytes(generated_at, count),
{
    let mut bytes = u64_to_le_bytes(#[verifier::truncate] (generated_at as u64));
    let mut tail = u64_to_le_bytes(count as u64);
    bytes.append(&mut tail);
    bytes
}

/// A builder with what is known of it: how many bytes it holds, and the
/// offsets of the sections written so far.
struct Frame {
    builder: BufferBuilder,
    used: u32,
    marks: Vec<u32>,
}

impl Frame {
    spec fn draft(&self) -> Draft {
        Draft { bytes: builder_bytes(self.builder), marks: self.marks@ }
    }

    spec fn wf(&self) -> bool {
        &&& self.used as nat == builder_bytes(self.builder).len()
        &&& forall|i: int| 0 <= i < self.marks@.len() ==> self.marks@[i] <= self.used
    }

    fn new() -> (frame: Self)
        ensures
            frame.wf(),
            Some(frame.draft()) == fresh(Seq::empty()),
    {
        Frame { builder: new_builder(INITIAL_CAPACITY), used: 0, marks: Vec::new() }
    }

    /// Whether an item with `payload` bytes still fits.
    fn fits(&self, payload: usize) -> (fits: bool)
        requires
            self.wf(),
        ensures
            fits == has_room(builder_bytes(self.builder).len(), payload as nat),
    {
        payload <= BUFFER_LIMIT - 8 && self.used as usize <= BUFFER_LIMIT - 8 - payload
    }

    /// Writes a section that is a vector of strings.
    fn add_texts(&mut self, texts: &Vec<String>) -> (done: bool)
        requires
            old(self).wf(),
        ensures
            done ==> final(self).wf() && Some(final(self).draft()) == with_section(
                Some(old(self).draft()),
                Section::Texts(texts_of(texts@)),
            ),
            !done ==> with_section(Some(old(self).draft()), Section::Texts(texts_of(texts@)))
                is None,
    {
        let ghost all = texts_of(texts@);
        let ghost start = fresh(builder_bytes(self.builder));
        let ghost marks_before = self.marks@;
        let mut offsets: Vec<u32> = Vec::new();
        let mut i: usize = 0;
        assert(all.take(0) =~= Seq::<Seq<char>>::empty());
        while i < texts.len()
            invariant
                all == texts_of(texts@),
                i <= texts.len(),
                self.used as nat == builder_bytes(self.builder).len(),
                self.used >= old(self).used,
                self.marks@ == marks_before,
                marks_before == old(self).marks@,
                start == fresh(builder_bytes(old(self).builder)),
                old(self).wf(),
                with_texts(start, all.take(i as int)) == Some(
                    Draft { bytes: builder_bytes(self.builder), marks: offsets@ },
                ),
                forall|k: int| 0 <= k < offsets@.len() ==> offsets@[k] <= self.used,
            decreases texts.len() - i,
        {
            let text = texts[i].as_str();
            proof {
                assert(all.take(i + 1).drop_last() =~= all.take(i as int));
                assert(all.take(i + 1).last() == text@);
            }
            if !self.fits(text.as_bytes().len()) {
                proof {
                    lemma_with_texts_fails(start, all, i + 1);
                }
                return false;
            }
            proof {
                lemma_framed_lengths(
                    builder_bytes(self.builder),
                    encode_utf8(text@),
                    Seq::empty(),
                );
            }
            let offset = push_text(&mut self.builder, text);
            self.used = offset;
            offsets.push(offset);
            i += 1;
        }
        assert(all.take(texts.len() as int) =~= all);
        if !(offsets.len() <= (BUFFER_LIMIT - 8) / 4 && self.used as usize <= BUFFER_LIMIT - 8 - 4
            * offsets.len()) {
            return false;
        }
        proof {
            lemma_framed_lengths(builder_bytes(self.builder), Seq::empty(), offsets@);
        }
        let offset = push_offsets(&mut self.builder, &offsets);
        self.used = offset;
        self.marks.push(offset);
        true
    }

    /// Writes a section that is one string.
    fn add_text(&mut self, text: &str) -> (done: bool)
        requires
            old(self).wf(),
        ensures
            done ==> final(self).wf() && Some(final(self).draft()) == with_section(
                Some(old(self).draft()),
                Section::Text(text@),
            ),
            !done ==> with_section(Some(old(self).draft()), Section::Text(text@)) is None,
    {
        if !self.fits(text.as_bytes().len()) {
            return false;
        }
        proof {
            lemma_framed_lengths(builder_bytes(self.builder), encode_utf8(text@), Seq::empty());
        }
        let offset = push_text(&mut self.builder, text);
        self.used = offset;
        self.marks.push(offset);
        true
    }

    /// Writes a section that is a byte string.
    fn add_bytes(&mut self, items: &Vec<u8>) -> (done: bool)
        requires
            old(self).wf(),
        ensures
            done ==> final(self).wf() && Some(final(self).draft()) == with_section(
                Some(old(self).draft()),
                Section::Bytes(items@),
            ),
            !done ==> with_section(Some(old(self).draft()), Section::Bytes(items@)) is None,
    {
        if !self.fits(items.len()) {
            return false;
        }
        proof {
            lemma_framed_lengths(builder_bytes(self.builder), items@, Seq::empty());
        }
        let offset = push_bytes(&mut self.builder, items.as_slice());
        self.used = offset;
        self.marks.push(offset);
        true
    }

    /// Writes the vector of the section offsets, makes it the root, and
    /// hands out the finished buffer.
    fn finish(self) -> (buffer: Option<Vec<u8>>)
        requires
            self.wf(),
        ensures
            match buffer {
                Some(b) => finished(Some(self.draft())) == Some(b@),
                None => finished(Some(self.draft())) is None,
            },
    {
        let mut frame = self;
        if !(frame.marks.len() <= (BUFFER_LIMIT - 8) / 4 && frame.used as usize <= BUFFER_LIMIT
            - 8 - 4 * frame.marks.len()) {
            return None;
        }
        proof {
            lemma_framed_lengths(builder_bytes(frame.builder), Seq::empty(), frame.marks@);
        }
        let root = push_offsets(&mut frame.builder, &frame.marks);
        if root as usize > BUFFER_LIMIT - 8 {
            return None;
        }
        Some(finish_buffer(frame.builder, root))
    }
}

/// Writes an encoded database, with the lookup tables and the metadata of
/// its catalog, into one buffer. The result is `None` where the buffer would
/// outgrow its limit.
pub fn write_database(db: &EncodedDatabase, tables: &LookupTables, meta: &Meta) -> (buffer:
    Option<Vec<u8>>)
    ensures
        match buffer {
            Some(b) => database_image(db@, *tables, *meta) == Some(b@),
            None => database_image(db@, *tables, *meta) is None,
        },
{
    let mut frame = Frame::new();
    if !frame.add_texts(&db.strings) {
        return None;
    }
    let rarities = tables.rarities.texts();
    if !frame.add_texts(&rarities) {
        return None;
    }
    let factions = tables.factions.texts();
    if !frame.add_texts(&factions) {
        return None;
    }
    let card_types = tables.card_types.texts();
    if !frame.add_texts(&card_types) {
        return None;
    }
    let records = records_to_bytes(&db.cards);
    if !frame.add_bytes(&records) {
        return None;
    }
    if !frame.add_text(meta.script_version.as_str()) {
        return None;
    }
    let trailer = trailer_to_bytes(meta.generated_at_utc, db.cards.len());
    if !frame.add_bytes(&trailer) {
        return None;
    }
    frame.finish()
}

/// What `write_database` hands back, as the result of the operation.
pub fn buffer_outcome(buffer: Option<Vec<u8>>) -> (outcome: Result<Vec<u8>, CatalogError>)
    ensures
        outcome == match buffer {
            Some(b) => Ok::<Vec<u8>, CatalogError>(b),
            None => Err::<Vec<u8>, CatalogError>(CatalogError::BufferOverflow),
        },
{
    match buffer {
        Some(b) => Ok(b),
        None => Err(CatalogError::BufferOverflow),
    }
}

/// Encodes a catalog and writes the encoded database into one buffer.
///
/// The result is `MissingKey` where a record is filed under the empty key,
/// else `TableOverflow` where a lookup table holds more codes than there are
/// indices, else `PoolOverflow` where the catalog holds more distinct strings
/// than a pool can, else `BufferOverflow` where the buffer would outgrow its
/// limit, and the buffer otherwise. The same catalog always gives the same
/// bytes.
pub fn create_optimized_database(data: &OptimizedData) -> (outcome: Result<Vec<u8>, CatalogError>)
    requires
        data.wf(),
    ensures
        match outcome {
            Ok(bytes) => database_result(data.cards.card_views(), data.lookup_tables, data.meta)
                == Ok::<Seq<u8>, CatalogError>(bytes@),
            Err(e) => database_result(data.cards.card_views(), data.lookup_tables, data.meta)
                == Err::<Seq<u8>, CatalogError>(e),
        },
{
    match encode_catalog(data) {
        Err(e) => Err(e),
        Ok(db) => buffer_outcome(write_database(&db, &data.lookup_tables, &data.meta)),
    }
}

} // verus!
