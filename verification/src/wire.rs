//! The byte form of a delta package.
//!
//! A package is written as the four bytes `ADPK`, the base version, the
//! target version, the time of generation, the number of operations, the
//! operations, the checksum, and the five numbers of the statistics. A
//! number takes eight bytes, the least significant first. A text is its
//! length in bytes as a number, then its UTF-8 bytes. An operation is one
//! byte that tells its kind, then a record or a key. A record is its seven
//! texts, then six bytes: main cost, recall cost, suspended flag, and the
//! three power values.
//!
//! Reading is the inverse of writing: the bytes written for a package are
//! read back as that package, and bytes are accepted only if they are what is
//! written for the package that comes out.

use crate::catalog::{CardRecord, CardView, PowerStats};
use crate::compression::{compress_with_gzip, gzip_encoded, unpacked, Codec};
use crate::delta::{ops_of, DeltaOperation, OpView};
use crate::delta_manager::{DeltaPackage, DeltaStatistics, PackageView};
use crate::error::CatalogError;
use crate::string_pool::texts_of;
use vstd::bytes::{
    lemma_auto_spec_u64_to_from_le_bytes, spec_u64_from_le_bytes, spec_u64_to_le_bytes,
    u64_from_le_bytes, u64_to_le_bytes,
};
use vstd::prelude::*;
use vstd::slice::slice_subrange;
use vstd::string::*;
use vstd::utf8::*;

verus! {

/// The four bytes that open a package: `ADPK`.
pub open spec fn magic() -> Seq<u8> {
    seq![0x41u8, 0x44u8, 0x50u8, 0x4Bu8]
}

/// The bytes of a number.
pub open spec fn number_wire(n: u64) -> Seq<u8> {
    spec_u64_to_le_bytes(n)
}

/// The bytes of numbers, one after the other.
pub open spec fn numbers_wire(numbers: Seq<u64>) -> Seq<u8>
    decreases numbers.len(),
{
    if numbers.len() == 0 {
        Seq::empty()
    } else {
        numbers_wire(numbers.drop_last()) + number_wire(numbers.last())
    }
}

/// The bytes of a text.
pub open spec fn text_wire(text: Seq<char>) -> Seq<u8> {
    number_wire(encode_utf8(text).len() as u64) + encode_utf8(text)
}

/// The bytes of texts, one after the other.
pub open spec fn texts_wire(texts: Seq<Seq<char>>) -> Seq<u8>
    decreases texts.len(),
{
    if texts.len() == 0 {
        Seq::empty()
    } else {
        texts_wire(texts.drop_last()) + text_wire(texts.last())
    }
}

/// The seven texts of a record, in the order in which they are written.
pub open spec fn card_texts(card: CardView) -> Seq<Seq<char>> {
    seq![
        card.reference,
        card.name,
        card.type_ref,
        card.faction_ref,
        card.rarity_ref,
        card.image_path,
        card.qr_url,
    ]
}

/// The six bytes that close a record.
pub open spec fn card_tail(card: CardView) -> Seq<u8> {
    seq![
        card.main_cost,
        card.recall_cost,
        if card.is_suspended {
            1u8
        } else {
            0u8
        },
        card.power.m,
        card.power.o,
        card.power.f,
    ]
}

/// The bytes of a record.
pub open spec fn card_wire(card: CardView) -> Seq<u8> {
    texts_wire(card_texts(card)) + card_tail(card)
}

/// The bytes of an operation.
pub open spec fn op_wire(op: OpView) -> Seq<u8> {
    match op {
        OpView::Add(card) => seq![0u8] + card_wire(card),
        OpView::Modify(card) => seq![1u8] + card_wire(card),
        OpView::Remove(reference) => seq![2u8] + text_wire(reference),
    }
}

/// The bytes of operations, one after the other.
pub open spec fn ops_wire(ops: Seq<OpView>) -> Seq<u8>
    decreases ops.len(),
{
    if ops.len() == 0 {
        Seq::empty()
    } else {
        ops_wire(ops.drop_last()) + op_wire(ops.last())
    }
}

/// The bytes of the statistics.
pub open spec fn statistics_wire(statistics: DeltaStatistics) -> Seq<u8> {
    number_wire(statistics.total_operations as u64) + number_wire(statistics.cards_added as u64)
        + number_wire(statistics.cards_modified as u64) + number_wire(
        statistics.cards_removed as u64,
    ) + number_wire(statistics.size_bytes as u64)
}

/// The bytes of a package.
pub open spec fn package_wire(package: PackageView) -> Seq<u8> {
    magic() + text_wire(package.base_version) + text_wire(package.target_version) + number_wire(
        package.generated_at as u64,
    ) + number_wire(package.operations.len() as u64) + ops_wire(package.operations) + text_wire(
        package.checksum,
    ) + statistics_wire(package.statistics)
}

/// The number at the front of `bytes`, and what follows it.
pub open spec fn take_number(bytes: Seq<u8>) -> Option<(u64, Seq<u8>)> {
    if bytes.len() >= 8 {
        Some((spec_u64_from_le_bytes(bytes.take(8)), bytes.skip(8)))
    } else {
        None
    }
}

/// The text at the front of `bytes`, and what follows it.
pub open spec fn take_text(bytes: Seq<u8>) -> Option<(Seq<char>, Seq<u8>)> {
    match take_number(bytes) {
        Some((n, rest)) => if n <= rest.len() && valid_utf8(rest.take(n as int)) {
            Some((decode_utf8(rest.take(n as int)), rest.skip(n as int)))
        } else {
            None
        },
        None => None,
    }
}

/// The `count` texts at the front of `bytes`, and what follows them.
pub open spec fn take_texts(bytes: Seq<u8>, count: nat) -> Option<(Seq<Seq<char>>, Seq<u8>)>
    decreases count,
{
    if count == 0 {
        Some((Seq::empty(), bytes))
    } else {
        match take_texts(bytes, (count - 1) as nat) {
            Some((texts, rest)) => match take_text(rest) {
                Some((text, after)) => Some((texts.push(text), after)),
                None => None,
            },
            None => None,
        }
    }
}

/// The record at the front of `bytes`, and what follows it.
pub open spec fn take_card(bytes: Seq<u8>) -> Option<(CardView, Seq<u8>)> {
    match take_texts(bytes, 7) {
        Some((texts, rest)) => if rest.len() >= 6 && rest[2] <= 1 {
            Some(
                (
                    CardView {
                        reference: texts[0],
                        name: texts[1],
                        type_ref: texts[2],
                        faction_ref: texts[3],
                        rarity_ref: texts[4],
                        image_path: texts[5],
                        qr_url: texts[6],
                        main_cost: rest[0],
                        recall_cost: rest[1],
                        is_suspended: rest[2] == 1,
                        power: PowerStats { m: rest[3], o: rest[4], f: rest[5] },
                    },
                    rest.skip(6),
                ),
            )
        } else {
            None
        },
        None => None,
    }
}

/// The operation at the front of `bytes`, and what follows it.
pub open spec fn take_op(bytes: Seq<u8>) -> Option<(OpView, Seq<u8>)> {
    if bytes.len() == 0 {
        None
    } else if bytes[0] == 0 {
        match take_card(bytes.skip(1)) {
            Some((card, rest)) => Some((OpView::Add(card), rest)),
            None => None,
        }
    } else if bytes[0] == 1 {
        match take_card(bytes.skip(1)) {
            Some((card, rest)) => Some((OpView::Modify(card), rest)),
            None => None,
        }
    } else if bytes[0] == 2 {
        match take_text(bytes.skip(1)) {
            Some((reference, rest)) => Some((OpView::Remove(reference), rest)),
            None => None,
        }
    } else {
        None
    }
}

/// The `count` operations at the front of `bytes`, and what follows them.
pub open spec fn take_ops(bytes: Seq<u8>, count: nat) -> Option<(Seq<OpView>, Seq<u8>)>
    decreases count,
{
    if count == 0 {
        Some((Seq::empty(), bytes))
    } else {
        match take_ops(bytes, (count - 1) as nat) {
            Some((ops, rest)) => match take_op(rest) {
                Some((op, after)) => Some((ops.push(op), after)),
                None => None,
            },
            None => None,
        }
    }
}

/// The `count` numbers at the front of `bytes`, and what follows them.
pub open spec fn take_numbers(bytes: Seq<u8>, count: nat) -> Option<(Seq<u64>, Seq<u8>)>
    decreases count,
{
    if count == 0 {
        Some((Seq::empty(), bytes))
    } else {
        match take_numbers(bytes, (count - 1) as nat) {
            Some((numbers, rest)) => match take_number(rest) {
                Some((n, after)) => Some((numbers.push(n), after)),
                None => None,
            },
            None => None,
        }
    }
}

/// The statistics at the front of `bytes`, and what follows them.
pub open spec fn take_statistics(bytes: Seq<u8>) -> Option<(DeltaStatistics, Seq<u8>)> {
    match take_numbers(bytes, 5) {
        Some((n, rest)) => if n[0] <= usize::MAX && n[1] <= usize::MAX && n[2] <= usize::MAX
            && n[3] <= usize::MAX && n[4] <= usize::MAX {
            Some(
                (
                    DeltaStatistics {
                        total_operations: n[0] as usize,
                        cards_added: n[1] as usize,
                        cards_modified: n[2] as usize,
                        cards_removed: n[3] as usize,
                        size_bytes: n[4] as usize,
                    },
                    rest,
                ),
            )
        } else {
            None
        },
        None => None,
    }
}

/// What follows the versions, the time and the operations of a package, read
/// from the bytes behind them.
pub open spec fn take_closing(bytes: Seq<u8>) -> Option<(Seq<char>, DeltaStatistics)> {
    match take_text(bytes) {
        Some((checksum, rest)) => match take_statistics(rest) {
            Some((statistics, end)) => if end.len() == 0 {
                Some((checksum, statistics))
            } else {
                None
            },
            None => None,
        },
        None => None,
    }
}

/// The versions, the time and the operations of a package, read from the
/// bytes behind the opening four, and what follows them.
pub open spec fn take_opening(bytes: Seq<u8>) -> Option<
    (Seq<Seq<char>>, i64, Seq<OpView>, Seq<u8>),
> {
    match take_texts(bytes, 2) {
        Some((versions, b1)) => match take_numbers(b1, 2) {
            Some((numbers, b2)) => match take_ops(b2, numbers[1] as nat) {
                Some((ops, b3)) => Some((versions, numbers[0] as i64, ops, b3)),
                None => None,
            },
            None => None,
        },
        None => None,
    }
}

/// The package that `bytes` are the byte form of, or `None` where they are
/// the byte form of none.
pub open spec fn decoded(bytes: Seq<u8>) -> Option<PackageView> {
    if bytes.len() >= 4 && bytes.take(4) == magic() {
        match take_opening(bytes.skip(4)) {
            Some((versions, generated_at, operations, rest)) => match take_closing(rest) {
                Some((checksum, statistics)) => Some(
                    PackageView {
                        base_version: versions[0],
                        target_version: versions[1],
                        generated_at,
                        operations,
                        checksum,
                        statistics,
                    },
                ),
                None => None,
            },
            None => None,
        }
    } else {
        None
    }
}

/// The lengths of a text can be written as a number.
pub open spec fn text_fits(text: Seq<char>) -> bool {
    encode_utf8(text).len() <= u64::MAX
}

/// Every text of a record can be written.
pub open spec fn card_fits(card: CardView) -> bool {
    forall|i: int| 0 <= i < 7 ==> text_fits(#[trigger] card_texts(card)[i])
}

/// Every text of an operation can be written.
pub open spec fn op_fits(op: OpView) -> bool {
    match op {
        OpView::Add(card) => card_fits(card),
        OpView::Modify(card) => card_fits(card),
        OpView::Remove(reference) => text_fits(reference),
    }
}

/// Every text of a package can be written, and so can the number of its
/// operations. A package that is held in memory always can.
pub open spec fn package_fits(package: PackageView) -> bool {
    &&& text_fits(package.base_version)
    &&& text_fits(package.target_version)
    &&& text_fits(package.checksum)
    &&& package.operations.len() <= u64::MAX
    &&& forall|i: int|
        0 <= i < package.operations.len() ==> op_fits(#[trigger] package.operations[i])
}

/// A number that was written is read back, with what follows it.
pub proof fn lemma_take_number(n: u64, rest: Seq<u8>)
    ensures
        take_number(number_wire(n) + rest) == Some((n, rest)),
{
    lemma_auto_spec_u64_to_from_le_bytes();
    let bytes = number_wire(n) + rest;
    assert(bytes.take(8) =~= number_wire(n));
    assert(bytes.skip(8) =~= rest);
}

/// A text that was written is read back, with what follows it.
pub proof fn lemma_take_text(text: Seq<char>, rest: Seq<u8>)
    requires
        text_fits(text),
    ensures
        take_text(text_wire(text) + rest) == Some((text, rest)),
{
    let body = encode_utf8(text);
    let n = body.len() as u64;
    assert(text_wire(text) + rest =~= number_wire(n) + (body + rest));
    lemma_take_number(n, body + rest);
    assert((body + rest).take(n as int) =~= body);
    assert((body + rest).skip(n as int) =~= rest);
    encode_utf8_valid_utf8(text);
    encode_utf8_decode_utf8(text);
}

/// Texts that were written are read back, with what follows them.
pub proof fn lemma_take_texts(texts: Seq<Seq<char>>, rest: Seq<u8>)
    requires
        forall|i: int| 0 <= i < texts.len() ==> text_fits(#[trigger] texts[i]),
    ensures
        take_texts(texts_wire(texts) + rest, texts.len()) == Some((texts, rest)),
    decreases texts.len(),
{
    if texts.len() > 0 {
        let front = texts.drop_last();
        let last = texts.last();
        assert(texts_wire(texts) + rest =~= texts_wire(front) + (text_wire(last) + rest));
        assert forall|i: int| 0 <= i < front.len() implies text_fits(#[trigger] front[i]) by {
            assert(front[i] == texts[i]);
        }
        lemma_take_texts(front, text_wire(last) + rest);
        assert(text_fits(texts[texts.len() - 1]));
        lemma_take_text(last, rest);
        assert(front.push(last) =~= texts);
    }
}

/// A record that was written is read back, with what follows it.
pub proof fn lemma_take_card(card: CardView, rest: Seq<u8>)
    requires
        card_fits(card),
    ensures
        take_card(card_wire(card) + rest) == Some((card, rest)),
{
    let texts = card_texts(card);
    let tail = card_tail(card);
    assert(card_wire(card) + rest =~= texts_wire(texts) + (tail + rest));
    lemma_take_texts(texts, tail + rest);
    assert((tail + rest).skip(6) =~= rest);
    assert((tail + rest)[0] == tail[0]);
    assert((tail + rest)[1] == tail[1]);
    assert((tail + rest)[2] == tail[2]);
    assert((tail + rest)[3] == tail[3]);
    assert((tail + rest)[4] == tail[4]);
    assert((tail + rest)[5] == tail[5]);
}

/// An operation that was written is read back, with what follows it.
pub proof fn lemma_take_op(op: OpView, rest: Seq<u8>)
    requires
        op_fits(op),
    ensures
        take_op(op_wire(op) + rest) == Some((op, rest)),
{
    let bytes = op_wire(op) + rest;
    match op {
        OpView::Add(card) => {
            assert(bytes.skip(1) =~= card_wire(card) + rest);
            lemma_take_card(card, rest);
        },
        OpView::Modify(card) => {
            assert(bytes.skip(1) =~= card_wire(card) + rest);
            lemma_take_card(card, rest);
        },
        OpView::Remove(reference) => {
            assert(bytes.skip(1) =~= text_wire(reference) + rest);
            lemma_take_text(reference, rest);
        },
    }
}

/// Operations that were written are read back, with what follows them.
pub proof fn lemma_take_ops(ops: Seq<OpView>, rest: Seq<u8>)
    requires
        forall|i: int| 0 <= i < ops.len() ==> op_fits(#[trigger] ops[i]),
    ensures
        take_ops(ops_wire(ops) + rest, ops.len()) == Some((ops, rest)),
    decreases ops.len(),
{
    if ops.len() > 0 {
        let front = ops.drop_last();
        let last = ops.last();
        assert(ops_wire(ops) + rest =~= ops_wire(front) + (op_wire(last) + rest));
        assert forall|i: int| 0 <= i < front.len() implies op_fits(#[trigger] front[i]) by {
            assert(front[i] == ops[i]);
        }
        lemma_take_ops(front, op_wire(last) + rest);
        assert(op_fits(ops[ops.len() - 1]));
        lemma_take_op(last, rest);
        assert(front.push(last) =~= ops);
    }
}

/// Numbers that were written are read back, with what follows them.
pub proof fn lemma_take_numbers(numbers: Seq<u64>, rest: Seq<u8>)
    ensures
        take_numbers(numbers_wire(numbers) + rest, numbers.len()) == Some((numbers, rest)),
    decreases numbers.len(),
{
    if numbers.len() > 0 {
        let front = numbers.drop_last();
        let last = numbers.last();
        assert(numbers_wire(numbers) + rest =~= numbers_wire(front) + (number_wire(last) + rest));
        lemma_take_numbers(front, number_wire(last) + rest);
        lemma_take_number(last, rest);
        assert(front.push(last) =~= numbers);
    }
}

/// The bytes of a list of numbers with one more at its end.
proof fn lemma_numbers_wire_push(numbers: Seq<u64>, n: u64)
    ensures
        numbers_wire(numbers.push(n)) == numbers_wire(numbers) + number_wire(n),
{
    assert(numbers.push(n).drop_last() =~= numbers);
}

/// The bytes of two numbers.
proof fn lemma_numbers_wire_2(a: u64, b: u64)
    ensures
        numbers_wire(seq![a, b]) == number_wire(a) + number_wire(b),
{
    let e = Seq::<u64>::empty();
    assert(numbers_wire(e) =~= Seq::<u8>::empty());
    lemma_numbers_wire_push(e, a);
    lemma_numbers_wire_push(e.push(a), b);
    assert(seq![a, b] =~= e.push(a).push(b));
    assert(numbers_wire(e.push(a)) =~= number_wire(a));
}

/// The bytes of five numbers.
proof fn lemma_numbers_wire_5(a: u64, b: u64, c: u64, d: u64, e: u64)
    ensures
        numbers_wire(seq![a, b, c, d, e]) == number_wire(a) + number_wire(b) + number_wire(c)
            + number_wire(d) + number_wire(e),
{
    lemma_numbers_wire_2(a, b);
    lemma_numbers_wire_push(seq![a, b], c);
    lemma_numbers_wire_push(seq![a, b].push(c), d);
    lemma_numbers_wire_push(seq![a, b].push(c).push(d), e);
    assert(seq![a, b, c, d, e] =~= seq![a, b].push(c).push(d).push(e));
}

/// The bytes of two texts.
proof fn lemma_texts_wire_2(a: Seq<char>, b: Seq<char>)
    ensures
        texts_wire(seq![a, b]) == text_wire(a) + text_wire(b),
{
    let e = Seq::<Seq<char>>::empty();
    assert(texts_wire(e) =~= Seq::<u8>::empty());
    assert(e.push(a).drop_last() =~= e);
    assert(e.push(a).push(b).drop_last() =~= e.push(a));
    assert(seq![a, b] =~= e.push(a).push(b));
    assert(texts_wire(e.push(a)) =~= text_wire(a));
}

/// Statistics that were written are read back, with what follows them.
pub proof fn lemma_take_statistics(statistics: DeltaStatistics, rest: Seq<u8>)
    ensures
        take_statistics(statistics_wire(statistics) + rest) == Some((statistics, rest)),
{
    let n = seq![
        statistics.total_operations as u64,
        statistics.cards_added as u64,
        statistics.cards_modified as u64,
        statistics.cards_removed as u64,
        statistics.size_bytes as u64,
    ];
    lemma_numbers_wire_5(n[0], n[1], n[2], n[3], n[4]);
    lemma_take_numbers(n, rest);
}

/// The time of a package is read back from the number it is written as.
proof fn lemma_time_round_trip(t: i64)
    ensures
        (t as u64) as i64 == t,
{
    assert((t as u64) as i64 == t) by (bit_vector);
}

/// Reading the byte form of a package gives the package.
pub proof fn lemma_decoded_inverts_wire(package: PackageView)
    requires
        package_fits(package),
    ensures
        decoded(package_wire(package)) == Some(package),
{
    let bytes = package_wire(package);
    let versions = seq![package.base_version, package.target_version];
    let numbers = seq![package.generated_at as u64, package.operations.len() as u64];
    let closing = text_wire(package.checksum) + statistics_wire(package.statistics);
    let after_ops = ops_wire(package.operations) + closing;
    let after_versions = numbers_wire(numbers) + after_ops;
    lemma_texts_wire_2(package.base_version, package.target_version);
    lemma_numbers_wire_2(numbers[0], numbers[1]);
    assert(bytes =~= magic() + (texts_wire(versions) + after_versions));
    assert(bytes.take(4) =~= magic());
    assert(bytes.skip(4) =~= texts_wire(versions) + after_versions);
    lemma_take_texts(versions, after_versions);
    lemma_take_numbers(numbers, after_ops);
    lemma_take_ops(package.operations, closing);
    lemma_time_round_trip(package.generated_at);
    lemma_take_text(package.checksum, statistics_wire(package.statistics));
    assert(statistics_wire(package.statistics) =~= statistics_wire(package.statistics)
        + Seq::<u8>::empty());
    lemma_take_statistics(package.statistics, Seq::empty());
}

/// A number is read only from the bytes that are written for it.
pub proof fn lemma_number_read_was_written(bytes: Seq<u8>, n: u64, rest: Seq<u8>)
    requires
        take_number(bytes) == Some((n, rest)),
    ensures
        bytes == number_wire(n) + rest,
{
    lemma_auto_spec_u64_to_from_le_bytes();
    let head = bytes.take(8);
    assert(spec_u64_to_le_bytes(spec_u64_from_le_bytes(head)) == head);
    assert(bytes =~= head + bytes.skip(8));
}

/// A text is read only from the bytes that are written for it.
pub proof fn lemma_text_read_was_written(bytes: Seq<u8>, text: Seq<char>, rest: Seq<u8>)
    requires
        take_text(bytes) == Some((text, rest)),
    ensures
        bytes == text_wire(text) + rest,
        text_fits(text),
{
    let (n, after) = take_number(bytes)->0;
    lemma_number_read_was_written(bytes, n, after);
    let body = after.take(n as int);
    decode_utf8_encode_utf8(body);
    assert(after =~= body + rest);
    assert(bytes =~= text_wire(text) + rest);
}

/// Texts are read only from the bytes that are written for them.
pub proof fn lemma_texts_read_were_written(
    bytes: Seq<u8>,
    count: nat,
    texts: Seq<Seq<char>>,
    rest: Seq<u8>,
)
    requires
        take_texts(bytes, count) == Some((texts, rest)),
    ensures
        bytes == texts_wire(texts) + rest,
        texts.len() == count,
        forall|i: int| 0 <= i < texts.len() ==> text_fits(#[trigger] texts[i]),
    decreases count,
{
    if count == 0 {
        assert(bytes =~= texts_wire(texts) + rest);
    } else {
        let (front, mid) = take_texts(bytes, (count - 1) as nat)->0;
        let (last, end) = take_text(mid)->0;
        lemma_texts_read_were_written(bytes, (count - 1) as nat, front, mid);
        lemma_text_read_was_written(mid, last, rest);
        lemma_texts_wire_push(front, last);
        assert(bytes =~= texts_wire(texts) + rest);
    }
}

/// A record is read only from the bytes that are written for it.
pub proof fn lemma_card_read_was_written(bytes: Seq<u8>, card: CardView, rest: Seq<u8>)
    requires
        take_card(bytes) == Some((card, rest)),
    ensures
        bytes == card_wire(card) + rest,
        card_fits(card),
{
    let (texts, after) = take_texts(bytes, 7)->0;
    lemma_texts_read_were_written(bytes, 7, texts, after);
    assert(texts =~= card_texts(card));
    assert(after =~= card_tail(card) + rest);
    assert(bytes =~= card_wire(card) + rest);
}

/// An operation is read only from the bytes that are written for it.
pub proof fn lemma_op_read_was_written(bytes: Seq<u8>, op: OpView, rest: Seq<u8>)
    requires
        take_op(bytes) == Some((op, rest)),
    ensures
        bytes == op_wire(op) + rest,
        op_fits(op),
{
    let body = bytes.skip(1);
    assert(bytes =~= seq![bytes[0]] + body);
    match op {
        OpView::Add(card) => {
            lemma_card_read_was_written(body, card, rest);
        },
        OpView::Modify(card) => {
            lemma_card_read_was_written(body, card, rest);
        },
        OpView::Remove(reference) => {
            lemma_text_read_was_written(body, reference, rest);
        },
    }
    assert(bytes =~= op_wire(op) + rest);
}

/// Operations are read only from the bytes that are written for them.
pub proof fn lemma_ops_read_were_written(
    bytes: Seq<u8>,
    count: nat,
    ops: Seq<OpView>,
    rest: Seq<u8>,
)
    requires
        take_ops(bytes, count) == Some((ops, rest)),
    ensures
        bytes == ops_wire(ops) + rest,
        ops.len() == count,
        forall|i: int| 0 <= i < ops.len() ==> op_fits(#[trigger] ops[i]),
    decreases count,
{
    if count == 0 {
        assert(bytes =~= ops_wire(ops) + rest);
    } else {
        let (front, mid) = take_ops(bytes, (count - 1) as nat)->0;
        let (last, end) = take_op(mid)->0;
        lemma_ops_read_were_written(bytes, (count - 1) as nat, front, mid);
        lemma_op_read_was_written(mid, last, rest);
        assert(front.push(last).drop_last() =~= front);
        assert(bytes =~= ops_wire(ops) + rest);
    }
}

/// Numbers are read only from the bytes that are written for them.
pub proof fn lemma_numbers_read_were_written(
    bytes: Seq<u8>,
    count: nat,
    numbers: Seq<u64>,
    rest: Seq<u8>,
)
    requires
        take_numbers(bytes, count) == Some((numbers, rest)),
    ensures
        bytes == numbers_wire(numbers) + rest,
        numbers.len() == count,
    decreases count,
{
    if count == 0 {
        assert(bytes =~= numbers_wire(numbers) + rest);
    } else {
        let (front, mid) = take_numbers(bytes, (count - 1) as nat)->0;
        let (last, end) = take_number(mid)->0;
        lemma_numbers_read_were_written(bytes, (count - 1) as nat, front, mid);
        lemma_number_read_was_written(mid, last, rest);
        lemma_numbers_wire_push(front, last);
        assert(bytes =~= numbers_wire(numbers) + rest);
    }
}

/// The number that a time is read from is the one that it is written as.
proof fn lemma_number_round_trip(n: u64)
    ensures
        (n as i64) as u64 == n,
{
    assert((n as i64) as u64 == n) by (bit_vector);
}

/// The versions, the time and the operations of a package are read only
/// from the bytes that are written for them.
proof fn lemma_opening_read_was_written(
    bytes: Seq<u8>,
    versions: Seq<Seq<char>>,
    time: i64,
    ops: Seq<OpView>,
    rest: Seq<u8>,
)
    requires
        take_opening(bytes) == Some((versions, time, ops, rest)),
    ensures
        versions.len() == 2,
        text_fits(versions[0]),
        text_fits(versions[1]),
        ops.len() <= u64::MAX,
        forall|i: int| 0 <= i < ops.len() ==> op_fits(#[trigger] ops[i]),
        bytes == text_wire(versions[0]) + text_wire(versions[1]) + number_wire(time as u64)
            + number_wire(ops.len() as u64) + ops_wire(ops) + rest,
{
    let (texts, after_versions) = take_texts(bytes, 2)->0;
    lemma_texts_read_were_written(bytes, 2, texts, after_versions);
    let (numbers, after_numbers) = take_numbers(after_versions, 2)->0;
    lemma_numbers_read_were_written(after_versions, 2, numbers, after_numbers);
    lemma_ops_read_were_written(after_numbers, numbers[1] as nat, ops, rest);
    assert(versions =~= seq![versions[0], versions[1]]);
    lemma_texts_wire_2(versions[0], versions[1]);
    lemma_number_round_trip(numbers[0]);
    assert(numbers =~= seq![time as u64, ops.len() as u64]);
    lemma_numbers_wire_2(time as u64, ops.len() as u64);
    assert(bytes =~= text_wire(versions[0]) + text_wire(versions[1]) + number_wire(time as u64)
        + number_wire(ops.len() as u64) + ops_wire(ops) + rest);
}

/// The checksum and the statistics of a package are read only from the
/// bytes that are written for them.
proof fn lemma_closing_read_was_written(
    bytes: Seq<u8>,
    checksum: Seq<char>,
    statistics: DeltaStatistics,
)
    requires
        take_closing(bytes) == Some((checksum, statistics)),
    ensures
        text_fits(checksum),
        bytes == text_wire(checksum) + statistics_wire(statistics),
{
    let (text, after_checksum) = take_text(bytes)->0;
    lemma_text_read_was_written(bytes, checksum, after_checksum);
    let (counts, end) = take_numbers(after_checksum, 5)->0;
    lemma_numbers_read_were_written(after_checksum, 5, counts, end);
    assert(counts =~= seq![
        statistics.total_operations as u64,
        statistics.cards_added as u64,
        statistics.cards_modified as u64,
        statistics.cards_removed as u64,
        statistics.size_bytes as u64,
    ]);
    lemma_numbers_wire_5(counts[0], counts[1], counts[2], counts[3], counts[4]);
    assert(after_checksum =~= statistics_wire(statistics));
}

/// A package is read only from its own byte form: bytes that read as a
/// package are the bytes that are written for it.
pub proof fn lemma_wire_inverts_decoded(bytes: Seq<u8>, package: PackageView)
    requires
        decoded(bytes) == Some(package),
    ensures
        bytes == package_wire(package),
        package_fits(package),
{
    let body = bytes.skip(4);
    assert(bytes =~= magic() + body);
    let opening = take_opening(body)->0;
    let versions = opening.0;
    let rest = opening.3;
    lemma_opening_read_was_written(
        body,
        versions,
        package.generated_at,
        package.operations,
        rest,
    );
    lemma_closing_read_was_written(rest, package.checksum, package.statistics);
    assert(bytes =~= package_wire(package));
}

/// The bytes of a list of texts with one more at its end.
proof fn lemma_texts_wire_push(texts: Seq<Seq<char>>, text: Seq<char>)
    ensures
        texts_wire(texts.push(text)) == texts_wire(texts) + text_wire(text),
{
    assert(texts.push(text).drop_last() =~= texts);
}

/// Where fewer texts cannot be read, more cannot either.
proof fn lemma_take_texts_fails(bytes: Seq<u8>, few: nat, many: nat)
    requires
        few <= many,
        take_texts(bytes, few) is None,
    ensures
        take_texts(bytes, many) is None,
    decreases many,
{
    if few < many {
        lemma_take_texts_fails(bytes, few, (many - 1) as nat);
    }
}

/// Where fewer operations cannot be read, more cannot either.
proof fn lemma_take_ops_fails(bytes: Seq<u8>, few: nat, many: nat)
    requires
        few <= many,
        take_ops(bytes, few) is None,
    ensures
        take_ops(bytes, many) is None,
    decreases many,
{
    if few < many {
        lemma_take_ops_fails(bytes, few, (many - 1) as nat);
    }
}

/// Where fewer numbers cannot be read, more cannot either.
proof fn lemma_take_numbers_fails(bytes: Seq<u8>, few: nat, many: nat)
    requires
        few <= many,
        take_numbers(bytes, few) is None,
    ensures
        take_numbers(bytes, many) is None,
    decreases many,
{
    if few < many {
        lemma_take_numbers_fails(bytes, few, (many - 1) as nat);
    }
}

/// `std::str::from_utf8`, with the string slice it gives copied into a
/// `String`. `None` stands for its error.
///
/// Not proved: that it accepts exactly the byte strings that are valid UTF-8,
/// and that the string it gives holds the characters that they encode.
#[verifier::external_body]
fn text_of_bytes(bytes: &[u8]) -> (text: Option<String>)
    ensures
        match text {
            Some(t) => valid_utf8(bytes@) && t@ == decode_utf8(bytes@),
            None => !valid_utf8(bytes@),
        },
{
    match std::str::from_utf8(bytes) {
        Ok(s) => Some(s.to_string()),
        Err(_) => None,
    }
}

/// Appends the bytes of a number.
fn write_number(out: &mut Vec<u8>, n: u64)
    ensures
        final(out)@ == old(out)@ + number_wire(n),
{
    let mut bytes = u64_to_le_bytes(n);
    out.append(&mut bytes);
}

/// Appends the bytes of a text.
fn write_text(out: &mut Vec<u8>, text: &str)
    ensures
        final(out)@ == old(out)@ + text_wire(text@),
        text_fits(text@),
{
    let mut body = text.as_bytes_vec();
    write_number(out, body.len() as u64);
    out.append(&mut body);
    assert(out@ =~= old(out)@ + text_wire(text@));
}

/// Appends the bytes of a record.
fn write_card(out: &mut Vec<u8>, card: &CardRecord)
    ensures
        final(out)@ == old(out)@ + card_wire(card@),
        card_fits(card@),
{
    let ghost e = Seq::<Seq<char>>::empty();
    let ghost c = card@;
    proof {
        assert(texts_wire(e) =~= Seq::<u8>::empty());
        lemma_texts_wire_push(e, c.reference);
        lemma_texts_wire_push(e.push(c.reference), c.name);
        lemma_texts_wire_push(e.push(c.reference).push(c.name), c.type_ref);
        lemma_texts_wire_push(e.push(c.reference).push(c.name).push(c.type_ref), c.faction_ref);
        lemma_texts_wire_push(
            e.push(c.reference).push(c.name).push(c.type_ref).push(c.faction_ref),
            c.rarity_ref,
        );
        lemma_texts_wire_push(
            e.push(c.reference).push(c.name).push(c.type_ref).push(c.faction_ref).push(
                c.rarity_ref,
            ),
            c.image_path,
        );
        lemma_texts_wire_push(
            e.push(c.reference).push(c.name).push(c.type_ref).push(c.faction_ref).push(
                c.rarity_ref,
            ).push(c.image_path),
            c.qr_url,
        );
        assert(card_texts(c) =~= e.push(c.reference).push(c.name).push(c.type_ref).push(
            c.faction_ref,
        ).push(c.rarity_ref).push(c.image_path).push(c.qr_url));
    }
    write_text(out, card.reference.as_str());
    write_text(out, card.name.as_str());
    write_text(out, card.type_ref.as_str());
    write_text(out, card.faction_ref.as_str());
    write_text(out, card.rarity_ref.as_str());
    write_text(out, card.image_path.as_str());
    write_text(out, card.qr_url.as_str());
    assert(out@ =~= old(out)@ + texts_wire(card_texts(c)));
    out.push(card.main_cost);
    out.push(card.recall_cost);
    out.push(if card.is_suspended {
        1
    } else {
        0
    });
    out.push(card.power.m);
    out.push(card.power.o);
    out.push(card.power.f);
    assert(out@ =~= old(out)@ + card_wire(c));
}

/// Appends the bytes of an operation.
fn write_op(out: &mut Vec<u8>, op: &DeltaOperation)
    ensures
        final(out)@ == old(out)@ + op_wire(op@),
        op_fits(op@),
{
    match op {
        DeltaOperation::Add(card) => {
            out.push(0);
            write_card(out, card);
        },
        DeltaOperation::Modify(card) => {
            out.push(1);
            write_card(out, card);
        },
        DeltaOperation::Remove(reference) => {
            out.push(2);
            write_text(out, reference.as_str());
        },
    }
    assert(out@ =~= old(out)@ + op_wire(op@));
}

/// The byte form of a package. Reading it gives the package back.
pub fn serialize(package: &DeltaPackage) -> (bytes: Vec<u8>)
    ensures
        bytes@ == package_wire(package@),
        package_fits(package@),
        decoded(bytes@) == Some(package@),
{
    let mut out: Vec<u8> = Vec::new();
    out.push(0x41);
    out.push(0x44);
    out.push(0x50);
    out.push(0x4B);
    assert(out@ =~= magic());
    write_text(&mut out, package.base_version.as_str());
    write_text(&mut out, package.target_version.as_str());
    write_number(&mut out, #[verifier::truncate] (package.generated_at as u64));
    write_number(&mut out, package.operations.len() as u64);
    let ghost head = out@;
    let ghost all = ops_of(package.operations@);
    let mut i: usize = 0;
    assert(all.take(0) =~= Seq::<OpView>::empty());
    assert(out@ =~= head + ops_wire(all.take(0)));
    while i < package.operations.len()
        invariant
            all == ops_of(package.operations@),
            i <= package.operations.len(),
            out@ == head + ops_wire(all.take(i as int)),
            forall|k: int| 0 <= k < i ==> op_fits(#[trigger] all[k]),
        decreases package.operations.len() - i,
    {
        proof {
            assert(all.take(i + 1).drop_last() =~= all.take(i as int));
            assert(all.take(i + 1).last() == package.operations[i as int]@);
        }
        write_op(&mut out, &package.operations[i]);
        assert(out@ =~= head + ops_wire(all.take(i + 1)));
        i += 1;
    }
    assert(all.take(package.operations.len() as int) =~= all);
    write_text(&mut out, package.checksum.as_str());
    write_number(&mut out, package.statistics.total_operations as u64);
    write_number(&mut out, package.statistics.cards_added as u64);
    write_number(&mut out, package.statistics.cards_modified as u64);
    write_number(&mut out, package.statistics.cards_removed as u64);
    write_number(&mut out, package.statistics.size_bytes as u64);
    proof {
        assert(out@ =~= package_wire(package@));
        lemma_decoded_inverts_wire(package@);
    }
    out
}

/// Reads a number at `pos`.
fn read_number(bytes: &[u8], pos: usize) -> (found: Option<(u64, usize)>)
    requires
        pos <= bytes@.len(),
    ensures
        match found {
            Some((n, next)) => pos <= next <= bytes@.len() && take_number(bytes@.skip(pos as int))
                == Some((n, bytes@.skip(next as int))),
            None => take_number(bytes@.skip(pos as int)) is None,
        },
{
    if bytes.len() - pos < 8 {
        return None;
    }
    let n = u64_from_le_bytes(slice_subrange(bytes, pos, pos + 8));
    proof {
        let rest = bytes@.skip(pos as int);
        assert(rest.take(8) =~= bytes@.subrange(pos as int, pos + 8));
        assert(rest.skip(8) =~= bytes@.skip(pos + 8));
    }
    Some((n, pos + 8))
}

/// Reads a text at `pos`.
fn read_text(bytes: &[u8], pos: usize) -> (found: Option<(String, usize)>)
    requires
        pos <= bytes@.len(),
    ensures
        match found {
            Some((text, next)) => pos <= next <= bytes@.len() && take_text(
                bytes@.skip(pos as int),
            ) == Some((text@, bytes@.skip(next as int))),
            None => take_text(bytes@.skip(pos as int)) is None,
        },
{
    let (n, start) = match read_number(bytes, pos) {
        Some(found) => found,
        None => {
            return None;
        },
    };
    if n > (bytes.len() - start) as u64 {
        return None;
    }
    let end = start + n as usize;
    proof {
        let rest = bytes@.skip(start as int);
        assert(rest.take(n as int) =~= bytes@.subrange(start as int, end as int));
        assert(rest.skip(n as int) =~= bytes@.skip(end as int));
    }
    match text_of_bytes(slice_subrange(bytes, start, end)) {
        Some(text) => Some((text, end)),
        None => None,
    }
}

/// Reads `count` texts from `pos` on.
fn read_texts(bytes: &[u8], pos: usize, count: usize) -> (found: Option<(Vec<String>, usize)>)
    requires
        pos <= bytes@.len(),
    ensures
        match found {
            Some((texts, next)) => pos <= next <= bytes@.len() && texts@.len() == count
                && take_texts(bytes@.skip(pos as int), count as nat) == Some(
                (texts_of(texts@), bytes@.skip(next as int)),
            ),
            None => take_texts(bytes@.skip(pos as int), count as nat) is None,
        },
{
    let ghost start = bytes@.skip(pos as int);
    let mut texts: Vec<String> = Vec::new();
    let mut at = pos;
    let mut i: usize = 0;
    assert(texts_of(texts@) =~= Seq::<Seq<char>>::empty());
    while i < count
        invariant
            i <= count,
            pos <= at <= bytes@.len(),
            start == bytes@.skip(pos as int),
            texts@.len() == i,
            take_texts(start, i as nat) == Some((texts_of(texts@), bytes@.skip(at as int))),
        decreases count - i,
    {
        match read_text(bytes, at) {
            Some((text, next)) => {
                let ghost before = texts@;
                texts.push(text);
                assert(texts_of(texts@) =~= texts_of(before).push(text@));
                at = next;
            },
            None => {
                proof {
                    lemma_take_texts_fails(start, (i + 1) as nat, count as nat);
                }
                return None;
            },
        }
        i += 1;
    }
    Some((texts, at))
}

/// Reads `count` numbers from `pos` on.
fn read_numbers(bytes: &[u8], pos: usize, count: usize) -> (found: Option<(Vec<u64>, usize)>)
    requires
        pos <= bytes@.len(),
    ensures
        match found {
            Some((numbers, next)) => pos <= next <= bytes@.len() && numbers@.len() == count
                && take_numbers(bytes@.skip(pos as int), count as nat) == Some(
                (numbers@, bytes@.skip(next as int)),
            ),
            None => take_numbers(bytes@.skip(pos as int), count as nat) is None,
        },
{
    let ghost start = bytes@.skip(pos as int);
    let mut numbers: Vec<u64> = Vec::new();
    let mut at = pos;
    let mut i: usize = 0;
    while i < count
        invariant
            i <= count,
            pos <= at <= bytes@.len(),
            start == bytes@.skip(pos as int),
            numbers@.len() == i,
            take_numbers(start, i as nat) == Some((numbers@, bytes@.skip(at as int))),
        decreases count - i,
    {
        match read_number(bytes, at) {
            Some((n, next)) => {
                numbers.push(n);
                at = next;
            },
            None => {
                proof {
                    lemma_take_numbers_fails(start, (i + 1) as nat, count as nat);
                }
                return None;
            },
        }
        i += 1;
    }
    Some((numbers, at))
}

/// Takes the last text out of a list that is not empty.
fn pop_text(texts: &mut Vec<String>) -> (text: String)
    requires
        old(texts)@.len() > 0,
    ensures
        final(texts)@ == old(texts)@.drop_last(),
        text == old(texts)@.last(),
{
    match texts.pop() {
        Some(text) => text,
        None => String::new(),
    }
}

/// Reads a record at `pos`.
fn read_card(bytes: &[u8], pos: usize) -> (found: Option<(CardRecord, usize)>)
    requires
        pos <= bytes@.len(),
    ensures
        match found {
            Some((card, next)) => pos <= next <= bytes@.len() && take_card(
                bytes@.skip(pos as int),
            ) == Some((card@, bytes@.skip(next as int))),
            None => take_card(bytes@.skip(pos as int)) is None,
        },
{
    let (mut texts, at) = match read_texts(bytes, pos, 7) {
        Some(found) => found,
        None => {
            return None;
        },
    };
    if bytes.len() - at < 6 {
        return None;
    }
    if bytes[at + 2] > 1 {
        return None;
    }
    let ghost all = texts@;
    let ghost rest = bytes@.skip(at as int);
    proof {
        assert(rest.skip(6) =~= bytes@.skip(at + 6));
        assert(texts_of(all).len() == 7);
        assert(texts_of(all)[0] == all[0]@);
        assert(texts_of(all)[1] == all[1]@);
        assert(texts_of(all)[2] == all[2]@);
        assert(texts_of(all)[3] == all[3]@);
        assert(texts_of(all)[4] == all[4]@);
        assert(texts_of(all)[5] == all[5]@);
        assert(texts_of(all)[6] == all[6]@);
    }
    let qr_url = pop_text(&mut texts);
    let image_path = pop_text(&mut texts);
    let rarity_ref = pop_text(&mut texts);
    let faction_ref = pop_text(&mut texts);
    let type_ref = pop_text(&mut texts);
    let name = pop_text(&mut texts);
    let reference = pop_text(&mut texts);
    let card = CardRecord {
        reference,
        name,
        type_ref,
        faction_ref,
        rarity_ref,
        image_path,
        qr_url,
        main_cost: bytes[at],
        recall_cost: bytes[at + 1],
        is_suspended: bytes[at + 2] == 1,
        power: PowerStats { m: bytes[at + 3], o: bytes[at + 4], f: bytes[at + 5] },
    };
    Some((card, at + 6))
}

/// Reads an operation at `pos`.
fn read_op(bytes: &[u8], pos: usize) -> (found: Option<(DeltaOperation, usize)>)
    requires
        pos <= bytes@.len(),
    ensures
        match found {
            Some((op, next)) => pos <= next <= bytes@.len() && take_op(bytes@.skip(pos as int))
                == Some((op@, bytes@.skip(next as int))),
            None => take_op(bytes@.skip(pos as int)) is None,
        },
{
    if bytes.len() - pos < 1 {
        return None;
    }
    let kind = bytes[pos];
    proof {
        let rest = bytes@.skip(pos as int);
        assert(rest[0] == kind);
        assert(rest.skip(1) =~= bytes@.skip(pos + 1));
    }
    if kind == 0 {
        match read_card(bytes, pos + 1) {
            Some((card, next)) => Some((DeltaOperation::Add(card), next)),
            None => None,
        }
    } else if kind == 1 {
        match read_card(bytes, pos + 1) {
            Some((card, next)) => Some((DeltaOperation::Modify(card), next)),
            None => None,
        }
    } else if kind == 2 {
        match read_text(bytes, pos + 1) {
            Some((reference, next)) => Some((DeltaOperation::Remove(reference), next)),
            None => None,
        }
    } else {
        None
    }
}

/// Reads `count` operations from `pos` on.
fn read_ops(bytes: &[u8], pos: usize, count: u64) -> (found: Option<(Vec<DeltaOperation>, usize)>)
    requires
        pos <= bytes@.len(),
    ensures
        match found {
            Some((ops, next)) => pos <= next <= bytes@.len() && take_ops(
                bytes@.skip(pos as int),
                count as nat,
            ) == Some((ops_of(ops@), bytes@.skip(next as int))),
            None => take_ops(bytes@.skip(pos as int), count as nat) is None,
        },
{
    let ghost start = bytes@.skip(pos as int);
    let mut ops: Vec<DeltaOperation> = Vec::new();
    let mut at = pos;
    let mut i: u64 = 0;
    assert(ops_of(ops@) =~= Seq::<OpView>::empty());
    while i < count
        invariant
            i <= count,
            pos <= at <= bytes@.len(),
            start == bytes@.skip(pos as int),
            take_ops(start, i as nat) == Some((ops_of(ops@), bytes@.skip(at as int))),
        decreases count - i,
    {
        match read_op(bytes, at) {
            Some((op, next)) => {
                let ghost before = ops@;
                ops.push(op);
                assert(ops_of(ops@) =~= ops_of(before).push(op@));
                at = next;
            },
            None => {
                proof {
                    lemma_take_ops_fails(start, (i + 1) as nat, count as nat);
                }
                return None;
            },
        }
        i += 1;
    }
    Some((ops, at))
}

/// Reads the byte form of a package.
fn read_package(bytes: &[u8]) -> (found: Option<DeltaPackage>)
    ensures
        match found {
            Some(package) => decoded(bytes@) == Some(package@),
            None => decoded(bytes@) is None,
        },
{
    if bytes.len() < 4 {
        return None;
    }
    if bytes[0] != 0x41 || bytes[1] != 0x44 || bytes[2] != 0x50 || bytes[3] != 0x4B {
        assert(bytes@.take(4)[0] == bytes@[0]);
        assert(bytes@.take(4)[1] == bytes@[1]);
        assert(bytes@.take(4)[2] == bytes@[2]);
        assert(bytes@.take(4)[3] == bytes@[3]);
        return None;
    }
    assert(bytes@.take(4) =~= magic());
    let (mut versions, at) = match read_texts(bytes, 4, 2) {
        Some(found) => found,
        None => {
            return None;
        },
    };
    let (numbers, at) = match read_numbers(bytes, at, 2) {
        Some(found) => found,
        None => {
            return None;
        },
    };
    let (operations, at) = match read_ops(bytes, at, numbers[1]) {
        Some(found) => found,
        None => {
            return None;
        },
    };
    let (checksum, at) = match read_text(bytes, at) {
        Some(found) => found,
        None => {
            return None;
        },
    };
    let (counts, at) = match read_numbers(bytes, at, 5) {
        Some(found) => found,
        None => {
            return None;
        },
    };
    if at != bytes.len() {
        return None;
    }
    if counts[0] > usize::MAX as u64 || counts[1] > usize::MAX as u64 || counts[2]
        > usize::MAX as u64 || counts[3] > usize::MAX as u64 || counts[4] > usize::MAX as u64 {
        return None;
    }
    proof {
        let all = versions@;
        assert(texts_of(all)[0] == all[0]@);
        assert(texts_of(all)[1] == all[1]@);
    }
    let target_version = pop_text(&mut versions);
    let base_version = pop_text(&mut versions);
    Some(
        DeltaPackage {
            base_version,
            target_version,
            generated_at: #[verifier::truncate] (numbers[0] as i64),
            operations,
            checksum,
            statistics: DeltaStatistics {
                total_operations: counts[0] as usize,
                cards_added: counts[1] as usize,
                cards_modified: counts[2] as usize,
                cards_removed: counts[3] as usize,
                size_bytes: counts[4] as usize,
            },
        },
    )
}

/// What reading hands back, as the result of the operation.
pub fn package_outcome(package: Option<DeltaPackage>) -> (outcome: Result<
    DeltaPackage,
    CatalogError,
>)
    ensures
        outcome == match package {
            Some(p) => Ok::<DeltaPackage, CatalogError>(p),
            None => Err::<DeltaPackage, CatalogError>(CatalogError::MalformedPackage),
        },
{
    match package {
        Some(p) => Ok(p),
        None => Err(CatalogError::MalformedPackage),
    }
}

/// Reads a package from its byte form.
///
/// The result is `Ok` exactly where `bytes` are the byte form of a package,
/// and holds that package: the bytes are what is written for it. In
/// particular, what `serialize` gave for a package is read back as that
/// package.
pub fn deserialize(bytes: &[u8]) -> (outcome: Result<DeltaPackage, CatalogError>)
    ensures
        match outcome {
            Ok(package) => decoded(bytes@) == Some(package@) && bytes@ == package_wire(package@),
            Err(e) => decoded(bytes@) is None && e == CatalogError::MalformedPackage,
        },
        forall|package: PackageView|
            package_fits(package) && bytes@ == #[trigger] package_wire(package) ==> outcome is Ok
                && outcome->Ok_0@ == package,
{
    let outcome = package_outcome(read_package(bytes));
    proof {
        if outcome is Ok {
            lemma_wire_inverts_decoded(bytes@, outcome->Ok_0@);
        }
        assert forall|package: PackageView|
            package_fits(package) && bytes@ == #[trigger] package_wire(package) implies outcome
            is Ok && outcome->Ok_0@ == package by {
            lemma_decoded_inverts_wire(package);
        }
    }
    outcome
}

/// The byte form of a package, and the same bytes packed with gzip.
#[derive(Debug, PartialEq, Eq)]
pub struct PackageArtifacts {
    /// The byte form of the package.
    pub canonical: Vec<u8>,
    /// The byte form, packed with gzip.
    pub compressed: Vec<u8>,
}

/// Writes a package in its byte form and packs that with gzip. The result is
/// `Ok` exactly where the gzip encoder gives bytes for the byte form, and a
/// codec failure otherwise. In an `Ok` the packed bytes are the member that
/// the encoder gives; they unpack to the byte form, and the byte form reads
/// back as the package.
pub fn package_artifacts(package: &DeltaPackage) -> (outcome: Result<
    PackageArtifacts,
    CatalogError,
>)
    ensures
        outcome is Ok <==> gzip_encoded(package_wire(package@)) is Some,
        match outcome {
            Ok(artifacts) => {
                &&& artifacts.canonical@ == package_wire(package@)
                &&& decoded(artifacts.canonical@) == Some(package@)
                &&& artifacts.compressed@ == gzip_encoded(package_wire(package@))->0
                &&& unpacked(Codec::Gzip, artifacts.compressed@) == Some(artifacts.canonical@)
            },
            Err(e) => e == CatalogError::CodecFailure,
        },
{
    let canonical = serialize(package);
    match compress_with_gzip(canonical.as_slice()) {
        Ok(compressed) => Ok(PackageArtifacts { canonical, compressed }),
        Err(e) => Err(e),
    }
}

} // verus!
