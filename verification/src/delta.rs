//! Differences between two catalogs.
//!
//! A delta lists the operations that turn the records of a base catalog into
//! those of a target catalog: first the records to add, then the keys to
//! remove, then the records to replace, each group in key order. Replaying
//! them in that order on the base gives the target.

use crate::catalog::{
    card_keys, is_card_table, lemma_record_map_at, lemma_same_records_same_table,
    lemma_with_card, lemma_without_card, record_map, with_card, without_card, CardRecord,
    CardView,
};
use crate::hex::hex_text;
use crate::keys::{ascending, key_before, lemma_ascending_distinct};
use vstd::prelude::*;

verus! {

/// One step of a delta.
#[derive(Debug, PartialEq, Eq)]
pub enum DeltaOperation {
    /// File a record under a key that the base does not have.
    Add(CardRecord),
    /// Replace the record under a key that the base has.
    Modify(CardRecord),
    /// Take out the record under this key.
    Remove(String),
}

/// A delta operation, with its strings as sequences of characters.
pub enum OpView {
    Add(CardView),
    Modify(CardView),
    Remove(Seq<char>),
}

impl View for DeltaOperation {
    type V = OpView;

    open spec fn view(&self) -> OpView {
        match *self {
            DeltaOperation::Add(card) => OpView::Add(card@),
            DeltaOperation::Modify(card) => OpView::Modify(card@),
            DeltaOperation::Remove(reference) => OpView::Remove(reference@),
        }
    }
}

impl Clone for DeltaOperation {
    fn clone(&self) -> (copy: Self)
        ensures
            copy == *self,
    {
        match self {
            DeltaOperation::Add(card) => DeltaOperation::Add(card.clone()),
            DeltaOperation::Modify(card) => DeltaOperation::Modify(card.clone()),
            DeltaOperation::Remove(reference) => DeltaOperation::Remove(reference.clone()),
        }
    }
}

/// The views of a sequence of operations, in their order.
pub open spec fn ops_of(operations: Seq<DeltaOperation>) -> Seq<OpView> {
    operations.map_values(|op: DeltaOperation| op@)
}

/// The key that an operation works on.
pub open spec fn op_key(op: OpView) -> Seq<char> {
    match op {
        OpView::Add(card) => card.reference,
        OpView::Modify(card) => card.reference,
        OpView::Remove(reference) => reference,
    }
}

/// The table after one operation: `Add` and `Modify` put their record under
/// its key, whether or not the key was there; `Remove` takes its key out if
/// it is there.
pub open spec fn apply_op(cards: Seq<CardView>, op: OpView) -> Seq<CardView> {
    match op {
        OpView::Add(card) => with_card(cards, card),
        OpView::Modify(card) => with_card(cards, card),
        OpView::Remove(reference) => without_card(cards, reference),
    }
}

/// The table after the operations have been replayed in their order.
pub open spec fn apply_ops(cards: Seq<CardView>, ops: Seq<OpView>) -> Seq<CardView>
    decreases ops.len(),
{
    if ops.len() == 0 {
        cards
    } else {
        apply_op(apply_ops(cards, ops.drop_last()), ops.last())
    }
}

/// An `Add` for every record of `target` whose key `base` does not have, in
/// the order of `target`.
pub open spec fn additions(base: Seq<CardView>, target: Seq<CardView>) -> Seq<OpView>
    decreases target.len(),
{
    if target.len() == 0 {
        Seq::empty()
    } else if card_keys(base).contains(target.last().reference) {
        additions(base, target.drop_last())
    } else {
        additions(base, target.drop_last()).push(OpView::Add(target.last()))
    }
}

/// A `Remove` for every key of `base` that `target` does not have, in the
/// order of `base`.
pub open spec fn removals(base: Seq<CardView>, target: Seq<CardView>) -> Seq<OpView>
    decreases base.len(),
{
    if base.len() == 0 {
        Seq::empty()
    } else if card_keys(target).contains(base.last().reference) {
        removals(base.drop_last(), target)
    } else {
        removals(base.drop_last(), target).push(OpView::Remove(base.last().reference))
    }
}

/// Whether `target` holds under the key of `card`, which `base` has too,
/// another record than `base` does.
pub open spec fn is_changed(base: Seq<CardView>, card: CardView) -> bool {
    card_keys(base).contains(card.reference) && record_map(base)[card.reference] != card
}

/// A `Modify` for every record of `target` whose key `base` has with another
/// record, in the order of `target`.
pub open spec fn modifications(base: Seq<CardView>, target: Seq<CardView>) -> Seq<OpView>
    decreases target.len(),
{
    if target.len() == 0 {
        Seq::empty()
    } else if is_changed(base, target.last()) {
        modifications(base, target.drop_last()).push(OpView::Modify(target.last()))
    } else {
        modifications(base, target.drop_last())
    }
}

/// The operations of the delta from `base` to `target`: additions, then
/// removals, then modifications.
pub open spec fn diff_ops(base: Seq<CardView>, target: Seq<CardView>) -> Seq<OpView> {
    additions(base, target) + removals(base, target) + modifications(base, target)
}

/// `op` adds a record of `target` whose key `base` does not have.
pub open spec fn is_addition(base: Seq<CardView>, target: Seq<CardView>, op: OpView) -> bool {
    exists|i: int|
        0 <= i < target.len() && op == OpView::Add(#[trigger] target[i]) && !card_keys(
            base,
        ).contains(target[i].reference)
}

/// `op` removes a key of `base` that `target` does not have.
pub open spec fn is_removal(base: Seq<CardView>, target: Seq<CardView>, op: OpView) -> bool {
    exists|i: int|
        0 <= i < base.len() && op == OpView::Remove((#[trigger] base[i]).reference) && !card_keys(
            target,
        ).contains(base[i].reference)
}

/// `op` replaces a record of `base` by the different record that `target`
/// has under the same key.
pub open spec fn is_modification(base: Seq<CardView>, target: Seq<CardView>, op: OpView) -> bool {
    exists|i: int|
        0 <= i < target.len() && op == OpView::Modify(#[trigger] target[i]) && is_changed(
            base,
            target[i],
        )
}

/// The additions are the `Add`s of the records that only `target` has.
pub proof fn lemma_additions_members(base: Seq<CardView>, target: Seq<CardView>)
    ensures
        additions(base, target).len() <= target.len(),
        forall|op: OpView| #[trigger]
            additions(base, target).contains(op) <==> is_addition(base, target, op),
    decreases target.len(),
{
    let ops = additions(base, target);
    if target.len() == 0 {
    } else {
        let front = target.drop_last();
        let rest = additions(base, front);
        let last = target.last();
        lemma_additions_members(base, front);
        assert forall|op: OpView| #[trigger]
            ops.contains(op) <==> is_addition(base, target, op) by {
            if ops.contains(op) {
                let j = choose|j: int| 0 <= j < ops.len() && ops[j] == op;
                if j < rest.len() {
                    assert(rest[j] == op);
                    assert(rest.contains(op));
                    let i = choose|i: int|
                        0 <= i < front.len() && op == OpView::Add(#[trigger] front[i])
                            && !card_keys(base).contains(front[i].reference);
                    assert(target[i] == front[i]);
                } else {
                    assert(op == OpView::Add(target[target.len() - 1]));
                }
            }
            if is_addition(base, target, op) {
                let i = choose|i: int|
                    0 <= i < target.len() && op == OpView::Add(#[trigger] target[i])
                        && !card_keys(base).contains(target[i].reference);
                if i < front.len() {
                    assert(front[i] == target[i]);
                    assert(is_addition(base, front, op));
                    assert(rest.contains(op));
                    let j = choose|j: int| 0 <= j < rest.len() && rest[j] == op;
                    assert(ops[j] == op);
                } else {
                    assert(ops[ops.len() - 1] == op);
                }
            }
        }
    }
}

/// The removals are the `Remove`s of the keys that only `base` has.
pub proof fn lemma_removals_members(base: Seq<CardView>, target: Seq<CardView>)
    ensures
        removals(base, target).len() <= base.len(),
        forall|op: OpView| #[trigger]
            removals(base, target).contains(op) <==> is_removal(base, target, op),
    decreases base.len(),
{
    let ops = removals(base, target);
    if base.len() == 0 {
    } else {
        let front = base.drop_last();
        let rest = removals(front, target);
        let last = base.last();
        lemma_removals_members(front, target);
        assert forall|op: OpView| #[trigger] ops.contains(op) <==> is_removal(base, target, op) by {
            if ops.contains(op) {
                let j = choose|j: int| 0 <= j < ops.len() && ops[j] == op;
                if j < rest.len() {
                    assert(rest[j] == op);
                    assert(rest.contains(op));
                    let i = choose|i: int|
                        0 <= i < front.len() && op == OpView::Remove(
                            (#[trigger] front[i]).reference,
                        ) && !card_keys(target).contains(front[i].reference);
                    assert(base[i] == front[i]);
                } else {
                    assert(op == OpView::Remove(base[base.len() - 1].reference));
                }
            }
            if is_removal(base, target, op) {
                let i = choose|i: int|
                    0 <= i < base.len() && op == OpView::Remove((#[trigger] base[i]).reference)
                        && !card_keys(target).contains(base[i].reference);
                if i < front.len() {
                    assert(front[i] == base[i]);
                    assert(is_removal(front, target, op));
                    assert(rest.contains(op));
                    let j = choose|j: int| 0 <= j < rest.len() && rest[j] == op;
                    assert(ops[j] == op);
                } else {
                    assert(ops[ops.len() - 1] == op);
                }
            }
        }
    }
}

/// The modifications are the `Modify`s of the records that differ under a
/// key that both catalogs have.
pub proof fn lemma_modifications_members(base: Seq<CardView>, target: Seq<CardView>)
    ensures
        modifications(base, target).len() <= target.len(),
        forall|op: OpView| #[trigger]
            modifications(base, target).contains(op) <==> is_modification(base, target, op),
    decreases target.len(),
{
    let ops = modifications(base, target);
    if target.len() == 0 {
    } else {
        let front = target.drop_last();
        let rest = modifications(base, front);
        let last = target.last();
        lemma_modifications_members(base, front);
        assert forall|op: OpView| #[trigger] ops.contains(op) <==> is_modification(
            base,
            target,
            op,
        ) by {
            if ops.contains(op) {
                let j = choose|j: int| 0 <= j < ops.len() && ops[j] == op;
                if j < rest.len() {
                    assert(rest[j] == op);
                    assert(rest.contains(op));
                    let i = choose|i: int|
                        0 <= i < front.len() && op == OpView::Modify(#[trigger] front[i])
                            && is_changed(base, front[i]);
                    assert(target[i] == front[i]);
                } else {
                    assert(op == OpView::Modify(target[target.len() - 1]));
                }
            }
            if is_modification(base, target, op) {
                let i = choose|i: int|
                    0 <= i < target.len() && op == OpView::Modify(#[trigger] target[i])
                        && is_changed(base, target[i]);
                if i < front.len() {
                    assert(front[i] == target[i]);
                    assert(is_modification(base, front, op));
                    assert(rest.contains(op));
                    let j = choose|j: int| 0 <= j < rest.len() && rest[j] == op;
                    assert(ops[j] == op);
                } else {
                    assert(ops[ops.len() - 1] == op);
                }
            }
        }
    }
}

/// An operation is in the delta exactly if it is one of its additions,
/// removals or modifications.
pub proof fn lemma_diff_members(base: Seq<CardView>, target: Seq<CardView>)
    ensures
        forall|op: OpView| #[trigger]
            diff_ops(base, target).contains(op) <==> (is_addition(base, target, op)
                || is_removal(base, target, op) || is_modification(base, target, op)),
{
    let a = additions(base, target);
    let r = removals(base, target);
    let m = modifications(base, target);
    let ops = diff_ops(base, target);
    lemma_additions_members(base, target);
    lemma_removals_members(base, target);
    lemma_modifications_members(base, target);
    assert forall|op: OpView| #[trigger] ops.contains(op) <==> (a.contains(op) || r.contains(op)
        || m.contains(op)) by {
        if ops.contains(op) {
            let j = choose|j: int| 0 <= j < ops.len() && ops[j] == op;
            if j < a.len() {
                assert(a[j] == op);
            } else if j < a.len() + r.len() {
                assert(r[j - a.len()] == op);
            } else {
                assert(m[j - a.len() - r.len()] == op);
            }
        }
        if a.contains(op) {
            let j = choose|j: int| 0 <= j < a.len() && a[j] == op;
            assert(ops[j] == op);
        }
        if r.contains(op) {
            let j = choose|j: int| 0 <= j < r.len() && r[j] == op;
            assert(ops[a.len() + j] == op);
        }
        if m.contains(op) {
            let j = choose|j: int| 0 <= j < m.len() && m[j] == op;
            assert(ops[a.len() + r.len() + j] == op);
        }
    }
}

/// Replaying operations on a card table gives a card table.
pub proof fn lemma_apply_ops_table(cards: Seq<CardView>, ops: Seq<OpView>)
    requires
        is_card_table(cards),
    ensures
        is_card_table(apply_ops(cards, ops)),
    decreases ops.len(),
{
    if ops.len() > 0 {
        lemma_apply_ops_table(cards, ops.drop_last());
        let before = apply_ops(cards, ops.drop_last());
        match ops.last() {
            OpView::Add(card) => lemma_with_card(before, card),
            OpView::Modify(card) => lemma_with_card(before, card),
            OpView::Remove(reference) => lemma_without_card(before, reference),
        }
    }
}

/// Replaying operations leaves the keys alone that none of them works on.
pub proof fn lemma_apply_ops_untouched(cards: Seq<CardView>, ops: Seq<OpView>, key: Seq<char>)
    requires
        is_card_table(cards),
        forall|j: int| 0 <= j < ops.len() ==> op_key(#[trigger] ops[j]) != key,
    ensures
        record_map(apply_ops(cards, ops)).contains_key(key) == record_map(cards).contains_key(
            key,
        ),
        record_map(cards).contains_key(key) ==> record_map(apply_ops(cards, ops))[key]
            == record_map(cards)[key],
    decreases ops.len(),
{
    if ops.len() > 0 {
        let front = ops.drop_last();
        assert forall|j: int| 0 <= j < front.len() implies op_key(#[trigger] front[j]) != key by {
            assert(front[j] == ops[j]);
        }
        lemma_apply_ops_untouched(cards, front, key);
        lemma_apply_ops_table(cards, front);
        let before = apply_ops(cards, front);
        assert(op_key(ops[ops.len() - 1]) != key);
        match ops.last() {
            OpView::Add(card) => lemma_with_card(before, card),
            OpView::Modify(card) => lemma_with_card(before, card),
            OpView::Remove(reference) => lemma_without_card(before, reference),
        }
    }
}

/// Where every operation that works on a key is the same operation, the
/// replay leaves under that key what this operation asks for.
pub proof fn lemma_apply_ops_touched(
    cards: Seq<CardView>,
    ops: Seq<OpView>,
    key: Seq<char>,
    op: OpView,
)
    requires
        is_card_table(cards),
        ops.contains(op),
        op_key(op) == key,
        forall|j: int| 0 <= j < ops.len() && op_key(#[trigger] ops[j]) == key ==> ops[j] == op,
    ensures
        match op {
            OpView::Add(card) => record_map(apply_ops(cards, ops)).contains_key(key)
                && record_map(apply_ops(cards, ops))[key] == card,
            OpView::Modify(card) => record_map(apply_ops(cards, ops)).contains_key(key)
                && record_map(apply_ops(cards, ops))[key] == card,
            OpView::Remove(_) => !record_map(apply_ops(cards, ops)).contains_key(key),
        },
    decreases ops.len(),
{
    let front = ops.drop_last();
    lemma_apply_ops_table(cards, front);
    let before = apply_ops(cards, front);
    match ops.last() {
        OpView::Add(card) => lemma_with_card(before, card),
        OpView::Modify(card) => lemma_with_card(before, card),
        OpView::Remove(reference) => lemma_without_card(before, reference),
    }
    if op_key(ops.last()) == key {
        assert(ops[ops.len() - 1] == op);
    } else {
        let j = choose|j: int| 0 <= j < ops.len() && ops[j] == op;
        assert(front[j] == op);
        assert(front.contains(op));
        assert forall|j: int|
            0 <= j < front.len() && op_key(#[trigger] front[j]) == key implies front[j] == op by {
            assert(front[j] == ops[j]);
        }
        lemma_apply_ops_touched(cards, front, key, op);
    }
}

/// Replaying the delta from `base` to `target` on `base` gives `target`,
/// record for record.
pub proof fn lemma_apply_diff_gives_target(base: Seq<CardView>, target: Seq<CardView>)
    requires
        is_card_table(base),
        is_card_table(target),
    ensures
        apply_ops(base, diff_ops(base, target)) == target,
{
    let ops = diff_ops(base, target);
    let result = apply_ops(base, ops);
    lemma_apply_ops_table(base, ops);
    lemma_diff_members(base, target);
    let base_keys = card_keys(base);
    let target_keys = card_keys(target);
    assert forall|k: Seq<char>|
        record_map(result).contains_key(k) == record_map(target).contains_key(k) && (record_map(
            target,
        ).contains_key(k) ==> #[trigger] record_map(result)[k] == record_map(target)[k]) by {
        // What an operation of the delta that works on `k` must be.
        assert forall|j: int| 0 <= j < ops.len() && op_key(#[trigger] ops[j]) == k implies {
            &&& is_addition(base, target, ops[j]) ==> target_keys.contains(k)
                && !base_keys.contains(k) && ops[j] == OpView::Add(record_map(target)[k])
            &&& is_removal(base, target, ops[j]) ==> base_keys.contains(k) && !target_keys.contains(
                k,
            ) && ops[j] == OpView::Remove(k)
            &&& is_modification(base, target, ops[j]) ==> target_keys.contains(k)
                && base_keys.contains(k) && record_map(base)[k] != record_map(target)[k] && ops[j]
                == OpView::Modify(record_map(target)[k])
            &&& is_addition(base, target, ops[j]) || is_removal(base, target, ops[j])
                || is_modification(base, target, ops[j])
        } by {
            let op = ops[j];
            assert(ops.contains(op));
            if is_addition(base, target, op) {
                let i = choose|i: int|
                    0 <= i < target.len() && op == OpView::Add(#[trigger] target[i])
                        && !card_keys(base).contains(target[i].reference);
                lemma_record_map_at(target, i);
            }
            if is_removal(base, target, op) {
                let i = choose|i: int|
                    0 <= i < base.len() && op == OpView::Remove((#[trigger] base[i]).reference)
                        && !card_keys(target).contains(base[i].reference);
                lemma_record_map_at(base, i);
            }
            if is_modification(base, target, op) {
                let i = choose|i: int|
                    0 <= i < target.len() && op == OpView::Modify(#[trigger] target[i])
                        && is_changed(base, target[i]);
                lemma_record_map_at(target, i);
            }
        }
        if target_keys.contains(k) {
            let i = choose|i: int| 0 <= i < target_keys.len() && target_keys[i] == k;
            lemma_record_map_at(target, i);
            let card = target[i];
            if !base_keys.contains(k) {
                let op = OpView::Add(card);
                assert(is_addition(base, target, op));
                assert(ops.contains(op));
                lemma_apply_ops_touched(base, ops, k, op);
            } else if record_map(base)[k] != card {
                let op = OpView::Modify(card);
                assert(is_changed(base, target[i]));
                assert(is_modification(base, target, op));
                assert(ops.contains(op));
                lemma_apply_ops_touched(base, ops, k, op);
            } else {
                lemma_apply_ops_untouched(base, ops, k);
            }
        } else if base_keys.contains(k) {
            let i = choose|i: int| 0 <= i < base_keys.len() && base_keys[i] == k;
            lemma_record_map_at(base, i);
            let op = OpView::Remove(k);
            assert(is_removal(base, target, op));
            assert(ops.contains(op));
            lemma_apply_ops_touched(base, ops, k, op);
        } else {
            lemma_apply_ops_untouched(base, ops, k);
        }
    }
    assert forall|k: Seq<char>| #[trigger]
        record_map(result).contains_key(k) == record_map(target).contains_key(k) by {
        let at_key = record_map(result)[k];
    }
    assert(record_map(result) =~= record_map(target));
    lemma_same_records_same_table(result, target);
}

/// The delta from a catalog to itself has no operations.
pub proof fn lemma_diff_of_same_is_empty(cards: Seq<CardView>)
    requires
        is_card_table(cards),
    ensures
        additions(cards, cards).len() == 0,
        removals(cards, cards).len() == 0,
        modifications(cards, cards).len() == 0,
        diff_ops(cards, cards) == Seq::<OpView>::empty(),
{
    let keys = card_keys(cards);
    lemma_additions_members(cards, cards);
    lemma_removals_members(cards, cards);
    lemma_modifications_members(cards, cards);
    let a = additions(cards, cards);
    let r = removals(cards, cards);
    let m = modifications(cards, cards);
    if a.len() > 0 {
        assert(a.contains(a[0]));
        let i = choose|i: int|
            0 <= i < cards.len() && a[0] == OpView::Add(#[trigger] cards[i]) && !keys.contains(
                cards[i].reference,
            );
        assert(keys[i] == cards[i].reference);
    }
    if r.len() > 0 {
        assert(r.contains(r[0]));
        let i = choose|i: int|
            0 <= i < cards.len() && r[0] == OpView::Remove((#[trigger] cards[i]).reference)
                && !keys.contains(cards[i].reference);
        assert(keys[i] == cards[i].reference);
    }
    if m.len() > 0 {
        assert(m.contains(m[0]));
        let i = choose|i: int|
            0 <= i < cards.len() && m[0] == OpView::Modify(#[trigger] cards[i]) && is_changed(
                cards,
                cards[i],
            );
        lemma_record_map_at(cards, i);
    }
    assert(diff_ops(cards, cards) =~= Seq::<OpView>::empty());
}

/// The number of `Add`s among the operations.
pub open spec fn adds_in(ops: Seq<OpView>) -> nat
    decreases ops.len(),
{
    if ops.len() == 0 {
        0
    } else {
        adds_in(ops.drop_last()) + if ops.last() is Add { 1nat } else { 0nat }
    }
}

/// The number of `Modify`s among the operations.
pub open spec fn modifies_in(ops: Seq<OpView>) -> nat
    decreases ops.len(),
{
    if ops.len() == 0 {
        0
    } else {
        modifies_in(ops.drop_last()) + if ops.last() is Modify { 1nat } else { 0nat }
    }
}

/// The number of `Remove`s among the operations.
pub open spec fn removes_in(ops: Seq<OpView>) -> nat
    decreases ops.len(),
{
    if ops.len() == 0 {
        0
    } else {
        removes_in(ops.drop_last()) + if ops.last() is Remove { 1nat } else { 0nat }
    }
}

/// The number from which the checksum of a delta is written: a weighted sum
/// of how many operations it has, how many of them add and how many modify.
/// It tells packages of different shape apart and says nothing of the records
/// inside.
pub open spec fn checksum_value(total: nat, added: nat, modified: nat) -> nat {
    total * 17 + added * 31 + modified * 37
}

/// The checksum that belongs to a list of operations: `checksum_value` of
/// its counts, in hexadecimal.
pub open spec fn checksum_of(ops: Seq<OpView>) -> Seq<char> {
    hex_text(checksum_value(ops.len(), adds_in(ops), modifies_in(ops)))
}

/// The counts of a concatenation are the sums of the counts of its parts.
pub proof fn lemma_counts_concat(a: Seq<OpView>, b: Seq<OpView>)
    ensures
        adds_in(a + b) == adds_in(a) + adds_in(b),
        modifies_in(a + b) == modifies_in(a) + modifies_in(b),
        removes_in(a + b) == removes_in(a) + removes_in(b),
    decreases b.len(),
{
    if b.len() == 0 {
        assert(a + b =~= a);
    } else {
        assert((a + b).drop_last() =~= a + b.drop_last());
        assert((a + b).last() == b.last());
        lemma_counts_concat(a, b.drop_last());
    }
}

/// Each group of a delta holds operations of one kind only.
pub proof fn lemma_diff_counts(base: Seq<CardView>, target: Seq<CardView>)
    ensures
        adds_in(additions(base, target)) == additions(base, target).len(),
        modifies_in(additions(base, target)) == 0,
        removes_in(additions(base, target)) == 0,
        adds_in(removals(base, target)) == 0,
        modifies_in(removals(base, target)) == 0,
        removes_in(removals(base, target)) == removals(base, target).len(),
        adds_in(modifications(base, target)) == 0,
        modifies_in(modifications(base, target)) == modifications(base, target).len(),
        removes_in(modifications(base, target)) == 0,
        adds_in(diff_ops(base, target)) == additions(base, target).len(),
        removes_in(diff_ops(base, target)) == removals(base, target).len(),
        modifies_in(diff_ops(base, target)) == modifications(base, target).len(),
        diff_ops(base, target).len() == additions(base, target).len() + removals(
            base,
            target,
        ).len() + modifications(base, target).len(),
{
    lemma_additions_counts(base, target);
    lemma_removals_counts(base, target);
    lemma_modifications_counts(base, target);
    lemma_counts_concat(additions(base, target), removals(base, target));
    lemma_counts_concat(
        additions(base, target) + removals(base, target),
        modifications(base, target),
    );
}

proof fn lemma_additions_counts(base: Seq<CardView>, target: Seq<CardView>)
    ensures
        adds_in(additions(base, target)) == additions(base, target).len(),
        modifies_in(additions(base, target)) == 0,
        removes_in(additions(base, target)) == 0,
    decreases target.len(),
{
    if target.len() > 0 {
        lemma_additions_counts(base, target.drop_last());
        let rest = additions(base, target.drop_last());
        if !card_keys(base).contains(target.last().reference) {
            assert(rest.push(OpView::Add(target.last())).drop_last() =~= rest);
        }
    }
}

proof fn lemma_removals_counts(base: Seq<CardView>, target: Seq<CardView>)
    ensures
        adds_in(removals(base, target)) == 0,
        modifies_in(removals(base, target)) == 0,
        removes_in(removals(base, target)) == removals(base, target).len(),
    decreases base.len(),
{
    if base.len() > 0 {
        lemma_removals_counts(base.drop_last(), target);
        let rest = removals(base.drop_last(), target);
        if !card_keys(target).contains(base.last().reference) {
            assert(rest.push(OpView::Remove(base.last().reference)).drop_last() =~= rest);
        }
    }
}

proof fn lemma_modifications_counts(base: Seq<CardView>, target: Seq<CardView>)
    ensures
        adds_in(modifications(base, target)) == 0,
        modifies_in(modifications(base, target)) == modifications(base, target).len(),
        removes_in(modifications(base, target)) == 0,
    decreases target.len(),
{
    if target.len() > 0 {
        lemma_modifications_counts(base, target.drop_last());
        let rest = modifications(base, target.drop_last());
        if is_changed(base, target.last()) {
            assert(rest.push(OpView::Modify(target.last())).drop_last() =~= rest);
        }
    }
}

/// The keys that the operations work on, in their order.
pub open spec fn op_keys(ops: Seq<OpView>) -> Seq<Seq<char>> {
    Seq::new(ops.len(), |i: int| op_key(ops[i]))
}

/// Whether two catalogs differ at a key: one has it and the other has not,
/// or both have it with different records.
pub open spec fn differs_at(base: Seq<CardView>, target: Seq<CardView>, key: Seq<char>) -> bool {
    let in_base = card_keys(base).contains(key);
    let in_target = card_keys(target).contains(key);
    in_base != in_target || (in_base && record_map(base)[key] != record_map(target)[key])
}

/// The keys of each group of a delta ascend with the keys of the catalog
/// that the group is taken from.
proof fn lemma_group_keys_ascend(base: Seq<CardView>, target: Seq<CardView>)
    requires
        is_card_table(base),
        is_card_table(target),
    ensures
        ascending(op_keys(additions(base, target))),
        ascending(op_keys(removals(base, target))),
        ascending(op_keys(modifications(base, target))),
    decreases base.len() + target.len(),
{
    if target.len() > 0 {
        let front = target.drop_last();
        let last = target.last();
        assert(is_card_table(front)) by {
            assert forall|i: int, j: int| 0 <= i < j < front.len() implies key_before(
                card_keys(front)[i],
                card_keys(front)[j],
            ) by {
                assert(card_keys(target)[i] == card_keys(front)[i]);
                assert(card_keys(target)[j] == card_keys(front)[j]);
            }
        }
        lemma_group_keys_ascend(base, front);
        lemma_additions_members(base, front);
        lemma_modifications_members(base, front);
        let a = additions(base, front);
        let m = modifications(base, front);
        assert forall|j: int| 0 <= j < a.len() implies key_before(op_key(a[j]), last.reference) by {
            assert(a.contains(a[j]));
            let i = choose|i: int|
                0 <= i < front.len() && a[j] == OpView::Add(#[trigger] front[i]) && !card_keys(
                    base,
                ).contains(front[i].reference);
            assert(card_keys(target)[i] == front[i].reference);
            assert(card_keys(target)[target.len() - 1] == last.reference);
        }
        assert forall|j: int| 0 <= j < m.len() implies key_before(op_key(m[j]), last.reference) by {
            assert(m.contains(m[j]));
            let i = choose|i: int|
                0 <= i < front.len() && m[j] == OpView::Modify(#[trigger] front[i]) && is_changed(
                    base,
                    front[i],
                );
            assert(card_keys(target)[i] == front[i].reference);
            assert(card_keys(target)[target.len() - 1] == last.reference);
        }
        let a_all = additions(base, target);
        assert forall|i: int, j: int| 0 <= i < j < a_all.len() implies key_before(
            op_keys(a_all)[i],
            op_keys(a_all)[j],
        ) by {
            if j < a.len() {
                assert(op_keys(a)[i] == op_key(a[i]) && op_keys(a)[j] == op_key(a[j]));
                assert(key_before(op_keys(a)[i], op_keys(a)[j]));
            }
        }
        let m_all = modifications(base, target);
        assert forall|i: int, j: int| 0 <= i < j < m_all.len() implies key_before(
            op_keys(m_all)[i],
            op_keys(m_all)[j],
        ) by {
            if j < m.len() {
                assert(op_keys(m)[i] == op_key(m[i]) && op_keys(m)[j] == op_key(m[j]));
                assert(key_before(op_keys(m)[i], op_keys(m)[j]));
            }
        }
    }
    if base.len() > 0 {
        let front = base.drop_last();
        let last = base.last();
        assert(is_card_table(front)) by {
            assert forall|i: int, j: int| 0 <= i < j < front.len() implies key_before(
                card_keys(front)[i],
                card_keys(front)[j],
            ) by {
                assert(card_keys(base)[i] == card_keys(front)[i]);
                assert(card_keys(base)[j] == card_keys(front)[j]);
            }
        }
        lemma_group_keys_ascend(front, target);
        lemma_removals_members(front, target);
        let r = removals(front, target);
        assert forall|j: int| 0 <= j < r.len() implies key_before(op_key(r[j]), last.reference) by {
            assert(r.contains(r[j]));
            let i = choose|i: int|
                0 <= i < front.len() && r[j] == OpView::Remove((#[trigger] front[i]).reference)
                    && !card_keys(target).contains(front[i].reference);
            assert(card_keys(base)[i] == front[i].reference);
            assert(card_keys(base)[base.len() - 1] == last.reference);
        }
        let r_all = removals(base, target);
        assert forall|i: int, j: int| 0 <= i < j < r_all.len() implies key_before(
            op_keys(r_all)[i],
            op_keys(r_all)[j],
        ) by {
            if j < r.len() {
                assert(op_keys(r)[i] == op_key(r[i]) && op_keys(r)[j] == op_key(r[j]));
                assert(key_before(op_keys(r)[i], op_keys(r)[j]));
            }
        }
    }
}

/// A delta is as short as it can be: it has an operation for a key exactly
/// where the two catalogs differ at that key, and no two of its operations
/// work on the same key.
pub proof fn lemma_diff_is_minimal(base: Seq<CardView>, target: Seq<CardView>)
    requires
        is_card_table(base),
        is_card_table(target),
    ensures
        forall|key: Seq<char>|
            #[trigger] op_keys(diff_ops(base, target)).contains(key) <==> differs_at(
                base,
                target,
                key,
            ),
        op_keys(diff_ops(base, target)).no_duplicates(),
{
    let a = additions(base, target);
    let r = removals(base, target);
    let m = modifications(base, target);
    let ops = diff_ops(base, target);
    let keys = op_keys(ops);
    let base_keys = card_keys(base);
    let target_keys = card_keys(target);
    lemma_additions_members(base, target);
    lemma_removals_members(base, target);
    lemma_modifications_members(base, target);
    lemma_diff_members(base, target);
    lemma_group_keys_ascend(base, target);
    lemma_ascending_distinct(op_keys(a));
    lemma_ascending_distinct(op_keys(r));
    lemma_ascending_distinct(op_keys(m));
    // What kind of operation stands at a position, and what that says of its
    // key.
    assert forall|j: int| 0 <= j < ops.len() implies {
        &&& j < a.len() ==> !base_keys.contains(keys[j]) && target_keys.contains(keys[j])
            && keys[j] == op_keys(a)[j]
        &&& a.len() <= j < a.len() + r.len() ==> base_keys.contains(keys[j])
            && !target_keys.contains(keys[j]) && keys[j] == op_keys(r)[j - a.len()]
        &&& a.len() + r.len() <= j ==> base_keys.contains(keys[j]) && target_keys.contains(
            keys[j],
        ) && record_map(base)[keys[j]] != record_map(target)[keys[j]] && keys[j] == op_keys(
            m,
        )[j - a.len() - r.len()]
    } by {
        if j < a.len() {
            assert(ops[j] == a[j]);
            assert(a.contains(a[j]));
            let i = choose|i: int|
                0 <= i < target.len() && a[j] == OpView::Add(#[trigger] target[i])
                    && !base_keys.contains(target[i].reference);
            assert(target_keys[i] == target[i].reference);
        } else if j < a.len() + r.len() {
            let x = j - a.len();
            assert(ops[j] == r[x]);
            assert(r.contains(r[x]));
            let i = choose|i: int|
                0 <= i < base.len() && r[x] == OpView::Remove((#[trigger] base[i]).reference)
                    && !target_keys.contains(base[i].reference);
            assert(base_keys[i] == base[i].reference);
        } else {
            let x = j - a.len() - r.len();
            assert(ops[j] == m[x]);
            assert(m.contains(m[x]));
            let i = choose|i: int|
                0 <= i < target.len() && m[x] == OpView::Modify(#[trigger] target[i])
                    && is_changed(base, target[i]);
            assert(target_keys[i] == target[i].reference);
            lemma_record_map_at(target, i);
        }
    }
    assert forall|i: int, j: int|
        0 <= i < keys.len() && 0 <= j < keys.len() && i != j implies keys[i] != keys[j] by {
        assert(0 <= i < ops.len() && 0 <= j < ops.len());
    }
    assert forall|key: Seq<char>| #[trigger] keys.contains(key) <==> differs_at(
        base,
        target,
        key,
    ) by {
        if keys.contains(key) {
            let j = choose|j: int| 0 <= j < keys.len() && keys[j] == key;
            assert(0 <= j < ops.len());
        }
        if differs_at(base, target, key) {
            if !base_keys.contains(key) {
                let i = choose|i: int| 0 <= i < target_keys.len() && target_keys[i] == key;
                let op = OpView::Add(target[i]);
                assert(is_addition(base, target, op));
                assert(ops.contains(op));
                let j = choose|j: int| 0 <= j < ops.len() && ops[j] == op;
                assert(keys[j] == key);
            } else if !target_keys.contains(key) {
                let i = choose|i: int| 0 <= i < base_keys.len() && base_keys[i] == key;
                let op = OpView::Remove(base[i].reference);
                assert(is_removal(base, target, op));
                assert(ops.contains(op));
                let j = choose|j: int| 0 <= j < ops.len() && ops[j] == op;
                assert(keys[j] == key);
            } else {
                let i = choose|i: int| 0 <= i < target_keys.len() && target_keys[i] == key;
                lemma_record_map_at(target, i);
                let op = OpView::Modify(target[i]);
                assert(is_changed(base, target[i]));
                assert(is_modification(base, target, op));
                assert(ops.contains(op));
                let j = choose|j: int| 0 <= j < ops.len() && ops[j] == op;
                assert(keys[j] == key);
            }
        }
    }
}

} // verus!
