//! The order of encoded records: ascending by numeric identity, records of
//! equal identity in the order in which they were handed over.

use vstd::prelude::*;

verus! {

/// A card in its encoded form: strings replaced by pool handles, reference
/// codes by table indices, the power values packed into one word.
#[derive(Clone, Copy, Debug, PartialEq, Eq, Structural)]
pub struct OptimizedCard {
    pub id: u32,
    pub reference_idx: u16,
    pub name_idx: u16,
    pub faction_id: u16,
    pub rarity_id: u16,
    pub card_type_id: u16,
    pub main_cost: u8,
    pub recall_cost: u8,
    pub power_packed: u32,
    pub image_path_idx: u16,
    pub qr_url_idx: u16,
    /// Bit 0 is set for a suspended card; the other bits are zero.
    pub flags: u8,
}

/// The identities never descend along the sequence.
pub open spec fn ascending_ids(cards: Seq<OptimizedCard>) -> bool {
    forall|i: int, j: int| 0 <= i < j < cards.len() ==> cards[i].id <= cards[j].id
}

/// The number of leading records whose identity is not above `id`, counted
/// up to the last such record. In an ascending sequence these are all the
/// records with an identity not above `id`.
pub open spec fn upper_rank(cards: Seq<OptimizedCard>, id: u32) -> int
    decreases cards.len(),
{
    if cards.len() == 0 {
        0
    } else if cards.last().id <= id {
        cards.len() as int
    } else {
        upper_rank(cards.drop_last(), id)
    }
}

/// The sequence with `card` put behind the records whose identity is not
/// above its own.
pub open spec fn placed(cards: Seq<OptimizedCard>, card: OptimizedCard) -> Seq<OptimizedCard> {
    cards.insert(upper_rank(cards, card.id), card)
}

/// The records in ascending order of identity. Records with the same
/// identity keep the order they had.
pub open spec fn sorted_by_id(cards: Seq<OptimizedCard>) -> Seq<OptimizedCard>
    decreases cards.len(),
{
    if cards.len() == 0 {
        Seq::empty()
    } else {
        placed(sorted_by_id(cards.drop_last()), cards.last())
    }
}

/// In an ascending sequence the upper rank parts the records with an identity
/// up to `id` from those above it.
pub proof fn lemma_upper_rank_splits(cards: Seq<OptimizedCard>, id: u32)
    requires
        ascending_ids(cards),
    ensures
        0 <= upper_rank(cards, id) <= cards.len(),
        forall|i: int| 0 <= i < upper_rank(cards, id) ==> (#[trigger] cards[i]).id <= id,
        forall|i: int| upper_rank(cards, id) <= i < cards.len() ==> (#[trigger] cards[i]).id > id,
    decreases cards.len(),
{
    if cards.len() == 0 {
    } else if cards.last().id <= id {
        assert forall|i: int| 0 <= i < cards.len() implies (#[trigger] cards[i]).id <= id by {
            assert(cards[i].id <= cards[cards.len() - 1].id);
        }
    } else {
        let front = cards.drop_last();
        assert(ascending_ids(front)) by {
            assert forall|i: int, j: int| 0 <= i < j < front.len() implies front[i].id
                <= front[j].id by {
                assert(front[i] == cards[i] && front[j] == cards[j]);
            }
        }
        lemma_upper_rank_splits(front, id);
        let r = upper_rank(front, id);
        assert forall|i: int| 0 <= i < r implies (#[trigger] cards[i]).id <= id by {
            assert(front[i] == cards[i]);
        }
        assert forall|i: int| r <= i < cards.len() implies (#[trigger] cards[i]).id > id by {
            if i < front.len() {
                assert(front[i] == cards[i]);
            }
        }
    }
}

/// Inserting a record anywhere adds it once to what the sequence holds.
proof fn lemma_insert_adds_one(cards: Seq<OptimizedCard>, at: int, card: OptimizedCard)
    requires
        0 <= at <= cards.len(),
    ensures
        cards.insert(at, card).to_multiset() == cards.to_multiset().insert(card),
{
    let next = cards.insert(at, card);
    assert(next[at] == card);
    assert(next.remove(at) =~= cards);
    vstd::seq_lib::to_multiset_remove(next, at);
    next.to_multiset_ensures();
    assert(next.contains(card));
    assert(next.to_multiset().count(card) > 0);
    assert(next.to_multiset() =~= next.to_multiset().remove(card).insert(card));
}

/// Placing a record into an ascending sequence keeps it ascending and adds
/// just that record.
pub proof fn lemma_placed(cards: Seq<OptimizedCard>, card: OptimizedCard)
    requires
        ascending_ids(cards),
    ensures
        ascending_ids(placed(cards, card)),
        placed(cards, card).len() == cards.len() + 1,
        placed(cards, card).to_multiset() == cards.to_multiset().insert(card),
{
    lemma_upper_rank_splits(cards, card.id);
    let at = upper_rank(cards, card.id);
    let next = placed(cards, card);
    assert forall|i: int, j: int| 0 <= i < j < next.len() implies next[i].id <= next[j].id by {
        let a = if i < at { cards[i] } else if i == at { card } else { cards[i - 1] };
        let b = if j < at { cards[j] } else if j == at { card } else { cards[j - 1] };
        assert(next[i] == a && next[j] == b);
    }
    lemma_insert_adds_one(cards, at, card);
}

/// Sorting gives an ascending sequence that holds the same records, each as
/// often as before.
pub proof fn lemma_sorted_by_id(cards: Seq<OptimizedCard>)
    ensures
        ascending_ids(sorted_by_id(cards)),
        sorted_by_id(cards).len() == cards.len(),
        sorted_by_id(cards).to_multiset() == cards.to_multiset(),
    decreases cards.len(),
{
    if cards.len() == 0 {
        assert(cards =~= Seq::<OptimizedCard>::empty());
    } else {
        let front = cards.drop_last();
        lemma_sorted_by_id(front);
        lemma_placed(sorted_by_id(front), cards.last());
        assert(front.insert(front.len() as int, cards.last()) =~= cards);
        lemma_insert_adds_one(front, front.len() as int, cards.last());
    }
}

/// The records of `cards` whose identity is `id`, in their order.
pub open spec fn with_id(cards: Seq<OptimizedCard>, id: u32) -> Seq<OptimizedCard>
    decreases cards.len(),
{
    if cards.len() == 0 {
        Seq::empty()
    } else if cards.last().id == id {
        with_id(cards.drop_last(), id).push(cards.last())
    } else {
        with_id(cards.drop_last(), id)
    }
}

/// The records with an identity in a concatenation are those of its parts.
pub proof fn lemma_with_id_concat(a: Seq<OptimizedCard>, b: Seq<OptimizedCard>, id: u32)
    ensures
        with_id(a + b, id) == with_id(a, id) + with_id(b, id),
    decreases b.len(),
{
    if b.len() == 0 {
        assert(a + b =~= a);
        assert(with_id(a, id) + with_id(b, id) =~= with_id(a, id));
    } else {
        assert((a + b).drop_last() =~= a + b.drop_last());
        assert((a + b).last() == b.last());
        lemma_with_id_concat(a, b.drop_last(), id);
        assert(with_id(a + b, id) =~= with_id(a, id) + with_id(b, id));
    }
}

/// Each record with an identity has that identity, and there is one exactly
/// if the sequence has a record with that identity.
pub proof fn lemma_with_id_members(cards: Seq<OptimizedCard>, id: u32)
    ensures
        forall|k: int| 0 <= k < with_id(cards, id).len() ==> (#[trigger] with_id(cards, id)[k]).id
            == id,
        with_id(cards, id).len() > 0 <==> exists|i: int|
            0 <= i < cards.len() && (#[trigger] cards[i]).id == id,
    decreases cards.len(),
{
    if cards.len() > 0 {
        let front = cards.drop_last();
        lemma_with_id_members(front, id);
        if exists|i: int| 0 <= i < cards.len() && (#[trigger] cards[i]).id == id {
            let i = choose|i: int| 0 <= i < cards.len() && (#[trigger] cards[i]).id == id;
            if i < front.len() {
                assert(front[i].id == id);
            }
        }
        if with_id(cards, id).len() > 0 && cards.last().id != id {
            let i = choose|i: int| 0 <= i < front.len() && (#[trigger] front[i]).id == id;
            assert(cards[i].id == id);
        }
        if cards.last().id == id {
            assert(cards[cards.len() - 1].id == id);
        }
    }
}

/// Placing a record adds it to the records of its identity, at their end,
/// and leaves the records of every other identity as they were.
pub proof fn lemma_with_id_placed(cards: Seq<OptimizedCard>, card: OptimizedCard, id: u32)
    requires
        ascending_ids(cards),
    ensures
        with_id(placed(cards, card), id) == if card.id == id {
            with_id(cards, id).push(card)
        } else {
            with_id(cards, id)
        },
{
    lemma_upper_rank_splits(cards, card.id);
    let at = upper_rank(cards, card.id);
    let head = cards.take(at);
    let tail = cards.skip(at);
    let one = seq![card];
    assert(placed(cards, card) =~= head + one + tail);
    assert(cards =~= head + tail);
    lemma_with_id_concat(head + one, tail, id);
    lemma_with_id_concat(head, one, id);
    lemma_with_id_concat(head, tail, id);
    assert(one.drop_last() =~= Seq::<OptimizedCard>::empty());
    assert(with_id(Seq::<OptimizedCard>::empty(), id) =~= Seq::<OptimizedCard>::empty());
    if card.id == id {
        lemma_with_id_members(tail, id);
        if with_id(tail, id).len() > 0 {
            let i = choose|i: int| 0 <= i < tail.len() && (#[trigger] tail[i]).id == id;
            assert(tail[i] == cards[at + i]);
        }
        assert(with_id(one, id) =~= one);
        assert(with_id(head, id) + one + with_id(tail, id) =~= with_id(head, id).push(card));
        assert(with_id(head, id) + with_id(tail, id) =~= with_id(head, id));
    } else {
        assert(with_id(one, id) =~= Seq::<OptimizedCard>::empty());
        assert(with_id(head, id) + with_id(one, id) =~= with_id(head, id));
    }
}

/// Sorting keeps the records of each identity, in their order.
pub proof fn lemma_sorted_keeps_blocks(cards: Seq<OptimizedCard>, id: u32)
    ensures
        with_id(sorted_by_id(cards), id) == with_id(cards, id),
    decreases cards.len(),
{
    if cards.len() > 0 {
        let front = cards.drop_last();
        lemma_sorted_keeps_blocks(front, id);
        lemma_sorted_by_id(front);
        lemma_with_id_placed(sorted_by_id(front), cards.last(), id);
    }
}

/// Two ascending sequences that hold the same records for every identity, in
/// the same order, are the same sequence.
pub proof fn lemma_blocks_fix_the_order(a: Seq<OptimizedCard>, b: Seq<OptimizedCard>)
    requires
        ascending_ids(a),
        ascending_ids(b),
        forall|id: u32| #[trigger] with_id(a, id) == with_id(b, id),
    ensures
        a == b,
    decreases a.len(),
{
    if a.len() == 0 {
        if b.len() > 0 {
            let id = b[0].id;
            lemma_with_id_members(b, id);
            assert(with_id(a, id) == with_id(b, id));
        }
        assert(a =~= b);
    } else {
        let id = a.last().id;
        lemma_with_id_members(a, id);
        lemma_with_id_members(b, id);
        assert(a[a.len() - 1].id == id);
        assert(with_id(a, id) == with_id(b, id));
        let i = choose|i: int| 0 <= i < b.len() && (#[trigger] b[i]).id == id;
        let top = b.last().id;
        assert(b[i].id <= b[b.len() - 1].id);
        if top > id {
            lemma_with_id_members(a, top);
            lemma_with_id_members(b, top);
            assert(with_id(a, top) == with_id(b, top));
            let j = choose|j: int| 0 <= j < a.len() && (#[trigger] a[j]).id == top;
            assert(a[j].id <= a[a.len() - 1].id);
        }
        assert(b.last() == a.last()) by {
            assert(with_id(a, id).last() == a.last());
            assert(with_id(b, id).last() == b.last());
        }
        let a_front = a.drop_last();
        let b_front = b.drop_last();
        assert forall|v: u32| #[trigger] with_id(a_front, v) == with_id(b_front, v) by {
            assert(with_id(a, v) == with_id(b, v));
            if v == id {
                assert(with_id(a, v).drop_last() =~= with_id(a_front, v));
                assert(with_id(b, v).drop_last() =~= with_id(b_front, v));
            }
        }
        assert(ascending_ids(a_front)) by {
            assert forall|x: int, y: int| 0 <= x < y < a_front.len() implies a_front[x].id
                <= a_front[y].id by {
                assert(a_front[x] == a[x] && a_front[y] == a[y]);
            }
        }
        assert(ascending_ids(b_front)) by {
            assert forall|x: int, y: int| 0 <= x < y < b_front.len() implies b_front[x].id
                <= b_front[y].id by {
                assert(b_front[x] == b[x] && b_front[y] == b[y]);
            }
        }
        lemma_blocks_fix_the_order(a_front, b_front);
        assert(a =~= a_front.push(a.last()));
        assert(b =~= b_front.push(b.last()));
    }
}

/// Merges two ascending vectors into one. Of two records with the same
/// identity, one from `left` comes before one from `right`.
fn merge_by_id(left: &Vec<OptimizedCard>, right: &Vec<OptimizedCard>) -> (merged: Vec<
    OptimizedCard,
>)
    requires
        ascending_ids(left@),
        ascending_ids(right@),
    ensures
        ascending_ids(merged@),
        forall|id: u32| #[trigger] with_id(merged@, id) == with_id(left@, id) + with_id(right@, id),
{
    let mut merged: Vec<OptimizedCard> = Vec::new();
    let mut i: usize = 0;
    let mut j: usize = 0;
    proof {
        assert(left@.take(0) =~= Seq::<OptimizedCard>::empty());
        assert(right@.take(0) =~= Seq::<OptimizedCard>::empty());
        assert forall|id: u32| #[trigger] with_id(merged@, id) == with_id(left@.take(0), id)
            + with_id(right@.take(0), id) by {
            assert(with_id(merged@, id) =~= with_id(left@.take(0), id) + with_id(
                right@.take(0),
                id,
            ));
        }
    }
    while i < left.len() || j < right.len()
        invariant
            i <= left.len(),
            j <= right.len(),
            ascending_ids(left@),
            ascending_ids(right@),
            ascending_ids(merged@),
            forall|id: u32| #[trigger]
                with_id(merged@, id) == with_id(left@.take(i as int), id) + with_id(
                    right@.take(j as int),
                    id,
                ),
            forall|k: int|
                0 <= k < merged@.len() && i < left.len() ==> (#[trigger] merged@[k]).id
                    <= left@[i as int].id,
            forall|k: int|
                0 <= k < merged@.len() && j < right.len() ==> (#[trigger] merged@[k]).id
                    <= right@[j as int].id,
            forall|k: int|
                0 <= k < j && i < left.len() ==> (#[trigger] right@[k]).id < left@[i as int].id,
        decreases left.len() - i + right.len() - j,
    {
        let ghost before = merged@;
        let from_left = if i >= left.len() {
            false
        } else if j >= right.len() {
            true
        } else {
            left[i].id <= right[j].id
        };
        if from_left {
            let card = left[i];
            merged.push(card);
            proof {
                assert(merged@.drop_last() =~= before);
                assert(left@.take(i + 1).drop_last() =~= left@.take(i as int));
                assert(left@.take(i + 1).last() == card);
                assert forall|id: u32| #[trigger] with_id(merged@, id) == with_id(
                    left@.take(i + 1),
                    id,
                ) + with_id(right@.take(j as int), id) by {
                    assert(with_id(before, id) == with_id(left@.take(i as int), id) + with_id(
                        right@.take(j as int),
                        id,
                    ));
                    if card.id == id {
                        lemma_with_id_members(right@.take(j as int), id);
                        if with_id(right@.take(j as int), id).len() > 0 {
                            let k = choose|k: int|
                                0 <= k < right@.take(j as int).len() && (#[trigger] right@.take(
                                    j as int,
                                )[k]).id == id;
                            assert(right@.take(j as int)[k] == right@[k]);
                        }
                        assert(with_id(merged@, id) =~= with_id(left@.take(i + 1), id) + with_id(
                            right@.take(j as int),
                            id,
                        ));
                    }
                }
                assert forall|x: int, y: int| 0 <= x < y < merged@.len() implies merged@[x].id
                    <= merged@[y].id by {
                    if y < before.len() {
                        assert(merged@[x] == before[x] && merged@[y] == before[y]);
                    } else {
                        assert(merged@[x] == before[x]);
                    }
                }
            }
            i += 1;
        } else {
            let card = right[j];
            merged.push(card);
            proof {
                assert(merged@.drop_last() =~= before);
                assert(right@.take(j + 1).drop_last() =~= right@.take(j as int));
                assert(right@.take(j + 1).last() == card);
                assert forall|id: u32| #[trigger] with_id(merged@, id) == with_id(
                    left@.take(i as int),
                    id,
                ) + with_id(right@.take(j + 1), id) by {
                    assert(with_id(before, id) == with_id(left@.take(i as int), id) + with_id(
                        right@.take(j as int),
                        id,
                    ));
                    assert(with_id(merged@, id) =~= with_id(left@.take(i as int), id) + with_id(
                        right@.take(j + 1),
                        id,
                    ));
                }
                assert forall|x: int, y: int| 0 <= x < y < merged@.len() implies merged@[x].id
                    <= merged@[y].id by {
                    if y < before.len() {
                        assert(merged@[x] == before[x] && merged@[y] == before[y]);
                    } else {
                        assert(merged@[x] == before[x]);
                    }
                }
            }
            j += 1;
        }
    }
    proof {
        assert(left@.take(left.len() as int) =~= left@);
        assert(right@.take(right.len() as int) =~= right@);
    }
    merged
}

/// Sorts the records from `low` up to `high`.
fn sort_range(cards: &Vec<OptimizedCard>, low: usize, high: usize) -> (sorted: Vec<OptimizedCard>)
    requires
        low <= high <= cards.len(),
    ensures
        sorted@ == sorted_by_id(cards@.subrange(low as int, high as int)),
    decreases high - low,
{
    let ghost part = cards@.subrange(low as int, high as int);
    if high - low == 0 {
        return Vec::new();
    }
    if high - low == 1 {
        let mut sorted: Vec<OptimizedCard> = Vec::new();
        sorted.push(cards[low]);
        proof {
            assert(part.drop_last() =~= Seq::<OptimizedCard>::empty());
            assert(sorted_by_id(part.drop_last()) =~= Seq::<OptimizedCard>::empty());
            assert(sorted@ =~= sorted_by_id(part));
        }
        return sorted;
    }
    let mid = low + (high - low) / 2;
    let left = sort_range(cards, low, mid);
    let right = sort_range(cards, mid, high);
    let ghost first = cards@.subrange(low as int, mid as int);
    let ghost second = cards@.subrange(mid as int, high as int);
    proof {
        lemma_sorted_by_id(first);
        lemma_sorted_by_id(second);
        lemma_sorted_by_id(part);
    }
    let merged = merge_by_id(&left, &right);
    proof {
        assert(part =~= first + second);
        assert forall|id: u32| #[trigger]
            with_id(merged@, id) == with_id(sorted_by_id(part), id) by {
            lemma_sorted_keeps_blocks(first, id);
            lemma_sorted_keeps_blocks(second, id);
            lemma_sorted_keeps_blocks(part, id);
            lemma_with_id_concat(first, second, id);
        }
        lemma_blocks_fix_the_order(merged@, sorted_by_id(part));
    }
    merged
}

/// Puts records in ascending order of identity. Records with the same
/// identity keep the order they had.
pub fn sort_by_id(cards: &Vec<OptimizedCard>) -> (sorted: Vec<OptimizedCard>)
    ensures
        sorted@ == sorted_by_id(cards@),
        ascending_ids(sorted@),
        sorted@.len() == cards@.len(),
        sorted@.to_multiset() == cards@.to_multiset(),
{
    proof {
        assert(cards@.subrange(0, cards@.len() as int) =~= cards@);
        lemma_sorted_by_id(cards@);
    }
    sort_range(cards, 0, cards.len())
}

} // verus!
