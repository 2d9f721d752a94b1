//! A delta in terms of numeric identities, for readers of the encoded
//! database.

use crate::catalog::{card_keys, views_of, CardView, OptimizedData};
use crate::identity::{generate_numeric_id, identity_of};
use crate::ordering::OptimizedCard;
use vstd::prelude::*;

verus! {

/// What changed between two versions of the encoded database.
#[derive(Debug, PartialEq, Eq)]
pub struct DeltaUpdate {
    pub added_cards: Vec<OptimizedCard>,
    pub modified_cards: Vec<OptimizedCard>,
    pub removed_card_ids: Vec<u32>,
    pub delta_version: u32,
    pub base_version: u32,
}

/// The identities of the keys of `base` that `target` does not have, in the
/// key order of `base`.
pub open spec fn removed_ids(base: Seq<CardView>, target: Seq<CardView>) -> Seq<u32>
    decreases base.len(),
{
    if base.len() == 0 {
        Seq::empty()
    } else if card_keys(target).contains(base.last().reference) {
        removed_ids(base.drop_last(), target)
    } else {
        removed_ids(base.drop_last(), target).push(identity_of(base.last().reference))
    }
}

/// The delta update from `old_data` to `new_data`.
///
/// It lists the identities of the cards that are gone. The lists of added and
/// of modified cards stay empty: an encoded record refers to the string pool
/// of one encoding, and a delta update carries no pool.
pub fn create_delta_update(
    old_data: &OptimizedData,
    new_data: &OptimizedData,
    base_version: u32,
    delta_version: u32,
) -> (update: DeltaUpdate)
    requires
        new_data.wf(),
    ensures
        update.added_cards@.len() == 0,
        update.modified_cards@.len() == 0,
        update.removed_card_ids@ == removed_ids(
            old_data.cards.card_views(),
            new_data.cards.card_views(),
        ),
        update.base_version == base_version,
        update.delta_version == delta_version,
{
    let cards = old_data.cards.as_slice();
    let ghost all = old_data.cards.card_views();
    let mut removed_card_ids: Vec<u32> = Vec::new();
    let mut i: usize = 0;
    assert(all.take(0) =~= Seq::<CardView>::empty());
    while i < cards.len()
        invariant
            new_data.wf(),
            all == views_of(cards@),
            i <= cards.len(),
            removed_card_ids@ == removed_ids(all.take(i as int), new_data.cards.card_views()),
        decreases cards.len() - i,
    {
        let card = &cards[i];
        proof {
            assert(all.take(i + 1).drop_last() =~= all.take(i as int));
            assert(all.take(i + 1).last() == card@);
        }
        if !new_data.cards.contains_key(card.reference.as_str()) {
            removed_card_ids.push(generate_numeric_id(card.reference.as_str()));
        }
        i += 1;
    }
    assert(all.take(cards.len() as int) =~= all);
    DeltaUpdate {
        added_cards: Vec::new(),
        modified_cards: Vec::new(),
        removed_card_ids,
        delta_version,
        base_version,
    }
}

} // verus!
