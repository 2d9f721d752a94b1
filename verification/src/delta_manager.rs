//! Making, checking and replaying delta packages, and the registry of
//! published catalog versions.

use crate::catalog::{
    is_card_table, views_of, CardRecord, CardTable, CardView, OptimizedData, PowerStats,
};
use crate::delta::{
    additions, adds_in, apply_ops, checksum_of, checksum_value, diff_ops, is_changed,
    lemma_apply_diff_gives_target, lemma_diff_counts, lemma_diff_of_same_is_empty, modifications,
    modifies_in, ops_of, removals, DeltaOperation, OpView,
};
use crate::error::CatalogError;
use crate::hex::{hex_text, to_hex};
use crate::keys::same_text;
use vstd::prelude::*;
use vstd::string::*;

verus! {

/// Counts that describe a delta package.
#[derive(Clone, Copy, Debug, PartialEq, Eq, Structural)]
pub struct DeltaStatistics {
    pub total_operations: usize,
    pub cards_added: usize,
    pub cards_modified: usize,
    pub cards_removed: usize,
    /// The size of the stored package in bytes; zero until it has been stored.
    pub size_bytes: usize,
}

/// The operations that lead from one catalog version to another, with what
/// identifies and describes them.
#[derive(Debug, PartialEq, Eq)]
pub struct DeltaPackage {
    pub base_version: String,
    pub target_version: String,
    /// Milliseconds since the Unix epoch, UTC.
    pub generated_at: i64,
    pub operations: Vec<DeltaOperation>,
    pub checksum: String,
    pub statistics: DeltaStatistics,
}

/// A delta package, with its strings as sequences of characters.
pub struct PackageView {
    pub base_version: Seq<char>,
    pub target_version: Seq<char>,
    pub generated_at: i64,
    pub operations: Seq<OpView>,
    pub checksum: Seq<char>,
    pub statistics: DeltaStatistics,
}

impl View for DeltaPackage {
    type V = PackageView;

    open spec fn view(&self) -> PackageView {
        PackageView {
            base_version: self.base_version@,
            target_version: self.target_version@,
            generated_at: self.generated_at,
            operations: ops_of(self.operations@),
            checksum: self.checksum@,
            statistics: self.statistics,
        }
    }
}

/// The statistics of the delta from `base` to `target`.
pub open spec fn statistics_between(base: Seq<CardView>, target: Seq<CardView>) -> DeltaStatistics {
    DeltaStatistics {
        total_operations: diff_ops(base, target).len() as usize,
        cards_added: additions(base, target).len() as usize,
        cards_modified: modifications(base, target).len() as usize,
        cards_removed: removals(base, target).len() as usize,
        size_bytes: 0,
    }
}

/// The delta package from `base` to `target`.
pub open spec fn delta_between(
    base: Seq<CardView>,
    target: Seq<CardView>,
    base_version: Seq<char>,
    target_version: Seq<char>,
    generated_at: i64,
) -> PackageView {
    PackageView {
        base_version,
        target_version,
        generated_at,
        operations: diff_ops(base, target),
        checksum: checksum_of(diff_ops(base, target)),
        statistics: statistics_between(base, target),
    }
}

/// The views of a concatenation are the views of its parts, concatenated.
proof fn lemma_ops_of_concat(a: Seq<DeltaOperation>, b: Seq<DeltaOperation>)
    ensures
        ops_of(a + b) == ops_of(a) + ops_of(b),
{
    assert(ops_of(a + b) =~= ops_of(a) + ops_of(b));
}

/// An `Add` for each record that only `target` has.
fn collect_additions(base: &CardTable, target: &CardTable) -> (operations: Vec<DeltaOperation>)
    requires
        base.wf(),
    ensures
        ops_of(operations@) == additions(base.card_views(), target.card_views()),
{
    let cards = target.as_slice();
    let ghost all = target.card_views();
    let mut operations: Vec<DeltaOperation> = Vec::new();
    let mut i: usize = 0;
    assert(all.take(0) =~= Seq::<CardView>::empty());
    while i < cards.len()
        invariant
            base.wf(),
            all == views_of(cards@),
            i <= cards.len(),
            ops_of(operations@) =~= additions(base.card_views(), all.take(i as int)),
        decreases cards.len() - i,
    {
        let card = &cards[i];
        proof {
            assert(all.take(i + 1).drop_last() =~= all.take(i as int));
            assert(all.take(i + 1).last() == card@);
        }
        if !base.contains_key(card.reference.as_str()) {
            let ghost before = operations@;
            operations.push(DeltaOperation::Add(card.clone()));
            assert(ops_of(operations@) =~= ops_of(before).push(OpView::Add(card@)));
        }
        i += 1;
    }
    assert(all.take(cards.len() as int) =~= all);
    operations
}

/// A `Remove` for each key that only `base` has.
fn collect_removals(base: &CardTable, target: &CardTable) -> (operations: Vec<DeltaOperation>)
    requires
        target.wf(),
    ensures
        ops_of(operations@) == removals(base.card_views(), target.card_views()),
{
    let cards = base.as_slice();
    let ghost all = base.card_views();
    let mut operations: Vec<DeltaOperation> = Vec::new();
    let mut i: usize = 0;
    assert(all.take(0) =~= Seq::<CardView>::empty());
    while i < cards.len()
        invariant
            target.wf(),
            all == views_of(cards@),
            i <= cards.len(),
            ops_of(operations@) =~= removals(all.take(i as int), target.card_views()),
        decreases cards.len() - i,
    {
        let card = &cards[i];
        proof {
            assert(all.take(i + 1).drop_last() =~= all.take(i as int));
            assert(all.take(i + 1).last() == card@);
        }
        if !target.contains_key(card.reference.as_str()) {
            let ghost before = operations@;
            operations.push(DeltaOperation::Remove(card.reference.clone()));
            assert(ops_of(operations@) =~= ops_of(before).push(OpView::Remove(card@.reference)));
        }
        i += 1;
    }
    assert(all.take(cards.len() as int) =~= all);
    operations
}

/// A `Modify` for each record of `target` that differs from the record that
/// `base` has under the same key.
fn collect_modifications(base: &CardTable, target: &CardTable) -> (operations: Vec<
    DeltaOperation,
>)
    requires
        base.wf(),
    ensures
        ops_of(operations@) == modifications(base.card_views(), target.card_views()),
{
    let cards = target.as_slice();
    let ghost all = target.card_views();
    let mut operations: Vec<DeltaOperation> = Vec::new();
    let mut i: usize = 0;
    assert(all.take(0) =~= Seq::<CardView>::empty());
    while i < cards.len()
        invariant
            base.wf(),
            all == views_of(cards@),
            i <= cards.len(),
            ops_of(operations@) =~= modifications(base.card_views(), all.take(i as int)),
        decreases cards.len() - i,
    {
        let card = &cards[i];
        proof {
            assert(all.take(i + 1).drop_last() =~= all.take(i as int));
            assert(all.take(i + 1).last() == card@);
        }
        let changed = match base.get(card.reference.as_str()) {
            Some(known) => !known.same_as(card),
            None => false,
        };
        assert(changed == is_changed(base.card_views(), card@));
        if changed {
            let ghost before = operations@;
            operations.push(DeltaOperation::Modify(card.clone()));
            assert(ops_of(operations@) =~= ops_of(before).push(OpView::Modify(card@)));
        }
        i += 1;
    }
    assert(all.take(cards.len() as int) =~= all);
    operations
}

/// The checksum text for the given counts.
fn checksum_text(total: usize, added: usize, modified: usize) -> (text: String)
    ensures
        text@ == hex_text(checksum_value(total as nat, added as nat, modified as nat)),
{
    let sum: u128 = total as u128 * 17 + added as u128 * 31 + modified as u128 * 37;
    to_hex(sum)
}

/// Counts the `Add`s and the `Modify`s among the operations.
fn count_kinds(operations: &Vec<DeltaOperation>) -> (counts: (usize, usize))
    ensures
        counts == (
            adds_in(ops_of(operations@)) as usize,
            modifies_in(ops_of(operations@)) as usize,
        ),
        adds_in(ops_of(operations@)) <= operations@.len(),
        modifies_in(ops_of(operations@)) <= operations@.len(),
{
    let ghost all = ops_of(operations@);
    let mut added: usize = 0;
    let mut modified: usize = 0;
    let mut i: usize = 0;
    assert(all.take(0) =~= Seq::<OpView>::empty());
    while i < operations.len()
        invariant
            all == ops_of(operations@),
            i <= operations.len(),
            added == adds_in(all.take(i as int)),
            modified == modifies_in(all.take(i as int)),
            added <= i,
            modified <= i,
        decreases operations.len() - i,
    {
        proof {
            assert(all.take(i + 1).drop_last() =~= all.take(i as int));
            assert(all.take(i + 1).last() == operations[i as int]@);
        }
        match &operations[i] {
            DeltaOperation::Add(_) => {
                added += 1;
            },
            DeltaOperation::Modify(_) => {
                modified += 1;
            },
            DeltaOperation::Remove(_) => {},
        }
        i += 1;
    }
    assert(all.take(operations.len() as int) =~= all);
    (added, modified)
}

/// The delta package from `old_data` to `new_data`, stamped `generated_at`.
///
/// The operations are the additions, then the removals, then the
/// modifications, each in key order. The size in the statistics is zero: the
/// package has not been stored.
pub fn build_delta(
    old_data: &OptimizedData,
    new_data: &OptimizedData,
    base_version: &str,
    target_version: &str,
    generated_at: i64,
) -> (package: DeltaPackage)
    requires
        old_data.wf(),
        new_data.wf(),
    ensures
        package@ == delta_between(
            old_data.cards.card_views(),
            new_data.cards.card_views(),
            base_version@,
            target_version@,
            generated_at,
        ),
{
    let ghost base = old_data.cards.card_views();
    let ghost target = new_data.cards.card_views();
    let mut operations = collect_additions(&old_data.cards, &new_data.cards);
    let cards_added = operations.len();
    let mut removed = collect_removals(&old_data.cards, &new_data.cards);
    let cards_removed = removed.len();
    let mut modified = collect_modifications(&old_data.cards, &new_data.cards);
    let cards_modified = modified.len();
    proof {
        lemma_ops_of_concat(operations@, removed@);
        lemma_ops_of_concat(operations@ + removed@, modified@);
        lemma_diff_counts(base, target);
    }
    operations.append(&mut removed);
    operations.append(&mut modified);
    assert(ops_of(operations@) == diff_ops(base, target));
    let total_operations = operations.len();
    let checksum = checksum_text(total_operations, cards_added, cards_modified);
    DeltaPackage {
        base_version: String::from_str(base_version),
        target_version: String::from_str(target_version),
        generated_at,
        operations,
        checksum,
        statistics: DeltaStatistics {
            total_operations,
            cards_added,
            cards_modified,
            cards_removed,
            size_bytes: 0,
        },
    }
}

/// Whether the checksum stored in `delta` is the one its operations give.
pub fn verify_checksum(delta: &DeltaPackage) -> (outcome: Result<(), CatalogError>)
    ensures
        outcome is Ok <==> delta@.checksum == checksum_of(delta@.operations),
        outcome is Err ==> outcome->Err_0 == CatalogError::ChecksumMismatch,
{
    let (added, modified) = count_kinds(&delta.operations);
    let expected = checksum_text(delta.operations.len(), added, modified);
    if delta.checksum == expected {
        Ok(())
    } else {
        Err(CatalogError::ChecksumMismatch)
    }
}

/// The catalog after a replay: the records that the operations leave, the
/// record count and the time brought up to date, everything else as it was.
pub open spec fn replayed(
    before: OptimizedData,
    ops: Seq<OpView>,
    now: i64,
    after: OptimizedData,
) -> bool {
    &&& after.wf()
    &&& after.cards.card_views() == apply_ops(before.cards.card_views(), ops)
    &&& after.meta.total_cards == after.cards.card_views().len()
    &&& after.meta.generated_at_utc == now
    &&& after.meta.script_version == before.meta.script_version
    &&& after.meta.source_set == before.meta.source_set
    &&& after.meta.data_sources == before.meta.data_sources
    &&& after.lookup_tables == before.lookup_tables
}

/// Replays the operations of `delta` on `base_data` in their stored order,
/// then sets the record count to the number of records and the time of the
/// catalog to `now`.
///
/// Neither the base version nor the checksum of the package is looked at.
pub fn apply_delta_at(base_data: &mut OptimizedData, delta: &DeltaPackage, now: i64)
    requires
        old(base_data).wf(),
    ensures
        replayed(*old(base_data), delta@.operations, now, *final(base_data)),
{
    let ghost start = base_data.cards.card_views();
    let ghost all = ops_of(delta.operations@);
    let mut i: usize = 0;
    assert(all.take(0) =~= Seq::<OpView>::empty());
    while i < delta.operations.len()
        invariant
            all == ops_of(delta.operations@),
            i <= delta.operations.len(),
            base_data.wf(),
            base_data.cards.card_views() == apply_ops(start, all.take(i as int)),
            base_data.meta == old(base_data).meta,
            base_data.lookup_tables == old(base_data).lookup_tables,
        decreases delta.operations.len() - i,
    {
        proof {
            assert(all.take(i + 1).drop_last() =~= all.take(i as int));
            assert(all.take(i + 1).last() == delta.operations[i as int]@);
        }
        match &delta.operations[i] {
            DeltaOperation::Add(card) => {
                base_data.cards.insert(card.clone());
            },
            DeltaOperation::Modify(card) => {
                base_data.cards.insert(card.clone());
            },
            DeltaOperation::Remove(reference) => {
                let _ = base_data.cards.remove(reference.as_str());
            },
        }
        i += 1;
    }
    assert(all.take(delta.operations.len() as int) =~= all);
    base_data.meta.total_cards = base_data.cards.len();
    base_data.meta.generated_at_utc = now;
}

/// What is known of one published catalog version.
#[derive(Debug, PartialEq, Eq)]
pub struct DatabaseVersion {
    pub version: String,
    /// Milliseconds since the Unix epoch, UTC.
    pub timestamp: i64,
    pub card_count: usize,
    pub file_size: usize,
    pub checksum: String,
}

/// A registry entry, with its strings as sequences of characters.
pub struct VersionView {
    pub version: Seq<char>,
    pub timestamp: i64,
    pub card_count: usize,
    pub file_size: usize,
    pub checksum: Seq<char>,
}

impl View for DatabaseVersion {
    type V = VersionView;

    open spec fn view(&self) -> VersionView {
        VersionView {
            version: self.version@,
            timestamp: self.timestamp,
            card_count: self.card_count,
            file_size: self.file_size,
            checksum: self.checksum@,
        }
    }
}

impl Clone for DatabaseVersion {
    fn clone(&self) -> (copy: Self)
        ensures
            copy == *self,
    {
        DatabaseVersion {
            version: self.version.clone(),
            timestamp: self.timestamp,
            card_count: self.card_count,
            file_size: self.file_size,
            checksum: self.checksum.clone(),
        }
    }
}

/// The views of registry entries, in their order.
pub open spec fn version_views(versions: Seq<DatabaseVersion>) -> Seq<VersionView> {
    versions.map_values(|v: DatabaseVersion| v@)
}

/// The checksum of a registry entry: a weighted sum of the size of the
/// artifact and its number of records, in hexadecimal.
pub open spec fn version_checksum(file_size: nat, card_count: nat) -> Seq<char> {
    hex_text(file_size * 31 + card_count * 17)
}

/// The registry entry for the given values.
pub open spec fn version_entry(
    version: Seq<char>,
    file_size: usize,
    card_count: usize,
    timestamp: i64,
) -> VersionView {
    VersionView {
        version,
        timestamp,
        card_count,
        file_size,
        checksum: version_checksum(file_size as nat, card_count as nat),
    }
}

/// The name of the file that holds the delta between two versions.
pub open spec fn delta_file_name(base_version: Seq<char>, target_version: Seq<char>) -> Seq<char> {
    "delta_"@ + base_version + "_"@ + target_version + ".json"@
}

/// Makes and replays delta packages and keeps the list of published catalog
/// versions, oldest first. Entries are only ever added at the end.
pub struct DeltaManager {
    versions: Vec<DatabaseVersion>,
    base_path: String,
}

impl DeltaManager {
    /// The registered versions, oldest first.
    pub closed spec fn versions_view(&self) -> Seq<VersionView> {
        version_views(self.versions@)
    }

    /// The directory that the manager was made for.
    pub closed spec fn base_path_view(&self) -> Seq<char> {
        self.base_path@
    }

    /// A manager for the directory `base_path`, with no version registered.
    pub fn new(base_path: &str) -> (manager: Self)
        ensures
            manager.versions_view() == Seq::<VersionView>::empty(),
            manager.base_path_view() == base_path@,
    {
        let manager = DeltaManager { versions: Vec::new(), base_path: String::from_str(base_path) };
        assert(manager.versions_view() =~= Seq::<VersionView>::empty());
        manager
    }

    /// The directory that the manager was made for.
    pub fn base_path(&self) -> (path: &str)
        ensures
            path@ == self.base_path_view(),
    {
        self.base_path.as_str()
    }

    /// The delta package from `old_data` to `new_data`, stamped
    /// `generated_at`, the time of its making in milliseconds since the Unix
    /// epoch. The result is always `Ok`.
    pub fn create_delta(
        &self,
        old_data: &OptimizedData,
        new_data: &OptimizedData,
        base_version: &str,
        target_version: &str,
        generated_at: i64,
    ) -> (outcome: Result<DeltaPackage, CatalogError>)
        requires
            old_data.wf(),
            new_data.wf(),
        ensures
            outcome is Ok,
            outcome->Ok_0@ == delta_between(
                old_data.cards.card_views(),
                new_data.cards.card_views(),
                base_version@,
                target_version@,
                generated_at,
            ),
    {
        Ok(build_delta(old_data, new_data, base_version, target_version, generated_at))
    }

    /// Replays `delta` on `base_data`, sets the record count to the number
    /// of records, and sets the time of the catalog to `now`, the time of the
    /// replay in milliseconds since the Unix epoch. The result is always
    /// `Ok`.
    ///
    /// The package is taken as it is: whether it was made for this catalog,
    /// and whether its checksum is right, is for the caller to decide, or for
    /// `apply_delta_checked`.
    pub fn apply_delta(
        &self,
        base_data: &mut OptimizedData,
        delta: &DeltaPackage,
        now: i64,
    ) -> (outcome: Result<(), CatalogError>)
        requires
            old(base_data).wf(),
        ensures
            outcome is Ok,
            replayed(*old(base_data), delta@.operations, now, *final(base_data)),
    {
        apply_delta_at(base_data, delta, now);
        Ok(())
    }

    /// Replays `delta` on `base_data` as `apply_delta` does, after two
    /// checks: that the package was made for `current_version`, and that its
    /// stored checksum is the one its operations give. Where a check fails
    /// the catalog is left as it was.
    pub fn apply_delta_checked(
        &self,
        base_data: &mut OptimizedData,
        delta: &DeltaPackage,
        current_version: &str,
        now: i64,
    ) -> (outcome: Result<(), CatalogError>)
        requires
            old(base_data).wf(),
        ensures
            outcome == if delta@.base_version != current_version@ {
                Err::<(), CatalogError>(CatalogError::VersionMismatch)
            } else if delta@.checksum != checksum_of(delta@.operations) {
                Err::<(), CatalogError>(CatalogError::ChecksumMismatch)
            } else {
                Ok::<(), CatalogError>(())
            },
            outcome is Err ==> *final(base_data) == *old(base_data),
            outcome is Ok ==> replayed(*old(base_data), delta@.operations, now, *final(base_data)),
    {
        if !same_text(delta.base_version.as_str(), current_version) {
            return Err(CatalogError::VersionMismatch);
        }
        match verify_checksum(delta) {
            Err(e) => Err(e),
            Ok(()) => {
                apply_delta_at(base_data, delta, now);
                Ok(())
            },
        }
    }

    /// Adds an entry for a published version at the end of the registry and
    /// returns a copy of it. `file_size` is the size of the published
    /// artifact in bytes, `timestamp` the time of publication in milliseconds
    /// since the Unix epoch.
    pub fn register_version(
        &mut self,
        version: &str,
        file_size: usize,
        card_count: usize,
        timestamp: i64,
    ) -> (entry: DatabaseVersion)
        ensures
            entry@ == version_entry(version@, file_size, card_count, timestamp),
            final(self).versions_view() == old(self).versions_view().push(entry@),
            final(self).base_path_view() == old(self).base_path_view(),
    {
        let sum: u128 = file_size as u128 * 31 + card_count as u128 * 17;
        let entry = DatabaseVersion {
            version: String::from_str(version),
            timestamp,
            card_count,
            file_size,
            checksum: to_hex(sum),
        };
        let copy = entry.clone();
        let ghost before = self.versions@;
        self.versions.push(entry);
        assert(version_views(self.versions@) =~= version_views(before).push(copy@));
        copy
    }

    /// The registered versions, oldest first.
    pub fn get_versions(&self) -> (versions: &[DatabaseVersion])
        ensures
            version_views(versions@) == self.versions_view(),
    {
        self.versions.as_slice()
    }

    /// The files to apply, in order, to get from `base_version` to
    /// `target_version`: the one delta that leads there directly. The registry
    /// is not consulted.
    pub fn create_update_chain(&self, base_version: &str, target_version: &str) -> (chain: Vec<
        String,
    >)
        ensures
            chain@.len() == 1,
            chain@[0]@ == delta_file_name(base_version@, target_version@),
    {
        let mut name = String::from_str("delta_");
        name.append(base_version);
        name.append("_");
        name.append(target_version);
        name.append(".json");
        let mut chain: Vec<String> = Vec::new();
        chain.push(name);
        chain
    }
}

/// The record of the sample package.
pub open spec fn sample_card() -> CardView {
    CardView {
        reference: "SAMPLE_NEW_CARD"@,
        name: "Sample New Card"@,
        type_ref: "HERO"@,
        faction_ref: "AX"@,
        rarity_ref: "COMMON"@,
        image_path: "/path/to/image.jpg"@,
        qr_url: "https://example.com/qr"@,
        main_cost: 3,
        recall_cost: 1,
        is_suspended: false,
        power: PowerStats { m: 2, o: 1, f: 3 },
    }
}

/// The sample package: one added record between versions 2.0.0 and 2.0.1.
pub open spec fn sample_package(generated_at: i64) -> PackageView {
    PackageView {
        base_version: "2.0.0"@,
        target_version: "2.0.1"@,
        generated_at,
        operations: seq![OpView::Add(sample_card())],
        checksum: "sample_checksum"@,
        statistics: DeltaStatistics {
            total_operations: 1,
            cards_added: 1,
            cards_modified: 0,
            cards_removed: 0,
            size_bytes: 1024,
        },
    }
}

/// A small package for demonstration, stamped `generated_at`. Its checksum
/// is a fixed text and does not pass `verify_checksum`.
pub fn create_sample_delta(generated_at: i64) -> (package: DeltaPackage)
    ensures
        package@ == sample_package(generated_at),
{
    let card = CardRecord {
        reference: String::from_str("SAMPLE_NEW_CARD"),
        name: String::from_str("Sample New Card"),
        type_ref: String::from_str("HERO"),
        faction_ref: String::from_str("AX"),
        rarity_ref: String::from_str("COMMON"),
        image_path: String::from_str("/path/to/image.jpg"),
        qr_url: String::from_str("https://example.com/qr"),
        main_cost: 3,
        recall_cost: 1,
        is_suspended: false,
        power: PowerStats { m: 2, o: 1, f: 3 },
    };
    let mut operations: Vec<DeltaOperation> = Vec::new();
    operations.push(DeltaOperation::Add(card));
    assert(ops_of(operations@) =~= seq![OpView::Add(sample_card())]);
    DeltaPackage {
        base_version: String::from_str("2.0.0"),
        target_version: String::from_str("2.0.1"),
        generated_at,
        operations,
        checksum: String::from_str("sample_checksum"),
        statistics: DeltaStatistics {
            total_operations: 1,
            cards_added: 1,
            cards_modified: 0,
            cards_removed: 0,
            size_bytes: 1024,
        },
    }
}

/// The delta of a catalog against itself has no operations, and all its
/// counts are zero.
pub proof fn lemma_delta_of_same_is_empty(
    cards: Seq<CardView>,
    base_version: Seq<char>,
    target_version: Seq<char>,
    generated_at: i64,
)
    requires
        is_card_table(cards),
    ensures
        delta_between(cards, cards, base_version, target_version, generated_at).operations
            == Seq::<OpView>::empty(),
        delta_between(cards, cards, base_version, target_version, generated_at).statistics == (
            DeltaStatistics {
                total_operations: 0,
                cards_added: 0,
                cards_modified: 0,
                cards_removed: 0,
                size_bytes: 0,
            }
        ),
{
    lemma_diff_of_same_is_empty(cards);
}

/// Replaying the delta from one catalog to another on the first gives the
/// records of the second, record for record, and their number as the record
/// count. The lookup tables are not part of a delta: they stay those of the
/// first catalog, and so are those of the second where the two had the same.
pub proof fn lemma_replay_reaches_target(
    before: OptimizedData,
    target: OptimizedData,
    now: i64,
    after: OptimizedData,
)
    requires
        before.wf(),
        target.wf(),
        replayed(
            before,
            diff_ops(before.cards.card_views(), target.cards.card_views()),
            now,
            after,
        ),
    ensures
        after.cards.card_views() == target.cards.card_views(),
        after.cards.records() == target.cards.records(),
        after.meta.total_cards == target.cards.card_views().len(),
        before.lookup_tables == target.lookup_tables ==> after.lookup_tables
            == target.lookup_tables,
{
    lemma_apply_diff_gives_target(before.cards.card_views(), target.cards.card_views());
}

} // verus!
