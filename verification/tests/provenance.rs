use fugue_ir::address::{Address, AddressRange};
use fugue_ir::address_set::AddressRangeSet;
use fugue_ir::flags::ReferenceProperties;
use fugue_ir::function::FunctionId;
use fugue_ir::provenance::{ReferenceEntry, ReferenceEntryKey, ReferenceProvenance};
use fugue_ir::provenance_index::{ReferenceIndex, ReferenceIndexError};
use fugue_ir::reference::{Reference, ReferenceKind, ReferenceOrigin};
use fugue_ir::reference_staging::{DerivedReferenceBatch, ReferenceStaging};

fn at(offset: u64) -> Address {
    Address::from(offset)
}

fn flags(bits: u16) -> ReferenceProperties {
    ReferenceProperties::of(bits)
}

fn call(from: u64, to: u64) -> Reference {
    Reference::flow(at(from), at(to), flags(ReferenceProperties::CALL))
}

fn coverage(offset: u64, size: u64) -> AddressRangeSet {
    let mut set = AddressRangeSet::new();
    set.insert_range(AddressRange::from_size(at(offset), size).unwrap());
    set
}

fn by(function: u32) -> ReferenceProvenance {
    ReferenceProvenance::Function(FunctionId::new(function))
}

#[test]
fn entries_remember_who_says_what() {
    let key = ReferenceEntryKey::new(at(1), at(2).into(), ReferenceKind::Data);
    let mut entry = ReferenceEntry::new(by(1), flags(ReferenceProperties::READ));
    entry.merge_provenance(by(2), flags(ReferenceProperties::WRITE));
    let seen = entry.materialise(key).unwrap();
    assert!(seen.is_read() && seen.is_write());
    assert!(seen.origin().is_derived());
    entry.set_provenance(by(1), None);
    let seen = entry.materialise(key).unwrap();
    assert!(!seen.is_read() && seen.is_write());
    entry.merge_provenance(
        ReferenceProvenance::Asserted,
        flags(ReferenceProperties::READ),
    );
    assert!(entry.materialise(key).unwrap().origin().is_asserted());
    entry.clear_derived();
    assert!(entry.has_provenance(ReferenceProvenance::Asserted));
    assert!(!entry.has_provenance(by(2)));
    entry.set_provenance(ReferenceProvenance::Asserted, None);
    assert!(entry.is_empty());
    assert!(entry.materialise(key).is_none());
}

#[test]
fn derived_references_need_a_provenance() {
    let mut index = ReferenceIndex::new_transient();
    let derived = call(1, 2).with_origin(ReferenceOrigin::Derived);
    assert!(matches!(
        index.insert(&derived),
        Err(ReferenceIndexError::MissingProvenance)
    ));
    assert!(index.references_from(at(1), None).is_empty());
    assert!(index.insert(&call(1, 2)).is_ok());
    index.merge_provenance(&derived, by(1));
    assert_eq!(index.references_from(at(1), None).len(), 1);
    let key = ReferenceEntryKey::of(&derived);
    assert!(index.get(key).is_some_and(|seen| seen.origin().is_asserted()));
    assert_eq!(index.references_to(at(2).into(), None).len(), 1);
    assert_eq!(index.references_in(&coverage(0, 4)).len(), 1);
    assert!(index.references_in(&coverage(4, 4)).is_empty());
    index.clear_derived();
    assert!(index.entry(key).is_some_and(|entry| !entry.has_provenance(by(1))));
    index.remove(key);
    assert!(index.references_from(at(1), None).is_empty());
}

#[test]
fn kinds_are_kept_apart() {
    let mut index = ReferenceIndex::new_transient();
    assert!(index.insert(&call(1, 2)).is_ok());
    assert!(index
        .insert(&Reference::data(
            at(1),
            at(2),
            flags(ReferenceProperties::READ)
        ))
        .is_ok());
    let all = index.references_from(at(1), None);
    assert_eq!(all.len(), 2);
    let rest = index.references_from(at(1), Some(ReferenceEntryKey::of(&all[0])));
    assert_eq!(rest.len(), 1);
}

#[test]
fn batches_replace_what_the_same_provenance_said() {
    let mut index = ReferenceIndex::new_transient();
    assert!(index.insert(&call(1, 9)).is_ok());

    let mut staging = ReferenceStaging::new();
    let first = DerivedReferenceBatch::new(
        coverage(0, 8),
        ReferenceKind::Flow,
        by(1),
        &vec![call(1, 2), call(2, 3)],
    );
    assert!(staging.replace_derived_reference_batches(&index, &vec![first]));
    let batch = staging.prepare();
    assert!(batch.derived_changed());
    batch.publish(&mut index);
    assert_eq!(index.references_in(&coverage(0, 8)).len(), 3);

    let mut staging = ReferenceStaging::new();
    let second = DerivedReferenceBatch::new(
        coverage(0, 8),
        ReferenceKind::Flow,
        by(1),
        &vec![call(2, 3)],
    );
    assert!(staging.replace_derived_reference_batches(&index, &vec![second]));
    staging.prepare().publish(&mut index);
    assert_eq!(index.references_in(&coverage(0, 8)).len(), 2);
    assert!(index
        .get(ReferenceEntryKey::of(&call(1, 2)))
        .is_none());

    let mut staging = ReferenceStaging::new();
    let again = DerivedReferenceBatch::new(
        coverage(0, 8),
        ReferenceKind::Flow,
        by(1),
        &vec![call(2, 3)],
    );
    assert!(!staging.replace_derived_reference_batches(&index, &vec![again]));
}

#[test]
fn staged_statements_reach_the_index_and_can_be_taken_back() {
    let mut index = ReferenceIndex::new_transient();
    let mut staging = ReferenceStaging::new();
    let stated = call(1, 2);
    let key = ReferenceEntryKey::of(&stated);
    assert!(staging.insert(&index, stated));
    assert!(staging.entry(&index, key).is_some());
    assert!(index.get(key).is_none());
    assert!(staging.remove(&index, key));
    assert!(staging.entry(&index, key).is_none());
    assert!(staging.prepare().asserted_changes().is_empty());

    let mut staging = ReferenceStaging::new();
    assert!(staging.insert(&index, stated));
    let batch = staging.prepare();
    assert_eq!(batch.asserted_changes(), vec![(key, true)]);
    batch.publish(&mut index);
    assert!(index.get(key).is_some());
}
