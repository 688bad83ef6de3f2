//! What references rest on, and what of that is seen.
use vstd::prelude::*;

use crate::body::{body_flows, Blocks};
use crate::flags::ReferenceProperties;
use crate::flow_laws::{
    flagged_by, lemma_joined_flag, lemma_makes_reference, lemma_merged_flag, makes_reference,
};
use crate::function::{FunctionId, FunctionView};
use crate::provenance::{
    are_merged_flags, entry_key, law_merged_flags_determined, merged_flags_of, stated_part,
    takes_in_flags, visible, with_merged, EntryView, ReferenceEntryKey, ReferenceProvenance,
};
use crate::provenance_index::{
    entries_changed, merged_into, rebuilt_entries, rebuilt_entry, EntryMap, PreparedReferenceRecord,
};
use crate::reference::Reference;

verus! {

/// Flags that are put together have a flag exactly if what a reference rests on has it.
pub proof fn law_merged_flags_have_each_flag(entry: EntryView, bits: u16, flag: u16)
    requires
        are_merged_flags(entry, bits),
    ensures
        bits & flag != 0 <==> exists|provenance: ReferenceProvenance| #[trigger]
            entry.contains_key(provenance) && entry[provenance].bits & flag != 0,
{
    if exists|provenance: ReferenceProvenance| #[trigger]
        entry.contains_key(provenance) && entry[provenance].bits & flag != 0 {
        let provenance = choose|provenance: ReferenceProvenance| #[trigger]
            entry.contains_key(provenance) && entry[provenance].bits & flag != 0;
        let own = entry[provenance].bits;
        assert(own & bits == own);
        assert(own & bits == own && own & flag != 0 ==> bits & flag != 0) by (bit_vector);
    } else {
        let fewer = bits & !flag;
        assert forall|provenance: ReferenceProvenance| #[trigger]
            entry.contains_key(provenance) implies entry[provenance].bits & fewer
            == entry[provenance].bits by {
            let own = entry[provenance].bits;
            assert(own & bits == own && own & flag == 0 ==> own & (bits & !flag) == own)
                by (bit_vector);
        }
        assert(takes_in_flags(entry, fewer));
        assert(bits & (bits & !flag) == bits ==> bits & flag == 0) by (bit_vector);
    }
}

/// The flags that a reference rests on can be put together.
proof fn lemma_flags_merge(entry: EntryView) -> (bits: u16)
    requires
        entry.dom().finite(),
    ensures
        are_merged_flags(entry, bits),
    decreases entry.dom().len(),
{
    if entry.dom().len() == 0 {
        assert(entry.dom() =~= Set::empty());
        assert(forall|other: u16| #[trigger] (0u16 & other) == 0u16) by (bit_vector);
        assert(are_merged_flags(entry, 0));
        0
    } else {
        let last = entry.dom().choose();
        let rest = entry.remove(last);
        assert(rest.dom() =~= entry.dom().remove(last));
        let before = lemma_flags_merge(rest);
        let own = entry[last].bits;
        let bits = before | own;
        assert forall|provenance: ReferenceProvenance| #[trigger]
            entry.contains_key(provenance) implies entry[provenance].bits & bits
            == entry[provenance].bits by {
            if provenance == last {
                assert(own & (before | own) == own) by (bit_vector);
            } else {
                assert(rest.contains_key(provenance));
                let it = entry[provenance].bits;
                assert(it & before == it ==> it & (before | own) == it) by (bit_vector);
            }
        }
        assert forall|other: u16| #[trigger] takes_in_flags(entry, other) implies bits & other
            == bits by {
            assert(entry.contains_key(last));
            assert(takes_in_flags(rest, other)) by {
                assert forall|provenance: ReferenceProvenance| #[trigger]
                    rest.contains_key(provenance) implies rest[provenance].bits & other
                    == rest[provenance].bits by {
                    assert(entry.contains_key(provenance));
                }
            }
            assert(own & other == own && before & other == before ==> (before | own) & other == (
            before | own)) by (bit_vector);
        }
        bits
    }
}

/// A reference that someone stated is seen with the flags stated, whatever was derived. One
/// that was only derived is seen with each flag that something it rests on has, and no other.
pub proof fn law_stated_hides_derived(key: ReferenceEntryKey, entry: EntryView, flag: u16)
    requires
        entry.dom().finite(),
        entry != EntryView::empty(),
    ensures
        visible(key, entry) is Some,
        ({
            let seen = visible(key, entry)->0;
            &&& seen.from == key.from && seen.target == key.target && seen.kind == key.kind
            &&& entry.contains_key(ReferenceProvenance::Asserted) ==> seen.origin is Asserted
                && seen.properties == entry[ReferenceProvenance::Asserted]
            &&& !entry.contains_key(ReferenceProvenance::Asserted) ==> seen.origin is Derived && (
            seen.properties.bits & flag != 0 <==> exists|provenance: ReferenceProvenance| #[trigger]
                entry.contains_key(provenance) && entry[provenance].bits & flag != 0)
        }),
{
    let bits = lemma_flags_merge(entry);
    law_merged_flags_determined(entry, bits, merged_flags_of(entry));
    law_merged_flags_have_each_flag(entry, bits, flag);
}

/// Merging adds to the flags from one provenance, and leaves those from all others.
pub proof fn law_merging_adds_flags(
    entry: EntryView,
    provenance: ReferenceProvenance,
    properties: ReferenceProperties,
    other: ReferenceProvenance,
    flag: u16,
)
    ensures
        with_merged(entry, provenance, properties).contains_key(provenance),
        with_merged(entry, provenance, properties)[provenance].bits & flag != 0 <==> (
        entry.contains_key(provenance) && entry[provenance].bits & flag != 0) || properties.bits
            & flag != 0,
        other != provenance ==> with_merged(entry, provenance, properties).get(other) == entry.get(
            other,
        ),
{
    lemma_joined_flag(entry[provenance].bits, properties.bits, flag);
}

/// Merging a reference into an index touches what is filed under its ends and kind, from the
/// given provenance, and nothing else.
pub proof fn law_merging_touches_one_entry(
    index: EntryMap,
    reference: Reference,
    provenance: ReferenceProvenance,
    key: ReferenceEntryKey,
    other: ReferenceProvenance,
)
    ensures
        key != entry_key(reference) ==> merged_into(index, reference, provenance).get(key)
            == index.get(key),
        merged_into(index, reference, provenance).contains_key(entry_key(reference)),
        merged_into(index, reference, provenance)[entry_key(reference)].contains_key(provenance),
        !index.contains_key(entry_key(reference)) ==> merged_into(index, reference, provenance)[
            entry_key(reference)
        ] == EntryView::empty().insert(provenance, reference.properties),
        index.contains_key(entry_key(reference)) && other != provenance ==> merged_into(
            index,
            reference,
            provenance,
        )[entry_key(reference)].get(other) == index[entry_key(reference)].get(other),
{
}

/// Clearing what was derived leaves what was stated as it is, and nothing else.
pub proof fn law_cleared_entry_is_stated(entry: EntryView, provenance: ReferenceProvenance)
    ensures
        stated_part(entry).get(provenance) == match provenance {
            ReferenceProvenance::Asserted => entry.get(provenance),
            ReferenceProvenance::Function(_) => None,
        },
{
}

/// After references are derived anew, one that was stated rests on that alone, as it did. Any
/// other rests on each function that now makes it, with the flags of that function's present
/// flows, and on nothing else: one that no function makes any more is gone.
pub proof fn law_derived_entries_are_present_ones(
    index: EntryMap,
    functions: Map<FunctionId, FunctionView>,
    blocks: Blocks,
    key: ReferenceEntryKey,
    id: FunctionId,
    flag: u16,
)
    ensures
        ({
            let after = rebuilt_entries(index, functions, blocks, functions.dom());
            let stated = index.contains_key(key) && index[key].contains_key(
                ReferenceProvenance::Asserted,
            );
            let derived = ReferenceProvenance::Function(id);
            &&& stated ==> after.contains_key(key) && after[key] == EntryView::empty().insert(
                ReferenceProvenance::Asserted,
                index[key][ReferenceProvenance::Asserted],
            )
            &&& !stated && after.contains_key(key) ==> !after[key].contains_key(
                ReferenceProvenance::Asserted,
            )
            &&& !stated ==> (after.contains_key(key) && after[key].contains_key(derived)
                <==> key.kind is Flow && functions.contains_key(id) && makes_reference(
                functions[id],
                blocks,
                key.ends(),
            ))
            &&& !stated && after.contains_key(key) && after[key].contains_key(derived) ==> (
            after[key][derived].bits & flag != 0 <==> flagged_by(
                body_flows(functions[id], blocks, functions[id].blocks.len() as int),
                key.ends(),
                flag,
            ))
            &&& !stated && (forall|other: FunctionId| #[trigger]
                functions.contains_key(other) ==> !makes_reference(
                    functions[other],
                    blocks,
                    key.ends(),
                )) ==> !after.contains_key(key)
        }),
{
    let after = rebuilt_entries(index, functions, blocks, functions.dom());
    let stated = index.contains_key(key) && index[key].contains_key(ReferenceProvenance::Asserted);
    let derived = ReferenceProvenance::Function(id);
    let entry = rebuilt_entry(index, functions, blocks, functions.dom(), key);
    assert forall|other: FunctionId| #[trigger] functions.contains_key(other) implies makes_reference(
        functions[other],
        blocks,
        key.ends(),
    ) == crate::coalesce::leaves_by(
        crate::reference_index::flows_of(functions[other], blocks),
        key.ends(),
    ) by {
        lemma_makes_reference(functions[other], blocks, key.ends());
    }
    if stated {
        let own = EntryView::empty().insert(
            ReferenceProvenance::Asserted,
            index[key][ReferenceProvenance::Asserted],
        );
        assert(entry =~= own);
        assert(entry.contains_key(ReferenceProvenance::Asserted));
        assert(!EntryView::empty().contains_key(ReferenceProvenance::Asserted));
    } else {
        if functions.contains_key(id) {
            lemma_merged_flag(
                body_flows(functions[id], blocks, functions[id].blocks.len() as int),
                key.ends(),
                flag,
            );
        }
        assert(!EntryView::empty().contains_key(derived));
        if forall|other: FunctionId| #[trigger]
            functions.contains_key(other) ==> !makes_reference(
                functions[other],
                blocks,
                key.ends(),
            ) {
            assert(entry =~= EntryView::empty());
        }
    }
}

/// Changes of entries are made one after another: under each key stands what the last change
/// says, and where none says anything, what stood there before.
pub proof fn law_last_change_of_entry_stands(
    index: EntryMap,
    records: Seq<PreparedReferenceRecord>,
    key: ReferenceEntryKey,
    last: int,
)
    requires
        -1 <= last < records.len(),
        last >= 0 ==> records[last].key == key,
        forall|i: int| last < i < records.len() ==> (#[trigger] records[i]).key != key,
    ensures
        last < 0 ==> entries_changed(index, records).get(key) == index.get(key),
        last >= 0 ==> match records[last].entry {
            Some(entry) => entries_changed(index, records).get(key) == Some(entry@),
            None => !entries_changed(index, records).contains_key(key),
        },
    decreases records.len(),
{
    if records.len() > 0 {
        let rest = records.drop_last();
        assert(records[records.len() - 1] == records.last());
        if last < records.len() - 1 {
            assert(records.last().key != key);
            assert forall|i: int| last < i < rest.len() implies (#[trigger] rest[i]).key != key by {
                assert(records[i].key != key);
            }
            law_last_change_of_entry_stands(index, rest, key, last);
        }
    }
}

} // verus!
