//! What the record of a block says of the instructions that the block is made of.
use vstd::prelude::*;

use crate::address::{law_ranges_meet_in_an_address, Address, AddressRange};
use crate::address_set::AddressRangeSet;
use crate::block::{
    flows_inside, insn_views, kept, law_record_keeps_flows, leaving_flows, CodeBlock, CodeBlockId,
    CodeBlockRecord, CodeBlockRecordView, CodeBlockView,
};
use crate::block_table::{begins_at, begins_in, block_meets, covered_by, CodeBlockTable};
use crate::body::{lemma_add_contains, lemma_push_contains};
use crate::flags::{CodeBlockProperties, InsnProperties};
use crate::flow::FlowTarget;
use crate::insn::{address_after, resolved_targets, Insn, InsnError, InsnTarget, InsnView};
use crate::insn_laws::law_direct_call_calls;
use crate::types::ContextSet;

verus! {

/// Targets lead somewhere if one of them does.
pub proof fn lemma_none_resolved(targets: Seq<(u16, InsnTarget)>)
    ensures
        resolved_targets(targets).len() == 0 <==> forall|k: int|
            0 <= k < targets.len() ==> (#[trigger] targets[k]).1.leads_to() is None,
    decreases targets.len(),
{
    if targets.len() > 0 {
        let rest = targets.drop_last();
        lemma_none_resolved(rest);
        assert(targets[targets.len() - 1] == targets.last());
        assert forall|k: int| 0 <= k < rest.len() implies #[trigger] rest[k] == targets[k] by {}
        if resolved_targets(rest).len() == 0 && targets.last().1.leads_to() is None {
            assert forall|k: int| 0 <= k < targets.len() implies (#[trigger]
            targets[k]).1.leads_to() is None by {
                if k < rest.len() {
                    assert(rest[k].1.leads_to() is None);
                }
            }
        }
        if forall|k: int| 0 <= k < targets.len() ==> (#[trigger] targets[k]).1.leads_to() is None {
            assert forall|k: int| 0 <= k < rest.len() implies (#[trigger] rest[k]).1.leads_to()
                is None by {
                assert(targets[k].1.leads_to() is None);
            }
        }
    }
}

/// A recorded block is a call exactly when its last instruction is, a return exactly when its
/// last instruction is, and unresolved when that is an indirect branch, no call and no return,
/// of which no target is known. A block of no instructions is none of these.
pub proof fn law_record_says_how_block_ends(
    address: Address,
    size: u16,
    insns: Vec<&Insn>,
    context: ContextSet,
    record: CodeBlockRecord,
)
    requires
        call_ensures(CodeBlockRecord::new, (address, size, &insns, context), record),
    ensures
        insns@.len() == 0 ==> record.properties.bits == 0,
        insns@.len() > 0 ==> {
            let last = insns@[insns@.len() - 1];
            let bits = last.properties.bits;
            &&& record.properties.bits & CodeBlockProperties::CALL != 0 <==> bits
                & InsnProperties::CALL != 0
            &&& record.properties.bits & CodeBlockProperties::RETURN != 0 <==> bits
                & InsnProperties::RETURN != 0
            &&& record.properties.bits & CodeBlockProperties::UNRESOLVED != 0 <==> {
                &&& bits & InsnProperties::BRANCH != 0
                &&& bits & InsnProperties::INDIRECT != 0
                &&& bits & InsnProperties::CALL == 0
                &&& bits & InsnProperties::RETURN == 0
                &&& forall|k: int|
                    0 <= k < last.targets@.len() ==> (#[trigger] last.targets@[k]).1.leads_to()
                        is None
            }
        },
        record.address == address,
        record.size == size,
        record.context@ == context@,
{
    if insns@.len() > 0 {
        let last = insns@[insns@.len() - 1];
        assert(insn_views(insns@).last() == last@);
        lemma_none_resolved(last.targets@);
        lemma_end_flags();
    }
}

/// Which flags the sets of flags of blocks have.
pub proof fn lemma_end_flags()
    ensures
        forall|call: u32, ret: u32, open: u32|
            (call == 0 || call == CodeBlockProperties::CALL) && (ret == 0 || ret
                == CodeBlockProperties::RETURN) && (open == 0 || open
                == CodeBlockProperties::UNRESOLVED) ==> {
                let all = #[trigger] (call | ret | open);
                &&& all & CodeBlockProperties::CALL != 0 <==> call != 0
                &&& all & CodeBlockProperties::RETURN != 0 <==> ret != 0
                &&& all & CodeBlockProperties::UNRESOLVED != 0 <==> open != 0
            },
{
    assert forall|call: u32, ret: u32, open: u32|
        (call == 0 || call == CodeBlockProperties::CALL) && (ret == 0 || ret
            == CodeBlockProperties::RETURN) && (open == 0 || open
            == CodeBlockProperties::UNRESOLVED) implies ({
        let all = #[trigger] (call | ret | open);
        &&& all & CodeBlockProperties::CALL != 0 <==> call != 0
        &&& all & CodeBlockProperties::RETURN != 0 <==> ret != 0
        &&& all & CodeBlockProperties::UNRESOLVED != 0 <==> open != 0
    }) by {
        assert((call == 0 || call == 0x1) && (ret == 0 || ret == 0x4) && (open == 0 || open == 0x2)
            ==> ((call | ret | open) & 0x1 != 0 <==> call != 0) && ((call | ret | open) & 0x4 != 0
            <==> ret != 0) && ((call | ret | open) & 0x2 != 0 <==> open != 0)) by (bit_vector);
    }
}

/// A block of one direct call is a call and no return.
pub proof fn law_direct_call_ends_in_call(
    address: Address,
    size: u16,
    target: Address,
    insns: Vec<&Insn>,
    context: ContextSet,
    record: CodeBlockRecord,
)
    requires
        call_ensures(CodeBlockRecord::new, (address, size, &insns, context), record),
        insns@.len() == 1,
        call_ensures(
            Insn::from_direct_call,
            (address, size as usize, target),
            Ok::<Insn, InsnError>(*insns@[0]),
        ),
    ensures
        record.properties.bits & CodeBlockProperties::CALL != 0,
        record.properties.bits & CodeBlockProperties::RETURN == 0,
        record.properties.bits & CodeBlockProperties::UNRESOLVED == 0,
{
    law_direct_call_calls(address, size as usize, target, *insns@[0]);
    law_record_says_how_block_ends(address, size, insns, context, record);
}

/// What of flows matters to a block.
proof fn lemma_kept_flow(flows: Seq<FlowTarget>, end: Address, flow: FlowTarget)
    ensures
        kept(flows, end).contains(flow) <==> flows.contains(flow) && (flow.kind is Fall ==> flow.to
            == end),
    decreases flows.len(),
{
    if flows.len() > 0 {
        let rest = flows.drop_last();
        lemma_kept_flow(rest, end, flow);
        assert(flows =~= rest.push(flows.last()));
        lemma_push_contains(rest, flows.last(), flow);
        lemma_push_contains(kept(rest, end), flows.last(), flow);
    }
}

/// The flows out of a block are those of its instructions.
pub proof fn lemma_leaving_flow(insns: Seq<InsnView>, end: Address, flow: FlowTarget)
    ensures
        leaving_flows(insns, end).contains(flow) <==> (flow.kind is Fall ==> flow.to == end)
            && exists|i: int|
            0 <= i < insns.len() && #[trigger] insns[i].flows().contains(flow),
    decreases insns.len(),
{
    if insns.len() > 0 {
        let rest = insns.drop_last();
        let last = insns.last();
        lemma_leaving_flow(rest, end, flow);
        lemma_kept_flow(last.flows(), end, flow);
        lemma_add_contains(leaving_flows(rest, end), kept(last.flows(), end), flow);
        if leaving_flows(rest, end).contains(flow) {
            let i = choose|i: int| 0 <= i < rest.len() && #[trigger] rest[i].flows().contains(flow);
            assert(insns[i].flows().contains(flow));
        }
        if last.flows().contains(flow) {
            assert(insns[insns.len() - 1].flows().contains(flow));
        }
        if exists|i: int| 0 <= i < insns.len() && #[trigger] insns[i].flows().contains(flow) {
            let i = choose|i: int| 0 <= i < insns.len() && #[trigger] insns[i].flows().contains(flow);
            if i < rest.len() {
                assert(rest[i].flows().contains(flow));
            }
        }
    }
}

/// A recorded block has the flows of its instructions, but that it falls through only to where
/// it ends: what its instructions fall through to within it is no flow of the block.
pub proof fn law_record_has_flows_of_insns(
    address: Address,
    size: u16,
    insns: Vec<&Insn>,
    context: ContextSet,
    record: CodeBlockRecord,
    flow: FlowTarget,
)
    requires
        call_ensures(CodeBlockRecord::new, (address, size, &insns, context), record),
        flows_inside(insn_views(insns@), address, size as int),
    ensures
        record@.flows().contains(flow) <==> (flow.kind is Fall ==> flow.to == address_after(
            address,
            size as int,
        )) && exists|i: int| 0 <= i < insns@.len() && #[trigger] insns@[i]@.flows().contains(flow),
{
    let views = insn_views(insns@);
    let end = address_after(address, size as int);
    law_record_keeps_flows(address, size, views, context@);
    lemma_leaving_flow(views, end, flow);
    if exists|i: int| 0 <= i < insns@.len() && #[trigger] insns@[i]@.flows().contains(flow) {
        let i = choose|i: int| 0 <= i < insns@.len() && #[trigger] insns@[i]@.flows().contains(flow);
        assert(views[i].flows().contains(flow));
    }
    if exists|i: int| 0 <= i < views.len() && #[trigger] views[i].flows().contains(flow) {
        let i = choose|i: int| 0 <= i < views.len() && #[trigger] views[i].flows().contains(flow);
        assert(insns@[i]@.flows().contains(flow));
    }
}

/// Whether one of the blocks has an identity.
pub open spec fn among(found: Seq<&CodeBlock>, id: CodeBlockId) -> bool {
    exists|i: int| 0 <= i < found.len() && (#[trigger] found[i]).id == id
}

/// Whether an address is one of a block's.
pub open spec fn block_has(block: CodeBlockView, address: Address) -> bool {
    &&& block.start.space == address.space
    &&& block.start.address.0 <= address.address.0 < block.start.address.0 + block.size
}

/// The blocks found for a range are all that share an address with it, and no others.
pub proof fn law_overlapping_blocks_share_an_address(
    table: CodeBlockTable,
    range: AddressRange,
    found: Vec<&CodeBlock>,
    id: CodeBlockId,
)
    requires
        table.wf(),
        range.start.0 <= range.end.0,
        call_ensures(CodeBlockTable::overlaps, (&table, &range), found),
    ensures
        among(found@, id) <==> table@.contains_key(id) && exists|address: Address| #[trigger]
            block_has(table@[id], address) && range.space == address.space && range.start.0
                <= address.address.0 <= range.end.0,
{
    table.lemma_wf();
    if table@.contains_key(id) {
        law_ranges_meet_in_an_address(table@[id].range(), range);
        if table@[id].range().meets(range) {
            let address = choose|address: Address| #[trigger]
                table@[id].range().holds(address) && range.holds(address);
            assert(block_has(table@[id], address));
        }
        if exists|address: Address| #[trigger]
            block_has(table@[id], address) && range.space == address.space && range.start.0
                <= address.address.0 <= range.end.0 {
            let address = choose|address: Address| #[trigger]
                block_has(table@[id], address) && range.space == address.space && range.start.0
                    <= address.address.0 <= range.end.0;
            assert(table@[id].range().holds(address) && range.holds(address));
            assert(block_meets(range)(table@[id]));
            let i = choose|i: int| 0 <= i < found@.len() && (#[trigger] found@[i]).id == id;
            assert(among(found@, id));
        }
    }
    if among(found@, id) {
        let i = choose|i: int| 0 <= i < found@.len() && (#[trigger] found@[i]).id == id;
        assert(block_meets(range)(found@[i]@));
    }
}

/// The blocks found at an address are all that begin there, and with a context those of them
/// that have it. A table contains an address where one of its blocks has it.
pub proof fn law_blocks_are_found_where_they_begin(
    table: CodeBlockTable,
    address: Address,
    context: ContextSet,
    found: Vec<&CodeBlock>,
    found_with: Vec<&CodeBlock>,
    contained: bool,
    id: CodeBlockId,
)
    requires
        table.wf(),
        call_ensures(CodeBlockTable::get_by_address, (&table, address), found),
        call_ensures(
            CodeBlockTable::get_by_address_and_context,
            (&table, address, &context),
            found_with,
        ),
        call_ensures(CodeBlockTable::contains, (&table, address), contained),
    ensures
        among(found@, id) <==> table@.contains_key(id) && table@[id].start == address,
        among(found_with@, id) <==> table@.contains_key(id) && table@[id].start == address
            && table@[id].context == context@,
        contained <==> exists|other: CodeBlockId| #[trigger]
            table@.contains_key(other) && block_has(table@[other], address),
        found@.len() > 0 ==> contained,
{
    table.lemma_wf();
    assert forall|other: CodeBlockId| #[trigger]
        table@.contains_key(other) implies table@[other].range().holds(address) == block_has(
        table@[other],
        address,
    ) by {}
    assert(begins_at(address)(table@[id]) <==> table@[id].start == address);
    assert(begins_in(address, context@)(table@[id]) <==> table@[id].start == address
        && table@[id].context == context@);
    if among(found@, id) {
        let i = choose|i: int| 0 <= i < found@.len() && (#[trigger] found@[i]).id == id;
        assert(begins_at(address)(found@[i]@));
    }
    if among(found_with@, id) {
        let i = choose|i: int| 0 <= i < found_with@.len() && (#[trigger] found_with@[i]).id == id;
        assert(begins_in(address, context@)(found_with@[i]@));
    }
    if found@.len() > 0 {
        let first = found@[0].id;
        assert(begins_at(address)(found@[0]@));
        assert(table@.contains_key(first) && block_has(table@[first], address));
    }
}

/// Blocks cover the addresses that they have, as far as they are in the table.
pub proof fn law_blocks_cover_their_addresses(
    table: CodeBlockTable,
    ids: Vec<CodeBlockId>,
    covered: AddressRangeSet,
    address: Address,
)
    requires
        table.wf(),
        call_ensures(CodeBlockTable::coverage, (&table, &ids), covered),
    ensures
        covered@.contains(address) <==> exists|i: int|
            0 <= i < ids@.len() && table@.contains_key(#[trigger] ids@[i]) && block_has(
                table@[ids@[i]],
                address,
            ),
{
    table.lemma_wf();
    assert(covered@.contains(address) <==> covered_by(table@, ids@, address));
    if covered_by(table@, ids@, address) {
        let i = choose|i: int|
            0 <= i < ids@.len() && table@.contains_key(#[trigger] ids@[i])
                && table@[ids@[i]].range().holds(address);
        assert(block_has(table@[ids@[i]], address));
    }
    if exists|i: int|
        0 <= i < ids@.len() && table@.contains_key(#[trigger] ids@[i]) && block_has(
            table@[ids@[i]],
            address,
        ) {
        let i = choose|i: int|
            0 <= i < ids@.len() && table@.contains_key(#[trigger] ids@[i]) && block_has(
                table@[ids@[i]],
                address,
            );
        assert(table@[ids@[i]].range().holds(address));
    }
}

/// A recorded block is under its identity what was recorded.
pub proof fn law_identity_changes_nothing_else(record: CodeBlockRecordView, id: CodeBlockId)
    ensures
        record.under(id).id == id,
        record.under(id).start == record.address,
        record.under(id).size == record.size,
        record.under(id).context == record.context,
        record.under(id).targets == record.targets,
        record.under(id).properties == record.properties,
        record.under(id).flows() == record.flows(),
{
}

} // verus!
