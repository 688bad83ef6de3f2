//! What marks and questions about them say of each other.
use vstd::prelude::*;

use crate::address::Address;
use crate::block::{CodeBlock, CodeBlockId, CodeBlockRecord};
use crate::block_laws::law_record_says_how_block_ends;
use crate::flags::InsnProperties;
use crate::flow::{target_flow, FlowTarget};
use crate::flow_laws::law_references_say_what_flows_do;
use crate::function::Function;
use crate::incomplete::IncompleteFunction;
use crate::insn::{Insn, InsnError, InsnTarget};
use crate::insn_laws::{
    law_direct_branch_branches, law_direct_call_calls, law_indirect_flow_leads_nowhere_known,
};
use crate::reference::Reference;
use crate::types::ContextSet;

verus! {

/// A flag that is put into a set is in it, one that is taken out is not, and others stay.
proof fn lemma_flag_put(bits: u16, flag: u16, other: u16)
    requires
        flag != 0,
    ensures
        (bits | flag) & flag != 0,
        (bits & !flag) & flag == 0,
        other & flag == 0 ==> (bits | flag) & other == bits & other && (bits & !flag) & other == bits
            & other,
{
    assert(flag != 0 ==> (bits | flag) & flag != 0 && (bits & !flag) & flag == 0 && (other & flag
        == 0 ==> (bits | flag) & other == bits & other && (bits & !flag) & other == bits & other))
        by (bit_vector);
}

/// An instruction that is marked is what it is marked as, one whose mark is taken away is not,
/// and nothing else of it changes.
pub proof fn law_marked_instruction_says_so(after: Insn, answer: bool)
    ensures
        forall|insn: &mut Insn| #[trigger]
            call_ensures(Insn::mark_branch_dest, (insn,), ()) && *final(insn) == after && call_ensures(
                Insn::is_branch_dest,
                (&after,),
                answer,
            ) ==> answer && after.targets@ == insn.targets@ && after.address == insn.address
                && after.size == insn.size,
        forall|insn: &mut Insn| #[trigger]
            call_ensures(Insn::unmark_branch_dest, (insn,), ()) && *final(insn) == after && call_ensures(
                Insn::is_branch_dest,
                (&after,),
                answer,
            ) ==> !answer && after.targets@ == insn.targets@ && after.address == insn.address
                && after.size == insn.size,
        forall|insn: &mut Insn| #[trigger]
            call_ensures(Insn::mark_call_dest, (insn,), ()) && *final(insn) == after && call_ensures(
                Insn::is_call_dest,
                (&after,),
                answer,
            ) ==> answer && after.targets@ == insn.targets@ && after.address == insn.address
                && after.size == insn.size,
        forall|insn: &mut Insn| #[trigger]
            call_ensures(Insn::unmark_call_dest, (insn,), ()) && *final(insn) == after && call_ensures(
                Insn::is_call_dest,
                (&after,),
                answer,
            ) ==> !answer && after.targets@ == insn.targets@ && after.address == insn.address
                && after.size == insn.size,
        forall|insn: &mut Insn| #[trigger]
            call_ensures(Insn::mark_nonsense, (insn,), ()) && *final(insn) == after && call_ensures(
                Insn::is_nonsense,
                (&after,),
                answer,
            ) ==> answer && after.targets@ == insn.targets@ && after.address == insn.address
                && after.size == insn.size,
        forall|insn: &mut Insn| #[trigger]
            call_ensures(Insn::unmark_nonsense, (insn,), ()) && *final(insn) == after && call_ensures(
                Insn::is_nonsense,
                (&after,),
                answer,
            ) ==> !answer && after.targets@ == insn.targets@ && after.address == insn.address
                && after.size == insn.size,
        forall|insn: &mut Insn| #[trigger]
            call_ensures(Insn::mark_halt, (insn,), ()) && *final(insn) == after && call_ensures(
                Insn::is_halt,
                (&after,),
                answer,
            ) ==> answer && after.targets@ == insn.targets@ && after.address == insn.address
                && after.size == insn.size,
        forall|insn: &mut Insn| #[trigger]
            call_ensures(Insn::unmark_halt, (insn,), ()) && *final(insn) == after && call_ensures(
                Insn::is_halt,
                (&after,),
                answer,
            ) ==> !answer && after.targets@ == insn.targets@ && after.address == insn.address
                && after.size == insn.size,
        forall|insn: &mut Insn| #[trigger]
            call_ensures(Insn::mark_trap, (insn,), ()) && *final(insn) == after && call_ensures(
                Insn::is_trap,
                (&after,),
                answer,
            ) ==> answer && after.targets@ == insn.targets@ && after.address == insn.address
                && after.size == insn.size,
        forall|insn: &mut Insn| #[trigger]
            call_ensures(Insn::unmark_trap, (insn,), ()) && *final(insn) == after && call_ensures(
                Insn::is_trap,
                (&after,),
                answer,
            ) ==> !answer && after.targets@ == insn.targets@ && after.address == insn.address
                && after.size == insn.size,
        forall|insn: &mut Insn| #[trigger]
            call_ensures(Insn::mark_invalid, (insn,), ()) && *final(insn) == after && call_ensures(
                Insn::is_invalid,
                (&after,),
                answer,
            ) ==> answer && after.targets@ == insn.targets@ && after.address == insn.address
                && after.size == insn.size,
        forall|insn: &mut Insn| #[trigger]
            call_ensures(Insn::unmark_invalid, (insn,), ()) && *final(insn) == after && call_ensures(
                Insn::is_invalid,
                (&after,),
                answer,
            ) ==> !answer && after.targets@ == insn.targets@ && after.address == insn.address
                && after.size == insn.size,
        forall|insn: &mut Insn| #[trigger]
            call_ensures(Insn::mark_flow_resolved, (insn,), ()) && *final(insn) == after && call_ensures(
                Insn::has_resolved_flow,
                (&after,),
                answer,
            ) ==> answer && after.targets@ == insn.targets@ && after.address == insn.address
                && after.size == insn.size,
        forall|insn: &mut Insn| #[trigger]
            call_ensures(Insn::mark_needs_flow_resolution, (insn,), ()) && *final(insn) == after && call_ensures(
                Insn::needs_flow_resolution,
                (&after,),
                answer,
            ) ==> answer && after.targets@ == insn.targets@ && after.address == insn.address
                && after.size == insn.size,
        forall|insn: &mut Insn| #[trigger]
            call_ensures(Insn::mark_maybe_taken, (insn,), ()) && *final(insn) == after
                && call_ensures(Insn::is_taken, (&after,), answer) ==> answer,
{
    assert forall|bits: u16, flag: u16| flag != 0 implies #[trigger] (bits | flag) & flag != 0 by {
        lemma_flag_put(bits, flag, 0);
    }
    assert forall|bits: u16, flag: u16| flag != 0 implies #[trigger] (bits & !flag) & flag == 0 by {
        lemma_flag_put(bits, flag, 0);
    }
    assert forall|insn: &mut Insn| #[trigger]
        call_ensures(Insn::mark_maybe_taken, (insn,), ()) && *final(insn) == after && call_ensures(
            Insn::is_taken,
            (&after,),
            answer,
        ) implies answer by {
        let bits = insn.properties.bits;
        assert((bits | 0x80u16) & 0xe0 != 0) by (bit_vector);
    }
}

/// A call that is made calls, a branch branches and a return returns, and none says that it does
/// what another does.
pub proof fn law_made_instruction_says_what_it_is(
    address: Address,
    size: usize,
    target: Address,
    conditional: bool,
    call: Insn,
    branch: Insn,
    indirect_branch: Insn,
    indirect_call: Insn,
    ret: Insn,
    answer: bool,
)
    requires
        call_ensures(Insn::from_direct_call, (address, size, target), Ok::<Insn, InsnError>(call)),
        call_ensures(
            Insn::from_direct_branch,
            (address, size, target, conditional),
            Ok::<Insn, InsnError>(branch),
        ),
        call_ensures(
            Insn::from_indirect_branch,
            (address, size),
            Ok::<Insn, InsnError>(indirect_branch),
        ),
        call_ensures(
            Insn::from_indirect_call,
            (address, size),
            Ok::<Insn, InsnError>(indirect_call),
        ),
        call_ensures(Insn::from_return, (address, size), Ok::<Insn, InsnError>(ret)),
    ensures
        call_ensures(Insn::is_call, (&call,), answer) ==> answer,
        call_ensures(Insn::is_call, (&indirect_call,), answer) ==> answer,
        call_ensures(Insn::is_call, (&branch,), answer) ==> !answer,
        call_ensures(Insn::is_call, (&indirect_branch,), answer) ==> !answer,
        call_ensures(Insn::is_call, (&ret,), answer) ==> !answer,
        call_ensures(Insn::is_branch, (&branch,), answer) ==> answer,
        call_ensures(Insn::is_branch, (&indirect_branch,), answer) ==> answer,
        call_ensures(Insn::is_branch, (&call,), answer) ==> !answer,
        call_ensures(Insn::is_branch, (&ret,), answer) ==> !answer,
        call_ensures(Insn::is_return, (&ret,), answer) ==> answer,
        call_ensures(Insn::is_return, (&call,), answer) ==> !answer,
        call_ensures(Insn::is_return, (&branch,), answer) ==> !answer,
        call_ensures(Insn::is_indirect, (&indirect_branch,), answer) ==> answer,
        call_ensures(Insn::is_indirect, (&indirect_call,), answer) ==> answer,
        call_ensures(Insn::is_indirect, (&call,), answer) ==> !answer,
        call_ensures(Insn::is_indirect, (&branch,), answer) ==> !answer,
        call_ensures(Insn::has_fall_through, (&call,), answer) ==> answer,
        call_ensures(Insn::has_fall_through, (&branch,), answer) ==> answer == conditional,
        call_ensures(Insn::has_fall_through, (&ret,), answer) ==> !answer,
        call_ensures(Insn::is_flow, (&call,), answer) ==> answer,
        call_ensures(Insn::is_flow, (&branch,), answer) ==> answer,
        call_ensures(Insn::is_flow, (&ret,), answer) ==> answer,
{
    law_direct_call_calls(address, size, target, call);
    law_direct_branch_branches(address, size, target, conditional, branch);
    law_indirect_flow_leads_nowhere_known(address, size, indirect_branch, indirect_call, ret);
    lemma_flow_flags(call.properties.bits);
    lemma_flow_flags(branch.properties.bits);
    lemma_flow_flags(ret.properties.bits);
}

/// An instruction is a flow where it branches, calls or returns.
proof fn lemma_flow_flags(bits: u16)
    ensures
        bits & InsnProperties::FLOW != 0 <==> bits & InsnProperties::BRANCH != 0 || bits
            & InsnProperties::CALL != 0 || bits & InsnProperties::RETURN != 0,
        bits & InsnProperties::FALL_THROUGH == InsnProperties::FALL_THROUGH <==> bits
            & InsnProperties::FALL_THROUGH != 0,
{
    assert(bits & 0xe != 0 <==> bits & 0x2 != 0 || bits & 0x4 != 0 || bits & 0x8 != 0)
        by (bit_vector);
    assert(bits & 0x1 == 0x1 <==> bits & 0x1 != 0) by (bit_vector);
}

/// A block calls where its last instruction calls and returns where it returns.
pub proof fn law_block_answers_as_its_last_instruction(
    address: Address,
    size: u16,
    insns: Vec<&Insn>,
    context: ContextSet,
    record: CodeBlockRecord,
    id: CodeBlockId,
    block: CodeBlock,
    block_calls: bool,
    insn_calls: bool,
    block_returns: bool,
    insn_returns: bool,
)
    requires
        insns@.len() > 0,
        call_ensures(CodeBlockRecord::new, (address, size, &insns, context), record),
        call_ensures(CodeBlockRecord::materialise, (record, id), block),
        call_ensures(CodeBlock::is_call, (&block,), block_calls),
        call_ensures(Insn::is_call, (insns@[insns@.len() - 1],), insn_calls),
        call_ensures(CodeBlock::is_return, (&block,), block_returns),
        call_ensures(Insn::is_return, (insns@[insns@.len() - 1],), insn_returns),
    ensures
        block_calls == insn_calls,
        block_returns == insn_returns,
        block.id == id,
        block.start == address,
        block.size == size,
{
    law_record_says_how_block_ends(address, size, insns, context, record);
    assert(block@.properties == record.properties);
    let bits = block.properties.bits;
    assert((bits & 0x1 == 0x1 <==> bits & 0x1 != 0) && (bits & 0x4 == 0x4 <==> bits & 0x4 != 0))
        by (bit_vector);
}

/// What a target of an instruction is asked agrees with the kind of flow that leads to it.
pub proof fn law_targets_answer_as_flows(
    falls: bool,
    target: InsnTarget,
    calls: bool,
    goes_on: bool,
    goes_back: bool,
    intrinsic: bool,
)
    requires
        call_ensures(InsnTarget::is_call, (&target,), calls),
        call_ensures(InsnTarget::is_fall_through, (&target,), goes_on),
        call_ensures(InsnTarget::is_return, (&target,), goes_back),
        call_ensures(InsnTarget::is_intrinsic, (&target,), intrinsic),
    ensures
        target_flow(falls, target) matches Some(kind) ==> {
            &&& calls || intrinsic <==> kind.calls()
            &&& goes_on <==> kind is Fall
            &&& goes_back <==> kind is Return
            &&& intrinsic <==> kind is ServiceCall
        },
{
}

/// A function that is marked is what it is marked as, and nothing else of it changes.
pub proof fn law_marked_function_says_so(
    after: Function,
    unfinished: IncompleteFunction,
    answer: bool,
)
    ensures
        forall|function: &mut Function| #[trigger]
            call_ensures(Function::mark_non_returning, (function,), ()) && *final(function) == after
                && call_ensures(Function::is_non_returning, (&after,), answer) ==> answer && after.blocks
                == function.blocks && after.edges == function.edges && after.entry
                == function.entry,
        forall|function: &mut IncompleteFunction| #[trigger]
            call_ensures(IncompleteFunction::mark_non_returning, (function,), ()) && *final(function)
                == unfinished && call_ensures(IncompleteFunction::is_non_returning, (&unfinished,), answer)
                ==> answer && unfinished.blocks == function.blocks && unfinished.insns
                == function.insns,
        forall|function: &mut Function| #[trigger]
            call_ensures(Function::mark_thunk, (function,), ()) && *final(function) == after
                && call_ensures(Function::is_thunk, (&after,), answer) ==> answer && after.blocks
                == function.blocks && after.edges == function.edges && after.entry
                == function.entry,
        forall|function: &mut IncompleteFunction| #[trigger]
            call_ensures(IncompleteFunction::mark_thunk, (function,), ()) && *final(function)
                == unfinished && call_ensures(IncompleteFunction::is_thunk, (&unfinished,), answer)
                ==> answer && unfinished.blocks == function.blocks && unfinished.insns
                == function.insns,
        forall|function: &mut Function| #[trigger]
            call_ensures(Function::mark_external, (function,), ()) && *final(function) == after
                && call_ensures(Function::is_external, (&after,), answer) ==> answer && after.blocks
                == function.blocks && after.edges == function.edges && after.entry
                == function.entry,
        forall|function: &mut IncompleteFunction| #[trigger]
            call_ensures(IncompleteFunction::mark_external, (function,), ()) && *final(function)
                == unfinished && call_ensures(IncompleteFunction::is_external, (&unfinished,), answer)
                ==> answer && unfinished.blocks == function.blocks && unfinished.insns
                == function.insns,
{
    assert forall|bits: u32, flag: u32| #[trigger] ((bits | flag) & flag) == flag by {
        assert((bits | flag) & flag == flag) by (bit_vector);
    }
}

/// A reference of a flow says of itself what the flow does.
pub proof fn law_flow_references_answer_as_flows(
    flow: FlowTarget,
    reference: Reference,
    call: bool,
    jump: bool,
    conditional: bool,
    computed: bool,
    terminal: bool,
    goes_on: bool,
)
    requires
        call_ensures(Reference::of_flow, (flow,), reference),
        call_ensures(Reference::is_call, (&reference,), call),
        call_ensures(Reference::is_jump, (&reference,), jump),
        call_ensures(Reference::is_conditional, (&reference,), conditional),
        call_ensures(Reference::is_computed, (&reference,), computed),
        call_ensures(Reference::is_terminal, (&reference,), terminal),
        call_ensures(Reference::has_fall_through, (&reference,), goes_on),
    ensures
        call == flow.kind.calls(),
        jump == (flow.kind.branches() || flow.kind is SwitchBranch || flow.kind is TailCallBranch),
        conditional == (flow.kind is CBranch),
        computed == (flow.kind is IBranch || flow.kind is ICall || flow.kind is SwitchBranch
            || flow.kind is SwitchCall),
        terminal == (flow.kind is Return || flow.kind is TailCallBranch),
        goes_on == (flow.kind is Fall),
        reference.from == flow.from,
        reference.origin is Derived && reference.kind is Flow,
{
    law_references_say_what_flows_do(flow.kind);
    let bits = reference.properties.bits;
    assert((bits & 0x1 == 0x1 <==> bits & 0x1 != 0) && (bits & 0x2 == 0x2 <==> bits & 0x2 != 0) && (
    bits & 0x4 == 0x4 <==> bits & 0x4 != 0) && (bits & 0x8 == 0x8 <==> bits & 0x8 != 0) && (bits
        & 0x10 == 0x10 <==> bits & 0x10 != 0) && (bits & 0x20 == 0x20 <==> bits & 0x20 != 0))
        by (bit_vector);
}

} // verus!
