//! Functions.
use ustr::Ustr;
use vstd::prelude::*;

use crate::address::Address;
use crate::block::CodeBlockId;
use crate::coalesce::{classified, classify};
use crate::flags::FunctionProperties;
use crate::flow::FlowTarget;
use crate::frame::{no_frame, FunctionFrame, FunctionFrameView};
use crate::id::Id;
use crate::order::{ascending, same_keys, sort_keys, sorts, Ranked};
use crate::reach::{edge_targets, first_edge};
use crate::reference::ReferenceOrigin;
use crate::types::{copy_values, lemma_filter_none, lemma_filter_step, Confidence, Revision};

verus! {

/// The type of interned strings of the `ustr` crate.
#[verifier::external_type_specification]
#[verifier::external_body]
pub struct ExUstr(Ustr);

/// The kind of entry that a function's identity names.
#[derive(Debug, Clone, Copy)]
pub struct FunctionEntity;

pub type FunctionId = Id<FunctionEntity>;

/// What a function is, apart from how it is stored.
#[verifier::ext_equal]
pub struct FunctionView {
    pub id: FunctionId,
    pub name: Option<Ustr>,
    pub entry: Address,
    pub entry_block: CodeBlockId,
    pub blocks: Seq<(Address, CodeBlockId)>,
    pub edges: Seq<(CodeBlockId, CodeBlockId)>,
    pub frame: FunctionFrameView,
    pub properties: FunctionProperties,
    pub origin: ReferenceOrigin,
    pub confidence: Confidence,
    pub input_revision: Revision,
    pub tail_call_sites: Seq<Address>,
}

/// A function: the blocks it is made of and how control gets from one to another.
#[derive(Debug)]
pub struct Function {
    pub id: FunctionId,
    pub name: Option<Ustr>,
    pub entry: Address,
    pub entry_block: CodeBlockId,
    pub blocks: Vec<(Address, CodeBlockId)>,
    pub edges: Vec<(CodeBlockId, CodeBlockId)>,
    pub frame: FunctionFrame,
    pub properties: FunctionProperties,
    pub origin: ReferenceOrigin,
    pub confidence: Confidence,
    pub input_revision: Revision,
    pub tail_call_sites: Vec<Address>,
}

impl View for Function {
    type V = FunctionView;

    open spec fn view(&self) -> FunctionView {
        FunctionView {
            id: self.id,
            name: self.name,
            entry: self.entry,
            entry_block: self.entry_block,
            blocks: self.blocks@,
            edges: self.edges@,
            frame: self.frame@,
            properties: self.properties,
            origin: self.origin,
            confidence: self.confidence,
            input_revision: self.input_revision,
            tail_call_sites: self.tail_call_sites@,
        }
    }
}

/// Whether a block is one of those listed.
pub open spec fn lists_block(blocks: Seq<(Address, CodeBlockId)>, id: CodeBlockId) -> bool {
    exists|i: int| 0 <= i < blocks.len() && (#[trigger] blocks[i]).1 == id
}

/// Whether blocks stand in the order of their addresses.
pub open spec fn by_address(blocks: Seq<(Address, CodeBlockId)>) -> bool {
    forall|i: int, j: int|
        0 <= i < j < blocks.len() ==> (#[trigger] blocks[i]).0.rank() <= (#[trigger]
        blocks[j]).0.rank()
}

impl FunctionView {
    /// The blocks stand in the order of their addresses, edges and sites in theirs, and edges
    /// and the entry are of the blocks.
    pub open spec fn wf(self) -> bool {
        &&& by_address(self.blocks)
        &&& ascending(self.edges)
        &&& ascending(self.tail_call_sites)
        &&& forall|i: int|
            0 <= i < self.edges.len() ==> lists_block(self.blocks, (#[trigger] self.edges[i]).0)
                && lists_block(self.blocks, self.edges[i].1)
        &&& self.entry_block.id != u32::MAX ==> lists_block(self.blocks, self.entry_block)
    }
}

/// A function that nothing but the entry and the name is known of.
pub open spec fn blank_function(id: FunctionId, entry: Address, name: Option<Ustr>) -> FunctionView {
    FunctionView {
        id,
        name,
        entry,
        entry_block: CodeBlockId::none(),
        blocks: Seq::empty(),
        edges: Seq::empty(),
        frame: no_frame(),
        properties: FunctionProperties { bits: 0 },
        origin: ReferenceOrigin::Derived,
        confidence: Confidence::Certain,
        input_revision: Revision(0),
        tail_call_sites: Seq::empty(),
    }
}

/// Where a block at an address is put among others: behind all that do not come after it.
pub open spec fn block_place(blocks: Seq<(Address, CodeBlockId)>, address: Address, at: int) -> bool {
    &&& 0 <= at <= blocks.len()
    &&& forall|i: int| 0 <= i < at ==> (#[trigger] blocks[i]).0.rank() <= address.rank()
    &&& forall|i: int| at <= i < blocks.len() ==> address.rank() < (#[trigger] blocks[i]).0.rank()
}

/// The function with a block more. The first one at the entry becomes the entry block.
pub open spec fn with_block(
    function: FunctionView,
    address: Address,
    block: CodeBlockId,
) -> FunctionView {
    let at = choose|at: int| #[trigger] block_place(function.blocks, address, at);
    FunctionView {
        blocks: function.blocks.insert(at, (address, block)),
        entry_block: if function.entry_block.id == u32::MAX && address == function.entry {
            block
        } else {
            function.entry_block
        },
        ..function
    }
}

/// The function with blocks added one after another.
pub open spec fn with_all_blocks(
    function: FunctionView,
    blocks: Seq<(Address, CodeBlockId)>,
) -> FunctionView
    decreases blocks.len(),
{
    if blocks.len() == 0 {
        function
    } else {
        with_block(
            with_all_blocks(function, blocks.drop_last()),
            blocks.last().0,
            blocks.last().1,
        )
    }
}

/// There is one place for a block.
pub proof fn lemma_block_place(
    blocks: Seq<(Address, CodeBlockId)>,
    address: Address,
    a: int,
    b: int,
)
    requires
        block_place(blocks, address, a),
        block_place(blocks, address, b),
    ensures
        a == b,
{
    if a < b {
        assert(blocks[a].0.rank() <= address.rank());
    } else if b < a {
        assert(blocks[b].0.rank() <= address.rank());
    }
}

impl Clone for Function {
    fn clone(&self) -> (copy: Self)
        ensures
            copy@ == self@,
    {
        Function {
            id: self.id,
            name: self.name,
            entry: self.entry,
            entry_block: self.entry_block,
            blocks: copy_values(&self.blocks),
            edges: copy_values(&self.edges),
            frame: self.frame.clone(),
            properties: self.properties,
            origin: self.origin,
            confidence: self.confidence,
            input_revision: self.input_revision,
            tail_call_sites: copy_values(&self.tail_call_sites),
        }
    }
}

/// `Ustr::eq` compares where interned strings stand, which is what a `Ustr` holds.
#[verifier::external_body]
fn same_ustr(a: Ustr, b: Ustr) -> (same: bool)
    ensures
        same == (a == b),
{
    a == b
}

impl Function {
    /// Whether two functions are the same.
    pub fn same(&self, other: &Function) -> (same: bool)
        ensures
            same == (self@ == other@),
    {
        let names: bool = match (self.name, other.name) {
            (Some(a), Some(b)) => same_ustr(a, b),
            (None, None) => true,
            _ => false,
        };
        let same: bool = names && self.id == other.id && self.entry == other.entry
            && self.entry_block == other.entry_block && same_keys(&self.blocks, &other.blocks)
            && same_keys(&self.edges, &other.edges) && self.frame.same(&other.frame)
            && self.properties == other.properties && self.origin == other.origin
            && self.confidence == other.confidence && self.input_revision == other.input_revision
            && same_keys(&self.tail_call_sites, &other.tail_call_sites);
        proof {
            if same {
                assert(self@ =~= other@);
            }
        }
        same
    }

    pub fn new(id: FunctionId, entry: Address) -> (function: Self)
        ensures
            function@ == blank_function(id, entry, None),
            function@.wf(),
    {
        Function::new_with(id, entry, None)
    }

    pub fn new_with(id: FunctionId, entry: Address, name: Option<Ustr>) -> (function: Self)
        ensures
            function@ == blank_function(id, entry, name),
            function@.wf(),
    {
        Function {
            id,
            name,
            entry,
            entry_block: Id::invalid(),
            blocks: Vec::new(),
            edges: Vec::new(),
            frame: FunctionFrame::default(),
            properties: FunctionProperties::empty(),
            origin: ReferenceOrigin::Derived,
            confidence: Confidence::certain(),
            input_revision: Revision::default(),
            tail_call_sites: Vec::new(),
        }
    }

    pub fn id(&self) -> (id: FunctionId)
        ensures
            id == self.id,
    {
        self.id
    }

    pub fn set_id(&mut self, id: FunctionId)
        ensures
            *final(self) == (Function { id, ..*old(self) }),
    {
        self.id = id;
    }

    pub fn with_id(self, id: FunctionId) -> (function: Self)
        ensures
            function == (Function { id, ..self }),
    {
        Function { id, ..self }
    }

    pub fn set_frame(&mut self, frame: FunctionFrame)
        ensures
            *final(self) == (Function { frame, ..*old(self) }),
    {
        self.frame = frame;
    }

    pub fn with_frame(self, frame: FunctionFrame) -> (function: Self)
        ensures
            function == (Function { frame, ..self }),
    {
        Function { frame, ..self }
    }

    pub fn frame(&self) -> (frame: &FunctionFrame)
        ensures
            *frame == self.frame,
    {
        &self.frame
    }

    pub fn set_name(&mut self, name: Ustr)
        ensures
            *final(self) == (Function { name: Some(name), ..*old(self) }),
    {
        self.name = Some(name);
    }

    pub fn clear_name(&mut self)
        ensures
            *final(self) == (Function { name: None, ..*old(self) }),
    {
        self.name = None;
    }

    pub fn name(&self) -> (name: Option<Ustr>)
        ensures
            name == self.name,
    {
        self.name
    }

    pub fn entry(&self) -> (entry: Address)
        ensures
            entry == self.entry,
    {
        self.entry
    }

    /// The block that the function begins with, if it is known.
    pub fn entry_block(&self) -> (block: Option<CodeBlockId>)
        ensures
            block is Some == (self.entry_block.id != u32::MAX),
            block matches Some(b) ==> b == self.entry_block,
    {
        if self.entry_block.is_valid() {
            Some(self.entry_block)
        } else {
            None
        }
    }

    pub fn is_entry_block(&self, block: CodeBlockId) -> (r: bool)
        ensures
            r == (self.entry_block == block),
    {
        self.entry_block == block
    }

    /// Whether a block is listed.
    pub fn lists(&self, block: CodeBlockId) -> (r: bool)
        ensures
            r == lists_block(self.blocks@, block),
    {
        let mut i: usize = 0;
        while i < self.blocks.len()
            invariant
                i <= self.blocks@.len(),
                forall|j: int| 0 <= j < i ==> (#[trigger] self.blocks@[j]).1 != block,
            decreases self.blocks@.len() - i,
        {
            if self.blocks[i].1 == block {
                return true;
            }
            i = i + 1;
        }
        false
    }

    /// Whether a block is one of the function's and leads to no other.
    pub fn is_exit_block(&self, block: CodeBlockId) -> (r: bool)
        requires
            self@.wf(),
        ensures
            r == (lists_block(self.blocks@, block) && forall|to: CodeBlockId|
                !(#[trigger] self.edges@.contains((block, to)))),
    {
        self.lists(block) && !self.has_successors(block)
    }

    /// The place behind all blocks that do not come after an address.
    fn upper_block(&self, address: Address) -> (at: usize)
        requires
            by_address(self.blocks@),
        ensures
            block_place(self.blocks@, address, at as int),
    {
        let mut low: usize = 0;
        let mut high: usize = self.blocks.len();
        while low < high
            invariant
                low <= high <= self.blocks@.len(),
                by_address(self.blocks@),
                forall|i: int|
                    0 <= i < low ==> (#[trigger] self.blocks@[i]).0.rank() <= address.rank(),
                forall|i: int|
                    high <= i < self.blocks@.len() ==> address.rank() < (#[trigger]
                    self.blocks@[i]).0.rank(),
            decreases high - low,
        {
            let middle: usize = low + (high - low) / 2;
            if address.precedes(&self.blocks[middle].0) {
                high = middle;
            } else {
                low = middle + 1;
            }
        }
        low
    }

    /// Adds a block at an address. The first one at the entry becomes the entry block.
    pub fn add_block(&mut self, address: Address, block: CodeBlockId)
        requires
            old(self)@.wf(),
        ensures
            final(self)@.wf(),
            final(self)@ == with_block(old(self)@, address, block),
    {
        let ghost before = self@;
        let index: usize = self.upper_block(address);
        self.blocks.insert(index, (address, block));
        if self.entry_block.is_invalid() && address == self.entry {
            self.entry_block = block;
        }
        proof {
            assert(block_place(before.blocks, address, index as int));
            let at = choose|at: int| #[trigger] block_place(before.blocks, address, at);
            lemma_block_place(before.blocks, address, index as int, at);
            assert(by_address(self.blocks@)) by {
                assert forall|i: int, j: int| 0 <= i < j < self.blocks@.len() implies (#[trigger]
                self.blocks@[i]).0.rank() <= (#[trigger] self.blocks@[j]).0.rank() by {
                    let a = if i < index {
                        i
                    } else {
                        i - 1
                    };
                    let b = if j < index {
                        j
                    } else {
                        j - 1
                    };
                    if i != index && j != index {
                        assert(before.blocks[a].0.rank() <= before.blocks[b].0.rank());
                    } else if i == index {
                        assert(self.blocks@[j] == before.blocks[b]);
                    } else {
                        assert(self.blocks@[i] == before.blocks[a]);
                    }
                }
            }
            assert forall|id: CodeBlockId| #[trigger] lists_block(before.blocks, id) implies
                lists_block(self.blocks@, id) by {
                let i = choose|i: int| 0 <= i < before.blocks.len() && (#[trigger] before.blocks[i]).1 == id;
                if i < index {
                    assert(self.blocks@[i].1 == id);
                } else {
                    assert(self.blocks@[i + 1].1 == id);
                }
            }
            assert(self.blocks@[index as int].1 == block);
            assert forall|i: int| 0 <= i < self.edges@.len() implies lists_block(
                self.blocks@,
                (#[trigger] self.edges@[i]).0,
            ) && lists_block(self.blocks@, self.edges@[i].1) by {
                assert(lists_block(before.blocks, before.edges[i].0));
                assert(lists_block(before.blocks, before.edges[i].1));
            }
        }
    }

    /// Adds blocks one after another.
    pub fn add_blocks(&mut self, blocks: &Vec<(Address, CodeBlockId)>)
        requires
            old(self)@.wf(),
        ensures
            final(self)@.wf(),
            final(self)@ == with_all_blocks(old(self)@, blocks@),
    {
        let ghost before = self@;
        let mut i: usize = 0;
        assert(blocks@.take(0) =~= Seq::<(Address, CodeBlockId)>::empty());
        while i < blocks.len()
            invariant
                i <= blocks@.len(),
                self@.wf(),
                self@ == with_all_blocks(before, blocks@.take(i as int)),
            decreases blocks@.len() - i,
        {
            let (address, block): (Address, CodeBlockId) = blocks[i];
            self.add_block(address, block);
            i = i + 1;
            assert(blocks@.take(i as int).drop_last() =~= blocks@.take(i - 1));
        }
        assert(blocks@.take(i as int) =~= blocks@);
    }

    /// The function with blocks added one after another.
    pub fn with_blocks(self, blocks: &Vec<(Address, CodeBlockId)>) -> (function: Self)
        requires
            self@.wf(),
        ensures
            function@.wf(),
            function@ == with_all_blocks(self@, blocks@),
    {
        let mut function: Function = self;
        function.add_blocks(blocks);
        function
    }

    /// The blocks at their addresses, in the order of the addresses.
    pub fn blocks(&self) -> (blocks: &[(Address, CodeBlockId)])
        ensures
            blocks@ == self.blocks@,
    {
        self.blocks.as_slice()
    }

    /// The blocks at an address, in the order in which they are listed.
    pub fn blocks_at(&self, address: Address) -> (found: Vec<CodeBlockId>)
        requires
            self@.wf(),
        ensures
            found@ == self.blocks@.filter(at_address(address)).map_values(
                |b: (Address, CodeBlockId)| b.1,
            ),
    {
        let ghost keep = at_address(address);
        let mut found: Vec<CodeBlockId> = Vec::new();
        let mut i: usize = 0;
        proof {
            lemma_filter_none(self.blocks@, keep);
            assert(found@ =~= self.blocks@.take(0).filter(keep).map_values(
                |b: (Address, CodeBlockId)| b.1,
            ));
        }
        while i < self.blocks.len()
            invariant
                i <= self.blocks@.len(),
                keep == at_address(address),
                found@ == self.blocks@.take(i as int).filter(keep).map_values(
                    |b: (Address, CodeBlockId)| b.1,
                ),
            decreases self.blocks@.len() - i,
        {
            let (candidate, block): (Address, CodeBlockId) = self.blocks[i];
            let ghost done = self.blocks@.take(i as int).filter(keep);
            proof {
                lemma_filter_step(self.blocks@, i as int, keep);
            }
            if candidate == address {
                found.push(block);
                assert(found@ =~= done.push((candidate, block)).map_values(
                    |b: (Address, CodeBlockId)| b.1,
                ));
            }
            i = i + 1;
        }
        assert(self.blocks@.take(i as int) =~= self.blocks@);
        found
    }

    /// Where control can get from a block, in the order of the identities.
    pub fn successors(&self, block: CodeBlockId) -> (targets: Vec<CodeBlockId>)
        requires
            self@.wf(),
        ensures
            ascending(targets@),
            forall|to: CodeBlockId| #[trigger]
                targets@.contains(to) <==> self.edges@.contains((block, to)),
    {
        edge_targets(&self.edges, block)
    }

    pub fn has_successors(&self, block: CodeBlockId) -> (r: bool)
        requires
            self@.wf(),
        ensures
            r == exists|to: CodeBlockId| #[trigger] self.edges@.contains((block, to)),
    {
        let at: usize = first_edge(&self.edges, block);
        let r: bool = at < self.edges.len() && self.edges[at].0 == block;
        proof {
            if r {
                assert(self.edges@.contains((block, self.edges@[at as int].1)));
            } else {
                assert forall|to: CodeBlockId| !(#[trigger] self.edges@.contains((block, to))) by {
                    if self.edges@.contains((block, to)) {
                        let i = self.edges@.index_of((block, to));
                        assert(self.edges@[i] == (block, to));
                        if i > at {
                            assert(self.edges@[at as int].rank() < self.edges@[i].rank());
                        }
                        Id::lemma_rank_injective(self.edges@[at as int].0, block);
                    }
                }
            }
        }
        r
    }

    /// The edges between the blocks.
    pub fn edges(&self) -> (edges: &[(CodeBlockId, CodeBlockId)])
        ensures
            edges@ == self.edges@,
    {
        self.edges.as_slice()
    }

    /// Says at which addresses the function makes tail calls.
    pub fn set_tail_call_sites(&mut self, sites: &Vec<Address>)
        ensures
            sorts(final(self).tail_call_sites@, sites@),
            final(self)@ == (FunctionView {
                tail_call_sites: final(self).tail_call_sites@,
                ..old(self)@
            }),
            old(self)@.wf() ==> final(self)@.wf(),
    {
        self.tail_call_sites = sort_keys(sites);
    }

    /// The flow as the function sees it: a branch from where it makes a tail call is one.
    pub fn classify_flow_target(&self, target: FlowTarget) -> (flow: FlowTarget)
        requires
            self@.wf(),
        ensures
            flow == classified(self.tail_call_sites@, target),
    {
        classify(&self.tail_call_sites, target)
    }

    /// Takes all blocks out.
    pub fn clear_blocks(&mut self)
        requires
            old(self)@.wf(),
        ensures
            final(self)@.wf(),
            final(self)@ == (FunctionView {
                blocks: Seq::empty(),
                edges: Seq::empty(),
                entry_block: CodeBlockId::none(),
                ..old(self)@
            }),
    {
        self.blocks.clear();
        self.edges.clear();
        self.entry_block = Id::invalid();
    }

    /// Forgets what was found out about the body.
    pub fn clear_body_analysis(&mut self)
        ensures
            final(self)@ == (FunctionView {
                frame: no_frame(),
                properties: FunctionProperties { bits: 0 },
                ..old(self)@
            }),
    {
        self.frame = FunctionFrame::default();
        self.properties = FunctionProperties::empty();
    }

    /// The function with another body.
    pub fn with_body(
        self,
        blocks: Vec<(Address, CodeBlockId)>,
        edges: Vec<(CodeBlockId, CodeBlockId)>,
        entry_block: Option<CodeBlockId>,
    ) -> (function: Self)
        ensures
            function@ == (FunctionView {
                blocks: blocks@,
                edges: edges@,
                entry_block: match entry_block {
                    Some(block) => block,
                    None => CodeBlockId::none(),
                },
                ..self@
            }),
    {
        let entry_block: CodeBlockId = match entry_block {
            Some(block) => block,
            None => Id::invalid(),
        };
        Function { blocks, edges, entry_block, ..self }
    }

    pub fn is_non_returning(&self) -> (r: bool)
        ensures
            r == (self.properties.bits & FunctionProperties::NON_RETURNING == FunctionProperties::NON_RETURNING),
    {
        self.properties.contains(FunctionProperties::NON_RETURNING)
    }

    pub fn mark_non_returning(&mut self)
        ensures
            *final(self) == (Function {
                properties: FunctionProperties {
                    bits: old(self).properties.bits | FunctionProperties::NON_RETURNING,
                },
                ..*old(self)
            }),
    {
        self.properties.insert(FunctionProperties::NON_RETURNING);
    }

    pub fn is_thunk(&self) -> (r: bool)
        ensures
            r == (self.properties.bits & FunctionProperties::THUNK == FunctionProperties::THUNK),
    {
        self.properties.contains(FunctionProperties::THUNK)
    }

    pub fn mark_thunk(&mut self)
        ensures
            *final(self) == (Function {
                properties: FunctionProperties {
                    bits: old(self).properties.bits | FunctionProperties::THUNK,
                },
                ..*old(self)
            }),
    {
        self.properties.insert(FunctionProperties::THUNK);
    }

    pub fn is_external(&self) -> (r: bool)
        ensures
            r == (self.properties.bits & FunctionProperties::EXTERNAL == FunctionProperties::EXTERNAL),
    {
        self.properties.contains(FunctionProperties::EXTERNAL)
    }

    pub fn mark_external(&mut self)
        ensures
            *final(self) == (Function {
                properties: FunctionProperties {
                    bits: old(self).properties.bits | FunctionProperties::EXTERNAL,
                },
                ..*old(self)
            }),
    {
        self.properties.insert(FunctionProperties::EXTERNAL);
    }

    pub fn origin(&self) -> (origin: ReferenceOrigin)
        ensures
            origin == self.origin,
    {
        self.origin
    }

    pub fn set_origin(&mut self, origin: ReferenceOrigin)
        ensures
            *final(self) == (Function { origin, ..*old(self) }),
    {
        self.origin = origin;
    }

    pub fn with_origin(self, origin: ReferenceOrigin) -> (function: Self)
        ensures
            function == (Function { origin, ..self }),
    {
        Function { origin, ..self }
    }

    pub fn is_asserted(&self) -> (r: bool)
        ensures
            r == (self.origin is Asserted),
    {
        self.origin.is_asserted()
    }

    pub fn confidence(&self) -> (confidence: Confidence)
        ensures
            confidence == self.confidence,
    {
        self.confidence
    }

    pub fn set_confidence(&mut self, confidence: Confidence)
        ensures
            *final(self) == (Function { confidence, ..*old(self) }),
    {
        self.confidence = confidence;
    }

    pub fn with_confidence(self, confidence: Confidence) -> (function: Self)
        ensures
            function == (Function { confidence, ..self }),
    {
        Function { confidence, ..self }
    }

    pub fn input_revision(&self) -> (input_revision: Revision)
        ensures
            input_revision == self.input_revision,
    {
        self.input_revision
    }

    pub fn set_input_revision(&mut self, input_revision: Revision)
        ensures
            *final(self) == (Function { input_revision, ..*old(self) }),
    {
        self.input_revision = input_revision;
    }

    pub fn with_input_revision(self, input_revision: Revision) -> (function: Self)
        ensures
            function == (Function { input_revision, ..self }),
    {
        Function { input_revision, ..self }
    }

    pub fn properties(&self) -> (properties: FunctionProperties)
        ensures
            properties == self.properties,
    {
        self.properties
    }

    pub fn set_properties(&mut self, properties: FunctionProperties)
        ensures
            *final(self) == (Function { properties, ..*old(self) }),
    {
        self.properties = properties;
    }

    pub fn with_properties(self, properties: FunctionProperties) -> (function: Self)
        ensures
            function == (Function { properties, ..self }),
    {
        Function { properties, ..self }
    }
}

/// Whether a block is listed at an address.
pub open spec fn at_address(address: Address) -> spec_fn((Address, CodeBlockId)) -> bool {
    |b: (Address, CodeBlockId)| b.0 == address
}

} // verus!
