//! Switches: branches that lead to one of many cases.
use vstd::prelude::*;

use crate::address::{Address, AddressTable, AddressWithContext, RawAddress};
use crate::flags::{ReferenceProperties, SwitchProperties};
use crate::function::FunctionId;
use crate::id::Id;
use crate::reference::{Reference, ReferenceKind, ReferenceOrigin, ReferenceTarget};
use crate::types::Confidence;

verus! {

/// The kind of entry that a switch's identity names.
#[derive(Debug, Clone, Copy)]
pub struct SwitchEntity;

pub type SwitchId = Id<SwitchEntity>;

/// How a switch finds the case to go to.
#[derive(Debug, Clone, Copy, PartialEq, Eq, Structural)]
pub enum SwitchModel {
    Absolute(AddressTable),
    Explicit,
    InlineBranchTable(AddressTable),
    OffsetRelative { table: AddressTable, base: RawAddress, signed: bool },
    TwoLevel { outer: AddressTable, inner: AddressTable },
}

impl Default for SwitchModel {
    fn default() -> (model: Self)
        ensures
            model is Explicit,
    {
        SwitchModel::Explicit
    }
}

impl SwitchModel {
    /// The tables that the switch looks into, in the order in which it does.
    pub open spec fn all_tables(self) -> Seq<AddressTable> {
        match self {
            SwitchModel::Absolute(table) => seq![table],
            SwitchModel::OffsetRelative { table, .. } => seq![table],
            SwitchModel::InlineBranchTable(table) => seq![table],
            SwitchModel::TwoLevel { outer, inner } => seq![outer, inner],
            SwitchModel::Explicit => Seq::empty(),
        }
    }

    /// Those of the tables that hold data rather than code.
    pub open spec fn read_tables(self) -> Seq<AddressTable> {
        if self is InlineBranchTable {
            Seq::empty()
        } else {
            self.all_tables()
        }
    }

    /// The first of the tables.
    pub fn table(&self) -> (table: Option<AddressTable>)
        ensures
            table is Some == (self.all_tables().len() > 0),
            table matches Some(t) ==> t == self.all_tables().first(),
    {
        match *self {
            SwitchModel::Absolute(table) => Some(table),
            SwitchModel::OffsetRelative { table, .. } => Some(table),
            SwitchModel::InlineBranchTable(table) => Some(table),
            SwitchModel::TwoLevel { outer, .. } => Some(outer),
            SwitchModel::Explicit => None,
        }
    }

    pub fn tables(&self) -> (tables: Vec<AddressTable>)
        ensures
            tables@ == self.all_tables(),
    {
        let mut tables: Vec<AddressTable> = Vec::new();
        match *self {
            SwitchModel::Absolute(table) => tables.push(table),
            SwitchModel::OffsetRelative { table, .. } => tables.push(table),
            SwitchModel::InlineBranchTable(table) => tables.push(table),
            SwitchModel::TwoLevel { outer, inner } => {
                tables.push(outer);
                tables.push(inner);
            },
            SwitchModel::Explicit => {},
        }
        assert(tables@ =~= self.all_tables());
        tables
    }

    pub fn data_tables(&self) -> (tables: Vec<AddressTable>)
        ensures
            tables@ == self.read_tables(),
    {
        match *self {
            SwitchModel::InlineBranchTable(_) => Vec::new(),
            _ => self.tables(),
        }
    }
}

/// The value on which a case is taken.
#[derive(Debug, Clone, Copy, PartialEq, Eq, PartialOrd, Ord, Hash, Structural)]
pub struct SwitchCaseLabel(pub u64);

impl Default for SwitchCaseLabel {
    fn default() -> (label: Self)
        ensures
            label.0 == 0,
    {
        SwitchCaseLabel(0)
    }
}

impl From<u64> for SwitchCaseLabel {
    fn from(value: u64) -> (label: Self) {
        SwitchCaseLabel(value)
    }
}

impl vstd::std_specs::convert::FromSpecImpl<u64> for SwitchCaseLabel {
    open spec fn obeys_from_spec() -> bool {
        true
    }

    open spec fn from_spec(value: u64) -> Self {
        SwitchCaseLabel(value)
    }
}

impl SwitchCaseLabel {
    pub fn new(value: u64) -> (label: Self)
        ensures
            label.0 == value,
    {
        SwitchCaseLabel(value)
    }

    pub fn value(&self) -> (value: u64)
        ensures
            value == self.0,
    {
        self.0
    }

    /// The value as a two's complement number.
    pub fn signed_value(&self) -> (value: i64)
        ensures
            value == if self.0 <= i64::MAX {
                self.0 as int
            } else {
                self.0 - 0x1_0000_0000_0000_0000
            },
    {
        let bits: u64 = self.0;
        if bits <= i64::MAX as u64 {
            bits as i64
        } else {
            -((u64::MAX - bits) as i64) - 1
        }
    }
}

/// A case of a switch.
#[derive(Debug)]
pub struct SwitchCase {
    pub target: AddressWithContext,
    pub labels: Vec<SwitchCaseLabel>,
}

impl SwitchCase {
    pub fn new(target: AddressWithContext) -> (case: Self)
        ensures
            case.target == target,
            case.labels@ == Seq::<SwitchCaseLabel>::empty(),
    {
        SwitchCase { target, labels: Vec::new() }
    }

    pub fn target(&self) -> (target: &AddressWithContext)
        ensures
            *target == self.target,
    {
        &self.target
    }

    pub fn labels(&self) -> (labels: &[SwitchCaseLabel])
        ensures
            labels@ == self.labels@,
    {
        self.labels.as_slice()
    }

    pub fn add_label(&mut self, label: SwitchCaseLabel)
        ensures
            final(self).target == old(self).target,
            final(self).labels@ == old(self).labels@.push(label),
    {
        self.labels.push(label);
    }
}

impl SwitchProperties {
    /// The flags of a switch that was recovered from code.
    pub fn from_recovery(guarded: bool, truncated: bool) -> (properties: Self)
        ensures
            properties.bits == SwitchProperties::TARGETS_IN_EXECUTABLE | (if guarded {
                SwitchProperties::GUARD_FOUND
            } else {
                0
            }) | (if truncated {
                SwitchProperties::TRUNCATED
            } else {
                0
            }),
    {
        let guard: u32 = if guarded {
            SwitchProperties::GUARD_FOUND
        } else {
            0
        };
        let cut: u32 = if truncated {
            SwitchProperties::TRUNCATED
        } else {
            0
        };
        SwitchProperties::of(SwitchProperties::TARGETS_IN_EXECUTABLE | guard | cut)
    }

    /// How sure the flags make the switch.
    pub open spec fn certainty(self) -> Confidence {
        if self.bits & SwitchProperties::GUARD_FOUND == SwitchProperties::GUARD_FOUND && self.bits
            & SwitchProperties::TRUNCATED != SwitchProperties::TRUNCATED {
            Confidence::SomewhatCertain
        } else {
            Confidence::Uncertain
        }
    }

    pub fn confidence(self) -> (confidence: Confidence)
        ensures
            confidence == self.certainty(),
    {
        if self.contains(SwitchProperties::GUARD_FOUND) && !self.contains(
            SwitchProperties::TRUNCATED,
        ) {
            Confidence::somewhat_certain()
        } else {
            Confidence::uncertain()
        }
    }
}

/// A branch that leads to one of many cases.
#[derive(Debug)]
pub struct Switch {
    pub id: SwitchId,
    pub function: FunctionId,
    pub branch: Address,
    pub model: SwitchModel,
    pub cases: Vec<SwitchCase>,
    pub default: Option<SwitchCase>,
    pub properties: SwitchProperties,
}

/// The reference that a case makes.
pub open spec fn case_reference(branch: Address, to: Address) -> Reference {
    Reference {
        from: branch,
        target: ReferenceTarget::Address(to),
        kind: ReferenceKind::Flow,
        properties: ReferenceProperties {
            bits: ReferenceProperties::JUMP | ReferenceProperties::COMPUTED,
        },
        origin: ReferenceOrigin::Derived,
    }
}

/// The reference that a table makes.
pub open spec fn table_reference(branch: Address, to: Address) -> Reference {
    Reference {
        from: branch,
        target: ReferenceTarget::Address(to),
        kind: ReferenceKind::Data,
        properties: ReferenceProperties {
            bits: ReferenceProperties::READ | ReferenceProperties::INDIRECT,
        },
        origin: ReferenceOrigin::Derived,
    }
}

impl Switch {
    /// Where the switch may lead: to the cases and then to the default.
    pub open spec fn all_targets(&self) -> Seq<AddressWithContext> {
        self.cases@.map_values(|case: SwitchCase| case.target) + (match self.default {
            Some(case) => seq![case.target],
            None => Seq::empty(),
        })
    }

    /// The references that the switch makes: to its cases and to its tables.
    pub open spec fn all_references(&self) -> Seq<Reference> {
        self.all_targets().map_values(
            |target: AddressWithContext| case_reference(self.branch, target.address),
        ) + self.model.read_tables().map_values(
            |table: AddressTable| table_reference(self.branch, table.address),
        )
    }

    pub fn new(id: SwitchId, branch: Address, model: SwitchModel) -> (switch: Self)
        ensures
            switch.id == id,
            switch.function == FunctionId::none(),
            switch.branch == branch,
            switch.model == model,
            switch.cases@ == Seq::<SwitchCase>::empty(),
            switch.default is None,
            switch.properties.bits == 0,
    {
        Switch {
            id,
            function: Id::invalid(),
            branch,
            model,
            cases: Vec::new(),
            default: None,
            properties: SwitchProperties::empty(),
        }
    }

    pub fn with_id(self, id: SwitchId) -> (switch: Self)
        ensures
            switch == (Switch { id, ..self }),
    {
        Switch { id, ..self }
    }

    pub fn with_function(self, function: FunctionId) -> (switch: Self)
        ensures
            switch == (Switch { function, ..self }),
    {
        Switch { function, ..self }
    }

    pub fn id(&self) -> (id: SwitchId)
        ensures
            id == self.id,
    {
        self.id
    }

    pub fn function(&self) -> (function: FunctionId)
        ensures
            function == self.function,
    {
        self.function
    }

    pub fn set_function(&mut self, function: FunctionId)
        ensures
            *final(self) == (Switch { function, ..*old(self) }),
    {
        self.function = function;
    }

    pub fn branch(&self) -> (branch: Address)
        ensures
            branch == self.branch,
    {
        self.branch
    }

    pub fn model(&self) -> (model: &SwitchModel)
        ensures
            *model == self.model,
    {
        &self.model
    }

    pub fn cases(&self) -> (cases: &[SwitchCase])
        ensures
            cases@ == self.cases@,
    {
        self.cases.as_slice()
    }

    pub fn case_count(&self) -> (count: usize)
        ensures
            count == self.cases@.len(),
    {
        self.cases.len()
    }

    pub fn add_case(&mut self, case: SwitchCase)
        ensures
            final(self).cases@ == old(self).cases@.push(case),
            *final(self) == (Switch { cases: final(self).cases, ..*old(self) }),
    {
        self.cases.push(case);
    }

    pub fn set_cases(&mut self, cases: Vec<SwitchCase>)
        ensures
            *final(self) == (Switch { cases, ..*old(self) }),
    {
        self.cases = cases;
    }

    pub fn with_cases(self, cases: Vec<SwitchCase>) -> (switch: Self)
        ensures
            switch == (Switch { cases, ..self }),
    {
        Switch { cases, ..self }
    }

    pub fn default_case(&self) -> (case: Option<&SwitchCase>)
        ensures
            case is Some == self.default is Some,
            case matches Some(c) ==> *c == self.default->0,
    {
        self.default.as_ref()
    }

    pub fn set_default_case(&mut self, case: SwitchCase)
        ensures
            *final(self) == (Switch { default: Some(case), ..*old(self) }),
    {
        self.default = Some(case);
    }

    pub fn confidence(&self) -> (confidence: Confidence)
        ensures
            confidence == self.properties.certainty(),
    {
        self.properties.confidence()
    }

    pub fn properties(&self) -> (properties: SwitchProperties)
        ensures
            properties == self.properties,
    {
        self.properties
    }

    pub fn set_properties(&mut self, properties: SwitchProperties)
        ensures
            *final(self) == (Switch { properties, ..*old(self) }),
    {
        self.properties = properties;
    }

    pub fn with_properties(self, properties: SwitchProperties) -> (switch: Self)
        ensures
            switch == (Switch { properties, ..self }),
    {
        Switch { properties, ..self }
    }

    pub fn mark_truncated(&mut self)
        ensures
            *final(self) == (Switch {
                properties: SwitchProperties {
                    bits: old(self).properties.bits | SwitchProperties::TRUNCATED,
                },
                ..*old(self)
            }),
    {
        self.properties.insert(SwitchProperties::TRUNCATED);
    }

    pub fn mark_override(&mut self)
        ensures
            *final(self) == (Switch {
                properties: SwitchProperties {
                    bits: old(self).properties.bits | SwitchProperties::OVERRIDE,
                },
                ..*old(self)
            }),
    {
        self.properties.insert(SwitchProperties::OVERRIDE);
    }

    pub fn is_override(&self) -> (r: bool)
        ensures
            r == (self.properties.bits & SwitchProperties::OVERRIDE == SwitchProperties::OVERRIDE),
    {
        self.properties.contains(SwitchProperties::OVERRIDE)
    }

    pub fn is_truncated(&self) -> (r: bool)
        ensures
            r == (self.properties.bits & SwitchProperties::TRUNCATED == SwitchProperties::TRUNCATED),
    {
        self.properties.contains(SwitchProperties::TRUNCATED)
    }

    pub fn has_default(&self) -> (r: bool)
        ensures
            r == self.default is Some,
    {
        self.default.is_some()
    }

    pub fn targets(&self) -> (targets: Vec<&AddressWithContext>)
        ensures
            targets@.map_values(|t: &AddressWithContext| *t) == self.all_targets(),
    {
        let mut targets: Vec<&AddressWithContext> = Vec::new();
        let mut i: usize = 0;
        while i < self.cases.len()
            invariant
                i <= self.cases@.len(),
                targets@.len() == i,
                forall|j: int| 0 <= j < i ==> *(#[trigger] targets@[j]) == self.cases@[j].target,
            decreases self.cases@.len() - i,
        {
            targets.push(self.cases[i].target());
            i = i + 1;
        }
        match self.default.as_ref() {
            Some(case) => targets.push(case.target()),
            None => {},
        }
        assert(targets@.map_values(|t: &AddressWithContext| *t) =~= self.all_targets());
        targets
    }

    pub fn derived_references(&self) -> (references: Vec<Reference>)
        ensures
            references@ == self.all_references(),
    {
        let targets: Vec<&AddressWithContext> = self.targets();
        let ghost flat = targets@.map_values(|t: &AddressWithContext| *t);
        let mut references: Vec<Reference> = Vec::new();
        let mut i: usize = 0;
        while i < targets.len()
            invariant
                i <= targets@.len(),
                references@.len() == i,
                forall|j: int|
                    0 <= j < i ==> #[trigger] references@[j] == case_reference(
                        self.branch,
                        targets@[j].address,
                    ),
            decreases targets@.len() - i,
        {
            let properties: ReferenceProperties = ReferenceProperties::of(
                ReferenceProperties::JUMP | ReferenceProperties::COMPUTED,
            );
            references.push(
                Reference::flow(self.branch, targets[i].address(), properties).with_origin(
                    ReferenceOrigin::Derived,
                ),
            );
            i = i + 1;
        }
        let tables: Vec<AddressTable> = self.model.data_tables();
        let mut k: usize = 0;
        while k < tables.len()
            invariant
                k <= tables@.len(),
                references@.len() == targets@.len() + k,
                forall|j: int|
                    0 <= j < targets@.len() ==> #[trigger] references@[j] == case_reference(
                        self.branch,
                        targets@[j].address,
                    ),
                forall|j: int|
                    targets@.len() <= j < targets@.len() + k ==> #[trigger] references@[j]
                        == table_reference(self.branch, tables@[j - targets@.len()].address),
            decreases tables@.len() - k,
        {
            let properties: ReferenceProperties = ReferenceProperties::of(
                ReferenceProperties::READ | ReferenceProperties::INDIRECT,
            );
            references.push(
                Reference::data(self.branch, tables[k].address(), properties).with_origin(
                    ReferenceOrigin::Derived,
                ),
            );
            k = k + 1;
        }
        proof {
            assert forall|j: int| 0 <= j < references@.len() implies #[trigger] references@[j]
                == self.all_references()[j] by {
                if j < targets@.len() {
                    assert(flat[j] == *targets@[j]);
                }
            }
            assert(references@ =~= self.all_references());
        }
        references
    }
}

/// A recovered switch is somewhat certain where a guard was found and nothing was cut off, and
/// uncertain otherwise.
pub proof fn law_guard_makes_switch_certain(
    guarded: bool,
    truncated: bool,
    properties: SwitchProperties,
    confidence: Confidence,
)
    requires
        call_ensures(SwitchProperties::from_recovery, (guarded, truncated), properties),
        call_ensures(SwitchProperties::confidence, (properties,), confidence),
    ensures
        confidence == if guarded && !truncated {
            Confidence::SomewhatCertain
        } else {
            Confidence::Uncertain
        },
{
    assert((0x20u32 | 0x2 | 0x40) & 0x2 == 0x2 && (0x20u32 | 0x2 | 0x40) & 0x40 == 0x40 && (0x20u32
        | 0x2 | 0) & 0x2 == 0x2 && (0x20u32 | 0x2 | 0) & 0x40 == 0 && (0x20u32 | 0 | 0x40) & 0x2
        == 0 && (0x20u32 | 0 | 0) & 0x2 == 0) by (bit_vector);
}

/// A switch refers to each of its cases and to its default by a computed jump, and reads each
/// of its tables through a pointer, unless the table is code. It makes no other reference.
pub proof fn law_switch_refers_to_cases_and_tables(
    switch: Switch,
    references: Vec<Reference>,
    reference: Reference,
)
    requires
        call_ensures(Switch::derived_references, (&switch,), references),
    ensures
        references@.len() == switch.cases@.len() + (if switch.default is Some {
            1int
        } else {
            0int
        }) + switch.model.read_tables().len(),
        references@.contains(reference) <==> {
            &&& reference.from == switch.branch
            &&& reference.origin is Derived
            &&& {
                ||| reference.kind is Flow && reference.properties.bits == ReferenceProperties::JUMP
                    | ReferenceProperties::COMPUTED && {
                    ||| exists|i: int|
                        0 <= i < switch.cases@.len() && reference.target
                            == ReferenceTarget::Address(
                            (#[trigger] switch.cases@[i]).target.address,
                        )
                    ||| switch.default matches Some(case) && reference.target
                        == ReferenceTarget::Address(case.target.address)
                }
                ||| reference.kind is Data && reference.properties.bits == ReferenceProperties::READ
                    | ReferenceProperties::INDIRECT && match switch.model {
                    SwitchModel::Absolute(table) => reference.target == ReferenceTarget::Address(
                        table.address,
                    ),
                    SwitchModel::OffsetRelative { table, .. } => reference.target
                        == ReferenceTarget::Address(table.address),
                    SwitchModel::TwoLevel { outer, inner } => reference.target
                        == ReferenceTarget::Address(outer.address) || reference.target
                        == ReferenceTarget::Address(inner.address),
                    SwitchModel::InlineBranchTable(_) => false,
                    SwitchModel::Explicit => false,
                }
            }
        },
{
    let targets = switch.all_targets();
    let tables = switch.model.read_tables();
    let cases = switch.cases@;
    let jumps = targets.map_values(
        |target: AddressWithContext| case_reference(switch.branch, target.address),
    );
    let reads = tables.map_values(
        |table: AddressTable| table_reference(switch.branch, table.address),
    );
    let all = switch.all_references();
    assert(all =~= jumps + reads);
    assert forall|i: int| 0 <= i < cases.len() implies #[trigger] targets[i] == cases[i].target by {}
    if all.contains(reference) {
        let k = all.index_of(reference);
        if k < jumps.len() {
            assert(reference == case_reference(switch.branch, targets[k].address));
            if k < cases.len() {
                assert(targets[k] == cases[k].target);
            }
        } else {
            assert(reference == table_reference(
                switch.branch,
                tables[k - jumps.len()].address,
            ));
        }
    }
    assert forall|k: int| 0 <= k < targets.len() implies all.contains(
        case_reference(switch.branch, (#[trigger] targets[k]).address),
    ) by {
        assert(all[k] == case_reference(switch.branch, targets[k].address));
    }
    assert forall|k: int| 0 <= k < tables.len() implies all.contains(
        table_reference(switch.branch, (#[trigger] tables[k]).address),
    ) by {
        assert(all[jumps.len() + k] == table_reference(switch.branch, tables[k].address));
    }
    assert forall|i: int| 0 <= i < cases.len() implies all.contains(
        case_reference(switch.branch, (#[trigger] cases[i]).target.address),
    ) by {
        assert(targets[i] == cases[i].target);
    }
    if switch.default is Some {
        assert(targets[cases.len() as int] == switch.default->0.target);
    }
    assert(switch.model is TwoLevel ==> tables.len() == 2 && tables[0]
        == switch.model->TwoLevel_outer && tables[1] == switch.model->TwoLevel_inner);
    assert(switch.model is Absolute ==> tables[0] == switch.model->Absolute_0);
    assert(switch.model is OffsetRelative ==> tables[0] == switch.model->OffsetRelative_table);
}

} // verus!
