//! Who calls whom: edges between function entries, read from either end, and staged changes
//! to them.
use vstd::prelude::*;

use crate::address::{lemma_address_capacity, Address};
use crate::block_table::CodeBlockTable;
use crate::body::{body_flows, Blocks};
use crate::codec::{be, capacity, lemma_be_pair, lemma_take_parts, KeyCodec};
use crate::flow::FlowTarget;
use crate::function::{Function, FunctionId, FunctionView};
use crate::function_table::FunctionTable;
use crate::order::{
    ascending, cursor_bound, cursor_bound_or_minimum, keys_between, keys_missing, lies_between,
    not_below, sort_keys, span_start, spans_keys, KeyBound, Ranked, SortedMap, SortedSet,
};
use crate::reference::{addresses, lemma_pair_parts};
use crate::types::Revision;

verus! {

/// A call: the function that calls by its entry, then what is called.
#[derive(Debug, Clone, Copy, PartialEq, Eq, PartialOrd, Ord, Hash, Structural)]
pub struct CallGraphEdgeKey {
    pub source: Address,
    pub target: Address,
}

impl Ranked for CallGraphEdgeKey {
    open spec fn rank(self) -> int {
        self.source.rank() * addresses() + self.target.rank()
    }

    proof fn lemma_rank_injective(a: Self, b: Self) {
        lemma_edge_order(a, b);
        Address::lemma_rank_injective(a.source, b.source);
        Address::lemma_rank_injective(a.target, b.target);
    }

    fn precedes(&self, other: &Self) -> (before: bool) {
        proof {
            lemma_edge_order(*self, *other);
        }
        self.source.precedes(&other.source) || (!other.source.precedes(&self.source)
            && self.target.precedes(&other.target))
    }
}

/// Calls are ordered by who calls, then by what is called.
pub proof fn lemma_edge_order(a: CallGraphEdgeKey, b: CallGraphEdgeKey)
    ensures
        a.rank() < b.rank() <==> a.source.rank() < b.source.rank() || (a.source.rank()
            == b.source.rank() && a.target.rank() < b.target.rank()),
        a.rank() == b.rank() <==> a.source.rank() == b.source.rank() && a.target.rank()
            == b.target.rank(),
{
    Address::lemma_rank_fits(a.target);
    Address::lemma_rank_fits(b.target);
    lemma_address_capacity();
}

/// The bytes of a call are those of its two ends.
proof fn lemma_edge_bytes(key: CallGraphEdgeKey)
    ensures
        be(20, key.rank()) == be(10, key.source.rank()) + be(10, key.target.rank()),
{
    Address::lemma_rank_fits(key.target);
    lemma_address_capacity();
    lemma_be_pair(10, 10, key.source.rank(), key.target.rank());
}

impl KeyCodec for CallGraphEdgeKey {
    open spec fn width() -> nat {
        20
    }

    proof fn lemma_rank_fits(key: Self) {
        Address::lemma_rank_fits(key.source);
        Address::lemma_rank_fits(key.target);
        lemma_address_capacity();
        lemma_edge_capacity();
    }

    fn encode(&self, output: &mut Vec<u8>) {
        let ghost before = output@;
        self.source.encode(output);
        self.target.encode(output);
        proof {
            assert(Self::width() == 20);
            lemma_edge_bytes(*self);
            assert(output@ =~= before + (be(10, self.source.rank()) + be(10, self.target.rank())));
        }
    }

    fn decode(input: &mut &[u8]) -> (key: Option<Self>) {
        let ghost before = input@;
        let source: Address = match Address::decode(input) {
            Some(source) => source,
            None => {
                proof {
                    assert forall|k: CallGraphEdgeKey|
                        before.len() < 20 || #[trigger] be(20, k.rank()) != before.take(20) by {
                        lemma_edge_bytes(k);
                        if before.len() >= 20 && be(20, k.rank()) == before.take(20) {
                            lemma_pair_parts(10, 10, k.source.rank(), k.target.rank(), before);
                        }
                    }
                }
                return None;
            },
        };
        match Address::decode(input) {
            Some(target) => {
                let key = CallGraphEdgeKey { source, target };
                proof {
                    lemma_edge_bytes(key);
                    lemma_take_parts(before, 10, 10);
                }
                Some(key)
            },
            None => {
                proof {
                    assert forall|k: CallGraphEdgeKey|
                        before.len() < 20 || #[trigger] be(20, k.rank()) != before.take(20) by {
                        lemma_edge_bytes(k);
                        if before.len() >= 20 && be(20, k.rank()) == before.take(20) {
                            lemma_pair_parts(10, 10, k.source.rank(), k.target.rank(), before);
                        }
                    }
                }
                None
            },
        }
    }
}

/// Two addresses side by side fit their bytes.
proof fn lemma_edge_capacity()
    ensures
        capacity(20) == addresses() * addresses(),
{
    reveal_with_fuel(capacity, 21);
    lemma_address_capacity();
}

impl CallGraphEdgeKey {
    pub fn new(source: Address, target: Address) -> (key: Self)
        ensures
            key == (CallGraphEdgeKey { source, target }),
    {
        CallGraphEdgeKey { source, target }
    }

    pub fn source(&self) -> (source: Address)
        ensures
            source == self.source,
    {
        self.source
    }

    pub fn target(&self) -> (target: Address)
        ensures
            target == self.target,
    {
        self.target
    }

    /// The first key of all calls of a function.
    pub fn minimum_for(source: Address) -> (key: Self)
        ensures
            key.source == source,
            forall|other: Address| key.target.rank() <= #[trigger] other.rank(),
    {
        let target: Address = Address::minimum();
        proof {
            assert forall|other: Address| target.rank() <= #[trigger] other.rank() by {
                Address::lemma_rank_fits(other);
            }
        }
        CallGraphEdgeKey { source, target }
    }
}

/// A call as its target sees it: what is called, then who calls.
#[derive(Debug, Clone, Copy, PartialEq, Eq, PartialOrd, Ord, Hash, Structural)]
pub struct InverseCallGraphEdgeKey {
    pub callee: Address,
    pub caller: Address,
}

impl InverseCallGraphEdgeKey {
    /// The same two ends with the first of the order first.
    pub open spec fn flipped(self) -> CallGraphEdgeKey {
        CallGraphEdgeKey { source: self.callee, target: self.caller }
    }

    /// The call that is seen.
    pub open spec fn edge(self) -> CallGraphEdgeKey {
        CallGraphEdgeKey { source: self.caller, target: self.callee }
    }
}

impl Ranked for InverseCallGraphEdgeKey {
    open spec fn rank(self) -> int {
        self.callee.rank() * addresses() + self.caller.rank()
    }

    proof fn lemma_rank_injective(a: Self, b: Self) {
        CallGraphEdgeKey::lemma_rank_injective(a.flipped(), b.flipped());
    }

    fn precedes(&self, other: &Self) -> (before: bool) {
        proof {
            lemma_edge_order(self.flipped(), other.flipped());
        }
        self.callee.precedes(&other.callee) || (!other.callee.precedes(&self.callee)
            && self.caller.precedes(&other.caller))
    }
}

impl KeyCodec for InverseCallGraphEdgeKey {
    open spec fn width() -> nat {
        20
    }

    proof fn lemma_rank_fits(key: Self) {
        CallGraphEdgeKey::lemma_rank_fits(key.flipped());
    }

    fn encode(&self, output: &mut Vec<u8>) {
        let flipped = CallGraphEdgeKey { source: self.callee, target: self.caller };
        flipped.encode(output);
        proof {
            assert(Self::width() == 20);
            assert(flipped.rank() == self.rank());
        }
    }

    fn decode(input: &mut &[u8]) -> (key: Option<Self>) {
        let ghost before = input@;
        match CallGraphEdgeKey::decode(input) {
            Some(flipped) => {
                let key = InverseCallGraphEdgeKey {
                    callee: flipped.source,
                    caller: flipped.target,
                };
                proof {
                    assert(key.rank() == flipped.rank());
                }
                Some(key)
            },
            None => {
                proof {
                    assert forall|k: InverseCallGraphEdgeKey|
                        before.len() < 20 || #[trigger] be(20, k.rank()) != before.take(20) by {
                        assert(k.flipped().rank() == k.rank());
                    }
                }
                None
            },
        }
    }
}

impl InverseCallGraphEdgeKey {
    pub fn new(callee: Address, caller: Address) -> (key: Self)
        ensures
            key == (InverseCallGraphEdgeKey { callee, caller }),
    {
        InverseCallGraphEdgeKey { callee, caller }
    }

    pub fn callee(&self) -> (callee: Address)
        ensures
            callee == self.callee,
    {
        self.callee
    }

    pub fn caller(&self) -> (caller: Address)
        ensures
            caller == self.caller,
    {
        self.caller
    }

    /// The first key of all calls to a function.
    pub fn minimum_for(callee: Address) -> (key: Self)
        ensures
            key.callee == callee,
            forall|other: Address| key.caller.rank() <= #[trigger] other.rank(),
    {
        let least = CallGraphEdgeKey::minimum_for(callee);
        InverseCallGraphEdgeKey { callee, caller: least.target }
    }
}

/// What a function calls.
pub open spec fn callees_of(edges: Set<CallGraphEdgeKey>, caller: Address) -> Set<Address> {
    Set::new(|callee: Address| edges.contains(CallGraphEdgeKey { source: caller, target: callee }))
}

/// What calls a function.
pub open spec fn callers_of(edges: Set<CallGraphEdgeKey>, callee: Address) -> Set<Address> {
    Set::new(|caller: Address| edges.contains(CallGraphEdgeKey { source: caller, target: callee }))
}

/// The lower end of what comes after a cursor.
pub open spec fn behind<K: Ranked + Copy>(after: Option<K>) -> KeyBound<K> {
    match after {
        Some(key) => KeyBound::Excluded(key),
        None => KeyBound::Unbounded,
    }
}

/// The calls of one function made those of `callees`, all others as they were.
pub open spec fn recalled(
    edges: Set<CallGraphEdgeKey>,
    caller: Address,
    callees: Set<Address>,
) -> Set<CallGraphEdgeKey> {
    Set::new(
        |edge: CallGraphEdgeKey|
            if edge.source == caller {
                callees.contains(edge.target)
            } else {
                edges.contains(edge)
            },
    )
}

/// Whether one of the flows is a call of an address.
pub open spec fn calls_address(flows: Seq<FlowTarget>, callee: Address) -> bool {
    exists|i: int|
        0 <= i < flows.len() && (#[trigger] flows[i]).kind.calls() && flows[i].to == callee
}

/// The calls between functions, listed from both ends.
pub struct CallGraphIndex {
    pub forward: SortedSet<CallGraphEdgeKey>,
    pub inverse: SortedSet<InverseCallGraphEdgeKey>,
}

impl View for CallGraphIndex {
    type V = Set<CallGraphEdgeKey>;

    open spec fn view(&self) -> Set<CallGraphEdgeKey> {
        self.forward@
    }
}

impl CallGraphIndex {
    /// Both listings are in order and hold the same calls.
    pub open spec fn wf(&self) -> bool {
        &&& self.forward.wf()
        &&& self.inverse.wf()
        &&& forall|key: InverseCallGraphEdgeKey| #[trigger]
            self.inverse@.contains(key) <==> self.forward@.contains(key.edge())
    }

    pub fn new_transient() -> (index: Self)
        ensures
            index.wf(),
            index@ == Set::<CallGraphEdgeKey>::empty(),
    {
        CallGraphIndex { forward: SortedSet::new(), inverse: SortedSet::new() }
    }

    /// What a function calls, in order, from behind `after` on.
    pub fn callees(&self, caller: Address, after: Option<Address>) -> (listed: Vec<Address>)
        requires
            self.wf(),
        ensures
            spans_keys(listed@, callees_of(self@, caller), behind(after), KeyBound::Unbounded),
    {
        let minimum: CallGraphEdgeKey = CallGraphEdgeKey::minimum_for(caller);
        let after_key: Option<CallGraphEdgeKey> = match after {
            Some(after) => Some(CallGraphEdgeKey::new(caller, after)),
            None => None,
        };
        let start: KeyBound<CallGraphEdgeKey> = cursor_bound_or_minimum(after_key, minimum);
        let ghost items = self.forward.items@;
        let mut at: usize = span_start(self.forward.items.as_slice(), start);
        let ghost from = at as int;
        let mut listed: Vec<Address> = Vec::new();
        while at < self.forward.items.len() && self.forward.items[at].source == caller
            invariant
                self.wf(),
                items == self.forward.items@,
                0 <= from <= at <= items.len(),
                listed@.len() == at - from,
                forall|i: int| 0 <= i < listed@.len() ==> (#[trigger] listed@[i]) == items[from + i].target,
                forall|i: int| from <= i < at ==> (#[trigger] items[i]).source == caller,
            decreases items.len() - at,
        {
            listed.push(self.forward.items[at].target);
            at = at + 1;
        }
        proof {
            assert forall|i: int, j: int| 0 <= i < j < listed@.len() implies (#[trigger] listed@[i]).rank() < (#[trigger] listed@[j]).rank() by {
                lemma_edge_order(items[from + i], items[from + j]);
                assert(items[from + i].rank() < items[from + j].rank());
            }
            assert forall|callee: Address| #[trigger]
                listed@.contains(callee) <==> callees_of(self@, caller).contains(callee)
                    && lies_between(behind(after), KeyBound::Unbounded, callee) by {
                let key = CallGraphEdgeKey { source: caller, target: callee };
                match after {
                    Some(last) => {
                        lemma_edge_order(CallGraphEdgeKey { source: caller, target: last }, key);
                    },
                    None => {
                        lemma_edge_order(minimum, key);
                    },
                }
                if listed@.contains(callee) {
                    let i = listed@.index_of(callee);
                    assert(items[from + i] == key);
                    assert(items.contains(key));
                }
                if items.contains(key) && not_below(start, key) {
                    let i = items.index_of(key);
                    if i >= at {
                        let stop = items[at as int];
                        assert(not_below(start, stop));
                        lemma_edge_order(stop, key);
                        lemma_edge_order(key, stop);
                        match after {
                            Some(last) => {
                                lemma_edge_order(
                                    CallGraphEdgeKey { source: caller, target: last },
                                    stop,
                                );
                            },
                            None => {
                                lemma_edge_order(minimum, stop);
                                lemma_edge_order(stop, minimum);
                            },
                        }
                        assert(stop.rank() <= key.rank());
                        Address::lemma_rank_injective(stop.source, caller);
                        assert(false);
                    }
                    assert(listed@[i - from] == callee);
                }
            }
        }
        listed
    }

    /// What calls a function, in order, from behind `after` on.
    pub fn callers(&self, callee: Address, after: Option<Address>) -> (listed: Vec<Address>)
        requires
            self.wf(),
        ensures
            spans_keys(listed@, callers_of(self@, callee), behind(after), KeyBound::Unbounded),
    {
        let minimum: InverseCallGraphEdgeKey = InverseCallGraphEdgeKey::minimum_for(callee);
        let after_key: Option<InverseCallGraphEdgeKey> = match after {
            Some(after) => Some(InverseCallGraphEdgeKey::new(callee, after)),
            None => None,
        };
        let start: KeyBound<InverseCallGraphEdgeKey> = cursor_bound_or_minimum(after_key, minimum);
        let ghost items = self.inverse.items@;
        let mut at: usize = span_start(self.inverse.items.as_slice(), start);
        let ghost from = at as int;
        let mut listed: Vec<Address> = Vec::new();
        while at < self.inverse.items.len() && self.inverse.items[at].callee == callee
            invariant
                self.wf(),
                items == self.inverse.items@,
                0 <= from <= at <= items.len(),
                listed@.len() == at - from,
                forall|i: int| 0 <= i < listed@.len() ==> (#[trigger] listed@[i]) == items[from + i].caller,
                forall|i: int| from <= i < at ==> (#[trigger] items[i]).callee == callee,
            decreases items.len() - at,
        {
            listed.push(self.inverse.items[at].caller);
            at = at + 1;
        }
        proof {
            assert forall|i: int, j: int| 0 <= i < j < listed@.len() implies (#[trigger] listed@[i]).rank() < (#[trigger] listed@[j]).rank() by {
                lemma_edge_order(items[from + i].flipped(), items[from + j].flipped());
                assert(items[from + i].rank() < items[from + j].rank());
            }
            assert forall|caller: Address| #[trigger]
                listed@.contains(caller) <==> callers_of(self@, callee).contains(caller)
                    && lies_between(behind(after), KeyBound::Unbounded, caller) by {
                let key = InverseCallGraphEdgeKey { callee, caller };
                assert(self.inverse@.contains(key) <==> self.forward@.contains(key.edge()));
                match after {
                    Some(last) => {
                        lemma_edge_order(
                            CallGraphEdgeKey { source: callee, target: last },
                            key.flipped(),
                        );
                    },
                    None => {
                        lemma_edge_order(minimum.flipped(), key.flipped());
                    },
                }
                if listed@.contains(caller) {
                    let i = listed@.index_of(caller);
                    assert(items[from + i] == key);
                    assert(items.contains(key));
                }
                if items.contains(key) && not_below(start, key) {
                    let i = items.index_of(key);
                    if i >= at {
                        let stop = items[at as int];
                        assert(not_below(start, stop));
                        lemma_edge_order(stop.flipped(), key.flipped());
                        lemma_edge_order(key.flipped(), stop.flipped());
                        match after {
                            Some(last) => {
                                lemma_edge_order(
                                    CallGraphEdgeKey { source: callee, target: last },
                                    stop.flipped(),
                                );
                            },
                            None => {
                                lemma_edge_order(minimum.flipped(), stop.flipped());
                                lemma_edge_order(stop.flipped(), minimum.flipped());
                            },
                        }
                        assert(stop.rank() <= key.rank());
                        Address::lemma_rank_injective(stop.callee, callee);
                        assert(false);
                    }
                    assert(listed@[i - from] == caller);
                }
            }
        }
        listed
    }

    /// All calls in order, from behind `after` on.
    pub fn edges(&self, after: Option<CallGraphEdgeKey>) -> (listed: Vec<CallGraphEdgeKey>)
        requires
            self.wf(),
        ensures
            spans_keys(listed@, self@, behind(after), KeyBound::Unbounded),
    {
        let start: KeyBound<CallGraphEdgeKey> = cursor_bound(after);
        let listed: Vec<CallGraphEdgeKey> = keys_between(
            &self.forward.items,
            start,
            KeyBound::Unbounded,
        );
        proof {
            assert(self.forward.items@.to_set() =~= self@);
        }
        listed
    }

    /// Enters a call.
    pub fn insert_edge(&mut self, caller: Address, callee: Address)
        requires
            old(self).wf(),
        ensures
            final(self).wf(),
            final(self)@ == old(self)@.insert(CallGraphEdgeKey { source: caller, target: callee }),
    {
        self.forward.insert(CallGraphEdgeKey::new(caller, callee));
        self.inverse.insert(InverseCallGraphEdgeKey::new(callee, caller));
    }

    /// Takes a call out.
    pub fn remove_edge(&mut self, caller: Address, callee: Address)
        requires
            old(self).wf(),
        ensures
            final(self).wf(),
            final(self)@ == old(self)@.remove(CallGraphEdgeKey { source: caller, target: callee }),
    {
        self.forward.remove(&CallGraphEdgeKey::new(caller, callee));
        self.inverse.remove(&InverseCallGraphEdgeKey::new(callee, caller));
    }

    /// Takes all calls out.
    pub fn clear(&mut self)
        requires
            old(self).wf(),
        ensures
            final(self).wf(),
            final(self)@ == Set::<CallGraphEdgeKey>::empty(),
    {
        self.forward.clear();
        self.inverse.clear();
    }

    /// Makes the calls of a function those of `callees`.
    pub fn set_callees(&mut self, caller: Address, callees: &Vec<Address>)
        requires
            old(self).wf(),
        ensures
            final(self).wf(),
            final(self)@ == recalled(old(self)@, caller, callees@.to_set()),
    {
        let current: Vec<Address> = self.callees(caller, None);
        let next: Vec<Address> = sort_keys(callees);
        let gone: Vec<Address> = keys_missing(&current, &next);
        let added: Vec<Address> = keys_missing(&next, &current);
        let ghost before = self@;
        let mut i: usize = 0;
        while i < gone.len()
            invariant
                i <= gone@.len(),
                self.wf(),
                forall|edge: CallGraphEdgeKey| #[trigger]
                    self@.contains(edge) <==> before.contains(edge) && !(edge.source == caller
                        && gone@.take(i as int).contains(edge.target)),
            decreases gone@.len() - i,
        {
            let ghost seen = gone@.take(i as int);
            self.remove_edge(caller, gone[i]);
            proof {
                assert(gone@.take(i + 1) =~= seen.push(gone@[i as int]));
                assert forall|a: Address| #[trigger] gone@.take(i + 1).contains(a) <==> seen.contains(a) || a == gone@[i as int] by {
                    lemma_push_contains(seen, gone@[i as int], a);
                }
            }
            i = i + 1;
        }
        assert(gone@.take(i as int) =~= gone@);
        let ghost middle = self@;
        let mut k: usize = 0;
        while k < added.len()
            invariant
                k <= added@.len(),
                self.wf(),
                forall|edge: CallGraphEdgeKey| #[trigger]
                    self@.contains(edge) <==> middle.contains(edge) || (edge.source == caller
                        && added@.take(k as int).contains(edge.target)),
            decreases added@.len() - k,
        {
            let ghost seen = added@.take(k as int);
            self.insert_edge(caller, added[k]);
            proof {
                assert(added@.take(k + 1) =~= seen.push(added@[k as int]));
                assert forall|a: Address| #[trigger] added@.take(k + 1).contains(a) <==> seen.contains(a) || a == added@[k as int] by {
                    lemma_push_contains(seen, added@[k as int], a);
                }
            }
            k = k + 1;
        }
        proof {
            assert(added@.take(k as int) =~= added@);
            assert forall|edge: CallGraphEdgeKey| #[trigger]
                self@.contains(edge) <==> recalled(before, caller, callees@.to_set()).contains(
                    edge,
                ) by {
                if edge.source == caller {
                    assert(edge == (CallGraphEdgeKey { source: caller, target: edge.target }));
                    assert(current@.contains(edge.target) <==> before.contains(edge));
                    assert(next@.contains(edge.target) <==> callees@.contains(edge.target));
                    assert(gone@.contains(edge.target) <==> current@.contains(edge.target)
                        && !next@.contains(edge.target));
                    assert(added@.contains(edge.target) <==> next@.contains(edge.target)
                        && !current@.contains(edge.target));
                }
            }
            assert(self@ =~= recalled(before, caller, callees@.to_set()));
        }
    }
}

proof fn lemma_push_contains<A>(seen: Seq<A>, last: A, a: A)
    ensures
        seen.push(last).contains(a) <==> seen.contains(a) || a == last,
{
    if seen.contains(a) {
        assert(seen.push(last)[seen.index_of(a)] == a);
    }
    assert(seen.push(last)[seen.len() as int] == last);
    if seen.push(last).contains(a) && a != last {
        let i = seen.push(last).index_of(a);
        assert(seen[i] == a);
    }
}

/// Whether a function calls an address.
pub open spec fn function_calls(
    function: FunctionView,
    blocks: Blocks,
    callee: Address,
) -> bool {
    calls_address(body_flows(function, blocks, function.blocks.len() as int), callee)
}

/// Whether one of the functions has its entry at one end of an edge and calls the other.
pub open spec fn function_makes(
    functions: Map<FunctionId, FunctionView>,
    blocks: Blocks,
    edge: CallGraphEdgeKey,
) -> bool {
    exists|id: FunctionId| #[trigger]
        functions.contains_key(id) && functions[id].entry == edge.source && function_calls(
            functions[id],
            blocks,
            edge.target,
        )
}

/// All calls that functions make.
pub open spec fn calls_made(
    functions: Map<FunctionId, FunctionView>,
    blocks: Blocks,
) -> Set<CallGraphEdgeKey> {
    Set::new(|edge: CallGraphEdgeKey| function_makes(functions, blocks, edge))
}

impl CallGraphIndex {
    /// What a function calls, in order, each once.
    pub fn function_call_targets(function: &Function, blocks: &CodeBlockTable) -> (callees: Vec<
        Address,
    >)
        requires
            function@.wf(),
            blocks.wf(),
        ensures
            ascending(callees@),
            forall|callee: Address| #[trigger]
                callees@.contains(callee) <==> function_calls(function@, blocks@, callee),
    {
        let flows: Vec<FlowTarget> = function.flow_targets(blocks);
        let mut callees: SortedSet<Address> = SortedSet::new();
        let mut i: usize = 0;
        while i < flows.len()
            invariant
                i <= flows@.len(),
                callees.wf(),
                forall|callee: Address| #[trigger]
                    callees@.contains(callee) <==> calls_address(flows@.take(i as int), callee),
            decreases flows@.len() - i,
        {
            let ghost before = callees@;
            let ghost seen = flows@.take(i as int);
            let ghost more = flows@.take(i + 1);
            let flow: FlowTarget = flows[i];
            if flow.kind.is_call() {
                callees.insert(flow.to);
            }
            proof {
                assert forall|callee: Address| #[trigger]
                    callees@.contains(callee) <==> calls_address(more, callee) by {
                    if before.contains(callee) {
                        let k = choose|k: int|
                            0 <= k < seen.len() && (#[trigger] seen[k]).kind.calls() && seen[k].to
                                == callee;
                        assert(more[k] == seen[k]);
                    }
                    if flow.kind.calls() && flow.to == callee {
                        assert(more[i as int] == flow);
                    }
                    if calls_address(more, callee) {
                        let k = choose|k: int|
                            0 <= k < more.len() && (#[trigger] more[k]).kind.calls() && more[k].to
                                == callee;
                        if k < i {
                            assert(seen[k] == more[k]);
                        }
                    }
                }
            }
            i = i + 1;
        }
        proof {
            assert(flows@.take(i as int) =~= flows@);
            assert forall|callee: Address| #[trigger]
                callees.items@.contains(callee) <==> function_calls(
                    function@,
                    blocks@,
                    callee,
                ) by {
                assert(callees@.contains(callee) <==> calls_address(flows@, callee));
            }
        }
        callees.items
    }

    /// Lists the calls of all functions in place of what was listed.
    pub fn rebuild(&mut self, functions: &FunctionTable, blocks: &CodeBlockTable)
        requires
            old(self).wf(),
            functions.wf(),
            blocks.wf(),
        ensures
            final(self).wf(),
            final(self)@ == calls_made(functions@, blocks@),
    {
        self.clear();
        let listed: Vec<&Function> = functions.iter();
        let mut i: usize = 0;
        proof {
            functions.lemma_sound();
        }
        while i < listed.len()
            invariant
                i <= listed@.len(),
                self.wf(),
                functions.wf(),
                blocks.wf(),
                forall|k: int|
                    0 <= k < listed@.len() ==> functions@.contains_key((#[trigger] listed@[k]).id)
                        && listed@[k]@ == functions@[listed@[k].id],
                forall|k: int, m: int|
                    0 <= k < m < listed@.len() ==> (#[trigger] listed@[k]).id.id < (#[trigger]
                    listed@[m]).id.id,
                forall|id: FunctionId| #[trigger]
                    functions@.contains_key(id) ==> functions@[id].wf(),
                forall|edge: CallGraphEdgeKey| #[trigger]
                    self@.contains(edge) <==> exists|k: int|
                        0 <= k < i && (#[trigger] listed@[k])@.entry == edge.source
                            && function_calls(listed@[k]@, blocks@, edge.target),
            decreases listed@.len() - i,
        {
            let ghost before = self@;
            let function: &Function = listed[i];
            let callees: Vec<Address> = Self::function_call_targets(function, blocks);
            self.set_callees(function.entry(), &callees);
            proof {
                let entry = function@.entry;
                assert forall|edge: CallGraphEdgeKey| #[trigger]
                    self@.contains(edge) <==> exists|k: int|
                        0 <= k < i + 1 && (#[trigger] listed@[k])@.entry == edge.source
                            && function_calls(listed@[k]@, blocks@, edge.target) by {
                    if edge.source == entry {
                        assert(callees@.contains(edge.target) <==> function_calls(
                            function@,
                            blocks@,
                            edge.target,
                        ));
                        assert(listed@[i as int]@.entry == edge.source);
                        if exists|k: int|
                            0 <= k < i + 1 && (#[trigger] listed@[k])@.entry == edge.source
                                && function_calls(listed@[k]@, blocks@, edge.target) {
                            let k = choose|k: int|
                                0 <= k < i + 1 && (#[trigger] listed@[k])@.entry == edge.source
                                    && function_calls(listed@[k]@, blocks@, edge.target);
                            if k < i {
                                assert(listed@[k].id.id < listed@[i as int].id.id);
                                assert(functions@.contains_key(listed@[k].id));
                                assert(functions@.contains_key(listed@[i as int].id));
                                assert(functions.index()[entry] == listed@[k].id);
                                assert(functions.index()[entry] == listed@[i as int].id);
                            }
                        }
                    } else {
                        assert(self@.contains(edge) <==> before.contains(edge));
                    }
                }
            }
            i = i + 1;
        }
        proof {
            assert forall|edge: CallGraphEdgeKey| #[trigger]
                self@.contains(edge) <==> calls_made(functions@, blocks@).contains(edge) by {
                if function_makes(functions@, blocks@, edge) {
                    let id = choose|id: FunctionId| #[trigger]
                        functions@.contains_key(id) && functions@[id].entry == edge.source
                            && function_calls(functions@[id], blocks@, edge.target);
                    let k = choose|k: int|
                        0 <= k < listed@.len() && (#[trigger] listed@[k]).id == id;
                    assert(listed@[k]@ == functions@[id]);
                }
                if self@.contains(edge) {
                    let k = choose|k: int|
                        0 <= k < i && (#[trigger] listed@[k])@.entry == edge.source
                            && function_calls(listed@[k]@, blocks@, edge.target);
                    assert(functions@.contains_key(listed@[k].id));
                }
            }
            assert(self@ =~= calls_made(functions@, blocks@));
        }
    }

    /// Brings the calls up to date unless `marker`, the revision that they were listed at, is
    /// the current one, and says whether they were listed anew.
    pub fn ensure_current(
        &mut self,
        marker: Option<Revision>,
        functions: &FunctionTable,
        blocks: &CodeBlockTable,
        revision: Revision,
    ) -> (rebuilt: bool)
        requires
            old(self).wf(),
            functions.wf(),
            blocks.wf(),
        ensures
            final(self).wf(),
            rebuilt == (marker != Some(revision)),
            final(self)@ == if rebuilt {
                calls_made(functions@, blocks@)
            } else {
                old(self)@
            },
    {
        let current: bool = match marker {
            Some(marker) => marker.0 == revision.0,
            None => false,
        };
        if current {
            return false;
        }
        self.rebuild(functions, blocks);
        true
    }
}

/// A change of a call: it comes to be or ceases to be.
#[derive(Debug, Clone, Copy, PartialEq, Eq, Structural)]
pub struct PreparedCallGraphEdgeRecord {
    pub key: CallGraphEdgeKey,
    pub present: bool,
}

impl Ranked for PreparedCallGraphEdgeRecord {
    open spec fn rank(self) -> int {
        (self.key.source.rank() * 2 + if self.present {
            1int
        } else {
            0int
        }) * addresses() + self.key.target.rank()
    }

    proof fn lemma_rank_injective(a: Self, b: Self) {
        Address::lemma_rank_fits(a.key.target);
        Address::lemma_rank_fits(b.key.target);
        lemma_address_capacity();
        Address::lemma_rank_injective(a.key.source, b.key.source);
        Address::lemma_rank_injective(a.key.target, b.key.target);
    }

    fn precedes(&self, other: &Self) -> (before: bool) {
        proof {
            Address::lemma_rank_fits(self.key.target);
            Address::lemma_rank_fits(other.key.target);
            lemma_address_capacity();
        }
        if self.key.source.precedes(&other.key.source) {
            return true;
        }
        if other.key.source.precedes(&self.key.source) {
            return false;
        }
        if self.present == other.present {
            return self.key.target.precedes(&other.key.target);
        }
        other.present
    }
}

/// What is staged for a function that calls.
pub struct StagedCallees {
    pub base_known_empty: bool,
    pub callees: SortedSet<Address>,
}

/// What is staged for a function that calls: what it shall call, and whether it is known to
/// call nothing yet.
pub struct StagedCalleesView {
    pub base_known_empty: bool,
    pub callees: Set<Address>,
}

impl View for StagedCallees {
    type V = StagedCalleesView;

    open spec fn view(&self) -> StagedCalleesView {
        StagedCalleesView { base_known_empty: self.base_known_empty, callees: self.callees@ }
    }
}

/// Changes to the calls of functions that are not in the index yet.
pub struct CallGraphStaging {
    pub callees_by_caller: SortedMap<Address, StagedCallees>,
}

impl View for CallGraphStaging {
    type V = Map<Address, StagedCalleesView>;

    open spec fn view(&self) -> Map<Address, StagedCalleesView> {
        Map::new(
            |caller: Address| self.callees_by_caller@.contains_key(caller),
            |caller: Address| self.callees_by_caller@[caller]@,
        )
    }
}

/// What the flag of a function is once it is staged with `known`: once known, always known.
pub open spec fn flag_staged(
    staged: Map<Address, StagedCalleesView>,
    caller: Address,
    known: bool,
) -> bool {
    known || (staged.contains_key(caller) && staged[caller].base_known_empty)
}

/// Whether the callees of a function count as none before the change.
pub open spec fn base_of(
    staged: StagedCalleesView,
    edges: Set<CallGraphEdgeKey>,
    caller: Address,
) -> Set<Address> {
    if staged.base_known_empty {
        Set::empty()
    } else {
        callees_of(edges, caller)
    }
}

/// Whether a change is called for.
pub open spec fn is_change(
    staged: Map<Address, StagedCalleesView>,
    edges: Set<CallGraphEdgeKey>,
    record: PreparedCallGraphEdgeRecord,
) -> bool {
    let caller = record.key.source;
    &&& staged.contains_key(caller)
    &&& {
        let wanted = staged[caller].callees.contains(record.key.target);
        let there = base_of(staged[caller], edges, caller).contains(record.key.target);
        if record.present {
            wanted && !there
        } else {
            there && !wanted
        }
    }
}

/// Whether a sequence lists the changes called for: by who calls, what ceases before what
/// comes to be.
pub open spec fn lists_changes(
    records: Seq<PreparedCallGraphEdgeRecord>,
    staged: Map<Address, StagedCalleesView>,
    edges: Set<CallGraphEdgeKey>,
) -> bool {
    &&& ascending(records)
    &&& forall|record: PreparedCallGraphEdgeRecord| #[trigger]
        records.contains(record) <==> is_change(staged, edges, record)
}

/// The calls after changes, one after another.
pub open spec fn changed(
    edges: Set<CallGraphEdgeKey>,
    records: Seq<PreparedCallGraphEdgeRecord>,
) -> Set<CallGraphEdgeKey>
    decreases records.len(),
{
    if records.len() == 0 {
        edges
    } else {
        let before = changed(edges, records.drop_last());
        if records.last().present {
            before.insert(records.last().key)
        } else {
            before.remove(records.last().key)
        }
    }
}

impl CallGraphStaging {
    pub open spec fn wf(&self) -> bool {
        &&& self.callees_by_caller.wf()
        &&& forall|caller: Address| #[trigger]
            self.callees_by_caller@.contains_key(caller)
                ==> self.callees_by_caller@[caller].callees.wf()
    }

    pub fn new() -> (staging: Self)
        ensures
            staging.wf(),
            staging@ == Map::<Address, StagedCalleesView>::empty(),
    {
        let staging = CallGraphStaging { callees_by_caller: SortedMap::new() };
        assert(staging@ =~= Map::<Address, StagedCalleesView>::empty());
        staging
    }

    /// What a function shall call, where that is staged.
    pub fn callees(&self, caller: Address) -> (callees: Option<&SortedSet<Address>>)
        requires
            self.wf(),
        ensures
            callees is Some == self@.contains_key(caller),
            callees matches Some(set) ==> set.wf() && set@ == self@[caller].callees,
    {
        match self.callees_by_caller.get(&caller) {
            Some(staged) => Some(&staged.callees),
            None => None,
        }
    }

    fn known_empty(&self, caller: Address) -> (known: bool)
        requires
            self.wf(),
        ensures
            known == flag_staged(self@, caller, false),
    {
        match self.callees_by_caller.get(&caller) {
            Some(staged) => staged.base_known_empty,
            None => false,
        }
    }

    /// Stages what a function shall call.
    pub fn set_callees(
        &mut self,
        caller: Address,
        callees: SortedSet<Address>,
        base_known_empty: bool,
    )
        requires
            old(self).wf(),
            callees.wf(),
        ensures
            final(self).wf(),
            final(self)@ == old(self)@.insert(
                caller,
                StagedCalleesView {
                    base_known_empty: flag_staged(old(self)@, caller, base_known_empty),
                    callees: callees@,
                },
            ),
    {
        let known: bool = self.known_empty(caller) || base_known_empty;
        let ghost before = self@;
        self.callees_by_caller.insert(caller, StagedCallees { base_known_empty: known, callees });
        proof {
            assert(self@ =~= before.insert(
                caller,
                StagedCalleesView { base_known_empty: known, callees: callees@ },
            ));
        }
    }

    /// Stages that a function shall call nothing.
    pub fn clear_callees(&mut self, caller: Address)
        requires
            old(self).wf(),
        ensures
            final(self).wf(),
            final(self)@ == old(self)@.insert(
                caller,
                StagedCalleesView {
                    base_known_empty: flag_staged(old(self)@, caller, false),
                    callees: Set::empty(),
                },
            ),
    {
        self.set_callees(caller, SortedSet::new(), false);
    }

    /// The changes that lead from the index to what is staged.
    pub fn prepare(self, index: &CallGraphIndex) -> (batch: PreparedCallGraphBatch)
        requires
            self.wf(),
            index.wf(),
        ensures
            lists_changes(batch.edges@, self@, index@),
    {
        let mut edges: Vec<PreparedCallGraphEdgeRecord> = Vec::new();
        let ghost callers = self.callees_by_caller.keys@;
        let mut i: usize = 0;
        while i < self.callees_by_caller.keys.len()
            invariant
                i <= callers.len(),
                callers == self.callees_by_caller.keys@,
                self.wf(),
                index.wf(),
                ascending(edges@),
                forall|k: int|
                    0 <= k < edges@.len() ==> exists|m: int|
                        0 <= m < i && (#[trigger] edges@[k]).key.source == #[trigger] callers[m],
                forall|record: PreparedCallGraphEdgeRecord| #[trigger]
                    edges@.contains(record) <==> is_change(self@, index@, record) && callers.take(
                        i as int,
                    ).contains(record.key.source),
            decreases callers.len() - i,
        {
            let caller: Address = self.callees_by_caller.keys[i];
            proof {
                self.callees_by_caller.lemma_entry(i as int);
            }
            let staged: &StagedCallees = &self.callees_by_caller.values[i];
            let current: Vec<Address> = if staged.base_known_empty {
                Vec::new()
            } else {
                index.callees(caller, None)
            };
            let gone: Vec<Address> = keys_missing(&current, &staged.callees.items);
            let added: Vec<Address> = keys_missing(&staged.callees.items, &current);
            let ghost before = edges@;
            push_changes(&mut edges, caller, &gone, false);
            let ghost middle = edges@;
            push_changes(&mut edges, caller, &added, true);
            proof {
                let base = base_of(self@[caller], index@, caller);
                assert forall|a: Address| #[trigger] current@.contains(a) <==> base.contains(a) by {}
                let later = edges@;
                assert forall|k: int|
                    0 <= k < before.len() implies exists|m: int|
                        0 <= m < i + 1 && (#[trigger] later[k]).key.source == #[trigger] callers[m] by {
                    assert(later[k] == before[k]);
                }
                assert forall|k: int|
                    0 <= k < later.len() implies exists|m: int|
                        0 <= m < i + 1 && (#[trigger] later[k]).key.source == #[trigger] callers[m] by {
                    if k >= before.len() {
                        assert(callers[i as int] == caller);
                    }
                }
                assert forall|k: int, m: int| 0 <= k < m < later.len() implies (#[trigger] later[k]).rank() < (#[trigger] later[m]).rank() by {
                    Address::lemma_rank_fits(later[k].key.target);
                    Address::lemma_rank_fits(later[m].key.target);
                    lemma_address_capacity();
                    if m < before.len() {
                        assert(before[k].rank() < before[m].rank());
                    } else if k < before.len() {
                        assert(later[k] == before[k]);
                        let c = choose|c: int| 0 <= c < i && before[k].key.source == #[trigger] callers[c];
                        assert(callers[c].rank() < callers[i as int].rank());
                    } else if m < middle.len() {
                        assert(gone@[k - before.len()].rank() < gone@[m - before.len()].rank());
                    } else if k >= middle.len() {
                        assert(added@[k - middle.len()].rank() < added@[m - middle.len()].rank());
                    }
                }
                assert forall|record: PreparedCallGraphEdgeRecord| #[trigger]
                    later.contains(record) <==> is_change(self@, index@, record) && callers.take(
                        i + 1,
                    ).contains(record.key.source) by {
                    assert(callers.take(i + 1) =~= callers.take(i as int).push(caller));
                    lemma_push_contains(callers.take(i as int), caller, record.key.source);
                    let target = record.key.target;
                    if record.key.source == caller {
                        assert(self@.contains_key(caller));
                        assert(staged.callees@.contains(target) <==> staged.callees.items@.contains(target));
                        assert(gone@.contains(target) <==> current@.contains(target) && !staged.callees.items@.contains(target));
                        assert(added@.contains(target) <==> staged.callees.items@.contains(target) && !current@.contains(target));
                        if before.contains(record) {
                            let k = before.index_of(record);
                            let c = choose|c: int| 0 <= c < i && before[k].key.source == #[trigger] callers[c];
                            assert(callers[c].rank() < callers[i as int].rank());
                            assert(false);
                        }
                    }
                    if before.contains(record) {
                        assert(later[before.index_of(record)] == record);
                    }
                    if record.key.source == caller && !record.present && gone@.contains(target) {
                        let k = gone@.index_of(target);
                        assert(later[before.len() + k] == record);
                    }
                    if record.key.source == caller && record.present && added@.contains(target) {
                        let k = added@.index_of(target);
                        assert(later[middle.len() + k] == record);
                    }
                    if later.contains(record) {
                        let k = later.index_of(record);
                        if k < before.len() {
                            assert(before[k] == record);
                            assert(before.contains(record));
                        } else if k < middle.len() {
                            assert(gone@[k - before.len()] == target);
                            assert(gone@.contains(target));
                        } else {
                            assert(added@[k - middle.len()] == target);
                            assert(added@.contains(target));
                        }
                    }
                }
            }
            i = i + 1;
        }
        proof {
            assert(callers.take(i as int) =~= callers);
            assert forall|record: PreparedCallGraphEdgeRecord| #[trigger]
                edges@.contains(record) <==> is_change(self@, index@, record) by {
                if is_change(self@, index@, record) {
                    let k = self.callees_by_caller.lemma_place(record.key.source);
                    assert(callers[k] == record.key.source);
                }
            }
        }
        PreparedCallGraphBatch { edges }
    }
}

/// Adds a change for each callee.
fn push_changes(
    edges: &mut Vec<PreparedCallGraphEdgeRecord>,
    caller: Address,
    callees: &Vec<Address>,
    present: bool,
)
    ensures
        final(edges)@ == old(edges)@ + Seq::new(
            callees@.len(),
            |k: int|
                PreparedCallGraphEdgeRecord {
                    key: CallGraphEdgeKey { source: caller, target: callees@[k] },
                    present,
                },
        ),
{
    let ghost before = edges@;
    let mut i: usize = 0;
    while i < callees.len()
        invariant
            i <= callees@.len(),
            edges@ == before + Seq::new(
                i as nat,
                |k: int|
                    PreparedCallGraphEdgeRecord {
                        key: CallGraphEdgeKey { source: caller, target: callees@[k] },
                        present,
                    },
            ),
        decreases callees@.len() - i,
    {
        edges.push(
            PreparedCallGraphEdgeRecord {
                key: CallGraphEdgeKey::new(caller, callees[i]),
                present,
            },
        );
        i = i + 1;
        assert(edges@ =~= before + Seq::new(
            i as nat,
            |k: int|
                PreparedCallGraphEdgeRecord {
                    key: CallGraphEdgeKey { source: caller, target: callees@[k] },
                    present,
                },
        ));
    }
}

/// What is written of a change where calls are stored: an entry for each end.
#[derive(Debug, Clone, Copy, PartialEq, Eq, Structural)]
pub enum CallGraphWrite {
    Forward { key: CallGraphEdgeKey, present: bool },
    Inverse { key: InverseCallGraphEdgeKey, present: bool },
}

/// The writes of changes, two for each, the caller's end first.
pub open spec fn writes_of(records: Seq<PreparedCallGraphEdgeRecord>) -> Seq<CallGraphWrite> {
    Seq::new(
        (2 * records.len()) as nat,
        |k: int|
            {
                let record = records[k / 2];
                if k % 2 == 0 {
                    CallGraphWrite::Forward { key: record.key, present: record.present }
                } else {
                    CallGraphWrite::Inverse {
                        key: InverseCallGraphEdgeKey {
                            callee: record.key.target,
                            caller: record.key.source,
                        },
                        present: record.present,
                    }
                }
            },
    )
}

/// Changes to calls, ready to be made.
pub struct PreparedCallGraphBatch {
    pub edges: Vec<PreparedCallGraphEdgeRecord>,
}

impl PreparedCallGraphBatch {
    /// Makes the changes.
    pub fn publish(self, index: &mut CallGraphIndex)
        requires
            old(index).wf(),
        ensures
            final(index).wf(),
            final(index)@ == changed(old(index)@, self.edges@),
    {
        let ghost before = index@;
        let mut i: usize = 0;
        assert(self.edges@.take(0) =~= Seq::empty());
        while i < self.edges.len()
            invariant
                i <= self.edges@.len(),
                index.wf(),
                index@ == changed(before, self.edges@.take(i as int)),
            decreases self.edges@.len() - i,
        {
            let edge: PreparedCallGraphEdgeRecord = self.edges[i];
            if edge.present {
                index.insert_edge(edge.key.source, edge.key.target);
            } else {
                index.remove_edge(edge.key.source, edge.key.target);
            }
            assert(self.edges@.take(i + 1).drop_last() =~= self.edges@.take(i as int));
            i = i + 1;
        }
        assert(self.edges@.take(i as int) =~= self.edges@);
    }

    /// What is to be written where calls are stored.
    pub fn writes(&self) -> (writes: Vec<CallGraphWrite>)
        ensures
            writes@ == writes_of(self.edges@),
    {
        let mut writes: Vec<CallGraphWrite> = Vec::new();
        let mut i: usize = 0;
        assert(writes@ =~= writes_of(self.edges@.take(0)));
        while i < self.edges.len()
            invariant
                i <= self.edges@.len(),
                writes@ == writes_of(self.edges@.take(i as int)),
            decreases self.edges@.len() - i,
        {
            let edge: PreparedCallGraphEdgeRecord = self.edges[i];
            writes.push(CallGraphWrite::Forward { key: edge.key, present: edge.present });
            writes.push(
                CallGraphWrite::Inverse {
                    key: InverseCallGraphEdgeKey::new(edge.key.target, edge.key.source),
                    present: edge.present,
                },
            );
            i = i + 1;
            assert(writes@ =~= writes_of(self.edges@.take(i as int)));
        }
        assert(self.edges@.take(i as int) =~= self.edges@);
        writes
    }
}

/// Whether a change stands last of those for a call.
proof fn lemma_changed(
    edges: Set<CallGraphEdgeKey>,
    records: Seq<PreparedCallGraphEdgeRecord>,
    edge: CallGraphEdgeKey,
)
    requires
        forall|i: int, j: int|
            0 <= i < records.len() && 0 <= j < records.len() && (#[trigger] records[i]).key == (
            #[trigger] records[j]).key ==> records[i] == records[j],
    ensures
        changed(edges, records).contains(edge) <==> {
            ||| records.contains(PreparedCallGraphEdgeRecord { key: edge, present: true })
            ||| edges.contains(edge) && !records.contains(
                PreparedCallGraphEdgeRecord { key: edge, present: false },
            )
        },
    decreases records.len(),
{
    if records.len() > 0 {
        let front = records.drop_last();
        let yes = PreparedCallGraphEdgeRecord { key: edge, present: true };
        let no = PreparedCallGraphEdgeRecord { key: edge, present: false };
        assert(records =~= front.push(records.last()));
        lemma_push_contains(front, records.last(), yes);
        lemma_push_contains(front, records.last(), no);
        lemma_changed(edges, front, edge);
        if front.contains(yes) {
            assert(records[front.index_of(yes)] == yes);
        }
        if front.contains(no) {
            assert(records[front.index_of(no)] == no);
        }
    }
}

/// A batch that was prepared leaves each staged function calling what was staged for it, and
/// every other function calling what it called. A function that is said to call nothing yet
/// must call nothing.
pub proof fn law_publishing_sets_callees(
    records: Seq<PreparedCallGraphEdgeRecord>,
    staged: Map<Address, StagedCalleesView>,
    edges: Set<CallGraphEdgeKey>,
    caller: Address,
)
    requires
        lists_changes(records, staged, edges),
        staged.contains_key(caller) && staged[caller].base_known_empty ==> callees_of(edges, caller)
            == Set::<Address>::empty(),
    ensures
        callees_of(changed(edges, records), caller) == if staged.contains_key(caller) {
            staged[caller].callees
        } else {
            callees_of(edges, caller)
        },
{
    assert forall|i: int, j: int|
        0 <= i < records.len() && 0 <= j < records.len() && (#[trigger] records[i]).key == (
        #[trigger] records[j]).key implies records[i] == records[j] by {
        assert(records.contains(records[i]));
        assert(records.contains(records[j]));
    }
    let after = callees_of(changed(edges, records), caller);
    let wanted = if staged.contains_key(caller) {
        staged[caller].callees
    } else {
        callees_of(edges, caller)
    };
    assert forall|callee: Address| #[trigger] after.contains(callee) <==> wanted.contains(callee) by {
        let edge = CallGraphEdgeKey { source: caller, target: callee };
        lemma_changed(edges, records, edge);
        let yes = PreparedCallGraphEdgeRecord { key: edge, present: true };
        let no = PreparedCallGraphEdgeRecord { key: edge, present: false };
        assert(records.contains(yes) <==> is_change(staged, edges, yes));
        assert(records.contains(no) <==> is_change(staged, edges, no));
        assert(edges.contains(edge) <==> callees_of(edges, caller).contains(callee));
    }
    assert(after =~= wanted);
}

/// Setting what one function calls leaves the callees of all others alone, and what it was set
/// to can be read back.
pub proof fn law_set_callees_reads_back(
    edges: Set<CallGraphEdgeKey>,
    caller: Address,
    callees: Set<Address>,
    other: Address,
)
    ensures
        callees_of(recalled(edges, caller, callees), other) == if other == caller {
            callees
        } else {
            callees_of(edges, other)
        },
{
    assert(callees_of(recalled(edges, caller, callees), other) =~= if other == caller {
        callees
    } else {
        callees_of(edges, other)
    });
}

/// A function is among the callers of what it calls and of nothing else.
pub proof fn law_callers_mirror_callees(
    edges: Set<CallGraphEdgeKey>,
    caller: Address,
    callee: Address,
)
    ensures
        callees_of(edges, caller).contains(callee) <==> callers_of(edges, callee).contains(caller),
{
}

/// Whether the functions with other entries are the same as before and call the same.
pub open spec fn others_kept(
    before: Map<FunctionId, FunctionView>,
    before_blocks: Blocks,
    after: Map<FunctionId, FunctionView>,
    after_blocks: Blocks,
    entry: Address,
) -> bool {
    &&& forall|id: FunctionId|
        before.contains_key(id) && before[id].entry != entry ==> #[trigger] after.contains_key(id)
            && after[id].entry == before[id].entry
    &&& forall|id: FunctionId|
        after.contains_key(id) && after[id].entry != entry ==> #[trigger] before.contains_key(id)
            && before[id].entry == after[id].entry
    &&& forall|id: FunctionId, callee: Address|
        before.contains_key(id) && after.contains_key(id) && before[id].entry != entry ==> (
        #[trigger] function_calls(before[id], before_blocks, callee) <==> function_calls(
            after[id],
            after_blocks,
            callee,
        ))
}

/// A graph that holds the calls of all functions holds them again after a function is put in,
/// taken out or given another body and what its entry calls is set anew: nothing needs to be
/// built from scratch.
pub proof fn law_maintained_graph_stays_current(
    before: Map<FunctionId, FunctionView>,
    before_blocks: Blocks,
    after: Map<FunctionId, FunctionView>,
    after_blocks: Blocks,
    entry: Address,
    callees: Set<Address>,
)
    requires
        others_kept(before, before_blocks, after, after_blocks, entry),
        forall|callee: Address| #[trigger]
            callees.contains(callee) <==> function_makes(
                after,
                after_blocks,
                CallGraphEdgeKey { source: entry, target: callee },
            ),
    ensures
        recalled(calls_made(before, before_blocks), entry, callees) == calls_made(
            after,
            after_blocks,
        ),
{
    let maintained = recalled(calls_made(before, before_blocks), entry, callees);
    let current = calls_made(after, after_blocks);
    assert forall|edge: CallGraphEdgeKey| #[trigger] maintained.contains(edge)
        <==> current.contains(edge) by {
        if edge.source == entry {
            assert(edge == CallGraphEdgeKey { source: entry, target: edge.target });
            assert(callees.contains(edge.target) <==> function_makes(after, after_blocks, edge));
        } else {
            if function_makes(before, before_blocks, edge) {
                let id = choose|id: FunctionId| #[trigger]
                    before.contains_key(id) && before[id].entry == edge.source && function_calls(
                        before[id],
                        before_blocks,
                        edge.target,
                    );
                assert(after.contains_key(id));
                assert(function_makes(after, after_blocks, edge));
            }
            if function_makes(after, after_blocks, edge) {
                let id = choose|id: FunctionId| #[trigger]
                    after.contains_key(id) && after[id].entry == edge.source && function_calls(
                        after[id],
                        after_blocks,
                        edge.target,
                    );
                assert(before.contains_key(id));
                assert(function_calls(before[id], before_blocks, edge.target));
                assert(function_makes(before, before_blocks, edge));
            }
        }
    }
    assert(maintained =~= current);
}

/// A prepared change of calls changes something: a call that is to come to be is not there yet,
/// and one that is to cease is there, as far as the function is not said to call nothing yet.
pub proof fn law_prepared_calls_are_needed(
    records: Seq<PreparedCallGraphEdgeRecord>,
    staged: Map<Address, StagedCalleesView>,
    edges: Set<CallGraphEdgeKey>,
    i: int,
)
    requires
        lists_changes(records, staged, edges),
        0 <= i < records.len(),
        forall|caller: Address| #[trigger]
            staged.contains_key(caller) && staged[caller].base_known_empty ==> callees_of(
                edges,
                caller,
            ) == Set::<Address>::empty(),
    ensures
        staged.contains_key(records[i].key.source),
        records[i].present != edges.contains(records[i].key),
        records[i].present == staged[records[i].key.source].callees.contains(records[i].key.target),
{
    let record = records[i];
    let caller = record.key.source;
    assert(records.contains(record));
    assert(record.key == CallGraphEdgeKey { source: caller, target: record.key.target });
    assert(callees_of(edges, caller).contains(record.key.target) <==> edges.contains(record.key));
    if staged[caller].base_known_empty {
        assert(callees_of(edges, caller) == Set::<Address>::empty());
    }
}

/// What is written of changes of calls is one entry at each end of each, that the call is there
/// or is not any more.
pub proof fn law_calls_are_written_at_both_ends(
    records: Seq<PreparedCallGraphEdgeRecord>,
    key: CallGraphEdgeKey,
    present: bool,
)
    ensures
        writes_of(records).len() == 2 * records.len(),
        writes_of(records).contains(CallGraphWrite::Forward { key, present }) <==> records.contains(
            PreparedCallGraphEdgeRecord { key, present },
        ),
        writes_of(records).contains(
            CallGraphWrite::Inverse {
                key: InverseCallGraphEdgeKey { callee: key.target, caller: key.source },
                present,
            },
        ) <==> records.contains(PreparedCallGraphEdgeRecord { key, present }),
{
    let writes = writes_of(records);
    let record = PreparedCallGraphEdgeRecord { key, present };
    let forward = CallGraphWrite::Forward { key, present };
    let inverse = CallGraphWrite::Inverse {
        key: InverseCallGraphEdgeKey { callee: key.target, caller: key.source },
        present,
    };
    if records.contains(record) {
        let i = records.index_of(record);
        assert(writes[2 * i] == forward);
        assert((2 * i + 1) / 2 == i && (2 * i + 1) % 2 == 1);
        assert(writes[2 * i + 1] == inverse);
    }
    if writes.contains(forward) {
        let k = writes.index_of(forward);
        assert(records[k / 2] == record);
    }
    if writes.contains(inverse) {
        let k = writes.index_of(inverse);
        assert(records[k / 2] == record);
    }
}

} // verus!
