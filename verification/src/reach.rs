//! Which blocks can be reached from which.
use vstd::prelude::*;

use crate::block::{CodeBlockEntity, CodeBlockId};
use crate::fx_ids::FxIdSet;
use crate::id::Id;
use crate::order::{ascending, Ranked};
use crate::address::Address;

verus! {

/// How many identities there are.
pub open spec fn identities() -> int {
    0x1_0000_0000_0000_0000
}

/// Edges are ordered by where they come from, then by where they go.
impl<T> Ranked for (Id<T>, Id<T>) {
    open spec fn rank(self) -> int {
        self.0.rank() * identities() + self.1.rank()
    }

    proof fn lemma_rank_injective(a: Self, b: Self) {
        Id::lemma_rank_injective(a.0, b.0);
        Id::lemma_rank_injective(a.1, b.1);
    }

    fn precedes(&self, other: &Self) -> (before: bool) {
        self.0.precedes(&other.0) || (!other.0.precedes(&self.0) && self.1.precedes(&other.1))
    }
}

/// Blocks at addresses are ordered by address, then by identity.
impl<T> Ranked for (Address, Id<T>) {
    open spec fn rank(self) -> int {
        self.0.rank() * identities() + self.1.rank()
    }

    proof fn lemma_rank_injective(a: Self, b: Self) {
        Address::lemma_rank_injective(a.0, b.0);
        Id::lemma_rank_injective(a.1, b.1);
    }

    fn precedes(&self, other: &Self) -> (before: bool) {
        self.0.precedes(&other.0) || (!other.0.precedes(&self.0) && self.1.precedes(&other.1))
    }
}

/// Whether a path leads along edges and nowhere over a boundary.
pub open spec fn is_path(
    edges: Seq<(CodeBlockId, CodeBlockId)>,
    boundary: CodeBlockId,
    path: Seq<CodeBlockId>,
) -> bool {
    &&& path.len() > 0
    &&& forall|i: int| 0 <= i < path.len() ==> #[trigger] path[i] != boundary
    &&& forall|i: int|
        0 <= i < path.len() - 1 ==> edges.contains((#[trigger] path[i], path[i + 1]))
}

/// Whether a block can be reached from an entry without going over a boundary.
pub open spec fn reachable(
    edges: Seq<(CodeBlockId, CodeBlockId)>,
    entry: CodeBlockId,
    boundary: CodeBlockId,
    block: CodeBlockId,
) -> bool {
    exists|path: Seq<CodeBlockId>| #[trigger]
        is_path(edges, boundary, path) && path.first() == entry && path.last() == block
}

/// One more step along an edge.
pub proof fn lemma_step(
    edges: Seq<(CodeBlockId, CodeBlockId)>,
    entry: CodeBlockId,
    boundary: CodeBlockId,
    block: CodeBlockId,
    next: CodeBlockId,
)
    requires
        reachable(edges, entry, boundary, block),
        edges.contains((block, next)),
        next != boundary,
    ensures
        reachable(edges, entry, boundary, next),
{
    let path = choose|path: Seq<CodeBlockId>| #[trigger]
        is_path(edges, boundary, path) && path.first() == entry && path.last() == block;
    let longer = path.push(next);
    assert forall|i: int| 0 <= i < longer.len() - 1 implies edges.contains(
        (#[trigger] longer[i], longer[i + 1]),
    ) by {
        if i < path.len() - 1 {
            assert(edges.contains((path[i], path[i + 1])));
        }
    }
    assert(is_path(edges, boundary, longer));
    assert(longer.first() == entry);
    assert(longer.last() == next);
}

/// The entry can be reached.
pub proof fn lemma_start(
    edges: Seq<(CodeBlockId, CodeBlockId)>,
    entry: CodeBlockId,
    boundary: CodeBlockId,
)
    requires
        entry != boundary,
    ensures
        reachable(edges, entry, boundary, entry),
{
    let path = seq![entry];
    assert(is_path(edges, boundary, path));
    assert(path.first() == entry);
    assert(path.last() == entry);
}

/// A set that has the entry and everything one step on from it has all that can be reached.
pub proof fn lemma_closed(
    edges: Seq<(CodeBlockId, CodeBlockId)>,
    entry: CodeBlockId,
    boundary: CodeBlockId,
    set: Set<CodeBlockId>,
    path: Seq<CodeBlockId>,
    at: int,
)
    requires
        is_path(edges, boundary, path),
        path.first() == entry,
        0 <= at < path.len(),
        entry == boundary || set.contains(entry),
        forall|a: CodeBlockId, b: CodeBlockId|
            set.contains(a) && #[trigger] edges.contains((a, b)) && b != boundary ==> set.contains(b),
    ensures
        set.contains(path[at]),
    decreases at,
{
    assert(path[0] != boundary);
    if at > 0 {
        lemma_closed(edges, entry, boundary, set, path, at - 1);
        assert(edges.contains((path[at - 1], path[at - 1 + 1])));
        assert(path[at] != boundary);
    }
}

/// The first edge of a block, or where it would stand.
pub fn first_edge(edges: &Vec<(CodeBlockId, CodeBlockId)>, block: CodeBlockId) -> (at: usize)
    requires
        ascending(edges@),
    ensures
        at <= edges@.len(),
        forall|i: int| 0 <= i < at ==> (#[trigger] edges@[i]).0.rank() < block.rank(),
        forall|i: int| at <= i < edges@.len() ==> block.rank() <= (#[trigger] edges@[i]).0.rank(),
{
    let mut low: usize = 0;
    let mut high: usize = edges.len();
    while low < high
        invariant
            low <= high <= edges@.len(),
            ascending(edges@),
            forall|i: int| 0 <= i < low ==> (#[trigger] edges@[i]).0.rank() < block.rank(),
            forall|i: int|
                high <= i < edges@.len() ==> block.rank() <= (#[trigger] edges@[i]).0.rank(),
        decreases high - low,
    {
        let middle: usize = low + (high - low) / 2;
        proof {
            assert forall|i: int| 0 <= i < middle implies (#[trigger] edges@[i]).0.rank()
                <= edges@[middle as int].0.rank() by {
                assert(edges@[i].rank() < edges@[middle as int].rank());
            }
            assert forall|i: int| middle < i < edges@.len() implies edges@[middle as int].0.rank()
                <= (#[trigger] edges@[i]).0.rank() by {
                assert(edges@[middle as int].rank() < edges@[i].rank());
            }
        }
        if edges[middle].0.precedes(&block) {
            low = middle + 1;
        } else {
            high = middle;
        }
    }
    low
}

/// Where the edges of a block go, in the order of the identities.
pub fn edge_targets(edges: &Vec<(CodeBlockId, CodeBlockId)>, block: CodeBlockId) -> (targets: Vec<
    CodeBlockId,
>)
    requires
        ascending(edges@),
    ensures
        ascending(targets@),
        forall|to: CodeBlockId| #[trigger] targets@.contains(to) <==> edges@.contains((block, to)),
{
    let start: usize = first_edge(edges, block);
    let mut targets: Vec<CodeBlockId> = Vec::new();
    let mut at: usize = start;
    while at < edges.len() && edges[at].0 == block
        invariant
            start <= at <= edges@.len(),
            ascending(edges@),
            targets@.len() == at - start,
            forall|i: int|
                0 <= i < targets@.len() ==> edges@[start + i] == (block, #[trigger] targets@[i]),
        ensures
            start <= at <= edges@.len(),
            targets@.len() == at - start,
            forall|i: int|
                0 <= i < targets@.len() ==> edges@[start + i] == (block, #[trigger] targets@[i]),
            at == edges@.len() || edges@[at as int].0 != block,
        decreases edges@.len() - at,
    {
        targets.push(edges[at].1);
        at = at + 1;
    }
    proof {
        assert forall|i: int, j: int| 0 <= i < j < targets@.len() implies (#[trigger]
        targets@[i]).rank() < (#[trigger] targets@[j]).rank() by {
            assert(edges@[start + i].rank() < edges@[start + j].rank());
        }
        assert forall|to: CodeBlockId| #[trigger]
            targets@.contains(to) <==> edges@.contains((block, to)) by {
            if targets@.contains(to) {
                let i = targets@.index_of(to);
                assert(edges@[start + i] == (block, to));
            }
            if edges@.contains((block, to)) {
                let i = edges@.index_of((block, to));
                assert(edges@[i] == (block, to));
                if i >= at {
                    if at < edges@.len() && edges@[at as int].0 != block {
                        if i > at {
                            assert(edges@[at as int].rank() < edges@[i].rank());
                        }
                        if edges@[at as int].0.rank() == block.rank() {
                            Id::lemma_rank_injective(edges@[at as int].0, block);
                        }
                    }
                }
                assert(start <= i < at);
                assert(edges@[start + (i - start)] == (block, targets@[i - start]));
            }
        }
    }
    targets
}

/// What edges can lead to at all.
spec fn ends(edges: Seq<(CodeBlockId, CodeBlockId)>, entry: CodeBlockId) -> Set<CodeBlockId> {
    edges.map_values(|e: (CodeBlockId, CodeBlockId)| e.1).to_set().insert(entry)
}

proof fn lemma_ends(
    edges: Seq<(CodeBlockId, CodeBlockId)>,
    entry: CodeBlockId,
    edge: (CodeBlockId, CodeBlockId),
)
    requires
        edges.contains(edge),
    ensures
        ends(edges, entry).contains(edge.1),
{
    let targets = edges.map_values(|e: (CodeBlockId, CodeBlockId)| e.1);
    let i = edges.index_of(edge);
    assert(targets[i] == edge.1);
    assert(targets.contains(edge.1));
}

/// The blocks that can be reached from an entry without going over a boundary.
pub fn reachable_blocks(
    edges: &Vec<(CodeBlockId, CodeBlockId)>,
    entry: CodeBlockId,
    boundary: CodeBlockId,
) -> (found: FxIdSet<CodeBlockEntity>)
    requires
        ascending(edges@),
    ensures
        forall|block: CodeBlockId| #[trigger]
            found@.contains(block) <==> reachable(edges@, entry, boundary, block),
{
    let mut found: FxIdSet<CodeBlockEntity> = FxIdSet::new();
    let mut pending: Vec<CodeBlockId> = Vec::new();
    pending.push(entry);
    let ghost all = ends(edges@, entry);
    proof {
        assert(pending@[0] == entry);
        assert(pending@.contains(entry));
        assert(all.finite());
        if entry != boundary {
            lemma_start(edges@, entry, boundary);
        }
    }
    while pending.len() > 0
        invariant
            ascending(edges@),
            all == ends(edges@, entry),
            all.finite(),
            searched(edges@, entry, boundary, found@, pending@),
        decreases all.difference(found@).len(), pending@.len(),
    {
        let ghost (found0, pending0) = (found@, pending@);
        let block: CodeBlockId = match pending.pop() {
            Some(block) => block,
            None => {
                return found;
            },
        };
        if block == boundary {
            proof {
                lemma_passed(edges@, entry, boundary, found0, pending0);
            }
            continue ;
        }
        if !found.insert(block) {
            proof {
                assert(found@ =~= found0);
                lemma_passed(edges@, entry, boundary, found0, pending0);
            }
            continue ;
        }
        let next: Vec<CodeBlockId> = edge_targets(edges, block);
        let ghost left = pending@;
        let mut i: usize = 0;
        while i < next.len()
            invariant
                i <= next@.len(),
                pending@ == left + next@.take(i as int),
            decreases next@.len() - i,
        {
            pending.push(next[i]);
            i = i + 1;
            assert(pending@ =~= left + next@.take(i as int));
        }
        proof {
            assert(next@.take(i as int) =~= next@);
            lemma_visited(edges@, entry, boundary, found0, pending0, next@);
            assert(all.difference(found@) =~= all.difference(found0).remove(block));
            assert(pending0[pending0.len() - 1] == block);
            assert(all.difference(found0).contains(block));
        }
    }
    proof {
        assert forall|block: CodeBlockId| #[trigger]
            reachable(edges@, entry, boundary, block) implies found@.contains(block) by {
            let path = choose|path: Seq<CodeBlockId>| #[trigger]
                is_path(edges@, boundary, path) && path.first() == entry && path.last() == block;
            assert(!pending@.contains(entry));
            assert forall|a: CodeBlockId, b: CodeBlockId|
                found@.contains(a) && #[trigger] edges@.contains((a, b)) && b
                    != boundary implies found@.contains(b) by {
                assert(!pending@.contains(b));
            }
            lemma_closed(edges@, entry, boundary, found@, path, path.len() - 1);
        }
    }
    found
}

/// How far a search has come: what was found can be reached, and whatever is one step on from
/// it was found or is pending.
spec fn searched(
    edges: Seq<(CodeBlockId, CodeBlockId)>,
    entry: CodeBlockId,
    boundary: CodeBlockId,
    found: Set<CodeBlockId>,
    pending: Seq<CodeBlockId>,
) -> bool {
    &&& found.subset_of(ends(edges, entry))
    &&& forall|i: int|
        0 <= i < pending.len() ==> ends(edges, entry).contains(#[trigger] pending[i]) && (
        pending[i] == boundary || reachable(edges, entry, boundary, pending[i]))
    &&& forall|block: CodeBlockId| #[trigger]
        found.contains(block) ==> reachable(edges, entry, boundary, block)
    &&& entry == boundary || found.contains(entry) || pending.contains(entry)
    &&& forall|a: CodeBlockId, b: CodeBlockId|
        found.contains(a) && #[trigger] edges.contains((a, b)) ==> b == boundary
            || found.contains(b) || pending.contains(b)
}

/// A pending block that is the boundary or was found before needs no visit.
proof fn lemma_passed(
    edges: Seq<(CodeBlockId, CodeBlockId)>,
    entry: CodeBlockId,
    boundary: CodeBlockId,
    found: Set<CodeBlockId>,
    pending: Seq<CodeBlockId>,
)
    requires
        searched(edges, entry, boundary, found, pending),
        pending.len() > 0,
        pending.last() == boundary || found.contains(pending.last()),
    ensures
        searched(edges, entry, boundary, found, pending.drop_last()),
{
    let left = pending.drop_last();
    assert forall|b: CodeBlockId| pending.contains(b) && b != pending.last() implies #[trigger]
    left.contains(b) by {
        let i = pending.index_of(b);
        assert(left[i] == b);
    }
    assert forall|a: CodeBlockId, b: CodeBlockId|
        found.contains(a) && #[trigger] edges.contains((a, b)) implies b == boundary
        || found.contains(b) || left.contains(b) by {
        if pending.contains(b) && b != pending.last() {
            assert(left.contains(b));
        }
    }
    if pending.contains(entry) && entry != pending.last() {
        assert(left.contains(entry));
    }
    assert forall|i: int| 0 <= i < left.len() implies ends(edges, entry).contains(
        #[trigger] left[i],
    ) && (left[i] == boundary || reachable(edges, entry, boundary, left[i])) by {
        assert(left[i] == pending[i]);
    }
}

/// Visiting a pending block finds it and makes whatever is one step on from it pending.
proof fn lemma_visited(
    edges: Seq<(CodeBlockId, CodeBlockId)>,
    entry: CodeBlockId,
    boundary: CodeBlockId,
    found: Set<CodeBlockId>,
    pending: Seq<CodeBlockId>,
    next: Seq<CodeBlockId>,
)
    requires
        searched(edges, entry, boundary, found, pending),
        pending.len() > 0,
        pending.last() != boundary,
        forall|to: CodeBlockId| #[trigger]
            next.contains(to) <==> edges.contains((pending.last(), to)),
    ensures
        searched(
            edges,
            entry,
            boundary,
            found.insert(pending.last()),
            pending.drop_last() + next,
        ),
        reachable(edges, entry, boundary, pending.last()),
{
    let block = pending.last();
    let left = pending.drop_last();
    let (found1, pending1) = (found.insert(block), left + next);
    assert(pending[pending.len() - 1] == block);
    assert forall|b: CodeBlockId| pending.contains(b) && b != block implies #[trigger]
    pending1.contains(b) by {
        let i = pending.index_of(b);
        assert(pending1[i] == b);
    }
    assert forall|b: CodeBlockId| next.contains(b) implies #[trigger] pending1.contains(b) by {
        let i = next.index_of(b);
        assert(pending1[left.len() + i] == b);
    }
    assert forall|i: int| 0 <= i < pending1.len() implies ends(edges, entry).contains(
        #[trigger] pending1[i],
    ) && (pending1[i] == boundary || reachable(edges, entry, boundary, pending1[i])) by {
        if i < left.len() {
            assert(pending1[i] == pending[i]);
        } else {
            let to = next[i - left.len()];
            assert(pending1[i] == to);
            assert(next.contains(to));
            lemma_ends(edges, entry, (block, to));
            if to != boundary {
                lemma_step(edges, entry, boundary, block, to);
            }
        }
    }
    assert forall|a: CodeBlockId, b: CodeBlockId|
        found1.contains(a) && #[trigger] edges.contains((a, b)) implies b == boundary
        || found1.contains(b) || pending1.contains(b) by {
        if a == block {
            assert(next.contains(b));
            assert(pending1.contains(b));
        } else {
            assert(found.contains(a));
            if pending.contains(b) && b != block {
                assert(pending1.contains(b));
            }
        }
    }
    if pending.contains(entry) && entry != block {
        assert(pending1.contains(entry));
    }
}

} // verus!
