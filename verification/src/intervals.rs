//! Sets of block identities found by interval, in the interval map of the `iset` crate.
use iset::IntervalMap;
use vstd::prelude::*;

use crate::block::{CodeBlockEntity, CodeBlockId};
use crate::id::IdSet;

verus! {

/// A map from intervals to sets of block identities. An interval is told by its first number
/// and the first one behind it.
#[verifier::external_body]
pub struct IntervalIds {
    map: IntervalMap<u128, IdSet<CodeBlockEntity>, u64>,
}

/// The intervals of a map, and the identities under each.
pub uninterp spec fn interval_ids(map: IntervalIds) -> Map<(u128, u128), Set<CodeBlockId>>;

impl View for IntervalIds {
    type V = Map<(u128, u128), Set<CodeBlockId>>;

    open spec fn view(&self) -> Map<(u128, u128), Set<CodeBlockId>> {
        interval_ids(*self)
    }
}

/// Whether one interval comes before another: by its beginning, then by its end.
pub open spec fn interval_before(a: (u128, u128), b: (u128, u128)) -> bool {
    a.0 < b.0 || (a.0 == b.0 && a.1 < b.1)
}

/// Whether two intervals share a number.
pub open spec fn intervals_meet(a: (u128, u128), b: (u128, u128)) -> bool {
    a.0 < b.1 && b.0 < a.1
}

/// `IntervalMap::default` makes an empty map. With indices of 64 bits a map has room for
/// anything that fits in memory.
#[verifier::external_body]
pub(crate) fn intervals_new() -> (map: IntervalIds)
    ensures
        interval_ids(map) == (Map::<(u128, u128), Set<CodeBlockId>>::empty()),
{
    IntervalIds { map: IntervalMap::default() }
}

/// `IntervalMap::is_empty` says whether there is no interval.
#[verifier::external_body]
pub(crate) fn intervals_is_empty(map: &IntervalIds) -> (empty: bool)
    ensures
        empty == (interval_ids(*map) == (Map::<(u128, u128), Set<CodeBlockId>>::empty())),
{
    map.map.is_empty()
}

/// `IntervalMap::get` finds what is under exactly this interval. It wants an interval with at
/// least one number.
#[verifier::external_body]
pub(crate) fn intervals_get(map: &IntervalIds, start: u128, end: u128) -> (ids: Option<
    &IdSet<CodeBlockEntity>,
>)
    requires
        start < end,
    ensures
        ids is Some == interval_ids(*map).contains_key((start, end)),
        ids matches Some(i) ==> i@ == interval_ids(*map)[(start, end)],
{
    map.map.get(start..end)
}

/// `IntervalMap::insert` puts a set under an interval and gives back what was there. It wants
/// an interval with at least one number.
#[verifier::external_body]
pub(crate) fn intervals_insert(
    map: &mut IntervalIds,
    start: u128,
    end: u128,
    ids: IdSet<CodeBlockEntity>,
) -> (previous: Option<IdSet<CodeBlockEntity>>)
    requires
        start < end,
    ensures
        interval_ids(*final(map)) == interval_ids(*old(map)).insert((start, end), ids@),
        previous is Some == interval_ids(*old(map)).contains_key((start, end)),
        previous matches Some(i) ==> i@ == interval_ids(*old(map))[(start, end)],
{
    map.map.insert(start..end, ids)
}

/// `IntervalMap::remove` takes out exactly this interval and what is under it. It wants an
/// interval with at least one number.
#[verifier::external_body]
pub(crate) fn intervals_remove(map: &mut IntervalIds, start: u128, end: u128) -> (previous: Option<
    IdSet<CodeBlockEntity>,
>)
    requires
        start < end,
    ensures
        interval_ids(*final(map)) == interval_ids(*old(map)).remove((start, end)),
        previous is Some == interval_ids(*old(map)).contains_key((start, end)),
        previous matches Some(i) ==> i@ == interval_ids(*old(map))[(start, end)],
{
    map.map.remove(start..end)
}

/// Whether an interval of a map shares a number with the given one.
pub open spec fn meets_some(map: Map<(u128, u128), Set<CodeBlockId>>, query: (u128, u128)) -> bool {
    exists|key: (u128, u128)| #[trigger] map.contains_key(key) && intervals_meet(key, query)
}

/// `IntervalMap::has_overlap` says whether an interval of the map shares a number with the
/// given one. It wants an interval with at least one number.
#[verifier::external_body]
pub(crate) fn intervals_overlap(map: &IntervalIds, start: u128, end: u128) -> (found: bool)
    requires
        start < end,
    ensures
        found == meets_some(interval_ids(*map), (start, end)),
{
    map.map.has_overlap(start..end)
}

/// Whether a list gives those intervals of a map that share a number with the given one, in
/// their order, and what is under each.
pub open spec fn lists_overlaps(
    list: Seq<(u128, u128, &IdSet<CodeBlockEntity>)>,
    map: Map<(u128, u128), Set<CodeBlockId>>,
    query: (u128, u128),
) -> bool {
    &&& forall|i: int, j: int|
        0 <= i < j < list.len() ==> interval_before(
            ((#[trigger] list[i]).0, list[i].1),
            ((#[trigger] list[j]).0, list[j].1),
        )
    &&& forall|i: int|
        0 <= i < list.len() ==> map.contains_key(((#[trigger] list[i]).0, list[i].1))
            && list[i].2@ == map[(list[i].0, list[i].1)] && intervals_meet(
            (list[i].0, list[i].1),
            query,
        )
    &&& forall|key: (u128, u128)| #[trigger]
        map.contains_key(key) && intervals_meet(key, query) ==> exists|i: int|
            0 <= i < list.len() && ((#[trigger] list[i]).0, list[i].1) == key
}

/// `IntervalMap::iter` gives the intervals that share a number with the given one, sorted, and
/// what is under each. It wants an interval with at least one number.
#[verifier::external_body]
pub(crate) fn intervals_over(map: &IntervalIds, start: u128, end: u128) -> (list: Vec<
    (u128, u128, &IdSet<CodeBlockEntity>),
>)
    requires
        start < end,
    ensures
        lists_overlaps(list@, interval_ids(*map), (start, end)),
{
    map.map.iter(start..end).map(|(range, ids)| (range.start, range.end, ids)).collect()
}

/// Whether a map holds just the listed intervals, each with what stands beside it.
pub open spec fn holds_listed(
    map: Map<(u128, u128), Set<CodeBlockId>>,
    list: Seq<(u128, u128, IdSet<CodeBlockEntity>)>,
) -> bool {
    &&& forall|i: int|
        0 <= i < list.len() ==> map.contains_key(((#[trigger] list[i]).0, list[i].1))
            && map[(list[i].0, list[i].1)] == list[i].2@
    &&& forall|key: (u128, u128)| #[trigger]
        map.contains_key(key) ==> exists|i: int|
            0 <= i < list.len() && ((#[trigger] list[i]).0, list[i].1) == key
}

/// Whether the listed intervals have numbers and stand in their order.
pub open spec fn intervals_sorted(list: Seq<(u128, u128, IdSet<CodeBlockEntity>)>) -> bool {
    &&& forall|i: int| 0 <= i < list.len() ==> (#[trigger] list[i]).0 < list[i].1
    &&& forall|i: int, j: int|
        0 <= i < j < list.len() ==> interval_before(
            ((#[trigger] list[i]).0, list[i].1),
            ((#[trigger] list[j]).0, list[j].1),
        )
}

/// `IntervalMap::from_sorted` makes a map of the listed intervals. It wants them sorted, and
/// each with at least one number.
#[verifier::external_body]
pub(crate) fn intervals_from_sorted(list: Vec<(u128, u128, IdSet<CodeBlockEntity>)>) -> (map:
    IntervalIds)
    requires
        intervals_sorted(list@),
    ensures
        holds_listed(interval_ids(map), list@),
{
    let sorted = list.into_iter().map(|(start, end, ids)| (start..end, ids));
    IntervalIds { map: IntervalMap::from_sorted(sorted) }
}

} // verus!
