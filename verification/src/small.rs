//! Short lists of numbers and bytes that need no allocation, from the `smallvec` crate.
use smallvec::SmallVec;
use vstd::prelude::*;

verus! {

/// A list of numbers, kept in place while there are at most two.
#[verifier::external_body]
pub struct SmallKeys {
    keys: SmallVec<[u64; 2]>,
}

/// The numbers of a list.
pub uninterp spec fn small_keys(list: SmallKeys) -> Seq<u64>;

impl View for SmallKeys {
    type V = Seq<u64>;

    open spec fn view(&self) -> Seq<u64> {
        small_keys(*self)
    }
}

/// `SmallVec::new` makes an empty list.
#[verifier::external_body]
pub(crate) fn small_new() -> (list: SmallKeys)
    ensures
        small_keys(list) == Seq::<u64>::empty(),
{
    SmallKeys { keys: SmallVec::new() }
}

/// `SmallVec::push` adds a number at the end.
#[verifier::external_body]
pub(crate) fn small_push(list: &mut SmallKeys, key: u64)
    ensures
        small_keys(*final(list)) == small_keys(*old(list)).push(key),
{
    list.keys.push(key)
}

/// `SmallVec::len` counts the numbers.
#[verifier::external_body]
pub(crate) fn small_len(list: &SmallKeys) -> (len: usize)
    ensures
        len == small_keys(*list).len(),
{
    list.keys.len()
}

/// Indexing a `SmallVec` gives the number at a place.
#[verifier::external_body]
pub(crate) fn small_at(list: &SmallKeys, at: usize) -> (key: u64)
    requires
        at < small_keys(*list).len(),
    ensures
        key == small_keys(*list)[at as int],
{
    list.keys[at]
}

/// `SmallVec::remove` takes out the number at a place and moves up those behind it.
#[verifier::external_body]
pub(crate) fn small_remove(list: &mut SmallKeys, at: usize) -> (key: u64)
    requires
        at < small_keys(*old(list)).len(),
    ensures
        key == small_keys(*old(list))[at as int],
        small_keys(*final(list)) == small_keys(*old(list)).remove(at as int),
{
    list.keys.remove(at)
}

/// A list of bytes, kept in place while there are at most sixteen.
#[verifier::external_body]
pub struct SmallBytes {
    bytes: SmallVec<[u8; 16]>,
}

/// The bytes of a list.
pub uninterp spec fn small_bytes(list: SmallBytes) -> Seq<u8>;

impl View for SmallBytes {
    type V = Seq<u8>;

    open spec fn view(&self) -> Seq<u8> {
        small_bytes(*self)
    }
}

/// `SmallVec::from_slice` makes a list of the bytes of a slice.
#[verifier::external_body]
pub(crate) fn small_from_slice(bytes: &[u8]) -> (list: SmallBytes)
    ensures
        small_bytes(list) == bytes@,
{
    SmallBytes { bytes: SmallVec::from_slice(bytes) }
}

/// `SmallVec::as_slice` gives the bytes as a slice.
#[verifier::external_body]
pub(crate) fn small_as_slice(list: &SmallBytes) -> (bytes: &[u8])
    ensures
        bytes@ == small_bytes(*list),
{
    list.bytes.as_slice()
}

} // verus!
