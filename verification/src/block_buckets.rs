//! The stored index of code blocks: by where they begin, and by size so that the blocks around
//! an address are found by looking back no further than they can reach.
use vstd::arithmetic::power2::{lemma2_to64, lemma_pow2_pos, lemma_pow2_unfold, pow2};
use vstd::prelude::*;

use crate::address::{offsets, Address, AddressRange, RawAddress};
use crate::block::CodeBlockId;
use crate::codec::{be, capacity, lemma_be_pair, lemma_take_parts, lemma_value_be, put_be, take_be, KeyCodec};
use crate::id::Id;
use crate::order::{ascending, keys_between, KeyBound, Ranked, SortedMap, SortedSet};
use crate::reference::lemma_pair_parts;
use crate::types::AddressSpaceId;

verus! {

/// Whether a range is one that a block can have.
pub open spec fn block_sized(range: AddressRange) -> bool {
    range.start.0 <= range.end.0 && range.end.0 - range.start.0 + 1 <= u16::MAX
}

/// How many addresses a range has.
pub open spec fn extent(range: AddressRange) -> int {
    range.end.0 - range.start.0 + 1
}

/// Whether blocks of a range belong in a bucket: the bucket is the least whose blocks may be
/// that large, where those of bucket `b` have at most two to the power of `b` addresses.
pub open spec fn in_bucket(range: AddressRange, bucket: CodeBlockSizeBucket) -> bool {
    &&& bucket.0 <= 16
    &&& extent(range) <= pow2(bucket.0 as nat)
    &&& bucket.0 > 0 ==> pow2((bucket.0 - 1) as nat) < extent(range)
}

/// The bucket of the blocks of a range.
pub open spec fn bucket_of(range: AddressRange) -> CodeBlockSizeBucket {
    choose|bucket: CodeBlockSizeBucket| in_bucket(range, bucket)
}

/// Blocks of similar size.
#[derive(Debug, Clone, Copy, PartialEq, Eq, PartialOrd, Ord, Hash, Structural)]
pub struct CodeBlockSizeBucket(pub u8);

/// Larger powers are larger.
proof fn lemma_pow2_grows(a: nat, b: nat)
    requires
        a <= b,
    ensures
        pow2(a) <= pow2(b),
    decreases b - a,
{
    lemma_pow2_pos(b);
    if a < b {
        lemma_pow2_grows(a, (b - 1) as nat);
        lemma_pow2_unfold(b);
    }
}

/// A range has one bucket.
pub proof fn law_bucket_determined(
    range: AddressRange,
    a: CodeBlockSizeBucket,
    b: CodeBlockSizeBucket,
)
    requires
        in_bucket(range, a),
        in_bucket(range, b),
    ensures
        a == b,
{
    if a.0 < b.0 {
        lemma_pow2_grows(a.0 as nat, (b.0 - 1) as nat);
    } else if b.0 < a.0 {
        lemma_pow2_grows(b.0 as nat, (a.0 - 1) as nat);
    }
}

impl CodeBlockSizeBucket {
    /// The bucket of the blocks of a range.
    pub fn new(range: AddressRange) -> (bucket: Self)
        requires
            block_sized(range),
        ensures
            bucket == bucket_of(range),
            in_bucket(range, bucket),
    {
        let size: u64 = range.size();
        let mut bits: u8 = 0;
        let mut width: u64 = 1;
        proof {
            lemma2_to64();
        }
        while width < size
            invariant
                size == extent(range),
                size <= u16::MAX,
                bits <= 16,
                width == pow2(bits as nat),
                bits > 0 ==> pow2((bits - 1) as nat) < size,
                width <= 0x1_0000,
            decreases 0x1_0000 - width,
        {
            proof {
                lemma2_to64();
                lemma_pow2_unfold((bits + 1) as nat);
                if bits >= 16 {
                    lemma_pow2_grows(16, bits as nat);
                }
                lemma_pow2_grows(bits as nat, 15);
            }
            bits = bits + 1;
            width = width * 2;
        }
        let bucket = CodeBlockSizeBucket(bits);
        proof {
            assert(in_bucket(range, bucket));
            law_bucket_determined(range, bucket, bucket_of(range));
        }
        bucket
    }

    /// Where blocks of the bucket begin at the earliest that reach an address.
    pub fn overlap_search_start(self, address: RawAddress) -> (start: RawAddress)
        requires
            self.0 <= 16,
        ensures
            start.0 == if address.0 >= pow2(self.0 as nat) - 1 {
                address.0 - (pow2(self.0 as nat) - 1)
            } else {
                0
            },
    {
        let mut width: u64 = 1;
        let mut i: u8 = 0;
        proof {
            lemma2_to64();
        }
        while i < self.0
            invariant
                i <= self.0 <= 16,
                width == pow2(i as nat),
                width <= 0x1_0000,
            decreases self.0 - i,
        {
            proof {
                lemma2_to64();
                lemma_pow2_unfold((i + 1) as nat);
                lemma_pow2_grows((i + 1) as nat, 16);
            }
            width = width * 2;
            i = i + 1;
        }
        let back: u64 = width - 1;
        if address.0 >= back {
            RawAddress(address.0 - back)
        } else {
            RawAddress(0)
        }
    }
}

/// A block of a bucket that reaches an address begins where the search for it begins or later.
pub proof fn law_search_reaches_block(range: AddressRange, address: Address, start: RawAddress)
    requires
        block_sized(range),
        in_bucket(range, bucket_of(range)),
        range.holds(address),
        start.0 == if address.address.0 >= pow2(bucket_of(range).0 as nat) - 1 {
            address.address.0 - (pow2(bucket_of(range).0 as nat) - 1)
        } else {
            0
        },
    ensures
        start.0 <= range.start.0 <= address.address.0,
{
}

/// Where a block begins and which one it is.
#[derive(Debug, Clone, Copy)]
pub struct CodeBlockStartKey {
    pub address: Address,
    pub id: CodeBlockId,
}

impl Ranked for CodeBlockStartKey {
    open spec fn rank(self) -> int {
        self.address.rank() * offsets() + self.id.rank()
    }

    proof fn lemma_rank_injective(a: Self, b: Self) {
        lemma_id_fits(a.id);
        lemma_id_fits(b.id);
        Address::lemma_rank_injective(a.address, b.address);
        CodeBlockId::lemma_rank_injective(a.id, b.id);
    }

    fn precedes(&self, other: &Self) -> (before: bool) {
        proof {
            lemma_id_fits(self.id);
            lemma_id_fits(other.id);
        }
        self.address.precedes(&other.address) || (!other.address.precedes(&self.address)
            && self.id.precedes(&other.id))
    }
}

/// The ranks of identities fit eight bytes.
proof fn lemma_id_fits(id: CodeBlockId)
    ensures
        0 <= id.rank() < offsets(),
{
}

/// The bytes of a key are those of its parts.
proof fn lemma_start_key_bytes(key: CodeBlockStartKey)
    ensures
        be(18, key.rank()) == be(10, key.address.rank()) + be(8, key.id.rank()),
{
    lemma_id_fits(key.id);
    reveal_with_fuel(capacity, 9);
    lemma_be_pair(10, 8, key.address.rank(), key.id.rank());
}

impl KeyCodec for CodeBlockStartKey {
    open spec fn width() -> nat {
        18
    }

    proof fn lemma_rank_fits(key: Self) {
        lemma_id_fits(key.id);
        Address::lemma_rank_fits(key.address);
        reveal_with_fuel(capacity, 19);
    }

    fn encode(&self, output: &mut Vec<u8>) {
        let ghost before = output@;
        self.address.encode(output);
        self.id.encode(output);
        proof {
            assert(Self::width() == 18);
            lemma_start_key_bytes(*self);
            assert(output@ =~= before + (be(10, self.address.rank()) + be(8, self.id.rank())));
        }
    }

    fn decode(input: &mut &[u8]) -> (key: Option<Self>) {
        let ghost before = input@;
        let address: Address = match Address::decode(input) {
            Some(address) => address,
            None => {
                proof {
                    assert forall|k: CodeBlockStartKey|
                        before.len() < 18 || #[trigger] be(18, k.rank()) != before.take(18) by {
                        lemma_start_key_bytes(k);
                        if before.len() >= 18 && be(18, k.rank()) == before.take(18) {
                            lemma_pair_parts(10, 8, k.address.rank(), k.id.rank(), before);
                        }
                    }
                }
                return None;
            },
        };
        match CodeBlockId::decode(input) {
            Some(id) => {
                let key = CodeBlockStartKey { address, id };
                proof {
                    lemma_start_key_bytes(key);
                    lemma_take_parts(before, 10, 8);
                }
                Some(key)
            },
            None => {
                proof {
                    assert forall|k: CodeBlockStartKey|
                        before.len() < 18 || #[trigger] be(18, k.rank()) != before.take(18) by {
                        lemma_start_key_bytes(k);
                        if before.len() >= 18 && be(18, k.rank()) == before.take(18) {
                            lemma_pair_parts(10, 8, k.address.rank(), k.id.rank(), before);
                        }
                    }
                }
                None
            },
        }
    }
}

/// A bucket of a space.
#[derive(Debug, Clone, Copy, PartialEq, Eq, Structural)]
pub struct SpaceBucket {
    pub space: AddressSpaceId,
    pub bucket: CodeBlockSizeBucket,
}

impl Ranked for SpaceBucket {
    open spec fn rank(self) -> int {
        self.space.0 * 256 + self.bucket.0
    }

    proof fn lemma_rank_injective(a: Self, b: Self) {
    }

    fn precedes(&self, other: &Self) -> (before: bool) {
        self.space.0 < other.space.0 || (self.space.0 == other.space.0 && self.bucket.0
            < other.bucket.0)
    }
}

/// The space and bucket of a block, where it begins and which one it is.
#[derive(Debug, Clone, Copy)]
pub struct CodeBlockSizeBucketKey {
    pub address: Address,
    pub id: CodeBlockId,
    pub bucket: CodeBlockSizeBucket,
}

impl CodeBlockSizeBucketKey {
    /// The space and the bucket.
    pub open spec fn place(self) -> SpaceBucket {
        SpaceBucket { space: self.address.space, bucket: self.bucket }
    }
}

impl Ranked for CodeBlockSizeBucketKey {
    open spec fn rank(self) -> int {
        (self.place().rank() * offsets() + self.address.address.0) * offsets() + self.id.rank()
    }

    proof fn lemma_rank_injective(a: Self, b: Self) {
        lemma_bucket_key_order(a, b);
        CodeBlockId::lemma_rank_injective(a.id, b.id);
    }

    fn precedes(&self, other: &Self) -> (before: bool) {
        proof {
            lemma_bucket_key_order(*self, *other);
        }
        let a = SpaceBucket { space: self.address.space, bucket: self.bucket };
        let b = SpaceBucket { space: other.address.space, bucket: other.bucket };
        a.precedes(&b) || (!b.precedes(&a) && (self.address.address.0 < other.address.address.0 || (
        self.address.address.0 == other.address.address.0 && self.id.precedes(&other.id))))
    }
}

/// Keys are ordered by space, bucket, beginning and identity.
proof fn lemma_bucket_key_order(a: CodeBlockSizeBucketKey, b: CodeBlockSizeBucketKey)
    ensures
        a.rank() < b.rank() <==> a.place().rank() < b.place().rank() || (a.place().rank()
            == b.place().rank() && (a.address.address.0 < b.address.address.0
            || a.address.address.0 == b.address.address.0 && a.id.rank() < b.id.rank())),
        a.rank() == b.rank() <==> a.place().rank() == b.place().rank() && a.address.address.0
            == b.address.address.0 && a.id.rank() == b.id.rank(),
{
    lemma_id_fits(a.id);
    lemma_id_fits(b.id);
}

/// The bytes of a key are those of its parts.
proof fn lemma_bucket_key_bytes(key: CodeBlockSizeBucketKey)
    ensures
        be(19, key.rank()) == be(3, key.place().rank()) + (be(8, key.address.address.0 as int)
            + be(8, key.id.rank())),
        be(3, key.place().rank()) == be(2, key.address.space.rank()) + be(1, key.bucket.0 as int),
        be(16, key.address.address.0 * offsets() + key.id.rank()) == be(
            8,
            key.address.address.0 as int,
        ) + be(8, key.id.rank()),
        be(19, key.rank()) == be(3, key.place().rank()) + be(
            16,
            key.address.address.0 * offsets() + key.id.rank(),
        ),
{
    lemma_id_fits(key.id);
    reveal_with_fuel(capacity, 17);
    lemma_be_pair(8, 8, key.address.address.0 as int, key.id.rank());
    lemma_be_pair(2, 1, key.address.space.rank(), key.bucket.0 as int);
    let low = key.address.address.0 * offsets() + key.id.rank();
    assert(capacity(16) == offsets() * offsets());
    lemma_be_pair(3, 16, key.place().rank(), low);
    assert(key.rank() == key.place().rank() * capacity(16) + low);
}

impl KeyCodec for CodeBlockSizeBucketKey {
    open spec fn width() -> nat {
        19
    }

    proof fn lemma_rank_fits(key: Self) {
        lemma_id_fits(key.id);
        reveal_with_fuel(capacity, 20);
    }

    fn encode(&self, output: &mut Vec<u8>) {
        let ghost before = output@;
        self.address.space().encode(output);
        put_be(output, 1, self.bucket.0 as u64);
        self.address.raw_address().encode(output);
        self.id.encode(output);
        proof {
            assert(Self::width() == 19);
            lemma_bucket_key_bytes(*self);
            assert(output@ =~= before + be(19, self.rank()));
        }
    }

    fn decode(input: &mut &[u8]) -> (key: Option<Self>) {
        let ghost before = input@;
        if input.len() < 19 {
            return None;
        }
        let space: AddressSpaceId = match AddressSpaceId::decode(input) {
            Some(space) => space,
            None => {
                proof {
                    lemma_no_bucket_key(before);
                }
                return None;
            },
        };
        let ghost after_space = input@;
        let bucket: CodeBlockSizeBucket = match take_be(input, 1) {
            Some(value) => {
                proof {
                    lemma_value_be(after_space.take(1));
                    reveal_with_fuel(capacity, 2);
                }
                CodeBlockSizeBucket(value as u8)
            },
            None => {
                return None;
            },
        };
        let ghost after_bucket = input@;
        let raw: RawAddress = match RawAddress::decode(input) {
            Some(raw) => raw,
            None => {
                proof {
                    assert(after_bucket =~= before.skip(3));
                    lemma_no_bucket_key(before);
                }
                return None;
            },
        };
        let ghost after_raw = input@;
        match CodeBlockId::decode(input) {
            Some(id) => {
                let key = CodeBlockSizeBucketKey {
                    address: Address { space, address: raw },
                    id,
                    bucket,
                };
                proof {
                    lemma_bucket_key_bytes(key);
                    lemma_take_parts(before, 3, 16);
                    lemma_take_parts(before, 2, 1);
                    lemma_take_parts(after_bucket, 8, 8);
                    assert(before.skip(3) =~= after_bucket);
                    assert(before.skip(19) =~= input@);
                    assert(be(2, space.rank()) == before.take(2));
                    assert(be(1, bucket.0 as int) == after_space.take(1));
                    assert(be(8, raw.rank()) == after_bucket.take(8));
                    assert(be(8, id.rank()) == after_bucket.skip(8).take(8));
                    assert(be(19, key.rank()) == before.take(19));
                    assert(Self::width() == 19);
                }
                Some(key)
            },
            None => {
                proof {
                    assert(after_raw =~= before.skip(11));
                    lemma_no_bucket_key(before);
                }
                None
            },
        }
    }
}

/// Bytes of which a part stands for nothing are those of no key.
proof fn lemma_no_bucket_key(bytes: Seq<u8>)
    requires
        bytes.len() >= 19,
        (forall|k: AddressSpaceId|
            bytes.len() < 2 || #[trigger] be(2, k.rank()) != bytes.take(2)) || (forall|
            k: RawAddress,
        |
            bytes.skip(3).len() < 8 || #[trigger] be(8, k.rank()) != bytes.skip(3).take(8)) || (
        forall|k: CodeBlockId|
            bytes.skip(11).len() < 8 || #[trigger] be(8, k.rank()) != bytes.skip(11).take(8)),
    ensures
        forall|k: CodeBlockSizeBucketKey| #[trigger] be(19, k.rank()) != bytes.take(19),
{
    assert forall|k: CodeBlockSizeBucketKey| #[trigger] be(19, k.rank()) != bytes.take(19) by {
        if be(19, k.rank()) == bytes.take(19) {
            lemma_bucket_key_bytes(k);
            lemma_pair_parts(
                3,
                16,
                k.place().rank(),
                k.address.address.0 * offsets() + k.id.rank(),
                bytes,
            );
            let rest = bytes.skip(3);
            assert(rest.take(16) =~= bytes.skip(3).take(16));
            lemma_pair_parts(8, 8, k.address.address.0 as int, k.id.rank(), rest);
            assert(bytes.take(3).take(3) =~= bytes.take(3));
            lemma_pair_parts(2, 1, k.address.space.rank(), k.bucket.0 as int, bytes.take(3));
            assert(bytes.take(3).take(2) =~= bytes.take(2));
            assert(rest.skip(8) =~= bytes.skip(11));
            assert(be(8, k.address.address.rank()) == rest.take(8));
        }
    }
}

/// Which buckets of a space hold blocks, one bit for each.
#[derive(Debug, Clone, Copy, PartialEq, Eq, Structural)]
pub struct CodeBlockSizeBucketsRecord {
    pub bucket_bits: u32,
}

impl CodeBlockSizeBucketsRecord {
    /// Whether a bucket is marked.
    pub open spec fn marks(self, bucket: CodeBlockSizeBucket) -> bool {
        self.bucket_bits & (1u32 << bucket.0) != 0
    }

    /// No bit stands for anything but a bucket.
    pub open spec fn wf(self) -> bool {
        self.bucket_bits < 0x2_0000
    }

    /// A record without marks.
    pub fn empty() -> (record: Self)
        ensures
            record.wf(),
            forall|b: CodeBlockSizeBucket| b.0 <= 16 ==> !#[trigger] record.marks(b),
    {
        let record = CodeBlockSizeBucketsRecord { bucket_bits: 0 };
        proof {
            assert forall|b: CodeBlockSizeBucket| b.0 <= 16 implies !#[trigger] record.marks(b) by {
                let k = b.0;
                assert(0u32 & (1u32 << k) == 0) by (bit_vector);
            }
        }
        record
    }

    pub fn contains(self, bucket: CodeBlockSizeBucket) -> (found: bool)
        requires
            bucket.0 <= 16,
        ensures
            found == self.marks(bucket),
    {
        self.bucket_bits & (1u32 << bucket.0) != 0
    }

    pub fn is_empty(self) -> (empty: bool)
        requires
            self.wf(),
        ensures
            empty == forall|b: CodeBlockSizeBucket| b.0 <= 16 ==> !#[trigger] self.marks(b),
    {
        proof {
            let bits = self.bucket_bits;
            if bits == 0 {
                assert forall|b: CodeBlockSizeBucket| b.0 <= 16 implies !#[trigger] self.marks(
                    b,
                ) by {
                    let k = b.0;
                    assert(0u32 & (1u32 << k) == 0) by (bit_vector);
                }
            } else if forall|b: CodeBlockSizeBucket| b.0 <= 16 ==> !#[trigger] self.marks(b) {
                assert forall|k: u8| k <= 16 implies bits & #[trigger] (1u32 << k) == 0 by {
                    assert(!self.marks(CodeBlockSizeBucket(k)));
                }
                assert(bits == 0) by (bit_vector)
                    requires
                        bits < 0x2_0000,
                        bits & (1u32 << 0u8) == 0,
                        bits & (1u32 << 1u8) == 0,
                        bits & (1u32 << 2u8) == 0,
                        bits & (1u32 << 3u8) == 0,
                        bits & (1u32 << 4u8) == 0,
                        bits & (1u32 << 5u8) == 0,
                        bits & (1u32 << 6u8) == 0,
                        bits & (1u32 << 7u8) == 0,
                        bits & (1u32 << 8u8) == 0,
                        bits & (1u32 << 9u8) == 0,
                        bits & (1u32 << 10u8) == 0,
                        bits & (1u32 << 11u8) == 0,
                        bits & (1u32 << 12u8) == 0,
                        bits & (1u32 << 13u8) == 0,
                        bits & (1u32 << 14u8) == 0,
                        bits & (1u32 << 15u8) == 0,
                        bits & (1u32 << 16u8) == 0,
                ;
            }
        }
        self.bucket_bits == 0
    }

    /// Marks a bucket.
    pub fn insert(&mut self, bucket: CodeBlockSizeBucket)
        requires
            old(self).wf(),
            bucket.0 <= 16,
        ensures
            final(self).wf(),
            forall|b: CodeBlockSizeBucket|
                b.0 <= 16 ==> #[trigger] final(self).marks(b) == (old(self).marks(b) || b == bucket),
    {
        let ghost before = *self;
        self.bucket_bits = self.bucket_bits | (1u32 << bucket.0);
        proof {
            let bits = before.bucket_bits;
            let k = bucket.0;
            assert(bits | (1u32 << k) < 0x2_0000) by (bit_vector)
                requires
                    bits < 0x2_0000,
                    k <= 16,
            ;
            assert forall|b: CodeBlockSizeBucket| b.0 <= 16 implies #[trigger] self.marks(b) == (
            before.marks(b) || b == bucket) by {
                let c = b.0;
                assert(((bits | (1u32 << k)) & (1u32 << c) != 0) == (bits & (1u32 << c) != 0 || c
                    == k)) by (bit_vector)
                    requires
                        k <= 16,
                        c <= 16,
                ;
            }
        }
    }

    /// Takes the mark of a bucket away.
    pub fn remove(&mut self, bucket: CodeBlockSizeBucket)
        requires
            old(self).wf(),
            bucket.0 <= 16,
        ensures
            final(self).wf(),
            forall|b: CodeBlockSizeBucket|
                b.0 <= 16 ==> #[trigger] final(self).marks(b) == (old(self).marks(b) && b != bucket),
    {
        let ghost before = *self;
        self.bucket_bits = self.bucket_bits & !(1u32 << bucket.0);
        proof {
            let bits = before.bucket_bits;
            let k = bucket.0;
            assert(bits & !(1u32 << k) < 0x2_0000) by (bit_vector)
                requires
                    bits < 0x2_0000,
            ;
            assert forall|b: CodeBlockSizeBucket| b.0 <= 16 implies #[trigger] self.marks(b) == (
            before.marks(b) && b != bucket) by {
                let c = b.0;
                assert(((bits & !(1u32 << k)) & (1u32 << c) != 0) == (bits & (1u32 << c) != 0 && c
                    != k)) by (bit_vector)
                    requires
                        k <= 16,
                        c <= 16,
                ;
            }
        }
    }
}

/// The blocks of a store: where each lies.
pub type BlockRanges = Map<CodeBlockId, AddressRange>;

/// A change of where a block lies. A block that is new lay nowhere, one that goes lies nowhere
/// afterwards.
#[derive(Debug, Clone, Copy)]
pub struct BlockRangeChange {
    pub id: CodeBlockId,
    pub previous: Option<AddressRange>,
    pub range: Option<AddressRange>,
}

/// What is written about where blocks lie.
#[derive(Debug, Clone, Copy)]
pub enum BlockIndexWrite {
    InsertStart(CodeBlockStartKey),
    RemoveStart(CodeBlockStartKey),
    InsertBucket { key: CodeBlockSizeBucketKey, end: RawAddress },
    RemoveBucket(CodeBlockSizeBucketKey),
    InsertBuckets { space: AddressSpaceId, record: CodeBlockSizeBucketsRecord },
    RemoveBuckets(AddressSpaceId),
}

/// Where a block is entered by its beginning.
pub open spec fn start_key(id: CodeBlockId, range: AddressRange) -> CodeBlockStartKey {
    CodeBlockStartKey { address: Address { space: range.space, address: range.start }, id }
}

/// Where a block is entered by its size.
pub open spec fn bucket_key(id: CodeBlockId, range: AddressRange) -> CodeBlockSizeBucketKey {
    CodeBlockSizeBucketKey {
        address: Address { space: range.space, address: range.start },
        id,
        bucket: bucket_of(range),
    }
}

/// The space and bucket of a range.
pub open spec fn place_of(range: AddressRange) -> SpaceBucket {
    SpaceBucket { space: range.space, bucket: bucket_of(range) }
}

/// Whether the beginnings are those of blocks.
pub open spec fn starts_agree(starts: Set<CodeBlockStartKey>, ranges: BlockRanges) -> bool {
    forall|key: CodeBlockStartKey| #[trigger]
        starts.contains(key) <==> ranges.contains_key(key.id) && key == start_key(
            key.id,
            ranges[key.id],
        )
}

/// Whether the entries by size are those of blocks.
pub open spec fn buckets_agree(
    buckets: Map<CodeBlockSizeBucketKey, RawAddress>,
    ranges: BlockRanges,
) -> bool {
    &&& forall|key: CodeBlockSizeBucketKey| #[trigger]
        buckets.contains_key(key) <==> ranges.contains_key(key.id) && key == bucket_key(
            key.id,
            ranges[key.id],
        )
    &&& forall|key: CodeBlockSizeBucketKey| #[trigger]
        buckets.contains_key(key) ==> buckets[key] == ranges[key.id].end
}

/// Whether a block lies in a space and bucket.
pub open spec fn has_block(ranges: BlockRanges, place: SpaceBucket) -> bool {
    exists|id: CodeBlockId| #[trigger] ranges.contains_key(id) && place_of(ranges[id]) == place
}

/// Whether a space and bucket is marked.
pub open spec fn is_marked(
    sets: Map<AddressSpaceId, CodeBlockSizeBucketsRecord>,
    place: SpaceBucket,
) -> bool {
    sets.contains_key(place.space) && sets[place.space].marks(place.bucket)
}

/// Whether the marks are those of blocks, and a space is listed only where it has one.
pub open spec fn marks_agree(
    sets: Map<AddressSpaceId, CodeBlockSizeBucketsRecord>,
    ranges: BlockRanges,
) -> bool {
    &&& forall|place: SpaceBucket|
        place.bucket.0 <= 16 ==> #[trigger] is_marked(sets, place) == has_block(ranges, place)
    &&& forall|space: AddressSpaceId| #[trigger]
        sets.contains_key(space) ==> sets[space].wf() && exists|b: CodeBlockSizeBucket|
            b.0 <= 16 && #[trigger] sets[space].marks(b)
}

/// Whether all blocks have ranges that blocks can have.
pub open spec fn all_sized(ranges: BlockRanges) -> bool {
    forall|id: CodeBlockId| #[trigger] ranges.contains_key(id) ==> block_sized(ranges[id])
}

/// What a store holds about where blocks lie.
pub struct StoredBlockIndex {
    pub starts: SortedSet<CodeBlockStartKey>,
    pub buckets: SortedMap<CodeBlockSizeBucketKey, RawAddress>,
    pub bucket_sets: SortedMap<AddressSpaceId, CodeBlockSizeBucketsRecord>,
}

/// What a store holds about where blocks lie.
#[verifier::ext_equal]
pub struct BlockIndexView {
    pub starts: Set<CodeBlockStartKey>,
    pub buckets: Map<CodeBlockSizeBucketKey, RawAddress>,
    pub sets: Map<AddressSpaceId, CodeBlockSizeBucketsRecord>,
}

impl View for StoredBlockIndex {
    type V = BlockIndexView;

    open spec fn view(&self) -> BlockIndexView {
        BlockIndexView {
            starts: self.starts@,
            buckets: self.buckets@,
            sets: self.bucket_sets@,
        }
    }
}

impl BlockIndexView {
    /// The index without entries.
    pub open spec fn none() -> Self {
        BlockIndexView { starts: Set::empty(), buckets: Map::empty(), sets: Map::empty() }
    }

    /// Whether these are the entries of the blocks.
    pub open spec fn describes(self, ranges: BlockRanges) -> bool {
        &&& all_sized(ranges)
        &&& starts_agree(self.starts, ranges)
        &&& buckets_agree(self.buckets, ranges)
        &&& marks_agree(self.sets, ranges)
    }
}

/// The keys of a bucket that begin between two offsets.
proof fn lemma_between_bucket_keys(
    low: CodeBlockSizeBucketKey,
    high: CodeBlockSizeBucketKey,
    key: CodeBlockSizeBucketKey,
)
    requires
        low.place() == high.place(),
        low.id.id == 0,
        low.id.generation == 0,
        high.id.id == u32::MAX,
        high.id.generation == u32::MAX,
    ensures
        low.rank() <= key.rank() && key.rank() <= high.rank() <==> key.place() == low.place()
            && low.address.address.0 <= key.address.address.0 && key.address.address.0
            <= high.address.address.0,
{
    lemma_bucket_key_order(low, key);
    lemma_bucket_key_order(key, low);
    lemma_bucket_key_order(key, high);
    lemma_bucket_key_order(high, key);
    if key.place().rank() == low.place().rank() {
        SpaceBucket::lemma_rank_injective(key.place(), low.place());
    }
}

impl StoredBlockIndex {
    pub open spec fn wf(&self) -> bool {
        &&& self.starts.wf()
        &&& self.buckets.wf()
        &&& self.bucket_sets.wf()
        &&& forall|space: AddressSpaceId| #[trigger]
            self.bucket_sets@.contains_key(space) ==> self.bucket_sets@[space].wf()
    }

    pub fn new() -> (index: Self)
        ensures
            index.wf(),
            index@ == BlockIndexView::none(),
            index@.describes(BlockRanges::empty()),
    {
        let index = StoredBlockIndex {
            starts: SortedSet::new(),
            buckets: SortedMap::new(),
            bucket_sets: SortedMap::new(),
        };
        assert(index@.sets =~= BlockIndexView::none().sets);
        index
    }

    /// The keys of a bucket of a space that begin between two offsets, in order.
    fn bucket_keys(
        &self,
        space: AddressSpaceId,
        bucket: CodeBlockSizeBucket,
        from: RawAddress,
        to: RawAddress,
    ) -> (keys: Vec<CodeBlockSizeBucketKey>)
        requires
            self.wf(),
        ensures
            ascending(keys@),
            forall|key: CodeBlockSizeBucketKey| #[trigger]
                keys@.contains(key) <==> self@.buckets.contains_key(key) && key.place() == (
                SpaceBucket { space, bucket }) && from.0 <= key.address.address.0 <= to.0,
    {
        let low = CodeBlockSizeBucketKey {
            address: Address { space, address: from },
            id: Id::with_generation(0, 0),
            bucket,
        };
        let high = CodeBlockSizeBucketKey {
            address: Address { space, address: to },
            id: Id::with_generation(u32::MAX, u32::MAX),
            bucket,
        };
        let keys: Vec<CodeBlockSizeBucketKey> = keys_between(
            &self.buckets.keys,
            KeyBound::Included(low),
            KeyBound::Included(high),
        );
        proof {
            assert(self.buckets.keys@.to_set() =~= self.buckets@.dom());
            assert forall|key: CodeBlockSizeBucketKey| #[trigger]
                keys@.contains(key) <==> self@.buckets.contains_key(key) && key.place() == (
                SpaceBucket { space, bucket }) && from.0 <= key.address.address.0 <= to.0 by {
                lemma_between_bucket_keys(low, high, key);
            }
        }
        keys
    }

    /// The blocks around an address, by bucket and beginning.
    pub fn overlap_ids(&self, address: Address) -> (ids: Vec<CodeBlockId>)
        requires
            self.wf(),
        ensures
            lists_overlaps(ids@, self@, address),
    {
        let record: CodeBlockSizeBucketsRecord = match self.bucket_sets.get(&address.space()) {
            Some(record) => *record,
            None => {
                let none: Vec<CodeBlockId> = Vec::new();
                proof {
                    let keys: Seq<CodeBlockSizeBucketKey> = Seq::empty();
                    assert(none@ =~= key_ids(keys));
                    assert(are_overlap_keys(keys, self@, address));
                }
                return none;
            },
        };
        let raw: RawAddress = address.raw_address();
        let mut ids: Vec<CodeBlockId> = Vec::new();
        let ghost mut found: Seq<CodeBlockSizeBucketKey> = Seq::empty();
        let mut b: u8 = 0;
        while b <= 16
            invariant
                b <= 17,
                self.wf(),
                self.bucket_sets@.contains_key(address.space),
                record == self.bucket_sets@[address.space],
                raw == address.address,
                ids@ == key_ids(found),
                ascending(found),
                forall|key: CodeBlockSizeBucketKey| #[trigger]
                    found.contains(key) <==> is_overlap(self@, address, key) && key.bucket.0 < b,
            decreases 17 - b,
        {
            let bucket = CodeBlockSizeBucket(b);
            let ghost seen = found;
            if record.contains(bucket) {
                let start: RawAddress = bucket.overlap_search_start(raw);
                let keys: Vec<CodeBlockSizeBucketKey> = self.bucket_keys(
                    address.space(),
                    bucket,
                    start,
                    raw,
                );
                let mut i: usize = 0;
                while i < keys.len()
                    invariant
                        i <= keys@.len(),
                        b <= 16,
                        bucket == CodeBlockSizeBucket(b),
                        self.wf(),
                        record.marks(bucket),
                        self.bucket_sets@.contains_key(address.space),
                        record == self.bucket_sets@[address.space],
                        raw == address.address,
                        start.0 == search_start(b as nat, raw.0 as int),
                        ascending(keys@),
                        forall|key: CodeBlockSizeBucketKey| #[trigger]
                            keys@.contains(key) <==> self@.buckets.contains_key(key)
                                && key.place() == (SpaceBucket { space: address.space, bucket })
                                && start.0 <= key.address.address.0 <= raw.0,
                        ids@ == key_ids(found),
                        ascending(found),
                        forall|key: CodeBlockSizeBucketKey| #[trigger]
                            seen.contains(key) <==> is_overlap(self@, address, key)
                                && key.bucket.0 < b,
                        forall|key: CodeBlockSizeBucketKey| #[trigger]
                            found.contains(key) <==> seen.contains(key) || (is_overlap(
                                self@,
                                address,
                                key,
                            ) && keys@.take(i as int).contains(key)),
                    decreases keys@.len() - i,
                {
                    let key: CodeBlockSizeBucketKey = keys[i];
                    let ghost before = found;
                    assert(keys@.contains(key));
                    let reaches: bool = match self.buckets.get(&key) {
                        Some(end) => end.0 >= raw.0,
                        None => false,
                    };
                    assert(reaches == is_overlap(self@, address, key));
                    if reaches {
                        ids.push(key.id);
                        proof {
                            found = before.push(key);
                            assert(ids@ =~= key_ids(found));
                        }
                    }
                    proof {
                        assert(keys@.take(i + 1) =~= keys@.take(i as int).push(key));
                        assert forall|m: int, n: int|
                            0 <= m < n < found.len() implies (#[trigger] found[m]).rank() < (
                        #[trigger] found[n]).rank() by {
                            if n < before.len() {
                                assert(before[m].rank() < before[n].rank());
                            } else {
                                assert(before[m] == found[m]);
                                assert(before.contains(before[m]));
                                if seen.contains(before[m]) {
                                    lemma_bucket_key_order(before[m], key);
                                } else {
                                    let j = keys@.take(i as int).index_of(before[m]);
                                    assert(keys@[j] == before[m]);
                                    assert(keys@[j].rank() < keys@[i as int].rank());
                                }
                            }
                        }
                        assert forall|k: CodeBlockSizeBucketKey| #[trigger]
                            found.contains(k) <==> seen.contains(k) || (is_overlap(
                                self@,
                                address,
                                k,
                            ) && keys@.take(i + 1).contains(k)) by {
                            lemma_push_has(keys@.take(i as int), key, k);
                            lemma_push_has(before, key, k);
                        }
                    }
                    i = i + 1;
                }
                proof {
                    assert(keys@.take(i as int) =~= keys@);
                }
            }
            proof {
                assert forall|key: CodeBlockSizeBucketKey| #[trigger]
                    found.contains(key) <==> is_overlap(self@, address, key) && key.bucket.0 < b
                        + 1 by {
                    if key.bucket.0 == b {
                        assert(key.bucket == bucket);
                    }
                }
            }
            b = b + 1;
        }
        proof {
            assert(are_overlap_keys(found, self@, address));
        }
        ids
    }

    /// The blocks that begin at an address, in the order of their identities.
    pub fn ids_starting_at(&self, address: Address) -> (ids: Vec<CodeBlockId>)
        requires
            self.wf(),
        ensures
            ascending(ids@),
            forall|id: CodeBlockId| #[trigger]
                ids@.contains(id) <==> self@.starts.contains(CodeBlockStartKey { address, id }),
    {
        let low = CodeBlockStartKey { address, id: Id::with_generation(0, 0) };
        let high = CodeBlockStartKey { address, id: Id::with_generation(u32::MAX, u32::MAX) };
        let keys: Vec<CodeBlockStartKey> = keys_between(
            &self.starts.items,
            KeyBound::Included(low),
            KeyBound::Included(high),
        );
        let mut ids: Vec<CodeBlockId> = Vec::new();
        let mut i: usize = 0;
        while i < keys.len()
            invariant
                i <= keys@.len(),
                ids@.len() == i,
                forall|k: int| 0 <= k < i ==> #[trigger] ids@[k] == keys@[k].id,
            decreases keys@.len() - i,
        {
            ids.push(keys[i].id);
            i = i + 1;
        }
        proof {
            assert(self.starts.items@.to_set() =~= self.starts@);
            assert forall|key: CodeBlockStartKey| #[trigger] keys@.contains(key)
                <==> self@.starts.contains(key) && key.address == address by {
                lemma_id_fits(key.id);
                if key.address.rank() == address.rank() {
                    Address::lemma_rank_injective(key.address, address);
                }
            }
            assert forall|k: int| 0 <= k < keys@.len() implies (#[trigger] keys@[k]).address == address by {
                assert(keys@.contains(keys@[k]));
            }
            assert forall|m: int, n: int| 0 <= m < n < ids@.len() implies (#[trigger] ids@[m]).rank() < (#[trigger] ids@[n]).rank() by {
                assert(keys@[m].rank() < keys@[n].rank());
                assert(keys@[m].address == keys@[n].address);
            }
            assert forall|id: CodeBlockId| #[trigger] ids@.contains(id) <==> self@.starts.contains(CodeBlockStartKey { address, id }) by {
                let key = CodeBlockStartKey { address, id };
                assert(keys@.contains(key) <==> self@.starts.contains(key));
                if keys@.contains(key) {
                    let k = keys@.index_of(key);
                    assert(ids@[k] == id);
                }
                if ids@.contains(id) {
                    let k = ids@.index_of(id);
                    assert(keys@[k].id == id);
                    assert(keys@[k].address == address);
                    assert(keys@[k] == key);
                    assert(keys@.contains(key));
                }
            }
        }
        ids
    }

    /// Whether a bucket of a space has a block that is not removed.
    pub fn bucket_has_remaining_block(
        &self,
        space: AddressSpaceId,
        bucket: CodeBlockSizeBucket,
        removed: &SortedSet<CodeBlockId>,
    ) -> (remains: bool)
        requires
            self.wf(),
            removed.wf(),
        ensures
            remains == has_other(self@, SpaceBucket { space, bucket }, removed@),
    {
        let keys: Vec<CodeBlockSizeBucketKey> = self.bucket_keys(
            space,
            bucket,
            RawAddress(0),
            RawAddress(u64::MAX),
        );
        let mut i: usize = 0;
        while i < keys.len()
            invariant
                i <= keys@.len(),
                removed.wf(),
                forall|key: CodeBlockSizeBucketKey| #[trigger]
                    keys@.contains(key) <==> self@.buckets.contains_key(key) && key.place() == (
                    SpaceBucket { space, bucket }),
                forall|k: int| 0 <= k < i ==> removed@.contains((#[trigger] keys@[k]).id),
            decreases keys@.len() - i,
        {
            if !removed.contains(&keys[i].id) {
                proof {
                    assert(keys@.contains(keys@[i as int]));
                    assert(self@.buckets.contains_key(keys@[i as int]));
                }
                return true;
            }
            i = i + 1;
        }
        proof {
            if has_other(self@, SpaceBucket { space, bucket }, removed@) {
                let key = choose|key: CodeBlockSizeBucketKey| #[trigger]
                    self@.buckets.contains_key(key) && key.place() == (SpaceBucket {
                        space,
                        bucket,
                    }) && !removed@.contains(key.id);
                assert(keys@.contains(key));
                let k = keys@.index_of(key);
                assert(removed@.contains(keys@[k].id));
            }
        }
        false
    }
}

/// Where the search for blocks of a bucket begins.
pub open spec fn search_start(bucket: nat, raw: int) -> int {
    if raw >= pow2(bucket) - 1 {
        raw - (pow2(bucket) - 1)
    } else {
        0
    }
}

/// Whether an entry by size is one that the search for an address comes upon.
pub open spec fn is_overlap(
    view: BlockIndexView,
    address: Address,
    key: CodeBlockSizeBucketKey,
) -> bool {
    &&& view.buckets.contains_key(key)
    &&& key.address.space == address.space
    &&& key.bucket.0 <= 16
    &&& is_marked(view.sets, key.place())
    &&& search_start(key.bucket.0 as nat, address.address.0 as int) <= key.address.address.0
        <= address.address.0
    &&& view.buckets[key].0 >= address.address.0
}

/// Whether these are the entries that the search for an address comes upon, in order.
pub open spec fn are_overlap_keys(
    keys: Seq<CodeBlockSizeBucketKey>,
    view: BlockIndexView,
    address: Address,
) -> bool {
    &&& ascending(keys)
    &&& forall|key: CodeBlockSizeBucketKey| #[trigger]
        keys.contains(key) <==> is_overlap(view, address, key)
}

/// The identities in keys.
pub open spec fn key_ids(keys: Seq<CodeBlockSizeBucketKey>) -> Seq<CodeBlockId> {
    keys.map_values(|key: CodeBlockSizeBucketKey| key.id)
}

/// Whether these are the blocks that the search for an address comes upon, in order.
pub open spec fn lists_overlaps(
    ids: Seq<CodeBlockId>,
    view: BlockIndexView,
    address: Address,
) -> bool {
    exists|keys: Seq<CodeBlockSizeBucketKey>| #[trigger]
        are_overlap_keys(keys, view, address) && ids == key_ids(keys)
}

/// Whether a bucket has a block that is not removed.
pub open spec fn has_other(
    view: BlockIndexView,
    place: SpaceBucket,
    removed: Set<CodeBlockId>,
) -> bool {
    exists|key: CodeBlockSizeBucketKey| #[trigger]
        view.buckets.contains_key(key) && key.place() == place && !removed.contains(key.id)
}

proof fn lemma_push_has<A>(seen: Seq<A>, last: A, a: A)
    ensures
        seen.push(last).contains(a) <==> seen.contains(a) || a == last,
{
    if seen.contains(a) {
        assert(seen.push(last)[seen.index_of(a)] == a);
    }
    assert(seen.push(last)[seen.len() as int] == last);
    if seen.push(last).contains(a) && a != last {
        let i = seen.push(last).index_of(a);
        assert(seen[i] == a);
    }
}

/// Every range that a block can have has a bucket.
pub proof fn lemma_bucket_exists(range: AddressRange)
    requires
        block_sized(range),
    ensures
        in_bucket(range, bucket_of(range)),
{
    lemma2_to64();
    let size = extent(range);
    lemma_least_bucket(range, 16);
}

/// There is a least bucket that is large enough.
proof fn lemma_least_bucket(range: AddressRange, top: nat)
    requires
        top <= 16,
        1 <= extent(range) <= pow2(top),
    ensures
        exists|bucket: CodeBlockSizeBucket| in_bucket(range, bucket),
    decreases top,
{
    lemma2_to64();
    if top > 0 && extent(range) <= pow2((top - 1) as nat) {
        lemma_least_bucket(range, (top - 1) as nat);
    } else {
        assert(in_bucket(range, CodeBlockSizeBucket(top as u8)));
    }
}

/// The search for an address comes upon the blocks around it, each once, and upon no others.
pub proof fn law_overlaps_are_blocks_around(
    ids: Seq<CodeBlockId>,
    view: BlockIndexView,
    ranges: BlockRanges,
    address: Address,
)
    requires
        view.describes(ranges),
        lists_overlaps(ids, view, address),
    ensures
        ids.no_duplicates(),
        forall|id: CodeBlockId| #[trigger]
            ids.contains(id) <==> ranges.contains_key(id) && ranges[id].holds(address),
{
    let keys = choose|keys: Seq<CodeBlockSizeBucketKey>| #[trigger]
        are_overlap_keys(keys, view, address) && ids == key_ids(keys);
    assert forall|i: int, j: int| 0 <= i < ids.len() && 0 <= j < ids.len() && i != j implies ids[i]
        != ids[j] by {
        assert(keys.contains(keys[i]));
        assert(keys.contains(keys[j]));
        if ids[i] == ids[j] {
            assert(keys[i] == bucket_key(ids[i], ranges[ids[i]]));
            assert(keys[j] == bucket_key(ids[j], ranges[ids[j]]));
            if i < j {
                assert(keys[i].rank() < keys[j].rank());
            } else {
                assert(keys[j].rank() < keys[i].rank());
            }
        }
    }
    assert forall|id: CodeBlockId| #[trigger] ids.contains(id) <==> ranges.contains_key(id)
        && ranges[id].holds(address) by {
        if ids.contains(id) {
            let i = ids.index_of(id);
            assert(keys.contains(keys[i]));
            assert(is_overlap(view, address, keys[i]));
            assert(keys[i] == bucket_key(id, ranges[id]));
        }
        if ranges.contains_key(id) && ranges[id].holds(address) {
            let range = ranges[id];
            let key = bucket_key(id, range);
            lemma_bucket_exists(range);
            assert(view.buckets.contains_key(key));
            assert(has_block(ranges, key.place()));
            assert(is_marked(view.sets, key.place()));
            assert(is_overlap(view, address, key));
            assert(keys.contains(key));
            let i = keys.index_of(key);
            assert(ids[i] == id);
        }
    }
}

} // verus!
