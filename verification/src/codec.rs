//! Fixed-width keys as bytes, most significant byte first.
use vstd::prelude::*;
use vstd::slice::slice_subrange;

use crate::order::Ranked;

verus! {

/// How many values `width` bytes can tell apart.
pub open spec fn capacity(width: nat) -> int
    decreases width,
{
    if width == 0 {
        1
    } else {
        256 * capacity((width - 1) as nat)
    }
}

/// The `width` low bytes of `value`, most significant first.
pub open spec fn be(width: nat, value: int) -> Seq<u8>
    decreases width,
{
    if width == 0 {
        Seq::empty()
    } else {
        be((width - 1) as nat, value / 256).push((value % 256) as u8)
    }
}

/// The number that bytes stand for, most significant first.
pub open spec fn be_value(bytes: Seq<u8>) -> int
    decreases bytes.len(),
{
    if bytes.len() == 0 {
        0
    } else {
        be_value(bytes.drop_last()) * 256 + bytes.last()
    }
}

/// Whether `a` sorts before `b` when bytes are compared from the front.
pub open spec fn bytes_before(a: Seq<u8>, b: Seq<u8>) -> bool {
    exists|i: int|
        0 <= i < a.len() && i < b.len() && a.take(i) == b.take(i) && #[trigger] a[i] < b[i]
}

pub proof fn lemma_be_len(width: nat, value: int)
    ensures
        be(width, value).len() == width,
    decreases width,
{
    if width > 0 {
        lemma_be_len((width - 1) as nat, value / 256);
    }
}

/// The bytes of a number that fits stand for that number.
pub proof fn lemma_be_value(width: nat, value: int)
    requires
        0 <= value < capacity(width),
    ensures
        be_value(be(width, value)) == value,
    decreases width,
{
    if width > 0 {
        lemma_be_value((width - 1) as nat, value / 256);
        let bytes = be(width, value);
        assert(bytes.drop_last() =~= be((width - 1) as nat, value / 256));
        assert(bytes.last() == value % 256);
    }
}

/// A number that bytes stand for fits them, and its bytes are those bytes.
pub proof fn lemma_value_be(bytes: Seq<u8>)
    ensures
        0 <= be_value(bytes) < capacity(bytes.len()),
        be(bytes.len(), be_value(bytes)) == bytes,
    decreases bytes.len(),
{
    if bytes.len() > 0 {
        lemma_value_be(bytes.drop_last());
        let high = be_value(bytes.drop_last());
        let value = be_value(bytes);
        assert(value / 256 == high);
        assert(value % 256 == bytes.last());
        assert(be(bytes.len(), value) =~= bytes);
    } else {
        assert(be(0, 0) =~= bytes);
    }
}

pub proof fn lemma_capacity_positive(width: nat)
    ensures
        capacity(width) >= 1,
    decreases width,
{
    if width > 0 {
        lemma_capacity_positive((width - 1) as nat);
    }
}

/// A pair of numbers laid side by side is the pair of their bytes.
pub proof fn lemma_be_pair(high_width: nat, low_width: nat, high: int, low: int)
    requires
        0 <= low < capacity(low_width),
    ensures
        be(high_width + low_width, high * capacity(low_width) + low) == be(high_width, high) + be(
            low_width,
            low,
        ),
    decreases low_width,
{
    if low_width == 0 {
        assert(be(high_width, high) + be(0, low) =~= be(high_width, high));
    } else {
        let w = (low_width - 1) as nat;
        let c = capacity(w);
        lemma_be_pair(high_width, w, high, low / 256);
        let value = high * capacity(low_width) + low;
        assert(value == 256 * (high * c) + low) by (nonlinear_arith)
            requires
                value == high * (256 * c) + low,
        ;
        assert(value / 256 == high * c + low / 256);
        assert(value % 256 == low % 256);
        assert(be(high_width + low_width, value) =~= be((high_width + w) as nat, value / 256).push(
            (low % 256) as u8,
        ));
        assert(be(high_width, high) + be(low_width, low) =~= (be(high_width, high) + be(
            w,
            low / 256,
        )).push((low % 256) as u8));
    }
}

/// Bytes sort as the numbers that they stand for.
pub proof fn lemma_be_order(width: nat, a: int, b: int)
    requires
        0 <= a < capacity(width),
        0 <= b < capacity(width),
    ensures
        bytes_before(be(width, a), be(width, b)) <==> a < b,
    decreases width,
{
    if width > 0 {
        let w = (width - 1) as nat;
        lemma_be_order(w, a / 256, b / 256);
        lemma_be_len(w, a / 256);
        lemma_be_len(w, b / 256);
        let x = be(width, a);
        let y = be(width, b);
        let x1 = be(w, a / 256);
        let y1 = be(w, b / 256);
        assert(x =~= x1.push((a % 256) as u8));
        assert(y =~= y1.push((b % 256) as u8));
        if a < b {
            if a / 256 < b / 256 {
                let i = choose|i: int|
                    0 <= i < x1.len() && i < y1.len() && x1.take(i) == y1.take(i) && #[trigger] x1[i]
                        < y1[i];
                assert(x.take(i) =~= x1.take(i));
                assert(y.take(i) =~= y1.take(i));
                assert(x[i] < y[i]);
            } else {
                let i = w as int;
                assert(x.take(i) =~= x1);
                assert(y.take(i) =~= y1);
                assert(x[i] < y[i]);
            }
        }
        if bytes_before(x, y) {
            let i = choose|i: int|
                0 <= i < x.len() && i < y.len() && x.take(i) == y.take(i) && #[trigger] x[i] < y[i];
            if i < w {
                assert(x.take(i) =~= x1.take(i));
                assert(y.take(i) =~= y1.take(i));
                assert(x1[i] < y1[i]);
                assert(bytes_before(x1, y1));
            } else {
                assert(x.take(i) =~= x1);
                assert(y.take(i) =~= y1);
                lemma_be_value(w, a / 256);
                lemma_be_value(w, b / 256);
            }
        }
    } else {
        assert(be(0, a).len() == 0);
    }
}

/// Appends the `width` low bytes of `value`.
pub fn put_be(out: &mut Vec<u8>, width: usize, value: u64)
    requires
        width <= 8,
    ensures
        final(out)@ == old(out)@ + be(width as nat, value as int),
    decreases width,
{
    if width > 0 {
        put_be(out, width - 1, value / 256);
        out.push((value % 256) as u8);
        assert(out@ =~= old(out)@ + be(width as nat, value as int));
    } else {
        assert(out@ =~= old(out)@ + be(0, value as int));
    }
}

/// The number that the first `width` bytes stand for.
fn head_be(input: &[u8], width: usize) -> (value: u64)
    requires
        width <= 8,
        width <= input@.len(),
    ensures
        value == be_value(input@.take(width as int)),
{
    let mut value: u64 = 0;
    let mut i: usize = 0;
    while i < width
        invariant
            i <= width <= 8,
            width <= input@.len(),
            value == be_value(input@.take(i as int)),
            value < capacity(i as nat),
        decreases width - i,
    {
        proof {
            assert(input@.take(i + 1).drop_last() =~= input@.take(i as int));
            assert(input@.take(i + 1).last() == input@[i as int]);
            lemma_value_be(input@.take(i + 1));
            reveal_with_fuel(capacity, 9);
        }
        value = value * 256 + input[i] as u64;
        i = i + 1;
    }
    value
}

/// Takes `width` bytes off the front of `input` and gives the number that they stand for.
/// A shorter input is left as it is.
pub fn take_be(input: &mut &[u8], width: usize) -> (value: Option<u64>)
    requires
        width <= 8,
    ensures
        value is Some == (old(input)@.len() >= width),
        value matches Some(v) ==> v == be_value(old(input)@.take(width as int)) && final(input)@
            == old(input)@.skip(width as int),
        value is None ==> final(input)@ == old(input)@,
{
    let bytes: &[u8] = *input;
    if bytes.len() < width {
        return None;
    }
    let value: u64 = head_be(bytes, width);
    *input = slice_subrange(bytes, width, bytes.len());
    assert(input@ =~= bytes@.skip(width as int));
    Some(value)
}

/// Whether `key` is what reading a key off the front of `input` gives: the key whose bytes
/// stand there, or nothing where no key's bytes do.
pub open spec fn decodes<K: Ranked>(width: nat, input: Seq<u8>, key: Option<K>) -> bool {
    match key {
        Some(k) => input.len() >= width && be(width, k.rank()) == input.take(width as int),
        None => forall|k: K|
            input.len() < width || #[trigger] be(width, k.rank()) != input.take(width as int),
    }
}

/// A key with a fixed-width byte form. The bytes are the key's rank, so that keys sort as
/// their bytes do.
pub trait KeyCodec: Ranked {
    /// How many bytes a key takes.
    spec fn width() -> nat;

    /// Ranks fit the width.
    proof fn lemma_rank_fits(key: Self)
        ensures
            0 <= key.rank() < capacity(Self::width()),
    ;

    /// Appends the bytes of the key.
    fn encode(&self, output: &mut Vec<u8>)
        ensures
            final(output)@ == old(output)@ + be(Self::width(), self.rank()),
    ;

    /// Takes a key off the front of `input`. What a failed attempt leaves of the input is
    /// open.
    fn decode(input: &mut &[u8]) -> (key: Option<Self>)
        ensures
            decodes(Self::width(), old(input)@, key),
            key is Some ==> final(input)@ == old(input)@.skip(Self::width() as int),
    ;
}

/// Reading from the bytes of a key, whatever follows them, gives that key back.
pub proof fn law_decoding_reads_encoding<K: KeyCodec>(key: K, rest: Seq<u8>, read: Option<K>)
    requires
        decodes(K::width(), be(K::width(), key.rank()) + rest, read),
    ensures
        read == Some(key),
{
    let bytes = be(K::width(), key.rank());
    lemma_be_len(K::width(), key.rank());
    assert((bytes + rest).take(K::width() as int) =~= bytes);
    match read {
        Some(k) => law_encoding_injective(k, key),
        None => {
            assert(be(K::width(), key.rank()) != (bytes + rest).take(K::width() as int));
        },
    }
}

/// The front of a sequence in two parts.
pub proof fn lemma_take_parts<T>(s: Seq<T>, first: int, second: int)
    requires
        0 <= first,
        0 <= second,
        first + second <= s.len(),
    ensures
        s.take(first + second) == s.take(first) + s.skip(first).take(second),
        s.skip(first).skip(second) == s.skip(first + second),
{
    assert(s.take(first + second) =~= s.take(first) + s.skip(first).take(second));
    assert(s.skip(first).skip(second) =~= s.skip(first + second));
}

/// Two keys with the same bytes are the same key.
pub proof fn law_encoding_injective<K: KeyCodec>(a: K, b: K)
    requires
        be(K::width(), a.rank()) == be(K::width(), b.rank()),
    ensures
        a == b,
{
    K::lemma_rank_fits(a);
    K::lemma_rank_fits(b);
    lemma_be_value(K::width(), a.rank());
    lemma_be_value(K::width(), b.rank());
    K::lemma_rank_injective(a, b);
}

/// Keys sort as their bytes do.
pub proof fn law_encoding_preserves_order<K: KeyCodec>(a: K, b: K)
    ensures
        bytes_before(be(K::width(), a.rank()), be(K::width(), b.rank())) <==> a.rank() < b.rank(),
{
    K::lemma_rank_fits(a);
    K::lemma_rank_fits(b);
    lemma_be_order(K::width(), a.rank(), b.rank());
}

} // verus!
