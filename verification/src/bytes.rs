//! Little-endian integers in byte sequences.
use vstd::prelude::*;

verus! {

/// The `n` lowest bytes of a number, the least significant one first.
pub open spec fn le(value: nat, n: nat) -> Seq<u8>
    decreases n,
{
    if n == 0 {
        Seq::empty()
    } else {
        seq![(value % 256) as u8] + le(value / 256, (n - 1) as nat)
    }
}

/// The number whose bytes, from the least significant one on, are given.
pub open spec fn number(bytes: Seq<u8>) -> nat
    decreases bytes.len(),
{
    if bytes.len() == 0 {
        0
    } else {
        bytes[0] as nat + 256 * number(bytes.drop_first())
    }
}

/// How many numbers have `n` bytes.
pub open spec fn reach(n: nat) -> nat
    decreases n,
{
    if n == 0 {
        1
    } else {
        256 * reach((n - 1) as nat)
    }
}

/// An encoded number has as many bytes as asked for.
pub proof fn lemma_le_len(value: nat, n: nat)
    ensures
        le(value, n).len() == n,
    decreases n,
{
    if n > 0 {
        lemma_le_len(value / 256, (n - 1) as nat);
    }
}

/// A number that fits comes back from its bytes.
pub proof fn law_number_of_le(value: nat, n: nat)
    requires
        value < reach(n),
    ensures
        number(le(value, n)) == value,
        le(value, n).len() == n,
    decreases n,
{
    if n > 0 {
        law_number_of_le(value / 256, (n - 1) as nat);
        assert(le(value, n).drop_first() =~= le(value / 256, (n - 1) as nat));
    }
}

/// Bytes come back from their number, which fits.
pub proof fn law_le_of_number(bytes: Seq<u8>)
    ensures
        number(bytes) < reach(bytes.len()),
        le(number(bytes), bytes.len()) == bytes,
    decreases bytes.len(),
{
    if bytes.len() > 0 {
        let rest = bytes.drop_first();
        law_le_of_number(rest);
        let v = number(bytes);
        assert(v % 256 == bytes[0] as nat && v / 256 == number(rest));
        assert(le(v, bytes.len()) =~= bytes);
    } else {
        assert(le(number(bytes), bytes.len()) =~= bytes);
    }
}

/// The number of bytes in two parts.
pub proof fn lemma_number_split(bytes: Seq<u8>, k: int)
    requires
        0 <= k <= bytes.len(),
    ensures
        number(bytes) == number(bytes.take(k)) + reach(k as nat) * number(bytes.skip(k)),
    decreases k,
{
    if k == 0 {
        assert(bytes.skip(0) =~= bytes);
        assert(bytes.take(0) =~= Seq::<u8>::empty());
        let (one, n) = (reach(0), number(bytes));
        assert(one * n == n) by (nonlinear_arith)
            requires
                one == 1,
        ;
    } else {
        let rest = bytes.drop_first();
        lemma_number_split(rest, k - 1);
        assert(rest.take(k - 1) =~= bytes.take(k).drop_first());
        assert(rest.skip(k - 1) =~= bytes.skip(k));
        assert(bytes.take(k)[0] == bytes[0]);
        let (x, r, a) = (number(rest.take(k - 1)), reach((k - 1) as nat), number(bytes.skip(k)));
        assert(256 * (x + r * a) == 256 * x + (256 * r) * a) by (nonlinear_arith);
    }
}

/// The reach of four and of eight bytes.
pub proof fn lemma_reach()
    ensures
        reach(1) == 0x100,
        reach(4) == 0x1_0000_0000,
        reach(8) == 0x1_0000_0000_0000_0000,
{
    reveal_with_fuel(reach, 9);
}

/// Adds the four bytes of a number.
pub fn push_u32(out: &mut Vec<u8>, value: u32)
    ensures
        final(out)@ == old(out)@ + le(value as nat, 4),
{
    let ghost before = out@;
    out.push((value % 256) as u8);
    out.push((value / 256 % 256) as u8);
    out.push((value / 256 / 256 % 256) as u8);
    out.push((value / 256 / 256 / 256 % 256) as u8);
    proof {
        reveal_with_fuel(le, 5);
        assert(out@ =~= before + le(value as nat, 4));
    }
}

/// The number in the four bytes from `offset` on.
pub fn read_u32(data: &[u8], offset: usize) -> (r: u32)
    requires
        offset + 4 <= data@.len(),
    ensures
        r == number(data@.subrange(offset as int, offset + 4)),
{
    let r: u32 = data[offset] as u32 + 256 * (data[offset + 1] as u32) + 65536 * (data[offset + 2] as u32) + 16777216 * (
    data[offset + 3] as u32);
    proof {
        let s = data@.subrange(offset as int, offset + 4);
        reveal_with_fuel(number, 5);
        assert(s.drop_first().drop_first().drop_first().drop_first() =~= Seq::<u8>::empty());
        assert(s.drop_first().drop_first().drop_first()[0] == data@[offset + 3]);
        assert(s.drop_first().drop_first()[0] == data@[offset + 2]);
        assert(s.drop_first()[0] == data@[offset + 1]);
    }
    r
}

/// The least significant byte stands first: each further byte counts 256 times as much, in a
/// number of four bytes as in any.
pub proof fn law_little_endian(a: u8, b: u8, c: u8, d: u8, bytes: Seq<u8>)
    ensures
        number(seq![a, b, c, d]) == a + 0x100 * b + 0x1_0000 * c + 0x100_0000 * d,
        number(seq![a] + bytes) == a + 256 * number(bytes),
        number(Seq::empty()) == 0,
{
    assert((seq![a] + bytes).drop_first() =~= bytes);
    let all = seq![a, b, c, d];
    let three = seq![b, c, d];
    let two = seq![c, d];
    let one = seq![d];
    assert(all.drop_first() =~= three && three.drop_first() =~= two && two.drop_first() =~= one);
    assert(one.drop_first() =~= Seq::empty());
    assert(number(one.drop_first()) == 0);
    assert(number(one) == d);
    assert(number(two) == c + 256 * number(one));
    assert(number(three) == b + 256 * number(two));
}

} // verus!
