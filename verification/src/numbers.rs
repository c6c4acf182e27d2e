//! Unsigned integers as bytes, in either byte order.

use vstd::arithmetic::div_mod::lemma_div_denominator;
use vstd::arithmetic::power::{lemma_pow0, lemma_pow1, lemma_pow_adds, lemma_pow_positive, pow};
use vstd::prelude::*;

verus! {

/// 256 to the power of `width`: the first number that `width` bytes cannot
/// hold.
pub open spec fn byte_span(width: nat) -> nat
    decreases width,
{
    if width == 0 {
        1
    } else {
        256 * byte_span((width - 1) as nat)
    }
}

/// The low `width` bytes of `x`, least significant first.
pub open spec fn le_bytes(x: nat, width: nat) -> Seq<u8>
    decreases width,
{
    if width == 0 {
        Seq::empty()
    } else {
        seq![(x % 256) as u8] + le_bytes(x / 256, (width - 1) as nat)
    }
}

/// The number whose bytes are `s`, least significant first.
pub open spec fn le_value(s: Seq<u8>) -> nat
    decreases s.len(),
{
    if s.len() == 0 {
        0
    } else {
        s[0] as nat + 256 * le_value(s.subrange(1, s.len() as int))
    }
}

/// The low `width` bytes of `x`, most significant first.
pub open spec fn be_bytes(x: nat, width: nat) -> Seq<u8>
    decreases width,
{
    if width == 0 {
        Seq::empty()
    } else {
        be_bytes(x / 256, (width - 1) as nat).push((x % 256) as u8)
    }
}

/// The number whose bytes are `s`, most significant first.
pub open spec fn be_value(s: Seq<u8>) -> nat
    decreases s.len(),
{
    if s.len() == 0 {
        0
    } else {
        256 * be_value(s.drop_last()) + s.last() as nat
    }
}

/// What the widths in use can hold.
pub proof fn lemma_byte_spans()
    ensures
        byte_span(1) == 0x100,
        byte_span(2) == 0x1_0000,
        byte_span(4) == 0x1_0000_0000,
        byte_span(8) == 0x1_0000_0000_0000_0000,
        byte_span(16) == 0x1_0000_0000_0000_0000_0000_0000_0000_0000,
{
    reveal_with_fuel(byte_span, 5);
    assert(byte_span(4) == 0x1_0000_0000);
    assert(byte_span(8) == 0x1_0000_0000_0000_0000);
    assert(byte_span(12) == 0x1_0000_0000_0000_0000_0000_0000);
}

/// `le_bytes` has the width asked for.
pub proof fn lemma_le_len(x: nat, width: nat)
    ensures
        le_bytes(x, width).len() == width,
    decreases width,
{
    if width > 0 {
        lemma_le_len(x / 256, (width - 1) as nat);
    }
}

/// `be_bytes` has the width asked for.
pub proof fn lemma_be_len(x: nat, width: nat)
    ensures
        be_bytes(x, width).len() == width,
    decreases width,
{
    if width > 0 {
        lemma_be_len(x / 256, (width - 1) as nat);
    }
}

/// A number that fits reads back from its bytes, least significant first.
pub proof fn lemma_le_reads_back(x: nat, width: nat)
    requires
        x < byte_span(width),
    ensures
        le_bytes(x, width).len() == width,
        le_value(le_bytes(x, width)) == x,
    decreases width,
{
    if width > 0 {
        let rest = le_bytes(x / 256, (width - 1) as nat);
        assert(x / 256 < byte_span((width - 1) as nat));
        lemma_le_reads_back(x / 256, (width - 1) as nat);
        assert(le_bytes(x, width).subrange(1, width as int) =~= rest);
    }
}

/// A number that fits reads back from its bytes, most significant first.
pub proof fn lemma_be_reads_back(x: nat, width: nat)
    requires
        x < byte_span(width),
    ensures
        be_bytes(x, width).len() == width,
        be_value(be_bytes(x, width)) == x,
    decreases width,
{
    if width > 0 {
        let rest = be_bytes(x / 256, (width - 1) as nat);
        assert(x / 256 < byte_span((width - 1) as nat));
        lemma_be_reads_back(x / 256, (width - 1) as nat);
        assert(be_bytes(x, width).drop_last() =~= rest);
    }
}

/// Bytes read as a number that fits their width.
pub proof fn lemma_le_bound(s: Seq<u8>)
    ensures
        le_value(s) < byte_span(s.len()),
    decreases s.len(),
{
    if s.len() > 0 {
        lemma_le_bound(s.subrange(1, s.len() as int));
    }
}

/// Bytes read as a number that fits their width.
pub proof fn lemma_be_bound(s: Seq<u8>)
    ensures
        be_value(s) < byte_span(s.len()),
    decreases s.len(),
{
    if s.len() > 0 {
        lemma_be_bound(s.drop_last());
    }
}

/// Appends the low `width` bytes of `x`, least significant first.
pub fn push_le(out: &mut Vec<u8>, x: u64, width: usize)
    ensures
        final(out)@ == old(out)@ + le_bytes(x as nat, width as nat),
    decreases width,
{
    if width > 0 {
        out.push((x % 256) as u8);
        push_le(out, x / 256, width - 1);
    }
    assert(out@ =~= old(out)@ + le_bytes(x as nat, width as nat));
}

/// Appends the low `width` bytes of `x`, most significant first.
pub fn push_be(out: &mut Vec<u8>, x: u128, width: usize)
    ensures
        final(out)@ == old(out)@ + be_bytes(x as nat, width as nat),
    decreases width,
{
    if width > 0 {
        push_be(out, x / 256, width - 1);
        out.push((x % 256) as u8);
    }
    assert(out@ =~= old(out)@ + be_bytes(x as nat, width as nat));
}

/// Reads `width` bytes from `from` on, least significant first.
pub fn read_le(bytes: &[u8], from: usize, width: usize) -> (x: u64)
    requires
        width <= 8,
        from + width <= bytes@.len(),
    ensures
        x == le_value(bytes@.subrange(from as int, from + width)),
        x < byte_span(width as nat),
    decreases width,
{
    let ghost s = bytes@.subrange(from as int, from + width);
    proof {
        lemma_le_bound(s);
        lemma_byte_spans();
        assert(bytes.len() == bytes@.len());
    }
    if width == 0 {
        0
    } else {
        let rest = read_le(bytes, from + 1, width - 1);
        proof {
            assert(s.subrange(1, s.len() as int) =~= bytes@.subrange(from + 1, from + width));
            lemma_byte_span_grows(width as nat, 8);
        }
        bytes[from] as u64 + 256 * rest
    }
}

/// Reads `width` bytes from `from` on, most significant first.
pub fn read_be(bytes: &[u8], from: usize, width: usize) -> (x: u128)
    requires
        width <= 16,
        from + width <= bytes@.len(),
    ensures
        x == be_value(bytes@.subrange(from as int, from + width)),
        x < byte_span(width as nat),
    decreases width,
{
    let ghost s = bytes@.subrange(from as int, from + width);
    proof {
        lemma_be_bound(s);
        lemma_byte_spans();
        assert(bytes.len() == bytes@.len());
    }
    if width == 0 {
        0
    } else {
        let rest = read_be(bytes, from, width - 1);
        proof {
            assert(s.drop_last() =~= bytes@.subrange(from as int, from + width - 1));
            lemma_byte_span_grows(width as nat, 16);
        }
        256 * rest + bytes[from + width - 1] as u128
    }
}

/// More bytes hold at least as much.
pub proof fn lemma_byte_span_grows(small: nat, large: nat)
    requires
        small <= large,
    ensures
        byte_span(small) <= byte_span(large),
    decreases large,
{
    if small < large {
        lemma_byte_span_grows(small, (large - 1) as nat);
    }
}

/// Byte `i` of a number, least significant first, is its digit of weight 256
/// to the power of `i`.
pub proof fn lemma_le_byte(x: nat, width: nat, i: int)
    requires
        0 <= i < width,
    ensures
        le_bytes(x, width).len() == width,
        le_bytes(x, width)[i] as int == (x as int / pow(256, i as nat)) % 256,
    decreases width,
{
    lemma_le_len(x, width);
    if i == 0 {
        lemma_pow0(256);
    } else {
        let rest = le_bytes(x / 256, (width - 1) as nat);
        lemma_le_byte(x / 256, (width - 1) as nat, i - 1);
        assert(le_bytes(x, width)[i] == rest[i - 1]);
        lemma_pow_positive(256, (i - 1) as nat);
        lemma_pow_adds(256, 1, (i - 1) as nat);
        lemma_pow1(256);
        lemma_div_denominator(x as int, 256, pow(256, (i - 1) as nat));
    }
}

/// Byte `i` of a number, most significant first, is its digit of weight 256 to
/// the power of how many bytes follow it.
pub proof fn lemma_be_byte(x: nat, width: nat, i: int)
    requires
        0 <= i < width,
    ensures
        be_bytes(x, width).len() == width,
        be_bytes(x, width)[i] as int == (x as int / pow(256, (width - 1 - i) as nat)) % 256,
    decreases width,
{
    lemma_be_len(x, width);
    if i == width - 1 {
        lemma_pow0(256);
    } else {
        let rest = be_bytes(x / 256, (width - 1) as nat);
        lemma_be_byte(x / 256, (width - 1) as nat, i);
        assert(be_bytes(x, width)[i] == rest[i]);
        let e = (width - 2 - i) as nat;
        lemma_pow_positive(256, e);
        lemma_pow_adds(256, 1, e);
        lemma_pow1(256);
        lemma_div_denominator(x as int, 256, pow(256, e));
    }
}

/// Bytes are those of the number that they read as, least significant first.
pub proof fn lemma_le_writes_back(s: Seq<u8>)
    ensures
        le_bytes(le_value(s), s.len()) == s,
    decreases s.len(),
{
    if s.len() > 0 {
        let rest = s.subrange(1, s.len() as int);
        lemma_le_writes_back(rest);
        assert(le_value(s) / 256 == le_value(rest));
        assert(seq![s[0]] + rest =~= s);
    } else {
        assert(le_bytes(le_value(s), s.len()) =~= s);
    }
}

/// Bytes are those of the number that they read as, most significant first.
pub proof fn lemma_be_writes_back(s: Seq<u8>)
    ensures
        be_bytes(be_value(s), s.len()) == s,
    decreases s.len(),
{
    if s.len() > 0 {
        let rest = s.drop_last();
        lemma_be_writes_back(rest);
        assert(be_value(s) / 256 == be_value(rest));
        assert(rest.push(s.last()) =~= s);
    } else {
        assert(be_bytes(be_value(s), s.len()) =~= s);
    }
}

} // verus!
