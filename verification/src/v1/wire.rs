//! How numbers are laid out: big-endian, signed ones in two's complement.

use vstd::prelude::*;

verus! {

/// 256 to the power of `width`: how many numbers fit in that many bytes.
pub open spec fn radix(width: nat) -> nat
    decreases width,
{
    if width == 0 {
        1
    } else {
        256 * radix((width - 1) as nat)
    }
}

/// The `width` low bytes of a number, most significant byte first.
pub open spec fn be_bytes(x: nat, width: nat) -> Seq<u8>
    decreases width,
{
    if width == 0 {
        Seq::empty()
    } else {
        be_bytes(x / 256, (width - 1) as nat).push((x % 256) as u8)
    }
}

/// The number that a sequence of bytes stands for, most significant byte
/// first.
pub open spec fn be_value(bytes: Seq<u8>) -> nat
    decreases bytes.len(),
{
    if bytes.len() == 0 {
        0
    } else {
        be_value(bytes.drop_last()) * 256 + bytes.last() as nat
    }
}

/// A signed number as the unsigned number with the same `width` bytes.
pub open spec fn to_unsigned(i: int, width: nat) -> nat {
    if i < 0 {
        (i + radix(width)) as nat
    } else {
        i as nat
    }
}

/// The signed number that `width` bytes stand for.
pub open spec fn to_signed(u: nat, width: nat) -> int {
    if 2 * u >= radix(width) {
        u - radix(width)
    } else {
        u as int
    }
}

/// How many numbers fit in one, two, four and eight bytes.
pub proof fn lemma_radix()
    ensures
        radix(0) == 1,
        radix(1) == 0x100,
        radix(2) == 0x1_0000,
        radix(4) == 0x1_0000_0000,
        radix(8) == 0x1_0000_0000_0000_0000,
{
    reveal_with_fuel(radix, 9);
}

/// A number laid out in `width` bytes takes `width` bytes.
pub proof fn lemma_be_bytes_len(x: nat, width: nat)
    ensures
        be_bytes(x, width).len() == width,
    decreases width,
{
    if width > 0 {
        lemma_be_bytes_len(x / 256, (width - 1) as nat);
    }
}

/// Reading back what was written gives the number, if it fits the width.
pub proof fn lemma_be_round_trip(x: nat, width: nat)
    requires
        x < radix(width),
    ensures
        be_value(be_bytes(x, width)) == x,
    decreases width,
{
    if width > 0 {
        let rest = be_bytes(x / 256, (width - 1) as nat);
        lemma_be_round_trip(x / 256, (width - 1) as nat);
        assert(be_bytes(x, width).drop_last() =~= rest);
    }
}

/// Writing what was read gives the bytes back.
pub proof fn lemma_be_value_bytes(bytes: Seq<u8>)
    ensures
        be_value(bytes) < radix(bytes.len()),
        be_bytes(be_value(bytes), bytes.len()) == bytes,
    decreases bytes.len(),
{
    if bytes.len() > 0 {
        lemma_be_value_bytes(bytes.drop_last());
        let x = be_value(bytes);
        assert(x / 256 == be_value(bytes.drop_last()));
        assert(x % 256 == bytes.last());
        assert(be_bytes(x, bytes.len()) =~= bytes);
    }
}

/// A signed number that fits `width` bytes comes back from the unsigned
/// number with the same bytes.
pub proof fn lemma_signed_round_trip(i: int, width: nat)
    requires
        width > 0,
        -(radix(width) / 2) <= i < radix(width) / 2,
    ensures
        to_unsigned(i, width) < radix(width),
        to_signed(to_unsigned(i, width), width) == i,
{
    assert(radix(width) == 256 * radix((width - 1) as nat));
}

/// An unsigned number of `width` bytes comes back from the signed number
/// with the same bytes.
pub proof fn lemma_unsigned_round_trip(u: nat, width: nat)
    requires
        width > 0,
        u < radix(width),
    ensures
        -(radix(width) / 2) <= to_signed(u, width) < radix(width) / 2,
        to_unsigned(to_signed(u, width), width) == u,
{
    assert(radix(width) == 256 * radix((width - 1) as nat));
}


/// The two bytes of a 16-bit number, most significant first.
pub fn u16_to_be_bytes(x: u16) -> (bytes: [u8; 2])
    ensures
        bytes@ == be_bytes(x as nat, 2),
{
    let bytes = [(x / 0x100) as u8, (x % 0x100) as u8];
    proof {
        let high = (x / 0x100) as nat;
        assert(be_bytes(high / 256, 0) =~= Seq::<u8>::empty());
        assert(be_bytes(high, 1) =~= seq![(high % 256) as u8]);
        assert(be_bytes(x as nat, 2) =~= be_bytes(high, 1).push((x % 0x100) as u8));
        assert(bytes@ =~= be_bytes(x as nat, 2));
    }
    bytes
}

/// The four bytes of a 32-bit number, most significant first.
pub fn u32_to_be_bytes(x: u32) -> (bytes: [u8; 4])
    ensures
        bytes@ == be_bytes(x as nat, 4),
{
    let high = u16_to_be_bytes((x / 0x1_0000) as u16);
    let low = u16_to_be_bytes((x % 0x1_0000) as u16);
    let bytes = [high[0], high[1], low[0], low[1]];
    proof {
        lemma_radix();
        lemma_be_bytes_split(x as nat, 2, 2);
        assert(bytes@ =~= high@ + low@);
    }
    bytes
}

/// The eight bytes of a 64-bit number, most significant first.
pub fn u64_to_be_bytes(x: u64) -> (bytes: [u8; 8])
    ensures
        bytes@ == be_bytes(x as nat, 8),
{
    let high = u32_to_be_bytes((x / 0x1_0000_0000) as u32);
    let low = u32_to_be_bytes((x % 0x1_0000_0000) as u32);
    let bytes = [high[0], high[1], high[2], high[3], low[0], low[1], low[2], low[3]];
    proof {
        lemma_radix();
        lemma_be_bytes_split(x as nat, 4, 4);
        assert(bytes@ =~= high@ + low@);
    }
    bytes
}

/// The number that up to eight bytes stand for, most significant first.
pub fn u64_from_be_bytes(bytes: &[u8]) -> (x: u64)
    requires
        bytes@.len() <= 8,
    ensures
        x == be_value(bytes@),
        x < radix(bytes@.len()),
{
    let mut x: u64 = 0;
    let mut i: usize = 0;
    while i < bytes.len()
        invariant
            i <= bytes@.len() <= 8,
            x == be_value(bytes@.take(i as int)),
            x < radix(i as nat),
        decreases bytes@.len() - i,
    {
        proof {
            lemma_radix_grows((i + 1) as nat, 8);
            lemma_radix();
            assert(bytes@.take(i + 1).drop_last() =~= bytes@.take(i as int));
        }
        x = x * 0x100 + bytes[i] as u64;
        i = i + 1;
    }
    proof {
        assert(bytes@.take(i as int) =~= bytes@);
    }
    x
}

/// A signed number of `width` bytes as the unsigned number with the same
/// bytes.
pub fn i64_to_unsigned(i: i64, width: usize) -> (u: u64)
    requires
        width == 1 || width == 2 || width == 4 || width == 8,
        -(radix(width as nat) / 2) <= i < radix(width as nat) / 2,
    ensures
        u == to_unsigned(i as int, width as nat),
        u < radix(width as nat),
{
    proof {
        lemma_radix();
    }
    if i >= 0 {
        i as u64
    } else if width == 1 {
        (i + 0x100) as u64
    } else if width == 2 {
        (i + 0x1_0000) as u64
    } else if width == 4 {
        (i + 0x1_0000_0000) as u64
    } else {
        (i - i64::MIN) as u64 + 0x8000_0000_0000_0000
    }
}

/// The signed number that the `width` bytes of an unsigned number stand for.
pub fn i64_from_unsigned(u: u64, width: usize) -> (i: i64)
    requires
        width == 1 || width == 2 || width == 4 || width == 8,
        u < radix(width as nat),
    ensures
        i == to_signed(u as nat, width as nat),
        -(radix(width as nat) / 2) <= i < radix(width as nat) / 2,
{
    proof {
        lemma_radix();
    }
    if width == 1 {
        if u >= 0x80 {
            u as i64 - 0x100
        } else {
            u as i64
        }
    } else if width == 2 {
        if u >= 0x8000 {
            u as i64 - 0x1_0000
        } else {
            u as i64
        }
    } else if width == 4 {
        if u >= 0x8000_0000 {
            u as i64 - 0x1_0000_0000
        } else {
            u as i64
        }
    } else if u >= 0x8000_0000_0000_0000 {
        (u - 0x8000_0000_0000_0000) as i64 + i64::MIN
    } else {
        u as i64
    }
}

/// The bytes of a number are the bytes of its high part, then those of its
/// low part.
pub proof fn lemma_be_bytes_split(x: nat, high: nat, low: nat)
    ensures
        be_bytes(x, high + low) == be_bytes(x / radix(low), high) + be_bytes(x % radix(low), low),
    decreases low,
{
    if low == 0 {
        assert(radix(0) == 1);
        assert(x / 1 == x);
        assert(be_bytes(x % 1, 0).len() == 0);
        assert(be_bytes(x / radix(low), high) + be_bytes(x % radix(low), low) =~= be_bytes(
            x,
            high,
        ));
    } else {
        let r = radix((low - 1) as nat);
        lemma_radix_grows(0, (low - 1) as nat);
        lemma_be_bytes_split(x / 256, high, (low - 1) as nat);
        assert(radix(low) == 256 * r);
        assert((x / 256) / r == x / (256 * r)) by {
            vstd::arithmetic::div_mod::lemma_div_denominator(x as int, 256, r as int);
        }
        assert((x % (256 * r)) / 256 == (x / 256) % r && (x % (256 * r)) % 256 == x % 256) by {
            vstd::arithmetic::div_mod::lemma_breakdown(x as int, 256, r as int);
            vstd::arithmetic::div_mod::lemma_mod_mod(x as int, 256, r as int);
            vstd::arithmetic::div_mod::lemma_mod_bound(x as int / 256, r as int);
            vstd::arithmetic::div_mod::lemma_fundamental_div_mod_converse(
                (x % (256 * r)) as int,
                256,
                (x as int / 256) % (r as int),
                x as int % 256,
            );
        }
        assert(be_bytes(x, high + low) =~= be_bytes(x / radix(low), high) + be_bytes(
            x % radix(low),
            low,
        ));
    }
}

/// More bytes hold more numbers.
pub proof fn lemma_radix_grows(a: nat, b: nat)
    requires
        a <= b,
    ensures
        0 < radix(a) <= radix(b),
    decreases b,
{
    if a < b {
        lemma_radix_grows(a, (b - 1) as nat);
    } else if a > 0 {
        lemma_radix_grows((a - 1) as nat, (b - 1) as nat);
    }
}

} // verus!
