//! Integers as bytes, in network, little-endian and host byte order.
use vstd::prelude::*;

verus! {

/// The order in which the bytes of an integer are stored.
#[derive(Debug, Clone, Copy, PartialEq, Eq, Structural)]
pub enum ByteOrder {
    Little,
    Big,
}

/// The byte order of the machine that the program runs on.
pub open spec fn machine_order() -> ByteOrder {
    match vstd::endian::endianness() {
        vstd::endian::Endian::Little => ByteOrder::Little,
        vstd::endian::Endian::Big => ByteOrder::Big,
    }
}

/// The two bytes of `x`, most significant first.
pub open spec fn be16(x: u16) -> Seq<u8> {
    seq![(x / 256) as u8, (x % 256) as u8]
}

/// The eight bytes of `x`, most significant first.
pub open spec fn be64(x: u64) -> Seq<u8> {
    seq![
        (x / 0x100_0000_0000_0000) as u8,
        (x / 0x1_0000_0000_0000 % 256) as u8,
        (x / 0x100_0000_0000 % 256) as u8,
        (x / 0x1_0000_0000 % 256) as u8,
        (x / 0x100_0000 % 256) as u8,
        (x / 0x1_0000 % 256) as u8,
        (x / 0x100 % 256) as u8,
        (x % 256) as u8,
    ]
}

/// The two bytes of `x` in the order `o`.
pub open spec fn bytes16(o: ByteOrder, x: u16) -> Seq<u8> {
    match o {
        ByteOrder::Little => seq![(x % 256) as u8, (x / 256) as u8],
        ByteOrder::Big => seq![(x / 256) as u8, (x % 256) as u8],
    }
}

/// The four bytes of `x` in the order `o`.
pub open spec fn bytes32(o: ByteOrder, x: u32) -> Seq<u8> {
    match o {
        ByteOrder::Little => seq![
            (x % 256) as u8,
            (x / 0x100 % 256) as u8,
            (x / 0x1_0000 % 256) as u8,
            (x / 0x100_0000) as u8,
        ],
        ByteOrder::Big => seq![
            (x / 0x100_0000) as u8,
            (x / 0x1_0000 % 256) as u8,
            (x / 0x100 % 256) as u8,
            (x % 256) as u8,
        ],
    }
}

/// The number whose digits in base 256 are `s`, most significant first.
pub open spec fn be_value(s: Seq<u8>) -> nat
    decreases s.len(),
{
    if s.len() == 0 {
        0
    } else {
        be_value(s.drop_last()) * 256 + s.last() as nat
    }
}

/// The number whose bytes in the order `o` are `s`.
pub open spec fn value_in(o: ByteOrder, s: Seq<u8>) -> nat {
    match o {
        ByteOrder::Little => be_value(s.reverse()),
        ByteOrder::Big => be_value(s),
    }
}

/// Appends the two bytes of `x`, most significant first.
pub fn push_be16(out: &mut Vec<u8>, x: u16)
    ensures
        final(out)@ == old(out)@ + be16(x),
{
    out.push((x / 256) as u8);
    out.push((x % 256) as u8);
}

/// Appends the eight bytes of `x`, most significant first.
pub fn push_be64(out: &mut Vec<u8>, x: u64)
    ensures
        final(out)@ == old(out)@ + be64(x),
{
    out.push((x / 0x100_0000_0000_0000) as u8);
    out.push((x / 0x1_0000_0000_0000 % 256) as u8);
    out.push((x / 0x100_0000_0000 % 256) as u8);
    out.push((x / 0x1_0000_0000 % 256) as u8);
    out.push((x / 0x100_0000 % 256) as u8);
    out.push((x / 0x1_0000 % 256) as u8);
    out.push((x / 0x100 % 256) as u8);
    out.push((x % 256) as u8);
}

/// Appends the two bytes of `x` in the order `o`.
pub fn push16(out: &mut Vec<u8>, o: ByteOrder, x: u16)
    ensures
        final(out)@ == old(out)@ + bytes16(o, x),
{
    match o {
        ByteOrder::Little => {
            out.push((x % 256) as u8);
            out.push((x / 256) as u8);
        },
        ByteOrder::Big => {
            out.push((x / 256) as u8);
            out.push((x % 256) as u8);
        },
    }
}

/// Appends the four bytes of `x` in the order `o`.
pub fn push32(out: &mut Vec<u8>, o: ByteOrder, x: u32)
    ensures
        final(out)@ == old(out)@ + bytes32(o, x),
{
    match o {
        ByteOrder::Little => {
            out.push((x % 256) as u8);
            out.push((x / 0x100 % 256) as u8);
            out.push((x / 0x1_0000 % 256) as u8);
            out.push((x / 0x100_0000) as u8);
        },
        ByteOrder::Big => {
            out.push((x / 0x100_0000) as u8);
            out.push((x / 0x1_0000 % 256) as u8);
            out.push((x / 0x100 % 256) as u8);
            out.push((x % 256) as u8);
        },
    }
}

/// Appends a copy of `data`.
pub fn push_all(out: &mut Vec<u8>, data: &[u8])
    ensures
        final(out)@ == old(out)@ + data@,
{
    let ghost start = out@;
    let mut i: usize = 0;
    while i < data.len()
        invariant
            i <= data@.len(),
            out@ == start + data@.take(i as int),
        decreases data@.len() - i,
    {
        out.push(data[i]);
        i += 1;
    }
    assert(data@.take(i as int) == data@);
}

/// The bytes of `data` from `from` up to `to`.
pub fn copy_range(data: &[u8], from: usize, to: usize) -> (r: Vec<u8>)
    requires
        from <= to <= data@.len(),
    ensures
        r@ == data@.subrange(from as int, to as int),
{
    let mut out: Vec<u8> = Vec::new();
    let mut i: usize = from;
    while i < to
        invariant
            from <= i <= to <= data@.len(),
            out@ == data@.subrange(from as int, i as int),
        decreases to - i,
    {
        out.push(data[i]);
        i += 1;
    }
    out
}

/// The number whose bytes, most significant first, are `data[from..to]`.
pub fn read_be(data: &[u8], from: usize, to: usize) -> (r: u64)
    requires
        from <= to <= data@.len(),
        to - from <= 8,
    ensures
        r == be_value(data@.subrange(from as int, to as int)),
{
    let mut acc: u64 = 0;
    let mut i: usize = from;
    proof {
        lemma_be_value_bound(data@.subrange(from as int, from as int));
    }
    while i < to
        invariant
            from <= i <= to <= data@.len(),
            to - from <= 8,
            acc == be_value(data@.subrange(from as int, i as int)),
        decreases to - i,
    {
        proof {
            let next = data@.subrange(from as int, i + 1);
            assert(next.drop_last() == data@.subrange(from as int, i as int));
            lemma_be_value_bound(next);
            lemma_pow256_monotone(next.len(), 8);
        }
        acc = acc * 256 + data[i] as u64;
        i += 1;
    }
    acc
}

/// The 16-bit number at `at` in the order `o`.
pub fn read16(data: &[u8], o: ByteOrder, at: usize) -> (r: u16)
    requires
        at + 2 <= data@.len(),
    ensures
        r == value_in(o, data@.subrange(at as int, at + 2)),
{
    let a: u16 = data[at] as u16;
    let b: u16 = data[at + 1] as u16;
    proof {
        let s = data@.subrange(at as int, at + 2);
        lemma_be_value_2(s);
        lemma_be_value_2(s.reverse());
    }
    match o {
        ByteOrder::Little => b * 256 + a,
        ByteOrder::Big => a * 256 + b,
    }
}

/// The 32-bit number at `at` in the order `o`.
pub fn read32(data: &[u8], o: ByteOrder, at: usize) -> (r: u32)
    requires
        at + 4 <= data@.len(),
    ensures
        r == value_in(o, data@.subrange(at as int, at + 4)),
{
    let a: u32 = data[at] as u32;
    let b: u32 = data[at + 1] as u32;
    let c: u32 = data[at + 2] as u32;
    let d: u32 = data[at + 3] as u32;
    proof {
        let s = data@.subrange(at as int, at + 4);
        lemma_be_value_4(s);
        lemma_be_value_4(s.reverse());
    }
    match o {
        ByteOrder::Little => d * 0x100_0000 + c * 0x1_0000 + b * 0x100 + a,
        ByteOrder::Big => a * 0x100_0000 + b * 0x1_0000 + c * 0x100 + d,
    }
}

spec fn pow256(n: nat) -> nat
    decreases n,
{
    if n == 0 {
        1
    } else {
        pow256((n - 1) as nat) * 256
    }
}

proof fn lemma_pow256_monotone(a: nat, b: nat)
    requires
        a <= b <= 8,
    ensures
        pow256(a) <= pow256(b),
        pow256(8) == 0x1_0000_0000_0000_0000,
    decreases b - a,
{
    reveal_with_fuel(pow256, 9);
    if a < b {
        lemma_pow256_monotone(a + 1, b);
    }
}

proof fn lemma_be_value_bound(s: Seq<u8>)
    ensures
        be_value(s) < pow256(s.len()),
    decreases s.len(),
{
    if s.len() > 0 {
        lemma_be_value_bound(s.drop_last());
    }
}

/// `u16::to_ne_bytes`: the two bytes of `x` in the byte order of the machine. Which
/// one that is, is left open.
#[verifier::external_body]
fn to_ne_bytes(x: u16) -> (r: [u8; 2])
    ensures
        r@ == bytes16(machine_order(), x),
{
    x.to_ne_bytes()
}

/// The byte order of the machine.
pub(crate) fn native_order() -> (r: ByteOrder)
    ensures
        r == machine_order(),
{
    if to_ne_bytes(1)[0] == 1 {
        ByteOrder::Little
    } else {
        ByteOrder::Big
    }
}

/// The bytes of a 16-bit number in either order denote the number.
pub proof fn law_bytes16_denote(o: ByteOrder, x: u16)
    ensures
        value_in(o, bytes16(o, x)) == x,
        be_value(be16(x)) == x,
{
    assert(bytes16(ByteOrder::Little, x).reverse() =~= be16(x));
    lemma_be_value_2(be16(x));
    assert(bytes16(ByteOrder::Big, x) =~= be16(x));
}

/// The bytes of a 32-bit number in either order denote the number.
pub proof fn law_bytes32_denote(o: ByteOrder, x: u32)
    ensures
        value_in(o, bytes32(o, x)) == x,
{
    let big = bytes32(ByteOrder::Big, x);
    assert(bytes32(ByteOrder::Little, x).reverse() =~= big);
    lemma_be_value_4(big);
}

/// The bytes of a 64-bit number, most significant first, denote the number.
pub proof fn law_be64_denotes(x: u64)
    ensures
        be_value(be64(x)) == x,
{
    let s = be64(x);
    lemma_be_value_8(s);
    assert((x / 0x100_0000_0000_0000) * 0x100_0000_0000_0000 + (x / 0x1_0000_0000_0000 % 256)
        * 0x1_0000_0000_0000 + (x / 0x100_0000_0000 % 256) * 0x100_0000_0000 + (x / 0x1_0000_0000
        % 256) * 0x1_0000_0000 + (x / 0x100_0000 % 256) * 0x100_0000 + (x / 0x1_0000 % 256)
        * 0x1_0000 + (x / 0x100 % 256) * 0x100 + x % 256 == x) by (bit_vector);
    assert(x / 0x100_0000_0000_0000 < 256) by (bit_vector);
}

pub proof fn lemma_be_value_2(s: Seq<u8>)
    requires
        s.len() == 2,
    ensures
        be_value(s) == s[0] * 256 + s[1],
{
    let a = s.drop_last();
    let b = a.drop_last();
    assert(be_value(b) == 0);
    assert(be_value(a) == s[0]);
}

pub proof fn lemma_be_value_4(s: Seq<u8>)
    requires
        s.len() == 4,
    ensures
        be_value(s) == s[0] * 0x100_0000 + s[1] * 0x1_0000 + s[2] * 0x100 + s[3],
{
    lemma_be_value_2(s.drop_last().drop_last());
    assert(be_value(s.drop_last()) == be_value(s.drop_last().drop_last()) * 256 + s[2]);
}

pub proof fn lemma_be_value_8(s: Seq<u8>)
    requires
        s.len() == 8,
    ensures
        be_value(s) == s[0] * 0x100_0000_0000_0000 + s[1] * 0x1_0000_0000_0000 + s[2]
            * 0x100_0000_0000 + s[3] * 0x1_0000_0000 + s[4] * 0x100_0000 + s[5] * 0x1_0000 + s[6]
            * 0x100 + s[7],
{
    let a = s.drop_last();
    let b = a.drop_last();
    let c = b.drop_last();
    let d = c.drop_last();
    lemma_be_value_4(d);
    assert(be_value(c) == be_value(d) * 256 + s[4]);
    assert(be_value(b) == be_value(c) * 256 + s[5]);
    assert(be_value(a) == be_value(b) * 256 + s[6]);
}

/// In network order and on big-endian machines the most significant byte comes first, on
/// little-endian machines the least significant one; reading goes by the same order.
pub proof fn law_byte_orders(x: u16, y: u32, z: u64, s: Seq<u8>)
    ensures
        be16(x).len() == 2 && be16(x)[0] * 256 + be16(x)[1] == x,
        bytes16(ByteOrder::Big, x) == be16(x),
        bytes16(ByteOrder::Little, x) == seq![be16(x)[1], be16(x)[0]],
        bytes32(ByteOrder::Big, y).len() == 4,
        bytes32(ByteOrder::Big, y)[0] * 0x100_0000 + bytes32(ByteOrder::Big, y)[1] * 0x1_0000
            + bytes32(ByteOrder::Big, y)[2] * 0x100 + bytes32(ByteOrder::Big, y)[3] == y,
        bytes32(ByteOrder::Little, y) == bytes32(ByteOrder::Big, y).reverse(),
        be64(z).len() == 8,
        be64(z)[7] == z % 256 && be64(z)[6] == z / 0x100 % 256 && be64(z)[5] == z / 0x1_0000 % 256,
        be64(z)[3] == z / 0x1_0000_0000 % 256 && be64(z)[2] == z / 0x100_0000_0000 % 256,
        be64(z)[1] == z / 0x1_0000_0000_0000 % 256,
        be64(z)[4] == z / 0x100_0000 % 256 && be64(z)[0] == z / 0x100_0000_0000_0000,
        s.len() == 2 ==> value_in(ByteOrder::Big, s) == 256 * s[0] + s[1],
        s.len() == 2 ==> value_in(ByteOrder::Little, s) == s[0] + 256 * s[1],
        s.len() == 4 ==> value_in(ByteOrder::Big, s) == 0x100_0000 * s[0] + 0x1_0000 * s[1] + 0x100
            * s[2] + s[3],
        s.len() == 4 ==> value_in(ByteOrder::Little, s) == s[0] + 0x100 * s[1] + 0x1_0000 * s[2]
            + 0x100_0000 * s[3],
        s.len() == 2 ==> be_value(s) == 256 * s[0] + s[1],
{
    reveal_with_fuel(be_value, 9);
    assert(bytes32(ByteOrder::Little, y) =~= bytes32(ByteOrder::Big, y).reverse());
    assert(bytes16(ByteOrder::Little, x) =~= seq![be16(x)[1], be16(x)[0]]);
}

} // verus!
