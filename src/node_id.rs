//! 24-bit node identifiers and their reversible mapping to colours.

use vstd::arithmetic::div_mod::{lemma_mod_multiples_vanish, lemma_mul_mod_noop_left, lemma_small_mod};
use vstd::prelude::*;

verus! {

/// Number of distinct identifiers: an identifier fits in 24 bits.
pub const MODULUS: u32 = 0x100_0000;

/// Odd multiplier that scrambles an identifier; odd numbers are units modulo `MODULUS`.
pub const MULTIPLIER: u32 = 0xC2_97D7;

/// The inverse of `MULTIPLIER` modulo `MODULUS`.
pub const MULTIPLIER_INVERSE: u32 = 0xDB_4BE7;

/// Mask applied before the multiplication.
pub const XOR_MASK: u32 = 0x55_AA33;

/// A colour with eight bits per channel.
#[derive(Clone, Copy, Debug, PartialEq, Eq, Structural)]
pub struct Rgb {
    pub r: u8,
    pub g: u8,
    pub b: u8,
}

/// The 24-bit value whose low byte is red, middle byte green and high byte blue.
pub open spec fn pack(c: Rgb) -> u32 {
    (c.r as u32) | ((c.g as u32) << 8u32) | ((c.b as u32) << 16u32)
}

/// The colour whose channels are the three low bytes of `v`, red lowest.
pub open spec fn unpack(v: u32) -> Rgb {
    Rgb { r: (v & 0xFFu32) as u8, g: ((v >> 8u32) & 0xFFu32) as u8, b: ((v >> 16u32) & 0xFFu32) as u8 }
}

/// Masks `x`, then multiplies it by `MULTIPLIER` in the ring of integers modulo `MODULUS`.
pub open spec fn scramble_value(x: u32) -> u32 {
    (((x ^ XOR_MASK) as int * MULTIPLIER as int) % MODULUS as int) as u32
}

/// Multiplies `x` by `MULTIPLIER_INVERSE` modulo `MODULUS`, then masks it.
pub open spec fn unscramble_value(x: u32) -> u32 {
    (((x as int * MULTIPLIER_INVERSE as int) % MODULUS as int) as u32) ^ XOR_MASK
}

/// The colour that stands for identifier `id` in a picking image.
pub open spec fn encode(id: u32) -> Rgb {
    unpack(scramble_value(id))
}

/// The identifier that a picking-image colour stands for.
pub open spec fn decode(c: Rgb) -> u32 {
    unscramble_value(pack(c))
}

/// A 24-bit identifier of a primitive or of an operation.
#[derive(Clone, Copy, Debug, PartialEq, Eq, Structural, PartialOrd, Ord, Hash)]
pub struct NodeId(u32);

impl View for NodeId {
    type V = u32;

    closed spec fn view(&self) -> u32 {
        self.0
    }
}

/// The identifier with value `v`, for `v` below `MODULUS`.
pub closed spec fn node_id_of(v: u32) -> NodeId {
    NodeId(v)
}

/// `node_id_of` gives an identifier its value, and every identifier is the
/// `node_id_of` its value.
pub proof fn lemma_node_id_of(v: u32, id: NodeId)
    ensures
        v < MODULUS ==> (#[trigger] node_id_of(v))@ == v,
        node_id_of(#[trigger] id@) == id,
{
}

impl NodeId {
    #[verifier::type_invariant]
    spec fn in_range(self) -> bool {
        self.0 < MODULUS
    }

    pub fn new(id: u32) -> (r: NodeId)
        requires
            id < MODULUS,
        ensures
            r@ == id,
            r == node_id_of(id),
    {
        NodeId(id)
    }

    pub fn value(self) -> (r: u32)
        ensures
            r == self@,
            r < MODULUS,
    {
        proof {
            use_type_invariant(self);
        }
        self.0
    }

    /// The identifier's bits as a colour, without scrambling.
    pub fn to_color(self) -> (r: Rgb)
        ensures
            r == unpack(self@),
    {
        unpack_value(self.0)
    }

    /// The identifier as a picking colour: scrambled, so that identifiers made
    /// one after another get colours far apart.
    pub fn to_scrambled_color(self) -> (r: Rgb)
        ensures
            r == encode(self@),
    {
        proof {
            use_type_invariant(self);
        }
        unpack_value(scramble(self.0))
    }

    /// The identifier that a picking colour stands for; inverse of
    /// `to_scrambled_color`. Every colour gives some identifier, which need
    /// not be one that is in use.
    pub fn from_color(color: Rgb) -> (r: NodeId)
        ensures
            r@ == decode(color),
            r == node_id_of(decode(color)),
    {
        let v = unscramble(pack_value(color));
        NodeId(v)
    }

    /// The identifier whose bits a colour holds, without unscrambling;
    /// inverse of `to_color`.
    pub fn from_plain_color(color: Rgb) -> (r: NodeId)
        ensures
            r@ == pack(color),
            r == node_id_of(pack(color)),
    {
        let v = pack_value(color);
        NodeId(v)
    }
}

fn pack_value(c: Rgb) -> (r: u32)
    ensures
        r == pack(c),
        r < MODULUS,
{
    let (r, g, b) = (c.r as u32, c.g as u32, c.b as u32);
    proof {
        lemma_pack_in_range(c);
    }
    r | (g << 8u32) | (b << 16u32)
}

fn unpack_value(v: u32) -> (r: Rgb)
    ensures
        r == unpack(v),
{
    Rgb { r: (v & 0xFF) as u8, g: ((v >> 8u32) & 0xFF) as u8, b: ((v >> 16u32) & 0xFF) as u8 }
}

fn scramble(x: u32) -> (r: u32)
    requires
        x < MODULUS,
    ensures
        r == scramble_value(x),
        r < MODULUS,
{
    let y = x ^ XOR_MASK;
    assert(y < 0x100_0000u32) by (bit_vector)
        requires
            y == x ^ 0x55_AA33u32,
            x < 0x100_0000u32,
    ;
    assert((y as int) * (MULTIPLIER as int) < 0x1_0000_0000_0000) by (nonlinear_arith)
        requires
            y < MODULUS,
    ;
    let p: u64 = (y as u64) * (MULTIPLIER as u64);
    (p % (MODULUS as u64)) as u32
}

fn unscramble(x: u32) -> (r: u32)
    requires
        x < MODULUS,
    ensures
        r == unscramble_value(x),
        r < MODULUS,
{
    assert((x as int) * (MULTIPLIER_INVERSE as int) < 0x1_0000_0000_0000) by (nonlinear_arith)
        requires
            x < MODULUS,
    ;
    let p: u64 = (x as u64) * (MULTIPLIER_INVERSE as u64);
    let y = (p % (MODULUS as u64)) as u32;
    let r = y ^ XOR_MASK;
    assert(r < 0x100_0000u32) by (bit_vector)
        requires
            r == y ^ 0x55_AA33u32,
            y < 0x100_0000u32,
    ;
    r
}

/// A packed colour is a 24-bit value.
pub proof fn lemma_pack_in_range(c: Rgb)
    ensures
        pack(c) < MODULUS,
{
    let (r, g, b) = (c.r as u32, c.g as u32, c.b as u32);
    assert(r | (g << 8u32) | (b << 16u32) < 0x100_0000u32) by (bit_vector)
        requires
            r < 256u32,
            g < 256u32,
            b < 256u32,
    ;
}

/// Splitting a 24-bit value into channels and packing them again gives the value back.
pub proof fn lemma_pack_unpack(v: u32)
    requires
        v < MODULUS,
    ensures
        pack(unpack(v)) == v,
{
    let (r, g, b) = (v & 0xFFu32, (v >> 8u32) & 0xFFu32, (v >> 16u32) & 0xFFu32);
    assert(r < 256u32 && g < 256u32 && b < 256u32) by (bit_vector)
        requires
            r == v & 0xFFu32,
            g == (v >> 8u32) & 0xFFu32,
            b == (v >> 16u32) & 0xFFu32,
    ;
    assert(r | (g << 8u32) | (b << 16u32) == v) by (bit_vector)
        requires
            r == v & 0xFFu32,
            g == (v >> 8u32) & 0xFFu32,
            b == (v >> 16u32) & 0xFFu32,
            v < 0x100_0000u32,
    ;
}

/// Unscrambling undoes scrambling on every 24-bit value.
pub proof fn lemma_unscramble_scramble(x: u32)
    requires
        x < MODULUS,
    ensures
        unscramble_value(scramble_value(x)) == x,
{
    let y = x ^ XOR_MASK;
    assert(y < 0x100_0000u32 && y ^ 0x55_AA33u32 == x) by (bit_vector)
        requires
            y == x ^ 0x55_AA33u32,
            x < 0x100_0000u32,
    ;
    let n = MODULUS as int;
    let m = MULTIPLIER as int;
    let w = MULTIPLIER_INVERSE as int;
    let z = (y as int * m) % n;
    assert(scramble_value(x) as int == z);
    lemma_mul_mod_noop_left(y as int * m, w, n);
    assert((y as int * m) * w == n * (y as int * 10924439) + y as int) by (nonlinear_arith)
        requires
            m == 0xC2_97D7,
            w == 0xDB_4BE7,
            n == 0x100_0000,
    ;
    lemma_mod_multiples_vanish(y as int * 10924439, y as int, n);
    lemma_small_mod(y as nat, n as nat);
    assert((z * w) % n == y as int);
}

/// Decoding the colour an identifier was encoded to gives the identifier back.
pub proof fn lemma_decode_encode(id: u32)
    requires
        id < MODULUS,
    ensures
        decode(encode(id)) == id,
{
    lemma_unscramble_scramble(id);
    let s = scramble_value(id);
    assert(s < MODULUS) by {
        let y = id ^ XOR_MASK;
        assert(y < 0x100_0000u32) by (bit_vector)
            requires
                y == id ^ 0x55_AA33u32,
                id < 0x100_0000u32,
        ;
    }
    lemma_pack_unpack(s);
}

/// Distinct identifiers are encoded to distinct colours.
pub proof fn lemma_encode_injective(a: u32, b: u32)
    requires
        a < MODULUS,
        b < MODULUS,
        a != b,
    ensures
        encode(a) != encode(b),
{
    lemma_decode_encode(a);
    lemma_decode_encode(b);
}

} // verus!
