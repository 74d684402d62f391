//! The BCH checksum over 5-bit groups ("polymod") and its two variants.
use vstd::prelude::*;

verus! {

/// Which checksum, if any, closes an encoded string.
#[derive(Debug, Clone, Copy, PartialEq, Eq, Structural)]
pub enum Variant {
    /// The checksum of BIP 173: the remainder is xored with 1.
    Bech32,
    /// The checksum of BIP 350: the remainder is xored with 0x2bc830a3.
    Bech32m,
    /// No checksum is appended.
    NoChecksum,
}

pub const BECH32_CONST: u32 = 1;

pub const BECH32M_CONST: u32 = 0x2bc830a3;

pub const GEN0: u32 = 0x3b6a57b2;

pub const GEN1: u32 = 0x26508e6d;

pub const GEN2: u32 = 0x1ea119fa;

pub const GEN3: u32 = 0x3d4233dd;

pub const GEN4: u32 = 0x2a1462b3;

/// The constant a variant xors into the remainder (none for `NoChecksum`).
pub open spec fn variant_const(v: Variant) -> u32 {
    match v {
        Variant::Bech32 => BECH32_CONST,
        Variant::Bech32m => BECH32M_CONST,
        Variant::NoChecksum => 0,
    }
}

/// The generators selected by the five bits of `top`, xored together.
pub open spec fn gen_mask(top: u32) -> u32 {
    (if top & 1 != 0 { GEN0 } else { 0 }) ^ (if top & 2 != 0 { GEN1 } else { 0 }) ^ (if top & 4
        != 0 {
        GEN2
    } else {
        0
    }) ^ (if top & 8 != 0 { GEN3 } else { 0 }) ^ (if top & 16 != 0 { GEN4 } else { 0 })
}

/// One step of the remainder computation: shift in the group `v`, and reduce
/// by the generators that the five bits shifted out select.
pub open spec fn polymod_step(c: u32, v: u8) -> u32 {
    (((c & 0x1ffffff) << 5u32) ^ (v as u32)) ^ gen_mask(c >> 25u32)
}

/// The remainder after feeding the groups of `s`, starting from `c`.
pub open spec fn polymod_from(c: u32, s: Seq<u8>) -> u32
    decreases s.len(),
{
    if s.len() == 0 {
        c
    } else {
        polymod_step(polymod_from(c, s.drop_last()), s.last())
    }
}

/// The remainder of a sequence of groups, starting from 1.
pub open spec fn polymod(s: Seq<u8>) -> u32 {
    polymod_from(1, s)
}

/// The six groups of a 30-bit value, most significant first.
pub open spec fn six_groups(p: u32) -> Seq<u8> {
    Seq::new(6, |i: int| ((p >> ((25 - 5 * i) as u32)) & 31) as u8)
}

/// The checksum of `prefix` (an expanded human-readable part followed by the
/// data groups) for the variant constant `k`.
pub open spec fn checksum_groups(prefix: Seq<u8>, k: u32) -> Seq<u8> {
    six_groups(polymod(prefix + seq![0u8, 0u8, 0u8, 0u8, 0u8, 0u8]) ^ k)
}

proof fn lemma_xor_bound(a: u32, b: u32)
    requires
        a < 0x40000000,
        b < 0x40000000,
    ensures
        a ^ b < 0x40000000,
{
    assert(a ^ b < 0x40000000) by (bit_vector)
        requires
            a < 0x40000000,
            b < 0x40000000,
    ;
}

/// A step keeps the remainder within 30 bits.
proof fn lemma_step_bound(c: u32, v: u8)
    requires
        v < 32,
    ensures
        polymod_step(c, v) < 0x40000000,
{
    let vv = v as u32;
    assert((((c & 0x1ffffff) << 5u32) ^ vv) < 0x40000000) by (bit_vector)
        requires
            vv < 32,
    ;
    let top = c >> 25u32;
    let g0: u32 = if top & 1 != 0 { GEN0 } else { 0 };
    let g1: u32 = if top & 2 != 0 { GEN1 } else { 0 };
    let g2: u32 = if top & 4 != 0 { GEN2 } else { 0 };
    let g3: u32 = if top & 8 != 0 { GEN3 } else { 0 };
    let g4: u32 = if top & 16 != 0 { GEN4 } else { 0 };
    lemma_xor_bound(g0, g1);
    lemma_xor_bound(g0 ^ g1, g2);
    lemma_xor_bound(g0 ^ g1 ^ g2, g3);
    lemma_xor_bound(g0 ^ g1 ^ g2 ^ g3, g4);
    lemma_xor_bound(((c & 0x1ffffff) << 5u32) ^ vv, gen_mask(top));
}

/// A group fed in only flows into the low bits of the remainder: feeding `v`
/// after a difference `x` in the low 25 bits differs from feeding a zero by
/// `(x << 5) ^ v`.
proof fn lemma_step_xor(c: u32, x: u32, v: u8)
    requires
        x < 0x2000000,
        v < 32,
    ensures
        polymod_step(c ^ x, v) == polymod_step(c, 0) ^ ((x << 5u32) ^ (v as u32)),
{
    let vv = v as u32;
    assert((c ^ x) >> 25u32 == c >> 25u32) by (bit_vector)
        requires
            x < 0x2000000,
    ;
    let g = gen_mask(c >> 25u32);
    assert(((((c ^ x) & 0x1ffffff) << 5u32) ^ vv) ^ g == ((((c & 0x1ffffff) << 5u32) ^ 0u32)
        ^ g) ^ ((x << 5u32) ^ vv)) by (bit_vector)
        requires
            x < 0x2000000,
    ;
}

/// Feeding `a` then `b` is feeding `a + b`.
pub proof fn lemma_polymod_append(c: u32, a: Seq<u8>, b: Seq<u8>)
    ensures
        polymod_from(c, a + b) == polymod_from(polymod_from(c, a), b),
    decreases b.len(),
{
    if b.len() == 0 {
        assert(a + b =~= a);
    } else {
        lemma_polymod_append(c, a, b.drop_last());
        assert((a + b).drop_last() =~= a + b.drop_last());
    }
}

proof fn lemma_polymod_six(c: u32, t: Seq<u8>)
    requires
        t.len() == 6,
    ensures
        polymod_from(c, t) == polymod_step(
            polymod_step(
                polymod_step(
                    polymod_step(polymod_step(polymod_step(c, t[0]), t[1]), t[2]),
                    t[3],
                ),
                t[4],
            ),
            t[5],
        ),
{
    assert(t.drop_last() =~= t.take(5));
    assert(t.take(5).drop_last() =~= t.take(4));
    assert(t.take(4).drop_last() =~= t.take(3));
    assert(t.take(3).drop_last() =~= t.take(2));
    assert(t.take(2).drop_last() =~= t.take(1));
    assert(t.take(1).drop_last() =~= t.take(0));
    reveal_with_fuel(polymod_from, 7);
}

/// A remainder started within 30 bits stays within 30 bits.
pub proof fn lemma_polymod_bound(c: u32, s: Seq<u8>)
    requires
        c < 0x40000000,
        forall|i: int| 0 <= i < s.len() ==> s[i] < 32,
    ensures
        polymod_from(c, s) < 0x40000000,
    decreases s.len(),
{
    if s.len() > 0 {
        lemma_polymod_bound(c, s.drop_last());
        lemma_step_bound(polymod_from(c, s.drop_last()), s.last());
    }
}

/// Appending the checksum computed for a prefix makes the remainder of the
/// whole equal to the variant constant.
pub proof fn lemma_checksum_closes(prefix: Seq<u8>, k: u32)
    requires
        k < 0x40000000,
        forall|i: int| 0 <= i < prefix.len() ==> prefix[i] < 32,
    ensures
        polymod(prefix + checksum_groups(prefix, k)) == k,
{
    let zs = seq![0u8, 0u8, 0u8, 0u8, 0u8, 0u8];
    let c0 = polymod(prefix);
    lemma_polymod_bound(1, prefix);
    lemma_polymod_append(1, prefix, zs);
    lemma_polymod_six(c0, zs);
    let z1 = polymod_step(c0, 0);
    let z2 = polymod_step(z1, 0);
    let z3 = polymod_step(z2, 0);
    let z4 = polymod_step(z3, 0);
    let z5 = polymod_step(z4, 0);
    let pz = polymod_step(z5, 0);
    lemma_step_bound(z5, 0);
    let p = pz ^ k;
    lemma_xor_bound(pz, k);
    let vs = checksum_groups(prefix, k);
    assert(vs == six_groups(p));
    let w0 = (p >> 25u32) & 31;
    let w1 = (p >> 20u32) & 31;
    let w2 = (p >> 15u32) & 31;
    let w3 = (p >> 10u32) & 31;
    let w4 = (p >> 5u32) & 31;
    let w5 = (p >> 0u32) & 31;
    assert(w0 < 32 && w1 < 32 && w2 < 32 && w3 < 32 && w4 < 32 && w5 < 32) by (bit_vector)
        requires
            w0 == (p >> 25u32) & 31,
            w1 == (p >> 20u32) & 31,
            w2 == (p >> 15u32) & 31,
            w3 == (p >> 10u32) & 31,
            w4 == (p >> 5u32) & 31,
            w5 == (p >> 0u32) & 31,
    ;
    assert(vs[0] as u32 == w0 && vs[1] as u32 == w1 && vs[2] as u32 == w2);
    assert(vs[3] as u32 == w3 && vs[4] as u32 == w4 && vs[5] as u32 == w5);
    let x1 = (0u32 << 5u32) ^ w0;
    let x2 = (x1 << 5u32) ^ w1;
    let x3 = (x2 << 5u32) ^ w2;
    let x4 = (x3 << 5u32) ^ w3;
    let x5 = (x4 << 5u32) ^ w4;
    let x6 = (x5 << 5u32) ^ w5;
    assert(c0 ^ 0u32 == c0 && x1 < 0x2000000 && x2 < 0x2000000 && x3 < 0x2000000 && x4
        < 0x2000000 && x5 < 0x2000000 && x6 == p) by (bit_vector)
        requires
            p < 0x40000000,
            w0 == (p >> 25u32) & 31,
            w1 == (p >> 20u32) & 31,
            w2 == (p >> 15u32) & 31,
            w3 == (p >> 10u32) & 31,
            w4 == (p >> 5u32) & 31,
            w5 == (p >> 0u32) & 31,
            x1 == (0u32 << 5u32) ^ w0,
            x2 == (x1 << 5u32) ^ w1,
            x3 == (x2 << 5u32) ^ w2,
            x4 == (x3 << 5u32) ^ w3,
            x5 == (x4 << 5u32) ^ w4,
            x6 == (x5 << 5u32) ^ w5,
    ;
    lemma_step_xor(c0, 0, vs[0]);
    lemma_step_xor(z1, x1, vs[1]);
    lemma_step_xor(z2, x2, vs[2]);
    lemma_step_xor(z3, x3, vs[3]);
    lemma_step_xor(z4, x4, vs[4]);
    lemma_step_xor(z5, x5, vs[5]);
    lemma_polymod_append(1, prefix, vs);
    lemma_polymod_six(c0, vs);
    assert(pz ^ (pz ^ k) == k) by (bit_vector);
}

/// Every checksum group is a 5-bit value.
pub proof fn lemma_six_groups_bound(p: u32)
    ensures
        forall|i: int| 0 <= i < 6 ==> #[trigger] six_groups(p)[i] < 32,
{
    assert forall|i: int| 0 <= i < 6 implies #[trigger] six_groups(p)[i] < 32 by {
        let s = (25 - 5 * i) as u32;
        assert((p >> s) & 31 < 32) by (bit_vector);
    }
}

fn gen_mask_exec(top: u32) -> (r: u32)
    ensures
        r == gen_mask(top),
{
    let g0: u32 = if top & 1 != 0 { GEN0 } else { 0 };
    let g1: u32 = if top & 2 != 0 { GEN1 } else { 0 };
    let g2: u32 = if top & 4 != 0 { GEN2 } else { 0 };
    let g3: u32 = if top & 8 != 0 { GEN3 } else { 0 };
    let g4: u32 = if top & 16 != 0 { GEN4 } else { 0 };
    g0 ^ g1 ^ g2 ^ g3 ^ g4
}

/// Feeds the groups of `s` into the remainder `c`.
pub fn polymod_run(c: u32, s: &[u8]) -> (r: u32)
    ensures
        r == polymod_from(c, s@),
{
    let mut acc: u32 = c;
    let mut i: usize = 0;
    while i < s.len()
        invariant
            i <= s@.len(),
            acc == polymod_from(c, s@.take(i as int)),
        decreases s@.len() - i,
    {
        proof {
            assert(s@.take(i + 1).drop_last() =~= s@.take(i as int));
        }
        let top = acc >> 25;
        let g = gen_mask_exec(top);
        acc = (((acc & 0x1ffffff) << 5) ^ (s[i] as u32)) ^ g;
        i = i + 1;
    }
    proof {
        assert(s@.take(s@.len() as int) =~= s@);
    }
    acc
}

} // verus!
