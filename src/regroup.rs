//! Regrouping between bytes and 5-bit groups (quintets).
use crate::bits::{
    all_zero, bits_msb, lemma_bits_msb_all_zero, lemma_bits_msb_len, lemma_bits_msb_concat, lemma_bits_msb_split,
    lemma_bits_msb_zero, lemma_seq_bits_len, lemma_seq_of_bits_bounded, lemma_seq_bits_of_seq, lemma_seq_bits_push,
    lemma_seq_of_seq_bits, seq_bits, seq_of_bits, zeros,
};
use vstd::arithmetic::div_mod::*;
use vstd::arithmetic::power2::*;
use vstd::prelude::*;

verus! {

/// Why 5-bit groups could not be turned back into bytes.
#[derive(Debug, Clone, Copy, PartialEq, Eq, Structural)]
pub enum PaddingError {
    /// The bits left over after the last whole byte are not all zero.
    NonZeroPadding,
}

/// Every item is a 5-bit value.
pub open spec fn is_quintets(q: Seq<u8>) -> bool {
    forall|i: int| 0 <= i < q.len() ==> q[i] < 32
}

/// How many zero bits bring `n` bits up to a multiple of 5.
pub open spec fn pad_len(n: nat) -> nat {
    ((5 - n % 5) % 5) as nat
}

/// The bytes as one big-endian bit string, zero-padded on the right to whole
/// 5-bit groups, cut into those groups.
pub open spec fn to_quintets(d: Seq<u8>) -> Seq<u8> {
    let b = seq_bits(d, 8);
    seq_of_bits(b + zeros(pad_len(b.len())), 5)
}

/// The number of whole bytes in the bits of `n` quintets.
pub open spec fn whole_bytes(n: nat) -> nat {
    (5 * n / 8) as nat
}

/// The quintets as one bit string, cut into whole bytes; the bits left over
/// must all be zero.
pub open spec fn from_quintets(q: Seq<u8>) -> Result<Seq<u8>, PaddingError> {
    let b = seq_bits(q, 5);
    let k = 8 * whole_bytes(q.len()) as int;
    if all_zero(b.skip(k)) {
        Ok(seq_of_bits(b.take(k), 8))
    } else {
        Err(PaddingError::NonZeroPadding)
    }
}

/// Unpacking the groups that packing made gives back the bytes.
pub proof fn lemma_regroup_round_trip(d: Seq<u8>)
    ensures
        is_quintets(to_quintets(d)),
        from_quintets(to_quintets(d)) == Ok::<Seq<u8>, PaddingError>(d),
        to_quintets(d).len() == (8 * d.len() + pad_len(8 * d.len())) / 5,
{
    let b = seq_bits(d, 8);
    let n = d.len();
    lemma_seq_bits_len(d, 8);
    let p = pad_len(8 * n);
    let padded = b + zeros(p);
    let a = (8 * n) / 5;
    lemma_fundamental_div_mod((8 * n) as int, 5);
    lemma_mod_bound((8 * n) as int, 5);
    if (8 * n) % 5 == 0 {
        assert(p == 0);
        lemma_fundamental_div_mod_converse(padded.len() as int, 5, a as int, 0);
    } else {
        assert(p == 5 - (8 * n) % 5);
        lemma_fundamental_div_mod_converse(padded.len() as int, 5, (a + 1) as int, 0);
    }
    lemma_seq_bits_of_seq(padded, 5);
    let q = to_quintets(d);
    lemma_seq_bits_len(q, 5);
    lemma_fundamental_div_mod_converse((5 * q.len()) as int, 8, n as int, p as int);
    assert(whole_bytes(q.len()) == n);
    let bq = seq_bits(q, 5);
    assert(bq.take(8 * n as int) =~= b);
    assert(bq.skip(8 * n as int) =~= zeros(p));
    lemma2_to64();
    lemma_seq_of_seq_bits(d, 8);
    lemma_seq_of_bits_bounded(padded, 5);
    lemma_fundamental_div_mod_converse(padded.len() as int, 5, q.len() as int, 0);
}

fn pow2_u32(k: u32) -> (r: u32)
    requires
        k <= 12,
    ensures
        r as nat == pow2(k as nat),
{
    let mut r: u32 = 1;
    let mut i: u32 = 0;
    proof {
        lemma2_to64();
    }
    while i < k
        invariant
            i <= k <= 12,
            r as nat == pow2(i as nat),
        decreases k - i,
    {
        proof {
            lemma_pow2_unfold((i + 1) as nat);
            lemma_pow2_strictly_increases((i + 1) as nat, 13);
            lemma2_to64();
        }
        r = r * 2;
        i = i + 1;
    }
    r
}

/// Packs bytes into 5-bit groups, big-endian, zero-padding the last group.
pub fn bytes_to_quintets(d: &[u8]) -> (r: Vec<u8>)
    ensures
        r@ == to_quintets(d@),
        is_quintets(r@),
        seq_bits(r@, 5) == seq_bits(d@, 8) + zeros(pad_len(8 * d@.len())),
{
    let mut out: Vec<u8> = Vec::new();
    let mut acc: u32 = 0;
    let mut nbits: u32 = 0;
    let mut i: usize = 0;
    proof {
        lemma2_to64();
        assert(d@.take(0) =~= Seq::<u8>::empty());
        assert(seq_bits(out@, 5) + bits_msb(0, 0) =~= seq_bits(d@.take(0), 8));
    }
    while i < d.len()
        invariant
            i <= d@.len(),
            nbits < 5,
            acc < pow2(nbits as nat),
            is_quintets(out@),
            seq_bits(out@, 5) + bits_msb(acc as nat, nbits as nat) == seq_bits(d@.take(i as int), 8),
        decreases d@.len() - i,
    {
        proof {
            lemma2_to64();
            lemma_pow2_strictly_increases(nbits as nat, 5);
            lemma_seq_bits_take_next(d@, i as int, 8);
            lemma_bits_msb_concat(acc as nat, d@[i as int] as nat, nbits as nat, 8);
            lemma_pow2_adds(nbits as nat, 8);
            assert(acc * 256 + d@[i as int] < pow2((nbits + 8) as nat)) by (nonlinear_arith)
                requires
                    acc < pow2(nbits as nat),
                    pow2((nbits + 8) as nat) == pow2(nbits as nat) * 256,
                    d@[i as int] < 256,
            ;
        }
        acc = acc * 256 + d[i] as u32;
        nbits = nbits + 8;
        while nbits >= 5
            invariant
                i < d@.len(),
                nbits < 13,
                acc < pow2(nbits as nat),
                is_quintets(out@),
                seq_bits(out@, 5) + bits_msb(acc as nat, nbits as nat) == seq_bits(
                    d@.take(i + 1),
                    8,
                ),
            decreases nbits,
        {
            let p = pow2_u32(nbits - 5);
            proof {
                lemma_emit(seq_bits(d@.take(i + 1), 8), out@, acc as nat, nbits as nat, 5);
                lemma2_to64();
            }
            let q = acc / p;
            acc = acc % p;
            out.push(q as u8);
            nbits = nbits - 5;
        }
        i = i + 1;
    }
    let ghost before = seq_bits(d@, 8);
    proof {
        assert(d@.take(d@.len() as int) =~= d@);
        lemma_seq_bits_len(d@, 8);
        lemma_seq_bits_len(out@, 5);
        lemma_bits_msb_len(acc as nat, nbits as nat);
        lemma_fundamental_div_mod_converse(
            (8 * d@.len()) as int,
            5,
            out@.len() as int,
            nbits as int,
        );
    }
    if nbits > 0 {
        let p = pow2_u32(5 - nbits);
        proof {
            lemma2_to64();
            lemma_bits_msb_concat(acc as nat, 0, nbits as nat, (5 - nbits) as nat);
            lemma_bits_msb_zero((5 - nbits) as nat);
            lemma_pow2_adds(nbits as nat, (5 - nbits) as nat);
            assert(acc * p < 32) by (nonlinear_arith)
                requires
                    acc < pow2(nbits as nat),
                    p == pow2((5 - nbits) as nat),
                    pow2(nbits as nat) * pow2((5 - nbits) as nat) == 32,
            ;
        }
        let q = acc * p;
        proof {
            lemma_seq_bits_push(out@, q as u8, 5);
            assert(seq_bits(out@.push(q as u8), 5) =~= before + zeros(pad_len(8 * d@.len())));
        }
        out.push(q as u8);
    } else {
        proof {
            lemma_bits_msb_zero(0);
            assert(seq_bits(out@, 5) =~= before + zeros(pad_len(8 * d@.len())));
        }
    }
    proof {
        lemma2_to64();
        lemma_seq_of_seq_bits(out@, 5);
    }
    out
}

/// Unpacks 5-bit groups into bytes, dropping the bits after the last whole
/// byte, which must all be zero.
pub fn quintets_to_bytes(q: &[u8]) -> (r: Result<Vec<u8>, PaddingError>)
    requires
        is_quintets(q@),
    ensures
        match r {
            Ok(v) => from_quintets(q@) == Ok::<Seq<u8>, PaddingError>(v@),
            Err(e) => from_quintets(q@) == Err::<Seq<u8>, PaddingError>(e),
        },
{
    let mut out: Vec<u8> = Vec::new();
    let mut acc: u32 = 0;
    let mut nbits: u32 = 0;
    let mut i: usize = 0;
    proof {
        lemma2_to64();
        assert(q@.take(0) =~= Seq::<u8>::empty());
        assert(seq_bits(out@, 8) + bits_msb(0, 0) =~= seq_bits(q@.take(0), 5));
    }
    while i < q.len()
        invariant
            i <= q@.len(),
            is_quintets(q@),
            nbits < 8,
            acc < pow2(nbits as nat),
            seq_bits(out@, 8) + bits_msb(acc as nat, nbits as nat) == seq_bits(q@.take(i as int), 5),
        decreases q@.len() - i,
    {
        proof {
            lemma2_to64();
            lemma_pow2_strictly_increases(nbits as nat, 8);
            lemma_seq_bits_take_next(q@, i as int, 5);
            lemma_bits_msb_concat(acc as nat, q@[i as int] as nat, nbits as nat, 5);
            lemma_pow2_adds(nbits as nat, 5);
            assert(acc * 32 + q@[i as int] < pow2((nbits + 5) as nat)) by (nonlinear_arith)
                requires
                    acc < pow2(nbits as nat),
                    pow2((nbits + 5) as nat) == pow2(nbits as nat) * 32,
                    q@[i as int] < 32,
            ;
            assert(seq_bits(out@, 8) + bits_msb((acc * 32 + q@[i as int]) as nat, (nbits + 5) as nat)
                =~= seq_bits(q@.take(i + 1), 5));
        }
        acc = acc * 32 + q[i] as u32;
        nbits = nbits + 5;
        if nbits >= 8 {
            let p = pow2_u32(nbits - 8);
            proof {
                lemma_emit(seq_bits(q@.take(i + 1), 5), out@, acc as nat, nbits as nat, 8);
                lemma2_to64();
            }
            let b = acc / p;
            acc = acc % p;
            out.push(b as u8);
            nbits = nbits - 8;
        }
        i = i + 1;
    }
    let ghost bits = seq_bits(q@, 5);
    let ghost k = 8 * whole_bytes(q@.len()) as int;
    proof {
        assert(q@.take(q@.len() as int) =~= q@);
        lemma_seq_bits_len(q@, 5);
        lemma_seq_bits_len(out@, 8);
        lemma_bits_msb_len(acc as nat, nbits as nat);
        lemma_fundamental_div_mod_converse(
            (5 * q@.len()) as int,
            8,
            out@.len() as int,
            nbits as int,
        );
        assert(bits.take(k) =~= seq_bits(out@, 8));
        assert(bits.skip(k) =~= bits_msb(acc as nat, nbits as nat));
        lemma_bits_msb_all_zero(acc as nat, nbits as nat);
        lemma_seq_of_seq_bits(out@, 8);
        lemma2_to64();
    }
    if acc != 0 {
        Err(PaddingError::NonZeroPadding)
    } else {
        Ok(out)
    }
}

proof fn lemma_seq_bits_take_next(s: Seq<u8>, i: int, w: nat)
    requires
        0 <= i < s.len(),
    ensures
        seq_bits(s.take(i + 1), w) == seq_bits(s.take(i), w) + bits_msb(s[i] as nat, w),
{
    assert(s.take(i + 1).drop_last() =~= s.take(i));
}

/// Emits the whole `w`-bit group at the top of `acc`, keeping the rest.
proof fn lemma_emit(
    before: Seq<bool>,
    out: Seq<u8>,
    acc: nat,
    nbits: nat,
    w: nat,
)
    requires
        w <= nbits,
        w <= 8,
        acc < pow2(nbits),
        seq_bits(out, w) + bits_msb(acc, nbits) == before,
    ensures
        ({
            let p = pow2((nbits - w) as nat);
            &&& acc / p < pow2(w)
            &&& acc % p < p
            &&& seq_bits(out.push((acc / p) as u8), w) + bits_msb(acc % p, (nbits - w) as nat)
                == before
        }),
{
    let sh = (nbits - w) as nat;
    let p = pow2(sh);
    lemma_pow2_pos(sh);
    lemma_pow2_adds(w, sh);
    assert(pow2(nbits) == p * pow2(w)) by (nonlinear_arith)
        requires
            pow2(w + sh) == pow2(w) * pow2(sh),
            w + sh == nbits,
            p == pow2(sh),
    ;
    lemma_multiply_divide_lt(acc as int, p as int, pow2(w) as int);
    lemma_mod_bound(acc as int, p as int);
    lemma_bits_msb_split(acc, w, sh);
    lemma2_to64();
    if w < 8 {
        lemma_pow2_strictly_increases(w, 8);
    }
    lemma_seq_bits_push(out, (acc / p) as u8, w);
    assert(seq_bits(out.push((acc / p) as u8), w) + bits_msb(acc % p, sh) =~= before);
}

} // verus!
