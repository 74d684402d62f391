//! Bit strings: the model under the regrouping of bytes into 5-bit groups.
use vstd::arithmetic::div_mod::*;
use vstd::arithmetic::power2::*;
use vstd::prelude::*;

verus! {

/// The lowest `w` bits of `v`, most significant first.
pub open spec fn bits_msb(v: nat, w: nat) -> Seq<bool>
    decreases w,
{
    if w == 0 {
        Seq::empty()
    } else {
        bits_msb(v / 2, (w - 1) as nat).push(v % 2 == 1)
    }
}

/// The value of a bit string read most significant bit first.
pub open spec fn bits_value(b: Seq<bool>) -> nat
    decreases b.len(),
{
    if b.len() == 0 {
        0
    } else {
        2 * bits_value(b.drop_last()) + (if b.last() {
            1nat
        } else {
            0nat
        })
    }
}

/// The concatenation of the `w`-bit forms of the items of `s`.
pub open spec fn seq_bits(s: Seq<u8>, w: nat) -> Seq<bool>
    decreases s.len(),
{
    if s.len() == 0 {
        Seq::empty()
    } else {
        seq_bits(s.drop_last(), w) + bits_msb(s.last() as nat, w)
    }
}

/// Cuts a bit string into `w`-bit groups, from the left, and reads each one.
pub open spec fn seq_of_bits(b: Seq<bool>, w: nat) -> Seq<u8>
    decreases b.len(),
{
    if w == 0 || b.len() < w {
        Seq::empty()
    } else {
        seq_of_bits(b.take(b.len() - w), w).push(bits_value(b.skip(b.len() - w)) as u8)
    }
}

/// `n` zero bits.
pub open spec fn zeros(n: nat) -> Seq<bool> {
    Seq::new(n, |i: int| false)
}

/// Every bit of `b` is zero.
pub open spec fn all_zero(b: Seq<bool>) -> bool {
    forall|i: int| 0 <= i < b.len() ==> !b[i]
}

pub proof fn lemma_bits_msb_len(v: nat, w: nat)
    ensures
        bits_msb(v, w).len() == w,
    decreases w,
{
    if w > 0 {
        lemma_bits_msb_len(v / 2, (w - 1) as nat);
    }
}

pub proof fn lemma_seq_bits_len(s: Seq<u8>, w: nat)
    ensures
        seq_bits(s, w).len() == w * s.len(),
    decreases s.len(),
{
    if s.len() > 0 {
        lemma_seq_bits_len(s.drop_last(), w);
        lemma_bits_msb_len(s.last() as nat, w);
        assert(w * s.len() == w * (s.len() - 1) + w) by (nonlinear_arith);
    }
}

pub proof fn lemma_seq_bits_push(s: Seq<u8>, x: u8, w: nat)
    ensures
        seq_bits(s.push(x), w) == seq_bits(s, w) + bits_msb(x as nat, w),
{
    assert(s.push(x).drop_last() =~= s);
}

/// The bits of `a * 2^k + b` are those of `a` followed by those of `b`.
pub proof fn lemma_bits_msb_concat(a: nat, b: nat, n: nat, k: nat)
    requires
        b < pow2(k),
    ensures
        bits_msb(a * pow2(k) + b, n + k) == bits_msb(a, n) + bits_msb(b, k),
    decreases k,
{
    if k == 0 {
        lemma2_to64();
        assert(bits_msb(b, 0) =~= Seq::empty());
        assert(bits_msb(a, n) + bits_msb(b, 0) =~= bits_msb(a, n));
    } else {
        let p = pow2((k - 1) as nat);
        lemma_pow2_unfold(k);
        assert(pow2(k) == 2 * p);
        let v = a * pow2(k) + b;
        assert(v == (a * p + b / 2) * 2 + b % 2) by (nonlinear_arith)
            requires
                v == a * pow2(k) + b,
                pow2(k) == 2 * p,
        ;
        lemma_fundamental_div_mod_converse(v as int, 2, (a * p + b / 2) as int, (b % 2) as int);
        assert(b / 2 < p) by (nonlinear_arith)
            requires
                b < 2 * p,
        ;
        lemma_bits_msb_concat(a, b / 2, n, (k - 1) as nat);
        assert(bits_msb(v, n + k) == bits_msb(v / 2, (n + k - 1) as nat).push(v % 2 == 1));
        assert(bits_msb(b, k) == bits_msb(b / 2, (k - 1) as nat).push(b % 2 == 1));
        assert(bits_msb(v, n + k) =~= bits_msb(a, n) + bits_msb(b, k));
    }
}

/// Splits the bits of `v` at `k` bits from the right.
pub proof fn lemma_bits_msb_split(v: nat, n: nat, k: nat)
    ensures
        bits_msb(v, n + k) == bits_msb(v / pow2(k), n) + bits_msb(v % pow2(k), k),
{
    lemma_pow2_pos(k);
    lemma_fundamental_div_mod(v as int, pow2(k) as int);
    lemma_mod_bound(v as int, pow2(k) as int);
    assert(v == (v / pow2(k)) * pow2(k) + v % pow2(k)) by (nonlinear_arith)
        requires
            v == pow2(k) * (v / pow2(k)) + v % pow2(k),
    ;
    lemma_bits_msb_concat(v / pow2(k), v % pow2(k), n, k);
}

pub proof fn lemma_bits_msb_zero(k: nat)
    ensures
        bits_msb(0, k) == zeros(k),
    decreases k,
{
    if k > 0 {
        lemma_bits_msb_zero((k - 1) as nat);
        assert(bits_msb(0, k) =~= zeros(k));
    }
}

/// Below `2^w`, only zero has no set bit.
pub proof fn lemma_bits_msb_all_zero(v: nat, w: nat)
    requires
        v < pow2(w),
    ensures
        all_zero(bits_msb(v, w)) <==> v == 0,
    decreases w,
{
    if w == 0 {
        lemma2_to64();
        assert(v == 0);
    } else {
        lemma_pow2_unfold(w);
        assert(v / 2 < pow2((w - 1) as nat));
        lemma_bits_msb_all_zero(v / 2, (w - 1) as nat);
        lemma_bits_msb_len(v / 2, (w - 1) as nat);
        let s = bits_msb(v / 2, (w - 1) as nat);
        if all_zero(bits_msb(v, w)) {
            assert forall|i: int| 0 <= i < s.len() implies !s[i] by {
                assert(bits_msb(v, w)[i] == s[i]);
            }
            assert(!bits_msb(v, w)[s.len() as int]);
        }
        if v == 0 {
            lemma_bits_msb_zero(w);
        }
    }
}

pub proof fn lemma_bits_value_of_bits_msb(v: nat, w: nat)
    ensures
        bits_value(bits_msb(v, w)) == v % pow2(w),
    decreases w,
{
    lemma_pow2_pos(w);
    if w == 0 {
        lemma2_to64();
    } else {
        lemma_pow2_unfold(w);
        lemma_bits_value_of_bits_msb(v / 2, (w - 1) as nat);
        let s = bits_msb(v, w);
        assert(s.drop_last() =~= bits_msb(v / 2, (w - 1) as nat));
        let p = pow2((w - 1) as nat);
        lemma_pow2_pos((w - 1) as nat);
        // v % (2p) == 2 * ((v / 2) % p) + v % 2
        lemma_div_mod_split(v, p);
    }
}

pub proof fn lemma_bits_value_bound(b: Seq<bool>)
    ensures
        bits_value(b) < pow2(b.len()),
    decreases b.len(),
{
    if b.len() == 0 {
        lemma2_to64();
    } else {
        lemma_bits_value_bound(b.drop_last());
        lemma_pow2_unfold(b.len());
    }
}

/// Reading a bit string and writing it back gives the same bits.
pub proof fn lemma_bits_msb_of_value(b: Seq<bool>)
    ensures
        bits_msb(bits_value(b), b.len()) == b,
    decreases b.len(),
{
    if b.len() > 0 {
        let d = b.drop_last();
        lemma_bits_msb_of_value(d);
        let v = bits_value(b);
        assert(v / 2 == bits_value(d));
        assert(v % 2 == 1 <==> b.last());
        assert(bits_msb(v, b.len()) == bits_msb(v / 2, d.len()).push(v % 2 == 1));
        assert(bits_msb(v, b.len()) =~= b);
    }
}

/// Items below `2^w` survive a trip through their bits.
pub proof fn lemma_seq_of_seq_bits(s: Seq<u8>, w: nat)
    requires
        w > 0,
        forall|i: int| 0 <= i < s.len() ==> (s[i] as nat) < pow2(w),
    ensures
        seq_of_bits(seq_bits(s, w), w) == s,
    decreases s.len(),
{
    if s.len() > 0 {
        let d = s.drop_last();
        lemma_seq_of_seq_bits(d, w);
        lemma_seq_bits_len(s, w);
        lemma_seq_bits_len(d, w);
        lemma_bits_msb_len(s.last() as nat, w);
        let b = seq_bits(s, w);
        assert(w * s.len() == w * d.len() + w) by (nonlinear_arith)
            requires
                s.len() == d.len() + 1,
        ;
        assert(b.take(b.len() - w) =~= seq_bits(d, w));
        assert(b.skip(b.len() - w) =~= bits_msb(s.last() as nat, w));
        lemma_bits_value_of_bits_msb(s.last() as nat, w);
        lemma_small_mod(s.last() as nat, pow2(w));
        assert(seq_of_bits(b, w) =~= s);
    }
}

/// A bit string of whole `w`-bit groups survives a trip through its groups.
pub proof fn lemma_seq_bits_of_seq(b: Seq<bool>, w: nat)
    requires
        0 < w <= 8,
        b.len() % w == 0,
    ensures
        seq_bits(seq_of_bits(b, w), w) == b,
    decreases b.len(),
{
    if b.len() > 0 {
        lemma_mod_is_zero(b.len(), w);
        let t = b.take(b.len() - w);
        let k = b.skip(b.len() - w);
        lemma_mod_sub_multiples_vanish(b.len() as int, w as int);
        assert((b.len() - w) % (w as int) == 0) by {
            lemma_sub_mod_noop_right(b.len() as int, w as int, w as int);
            lemma_mod_self_0(w as int);
        }
        lemma_seq_bits_of_seq(t, w);
        lemma_bits_value_bound(k);
        if w < 8 {
            lemma_pow2_strictly_increases(w, 8);
        }
        lemma2_to64();
        let x = bits_value(k) as u8;
        assert(seq_of_bits(b, w) == seq_of_bits(t, w).push(x));
        lemma_seq_bits_push(seq_of_bits(t, w), x, w);
        lemma_bits_msb_of_value(k);
        assert(b =~= t + k);
    }
}

/// Groups of `w` bits read as values below `2^w`.
pub proof fn lemma_seq_of_bits_bounded(b: Seq<bool>, w: nat)
    requires
        0 < w <= 8,
    ensures
        forall|i: int|
            0 <= i < seq_of_bits(b, w).len() ==> (#[trigger] seq_of_bits(b, w)[i] as nat) < pow2(w),
    decreases b.len(),
{
    if b.len() >= w {
        let t = b.take(b.len() - w);
        let k = b.skip(b.len() - w);
        lemma_seq_of_bits_bounded(t, w);
        lemma_bits_value_bound(k);
        if w < 8 {
            lemma_pow2_strictly_increases(w, 8);
        }
        lemma2_to64();
        let s = seq_of_bits(b, w);
        assert(s == seq_of_bits(t, w).push(bits_value(k) as u8));
        assert forall|i: int| 0 <= i < s.len() implies (#[trigger] s[i] as nat) < pow2(w) by {
            if i < s.len() - 1 {
                assert(s[i] == seq_of_bits(t, w)[i]);
            }
        }
    }
}

proof fn lemma_div_mod_split(v: nat, p: nat)
    requires
        p > 0,
    ensures
        v % (2 * p) == 2 * ((v / 2) % p) + v % 2,
{
    let h = v / 2;
    let e = v % 2;
    let q = h / p;
    let m = h % p;
    lemma_fundamental_div_mod(v as int, 2);
    lemma_fundamental_div_mod(h as int, p as int);
    lemma_mod_bound(h as int, p as int);
    lemma_mod_bound(v as int, 2);
    let r = 2 * m + e;
    assert(v == q * (2 * p) + r && r < 2 * p) by (nonlinear_arith)
        requires
            v == 2 * h + e,
            h == p * q + m,
            e < 2,
            m < p,
            r == 2 * m + e,
    ;
    lemma_fundamental_div_mod_converse(v as int, (2 * p) as int, q as int, r as int);
}

} // verus!
