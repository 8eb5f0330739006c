//! Fixed-width little-endian encoding of unsigned integers.
use vstd::prelude::*;

verus! {

/// `256` to the power `n`.
pub open spec fn pow256(n: nat) -> nat
    decreases n,
{
    if n == 0 {
        1
    } else {
        256 * pow256((n - 1) as nat)
    }
}

/// The `n` lowest bytes of `v`, least significant first.
pub open spec fn le_bytes(v: nat, n: nat) -> Seq<u8>
    decreases n,
{
    if n == 0 {
        Seq::empty()
    } else {
        seq![(v % 256) as u8] + le_bytes(v / 256, (n - 1) as nat)
    }
}

/// The number that the bytes `s` encode, least significant first.
pub open spec fn le_value(s: Seq<u8>) -> nat
    decreases s.len(),
{
    if s.len() == 0 {
        0
    } else {
        s[0] as nat + 256 * le_value(s.drop_first())
    }
}

pub proof fn lemma_pow256_positive(n: nat)
    ensures
        pow256(n) > 0,
    decreases n,
{
    if n > 0 {
        lemma_pow256_positive((n - 1) as nat);
    }
}

pub proof fn lemma_pow256_monotone(a: nat, b: nat)
    requires
        a <= b,
    ensures
        pow256(a) <= pow256(b),
    decreases b,
{
    if a < b {
        lemma_pow256_monotone(a, (b - 1) as nat);
        lemma_pow256_positive((b - 1) as nat);
    }
}

pub proof fn lemma_pow256_widths()
    ensures
        pow256(8) == 0x1_0000_0000_0000_0000,
        pow256(16) == 0x1_0000_0000_0000_0000_0000_0000_0000_0000,
{
    reveal_with_fuel(pow256, 17);
}

pub proof fn lemma_le_bytes_len(v: nat, n: nat)
    ensures
        le_bytes(v, n).len() == n,
    decreases n,
{
    if n > 0 {
        lemma_le_bytes_len(v / 256, (n - 1) as nat);
    }
}

/// A value below `256^s.len()` bounds every encoding of `s` bytes.
pub proof fn lemma_le_value_bound(s: Seq<u8>)
    ensures
        le_value(s) < pow256(s.len()),
    decreases s.len(),
{
    if s.len() > 0 {
        lemma_le_value_bound(s.drop_first());
        let rest = le_value(s.drop_first());
        let p = pow256((s.len() - 1) as nat);
        assert(s[0] as nat + 256 * rest < 256 * p) by (nonlinear_arith)
            requires
                s[0] < 256,
                rest < p,
        ;
    }
}

/// Decoding an encoding gives the value back, when it fits in `n` bytes.
pub proof fn lemma_le_value_of_bytes(v: nat, n: nat)
    requires
        v < pow256(n),
    ensures
        le_value(le_bytes(v, n)) == v,
    decreases n,
{
    if n > 0 {
        let tail = le_bytes(v / 256, (n - 1) as nat);
        let s = le_bytes(v, n);
        assert(s.drop_first() =~= tail);
        let p = pow256((n - 1) as nat);
        assert(v / 256 < p) by (nonlinear_arith)
            requires
                v < 256 * p,
        ;
        lemma_le_value_of_bytes(v / 256, (n - 1) as nat);
        assert(v % 256 + 256 * (v / 256) == v) by (nonlinear_arith);
    } else {
        assert(v == 0);
    }
}

/// Two values that fit in `n` bytes have equal encodings only if they are equal.
pub proof fn lemma_le_bytes_injective(v: nat, w: nat, n: nat)
    requires
        v < pow256(n),
        w < pow256(n),
        le_bytes(v, n) == le_bytes(w, n),
    ensures
        v == w,
{
    lemma_le_value_of_bytes(v, n);
    lemma_le_value_of_bytes(w, n);
}

/// The lowest `width` bytes of `v`, least significant first.
pub fn encode_le(v: u128, width: usize) -> (r: Vec<u8>)
    requires
        width <= 16,
    ensures
        r@ == le_bytes(v as nat, width as nat),
{
    let mut r: Vec<u8> = Vec::new();
    let mut rest: u128 = v;
    let mut k: usize = 0;
    while k < width
        invariant
            k <= width,
            r@ + le_bytes(rest as nat, (width - k) as nat) == le_bytes(v as nat, width as nat),
        decreases width - k,
    {
        let ghost before = r@;
        let ghost tail = le_bytes(rest as nat / 256, (width - k - 1) as nat);
        let b = (rest % 256) as u8;
        r.push(b);
        assert(before + (seq![b] + tail) =~= r@ + tail);
        rest = rest / 256;
        k += 1;
    }
    assert(r@ + le_bytes(rest as nat, 0) =~= r@);
    r
}

/// The number that `bytes` encode, least significant first.
pub fn decode_le(bytes: &Vec<u8>) -> (r: u128)
    requires
        bytes@.len() <= 16,
    ensures
        r as nat == le_value(bytes@),
{
    let n = bytes.len();
    let mut acc: u128 = 0;
    let mut i: usize = n;
    while i > 0
        invariant
            n == bytes@.len(),
            n <= 16,
            i <= n,
            acc as nat == le_value(bytes@.subrange(i as int, n as int)),
        decreases i,
    {
        i -= 1;
        let ghost s = bytes@.subrange(i as int, n as int);
        proof {
            assert(s.drop_first() =~= bytes@.subrange(i + 1, n as int));
            lemma_le_value_bound(s);
            lemma_pow256_monotone(s.len(), 16);
            lemma_pow256_widths();
        }
        acc = acc * 256 + bytes[i] as u128;
    }
    assert(bytes@.subrange(0, n as int) =~= bytes@);
    acc
}

} // verus!
