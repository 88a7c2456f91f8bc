//! Little-endian byte encoding of unsigned integers, as a mathematical model
//! and as executable code proved against it.
use vstd::prelude::*;

verus! {

/// `256` raised to the power `n`.
pub open spec fn byte_pow(n: nat) -> nat
    decreases n,
{
    if n == 0 {
        1
    } else {
        256 * byte_pow((n - 1) as nat)
    }
}

/// The `n` least significant bytes of `v`, least significant first.
pub open spec fn le_bytes(v: nat, n: nat) -> Seq<u8>
    decreases n,
{
    if n == 0 {
        Seq::empty()
    } else {
        seq![(v % 256) as u8] + le_bytes(v / 256, (n - 1) as nat)
    }
}

/// The number whose little-endian bytes are `s`.
pub open spec fn le_value(s: Seq<u8>) -> nat
    decreases s.len(),
{
    if s.len() == 0 {
        0
    } else {
        s[0] as nat + 256 * le_value(s.drop_first())
    }
}

pub proof fn lemma_byte_pow_positive(n: nat)
    ensures
        byte_pow(n) >= 1,
    decreases n,
{
    if n > 0 {
        lemma_byte_pow_positive((n - 1) as nat);
    }
}

pub proof fn lemma_byte_pow_monotonic(m: nat, n: nat)
    requires
        m <= n,
    ensures
        byte_pow(m) <= byte_pow(n),
    decreases n,
{
    if m < n {
        lemma_byte_pow_monotonic(m, (n - 1) as nat);
        lemma_byte_pow_positive((n - 1) as nat);
    }
}

pub proof fn lemma_byte_pow_16()
    ensures
        byte_pow(16) == 0x1_0000_0000_0000_0000_0000_0000_0000_0000,
        byte_pow(8) == 0x1_0000_0000_0000_0000,
        byte_pow(4) == 0x1_0000_0000,
        byte_pow(2) == 0x1_0000,
        byte_pow(1) == 0x100,
{
    reveal_with_fuel(byte_pow, 17);
}

pub proof fn lemma_le_bytes_len(v: nat, n: nat)
    ensures
        le_bytes(v, n).len() == n,
    decreases n,
{
    if n > 0 {
        lemma_le_bytes_len(v / 256, (n - 1) as nat);
    }
}

/// Decoding the `n` little-endian bytes of a number below `256^n` gives it back.
pub proof fn lemma_le_roundtrip(v: nat, n: nat)
    requires
        v < byte_pow(n),
    ensures
        le_value(le_bytes(v, n)) == v,
    decreases n,
{
    if n > 0 {
        let p = byte_pow((n - 1) as nat);
        assert(v / 256 < p) by (nonlinear_arith)
            requires
                v < 256 * p,
        ;
        lemma_le_roundtrip(v / 256, (n - 1) as nat);
        let s = le_bytes(v, n);
        lemma_le_bytes_len(v, n);
        assert(s.drop_first() =~= le_bytes(v / 256, (n - 1) as nat));
        assert(v == v % 256 + 256 * (v / 256)) by (nonlinear_arith);
    }
}

/// A sequence of `k` bytes decodes to a number below `256^k`.
pub proof fn lemma_le_value_bound(s: Seq<u8>)
    ensures
        le_value(s) < byte_pow(s.len()),
    decreases s.len(),
{
    if s.len() > 0 {
        lemma_le_value_bound(s.drop_first());
        let p = byte_pow((s.len() - 1) as nat);
        let x = le_value(s.drop_first());
        let b = s[0] as nat;
        assert(b + 256 * x < 256 * p) by (nonlinear_arith)
            requires
                x < p,
                b < 256,
        ;
    }
}

/// Encoding the value of `k` bytes as `k` bytes gives the same bytes back.
pub proof fn lemma_le_bytes_of_value(s: Seq<u8>)
    ensures
        le_bytes(le_value(s), s.len()) == s,
    decreases s.len(),
{
    if s.len() > 0 {
        let t = s.drop_first();
        lemma_le_bytes_of_value(t);
        let v = le_value(s);
        let x = le_value(t);
        let b = s[0] as nat;
        assert(v % 256 == b && v / 256 == x) by (nonlinear_arith)
            requires
                v == b + 256 * x,
                b < 256,
        ;
        assert(le_bytes(v, s.len()) =~= s);
    }
}

/// Appends the `n` little-endian bytes of `v` to `data`.
pub fn push_le(data: &mut Vec<u8>, v: u128, n: usize)
    ensures
        final(data)@ == old(data)@ + le_bytes(v as nat, n as nat),
{
    let mut x: u128 = v;
    let mut i: usize = 0;
    while i < n
        invariant
            i <= n,
            old(data)@ + le_bytes(v as nat, n as nat) == data@ + le_bytes(x as nat, (n - i) as nat),
        decreases n - i,
    {
        let ghost before = data@;
        let b: u8 = (x % 256) as u8;
        data.push(b);
        assert(le_bytes(x as nat, (n - i) as nat) == seq![b] + le_bytes((x / 256) as nat, (n - i - 1) as nat));
        assert(before + le_bytes(x as nat, (n - i) as nat) =~= data@ + le_bytes((x / 256) as nat, (n - i - 1) as nat));
        x = x / 256;
        i = i + 1;
    }
    assert(le_bytes(x as nat, 0) =~= Seq::<u8>::empty());
    assert(data@ + Seq::<u8>::empty() =~= data@);
}

/// The number stored little-endian in the `n` bytes of `data` at `pos`.
pub fn read_le(data: &Vec<u8>, pos: usize, n: usize) -> (r: u128)
    requires
        n <= 16,
        pos + n <= data@.len(),
    ensures
        r == le_value(data@.subrange(pos as int, pos + n)),
{
    let mut acc: u128 = 0;
    let mut i: usize = n;
    assert(data@.subrange(pos + n, pos + n) =~= Seq::<u8>::empty());
    while i > 0
        invariant
            i <= n <= 16,
            pos + n <= data.len(),
            acc == le_value(data@.subrange(pos + i, pos + n)),
        decreases i,
    {
        let ghost tail = data@.subrange(pos + i, pos + n);
        proof {
            lemma_le_value_bound(tail);
            lemma_byte_pow_monotonic((n - i) as nat, 15);
            lemma_byte_pow_16();
            reveal_with_fuel(byte_pow, 2);
            assert(byte_pow(16) == 256 * byte_pow(15));
        }
        i = i - 1;
        let b: u8 = data[pos + i];
        assert(acc * 256 + b < 0x1_0000_0000_0000_0000_0000_0000_0000_0000) by (nonlinear_arith)
            requires
                acc < byte_pow(15),
                256 * byte_pow(15) == 0x1_0000_0000_0000_0000_0000_0000_0000_0000,
                b < 256,
        ;
        let ghost s = data@.subrange(pos + i, pos + n);
        assert(s.drop_first() =~= tail);
        acc = acc * 256 + b as u128;
    }
    acc
}

} // verus!
