//! Little-endian numbers in byte sequences.
use vstd::prelude::*;

verus! {

/// The `k` low bytes of `n`, least significant first.
pub open spec fn le(n: nat, k: nat) -> Seq<u8>
    decreases k,
{
    if k == 0 {
        Seq::empty()
    } else {
        seq![(n % 256) as u8] + le(n / 256, (k - 1) as nat)
    }
}

/// The number whose bytes, least significant first, are `s`.
pub open spec fn from_le(s: Seq<u8>) -> nat
    decreases s.len(),
{
    if s.len() == 0 {
        0
    } else {
        s[0] as nat + 256 * from_le(s.skip(1))
    }
}

/// `256^k`.
pub open spec fn pow256(k: nat) -> nat
    decreases k,
{
    if k == 0 {
        1
    } else {
        256 * pow256((k - 1) as nat)
    }
}

/// The powers that the formats use.
pub proof fn lemma_pow256_table()
    ensures
        pow256(1) == 256,
        pow256(2) == 0x1_0000,
        pow256(4) == 0x1_0000_0000,
        pow256(8) == 0x1_0000_0000_0000_0000,
{
    reveal_with_fuel(pow256, 9);
}

/// `k` bytes are `k` bytes.
pub proof fn lemma_le_len(n: nat, k: nat)
    ensures
        le(n, k).len() == k,
    decreases k,
{
    if k > 0 {
        lemma_le_len(n / 256, (k - 1) as nat);
    }
}

/// Reading back a number gives what was written, if it fits.
pub proof fn lemma_le_round_trip(n: nat, k: nat)
    requires
        n < pow256(k),
    ensures
        from_le(le(n, k)) == n,
    decreases k,
{
    if k > 0 {
        let s = le(n, k);
        assert(s.skip(1) =~= le(n / 256, (k - 1) as nat));
        assert(n / 256 < pow256((k - 1) as nat));
        lemma_le_round_trip(n / 256, (k - 1) as nat);
        assert(s[0] == (n % 256) as u8);
    }
}

/// What `k` bytes say is below `256^k`.
pub proof fn lemma_from_le_bound(s: Seq<u8>)
    ensures
        from_le(s) < pow256(s.len()),
    decreases s.len(),
{
    if s.len() > 0 {
        lemma_from_le_bound(s.skip(1));
    }
}

/// Appends the `k` low bytes of `n`.
pub fn push_le(out: &mut Vec<u8>, n: u64, k: usize)
    requires
        k <= 8,
    ensures
        final(out)@ == old(out)@ + le(n as nat, k as nat),
{
    let ghost before = out@;
    let mut rest: u64 = n;
    let mut i: usize = 0;
    while i < k
        invariant
            i <= k,
            out@ + le(rest as nat, (k - i) as nat) == before + le(n as nat, k as nat),
        decreases k - i,
    {
        let ghost here = out@;
        out.push((rest % 256) as u8);
        assert(here + (seq![(rest as nat % 256) as u8] + le(rest as nat / 256, (k - i - 1) as nat))
            =~= out@ + le(rest as nat / 256, (k - i - 1) as nat));
        rest = rest / 256;
        i = i + 1;
    }
    assert(out@ + le(rest as nat, 0) =~= out@);
}

/// The number that the `k` bytes at `at` say.
pub fn read_le(bytes: &[u8], at: usize, k: usize) -> (n: u64)
    requires
        k <= 8,
        at + k <= bytes.len(),
    ensures
        n == from_le(bytes@.subrange(at as int, at + k)),
        n < pow256(k as nat),
{
    proof {
        lemma_from_le_bound(bytes@.subrange(at as int, at + k));
        lemma_pow256_mono(k as nat, 8);
        lemma_pow256_table();
    }
    let mut n: u64 = 0;
    let mut i: usize = k;
    while i > 0
        invariant
            i <= k <= 8,
            at + k <= bytes.len(),
            n == from_le(bytes@.subrange(at + i, at + k)),
        decreases i,
    {
        let ghost s = bytes@.subrange(at + i - 1, at + k);
        assert(s.skip(1) =~= bytes@.subrange(at + i, at + k));
        assert(s[0] == bytes@[at + i - 1]);
        proof {
            lemma_from_le_bound(s);
            lemma_pow256_mono((k - i + 1) as nat, 8);
            lemma_pow256_table();
        }
        n = bytes[at + i - 1] as u64 + 256 * n;
        i = i - 1;
    }
    n
}

/// Larger exponents give larger powers.
pub proof fn lemma_pow256_mono(a: nat, b: nat)
    requires
        a <= b,
    ensures
        pow256(a) <= pow256(b),
    decreases b,
{
    if b > a {
        lemma_pow256_mono(a, (b - 1) as nat);
    }
}

/// Appends a run of bytes.
pub fn push_bytes(out: &mut Vec<u8>, t: &[u8])
    ensures
        final(out)@ == old(out)@ + t@,
{
    let ghost before = out@;
    let mut i: usize = 0;
    while i < t.len()
        invariant
            i <= t.len(),
            out@ == before + t@.take(i as int),
        decreases t.len() - i,
    {
        out.push(t[i]);
        assert((before + t@.take(i as int)).push(t@[i as int]) =~= before + t@.take(i as int + 1));
        i = i + 1;
    }
    assert(t@.take(t@.len() as int) =~= t@);
}

/// A copy of the bytes from `a` up to `b`.
pub fn bytes_of(s: &[u8], a: usize, b: usize) -> (r: Vec<u8>)
    requires
        a <= b <= s.len(),
    ensures
        r@ == s@.subrange(a as int, b as int),
{
    let mut r: Vec<u8> = Vec::new();
    let mut i: usize = a;
    while i < b
        invariant
            a <= i <= b <= s.len(),
            r@ == s@.subrange(a as int, i as int),
        decreases b - i,
    {
        r.push(s[i]);
        assert(s@.subrange(a as int, i as int).push(s@[i as int]) =~= s@.subrange(
            a as int,
            i as int + 1,
        ));
        i = i + 1;
    }
    r
}

/// The first byte of a number is what is left of it over the multiples of 256,
/// and the other bytes are those of how many of these there are.
pub proof fn law_low_byte_comes_first(n: nat, k: nat)
    requires
        k > 0,
    ensures
        le(n, k).len() == k,
        le(n, k)[0] == n % 256,
        le(n, k).skip(1) == le(n / 256, (k - 1) as nat),
{
    lemma_le_len(n, k);
    lemma_le_len(n / 256, (k - 1) as nat);
    assert(le(n, k).skip(1) =~= le(n / 256, (k - 1) as nat));
}

/// Each byte further on counts 256 times as much as the one before.
pub proof fn law_later_bytes_count_more(s: Seq<u8>)
    ensures
        s.len() == 2 ==> from_le(s) == s[0] + 256 * s[1],
        s.len() == 4 ==> from_le(s) == s[0] + 256 * s[1] + 0x1_0000 * s[2] + 0x100_0000 * s[3],
        s.len() == 8 ==> from_le(s) == from_le(s.take(4)) + 0x1_0000_0000 * from_le(s.skip(4)),
{
    reveal_with_fuel(from_le, 9);
    if s.len() == 2 {
        assert(s.skip(1)[0] == s[1]);
    } else if s.len() == 4 {
        lemma_four(s);
    } else if s.len() == 8 {
        lemma_four(s.take(4));
        lemma_four(s.skip(4));
        let (a, b, c) = (s.skip(1), s.skip(1).skip(1), s.skip(1).skip(1).skip(1));
        assert(a[0] == s[1] && b[0] == s[2] && c[0] == s[3]);
        assert(c.skip(1) =~= s.skip(4));
    }
}

proof fn lemma_four(s: Seq<u8>)
    requires
        s.len() == 4,
    ensures
        from_le(s) == s[0] + 256 * s[1] + 0x1_0000 * s[2] + 0x100_0000 * s[3],
{
    reveal_with_fuel(from_le, 5);
    let (a, b, c) = (s.skip(1), s.skip(1).skip(1), s.skip(1).skip(1).skip(1));
    assert(a[0] == s[1] && b[0] == s[2] && c[0] == s[3]);
    assert(c.skip(1).len() == 0);
}

} // verus!
