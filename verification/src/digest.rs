//! SHA-256 digests in hexadecimal.
use sha2::{Digest, Sha256};
use vstd::prelude::*;

verus! {

/// The SHA-256 digest of a run of bytes.
pub uninterp spec fn sha256(bytes: Seq<u8>) -> Seq<u8>;

/// `sha2::Sha256::digest` gives the digest of the bytes, thirty-two bytes long.
#[verifier::external_body]
fn sha256_digest(bytes: &[u8]) -> (d: Vec<u8>)
    ensures
        d@ == sha256(bytes@),
        d@.len() == 32,
{
    Sha256::digest(bytes).to_vec()
}

/// The lower-case hexadecimal digit of `n`.
pub open spec fn hex_digit(n: int) -> char {
    if n < 10 {
        (48 + n) as char
    } else {
        (87 + n) as char
    }
}

/// Bytes in lower-case hexadecimal, two digits to each.
pub open spec fn hex(bytes: Seq<u8>) -> Seq<char> {
    Seq::new(
        2 * bytes.len(),
        |i: int|
            if i % 2 == 0 {
                hex_digit(bytes[i / 2] as int / 16)
            } else {
                hex_digit(bytes[i / 2] as int % 16)
            },
    )
}

fn hex_char(n: u8) -> (c: char)
    requires
        n < 16,
    ensures
        c == hex_digit(n as int),
{
    if n < 10 {
        (48 + n) as char
    } else {
        (87 + n) as char
    }
}

/// Bytes in lower-case hexadecimal.
pub fn to_hex(bytes: &[u8]) -> (out: Vec<char>)
    ensures
        out@ == hex(bytes@),
{
    let mut out: Vec<char> = Vec::new();
    let mut i: usize = 0;
    while i < bytes.len()
        invariant
            i <= bytes@.len(),
            out@.len() == 2 * i,
            forall|j: int| 0 <= j < out@.len() ==> #[trigger] out@[j] == hex(bytes@)[j],
        decreases bytes.len() - i,
    {
        out.push(hex_char(bytes[i] / 16));
        out.push(hex_char(bytes[i] % 16));
        i = i + 1;
    }
    assert(out@ =~= hex(bytes@));
    out
}

/// The SHA-256 digest of the bytes, in lower-case hexadecimal.
pub fn sha256_hex(bytes: &[u8]) -> (out: Vec<char>)
    ensures
        out@ == hex(sha256(bytes@)),
        out@.len() == 64,
{
    let d = sha256_digest(bytes);
    to_hex(&d)
}

/// Different bytes have different hexadecimal forms.
pub proof fn law_hex_is_faithful(a: Seq<u8>, b: Seq<u8>)
    requires
        hex(a) == hex(b),
    ensures
        a == b,
{
    assert(hex(a).len() == 2 * a.len());
    assert(hex(b).len() == 2 * b.len());
    assert forall|i: int| 0 <= i < a.len() implies a[i] == b[i] by {
        let (h, l) = (2 * i, 2 * i + 1);
        assert(h / 2 == i && h % 2 == 0 && l / 2 == i && l % 2 == 1);
        assert(hex(a)[h] == hex_digit(a[i] as int / 16) && hex(b)[h] == hex_digit(b[i] as int / 16));
        assert(hex(a)[l] == hex_digit(a[i] as int % 16) && hex(b)[l] == hex_digit(b[i] as int % 16));
        lemma_hex_digit(a[i] as int / 16, b[i] as int / 16);
        lemma_hex_digit(a[i] as int % 16, b[i] as int % 16);
    }
    assert(a =~= b);
}

proof fn lemma_hex_digit(m: int, n: int)
    requires
        0 <= m < 16,
        0 <= n < 16,
        hex_digit(m) == hex_digit(n),
    ensures
        m == n,
{
}

/// The value of a hexadecimal digit.
pub open spec fn digit_value(c: char) -> int {
    if '0' <= c <= '9' {
        c as int - '0' as int
    } else {
        c as int - 'a' as int + 10
    }
}

/// Every byte has two digits, the higher first, and none of them is a capital.
pub proof fn law_higher_digit_comes_first(bytes: Seq<u8>, i: int)
    requires
        0 <= i < bytes.len(),
    ensures
        ({
            let (h, l) = (hex(bytes)[2 * i], hex(bytes)[2 * i + 1]);
            &&& hex(bytes).len() == 2 * bytes.len()
            &&& '0' <= h <= '9' || 'a' <= h <= 'f'
            &&& '0' <= l <= '9' || 'a' <= l <= 'f'
            &&& 16 * digit_value(h) + digit_value(l) == bytes[i]
        }),
{
    let (h, l) = (2 * i, 2 * i + 1);
    assert(h / 2 == i && h % 2 == 0 && l / 2 == i && l % 2 == 1);
}

} // verus!
