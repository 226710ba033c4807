//! LEB128 variable-length encoding of unsigned integers.
//!
//! A value is split into base-128 digits, least significant first; every
//! byte but the last carries a continuation bit.  This is the length
//! delimiter scheme of the on-disk record format.

use vstd::prelude::*;

verus! {

/// The byte sequence that encodes `n`.
pub open spec fn varint_enc(n: nat) -> Seq<u8>
    decreases n,
{
    if n < 0x80 {
        seq![n as u8]
    } else {
        seq![(0x80 + (n % 0x80)) as u8] + varint_enc(n / 0x80)
    }
}

/// The length of the encoding of `n`.
pub open spec fn varint_len(n: nat) -> nat {
    varint_enc(n).len()
}

/// Reading a byte sequence past its end yields zero bytes, mirroring a
/// positional read near the end of a segment.
pub open spec fn byte_at(b: Seq<u8>, i: nat) -> u8 {
    if i < b.len() {
        b[i as int]
    } else {
        0
    }
}

/// 128 raised to `k`; bounds the value a `k`-byte varint can carry.
pub open spec fn pow128(k: nat) -> nat
    decreases k,
{
    if k == 0 {
        1
    } else {
        128 * pow128((k - 1) as nat)
    }
}

/// Decode a varint at position `i` of `b`, reading at most `budget` bytes.
/// Returns the value and the number of bytes consumed, or `None` when the
/// continuation bits never end within the budget.
pub open spec fn varint_parse_rec(b: Seq<u8>, i: nat, budget: nat) -> Option<(nat, nat)>
    decreases budget,
{
    if budget == 0 {
        None
    } else {
        let x = byte_at(b, i);
        if x < 0x80 {
            Some((x as nat, 1))
        } else {
            match varint_parse_rec(b, i + 1, (budget - 1) as nat) {
                None => None,
                Some((v, n)) => Some(((x - 0x80) as nat + 0x80 * v, n + 1)),
            }
        }
    }
}

/// Decode a varint at position `i` of `b`: at most five bytes, enough for
/// any length up to `u32::MAX`.
pub open spec fn varint_parse(b: Seq<u8>, i: nat) -> Option<(nat, nat)> {
    varint_parse_rec(b, i, 5)
}

/// `128^k` is positive.
pub proof fn lemma_pow128_pos(k: nat)
    ensures
        pow128(k) >= 1,
    decreases k,
{
    if k > 0 {
        lemma_pow128_pos((k - 1) as nat);
    }
}

/// A successful parse consumes between one byte and the budget, and its
/// value is below `128^budget`.
pub proof fn lemma_varint_parse_bound(b: Seq<u8>, i: nat, budget: nat)
    ensures
        varint_parse_rec(b, i, budget) matches Some(r) ==> {
            &&& 1 <= r.1 <= budget
            &&& r.0 < pow128(budget)
        },
    decreases budget,
{
    if budget > 0 {
        lemma_pow128_pos((budget - 1) as nat);
        assert(pow128(budget) == 128 * pow128((budget - 1) as nat));
        let x = byte_at(b, i);
        if x >= 0x80 {
            lemma_varint_parse_bound(b, i + 1, (budget - 1) as nat);
            if varint_parse_rec(b, i + 1, (budget - 1) as nat) is Some {
                let v = varint_parse_rec(b, i + 1, (budget - 1) as nat)->Some_0.0;
                let p = pow128((budget - 1) as nat);
                assert(0x80 * v <= 0x80 * (p - 1)) by (nonlinear_arith)
                    requires
                        v < p,
                        p >= 1,
                ;
            }
        }
    }
}

/// The encoding of a value below `128^k` takes at most `k` bytes.
pub proof fn lemma_varint_len_le(n: nat, k: nat)
    requires
        k >= 1,
        n < pow128(k),
    ensures
        varint_len(n) <= k,
    decreases k,
{
    if n >= 0x80 {
        if k == 1 {
            assert(pow128(1) == 128 * pow128(0));
        } else {
            assert(n / 0x80 < pow128((k - 1) as nat)) by (nonlinear_arith)
                requires
                    n < 128 * pow128((k - 1) as nat),
            ;
            lemma_varint_len_le(n / 0x80, (k - 1) as nat);
        }
    }
}

/// Every value representable in five bytes, `u32::MAX` included, has an
/// encoding of at most five bytes.
pub proof fn lemma_varint_len_u32(n: nat)
    requires
        n <= u32::MAX,
    ensures
        1 <= varint_len(n) <= 5,
{
    assert(pow128(5) == 128 * (128 * (128 * (128 * (128 * 1))))) by {
        reveal_with_fuel(pow128, 6);
    }
    lemma_varint_len_le(n, 5);
    if n < 0x80 {
    } else {
        assert(varint_enc(n).len() >= 1);
    }
}

/// Decoding reads back exactly what encoding wrote: if the bytes of
/// `varint_enc(n)` stand at position `i` of `b`, the parse yields `n` and
/// consumes exactly the encoding's length.
pub proof fn lemma_varint_parse_enc(b: Seq<u8>, i: nat, n: nat, budget: nat)
    requires
        varint_len(n) <= budget,
        forall|j: nat| j < varint_len(n) ==> byte_at(b, i + j) == varint_enc(n)[j as int],
    ensures
        varint_parse_rec(b, i, budget) == Some((n, varint_len(n))),
    decreases n,
{
    if n < 0x80 {
        assert(byte_at(b, i + 0) == varint_enc(n)[0]);
    } else {
        let first: u8 = (0x80 + (n % 0x80)) as u8;
        let rest = varint_enc(n / 0x80);
        assert(varint_enc(n) == seq![first] + rest);
        assert(byte_at(b, i + 0) == varint_enc(n)[0]);
        assert(varint_enc(n)[0] == first);
        assert forall|j: nat| j < varint_len(n / 0x80) implies #[trigger] byte_at(b, (i + 1) + j)
            == varint_enc(n / 0x80)[j as int] by {
            assert(byte_at(b, i + (j + 1)) == varint_enc(n)[j + 1 as int]);
            assert(varint_enc(n)[j + 1 as int] == rest[j as int]);
        }
        lemma_varint_parse_enc(b, i + 1, n / 0x80, (budget - 1) as nat);
        assert((first - 0x80) as nat + 0x80 * (n / 0x80) == n) by {
            vstd::arithmetic::div_mod::lemma_fundamental_div_mod(n as int, 0x80);
        }
    }
}

/// The parse of a varint depends only on the bytes it consumes: two buffers
/// that agree on those bytes parse alike.
pub proof fn lemma_varint_parse_agree(b1: Seq<u8>, b2: Seq<u8>, i: nat, budget: nat)
    requires
        varint_parse_rec(b1, i, budget) is Some,
        forall|j: nat|
            j < varint_parse_rec(b1, i, budget)->Some_0.1 ==> #[trigger] byte_at(b1, i + j)
                == byte_at(b2, i + j),
    ensures
        varint_parse_rec(b2, i, budget) == varint_parse_rec(b1, i, budget),
    decreases budget,
{
    let r = varint_parse_rec(b1, i, budget)->Some_0;
    let x = byte_at(b1, i);
    assert(byte_at(b1, i + 0) == byte_at(b2, i + 0));
    if x >= 0x80 {
        let inner = varint_parse_rec(b1, i + 1, (budget - 1) as nat);
        lemma_varint_parse_bound(b1, i + 1, (budget - 1) as nat);
        assert forall|j: nat| j < inner->Some_0.1 implies #[trigger] byte_at(b1, (i + 1) + j)
            == byte_at(b2, (i + 1) + j) by {
            assert(byte_at(b1, i + (j + 1)) == byte_at(b2, i + (j + 1)));
        }
        lemma_varint_parse_agree(b1, b2, i + 1, (budget - 1) as nat);
    }
}

/// Append the encoding of `n` to `buf`.
pub fn varint_append(buf: &mut Vec<u8>, n: u32)
    ensures
        final(buf)@ == old(buf)@ + varint_enc(n as nat),
{
    let mut m: u32 = n;
    while m >= 0x80
        invariant
            old(buf)@ + varint_enc(n as nat) == buf@ + varint_enc(m as nat),
        decreases m,
    {
        let b: u8 = (0x80 + (m % 0x80)) as u8;
        let ghost prev = buf@;
        buf.push(b);
        assert(varint_enc(m as nat) == seq![b] + varint_enc((m as nat) / 0x80));
        assert(prev + varint_enc(m as nat) == (prev + seq![b]) + varint_enc((m as nat) / 0x80));
        m = m / 0x80;
    }
    let ghost prev = buf@;
    buf.push(m as u8);
    assert(varint_enc(m as nat) == seq![m as u8]);
    assert(prev + varint_enc(m as nat) == buf@);
}

/// The number of bytes the encoding of `n` takes.
pub fn varint_size(n: u32) -> (r: usize)
    ensures
        r == varint_len(n as nat),
        1 <= r <= 5,
{
    proof {
        lemma_varint_len_u32(n as nat);
    }
    let mut m: u32 = n;
    let mut c: usize = 1;
    while m >= 0x80
        invariant
            c >= 1,
            c + varint_len(m as nat) == 1 + varint_len(n as nat),
            varint_len(m as nat) >= 1,
            varint_len(n as nat) <= 5,
        decreases m,
    {
        assert(varint_enc(m as nat) == seq![(0x80 + (m as nat % 0x80)) as u8]
            + varint_enc(m as nat / 0x80));
        m = m / 0x80;
        c = c + 1;
    }
    assert(varint_enc(m as nat) == seq![m as u8]);
    c
}

/// Decode a varint from `buf` at `i`, reading at most `budget` bytes and
/// treating positions past the end as zero.
fn varint_read_rec(buf: &Vec<u8>, i: usize, budget: u8) -> (r: Option<(u64, usize)>)
    requires
        i <= buf@.len(),
        budget <= 5,
    ensures
        match r {
            Some(p) => varint_parse_rec(buf@, i as nat, budget as nat)
                == Some((p.0 as nat, p.1 as nat)) && p.1 >= 1,
            None => varint_parse_rec(buf@, i as nat, budget as nat) is None,
        },
    decreases budget,
{
    if budget == 0 {
        return None;
    }
    let x: u8 = if i < buf.len() {
        buf[i]
    } else {
        0
    };
    assert(x == byte_at(buf@, i as nat));
    if x < 0x80 {
        Some((x as u64, 1))
    } else {
        match varint_read_rec(buf, i + 1, budget - 1) {
            None => None,
            Some((v, n)) => {
                proof {
                    lemma_varint_parse_bound(buf@, (i + 1) as nat, (budget - 1) as nat);
                    assert(pow128(4) <= pow128(5));
                    assert(pow128(5) == 128 * (128 * (128 * (128 * (128 * 1))))) by {
                        reveal_with_fuel(pow128, 6);
                    }
                }
                Some(((x - 0x80) as u64 + 0x80 * v, n + 1))
            },
        }
    }
}

/// Decode a varint from `buf` at position `off`: the value and the number
/// of bytes consumed, or `None` when the encoding is malformed.
pub fn varint_read(buf: &Vec<u8>, off: usize) -> (r: Option<(u64, usize)>)
    requires
        off <= buf@.len(),
    ensures
        match r {
            Some(p) => varint_parse(buf@, off as nat) == Some((p.0 as nat, p.1 as nat))
                && 1 <= p.1 <= 5,
            None => varint_parse(buf@, off as nat) is None,
        },
{
    let r = varint_read_rec(buf, off, 5);
    proof {
        lemma_varint_parse_bound(buf@, off as nat, 5);
    }
    r
}

} // verus!
