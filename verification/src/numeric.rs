//! Canonical decimal encodings of the integers that go into digests, and
//! the big-endian reading of a digest's leading bytes used by the
//! proof-of-work check.
use vstd::prelude::*;
use vstd::arithmetic::power2::*;

verus! {

/// The decimal digits (ASCII) of `n`, most significant first.
pub open spec fn dec_digits(n: nat) -> Seq<u8>
    decreases n,
{
    if n < 10 {
        seq![(48 + n) as u8]
    } else {
        dec_digits(n / 10).push((48 + n % 10) as u8)
    }
}

/// The decimal digits of `n`, with a leading minus sign when negative.
pub open spec fn dec_signed(n: int) -> Seq<u8> {
    if n < 0 {
        seq![45u8] + dec_digits((-n) as nat)
    } else {
        dec_digits(n as nat)
    }
}

/// Renders `n` in decimal, exactly as `dec_digits` describes.
pub fn u64_to_decimal(n: u64) -> (r: Vec<u8>)
    ensures
        r@ == dec_digits(n as nat),
    decreases n,
{
    if n < 10 {
        let mut v: Vec<u8> = Vec::new();
        v.push(48 + n as u8);
        assert(v@ =~= dec_digits(n as nat));
        v
    } else {
        let mut v = u64_to_decimal(n / 10);
        v.push(48 + (n % 10) as u8);
        v
    }
}

/// Renders `n` in decimal with its sign, exactly as `dec_signed` describes.
pub fn i64_to_decimal(n: i64) -> (r: Vec<u8>)
    ensures
        r@ == dec_signed(n as int),
{
    if n >= 0 {
        u64_to_decimal(n as u64)
    } else {
        let m: u64 = if n == i64::MIN {
            9223372036854775808u64
        } else {
            (-n) as u64
        };
        assert(m as nat == (-(n as int)) as nat);
        let mut v: Vec<u8> = Vec::new();
        v.push(45u8);
        let mut digits = u64_to_decimal(m);
        v.append(&mut digits);
        assert(v@ =~= dec_signed(n as int));
        v
    }
}

/// The value of `s` read as a big-endian base-256 number.
pub open spec fn be_bytes_val(s: Seq<u8>) -> int
    decreases s.len(),
{
    if s.len() == 0 {
        0
    } else {
        be_bytes_val(s.drop_last()) * 256 + s.last()
    }
}

/// The value of the leading 128 bits (first 16 bytes) of a digest.
pub open spec fn leading_128(h: Seq<u8>) -> int {
    be_bytes_val(h.take(16))
}

proof fn lemma_be_bytes_val_bound(s: Seq<u8>)
    ensures
        0 <= be_bytes_val(s) < pow2((8 * s.len()) as nat),
    decreases s.len(),
{
    if s.len() == 0 {
        lemma2_to64();
    } else {
        lemma_be_bytes_val_bound(s.drop_last());
        lemma_pow2_adds((8 * (s.len() - 1)) as nat, 8);
        lemma2_to64();
    }
}

/// Reads the leading 128 bits of `h` as an unsigned integer.
pub fn leading_u128(h: &Vec<u8>) -> (v: u128)
    requires
        h@.len() >= 16,
    ensures
        v as int == leading_128(h@),
{
    let mut v: u128 = 0;
    let mut i: usize = 0;
    while i < 16
        invariant
            0 <= i <= 16,
            h@.len() >= 16,
            v as int == be_bytes_val(h@.take(i as int)),
        decreases 16 - i,
    {
        proof {
            lemma_be_bytes_val_bound(h@.take(i as int));
            lemma_pow2_adds((8 * i) as nat, 8);
            lemma_pow2_adds((8 * i + 8) as nat, (128 - 8 * i - 8) as nat);
            lemma_pow2_pos((128 - 8 * i - 8) as nat);
            lemma2_to64();
            assert(pow2(8 * i as nat) * 256 <= pow2(128)) by (nonlinear_arith)
                requires
                    pow2(8 * i as nat) * pow2(8) == pow2(8 * i as nat + 8),
                    pow2(8) == 256,
                    pow2(8 * i as nat + 8) * pow2((128 - 8 * i - 8) as nat) == pow2(128),
                    pow2((128 - 8 * i - 8) as nat) >= 1,
                    pow2(8 * i as nat + 8) > 0,
            ;
            assert(pow2(128) == 0x100000000000000000000000000000000) by {
                lemma_pow2_adds(64, 64);
                lemma2_to64();
            }
            assert(h@.take(i + 1).drop_last() =~= h@.take(i as int));
            assert(h@.take(i + 1).last() == h@[i as int]);
        }
        v = v * 256 + (h[i] as u128);
        i = i + 1;
    }
    proof {
        assert(h@.take(16) == h@.take(16int));
    }
    v
}

/// The proof-of-work threshold for a difficulty: `2^(128 - difficulty) - 1`.
pub open spec fn target_of(difficulty: u32) -> int {
    pow2((128 - difficulty) as nat) - 1
}

/// Computes `target_of(difficulty)`.
pub fn target_for(difficulty: u32) -> (t: u128)
    requires
        1 <= difficulty <= 128,
    ensures
        t as int == target_of(difficulty),
{
    let k: u32 = 128 - difficulty;
    let mut t: u128 = 0;
    let mut i: u32 = 0;
    proof {
        lemma2_to64();
    }
    while i < k
        invariant
            0 <= i <= k <= 127,
            t as int == pow2(i as nat) - 1,
        decreases k - i,
    {
        proof {
            lemma2_to64();
            lemma_pow2_adds(i as nat, 1);
            lemma_pow2_strictly_increases((i + 1) as nat, 128);
            assert(pow2(128) == 0x100000000000000000000000000000000) by {
                lemma_pow2_adds(64, 64);
                lemma2_to64();
            }
        }
        t = 2 * t + 1;
        i = i + 1;
    }
    t
}

} // verus!
