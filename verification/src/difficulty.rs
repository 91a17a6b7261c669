//! The difficulty predicate: how many zero bits a digest starts with.

use vstd::prelude::*;

verus! {

/// The number of zero bits above the highest set bit of `b`; 8 when `b` is zero.
pub open spec fn byte_leading_zeros(b: u8) -> nat {
    if b == 0 {
        8
    } else if b < 2 {
        7
    } else if b < 4 {
        6
    } else if b < 8 {
        5
    } else if b < 16 {
        4
    } else if b < 32 {
        3
    } else if b < 64 {
        2
    } else if b < 128 {
        1
    } else {
        0
    }
}

/// The number of consecutive zero bits at the start of `digest`, counted from
/// the most significant bit of its first byte. A zero byte contributes 8 and
/// the count goes on; the first other byte contributes its own leading zeros
/// and ends the count.
pub open spec fn leading_zero_bits(digest: Seq<u8>) -> nat
    decreases digest.len(),
{
    if digest.len() == 0 {
        0
    } else if digest[0] == 0 {
        8 + leading_zero_bits(digest.drop_first())
    } else {
        byte_leading_zeros(digest[0])
    }
}

/// `digest` starts with at least `difficulty` zero bits.
pub open spec fn meets_difficulty(digest: Seq<u8>, difficulty: nat) -> bool {
    leading_zero_bits(digest) >= difficulty
}

/// The bit of `b` at position `k`, where position 0 is the most significant.
pub open spec fn byte_bit(b: u8, k: int) -> bool {
    if k == 0 {
        b >= 128
    } else if k == 1 {
        b % 128 >= 64
    } else if k == 2 {
        b % 64 >= 32
    } else if k == 3 {
        b % 32 >= 16
    } else if k == 4 {
        b % 16 >= 8
    } else if k == 5 {
        b % 8 >= 4
    } else if k == 6 {
        b % 4 >= 2
    } else {
        b % 2 >= 1
    }
}

/// The bit of `digest` at position `i`, where position 0 is the most
/// significant bit of the first byte.
pub open spec fn bit_at(digest: Seq<u8>, i: int) -> bool {
    byte_bit(digest[i / 8], i % 8)
}

/// When the first `k` bytes are zero, the count is `8 * k` plus the count of the rest.
pub proof fn lemma_zero_prefix(digest: Seq<u8>, k: nat)
    requires
        k <= digest.len(),
        forall|j: int| 0 <= j < k ==> digest[j] == 0,
    ensures
        leading_zero_bits(digest) == 8 * k + leading_zero_bits(digest.skip(k as int)),
    decreases k,
{
    if k == 0 {
        assert(digest.skip(0) =~= digest);
    } else {
        let rest = digest.drop_first();
        assert forall|j: int| 0 <= j < k - 1 implies rest[j] == 0 by {
            assert(rest[j] == digest[j + 1]);
        }
        lemma_zero_prefix(rest, (k - 1) as nat);
        assert(rest.skip(k - 1) =~= digest.skip(k as int));
    }
}

/// The count never exceeds the number of bits in the digest.
pub proof fn lemma_leading_zero_bits_bound(digest: Seq<u8>)
    ensures
        leading_zero_bits(digest) <= 8 * digest.len(),
    decreases digest.len(),
{
    if digest.len() > 0 && digest[0] == 0 {
        lemma_leading_zero_bits_bound(digest.drop_first());
    }
}

/// A byte has at least `d` leading zeros exactly when its first `d` bits are clear.
proof fn lemma_byte_bits(b: u8, d: int)
    requires
        0 <= d <= 8,
    ensures
        byte_leading_zeros(b) >= d <==> forall|k: int| 0 <= k < d ==> !byte_bit(b, k),
{
    if forall|k: int| 0 <= k < d ==> !byte_bit(b, k) {
        assert(d > 0 ==> !byte_bit(b, 0));
        assert(d > 1 ==> !byte_bit(b, 1));
        assert(d > 2 ==> !byte_bit(b, 2));
        assert(d > 3 ==> !byte_bit(b, 3));
        assert(d > 4 ==> !byte_bit(b, 4));
        assert(d > 5 ==> !byte_bit(b, 5));
        assert(d > 6 ==> !byte_bit(b, 6));
        assert(d > 7 ==> !byte_bit(b, 7));
    }
}

/// The predicate, bit by bit: a digest meets a difficulty exactly when it has
/// that many bits and each of its first `difficulty` bits is zero.
pub proof fn lemma_meets_difficulty_by_bits(digest: Seq<u8>, difficulty: nat)
    ensures
        meets_difficulty(digest, difficulty) <==> {
            &&& difficulty <= 8 * digest.len()
            &&& forall|i: int| 0 <= i < difficulty ==> !bit_at(digest, i)
        },
    decreases digest.len(),
{
    lemma_leading_zero_bits_bound(digest);
    if digest.len() == 0 {
    } else if digest[0] != 0 {
        let b = digest[0];
        if difficulty <= 8 {
            lemma_byte_bits(b, difficulty as int);
            if forall|i: int| 0 <= i < difficulty ==> !bit_at(digest, i) {
                assert forall|k: int| 0 <= k < difficulty implies !byte_bit(b, k) by {
                    assert(!bit_at(digest, k));
                }
            }
        } else {
            lemma_byte_bits(b, 8);
            if forall|i: int| 0 <= i < difficulty ==> !bit_at(digest, i) {
                assert forall|k: int| 0 <= k < 8 implies !byte_bit(b, k) by {
                    assert(!bit_at(digest, k));
                }
            }
        }
    } else {
        let rest = digest.drop_first();
        if difficulty > 8 {
            let less = (difficulty - 8) as nat;
            lemma_meets_difficulty_by_bits(rest, less);
            assert forall|i: int| 8 <= i < 8 * digest.len() implies bit_at(digest, i) == bit_at(
                rest,
                i - 8,
            ) by {
                assert(digest[i / 8] == rest[(i - 8) / 8]);
            }
            if meets_difficulty(digest, difficulty) {
                assert forall|i: int| 0 <= i < difficulty implies !bit_at(digest, i) by {
                    if i >= 8 {
                        assert(!bit_at(rest, i - 8));
                    }
                }
            }
            if difficulty <= 8 * digest.len() && forall|i: int|
                0 <= i < difficulty ==> !bit_at(digest, i) {
                assert forall|j: int| 0 <= j < less implies !bit_at(rest, j) by {
                    assert(!bit_at(digest, j + 8));
                    assert(bit_at(digest, j + 8) == bit_at(rest, j + 8 - 8));
                }
            }
        }
    }
}

/// A digest that meets a difficulty meets every lower one.
pub proof fn lemma_meets_lower_difficulty(digest: Seq<u8>, difficulty: nat, lower: nat)
    requires
        meets_difficulty(digest, difficulty),
        lower <= difficulty,
    ensures
        meets_difficulty(digest, lower),
{
}

/// Every digest meets difficulty zero.
pub proof fn lemma_meets_zero(digest: Seq<u8>)
    ensures
        meets_difficulty(digest, 0),
{
}

/// The mask test on a single byte: the top `r` bits of `b` are clear exactly
/// when `b` has at least `r` leading zeros.
proof fn lemma_mask_test(b: u8, r: u8)
    requires
        1 <= r <= 7,
    ensures
        (b & (0xFFu8 << ((8 - r) as u8)) == 0) <==> byte_leading_zeros(b) >= r,
{
    let s: u8 = (8 - r) as u8;
    assert(1 <= s <= 7 ==> {
        &&& (s == 7 ==> ((b & (0xFFu8 << s) == 0) <==> b < 128))
        &&& (s == 6 ==> ((b & (0xFFu8 << s) == 0) <==> b < 64))
        &&& (s == 5 ==> ((b & (0xFFu8 << s) == 0) <==> b < 32))
        &&& (s == 4 ==> ((b & (0xFFu8 << s) == 0) <==> b < 16))
        &&& (s == 3 ==> ((b & (0xFFu8 << s) == 0) <==> b < 8))
        &&& (s == 2 ==> ((b & (0xFFu8 << s) == 0) <==> b < 4))
        &&& (s == 1 ==> ((b & (0xFFu8 << s) == 0) <==> b < 2))
    }) by (bit_vector);
}

/// Whether `hash` starts with at least `difficulty` zero bits.
///
/// Whole bytes are compared with zero; the bits left over are tested with a
/// mask on the byte that follows them.
pub fn check_pow_difficulty(hash: &[u8; 32], difficulty: u8) -> (ok: bool)
    ensures
        ok == meets_difficulty(hash@, difficulty as nat),
{
    let full_bytes: usize = (difficulty / 8) as usize;
    let remaining_bits: u8 = difficulty % 8;
    let mut i: usize = 0;
    while i < full_bytes
        invariant
            i <= full_bytes <= 31,
            full_bytes == difficulty / 8,
            forall|j: int| 0 <= j < i ==> hash@[j] == 0,
        decreases full_bytes - i,
    {
        if hash[i] != 0 {
            proof {
                lemma_zero_prefix(hash@, i as nat);
                assert(hash@.skip(i as int)[0] == hash@[i as int]);
            }
            return false;
        }
        i += 1;
    }
    proof {
        lemma_zero_prefix(hash@, full_bytes as nat);
        lemma_leading_zero_bits_bound(hash@.skip(full_bytes as int));
    }
    if remaining_bits > 0 {
        let last_byte: u8 = hash[full_bytes];
        let mask: u8 = 0xFFu8 << (8 - remaining_bits);
        proof {
            lemma_mask_test(last_byte, remaining_bits);
            let rest = hash@.skip(full_bytes as int);
            assert(rest[0] == last_byte);
            if last_byte == 0 {
                lemma_leading_zero_bits_bound(rest.drop_first());
            }
        }
        if last_byte & mask != 0 {
            return false;
        }
    }
    true
}

/// The number of zero bits `hash` starts with.
pub fn count_leading_zero_bits(hash: &[u8; 32]) -> (bits: u32)
    ensures
        bits == leading_zero_bits(hash@),
{
    let mut i: usize = 0;
    while i < 32
        invariant
            i <= 32,
            forall|j: int| 0 <= j < i ==> hash@[j] == 0,
        decreases 32 - i,
    {
        let b: u8 = hash[i];
        if b != 0 {
            proof {
                lemma_zero_prefix(hash@, i as nat);
                assert(hash@.skip(i as int)[0] == b);
            }
            let in_byte: u32 = if b < 2 {
                7
            } else if b < 4 {
                6
            } else if b < 8 {
                5
            } else if b < 16 {
                4
            } else if b < 32 {
                3
            } else if b < 64 {
                2
            } else if b < 128 {
                1
            } else {
                0
            };
            return 8 * (i as u32) + in_byte;
        }
        i += 1;
    }
    proof {
        lemma_zero_prefix(hash@, 32);
        assert(hash@.skip(32).len() == 0);
    }
    256
}

} // verus!
