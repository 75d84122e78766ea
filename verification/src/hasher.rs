//! Pluggable hash strategies for the probing table.
//!
//! The table only needs the digest of a key to be deterministic: the same
//! key must hash to the same 64-bit value on every call. The
//! [`BuildKeyHasher`] trait captures exactly that by tying the executable
//! `hash_key` to the implementor's own `hash_spec`. The provided
//! [`BuildDefaultHasher`] sums the little-endian bytes of the key with
//! wrapping addition on top of a configurable seed; it is intentionally
//! simple and in no way cryptographic.

use vstd::prelude::*;

verus! {

/// Capability contract for the pluggable hash strategy.
///
/// Implementors choose any digest function they like (as `hash_spec`); the
/// contract of `hash_key` only demands that the executable code computes
/// that function, which gives the probing table the determinism its
/// correctness rests on.
pub trait BuildKeyHasher {
    /// The digest this strategy assigns to `key`.
    spec fn hash_spec(&self, key: u64) -> u64;

    /// Digest `key` to 64 bits.
    fn hash_key(&self, key: u64) -> (h: u64)
        ensures
            h == self.hash_spec(key),
    ;
}

/// Wrapping sum of `bytes` on top of `acc`, accumulated left to right.
pub open spec fn byte_wrap_sum(acc: u64, bytes: Seq<u8>) -> u64
    decreases bytes.len(),
{
    if bytes.len() == 0 {
        acc
    } else {
        vstd::wrapping::u64_specs::wrapping_add(
            byte_wrap_sum(acc, bytes.drop_last()),
            bytes.last() as u64,
        )
    }
}

/// Byte `i` (counting from the least significant end) of `key`.
pub open spec fn le_byte(key: u64, i: int) -> u8 {
    ((key >> ((8 * i) as u64)) & 0xff) as u8
}

/// The eight little-endian bytes of `key`.
pub open spec fn key_bytes(key: u64) -> Seq<u8> {
    Seq::new(8, |i: int| le_byte(key, i))
}

/// Hash state of the default strategy: a running wrapping sum of the bytes
/// written so far, started at the seed.
pub struct DefaultHasher {
    pub val: u64,
}

impl DefaultHasher {
    pub fn finish(&self) -> (r: u64)
        ensures
            r == self.val,
    {
        self.val
    }

    pub fn write(&mut self, bytes: &[u8])
        ensures
            final(self).val == byte_wrap_sum(old(self).val, bytes@),
    {
        let n = bytes.len();
        let mut i: usize = 0;
        while i < n
            invariant
                n == bytes@.len(),
                i <= n,
                self.val == byte_wrap_sum(old(self).val, bytes@.subrange(0, i as int)),
            decreases n - i,
        {
            self.val = self.val.wrapping_add(bytes[i] as u64);
            i = i + 1;
            proof {
                assert(bytes@.subrange(0, i as int).drop_last() =~= bytes@.subrange(
                    0,
                    i - 1,
                ));
            }
        }
        proof {
            assert(bytes@.subrange(0, n as int) =~= bytes@);
        }
    }
}

/// The default hash strategy: byte summing with wrapping addition and a
/// configurable seed. Deliberately weak; the table only relies on its
/// determinism.
pub struct BuildDefaultHasher {
    pub seed: u64,
}

impl BuildDefaultHasher {
    pub fn build_hasher(&self) -> (r: DefaultHasher)
        ensures
            r.val == self.seed,
    {
        DefaultHasher { val: self.seed }
    }
}

impl BuildKeyHasher for BuildDefaultHasher {
    open spec fn hash_spec(&self, key: u64) -> u64 {
        byte_wrap_sum(self.seed, key_bytes(key))
    }

    fn hash_key(&self, key: u64) -> (h: u64) {
        let mut hasher = self.build_hasher();
        let mut bytes: Vec<u8> = Vec::new();
        let mut i: usize = 0;
        while i < 8
            invariant
                bytes@.len() == i,
                i <= 8,
                forall|j: int| 0 <= j < i ==> bytes@[j] == le_byte(key, j),
            decreases 8 - i,
        {
            let shift: u64 = 8 * (i as u64);
            proof {
                assert(((key >> shift) & 0xff) < 0x100) by (bit_vector);
            }
            let b: u8 = ((key >> shift) & 0xff) as u8;
            bytes.push(b);
            i = i + 1;
        }
        proof {
            assert(bytes@ =~= key_bytes(key));
        }
        hasher.write(bytes.as_slice());
        hasher.finish()
    }
}

/// A hash strategy that sends every key to the same digest. All keys
/// collide, which makes the probe order of the table fully predictable;
/// useful for exercising and inspecting collision handling.
pub struct ConstantHasher {
    pub value: u64,
}

impl BuildKeyHasher for ConstantHasher {
    open spec fn hash_spec(&self, key: u64) -> u64 {
        self.value
    }

    fn hash_key(&self, key: u64) -> (h: u64) {
        self.value
    }
}

} // verus!
