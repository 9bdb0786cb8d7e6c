//! The 32-bit non-cryptographic, case-insensitive hash used to key tables by
//! their resource names and file paths.

use vstd::prelude::*;

verus! {

/// How a single code unit is normalized before hashing: everything up to and
/// including `'Z'` is shifted by 32 (folding upper-case letters to lower
/// case), and backslashes are treated as forward slashes.
pub open spec fn hash_unit(ch: u32) -> u32 {
    if ch <= 90 {
        (ch + 32) as u32
    } else if ch == 92 {
        47u32
    } else {
        ch
    }
}

/// The hash of a sequence of code units: a fold of `r * 137 + unit` over the
/// normalized units, in wrapping 32-bit arithmetic.
pub open spec fn dl_hash_seq(s: Seq<u32>) -> u32
    decreases s.len(),
{
    if s.len() == 0 {
        0u32
    } else {
        vstd::wrapping::u32_specs::wrapping_add(
            vstd::wrapping::u32_specs::wrapping_mul(dl_hash_seq(s.drop_last()), 137u32),
            hash_unit(s.last()),
        )
    }
}

/// 32-bit non-cryptographic case insensitive hash used to key tables by
/// resource names and file paths.
pub trait DLHash {
    /// The code units this representation hashes.
    spec fn hash_units(&self) -> Seq<u32>;

    /// Get the representation's hash.
    ///
    /// If two strings in lower case compare equal, their hashes must be equal.
    fn strhash(&self) -> (r: u32)
        ensures
            r == dl_hash_seq(self.hash_units()),
    ;
}

/// Hash a slice of 32-bit code units.
pub fn dl_hash(units: &[u32]) -> (r: u32)
    ensures
        r == dl_hash_seq(units@),
{
    let mut result: u32 = 0;
    let mut i: usize = 0;
    while i < units.len()
        invariant
            i <= units@.len(),
            result == dl_hash_seq(units@.take(i as int)),
        decreases units@.len() - i,
    {
        let ch: u32 = units[i];
        let norm: u32 = if ch <= 90 {
            ch + 32
        } else if ch == 92 {
            47
        } else {
            ch
        };
        result = result.wrapping_mul(137).wrapping_add(norm);
        i = i + 1;
        proof {
            assert(units@.take(i as int).drop_last() =~= units@.take(i - 1));
            assert(units@.take(i as int).last() == units@[i - 1]);
        }
    }
    proof {
        assert(units@.take(units@.len() as int) =~= units@);
    }
    result
}

impl DLHash for [u8] {
    open spec fn hash_units(&self) -> Seq<u32> {
        self@.map_values(|b: u8| b as u32)
    }

    fn strhash(&self) -> (r: u32) {
        let mut units: Vec<u32> = Vec::new();
        let mut i: usize = 0;
        while i < self.len()
            invariant
                i <= self@.len(),
                units@ == self@.take(i as int).map_values(|b: u8| b as u32),
            decreases self@.len() - i,
        {
            units.push(self[i] as u32);
            i = i + 1;
            proof {
                assert(self@.take(i as int).map_values(|b: u8| b as u32) =~= units@);
            }
        }
        proof {
            assert(self@.take(self@.len() as int) =~= self@);
        }
        dl_hash(units.as_slice())
    }
}

impl DLHash for [u16] {
    open spec fn hash_units(&self) -> Seq<u32> {
        self@.map_values(|b: u16| b as u32)
    }

    fn strhash(&self) -> (r: u32) {
        let mut units: Vec<u32> = Vec::new();
        let mut i: usize = 0;
        while i < self.len()
            invariant
                i <= self@.len(),
                units@ == self@.take(i as int).map_values(|b: u16| b as u32),
            decreases self@.len() - i,
        {
            units.push(self[i] as u32);
            i = i + 1;
            proof {
                assert(self@.take(i as int).map_values(|b: u16| b as u32) =~= units@);
            }
        }
        proof {
            assert(self@.take(self@.len() as int) =~= self@);
        }
        dl_hash(units.as_slice())
    }
}

impl DLHash for [u32] {
    open spec fn hash_units(&self) -> Seq<u32> {
        self@
    }

    fn strhash(&self) -> (r: u32) {
        dl_hash(self)
    }
}

} // verus!
