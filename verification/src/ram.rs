//! The simulated RAM: a sparse, word-addressable backing store with a fixed
//! access latency. Uninitialised addresses read as zero; every access costs
//! exactly the configured latency, hit or miss (RAM is the floor of the
//! hierarchy).

use vstd::prelude::*;
use std::collections::HashMap;
use crate::err::EmuError;

verus! {

broadcast use vstd::std_specs::hash::group_hash_axioms;

/// Saturating 64-bit addition, used for every statistics counter: counts
/// stick at the maximum instead of wrapping or trapping.
pub open spec fn sat_add64(a: u64, b: u64) -> u64 {
    if a + b <= u64::MAX {
        (a + b) as u64
    } else {
        u64::MAX
    }
}

/// Executable twin of [`sat_add64`].
pub fn sat_add(a: u64, b: u64) -> (r: u64)
    ensures
        r == sat_add64(a, b),
{
    if a <= u64::MAX - b {
        a + b
    } else {
        u64::MAX
    }
}

/// The word stored at `addr` in the sparse map `m`: zero where nothing was
/// ever written.
pub open spec fn word_at(m: Map<u32, u32>, addr: u32) -> u32 {
    if m.contains_key(addr) {
        m[addr]
    } else {
        0
    }
}

/// `k` is one of the word addresses covered by a burst of `len` words
/// starting at `addr`.
pub open spec fn in_burst(addr: u32, len: nat, k: u32) -> bool {
    addr <= k < addr + 4 * len && (k - addr) % 4 == 0
}

/// The contents of the sparse map after a burst of `len` words from `data`
/// lands at `addr`: covered addresses take their word, all others keep
/// theirs.
pub open spec fn burst_written(m0: Map<u32, u32>, m1: Map<u32, u32>, addr: u32, data: Seq<u32>) -> bool {
    &&& forall|k: u32| #[trigger] in_burst(addr, data.len(), k) ==> m1.contains_key(k) && word_at(
        m1,
        k,
    ) == data[(k - addr) / 4]
    &&& forall|k: u32| !(#[trigger] in_burst(addr, data.len(), k)) ==> (m1.contains_key(k)
        == m0.contains_key(k) && word_at(m1, k) == word_at(m0, k))
}

/// The sparse word-addressable backing store.
pub struct Ram {
    /// The store itself: absent keys read as zero.
    memory: HashMap<u32, u32>,
    /// Cycles charged for any access.
    latency: u64,
    /// How many accesses were served.
    accesses: u64,
}

impl Ram {
    /// The abstract contents: a partial map from word-aligned addresses to
    /// words.
    pub closed spec fn contents(&self) -> Map<u32, u32> {
        self.memory@
    }

    /// The configured access latency in cycles.
    pub closed spec fn latency_spec(&self) -> u64 {
        self.latency
    }

    /// How many accesses this device has served.
    pub closed spec fn accesses_spec(&self) -> u64 {
        self.accesses
    }

    /// Creates an empty RAM with the given access latency.
    pub fn new(latency: u64) -> (r: Ram)
        ensures
            r.contents() == Map::<u32, u32>::empty(),
            r.latency_spec() == latency,
            r.accesses_spec() == 0,
    {
        Ram { memory: HashMap::with_capacity(1024), latency, accesses: 0 }
    }

    /// How many accesses this device has served, as a value.
    pub fn accesses(&self) -> (r: u64)
        ensures
            r == self.accesses_spec(),
    {
        self.accesses
    }

    /// Resets the access counter, so that seeding RAM from the loader does
    /// not pollute the run's statistics.
    pub fn reset_stats(&mut self)
        ensures
            final(self).contents() == old(self).contents(),
            final(self).latency_spec() == old(self).latency_spec(),
            final(self).accesses_spec() == 0,
    {
        self.accesses = 0;
    }

    /// Reads the word at `addr`. Unaligned addresses fail; absent addresses
    /// read as zero. The reported cost is always the configured latency.
    pub fn read_word(&mut self, addr: u32) -> (r: Result<(u32, u64), EmuError>)
        ensures
            final(self).contents() == old(self).contents(),
            final(self).latency_spec() == old(self).latency_spec(),
            match r {
                Ok((v, cycles)) => addr % 4 == 0 && v == word_at(old(self).contents(), addr)
                    && cycles == old(self).latency_spec() && final(self).accesses_spec()
                    == sat_add64(old(self).accesses_spec(), 1),
                Err(e) => addr % 4 != 0 && e == (EmuError::Alignment { addr })
                    && final(self).accesses_spec() == old(self).accesses_spec(),
            },
    {
        if addr % 4 != 0 {
            return Err(EmuError::Alignment { addr });
        }
        self.accesses = sat_add(self.accesses, 1);
        let v = match self.memory.get(&addr) {
            Some(x) => *x,
            None => 0,
        };
        Ok((v, self.latency))
    }

    /// Reads a burst of `len` consecutive words starting at `addr`. One
    /// latency covers the whole burst: it models a single RAM transaction.
    pub fn read_slice(&mut self, addr: u32, len: usize) -> (r: Result<(Vec<u32>, u64), EmuError>)
        requires
            addr + 4 * len <= 0x1_0000_0000,
        ensures
            final(self).contents() == old(self).contents(),
            final(self).latency_spec() == old(self).latency_spec(),
            match r {
                Ok((v, cycles)) => addr % 4 == 0 && v.len() == len && (forall|i: int|
                    0 <= i < len ==> v[i] == word_at(old(self).contents(), (addr + 4 * i) as u32))
                    && cycles == old(self).latency_spec() && final(self).accesses_spec()
                    == sat_add64(old(self).accesses_spec(), 1),
                Err(e) => addr % 4 != 0 && e == (EmuError::Alignment { addr })
                    && final(self).accesses_spec() == old(self).accesses_spec(),
            },
    {
        if addr % 4 != 0 {
            return Err(EmuError::Alignment { addr });
        }
        self.accesses = sat_add(self.accesses, 1);
        let mut v: Vec<u32> = Vec::new();
        let mut i: usize = 0;
        while i < len
            invariant
                i <= len,
                addr + 4 * len <= 0x1_0000_0000,
                v.len() == i,
                forall|j: int| 0 <= j < i ==> v[j] == word_at(self.memory@, (addr + 4 * j) as u32),
            decreases len - i,
        {
            let a = addr + 4 * (i as u32);
            let w = match self.memory.get(&a) {
                Some(x) => *x,
                None => 0,
            };
            v.push(w);
            i += 1;
        }
        Ok((v, self.latency))
    }

    /// Writes `val` at `addr`. Unaligned addresses fail.
    pub fn write_word(&mut self, addr: u32, val: u32) -> (r: Result<u64, EmuError>)
        ensures
            final(self).latency_spec() == old(self).latency_spec(),
            match r {
                Ok(cycles) => addr % 4 == 0
                    && final(self).contents() == old(self).contents().insert(addr, val)
                    && cycles == old(self).latency_spec()
                    && final(self).accesses_spec() == sat_add64(old(self).accesses_spec(), 1),
                Err(e) => addr % 4 != 0 && e == (EmuError::Alignment { addr })
                    && final(self).contents() == old(self).contents()
                    && final(self).accesses_spec() == old(self).accesses_spec(),
            },
    {
        if addr % 4 != 0 {
            return Err(EmuError::Alignment { addr });
        }
        self.accesses = sat_add(self.accesses, 1);
        self.memory.insert(addr, val);
        Ok(self.latency)
    }

    /// Writes a burst of consecutive words starting at `addr`, for one
    /// latency. The loader also uses this to seed memory from segments.
    pub fn write_slice(&mut self, addr: u32, data: &Vec<u32>) -> (r: Result<u64, EmuError>)
        requires
            addr + 4 * data.len() <= 0x1_0000_0000,
        ensures
            final(self).latency_spec() == old(self).latency_spec(),
            match r {
                Ok(cycles) => addr % 4 == 0
                    && burst_written(old(self).contents(), final(self).contents(), addr, data@)
                    && cycles == old(self).latency_spec()
                    && final(self).accesses_spec() == sat_add64(old(self).accesses_spec(), 1),
                Err(e) => addr % 4 != 0 && e == (EmuError::Alignment { addr })
                    && final(self).contents() == old(self).contents()
                    && final(self).accesses_spec() == old(self).accesses_spec(),
            },
    {
        if addr % 4 != 0 {
            return Err(EmuError::Alignment { addr });
        }
        let ghost m0 = self.memory@;
        let mut i: usize = 0;
        while i < data.len()
            invariant
                i <= data.len(),
                addr + 4 * data.len() <= 0x1_0000_0000,
                addr % 4 == 0,
                self.latency == old(self).latency,
                self.accesses == old(self).accesses,
                forall|k: u32| #[trigger] in_burst(addr, i as nat, k) ==> self.memory@.contains_key(
                    k,
                ) && word_at(self.memory@, k) == data@[(k - addr) / 4],
                forall|k: u32| !(#[trigger] in_burst(addr, i as nat, k)) ==> (
                self.memory@.contains_key(k) == m0.contains_key(k) && word_at(self.memory@, k)
                    == word_at(m0, k)),
            decreases data.len() - i,
        {
            let a = addr + 4 * (i as u32);
            let ghost pre = self.memory@;
            self.memory.insert(a, data[i]);
            let i_next = i + 1;
            proof {
                assert(self.memory@ == pre.insert(a, data@[i as int]));
                assert forall|k: u32| #[trigger] in_burst(addr, i_next as nat, k) implies
                    self.memory@.contains_key(k) && word_at(self.memory@, k) == data@[(k
                    - addr) / 4] by {
                    if k == a {
                        assert(k - addr == 4 * i);
                        assert((4 * i) / 4 == i as int);
                        assert(word_at(self.memory@, k) == data@[i as int]);
                    } else {
                        assert(k - addr != 4 * i);
                        if k - addr > 4 * i {
                            assert((k - addr) % 4 == 0 && 4 * i < k - addr < 4 * (i + 1) ==> false)
                                by (nonlinear_arith);
                        }
                        assert(in_burst(addr, i as nat, k));
                        assert(pre.contains_key(k) && word_at(pre, k) == data@[(k - addr) / 4]);
                        assert(word_at(self.memory@, k) == word_at(pre, k));
                    }
                }
                assert forall|k: u32| !(#[trigger] in_burst(addr, i_next as nat, k)) implies (
                    self.memory@.contains_key(k) == m0.contains_key(k) && word_at(
                    self.memory@, k) == word_at(m0, k)) by {
                    assert(!in_burst(addr, i as nat, k));
                    assert(k != a);
                    assert(pre.contains_key(k) == m0.contains_key(k) && word_at(pre, k) == word_at(
                    m0, k));
                }
            }
            i = i_next;
        }
        self.accesses = sat_add(self.accesses, 1);
        Ok(self.latency)
    }
}

} // verus!
