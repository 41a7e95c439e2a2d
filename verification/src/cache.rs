//! The N-way set-associative cache: lines, address decomposition,
//! replacement, invalidation, and the local steps (lookup, victim
//! write-back, line install, in-line write) out of which the memory
//! hierarchy composes its read and write paths.

use vstd::prelude::*;
use vstd::arithmetic::div_mod::{
    lemma_mod_multiples_basic,
    lemma_fundamental_div_mod, lemma_fundamental_div_mod_converse,
};
use vstd::arithmetic::mul::lemma_mul_inequality;
use crate::ram::{sat_add, sat_add64};

verus! {

/// The line-replacement policies.
#[derive(Clone, Copy, Debug, PartialEq, Eq, Structural)]
pub enum RepPolicy {
    /// A uniformly random way of the set is replaced.
    Random,
    /// The way with the smallest last-access stamp is replaced; an empty way
    /// counts as stamp zero and wins immediately; ties break to the lowest
    /// way index.
    LeastRecentlyUsed,
}

/// One cache line: a tag, the write-back and coherence flags, the
/// last-access stamp that drives LRU, and the line's words.
pub struct CacheLine {
    pub tag: u64,
    pub dirty: bool,
    pub valid: bool,
    pub last_access: u64,
    pub data: Vec<u32>,
}

/// The decomposition of an address within a cache: its line number, set
/// index, word offset, the slot the lookup settled on, and its tag.
pub struct LineIndex {
    pub line_number: u64,
    pub set_idx: usize,
    pub offset: usize,
    pub line_idx: usize,
    pub tag: u64,
}

impl LineIndex {
    /// The base byte address of the block this decomposition names.
    pub fn to_addr(&self, words_per_line: usize) -> (r: u32)
        requires
            (self.line_number + 1) * (4 * words_per_line) <= 0x1_0000_0000,
            1 <= words_per_line <= 0x4000_0000,
        ensures
            r == self.line_number * (4 * words_per_line),
    {
        proof {
            assert(self.line_number * (4 * words_per_line) >= 0) by (nonlinear_arith)
                requires words_per_line >= 1, self.line_number >= 0;
            assert(self.line_number * (4 * words_per_line) < (self.line_number + 1) * (4
                * words_per_line)) by (nonlinear_arith)
                requires words_per_line >= 1;
        }
        ((self.line_number as u64) * (4u64 * words_per_line as u64)) as u32
    }
}

/// A parameterized set-associative cache. `words_per_line` is L, `assoc`
/// is A (ways per set), and `set_count` is S; the cache has `S * A` line
/// slots, laid out set-major.
pub struct Cache {
    /// Words per line (L).
    pub words_per_line: usize,
    /// Number of sets (S).
    pub set_count: usize,
    /// Ways per set (A).
    pub assoc: usize,
    /// Cycles charged for an access served at this level.
    pub latency: u64,
    /// The replacement policy.
    pub policy: RepPolicy,
    /// The line slots; `None` is an empty slot.
    pub lines: Vec<Option<CacheLine>>,
    /// How many accesses this cache has served.
    pub accesses: u64,
    /// How many of them missed.
    pub misses: u64,
}

/// Relies on `rand::random`: a pseudo-random 64-bit value. Nothing is
/// promised of the outcome.
#[verifier::external_body]
fn random_u64() -> u64 {
    rand::random()
}

/// A pseudo-random value below `n`, for random replacement.
pub fn random_below(n: u64) -> (r: u64)
    requires
        n > 0,
    ensures
        r < n,
{
    random_u64() % n
}

/// Copies a word vector.
pub fn clone_words(v: &Vec<u32>) -> (r: Vec<u32>)
    ensures
        r@ == v@,
{
    let mut r: Vec<u32> = Vec::new();
    let mut i: usize = 0;
    while i < v.len()
        invariant
            i <= v.len(),
            r@ == v@.take(i as int),
        decreases v.len() - i,
    {
        r.push(v[i]);
        proof {
            assert(r@ == v@.take((i + 1) as int));
        }
        i += 1;
    }
    proof {
        assert(v@.take(v@.len() as int) == v@);
    }
    r
}

impl Cache {
    /// The line number a byte address falls in: `a / (4 L)`.
    pub open spec fn line_no_of(&self, a: u32) -> int {
        a as int / (4 * self.words_per_line as int)
    }

    /// The set a byte address maps to: `line_no mod S`.
    pub open spec fn set_of(&self, a: u32) -> int {
        self.line_no_of(a) % (self.set_count as int)
    }

    /// The tag of a byte address: `line_no / S`.
    pub open spec fn tag_of(&self, a: u32) -> int {
        self.line_no_of(a) / (self.set_count as int)
    }

    /// The word offset of a byte address within its line.
    pub open spec fn off_of(&self, a: u32) -> int {
        (a as int / 4) % (self.words_per_line as int)
    }

    /// The base byte address of the block holding `a`.
    pub open spec fn base_of(&self, a: u32) -> int {
        self.line_no_of(a) * (4 * self.words_per_line as int)
    }

    /// The set a slot index belongs to.
    pub open spec fn set_of_slot(&self, i: int) -> int {
        i / (self.assoc as int)
    }

    /// The line number a stored slot covers, reconstructed from its tag.
    pub open spec fn slot_line_no(&self, i: int) -> int
        recommends
            0 <= i < self.lines.len(),
            self.lines[i] is Some,
    {
        self.lines[i]->Some_0.tag * self.set_count + self.set_of_slot(i)
    }

    /// A stored slot is internally consistent: full-length data and a tag
    /// whose block still lies below 2^32.
    pub open spec fn line_ok(&self, i: int) -> bool
        recommends
            0 <= i < self.lines.len(),
    {
        self.lines[i] is Some ==> {
            &&& self.lines[i]->Some_0.data.len() == self.words_per_line
            &&& (self.slot_line_no(i) + 1) * (4 * self.words_per_line as int) <= 0x1_0000_0000
        }
    }

    /// Well-formedness: sane geometry, a block size dividing the address
    /// space, the slot vector sized `S * A`, misses within accesses, every
    /// stored line consistent, and no two slots of a set sharing a tag.
    pub open spec fn wf(&self) -> bool {
        &&& 1 <= self.words_per_line <= 0x4000_0000
        &&& self.assoc >= 1
        &&& self.set_count >= 1
        &&& 0x1_0000_0000int % (4 * self.words_per_line as int) == 0
        &&& self.lines.len() == self.set_count * self.assoc
        &&& self.misses <= self.accesses
        &&& forall|i: int| 0 <= i < self.lines.len() ==> #[trigger] self.line_ok(i)
        &&& forall|i: int, j: int|
            0 <= i < self.lines.len() && 0 <= j < self.lines.len() && i != j
                && self.set_of_slot(i) == self.set_of_slot(j) && self.lines[i] is Some
                && self.lines[j] is Some ==> #[trigger] self.lines[i]->Some_0.tag != #[trigger]
            self.lines[j]->Some_0.tag
    }

    /// Slot `i` holds the block of address `a`: right set and matching tag
    /// (the slot may still be invalid).
    pub open spec fn slot_matches(&self, i: int, a: u32) -> bool {
        &&& 0 <= i < self.lines.len()
        &&& self.lines[i] is Some
        &&& self.set_of_slot(i) == self.set_of(a)
        &&& self.lines[i]->Some_0.tag == self.tag_of(a)
    }

    /// Some slot holds the block of `a`.
    pub open spec fn has_line(&self, a: u32) -> bool {
        exists|i: int| self.slot_matches(i, a)
    }

    /// The slot holding the block of `a` (unique under `wf`).
    pub open spec fn line_slot(&self, a: u32) -> int {
        choose|i: int| self.slot_matches(i, a)
    }

    /// Some slot holds the block of `a` and is marked valid.
    pub open spec fn has_valid_line(&self, a: u32) -> bool {
        self.has_line(a) && self.lines[self.line_slot(a)]->Some_0.valid
    }

    /// The word this cache stores for `a` (meaningful when it has a line).
    pub open spec fn stored_word(&self, a: u32) -> u32 {
        self.lines[self.line_slot(a)]->Some_0.data[self.off_of(a)]
    }

    /// The last-access stamp replacement sees for a slot: empty counts zero.
    pub open spec fn slot_age(&self, i: int) -> u64 {
        match self.lines[i] {
            Some(l) => l.last_access,
            None => 0,
        }
    }

    /// Hits are what did not miss.
    pub open spec fn hits(&self) -> int {
        self.accesses - self.misses
    }

    /// Creates an empty cache.
    ///
    /// The line size must divide the address space (the six fixed
    /// configurations use powers of two), and the slot count is `S * A`.
    pub fn new(
        words_per_line: usize,
        set_count: usize,
        assoc: usize,
        policy: RepPolicy,
        latency: u64,
    ) -> (r: Cache)
        requires
            1 <= words_per_line <= 0x4000_0000,
            assoc >= 1,
            set_count >= 1,
            0x1_0000_0000int % (4 * words_per_line as int) == 0,
            set_count * assoc <= usize::MAX,
        ensures
            r.wf(),
            r.words_per_line == words_per_line,
            r.set_count == set_count,
            r.assoc == assoc,
            r.policy == policy,
            r.latency == latency,
            r.accesses == 0,
            r.misses == 0,
            forall|i: int| 0 <= i < r.lines.len() ==> r.lines[i] is None,
            forall|a: u32| !r.has_line(a),
    {
        let n: usize = set_count * assoc;
        let mut lines: Vec<Option<CacheLine>> = Vec::new();
        let mut i: usize = 0;
        while i < n
            invariant
                i <= n,
                lines.len() == i,
                forall|j: int| 0 <= j < i ==> lines[j] is None,
            decreases n - i,
        {
            lines.push(None);
            i += 1;
        }
        let r = Cache {
            words_per_line,
            set_count,
            assoc,
            latency,
            policy,
            lines,
            accesses: 0,
            misses: 0,
        };
        proof {
            assert forall|a: u32| !r.has_line(a) by {
                assert(forall|i: int| !r.slot_matches(i, a));
            }
        }
        r
    }

    /// Decomposes a byte address against this cache's geometry.
    pub fn decompose(&self, addr: u32) -> (d: LineIndex)
        requires
            self.wf(),
        ensures
            d.line_number == self.line_no_of(addr),
            d.set_idx == self.set_of(addr),
            d.tag == self.tag_of(addr),
            d.offset == self.off_of(addr),
            d.set_idx < self.set_count,
            d.offset < self.words_per_line,
            (d.line_number + 1) * (4 * self.words_per_line as int) <= 0x1_0000_0000,
            d.line_number == d.tag * self.set_count + d.set_idx,
    {
        let l4: u64 = 4 * self.words_per_line as u64;
        let ln: u64 = addr as u64 / l4;
        let s: u64 = self.set_count as u64;
        let set_idx: u64 = ln % s;
        let tag: u64 = ln / s;
        let offset: u64 = (addr as u64 / 4) % (self.words_per_line as u64);
        proof {
            lemma_block_fits(self.words_per_line as int, addr);
            lemma_fundamental_div_mod(ln as int, s as int);
            assert(ln as int % (s as int) < s as int && ln as int % (s as int) >= 0)
                by (nonlinear_arith)
                requires s >= 1, ln >= 0;
            assert((ln as int / s as int) * s as int == s as int * (ln as int / s as int))
                by (nonlinear_arith);
        }
        LineIndex {
            line_number: ln,
            set_idx: set_idx as usize,
            offset: offset as usize,
            line_idx: 0,
            tag,
        }
    }

    /// Scans the ways of `addr`'s set for a slot with a matching tag.
    pub fn locate(&self, addr: u32) -> (r: Option<usize>)
        requires
            self.wf(),
        ensures
            match r {
                Some(i) => self.slot_matches(i as int, addr) && self.line_slot(addr) == i as int
                    && self.has_line(addr),
                None => !self.has_line(addr),
            },
    {
        let d = self.decompose(addr);
        let mut w: usize = 0;
        while w < self.assoc
            invariant
                self.wf(),
                w <= self.assoc,
                d.set_idx == self.set_of(addr),
                d.set_idx < self.set_count,
                d.tag == self.tag_of(addr),
                forall|j: int| d.set_idx * self.assoc <= j < d.set_idx * self.assoc + w
                    ==> !self.slot_matches(j, addr),
            decreases self.assoc - w,
        {
            proof {
                lemma_slot_in_range(d.set_idx as int, w as int, self.set_count as int,
                    self.assoc as int);
            }
            let slot: usize = d.set_idx * self.assoc + w;
            let hit = match &self.lines[slot] {
                Some(line) => line.tag == d.tag,
                None => false,
            };
            if hit {
                proof {
                    lemma_fundamental_div_mod_converse(slot as int, self.assoc as int,
                        d.set_idx as int, w as int);
                    assert(self.slot_matches(slot as int, addr));
                    lemma_unique_match(self, addr, slot as int);
                }
                return Some(slot);
            }
            proof {
                lemma_fundamental_div_mod_converse(slot as int, self.assoc as int,
                    d.set_idx as int, w as int);
                assert(!self.slot_matches(slot as int, addr));
            }
            w += 1;
        }
        proof {
            assert forall|j: int| !self.slot_matches(j, addr) by {
                if 0 <= j < self.lines.len() && self.set_of_slot(j) == self.set_of(addr) {
                    lemma_fundamental_div_mod(j, self.assoc as int);
                    lemma_slot_in_range(self.set_of_slot(j), j % (self.assoc as int),
                        self.set_count as int, self.assoc as int);
                }
            }
        }
        None
    }

    /// Picks the slot to replace within `addr`'s set, by the configured
    /// policy: a random way, or the way with the least last-access stamp
    /// (empty ways count as stamp zero; ties break to the lowest way).
    pub fn choose_victim(&self, addr: u32) -> (r: usize)
        requires
            self.wf(),
        ensures
            self.set_of_slot(r as int) == self.set_of(addr),
            r < self.lines.len(),
            self.policy == RepPolicy::LeastRecentlyUsed ==> {
                &&& forall|j: int| self.set_of(addr) * self.assoc <= j < self.set_of(addr)
                    * self.assoc + self.assoc ==> self.slot_age(r as int) <= #[trigger]
                    self.slot_age(j)
                &&& forall|j: int| self.set_of(addr) * self.assoc <= j < r as int ==> #[trigger]
                    self.slot_age(j) > self.slot_age(r as int)
            },
    {
        let d = self.decompose(addr);
        proof {
            lemma_slot_in_range(d.set_idx as int, 0, self.set_count as int, self.assoc as int);
        }
        match self.policy {
            RepPolicy::Random => {
                let way = random_below(self.assoc as u64) as usize;
                proof {
                    lemma_slot_in_range(d.set_idx as int, way as int, self.set_count as int,
                        self.assoc as int);
                    lemma_fundamental_div_mod_converse((d.set_idx * self.assoc + way) as int,
                        self.assoc as int, d.set_idx as int, way as int);
                }
                d.set_idx * self.assoc + way
            },
            RepPolicy::LeastRecentlyUsed => {
                let base: usize = d.set_idx * self.assoc;
                let mut best: usize = base;
                let mut best_age: u64 = match &self.lines[base] {
                    Some(l) => l.last_access,
                    None => 0,
                };
                proof {
                    lemma_fundamental_div_mod_converse(base as int, self.assoc as int,
                        d.set_idx as int, 0);
                }
                let mut w: usize = 1;
                while w < self.assoc
                    invariant
                        self.wf(),
                        1 <= w <= self.assoc,
                        d.set_idx < self.set_count,
                        base == d.set_idx * self.assoc,
                        base <= best < base + w,
                        base + w <= self.lines.len(),
                        best_age == self.slot_age(best as int),
                        forall|j: int| base <= j < base + w ==> best_age <= #[trigger]
                            self.slot_age(j),
                        forall|j: int| base <= j < best as int ==> #[trigger] self.slot_age(j)
                            > best_age,
                    decreases self.assoc - w,
                {
                    proof {
                        lemma_slot_in_range(d.set_idx as int, w as int, self.set_count as int,
                            self.assoc as int);
                    }
                    let slot: usize = base + w;
                    let age: u64 = match &self.lines[slot] {
                        Some(l) => l.last_access,
                        None => 0,
                    };
                    if age < best_age {
                        best = slot;
                        best_age = age;
                    }
                    w += 1;
                }
                proof {
                    lemma_fundamental_div_mod_converse(best as int, self.assoc as int,
                        d.set_idx as int, best as int - base as int);
                }
                best
            },
        }
    }

    /// Marks the line holding `addr`'s block, if any, invalid; its data and
    /// dirty flag stay. Counters do not move: invalidation is not an access.
    pub fn invalidate_line(&mut self, addr: u32)
        requires
            old(self).wf(),
        ensures
            final(self).wf(),
            !final(self).has_valid_line(addr),
            final(self).words_per_line == old(self).words_per_line,
            final(self).set_count == old(self).set_count,
            final(self).assoc == old(self).assoc,
            final(self).latency == old(self).latency,
            final(self).policy == old(self).policy,
            final(self).accesses == old(self).accesses,
            final(self).misses == old(self).misses,
            final(self).lines.len() == old(self).lines.len(),
            // the only change is clearing one valid flag
            forall|i: int| 0 <= i < old(self).lines.len() && !old(self).slot_matches(i, addr)
                ==> final(self).lines[i] == #[trigger] old(self).lines[i],
            forall|i: int| 0 <= i < old(self).lines.len() && #[trigger] old(self).slot_matches(
                i,
                addr,
            ) ==> final(self).lines[i] is Some && {
                let l0 = old(self).lines[i]->Some_0;
                let l1 = final(self).lines[i]->Some_0;
                l1.tag == l0.tag && l1.dirty == l0.dirty && !l1.valid && l1.last_access
                    == l0.last_access && l1.data@ == l0.data@
            },
            old(self).has_line(addr) ==> final(self).has_line(addr) && final(self).line_slot(addr)
                == old(self).line_slot(addr),
            !old(self).has_line(addr) ==> *final(self) == *old(self),
    {
        let found = self.locate(addr);
        match found {
            Some(slot) => {
                let ghost c0 = *self;
                match &mut self.lines[slot] {
                    Some(line) => {
                        line.valid = false;
                    },
                    None => {},
                }
                proof {
                    lemma_same_structure_matches(c0, *self, addr);
                    assert forall|i: int| 0 <= i < self.lines.len() implies #[trigger]
                        self.line_ok(i) by {
                        assert(c0.line_ok(i));
                        if i != slot as int {
                            assert(self.lines[i] == c0.lines[i]);
                        }
                    }
                    assert(self.wf());
                    assert(self.slot_matches(slot as int, addr));
                    lemma_unique_match(self, addr, slot as int);
                }
            },
            None => {},
        }
    }

    /// Reads one word out of a stored slot.
    pub fn read_line_word(&self, slot: usize, offset: usize) -> (r: u32)
        requires
            self.wf(),
            slot < self.lines.len(),
            self.lines[slot as int] is Some,
            offset < self.words_per_line,
        ensures
            r == self.lines[slot as int]->Some_0.data[offset as int],
    {
        proof {
            assert(self.line_ok(slot as int));
        }
        match &self.lines[slot] {
            Some(line) => line.data[offset],
            None => 0,
        }
    }

    /// Bumps the access counter (saturating).
    pub fn note_access(&mut self)
        requires
            old(self).wf(),
        ensures
            final(self).wf(),
            *final(self) == (Cache { accesses: sat_add64(old(self).accesses, 1), ..*old(self) }),
    {
        let ghost c0 = *self;
        self.accesses = sat_add(self.accesses, 1);
        proof {
            lemma_wf_lines_carry(c0, *self);
        }
    }

    /// Bumps the miss counter (saturating); an access must already have been
    /// counted for it.
    pub fn note_miss(&mut self)
        requires
            old(self).wf(),
            old(self).misses < old(self).accesses || old(self).accesses == u64::MAX,
        ensures
            final(self).wf(),
            *final(self) == (Cache { misses: sat_add64(old(self).misses, 1), ..*old(self) }),
    {
        let ghost c0 = *self;
        self.misses = sat_add(self.misses, 1);
        proof {
            lemma_wf_lines_carry(c0, *self);
        }
    }

    /// Stamps a stored slot with the current access counter.
    pub fn touch(&mut self, slot: usize)
        requires
            old(self).wf(),
            slot < old(self).lines.len(),
            old(self).lines[slot as int] is Some,
        ensures
            final(self).wf(),
            final(self).lines.len() == old(self).lines.len(),
            forall|i: int| 0 <= i < old(self).lines.len() && i != slot as int
                ==> final(self).lines[i] == #[trigger] old(self).lines[i],
            final(self).lines[slot as int] is Some && {
                let l0 = old(self).lines[slot as int]->Some_0;
                let l1 = final(self).lines[slot as int]->Some_0;
                l1.tag == l0.tag && l1.dirty == l0.dirty && l1.valid == l0.valid && l1.data@
                    == l0.data@ && l1.last_access == old(self).accesses
            },
            *final(self) == (Cache { lines: final(self).lines, ..*old(self) }),
    {
        let ghost c0 = *self;
        let stamp = self.accesses;
        match &mut self.lines[slot] {
            Some(line) => {
                line.last_access = stamp;
            },
            None => {},
        }
        proof {
            assert forall|i: int| 0 <= i < self.lines.len() implies #[trigger] self.line_ok(i) by {
                assert(c0.line_ok(i));
                if i != slot as int {
                    assert(self.lines[i] == c0.lines[i]);
                }
            }
        }
    }
    /// If the slot holds a line that is both dirty and valid, hands back the
    /// base address of the block it covers and a copy of its words: the
    /// write-back traffic the eviction owes the next level. Clean, invalid
    /// or empty slots owe nothing.
    pub fn victim_writeback(&self, slot: usize) -> (r: Option<(u32, Vec<u32>)>)
        requires
            self.wf(),
            slot < self.lines.len(),
        ensures
            match r {
                Some((base, data)) => {
                    &&& self.lines[slot as int] is Some
                    &&& self.lines[slot as int]->Some_0.dirty
                    &&& self.lines[slot as int]->Some_0.valid
                    &&& base == self.slot_line_no(slot as int) * (4 * self.words_per_line as int)
                    &&& base % 4 == 0
                    &&& base + 4 * data.len() <= 0x1_0000_0000
                    &&& data@ == self.lines[slot as int]->Some_0.data@
                    &&& data.len() == self.words_per_line
                },
                None => !(self.lines[slot as int] is Some && self.lines[slot as int]->Some_0.dirty
                    && self.lines[slot as int]->Some_0.valid),
            },
    {
        proof {
            assert(self.line_ok(slot as int));
        }
        match &self.lines[slot] {
            Some(line) => {
                if line.dirty && line.valid {
                    let ghost t = line.tag as int;
                    let ghost s = self.set_count as int;
                    let ghost l = self.words_per_line as int;
                    let ghost q = slot as int / self.assoc as int;
                    proof {
                        assert(self.slot_line_no(slot as int) == t * s + q);
                        assert(q >= 0 && t >= 0) by (nonlinear_arith)
                            requires slot as int >= 0, self.assoc as int >= 1, t >= 0,
                                q == slot as int / self.assoc as int;
                        assert(t * s + q < 0x1_0000_0000 && t * s >= 0) by (nonlinear_arith)
                            requires (t * s + q + 1) * (4 * l) <= 0x1_0000_0000, l >= 1, q >= 0,
                                t >= 0, s >= 1;
                    }
                    let ln: u64 = line.tag * (self.set_count as u64) + (slot as u64
                        / self.assoc as u64);
                    proof {
                        assert(ln == self.slot_line_no(slot as int));
                        assert(ln * (4 * l) >= 0) by (nonlinear_arith)
                            requires l >= 1, ln >= 0;
                        assert(ln * (4 * l) + 4 * l <= 0x1_0000_0000) by (nonlinear_arith)
                            requires (ln + 1) * (4 * l) <= 0x1_0000_0000, l >= 1;
                        assert(ln * (4 * l) == (ln * l) * 4) by (nonlinear_arith);
                        lemma_mod_multiples_basic(ln as int * l, 4);
                    }
                    let base: u32 = (ln * (4u64 * self.words_per_line as u64)) as u32;
                    Some((base, clone_words(&line.data)))
                } else {
                    None
                }
            },
            None => None,
        }
    }

    /// Overwrites a slot with a line for `addr`'s block: the given words,
    /// flags and a fresh last-access stamp. No other slot may already hold
    /// that block.
    pub fn fill_slot(&mut self, slot: usize, addr: u32, data: Vec<u32>, dirty: bool, valid: bool)
        requires
            old(self).wf(),
            slot < old(self).lines.len(),
            old(self).set_of_slot(slot as int) == old(self).set_of(addr),
            data.len() == old(self).words_per_line,
            forall|j: int| j != slot as int ==> !old(self).slot_matches(j, addr),
        ensures
            final(self).wf(),
            final(self).words_per_line == old(self).words_per_line,
            final(self).set_count == old(self).set_count,
            final(self).assoc == old(self).assoc,
            final(self).latency == old(self).latency,
            final(self).policy == old(self).policy,
            final(self).accesses == old(self).accesses,
            final(self).misses == old(self).misses,
            final(self).lines.len() == old(self).lines.len(),
            forall|i: int| 0 <= i < old(self).lines.len() && i != slot as int
                ==> final(self).lines[i] == #[trigger] old(self).lines[i],
            final(self).lines[slot as int] is Some && {
                let l = final(self).lines[slot as int]->Some_0;
                l.tag == final(self).tag_of(addr) && l.dirty == dirty && l.valid == valid
                    && l.last_access == old(self).accesses && l.data@ == data@
            },
            final(self).slot_matches(slot as int, addr),
            final(self).line_slot(addr) == slot as int,
            final(self).has_line(addr),
            final(self).has_valid_line(addr) == valid,
    {
        let d = self.decompose(addr);
        let ghost c0 = *self;
        let line = CacheLine { tag: d.tag, dirty, valid, last_access: self.accesses, data };
        self.lines[slot] = Some(line);
        proof {
            lemma_fundamental_div_mod(self.line_no_of(addr), self.set_count as int);
            assert(self.slot_line_no(slot as int) == self.line_no_of(addr)) by {
                assert((self.line_no_of(addr) / self.set_count as int) * self.set_count as int
                    == self.set_count as int * (self.line_no_of(addr) / self.set_count as int))
                    by (nonlinear_arith);
            }
            assert forall|i: int| 0 <= i < self.lines.len() implies #[trigger] self.line_ok(i) by {
                assert(c0.line_ok(i));
                if i != slot as int {
                    assert(self.lines[i] == c0.lines[i]);
                }
            }
            assert forall|i: int, j: int|
                0 <= i < self.lines.len() && 0 <= j < self.lines.len() && i != j
                    && self.set_of_slot(i) == self.set_of_slot(j) && self.lines[i] is Some
                    && self.lines[j] is Some implies #[trigger] self.lines[i]->Some_0.tag
                != #[trigger] self.lines[j]->Some_0.tag by {
                if i != slot as int && j != slot as int {
                    assert(self.lines[i] == c0.lines[i] && self.lines[j] == c0.lines[j]);
                } else if i == slot as int {
                    assert(!c0.slot_matches(j, addr));
                    assert(self.lines[j] == c0.lines[j]);
                } else {
                    assert(!c0.slot_matches(i, addr));
                    assert(self.lines[i] == c0.lines[i]);
                }
            }
            assert(self.wf());
            assert(self.slot_matches(slot as int, addr));
            lemma_unique_match(self, addr, slot as int);
        }
    }

    /// Writes one word into the line holding `addr`'s block, marking it
    /// dirty and valid and stamping it: the write-path hit step. A write
    /// that revives an invalid line is sound because an invalid line in a
    /// cache that writes always carries the next level's block (its words
    /// were either never newer than the next level's, or were written back
    /// when its sibling flushed).
    pub fn write_into_line(&mut self, slot: usize, addr: u32, val: u32)
        requires
            old(self).wf(),
            old(self).slot_matches(slot as int, addr),
        ensures
            final(self).wf(),
            final(self).words_per_line == old(self).words_per_line,
            final(self).set_count == old(self).set_count,
            final(self).assoc == old(self).assoc,
            final(self).latency == old(self).latency,
            final(self).policy == old(self).policy,
            final(self).accesses == old(self).accesses,
            final(self).misses == old(self).misses,
            final(self).lines.len() == old(self).lines.len(),
            forall|i: int| 0 <= i < old(self).lines.len() && i != slot as int
                ==> final(self).lines[i] == #[trigger] old(self).lines[i],
            final(self).lines[slot as int] is Some && {
                let l0 = old(self).lines[slot as int]->Some_0;
                let l = final(self).lines[slot as int]->Some_0;
                l.tag == l0.tag && l.dirty && l.valid && l.last_access == old(self).accesses
                    && l.data@ == l0.data@.update(old(self).off_of(addr), val)
            },
            final(self).slot_matches(slot as int, addr),
            final(self).line_slot(addr) == slot as int,
            final(self).has_valid_line(addr),
            final(self).stored_word(addr) == val,
    {
        let d = self.decompose(addr);
        let ghost c0 = *self;
        let stamp = self.accesses;
        proof {
            assert(self.line_ok(slot as int));
        }
        match &mut self.lines[slot] {
            Some(line) => {
                line.data[d.offset] = val;
                line.dirty = true;
                line.valid = true;
                line.last_access = stamp;
            },
            None => {},
        }
        proof {
            lemma_same_structure_matches(c0, *self, addr);
            assert forall|i: int| 0 <= i < self.lines.len() implies #[trigger] self.line_ok(i) by {
                assert(c0.line_ok(i));
                if i != slot as int {
                    assert(self.lines[i] == c0.lines[i]);
                }
            }
            assert(self.wf());
            assert(self.slot_matches(slot as int, addr));
            lemma_unique_match(self, addr, slot as int);
        }
    }

    /// The hit, miss and access counts, for the statistics report.
    pub fn stats(&self) -> (r: (u64, u64, u64))
        requires
            self.wf(),
        ensures
            r.0 == self.hits(),
            r.1 == self.misses,
            r.2 == self.accesses,
    {
        (self.accesses - self.misses, self.misses, self.accesses)
    }
}

/// Hit count plus miss count equals access count: hits are defined as the
/// difference, and well-formedness keeps misses within accesses, so the sum
/// is exact and hits are never negative.
pub proof fn lemma_stats_accounting(c: Cache)
    requires
        c.wf(),
    ensures
        c.hits() + c.misses == c.accesses,
        0 <= c.hits() <= c.accesses,
{
}

/// The address a line answers for is reconstructed exactly from what the
/// line stores: for any address `a` held in a slot, the line number of `a`
/// is the stored tag times the set count plus the set index of `a`.
pub proof fn lemma_line_number_reconstruction(c: Cache, a: u32, i: int)
    requires
        c.wf(),
        c.slot_matches(i, a),
    ensures
        c.slot_line_no(i) == c.line_no_of(a),
        c.line_no_of(a) == c.tag_of(a) * c.set_count + c.set_of(a),
{
    lemma_fundamental_div_mod(c.line_no_of(a), c.set_count as int);
    assert((c.line_no_of(a) / c.set_count as int) * c.set_count as int == c.set_count as int * (
    c.line_no_of(a) / c.set_count as int)) by (nonlinear_arith);
}

/// Slot indices of a set lie inside the slot vector.
pub proof fn lemma_slot_in_range(set: int, w: int, s: int, a: int)
    by (nonlinear_arith)
    requires
        0 <= set < s,
        0 <= w < a,
    ensures
        0 <= set * a + w < s * a,
        set * a + w < set * a + a,
{
}

/// A block of 4·L bytes whose line size divides the address space ends at
/// or below 2^32.
pub proof fn lemma_block_fits(l: int, a: u32)
    requires
        l >= 1,
        0x1_0000_0000int % (4 * l) == 0,
    ensures
        (a as int / (4 * l) + 1) * (4 * l) <= 0x1_0000_0000,
        a as int / (4 * l) >= 0,
{
    let d = 4 * l;
    let q = 0x1_0000_0000int / d;
    lemma_fundamental_div_mod(0x1_0000_0000int, d);
    assert(q * d == 0x1_0000_0000);
    lemma_fundamental_div_mod(a as int, d);
    let ln = a as int / d;
    assert(ln * d <= a as int) by (nonlinear_arith)
        requires ln == a as int / d, d >= 4, a >= 0;
    if ln + 1 > q {
        assert(ln >= q);
        lemma_mul_inequality(q, ln, d);
        assert(ln * d >= q * d);
        assert(false);
    }
    lemma_mul_inequality(ln + 1, q, d);
}

/// Under `wf`, at most one slot matches an address, so the matching slot is
/// `line_slot`.
pub proof fn lemma_unique_match(c: &Cache, a: u32, i: int)
    requires
        c.wf(),
        c.slot_matches(i, a),
    ensures
        c.has_line(a),
        c.line_slot(a) == i,
        forall|j: int| #[trigger] c.slot_matches(j, a) ==> j == i,
{
    assert(c.has_line(a));
    assert forall|j: int| #[trigger] c.slot_matches(j, a) implies j == i by {
        if j != i {
            assert(c.lines[i]->Some_0.tag != c.lines[j]->Some_0.tag);
        }
    }
    let k = c.line_slot(a);
    assert(c.slot_matches(k, a));
}

/// Well-formedness carries over to a cache with the same geometry and the
/// same slots, whatever its counters, as long as misses stay within
/// accesses.
pub proof fn lemma_wf_lines_carry(c0: Cache, c1: Cache)
    requires
        c0.wf(),
        c1.words_per_line == c0.words_per_line,
        c1.set_count == c0.set_count,
        c1.assoc == c0.assoc,
        c1.lines == c0.lines,
        c1.misses <= c1.accesses,
    ensures
        c1.wf(),
{
    assert forall|i: int| 0 <= i < c1.lines.len() implies #[trigger] c1.line_ok(i) by {
        assert(c0.line_ok(i));
    }
}

/// Two caches with the same geometry and slot layout (tags and presence
/// unchanged) match the same addresses at the same slots.
pub proof fn lemma_same_structure_matches(c0: Cache, c1: Cache, a: u32)
    requires
        c0.words_per_line == c1.words_per_line,
        c0.set_count == c1.set_count,
        c0.assoc == c1.assoc,
        c0.lines.len() == c1.lines.len(),
        forall|i: int| 0 <= i < c0.lines.len() ==> (#[trigger] c1.lines[i] is Some
            == c0.lines[i] is Some && (c0.lines[i] is Some ==> c1.lines[i]->Some_0.tag
            == c0.lines[i]->Some_0.tag)),
    ensures
        forall|i: int| #[trigger] c1.slot_matches(i, a) <==> c0.slot_matches(i, a),
        c1.has_line(a) == c0.has_line(a),
        c1.has_line(a) ==> c1.line_slot(a) == c0.line_slot(a) || (c1.slot_matches(
            c1.line_slot(a),
            a,
        ) && c0.slot_matches(c1.line_slot(a), a)),
{
    assert forall|i: int| #[trigger] c1.slot_matches(i, a) <==> c0.slot_matches(i, a) by {
        if 0 <= i < c0.lines.len() {
            assert(c1.lines[i] is Some == c0.lines[i] is Some);
        }
    }
    if c0.has_line(a) {
        let i = choose|i: int| c0.slot_matches(i, a);
        assert(c1.slot_matches(i, a));
    }
    if c1.has_line(a) {
        let i = choose|i: int| c1.slot_matches(i, a);
        assert(c0.slot_matches(i, a));
    }
}

} // verus!
