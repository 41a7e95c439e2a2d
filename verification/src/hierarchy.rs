//! The memory hierarchy: the level below the first-level caches (plain RAM,
//! or a unified second-level cache over RAM), and the six fixed
//! configurations the run orchestrator builds, with the sister protocol
//! that keeps split instruction/data caches coherent.

use vstd::prelude::*;
use vstd::pervasive::unreached;
use vstd::arithmetic::div_mod::{
    lemma_fundamental_div_mod, lemma_fundamental_div_mod_converse,
};
use crate::cache::{
    lemma_line_number_reconstruction, lemma_unique_match, clone_words, Cache, RepPolicy,
};
use crate::err::EmuError;
use crate::reporter::MemoryEvent;
use crate::ram::{burst_written, in_burst, sat_add64, word_at, Ram};

verus! {

/// If `x` lies in `[q d, (q+1) d)`, then `x / d == q`.
pub proof fn lemma_div_block(d: int, q: int, x: int)
    requires
        d >= 1,
        q * d <= x < (q + 1) * d,
    ensures
        x / d == q,
{
    assert(x == q * d + (x - q * d));
    assert((q + 1) * d == q * d + d) by (nonlinear_arith);
    lemma_fundamental_div_mod_converse(x, d, q, x - q * d);
}

/// The words of the block starting at a block-aligned address: member `i`
/// is word-aligned, falls in the same line, and sits at offset `i`.
pub proof fn lemma_block_member(l: int, addr: u32, i: int)
    requires
        l >= 1,
        addr as int % (4 * l) == 0,
        addr + 4 * l <= 0x1_0000_0000,
        0 <= i < l,
    ensures
        (addr + 4 * i) % 4 == 0,
        (addr + 4 * i) as int / (4 * l) == addr as int / (4 * l),
        ((addr + 4 * i) as int / 4) % l == i,
        in_burst(addr, l as nat, (addr + 4 * i) as u32),
{
    let q = addr as int / (4 * l);
    lemma_fundamental_div_mod(addr as int, 4 * l);
    assert(addr as int == q * (4 * l));
    assert(q * (4 * l) + 4 * i < (q + 1) * (4 * l)) by (nonlinear_arith)
        requires i < l, l >= 1;
    lemma_div_block(4 * l, q, addr as int + 4 * i);
    assert(addr as int % 4 == 0) by {
        assert(q * (4 * l) == (q * l) * 4) by (nonlinear_arith);
        lemma_fundamental_div_mod_converse(addr as int, 4, q * l, 0);
    }
    assert((addr as int + 4 * i) / 4 == q * l + i) by {
        assert(addr as int + 4 * i == (q * l + i) * 4) by (nonlinear_arith)
            requires addr as int == q * (4 * l);
        lemma_fundamental_div_mod_converse(addr as int + 4 * i, 4, q * l + i, 0);
    }
    assert((q * l + i) % l == i) by {
        lemma_fundamental_div_mod_converse(q * l + i, l, q, i);
    }
}

/// For a word-aligned address, membership in the burst of a block-aligned
/// base is exactly falling in that base's line; a member's offset in the
/// burst is its word offset in the line.
pub proof fn lemma_aligned_burst_block(l: int, base: u32, a: u32)
    requires
        l >= 1,
        base as int % (4 * l) == 0,
        base + 4 * l <= 0x1_0000_0000,
        a % 4 == 0,
    ensures
        in_burst(base, l as nat, a) <==> a as int / (4 * l) == base as int / (4 * l),
        in_burst(base, l as nat, a) ==> (a - base) / 4 == (a as int / 4) % l,
{
    let q = base as int / (4 * l);
    lemma_fundamental_div_mod(base as int, 4 * l);
    assert(base as int == q * (4 * l));
    if in_burst(base, l as nat, a) {
        assert((q + 1) * (4 * l) == q * (4 * l) + 4 * l) by (nonlinear_arith);
        lemma_div_block(4 * l, q, a as int);
        let i = (a - base) / 4;
        assert(a as int - base as int == ((a as int - base as int) / 4) * 4) by {
            lemma_fundamental_div_mod(a as int, 4);
            lemma_fundamental_div_mod(base as int, 4);
            assert(base as int % 4 == 0) by {
                assert(q * (4 * l) == (q * l) * 4) by (nonlinear_arith);
                lemma_fundamental_div_mod_converse(base as int, 4, q * l, 0);
            }
            lemma_fundamental_div_mod(a as int - base as int, 4);
            assert((a as int - base as int) % 4 == 0);
        }
        assert(0 <= i < l) by (nonlinear_arith)
            requires
                a as int - base as int == i * 4,
                0 <= (a as int - base as int) < 4 * l,
        ;
        lemma_block_member(l, base, i);
        assert(a == base + 4 * i);
    }
    if a as int / (4 * l) == q {
        lemma_fundamental_div_mod(a as int, 4 * l);
        assert(a as int == q * (4 * l) + a as int % (4 * l));
        assert(0 <= a as int % (4 * l) < 4 * l) by (nonlinear_arith)
            requires l >= 1, a as int % (4 * l) == a as int - q * (4 * l),
                q == a as int / (4 * l);
        assert(base <= a < base + 4 * l);
        assert((a - base) % 4 == 0) by {
            assert(base as int % 4 == 0) by {
                assert(q * (4 * l) == (q * l) * 4) by (nonlinear_arith);
                lemma_fundamental_div_mod_converse(base as int, 4, q * l, 0);
            }
            assert(a as int == (a as int / 4) * 4) by {
                lemma_fundamental_div_mod(a as int, 4);
            }
            assert(base as int == (base as int / 4) * 4) by {
                lemma_fundamental_div_mod(base as int, 4);
            }
            assert(a as int - base as int == (a as int / 4 - base as int / 4) * 4)
                by (nonlinear_arith)
                requires a as int == (a as int / 4) * 4, base as int == (base as int / 4) * 4;
            lemma_fundamental_div_mod_converse(a as int - base as int, 4, a as int / 4
                - base as int / 4, 0);
        }
        assert(in_burst(base, l as nat, a));
    }
}

/// Two addresses in the same line of a cache match the same slots; one that
/// the cache holds is held at the same slot as the other.
pub proof fn lemma_same_line(c: &Cache, a1: u32, a2: u32)
    requires
        c.wf(),
        c.line_no_of(a1) == c.line_no_of(a2),
    ensures
        c.set_of(a1) == c.set_of(a2),
        c.tag_of(a1) == c.tag_of(a2),
        forall|i: int| #[trigger] c.slot_matches(i, a1) == c.slot_matches(i, a2),
        c.has_line(a1) == c.has_line(a2),
        c.has_line(a1) ==> c.line_slot(a1) == c.line_slot(a2),
        c.has_valid_line(a1) == c.has_valid_line(a2),
{
    if c.has_line(a1) {
        let i = c.line_slot(a1);
        assert(c.slot_matches(i, a1));
        assert(c.slot_matches(i, a2));
        lemma_unique_match(c, a2, i);
        lemma_unique_match(c, a1, i);
    }
    if c.has_line(a2) {
        let i = c.line_slot(a2);
        assert(c.slot_matches(i, a2));
        assert(c.slot_matches(i, a1));
        lemma_unique_match(c, a1, i);
    }
}

/// An address matched by a slot lies in the line that the slot's tag and
/// set reconstruct.
pub proof fn lemma_match_means_block(c: &Cache, a: u32, i: int)
    requires
        c.wf(),
        c.slot_matches(i, a),
    ensures
        c.line_no_of(a) == c.slot_line_no(i),
{
    lemma_line_number_reconstruction(*c, a, i);
}

/// The level under the first-level caches: plain RAM, or a unified
/// second-level cache over RAM.
pub enum Below {
    Ram(Ram),
    Two { l2: Cache, ram: Ram },
}

/// Every valid clean line of the second-level cache agrees with RAM on its
/// block: what write-back owes has either stayed dirty or already landed.
pub open spec fn two_clean_agree(l2: &Cache, ram: &Ram) -> bool {
    forall|a: u32|
        a % 4 == 0 && #[trigger] l2.has_valid_line(a)
            && !l2.lines[l2.line_slot(a)]->Some_0.dirty ==> l2.stored_word(a) == word_at(
            ram.contents(),
            a,
        )
}

impl Below {
    /// Well-formedness of this level, including the write-back invariant of
    /// the second-level cache.
    pub open spec fn wf(&self) -> bool {
        match self {
            Below::Ram(_) => true,
            Below::Two { l2, ram } => l2.wf() && two_clean_agree(l2, ram),
        }
    }

    /// The word this level holds for a (word-aligned) address: the
    /// second-level cache's valid lines shadow RAM.
    pub open spec fn word(&self, a: u32) -> u32 {
        match self {
            Below::Ram(ram) => word_at(ram.contents(), a),
            Below::Two { l2, ram } => two_word(l2, ram, a),
        }
    }

    /// The two levels keep their shape: same variant, geometry, policy and
    /// latencies.
    pub open spec fn same_shape(&self, other: &Below) -> bool {
        match (self, other) {
            (Below::Ram(r1), Below::Ram(r0)) => r1.latency_spec() == r0.latency_spec(),
            (Below::Two { l2: c1, ram: r1 }, Below::Two { l2: c0, ram: r0 }) => {
                &&& c1.words_per_line == c0.words_per_line
                &&& c1.set_count == c0.set_count
                &&& c1.assoc == c0.assoc
                &&& c1.latency == c0.latency
                &&& c1.policy == c0.policy
                &&& r1.latency_spec() == r0.latency_spec()
            },
            _ => false,
        }
    }

    /// Statistics counters never decrease.
    pub open spec fn counters_geq(&self, other: &Below) -> bool {
        match (self, other) {
            (Below::Ram(r1), Below::Ram(r0)) => r1.accesses_spec() >= r0.accesses_spec(),
            (Below::Two { l2: c1, ram: r1 }, Below::Two { l2: c0, ram: r0 }) => {
                &&& c1.accesses >= c0.accesses
                &&& c1.misses >= c0.misses
                &&& r1.accesses_spec() >= r0.accesses_spec()
            },
            _ => false,
        }
    }

    /// A slice transfer this level accepts: anything for RAM; for a cached
    /// level, exactly one of its blocks.
    pub open spec fn slice_ok(&self, addr: u32, len: usize) -> bool {
        match self {
            Below::Ram(_) => true,
            Below::Two { l2, ram: _ } => addr as int % (4 * l2.words_per_line as int) == 0 && len
                == l2.words_per_line,
        }
    }

    /// Reads a burst of `len` words starting at `addr`, returning the words
    /// and the cycles spent. The words are exactly what this level holds;
    /// nothing it holds changes.
    pub fn read_slice(&mut self, addr: u32, len: usize) -> (r: (Vec<u32>, u64))
        requires
            old(self).wf(),
            addr % 4 == 0,
            addr + 4 * len <= 0x1_0000_0000,
            old(self).slice_ok(addr, len),
        ensures
            final(self).wf(),
            final(self).same_shape(old(self)),
            final(self).counters_geq(old(self)),
            forall|a: u32| a % 4 == 0 ==> #[trigger] final(self).word(a) == old(self).word(a),
            r.0.len() == len,
            forall|i: int| 0 <= i < len ==> r.0[i] == old(self).word((addr + 4 * i) as u32),
            match *old(self) {
                Below::Ram(r0) => r.1 == r0.latency_spec(),
                Below::Two { l2: c0, ram: r0 } => if c0.has_valid_line(addr) {
                    r.1 == c0.latency
                } else {
                    r.1 == sat_add64(c0.latency, r0.latency_spec()) || r.1 == sat_add64(
                        sat_add64(c0.latency, r0.latency_spec()),
                        r0.latency_spec(),
                    )
                },
            },
    {
        match self {
            Below::Ram(ram) => {
                match ram.read_slice(addr, len) {
                    Ok(x) => x,
                    Err(_) => unreached(),
                }
            },
            Below::Two { l2, ram } => {
                two_read_block(l2, ram, addr, len)
            },
        }
    }

    /// Writes a burst of `len` words starting at `addr`, returning the
    /// cycles spent. Afterwards this level holds exactly the new words
    /// there and what it held everywhere else.
    pub fn write_slice(&mut self, addr: u32, data: &Vec<u32>) -> (r: u64)
        requires
            old(self).wf(),
            addr % 4 == 0,
            addr + 4 * data.len() <= 0x1_0000_0000,
            old(self).slice_ok(addr, data.len()),
        ensures
            final(self).wf(),
            final(self).same_shape(old(self)),
            final(self).counters_geq(old(self)),
            forall|a: u32| a % 4 == 0 ==> #[trigger] final(self).word(a) == (if in_burst(
                addr,
                data.len() as nat,
                a,
            ) {
                data@[(a - addr) / 4]
            } else {
                old(self).word(a)
            }),
            match *old(self) {
                Below::Ram(r0) => r == r0.latency_spec(),
                Below::Two { l2: c0, ram: r0 } => if c0.has_line(addr) {
                    r == c0.latency
                } else {
                    r == c0.latency || r == sat_add64(c0.latency, r0.latency_spec())
                },
            },
    {
        match self {
            Below::Ram(ram) => {
                let r = match ram.write_slice(addr, data) {
                    Ok(c) => c,
                    Err(_) => unreached(),
                };
                proof {
                    assert forall|a: u32| a % 4 == 0 implies #[trigger] word_at(ram.contents(), a)
                        == (if in_burst(addr, data.len() as nat, a) {
                        data@[(a - addr) / 4]
                    } else {
                        word_at(old(self)->Ram_0.contents(), a)
                    }) by {
                        if in_burst(addr, data.len() as nat, a) {
                        }
                    }
                }
                r
            },
            Below::Two { l2, ram } => {
                two_write_block(l2, ram, addr, data)
            },
        }
    }
}

/// The word a cache-over-RAM pair holds for an address.
pub open spec fn two_word(l2: &Cache, ram: &Ram, a: u32) -> u32 {
    if l2.has_valid_line(a) {
        l2.stored_word(a)
    } else {
        word_at(ram.contents(), a)
    }
}

/// Two caches whose slots agree in presence, tag, data and validity hold
/// the same addresses at the same slots with the same words.
pub proof fn lemma_view_same_structure(c0: &Cache, c1: &Cache)
    requires
        c0.wf(),
        c1.words_per_line == c0.words_per_line,
        c1.set_count == c0.set_count,
        c1.assoc == c0.assoc,
        c1.lines.len() == c0.lines.len(),
        forall|i: int| 0 <= i < c0.lines.len() ==> (#[trigger] c1.lines[i] is Some
            == c0.lines[i] is Some && (c0.lines[i] is Some ==> {
            let l0 = c0.lines[i]->Some_0;
            let l1 = c1.lines[i]->Some_0;
            l1.tag == l0.tag && l1.data@ == l0.data@ && l1.valid == l0.valid && l1.dirty
                == l0.dirty
        })),
    ensures
        forall|a: u32| #[trigger] c1.has_line(a) == c0.has_line(a),
        forall|a: u32| #[trigger] c1.has_valid_line(a) == c0.has_valid_line(a),
        forall|a: u32| #[trigger] c0.has_line(a) ==> c1.line_slot(a) == c0.line_slot(a)
            && c1.stored_word(a) == c0.stored_word(a) && c1.lines[c1.line_slot(a)]->Some_0.dirty
            == c0.lines[c0.line_slot(a)]->Some_0.dirty,
{
    assert forall|a: u32| (#[trigger] c1.has_line(a) == c0.has_line(a)) && (c0.has_line(a)
        ==> c1.line_slot(a) == c0.line_slot(a)) by {
        assert forall|i: int| #[trigger] c1.slot_matches(i, a) == c0.slot_matches(i, a) by {
            if 0 <= i < c0.lines.len() {
                assert(c1.lines[i] is Some == c0.lines[i] is Some);
            }
        }
        if c0.has_line(a) {
            let i = c0.line_slot(a);
            assert(c0.slot_matches(i, a));
            assert(c1.slot_matches(i, a));
            assert(c1.has_line(a));
            let j = c1.line_slot(a);
            assert(c1.slot_matches(j, a));
            assert(c0.slot_matches(j, a));
            lemma_unique_match(c0, a, i);
        }
        if c1.has_line(a) {
            let i = c1.line_slot(a);
            assert(c1.slot_matches(i, a));
            assert(c0.slot_matches(i, a));
            assert(c0.has_line(a));
        }
    }
    assert forall|a: u32| #[trigger] c1.has_valid_line(a) == c0.has_valid_line(a) by {
        if c0.has_line(a) {
            assert(0 <= c0.line_slot(a) < c0.lines.len());
        }
    }
    assert forall|a: u32| #[trigger] c0.has_line(a) implies c1.line_slot(a) == c0.line_slot(a)
        && c1.stored_word(a) == c0.stored_word(a) && c1.lines[c1.line_slot(a)]->Some_0.dirty
        == c0.lines[c0.line_slot(a)]->Some_0.dirty by {
        let i = c0.line_slot(a);
        assert(c0.slot_matches(i, a));
        assert(c1.lines[i] is Some);
        assert(c1.has_line(a));
        assert(c1.line_slot(a) == i);
        assert(c1.lines[i]->Some_0.data@ == c0.lines[i]->Some_0.data@);
        assert(c1.stored_word(a) == c1.lines[i]->Some_0.data@[c1.off_of(a)]);
        assert(c0.stored_word(a) == c0.lines[i]->Some_0.data@[c0.off_of(a)]);
    }
}

/// Serves one block-aligned read at a second-level cache over RAM: a valid
/// hit answers from the line; otherwise the victim is written back if owed
/// and the block is loaded from RAM. The pair's view of memory is
/// unchanged, and the returned words are that view of the block.
fn two_read_block(l2: &mut Cache, ram: &mut Ram, addr: u32, len: usize) -> (r: (Vec<u32>, u64))
    requires
        old(l2).wf(),
        two_clean_agree(old(l2), old(ram)),
        addr % 4 == 0,
        addr as int % (4 * old(l2).words_per_line as int) == 0,
        len == old(l2).words_per_line,
        addr + 4 * len <= 0x1_0000_0000,
    ensures
        final(l2).wf(),
        two_clean_agree(final(l2), final(ram)),
        final(l2).words_per_line == old(l2).words_per_line,
        final(l2).set_count == old(l2).set_count,
        final(l2).assoc == old(l2).assoc,
        final(l2).latency == old(l2).latency,
        final(l2).policy == old(l2).policy,
        final(ram).latency_spec() == old(ram).latency_spec(),
        final(l2).accesses >= old(l2).accesses,
        final(l2).misses >= old(l2).misses,
        final(ram).accesses_spec() >= old(ram).accesses_spec(),
        forall|a: u32| a % 4 == 0 ==> #[trigger] two_word(final(l2), final(ram), a) == two_word(
            old(l2),
            old(ram),
            a,
        ),
        r.0.len() == len,
        forall|i: int| 0 <= i < len ==> r.0[i] == two_word(old(l2), old(ram), (addr + 4 * i)
            as u32),
        old(l2).has_valid_line(addr) ==> r.1 == old(l2).latency,
        !old(l2).has_valid_line(addr) ==> (r.1 == sat_add64(
            old(l2).latency,
            old(ram).latency_spec(),
        ) || r.1 == sat_add64(
            sat_add64(old(l2).latency, old(ram).latency_spec()),
            old(ram).latency_spec(),
        )),
    {
    let ghost c0 = *l2;
    let ghost ram0 = *ram;
    let ghost l = l2.words_per_line as int;
    l2.note_access();
    let ghost c1 = *l2;
    let found = l2.locate(addr);
    proof {
        lemma_view_same_structure(&c0, l2);
    }
    let valid_hit = match found {
        Some(slot) => match &l2.lines[slot] {
            Some(line) => line.valid,
            None => false,
        },
        None => false,
    };
    if valid_hit {
        let slot = match found {
            Some(slot) => slot,
            None => unreached(),
        };
        l2.touch(slot);
        proof {
            lemma_view_same_structure(&c0, l2);
            assert(l2.slot_matches(slot as int, addr));
            lemma_unique_match(l2, addr, slot as int);
        }
        let mut v: Vec<u32> = Vec::new();
        let mut i: usize = 0;
        while i < len
            invariant
                i <= len,
                v.len() == i,
                l2.wf(),
                slot < l2.lines.len(),
                l2.lines[slot as int] is Some,
                len == l2.words_per_line,
                forall|j: int| 0 <= j < i ==> v[j] == l2.lines[slot as int]->Some_0.data[j],
            decreases len - i,
        {
            v.push(l2.read_line_word(slot, i));
            i += 1;
        }
        proof {
            assert forall|j: int| 0 <= j < len implies v[j] == two_word(&c0, &ram0, (addr + 4 * j)
                as u32) by {
                lemma_block_member(l, addr, j);
                let aj = (addr + 4 * j) as u32;
                lemma_same_line(l2, addr, aj);
                lemma_unique_match(l2, addr, slot as int);
                assert(l2.line_slot(aj) == slot as int);
                assert(l2.stored_word(aj) == l2.lines[slot as int]->Some_0.data[j]);
                lemma_same_line(&c0, addr, aj);
                assert(c0.has_valid_line(aj) && c0.stored_word(aj) == l2.stored_word(aj));
            }
            assert forall|a: u32| a % 4 == 0 implies #[trigger] two_word(l2, ram, a) == two_word(
                &c0,
                &ram0,
                a,
            ) by {
                assert(l2.has_valid_line(a) == c0.has_valid_line(a));
                if c0.has_valid_line(a) {
                    assert(c0.has_line(a));
                    assert(l2.stored_word(a) == c0.stored_word(a));
                }
            }
        }
        (v, l2.latency)
    } else {
        l2.note_miss();
        proof {
            lemma_view_same_structure(&c1, l2);
        }
        let victim = match found {
            Some(slot) => slot,
            None => l2.choose_victim(addr),
        };
        proof {
            match found {
                Some(slot) => {
                    assert(l2.slot_matches(slot as int, addr));
                    lemma_unique_match(l2, addr, slot as int);
                    assert(!l2.has_valid_line(addr));
                },
                None => {
                    assert forall|j: int| !(#[trigger] l2.slot_matches(j, addr)) by {
                        if l2.slot_matches(j, addr) {
                            assert(l2.has_line(addr));
                        }
                    }
                    assert(!l2.has_valid_line(addr));
                },
            }
            assert(forall|j: int| j != victim as int ==> !l2.slot_matches(j, addr));
        }
        let mut cycles: u64 = l2.latency;
        let ghost cm = *l2;
        let wb = l2.victim_writeback(victim);
        let ghost flushed = wb is Some;
        match wb {
            Some((base, wdata)) => {
                let c = match ram.write_slice(base, &wdata) {
                    Ok(c) => c,
                    Err(_) => unreached(),
                };
                cycles = crate::ram::sat_add(cycles, c);
            },
            None => {},
        }
        let lv = match ram.read_slice(addr, len) {
            Ok(x) => x,
            Err(_) => unreached(),
        };
        let v = lv.0;
        cycles = crate::ram::sat_add(cycles, lv.1);
        let datav = clone_words(&v);
        l2.fill_slot(victim, addr, datav, false, true);
        proof {
            two_read_miss_proof(c0, cm, *l2, ram0, *ram, victim as int, addr, v@, flushed);
        }
        (v, cycles)
    }
}

/// A slot's set index lies below the set count.
pub proof fn lemma_slot_set_bound(c: &Cache, i: int)
    requires
        c.wf(),
        0 <= i < c.lines.len(),
    ensures
        0 <= c.set_of_slot(i) < c.set_count,
{
    assert(0 <= i / (c.assoc as int) && i / (c.assoc as int) < c.set_count as int)
        by (nonlinear_arith)
        requires 0 <= i, i < c.set_count as int * c.assoc as int, c.assoc as int >= 1,
            c.set_count as int >= 1;
}

/// An address lying in the block a stored slot reconstructs is matched by
/// that slot.
pub proof fn lemma_block_means_match(c: &Cache, i: int, a: u32)
    requires
        c.wf(),
        0 <= i < c.lines.len(),
        c.lines[i] is Some,
        c.line_no_of(a) == c.slot_line_no(i),
    ensures
        c.slot_matches(i, a),
{
    lemma_slot_set_bound(c, i);
    let s = c.set_count as int;
    let t = c.lines[i]->Some_0.tag as int;
    let se = c.set_of_slot(i);
    assert(t * s + se == s * t + se) by (nonlinear_arith);
    lemma_fundamental_div_mod_converse(t * s + se, s, t, se);
    assert(c.set_of(a) == se);
    assert(c.tag_of(a) == t);
}

/// After a miss is served (victim written back if it was owed, the block
/// loaded from RAM, the slot refilled clean), the pair's view of memory is
/// unchanged, its write-back invariant holds again, and the loaded words
/// are the old view of the block.
#[verifier::rlimit(60)]
proof fn two_read_miss_proof(
    c0: Cache,
    cm: Cache,
    cf: Cache,
    ram0: Ram,
    ram1: Ram,
    victim: int,
    addr: u32,
    v: Seq<u32>,
    flushed: bool,
)
    requires
        c0.wf(),
        cm.wf(),
        cf.wf(),
        two_clean_agree(&c0, &ram0),
        cm.words_per_line == c0.words_per_line,
        cm.set_count == c0.set_count,
        cm.assoc == c0.assoc,
        cm.lines == c0.lines,
        cf.words_per_line == cm.words_per_line,
        cf.set_count == cm.set_count,
        cf.assoc == cm.assoc,
        cf.lines.len() == cm.lines.len(),
        addr % 4 == 0,
        addr as int % (4 * c0.words_per_line as int) == 0,
        addr + 4 * c0.words_per_line <= 0x1_0000_0000,
        0 <= victim < cm.lines.len(),
        cm.set_of_slot(victim) == cm.set_of(addr),
        !cm.has_valid_line(addr),
        forall|j: int| j != victim ==> !cm.slot_matches(j, addr),
        flushed ==> cm.lines[victim] is Some && cm.lines[victim]->Some_0.dirty
            && cm.lines[victim]->Some_0.valid && burst_written(
            ram0.contents(),
            ram1.contents(),
            ((cm.slot_line_no(victim) * (4 * cm.words_per_line as int)) as u32),
            cm.lines[victim]->Some_0.data@,
        ),
        !flushed ==> ram1.contents() == ram0.contents() && !(cm.lines[victim] is Some
            && cm.lines[victim]->Some_0.dirty && cm.lines[victim]->Some_0.valid),
        v.len() == c0.words_per_line,
        forall|i: int| 0 <= i < v.len() ==> v[i] == word_at(ram1.contents(), (addr + 4 * i)
            as u32),
        forall|i: int| 0 <= i < cm.lines.len() && i != victim ==> cf.lines[i] == #[trigger]
            cm.lines[i],
        cf.lines[victim] is Some,
        ({
            let nl = cf.lines[victim]->Some_0;
            nl.tag == cf.tag_of(addr) && !nl.dirty && nl.valid && nl.data@ == v
        }),
        cf.slot_matches(victim, addr),
        cf.line_slot(addr) == victim,
    ensures
        two_clean_agree(&cf, &ram1),
        forall|a: u32| a % 4 == 0 ==> #[trigger] two_word(&cf, &ram1, a) == two_word(
            &c0,
            &ram0,
            a,
        ),
        forall|i: int| 0 <= i < v.len() ==> v[i] == two_word(&c0, &ram0, (addr + 4 * i) as u32),
{
    let l = c0.words_per_line as int;
    let q = c0.line_no_of(addr);
    let ghost vln = cm.slot_line_no(victim);
    let ghost base = ((vln * (4 * l)) as u32);
    lemma_view_same_structure(&c0, &cm);
    lemma_fundamental_div_mod(addr as int, 4 * l);

    // a flushed victim is valid, so it cannot hold the missed block
    if flushed {
        if vln == q {
            lemma_block_means_match(&cm, victim, addr);
            lemma_unique_match(&cm, addr, victim);
            assert(cm.has_valid_line(addr));
            assert(false);
        }
        assert(cm.line_ok(victim));
        assert(base as int == vln * (4 * l) && base as int % (4 * l) == 0 && base + 4 * l
            <= 0x1_0000_0000 && base as int / (4 * l) == vln) by {
            assert((vln + 1) * (4 * l) == vln * (4 * l) + 4 * l) by (nonlinear_arith);
            assert(vln * (4 * l) >= 0) by (nonlinear_arith)
                requires vln >= 0, l >= 1;
            lemma_fundamental_div_mod_converse(vln * (4 * l), 4 * l, vln, 0);
        }
    }

    // the victim slot in `cf` covers the new block
    lemma_match_means_block(&cf, addr, victim);

    // per-address case analysis
    assert forall|a: u32| a % 4 == 0 implies #[trigger] two_word(&cf, &ram1, a) == two_word(
        &c0,
        &ram0,
        a,
    ) by {
        two_read_miss_pointwise(c0, cm, cf, ram0, ram1, victim, addr, v, flushed, a);
    }
    assert forall|a: u32| a % 4 == 0 && #[trigger] cf.has_valid_line(a)
        && !cf.lines[cf.line_slot(a)]->Some_0.dirty implies cf.stored_word(a) == word_at(
        ram1.contents(),
        a,
    ) by {
        two_read_miss_clean(c0, cm, cf, ram0, ram1, victim, addr, v, flushed, a);
    }
    assert forall|i: int| 0 <= i < v.len() implies v[i] == two_word(&c0, &ram0, (addr + 4 * i)
        as u32) by {
        lemma_block_member(l, addr, i);
        let ai = (addr + 4 * i) as u32;
        lemma_same_line(&cm, addr, ai);
        assert(!cm.has_valid_line(ai));
        assert(two_word(&c0, &ram0, ai) == word_at(ram0.contents(), ai));
        if flushed {
            lemma_aligned_burst_block(l, base, ai);
            assert(!in_burst(base, l as nat, ai));
        }
        assert(word_at(ram1.contents(), ai) == word_at(ram0.contents(), ai));
    }
}

/// One address of the pointwise case analysis behind
/// [`two_read_miss_proof`].
#[verifier::rlimit(100)]
proof fn two_read_miss_pointwise(
    c0: Cache,
    cm: Cache,
    cf: Cache,
    ram0: Ram,
    ram1: Ram,
    victim: int,
    addr: u32,
    v: Seq<u32>,
    flushed: bool,
    a: u32,
)
    requires
        c0.wf(),
        cm.wf(),
        cf.wf(),
        two_clean_agree(&c0, &ram0),
        cm.words_per_line == c0.words_per_line,
        cm.set_count == c0.set_count,
        cm.assoc == c0.assoc,
        cm.lines == c0.lines,
        cf.words_per_line == cm.words_per_line,
        cf.set_count == cm.set_count,
        cf.assoc == cm.assoc,
        cf.lines.len() == cm.lines.len(),
        addr % 4 == 0,
        addr as int % (4 * c0.words_per_line as int) == 0,
        addr + 4 * c0.words_per_line <= 0x1_0000_0000,
        0 <= victim < cm.lines.len(),
        cm.set_of_slot(victim) == cm.set_of(addr),
        !cm.has_valid_line(addr),
        forall|j: int| j != victim ==> !cm.slot_matches(j, addr),
        flushed ==> cm.lines[victim] is Some && cm.lines[victim]->Some_0.dirty
            && cm.lines[victim]->Some_0.valid && burst_written(
            ram0.contents(),
            ram1.contents(),
            ((cm.slot_line_no(victim) * (4 * cm.words_per_line as int)) as u32),
            cm.lines[victim]->Some_0.data@,
        ),
        !flushed ==> ram1.contents() == ram0.contents() && !(cm.lines[victim] is Some
            && cm.lines[victim]->Some_0.dirty && cm.lines[victim]->Some_0.valid),
        v.len() == c0.words_per_line,
        forall|i: int| 0 <= i < v.len() ==> v[i] == word_at(ram1.contents(), (addr + 4 * i)
            as u32),
        forall|i: int| 0 <= i < cm.lines.len() && i != victim ==> cf.lines[i] == #[trigger]
            cm.lines[i],
        cf.lines[victim] is Some,
        ({
            let nl = cf.lines[victim]->Some_0;
            nl.tag == cf.tag_of(addr) && !nl.dirty && nl.valid && nl.data@ == v
        }),
        cf.slot_matches(victim, addr),
        cf.line_slot(addr) == victim,
        flushed ==> cm.slot_line_no(victim) != c0.line_no_of(addr),
        flushed ==> ((cm.slot_line_no(victim) * (4 * cm.words_per_line as int)) as u32) as int
            == cm.slot_line_no(victim) * (4 * cm.words_per_line as int) && cm.slot_line_no(victim)
            * (4 * cm.words_per_line as int) % (4 * cm.words_per_line as int) == 0
            && cm.slot_line_no(victim) * (4 * cm.words_per_line as int) + 4
            * cm.words_per_line as int <= 0x1_0000_0000,
        a % 4 == 0,
    ensures
        two_word(&cf, &ram1, a) == two_word(&c0, &ram0, a),
{
    let l = c0.words_per_line as int;
    let q = c0.line_no_of(addr);
    let ghost vln = cm.slot_line_no(victim);
    let ghost base = ((vln * (4 * l)) as u32);
    let qa = c0.line_no_of(a);
    lemma_view_same_structure(&c0, &cm);
    lemma_match_means_block(&cf, addr, victim);
    if flushed {
        assert(cm.line_ok(victim));
    }
    if qa == q {
        // the freshly loaded block
        lemma_same_line(&cf, addr, a);
        assert(cf.has_valid_line(a) && cf.line_slot(a) == victim);
        lemma_aligned_burst_block(l, addr, a);
        assert(in_burst(addr, l as nat, a));
        let off = (a - addr) / 4;
        assert(off == cf.off_of(a));
        assert(a == addr + 4 * off);
        assert(v[off] == word_at(ram1.contents(), a));
        assert(cf.stored_word(a) == v[off]);
        lemma_same_line(&cm, addr, a);
        assert(!cm.has_valid_line(a));
        assert(two_word(&c0, &ram0, a) == word_at(ram0.contents(), a));
        if flushed {
            lemma_aligned_burst_block(l, base, a);
            assert(base as int / (4 * l) == vln) by {
                lemma_fundamental_div_mod_converse(vln * (4 * l), 4 * l, vln, 0);
            }
            assert(!in_burst(base, l as nat, a));
        }
        assert(word_at(ram1.contents(), a) == word_at(ram0.contents(), a));
    } else {
        // `a` keeps whatever slot it had; only the victim slot changed
        let ghost matched_victim = cm.slot_matches(victim, a);
        if matched_victim {
            lemma_match_means_block(&cm, a, victim);
            assert(qa == vln);
            lemma_unique_match(&cm, a, victim);
            // in `cf` nothing matches `a` any more
            assert forall|j: int| !(#[trigger] cf.slot_matches(j, a)) by {
                if cf.slot_matches(j, a) {
                    if j == victim {
                        lemma_match_means_block(&cf, a, victim);
                        assert(qa == q);
                    } else {
                        assert(cf.lines[j] == cm.lines[j]);
                        assert(cm.slot_matches(j, a));
                    }
                }
            }
            assert(!cf.has_line(a));
            assert(two_word(&cf, &ram1, a) == word_at(ram1.contents(), a));
            if flushed {
                // the victim's words went back to RAM
                lemma_aligned_burst_block(l, base, a);
                assert(base as int / (4 * l) == vln) by {
                    lemma_fundamental_div_mod_converse(vln * (4 * l), 4 * l, vln, 0);
                }
                assert(in_burst(base, l as nat, a));
                let off = (a - base) / 4;
                assert(off == cm.off_of(a));
                assert(word_at(ram1.contents(), a) == cm.lines[victim]->Some_0.data@[off]);
                assert(cm.has_valid_line(a) && cm.line_slot(a) == victim);
                assert(two_word(&c0, &ram0, a) == cm.stored_word(a));
                assert(cm.stored_word(a) == cm.lines[victim]->Some_0.data@[off]);
            } else {
                // a clean or invalid victim needed no traffic
                if cm.lines[victim]->Some_0.valid {
                    assert(cm.has_valid_line(a) && cm.line_slot(a) == victim);
                    assert(!cm.lines[victim]->Some_0.dirty);
                    assert(c0.has_valid_line(a) && c0.line_slot(a) == victim);
                    assert(c0.stored_word(a) == word_at(ram0.contents(), a));
                    assert(two_word(&c0, &ram0, a) == word_at(ram0.contents(), a));
                } else {
                    assert(!cm.has_valid_line(a)) by {
                        if cm.has_valid_line(a) {
                            lemma_unique_match(&cm, a, victim);
                        }
                    }
                    assert(two_word(&c0, &ram0, a) == word_at(ram0.contents(), a));
                }
            }
        } else {
            // the slots answering for `a` are untouched
            assert forall|j: int| #[trigger] cf.slot_matches(j, a) == cm.slot_matches(j, a) by {
                if j == victim {
                    if cf.slot_matches(victim, a) {
                        lemma_match_means_block(&cf, a, victim);
                        assert(qa == q);
                    }
                } else if 0 <= j < cm.lines.len() {
                    assert(cf.lines[j] == cm.lines[j]);
                }
            }
            if flushed && qa == vln {
                lemma_block_means_match(&cm, victim, a);
                assert(false);
            }
            if flushed {
                lemma_aligned_burst_block(l, base, a);
                assert(base as int / (4 * l) == vln) by {
                    lemma_fundamental_div_mod_converse(vln * (4 * l), 4 * l, vln, 0);
                }
                assert(!in_burst(base, l as nat, a));
            }
            assert(word_at(ram1.contents(), a) == word_at(ram0.contents(), a));
            if cm.has_line(a) {
                let j = cm.line_slot(a);
                assert(cm.slot_matches(j, a));
                assert(j != victim);
                assert(cf.slot_matches(j, a));
                lemma_unique_match(&cf, a, j);
                assert(cf.lines[j] == cm.lines[j]);
                assert(cf.has_valid_line(a) == cm.has_valid_line(a));
                assert(cf.stored_word(a) == cm.stored_word(a));
            } else {
                assert(!cf.has_line(a)) by {
                    if cf.has_line(a) {
                        let j = cf.line_slot(a);
                        assert(cf.slot_matches(j, a));
                        assert(cm.slot_matches(j, a));
                    }
                }
            }
        }
    }
}

/// One address of the clean-agreement re-establishment behind
/// [`two_read_miss_proof`].
#[verifier::rlimit(100)]
proof fn two_read_miss_clean(
    c0: Cache,
    cm: Cache,
    cf: Cache,
    ram0: Ram,
    ram1: Ram,
    victim: int,
    addr: u32,
    v: Seq<u32>,
    flushed: bool,
    a: u32,
)
    requires
        c0.wf(),
        cm.wf(),
        cf.wf(),
        two_clean_agree(&c0, &ram0),
        cm.words_per_line == c0.words_per_line,
        cm.set_count == c0.set_count,
        cm.assoc == c0.assoc,
        cm.lines == c0.lines,
        cf.words_per_line == cm.words_per_line,
        cf.set_count == cm.set_count,
        cf.assoc == cm.assoc,
        cf.lines.len() == cm.lines.len(),
        addr % 4 == 0,
        addr as int % (4 * c0.words_per_line as int) == 0,
        addr + 4 * c0.words_per_line <= 0x1_0000_0000,
        0 <= victim < cm.lines.len(),
        flushed ==> cm.lines[victim] is Some && cm.lines[victim]->Some_0.dirty
            && cm.lines[victim]->Some_0.valid && burst_written(
            ram0.contents(),
            ram1.contents(),
            ((cm.slot_line_no(victim) * (4 * cm.words_per_line as int)) as u32),
            cm.lines[victim]->Some_0.data@,
        ),
        !flushed ==> ram1.contents() == ram0.contents() && !(cm.lines[victim] is Some
            && cm.lines[victim]->Some_0.dirty && cm.lines[victim]->Some_0.valid),
        v.len() == c0.words_per_line,
        forall|i: int| 0 <= i < v.len() ==> v[i] == word_at(ram1.contents(), (addr + 4 * i)
            as u32),
        forall|i: int| 0 <= i < cm.lines.len() && i != victim ==> cf.lines[i] == #[trigger]
            cm.lines[i],
        cf.lines[victim] is Some,
        ({
            let nl = cf.lines[victim]->Some_0;
            nl.tag == cf.tag_of(addr) && !nl.dirty && nl.valid && nl.data@ == v
        }),
        cf.slot_matches(victim, addr),
        cf.line_slot(addr) == victim,
        flushed ==> ((cm.slot_line_no(victim) * (4 * cm.words_per_line as int)) as u32) as int
            == cm.slot_line_no(victim) * (4 * cm.words_per_line as int) && cm.slot_line_no(victim)
            * (4 * cm.words_per_line as int) % (4 * cm.words_per_line as int) == 0
            && cm.slot_line_no(victim) * (4 * cm.words_per_line as int) + 4
            * cm.words_per_line as int <= 0x1_0000_0000,
        a % 4 == 0,
        cf.has_valid_line(a),
        !cf.lines[cf.line_slot(a)]->Some_0.dirty,
    ensures
        cf.stored_word(a) == word_at(ram1.contents(), a),
{
    let l = c0.words_per_line as int;
    let q = c0.line_no_of(addr);
    let ghost vln = cm.slot_line_no(victim);
    let ghost base = ((vln * (4 * l)) as u32);
    let qa = c0.line_no_of(a);
    lemma_view_same_structure(&c0, &cm);
    lemma_match_means_block(&cf, addr, victim);
    if flushed {
        assert(cm.line_ok(victim));
    }
    let j = cf.line_slot(a);
    assert(cf.slot_matches(j, a));
    if j == victim {
        lemma_match_means_block(&cf, a, victim);
        assert(qa == q);
        lemma_same_line(&cf, addr, a);
        lemma_aligned_burst_block(l, addr, a);
        let off = (a - addr) / 4;
        assert(a == addr + 4 * off);
        assert(cf.stored_word(a) == v[off]);
        assert(v[off] == word_at(ram1.contents(), a));
    } else {
        assert(cf.lines[j] == cm.lines[j]);
        assert(cm.slot_matches(j, a));
        lemma_unique_match(&cm, a, j);
        assert(cm.has_valid_line(a) && cm.line_slot(a) == j);
        assert(c0.has_valid_line(a) && c0.line_slot(a) == j);
        assert(c0.stored_word(a) == word_at(ram0.contents(), a));
        if flushed {
            if qa == vln {
                lemma_block_means_match(&cm, victim, a);
                lemma_unique_match(&cm, a, victim);
                assert(false);
            }
            lemma_aligned_burst_block(l, base, a);
            assert(base as int / (4 * l) == vln) by {
                lemma_fundamental_div_mod_converse(vln * (4 * l), 4 * l, vln, 0);
            }
            assert(!in_burst(base, l as nat, a));
        }
        assert(word_at(ram1.contents(), a) == word_at(ram0.contents(), a));
        assert(cf.stored_word(a) == cm.stored_word(a));
        assert(cm.stored_word(a) == c0.stored_word(a));
    }
}

/// Serves one block-aligned write at a second-level cache over RAM: a hit
/// overwrites the whole line in place (the write covers the block, so no
/// write-back is owed); a miss writes the victim back if owed and allocates
/// the slot. Afterwards the pair's view holds the new words at the block and
/// what it held everywhere else.
fn two_write_block(l2: &mut Cache, ram: &mut Ram, addr: u32, data: &Vec<u32>) -> (r: u64)
    requires
        old(l2).wf(),
        two_clean_agree(old(l2), old(ram)),
        addr % 4 == 0,
        addr as int % (4 * old(l2).words_per_line as int) == 0,
        data.len() == old(l2).words_per_line,
        addr + 4 * data.len() <= 0x1_0000_0000,
    ensures
        final(l2).wf(),
        two_clean_agree(final(l2), final(ram)),
        final(l2).words_per_line == old(l2).words_per_line,
        final(l2).set_count == old(l2).set_count,
        final(l2).assoc == old(l2).assoc,
        final(l2).latency == old(l2).latency,
        final(l2).policy == old(l2).policy,
        final(ram).latency_spec() == old(ram).latency_spec(),
        final(l2).accesses >= old(l2).accesses,
        final(l2).misses >= old(l2).misses,
        final(ram).accesses_spec() >= old(ram).accesses_spec(),
        forall|a: u32| a % 4 == 0 ==> #[trigger] two_word(final(l2), final(ram), a) == (
        if in_burst(addr, data.len() as nat, a) {
            data@[(a - addr) / 4]
        } else {
            two_word(old(l2), old(ram), a)
        }),
        old(l2).has_line(addr) ==> r == old(l2).latency,
        !old(l2).has_line(addr) ==> (r == old(l2).latency || r == sat_add64(
            old(l2).latency,
            old(ram).latency_spec(),
        )),
{
    let ghost c0 = *l2;
    let ghost ram0 = *ram;
    l2.note_access();
    let ghost c1 = *l2;
    let found = l2.locate(addr);
    proof {
        lemma_view_same_structure(&c0, l2);
    }
    let mut victim: usize = 0;
    let mut flush_cycles: u64 = 0;
    let ghost hit = found is Some;
    let is_hit = match found {
        Some(slot) => {
            victim = slot;
            proof {
                lemma_unique_match(l2, addr, slot as int);
            }
            true
        },
        None => {
            l2.note_miss();
            proof {
                lemma_view_same_structure(&c1, l2);
                assert forall|j: int| !(#[trigger] l2.slot_matches(j, addr)) by {
                    if l2.slot_matches(j, addr) {
                        assert(l2.has_line(addr));
                    }
                }
            }
            victim = l2.choose_victim(addr);
            false
        },
    };
    let ghost cm = *l2;
    if !is_hit {
        match l2.victim_writeback(victim) {
            Some((base, wdata)) => {
                flush_cycles = match ram.write_slice(base, &wdata) {
                    Ok(c) => c,
                    Err(_) => unreached(),
                };
            },
            None => {},
        }
    }
    let datav = clone_words(data);
    l2.fill_slot(victim, addr, datav, true, true);
    proof {
        two_write_proof(c0, cm, *l2, ram0, *ram, victim as int, addr, data@, hit);
    }
    crate::ram::sat_add(l2.latency, flush_cycles)
}

/// After a block write is served, the pair's view is the old one with the
/// block replaced, and the write-back invariant holds again.
#[verifier::rlimit(100)]
proof fn two_write_proof(
    c0: Cache,
    cm: Cache,
    cf: Cache,
    ram0: Ram,
    ram1: Ram,
    victim: int,
    addr: u32,
    data: Seq<u32>,
    hit: bool,
)
    requires
        c0.wf(),
        cm.wf(),
        cf.wf(),
        two_clean_agree(&c0, &ram0),
        cm.words_per_line == c0.words_per_line,
        cm.set_count == c0.set_count,
        cm.assoc == c0.assoc,
        cm.lines == c0.lines,
        cf.words_per_line == cm.words_per_line,
        cf.set_count == cm.set_count,
        cf.assoc == cm.assoc,
        cf.lines.len() == cm.lines.len(),
        addr % 4 == 0,
        addr as int % (4 * c0.words_per_line as int) == 0,
        addr + 4 * c0.words_per_line <= 0x1_0000_0000,
        0 <= victim < cm.lines.len(),
        cm.set_of_slot(victim) == cm.set_of(addr),
        forall|j: int| j != victim ==> !cm.slot_matches(j, addr),
        hit ==> cm.slot_matches(victim, addr) && ram1.contents() == ram0.contents(),
        !hit ==> !cm.has_line(addr) && (((cm.lines[victim] is Some
            && cm.lines[victim]->Some_0.dirty && cm.lines[victim]->Some_0.valid)
            && burst_written(
            ram0.contents(),
            ram1.contents(),
            ((cm.slot_line_no(victim) * (4 * cm.words_per_line as int)) as u32),
            cm.lines[victim]->Some_0.data@,
        )) || (ram1.contents() == ram0.contents() && !(cm.lines[victim] is Some
            && cm.lines[victim]->Some_0.dirty && cm.lines[victim]->Some_0.valid))),
        data.len() == c0.words_per_line,
        forall|i: int| 0 <= i < cm.lines.len() && i != victim ==> cf.lines[i] == #[trigger]
            cm.lines[i],
        cf.lines[victim] is Some,
        ({
            let nl = cf.lines[victim]->Some_0;
            nl.tag == cf.tag_of(addr) && nl.dirty && nl.valid && nl.data@ == data
        }),
        cf.slot_matches(victim, addr),
        cf.line_slot(addr) == victim,
    ensures
        two_clean_agree(&cf, &ram1),
        forall|a: u32| a % 4 == 0 ==> #[trigger] two_word(&cf, &ram1, a) == (if in_burst(
            addr,
            data.len() as nat,
            a,
        ) {
            data[(a - addr) / 4]
        } else {
            two_word(&c0, &ram0, a)
        }),
{
    let l = c0.words_per_line as int;
    let q = c0.line_no_of(addr);
    let ghost vln = cm.slot_line_no(victim);
    let ghost base = ((vln * (4 * l)) as u32);
    let ghost flushed = !hit && cm.lines[victim] is Some && cm.lines[victim]->Some_0.dirty
        && cm.lines[victim]->Some_0.valid;
    lemma_view_same_structure(&c0, &cm);
    lemma_fundamental_div_mod(addr as int, 4 * l);
    lemma_match_means_block(&cf, addr, victim);
    if hit {
        lemma_match_means_block(&cm, addr, victim);
        assert(vln == q);
    }
    if flushed {
        if vln == q {
            lemma_block_means_match(&cm, victim, addr);
            assert(cm.has_line(addr));
            assert(false);
        }
        assert(cm.line_ok(victim));
        assert(base as int == vln * (4 * l) && base as int % (4 * l) == 0 && base + 4 * l
            <= 0x1_0000_0000 && base as int / (4 * l) == vln) by {
            assert((vln + 1) * (4 * l) == vln * (4 * l) + 4 * l) by (nonlinear_arith);
            assert(vln * (4 * l) >= 0) by (nonlinear_arith)
                requires vln >= 0, l >= 1;
            lemma_fundamental_div_mod_converse(vln * (4 * l), 4 * l, vln, 0);
        }
    }
    assert forall|a: u32| a % 4 == 0 implies #[trigger] two_word(&cf, &ram1, a) == (if in_burst(
        addr,
        data.len() as nat,
        a,
    ) {
        data[(a - addr) / 4]
    } else {
        two_word(&c0, &ram0, a)
    }) by {
        let qa = c0.line_no_of(a);
        lemma_aligned_burst_block(l, addr, a);
        if qa == q {
            // the written block
            assert(in_burst(addr, l as nat, a));
            lemma_same_line(&cf, addr, a);
            assert(cf.has_valid_line(a) && cf.line_slot(a) == victim);
            let off = (a - addr) / 4;
            assert(off == cf.off_of(a));
            assert(cf.stored_word(a) == data[off]);
        } else {
            assert(!in_burst(addr, l as nat, a));
            if cm.slot_matches(victim, a) {
                lemma_match_means_block(&cm, a, victim);
                assert(qa == vln);
                assert(!hit);
                lemma_unique_match(&cm, a, victim);
                assert forall|j: int| !(#[trigger] cf.slot_matches(j, a)) by {
                    if cf.slot_matches(j, a) {
                        if j == victim {
                            lemma_match_means_block(&cf, a, victim);
                        } else {
                            assert(cf.lines[j] == cm.lines[j]);
                            assert(cm.slot_matches(j, a));
                        }
                    }
                }
                assert(!cf.has_line(a));
                if flushed {
                    lemma_aligned_burst_block(l, base, a);
                    assert(in_burst(base, l as nat, a));
                    let off = (a - base) / 4;
                    assert(off == cm.off_of(a));
                    assert(word_at(ram1.contents(), a) == cm.lines[victim]->Some_0.data@[off]);
                    assert(cm.has_valid_line(a) && cm.line_slot(a) == victim);
                    assert(two_word(&c0, &ram0, a) == cm.stored_word(a));
                } else {
                    if cm.lines[victim] is Some && cm.lines[victim]->Some_0.valid {
                        assert(cm.has_valid_line(a) && cm.line_slot(a) == victim);
                        assert(!cm.lines[victim]->Some_0.dirty);
                        assert(c0.stored_word(a) == word_at(ram0.contents(), a));
                    } else {
                        assert(!cm.has_valid_line(a)) by {
                            if cm.has_valid_line(a) {
                                lemma_unique_match(&cm, a, victim);
                            }
                        }
                    }
                }
            } else {
                assert forall|j: int| #[trigger] cf.slot_matches(j, a) == cm.slot_matches(j, a)
                    by {
                    if j == victim {
                        if cf.slot_matches(victim, a) {
                            lemma_match_means_block(&cf, a, victim);
                        }
                    } else if 0 <= j < cm.lines.len() {
                        assert(cf.lines[j] == cm.lines[j]);
                    }
                }
                if flushed {
                    if qa == vln {
                        lemma_block_means_match(&cm, victim, a);
                        assert(false);
                    }
                    lemma_aligned_burst_block(l, base, a);
                    assert(!in_burst(base, l as nat, a));
                }
                assert(word_at(ram1.contents(), a) == word_at(ram0.contents(), a));
                if cm.has_line(a) {
                    let j = cm.line_slot(a);
                    assert(cm.slot_matches(j, a));
                    assert(j != victim);
                    assert(cf.slot_matches(j, a));
                    lemma_unique_match(&cf, a, j);
                    assert(cf.lines[j] == cm.lines[j]);
                    assert(cf.has_valid_line(a) == cm.has_valid_line(a));
                    assert(cf.stored_word(a) == cm.stored_word(a));
                } else {
                    assert(!cf.has_line(a)) by {
                        if cf.has_line(a) {
                            let j = cf.line_slot(a);
                            assert(cf.slot_matches(j, a));
                            assert(cm.slot_matches(j, a));
                        }
                    }
                }
            }
        }
    }
    assert forall|a: u32| a % 4 == 0 && #[trigger] cf.has_valid_line(a)
        && !cf.lines[cf.line_slot(a)]->Some_0.dirty implies cf.stored_word(a) == word_at(
        ram1.contents(),
        a,
    ) by {
        let qa = c0.line_no_of(a);
        let j = cf.line_slot(a);
        assert(cf.slot_matches(j, a));
        assert(j != victim) by {
            if j == victim {
                assert(cf.lines[victim]->Some_0.dirty);
            }
        }
        assert(cf.lines[j] == cm.lines[j]);
        assert(cm.slot_matches(j, a));
        lemma_unique_match(&cm, a, j);
        assert(cm.has_valid_line(a) && cm.line_slot(a) == j);
        assert(c0.stored_word(a) == word_at(ram0.contents(), a));
        if flushed {
            if qa == vln {
                lemma_block_means_match(&cm, victim, a);
                lemma_unique_match(&cm, a, victim);
                assert(false);
            }
            lemma_aligned_burst_block(l, base, a);
            assert(!in_burst(base, l as nat, a));
        }
        assert(word_at(ram1.contents(), a) == word_at(ram0.contents(), a));
        assert(cf.stored_word(a) == cm.stored_word(a));
    }
}

/// The word a first-level cache over a lower level holds for an address.
pub open spec fn cview(c: &Cache, b: &Below, a: u32) -> u32 {
    if c.has_valid_line(a) {
        c.stored_word(a)
    } else {
        b.word(a)
    }
}

/// Every valid clean line of a first-level cache agrees with the level
/// below on its block.
pub open spec fn l1_clean_agree(c: &Cache, b: &Below) -> bool {
    forall|a: u32|
        a % 4 == 0 && #[trigger] c.has_valid_line(a) && !c.lines[c.line_slot(a)]->Some_0.dirty
            ==> c.stored_word(a) == b.word(a)
}

/// No stored line of the cache is marked invalid (true of any cache without
/// a sister, since sister invalidation is the only path to invalidity).
pub open spec fn all_valid(c: &Cache) -> bool {
    forall|i: int| 0 <= i < c.lines.len() && c.lines[i] is Some ==> #[trigger]
        c.lines[i]->Some_0.valid
}

/// A first-level cache transfers whole blocks to the level below, so the
/// level below must accept its block size.
pub open spec fn compat(c: &Cache, b: &Below) -> bool {
    match b {
        Below::Ram(_) => true,
        Below::Two { l2, ram: _ } => l2.words_per_line == c.words_per_line,
    }
}

/// A word-aligned address is its line base plus four times its offset.
pub proof fn lemma_addr_from_line_off(l: int, a: u32)
    requires
        l >= 1,
        a % 4 == 0,
    ensures
        a as int == (a as int / (4 * l)) * (4 * l) + 4 * ((a as int / 4) % l),
{
    let ln = a as int / (4 * l);
    let m = a as int / 4;
    lemma_fundamental_div_mod(a as int, 4);
    assert(a as int == 4 * m);
    lemma_fundamental_div_mod(m, l);
    assert(m == l * (m / l) + m % l);
    assert(m / l == ln) by {
        assert(4 * (l * (m / l)) == (m / l) * (4 * l)) by (nonlinear_arith);
        assert((m / l) * (4 * l) <= a as int && (a as int) < (m / l + 1) * (4 * l))
            by (nonlinear_arith)
            requires
                a as int == 4 * m,
                m == l * (m / l) + m % l,
                0 <= m % l < l,
                l >= 1,
        ;
        lemma_div_block(4 * l, m / l, a as int);
    }
    assert(a as int == 4 * (l * ln + m % l));
    assert(4 * (l * ln + m % l) == ln * (4 * l) + 4 * (m % l)) by (nonlinear_arith);
}

/// After a first-level miss is served against the level below (victim
/// written back if owed, block loaded, slot refilled clean), the pair's
/// view is unchanged, the write-back invariant holds again, and the loaded
/// words are the old view of the block.
#[verifier::rlimit(100)]
proof fn l1_miss_proof(
    c0: Cache,
    cm: Cache,
    cf: Cache,
    b0: Below,
    bfl: Below,
    b1: Below,
    victim: int,
    base: u32,
    v: Seq<u32>,
    flushed: bool,
)
    requires
        c0.wf(),
        cm.wf(),
        cf.wf(),
        l1_clean_agree(&c0, &b0),
        cm.words_per_line == c0.words_per_line,
        cm.set_count == c0.set_count,
        cm.assoc == c0.assoc,
        cm.lines == c0.lines,
        cf.words_per_line == cm.words_per_line,
        cf.set_count == cm.set_count,
        cf.assoc == cm.assoc,
        cf.lines.len() == cm.lines.len(),
        base % 4 == 0,
        base as int % (4 * c0.words_per_line as int) == 0,
        base + 4 * c0.words_per_line <= 0x1_0000_0000,
        0 <= victim < cm.lines.len(),
        cm.set_of_slot(victim) == cm.set_of(base),
        !cm.has_valid_line(base),
        forall|j: int| j != victim ==> !cm.slot_matches(j, base),
        flushed ==> cm.lines[victim] is Some && cm.lines[victim]->Some_0.dirty
            && cm.lines[victim]->Some_0.valid && (forall|k: u32| k % 4 == 0 ==> #[trigger]
            bfl.word(k) == (if in_burst(
            ((cm.slot_line_no(victim) * (4 * cm.words_per_line as int)) as u32),
            cm.words_per_line as nat,
            k,
        ) {
            cm.lines[victim]->Some_0.data@[(k - ((cm.slot_line_no(victim) * (4
                * cm.words_per_line as int)) as u32)) / 4]
        } else {
            b0.word(k)
        })),
        !flushed ==> (forall|k: u32| k % 4 == 0 ==> #[trigger] bfl.word(k) == b0.word(k)) && !(
        cm.lines[victim] is Some && cm.lines[victim]->Some_0.dirty
            && cm.lines[victim]->Some_0.valid),
        forall|k: u32| k % 4 == 0 ==> #[trigger] b1.word(k) == bfl.word(k),
        v.len() == c0.words_per_line,
        forall|i: int| 0 <= i < v.len() ==> v[i] == bfl.word((base + 4 * i) as u32),
        forall|i: int| 0 <= i < cm.lines.len() && i != victim ==> cf.lines[i] == #[trigger]
            cm.lines[i],
        cf.lines[victim] is Some,
        ({
            let nl = cf.lines[victim]->Some_0;
            nl.tag == cf.tag_of(base) && !nl.dirty && nl.valid && nl.data@ == v
        }),
        cf.slot_matches(victim, base),
        cf.line_slot(base) == victim,
    ensures
        l1_clean_agree(&cf, &b1),
        forall|a: u32| a % 4 == 0 ==> #[trigger] cview(&cf, &b1, a) == cview(&c0, &b0, a),
        forall|i: int| 0 <= i < v.len() ==> v[i] == cview(&c0, &b0, (base + 4 * i) as u32),
{
    let l = c0.words_per_line as int;
    let q = c0.line_no_of(base);
    let ghost vln = cm.slot_line_no(victim);
    let ghost vbase = ((vln * (4 * l)) as u32);
    lemma_view_same_structure(&c0, &cm);
    lemma_fundamental_div_mod(base as int, 4 * l);
    lemma_match_means_block(&cf, base, victim);
    if flushed {
        if vln == q {
            lemma_block_means_match(&cm, victim, base);
            lemma_unique_match(&cm, base, victim);
            assert(cm.has_valid_line(base));
            assert(false);
        }
        assert(cm.line_ok(victim));
        assert(vbase as int == vln * (4 * l) && vbase as int % (4 * l) == 0 && vbase + 4 * l
            <= 0x1_0000_0000 && vbase as int / (4 * l) == vln) by {
            assert((vln + 1) * (4 * l) == vln * (4 * l) + 4 * l) by (nonlinear_arith);
            assert(vln * (4 * l) >= 0) by (nonlinear_arith)
                requires vln >= 0, l >= 1;
            lemma_fundamental_div_mod_converse(vln * (4 * l), 4 * l, vln, 0);
        }
    }
    assert forall|a: u32| a % 4 == 0 implies #[trigger] cview(&cf, &b1, a) == cview(
        &c0,
        &b0,
        a,
    ) by {
        let qa = c0.line_no_of(a);
        if qa == q {
            lemma_same_line(&cf, base, a);
            assert(cf.has_valid_line(a) && cf.line_slot(a) == victim);
            lemma_aligned_burst_block(l, base, a);
            assert(in_burst(base, l as nat, a));
            let off = (a - base) / 4;
            assert(off == cf.off_of(a));
            assert(a == base + 4 * off);
            assert(v[off] == bfl.word(a));
            assert(cf.stored_word(a) == v[off]);
            lemma_same_line(&cm, base, a);
            assert(!cm.has_valid_line(a));
            assert(cview(&c0, &b0, a) == b0.word(a));
            if flushed {
                lemma_aligned_burst_block(l, vbase, a);
                assert(!in_burst(vbase, l as nat, a));
            }
            assert(bfl.word(a) == b0.word(a));
            assert(b1.word(a) == b0.word(a));
        } else {
            let ghost matched_victim = cm.slot_matches(victim, a);
            if matched_victim {
                lemma_match_means_block(&cm, a, victim);
                assert(qa == vln);
                lemma_unique_match(&cm, a, victim);
                assert forall|j: int| !(#[trigger] cf.slot_matches(j, a)) by {
                    if cf.slot_matches(j, a) {
                        if j == victim {
                            lemma_match_means_block(&cf, a, victim);
                            assert(qa == q);
                        } else {
                            assert(cf.lines[j] == cm.lines[j]);
                            assert(cm.slot_matches(j, a));
                        }
                    }
                }
                assert(!cf.has_line(a));
                assert(cview(&cf, &b1, a) == b1.word(a));
                if flushed {
                    lemma_aligned_burst_block(l, vbase, a);
                    assert(in_burst(vbase, l as nat, a));
                    let off = (a - vbase) / 4;
                    assert(off == cm.off_of(a));
                    assert(bfl.word(a) == cm.lines[victim]->Some_0.data@[off]);
                    assert(b1.word(a) == cm.lines[victim]->Some_0.data@[off]);
                    assert(cm.has_valid_line(a) && cm.line_slot(a) == victim);
                    assert(cview(&c0, &b0, a) == cm.stored_word(a));
                    assert(cm.stored_word(a) == cm.lines[victim]->Some_0.data@[off]);
                } else {
                    if cm.lines[victim]->Some_0.valid {
                        assert(cm.has_valid_line(a) && cm.line_slot(a) == victim);
                        assert(!cm.lines[victim]->Some_0.dirty);
                        assert(c0.has_valid_line(a) && c0.line_slot(a) == victim);
                        assert(c0.stored_word(a) == b0.word(a));
                        assert(cview(&c0, &b0, a) == b0.word(a));
                    } else {
                        assert(!cm.has_valid_line(a)) by {
                            if cm.has_valid_line(a) {
                                lemma_unique_match(&cm, a, victim);
                            }
                        }
                        assert(cview(&c0, &b0, a) == b0.word(a));
                    }
                }
            } else {
                assert forall|j: int| #[trigger] cf.slot_matches(j, a) == cm.slot_matches(j, a)
                    by {
                    if j == victim {
                        if cf.slot_matches(victim, a) {
                            lemma_match_means_block(&cf, a, victim);
                            assert(qa == q);
                        }
                    } else if 0 <= j < cm.lines.len() {
                        assert(cf.lines[j] == cm.lines[j]);
                    }
                }
                if flushed && qa == vln {
                    lemma_block_means_match(&cm, victim, a);
                    assert(false);
                }
                if flushed {
                    lemma_aligned_burst_block(l, vbase, a);
                    assert(!in_burst(vbase, l as nat, a));
                }
                assert(bfl.word(a) == b0.word(a));
                assert(b1.word(a) == b0.word(a));
                if cm.has_line(a) {
                    let j = cm.line_slot(a);
                    assert(cm.slot_matches(j, a));
                    assert(j != victim);
                    assert(cf.slot_matches(j, a));
                    lemma_unique_match(&cf, a, j);
                    assert(cf.lines[j] == cm.lines[j]);
                    assert(cf.has_valid_line(a) == cm.has_valid_line(a));
                    assert(cf.stored_word(a) == cm.stored_word(a));
                } else {
                    assert(!cf.has_line(a)) by {
                        if cf.has_line(a) {
                            let j = cf.line_slot(a);
                            assert(cf.slot_matches(j, a));
                            assert(cm.slot_matches(j, a));
                        }
                    }
                }
            }
        }
    }
    assert forall|a: u32| a % 4 == 0 && #[trigger] cf.has_valid_line(a)
        && !cf.lines[cf.line_slot(a)]->Some_0.dirty implies cf.stored_word(a) == b1.word(a) by {
        let qa = c0.line_no_of(a);
        let j = cf.line_slot(a);
        assert(cf.slot_matches(j, a));
        if j == victim {
            lemma_match_means_block(&cf, a, victim);
            assert(qa == q);
            lemma_same_line(&cf, base, a);
            lemma_aligned_burst_block(l, base, a);
            let off = (a - base) / 4;
            assert(a == base + 4 * off);
            assert(cf.stored_word(a) == v[off]);
            assert(v[off] == bfl.word(a));
            assert(b1.word(a) == bfl.word(a));
        } else {
            assert(cf.lines[j] == cm.lines[j]);
            assert(cm.slot_matches(j, a));
            lemma_unique_match(&cm, a, j);
            assert(cm.has_valid_line(a) && cm.line_slot(a) == j);
            assert(c0.has_valid_line(a) && c0.line_slot(a) == j);
            assert(c0.stored_word(a) == b0.word(a));
            if flushed {
                if qa == vln {
                    lemma_block_means_match(&cm, victim, a);
                    lemma_unique_match(&cm, a, victim);
                    assert(false);
                }
                lemma_aligned_burst_block(l, vbase, a);
                assert(!in_burst(vbase, l as nat, a));
            }
            assert(bfl.word(a) == b0.word(a));
            assert(b1.word(a) == b0.word(a));
            assert(cf.stored_word(a) == cm.stored_word(a));
            assert(cm.stored_word(a) == c0.stored_word(a));
        }
    }
    assert forall|i: int| 0 <= i < v.len() implies v[i] == cview(&c0, &b0, (base + 4 * i) as u32)
        by {
        lemma_block_member(l, base, i);
        let ai = (base + 4 * i) as u32;
        lemma_same_line(&cm, base, ai);
        assert(!cm.has_valid_line(ai));
        assert(cview(&c0, &b0, ai) == b0.word(ai));
        if flushed {
            lemma_aligned_burst_block(l, vbase, ai);
            assert(!in_burst(vbase, l as nat, ai));
        }
        assert(bfl.word(ai) == b0.word(ai));
    }
}

/// Writing one word into the valid line holding `addr` updates the pair's
/// view at `addr` alone and keeps the write-back invariant (the line turns
/// dirty, which clean agreement does not speak of).
#[verifier::rlimit(60)]
proof fn l1_write_word_proof(c1: Cache, c2: Cache, b: Below, addr: u32, val: u32)
    requires
        c1.wf(),
        c2.wf(),
        l1_clean_agree(&c1, &b),
        addr % 4 == 0,
        c1.has_valid_line(addr),
        c2.words_per_line == c1.words_per_line,
        c2.set_count == c1.set_count,
        c2.assoc == c1.assoc,
        c2.lines.len() == c1.lines.len(),
        forall|i: int| 0 <= i < c1.lines.len() && i != c1.line_slot(addr) ==> c2.lines[i]
            == #[trigger] c1.lines[i],
        c2.lines[c1.line_slot(addr)] is Some,
        ({
            let l0 = c1.lines[c1.line_slot(addr)]->Some_0;
            let l2 = c2.lines[c1.line_slot(addr)]->Some_0;
            l2.tag == l0.tag && l2.dirty && l2.valid && l2.data@ == l0.data@.update(
                c1.off_of(addr),
                val,
            )
        }),
    ensures
        l1_clean_agree(&c2, &b),
        forall|a: u32| a % 4 == 0 ==> #[trigger] cview(&c2, &b, a) == (if a == addr {
            val
        } else {
            cview(&c1, &b, a)
        }),
        c2.has_valid_line(addr),
        c2.stored_word(addr) == val,
{
    let l = c1.words_per_line as int;
    let slot = c1.line_slot(addr);
    assert(c1.slot_matches(slot, addr));
    assert(c2.slot_matches(slot, addr));
    lemma_unique_match(&c2, addr, slot);
    assert(c1.line_ok(slot));
    assert(c2.line_ok(slot));
    assert(c1.lines[slot]->Some_0.data@.len() == l);
    assert(0 <= c1.off_of(addr) < l) by {
        lemma_fundamental_div_mod(addr as int / 4, l);
        assert(0 <= (addr as int / 4) % l && ((addr as int / 4) % l) < l) by (nonlinear_arith)
            requires l >= 1;
    }
    assert(c2.stored_word(addr) == val);
    assert forall|a: u32| a % 4 == 0 implies #[trigger] cview(&c2, &b, a) == (if a == addr {
        val
    } else {
        cview(&c1, &b, a)
    }) by {
        let qa = c1.line_no_of(a);
        if qa == c1.line_no_of(addr) {
            lemma_same_line(&c1, addr, a);
            lemma_same_line(&c2, addr, a);
            assert(c1.has_valid_line(a) && c1.line_slot(a) == slot);
            assert(c2.has_valid_line(a) && c2.line_slot(a) == slot);
            if a == addr {
            } else {
                assert(c1.off_of(a) != c1.off_of(addr)) by {
                    if c1.off_of(a) == c1.off_of(addr) {
                        lemma_addr_from_line_off(l, a);
                        lemma_addr_from_line_off(l, addr);
                        assert(a == addr);
                    }
                }
                assert(0 <= c1.off_of(a) < l) by {
                    lemma_fundamental_div_mod(a as int / 4, l);
                    assert(0 <= (a as int / 4) % l && ((a as int / 4) % l) < l)
                        by (nonlinear_arith)
                        requires l >= 1;
                }
                assert(c2.stored_word(a) == c1.stored_word(a));
            }
        } else {
            assert forall|j: int| #[trigger] c2.slot_matches(j, a) == c1.slot_matches(j, a) by {
                if j == slot {
                    if c1.slot_matches(slot, a) || c2.slot_matches(slot, a) {
                        lemma_match_means_block(&c1, addr, slot);
                        if c1.slot_matches(slot, a) {
                            lemma_match_means_block(&c1, a, slot);
                        }
                        if c2.slot_matches(slot, a) {
                            lemma_match_means_block(&c2, a, slot);
                            assert(c2.slot_line_no(slot) == c1.slot_line_no(slot));
                        }
                        assert(false);
                    }
                } else if 0 <= j < c1.lines.len() {
                    assert(c2.lines[j] == c1.lines[j]);
                }
            }
            if c1.has_line(a) {
                let j = c1.line_slot(a);
                assert(c1.slot_matches(j, a));
                assert(j != slot) by {
                    if j == slot {
                        lemma_match_means_block(&c1, a, slot);
                        lemma_match_means_block(&c1, addr, slot);
                    }
                }
                assert(c2.slot_matches(j, a));
                lemma_unique_match(&c2, a, j);
                assert(c2.lines[j] == c1.lines[j]);
                assert(c2.has_valid_line(a) == c1.has_valid_line(a));
                assert(c2.stored_word(a) == c1.stored_word(a));
            } else {
                assert(!c2.has_line(a)) by {
                    if c2.has_line(a) {
                        let j = c2.line_slot(a);
                        assert(c2.slot_matches(j, a));
                        assert(c1.slot_matches(j, a));
                    }
                }
            }
        }
    }
    assert forall|a: u32| a % 4 == 0 && #[trigger] c2.has_valid_line(a)
        && !c2.lines[c2.line_slot(a)]->Some_0.dirty implies c2.stored_word(a) == b.word(a) by {
        let j = c2.line_slot(a);
        assert(c2.slot_matches(j, a));
        assert(j != slot) by {
            if j == slot {
                assert(c2.lines[slot]->Some_0.dirty);
            }
        }
        assert(c2.lines[j] == c1.lines[j]);
        assert(c1.slot_matches(j, a));
        lemma_unique_match(&c1, a, j);
        assert(c1.has_valid_line(a) && c1.line_slot(a) == j);
        assert(c1.stored_word(a) == b.word(a));
        assert(c2.stored_word(a) == c1.stored_word(a));
    }
}

/// Reads one word through a first-level cache: a valid hit answers from the
/// line; otherwise the victim is written back if owed and the block is
/// loaded from below. Returns the word, the cycles spent, and the base of
/// the block written back, if any (a sister must invalidate its copy).
pub fn l1_read(c: &mut Cache, b: &mut Below, addr: u32) -> (r: (u32, u64, Option<u32>))
    requires
        old(c).wf(),
        old(b).wf(),
        l1_clean_agree(old(c), old(b)),
        compat(old(c), old(b)),
        addr % 4 == 0,
    ensures
        final(c).wf(),
        final(b).wf(),
        l1_clean_agree(final(c), final(b)),
        compat(final(c), final(b)),
        final(c).words_per_line == old(c).words_per_line,
        final(c).set_count == old(c).set_count,
        final(c).assoc == old(c).assoc,
        final(c).latency == old(c).latency,
        final(c).policy == old(c).policy,
        final(b).same_shape(old(b)),
        final(c).accesses >= old(c).accesses,
        final(c).misses >= old(c).misses,
        final(b).counters_geq(old(b)),
        all_valid(old(c)) ==> all_valid(final(c)),
        forall|a: u32| a % 4 == 0 ==> #[trigger] cview(final(c), final(b), a) == cview(
            old(c),
            old(b),
            a,
        ),
        r.0 == cview(old(c), old(b), addr),
        // the accessed block is resident and valid afterwards, holding the
        // returned word, stamped with the access that fetched it; no other
        // slot moved
        final(c).has_valid_line(addr),
        final(c).stored_word(addr) == r.0,
        final(c).lines[final(c).line_slot(addr)]->Some_0.last_access == final(c).accesses,
        final(c).lines.len() == old(c).lines.len(),
        forall|j: int| 0 <= j < old(c).lines.len() && j != final(c).line_slot(addr)
            ==> final(c).lines[j] == #[trigger] old(c).lines[j],
        match r.2 {
            None => forall|k: u32| k % 4 == 0 ==> #[trigger] final(b).word(k) == old(b).word(k),
            Some(vb) => vb % 4 == 0 && vb as int % (4 * old(c).words_per_line as int) == 0 && vb
                + 4 * old(c).words_per_line <= 0x1_0000_0000 && (forall|k: u32| k % 4 == 0
                && !in_burst(vb, old(c).words_per_line as nat, k) ==> #[trigger] final(b).word(k)
                == old(b).word(k)),
        },
        final(c).accesses == sat_add64(old(c).accesses, 1),
        final(c).misses == (if old(c).has_valid_line(addr) {
            old(c).misses
        } else {
            sat_add64(old(c).misses, 1)
        }),
        old(c).has_valid_line(addr) ==> r.1 == old(c).latency,
        match *old(b) {
            Below::Ram(r0) => !old(c).has_valid_line(addr) ==> (r.1 == sat_add64(
                old(c).latency,
                r0.latency_spec(),
            ) || r.1 == sat_add64(
                sat_add64(old(c).latency, r0.latency_spec()),
                r0.latency_spec(),
            )),
            Below::Two { .. } => true,
        },
    {
    let ghost c0 = *c;
    let ghost b0 = *b;
    let ghost l = c.words_per_line as int;
    c.note_access();
    let d = c.decompose(addr);
    let base = d.to_addr(c.words_per_line);
    proof {
        lemma_addr_from_line_off(l, addr);
        assert(base as int % (4 * l) == 0 && base as int / (4 * l) == c.line_no_of(addr)) by {
            lemma_fundamental_div_mod_converse(c.line_no_of(addr) * (4 * l), 4 * l,
                c.line_no_of(addr), 0);
        }
        assert(base % 4 == 0) by {
            assert(c.line_no_of(addr) * (4 * l) == (c.line_no_of(addr) * l) * 4)
                by (nonlinear_arith);
            lemma_fundamental_div_mod_converse(base as int, 4, c.line_no_of(addr) * l, 0);
        }
        assert(base + 4 * l <= 0x1_0000_0000) by (nonlinear_arith)
            requires
                base as int == c.line_no_of(addr) * (4 * l),
                (c.line_no_of(addr) + 1) * (4 * l) <= 0x1_0000_0000,
        ;
        lemma_same_line_base(l, addr, base);
    }
    let found = c.locate(addr);
    proof {
        lemma_view_same_structure(&c0, c);
    }
    let valid_hit = match found {
        Some(slot) => match &c.lines[slot] {
            Some(line) => line.valid,
            None => false,
        },
        None => false,
    };
    if valid_hit {
        let slot = match found {
            Some(slot) => slot,
            None => unreached(),
        };
        c.touch(slot);
        proof {
            lemma_view_same_structure(&c0, c);
            assert(c.slot_matches(slot as int, addr));
            lemma_unique_match(c, addr, slot as int);
        }
        let w = c.read_line_word(slot, d.offset);
        proof {
            assert(c.stored_word(addr) == w);
            assert(c.has_valid_line(addr));
            assert(c0.has_valid_line(addr) && c0.stored_word(addr) == w);
            if all_valid(&c0) {
                assert forall|i: int| 0 <= i < c.lines.len() && c.lines[i] is Some implies
                    #[trigger] c.lines[i]->Some_0.valid by {
                    if i != slot as int {
                        assert(c.lines[i] == c0.lines[i]);
                    }
                }
            }
            assert forall|a: u32| a % 4 == 0 implies #[trigger] cview(c, b, a) == cview(
                &c0,
                &b0,
                a,
            ) by {
                assert(c.has_valid_line(a) == c0.has_valid_line(a));
                if c0.has_valid_line(a) {
                    assert(c0.has_line(a));
                    assert(c.stored_word(a) == c0.stored_word(a));
                }
            }
        }
        (w, c.latency, None)
    } else {
        c.note_miss();
        proof {
            lemma_view_same_structure(&c0, c);
            lemma_same_line(c, addr, base);
        }
        let victim = match found {
            Some(slot) => slot,
            None => c.choose_victim(addr),
        };
        proof {
            match found {
                Some(slot) => {
                    assert(c.slot_matches(slot as int, addr));
                    lemma_unique_match(c, addr, slot as int);
                    assert(!c.has_valid_line(addr));
                },
                None => {
                    assert forall|j: int| !(#[trigger] c.slot_matches(j, addr)) by {
                        if c.slot_matches(j, addr) {
                            assert(c.has_line(addr));
                        }
                    }
                    assert(!c.has_valid_line(addr));
                },
            }
            assert(forall|j: int| j != victim as int ==> !c.slot_matches(j, base));
            assert(!c.has_valid_line(base));
            assert(c.set_of_slot(victim as int) == c.set_of(base));
        }
        let mut cycles: u64 = c.latency;
        let ghost cm = *c;
        let wb = c.victim_writeback(victim);
        let ghost flushed = wb is Some;
        let mut flushed_base: Option<u32> = None;
        match wb {
            Some((vb, wdata)) => {
                proof {
                    assert(cm.line_ok(victim as int));
                    lemma_vbase_slice_ok(&cm, b, victim as int, vb);
                    assert(vb as int % (4 * cm.words_per_line as int) == 0) by {
                        lemma_fundamental_div_mod_converse(cm.slot_line_no(victim as int) * (4
                            * cm.words_per_line as int), 4 * cm.words_per_line as int,
                            cm.slot_line_no(victim as int), 0);
                    }
                }
                let fc = b.write_slice(vb, &wdata);
                cycles = crate::ram::sat_add(cycles, fc);
                flushed_base = Some(vb);
            },
            None => {},
        }
        let ghost bf = *b;
        proof {
            assert(b.slice_ok(base, c.words_per_line)) by {
                lemma_base_slice_ok(c, b, base);
            }
        }
        let lv = b.read_slice(base, c.words_per_line);
        let v = lv.0;
        cycles = crate::ram::sat_add(cycles, lv.1);
        let datav = clone_words(&v);
        proof {
            lemma_same_line(c, addr, base);
        }
        c.fill_slot(victim, base, datav, false, true);
        proof {
            l1_miss_proof(c0, cm, *c, b0, bf, *b, victim as int, base, v@, flushed);
            lemma_same_line(c, addr, base);
            lemma_aligned_burst_block(l, base, addr);
            assert(in_burst(base, l as nat, addr));
            assert((addr - base) / 4 == c.off_of(addr));
            assert(addr == base + 4 * ((addr - base) / 4));
        }
        let w = c.read_line_word(victim, d.offset);
        proof {
            assert(c.stored_word(addr) == w);
            assert(w == v@[c0.off_of(addr)]);
            assert(w == cview(&c0, &b0, addr));
            if all_valid(&c0) {
                assert forall|i: int| 0 <= i < c.lines.len() && c.lines[i] is Some implies
                    #[trigger] c.lines[i]->Some_0.valid by {
                    if i != victim as int {
                        assert(c.lines[i] == cm.lines[i] && cm.lines[i] == c0.lines[i]);
                    }
                }
            }
        }
        (w, cycles, flushed_base)
    }
}

/// Writing one word into the slot matching `addr` (valid or not) leaves
/// every other block's view alone and keeps the write-back invariant: the
/// written line is dirty, which clean agreement does not speak of.
#[verifier::rlimit(60)]
proof fn l1_write_other_blocks(c1: Cache, c2: Cache, slot: int, addr: u32, b: Below)
    requires
        c1.wf(),
        c2.wf(),
        l1_clean_agree(&c1, &b),
        addr % 4 == 0,
        c1.slot_matches(slot, addr),
        c2.words_per_line == c1.words_per_line,
        c2.set_count == c1.set_count,
        c2.assoc == c1.assoc,
        c2.lines.len() == c1.lines.len(),
        forall|i: int| 0 <= i < c1.lines.len() && i != slot ==> c2.lines[i] == #[trigger]
            c1.lines[i],
        c2.lines[slot] is Some,
        c2.lines[slot]->Some_0.tag == c1.lines[slot]->Some_0.tag,
        c2.lines[slot]->Some_0.dirty,
    ensures
        l1_clean_agree(&c2, &b),
        forall|a: u32| a % 4 == 0 && c1.line_no_of(a) != c1.line_no_of(addr) ==> #[trigger]
            cview(&c2, &b, a) == cview(&c1, &b, a),
{
    lemma_match_means_block(&c1, addr, slot);
    assert forall|a: u32| a % 4 == 0 && c1.line_no_of(a) != c1.line_no_of(addr) implies
        #[trigger] cview(&c2, &b, a) == cview(&c1, &b, a) by {
        assert forall|j: int| #[trigger] c2.slot_matches(j, a) == c1.slot_matches(j, a) by {
            if j == slot {
                if c1.slot_matches(slot, a) {
                    lemma_match_means_block(&c1, a, slot);
                }
                if c2.slot_matches(slot, a) {
                    lemma_match_means_block(&c2, a, slot);
                    assert(c2.slot_line_no(slot) == c1.slot_line_no(slot));
                }
            } else if 0 <= j < c1.lines.len() {
                assert(c2.lines[j] == c1.lines[j]);
            }
        }
        if c1.has_line(a) {
            let j = c1.line_slot(a);
            assert(c1.slot_matches(j, a));
            assert(j != slot) by {
                if j == slot {
                    lemma_match_means_block(&c1, a, slot);
                }
            }
            assert(c2.slot_matches(j, a));
            lemma_unique_match(&c2, a, j);
            assert(c2.lines[j] == c1.lines[j]);
            assert(c2.has_valid_line(a) == c1.has_valid_line(a));
            assert(c2.stored_word(a) == c1.stored_word(a));
        } else {
            assert(!c2.has_line(a)) by {
                if c2.has_line(a) {
                    let j = c2.line_slot(a);
                    assert(c2.slot_matches(j, a));
                    assert(c1.slot_matches(j, a));
                }
            }
        }
    }
    assert forall|a: u32| a % 4 == 0 && #[trigger] c2.has_valid_line(a)
        && !c2.lines[c2.line_slot(a)]->Some_0.dirty implies c2.stored_word(a) == b.word(a) by {
        let j = c2.line_slot(a);
        assert(c2.slot_matches(j, a));
        assert(j != slot) by {
            if j == slot {
                assert(c2.lines[slot]->Some_0.dirty);
            }
        }
        assert(c2.lines[j] == c1.lines[j]);
        assert(c1.slot_matches(j, a));
        lemma_unique_match(&c1, a, j);
        assert(c1.has_valid_line(a) && c1.line_slot(a) == j);
        assert(c1.stored_word(a) == b.word(a));
        assert(c2.stored_word(a) == c1.stored_word(a));
    }
}

/// Writes one word through a first-level cache, write-allocating on a miss:
/// the victim is written back if owed and the block loaded before the word
/// lands dirty in the line. A hit writes in place, even into a line marked
/// invalid (such a line always carries the level below's block, so reviving
/// it is sound; over a revived line the per-word view claim is stated for
/// the written block's words only).
pub fn l1_write(c: &mut Cache, b: &mut Below, addr: u32, val: u32) -> (r: (u64, Option<u32>))
    requires
        old(c).wf(),
        old(b).wf(),
        l1_clean_agree(old(c), old(b)),
        compat(old(c), old(b)),
        addr % 4 == 0,
    ensures
        final(c).wf(),
        final(b).wf(),
        l1_clean_agree(final(c), final(b)),
        compat(final(c), final(b)),
        final(c).words_per_line == old(c).words_per_line,
        final(c).set_count == old(c).set_count,
        final(c).assoc == old(c).assoc,
        final(c).latency == old(c).latency,
        final(c).policy == old(c).policy,
        final(b).same_shape(old(b)),
        final(c).accesses >= old(c).accesses,
        final(c).misses >= old(c).misses,
        final(b).counters_geq(old(b)),
        all_valid(old(c)) ==> all_valid(final(c)),
        final(c).has_valid_line(addr),
        final(c).stored_word(addr) == val,
        final(c).lines[final(c).line_slot(addr)]->Some_0.dirty,
        final(c).lines[final(c).line_slot(addr)]->Some_0.last_access == final(c).accesses,
        final(c).lines.len() == old(c).lines.len(),
        forall|j: int| 0 <= j < old(c).lines.len() && j != final(c).line_slot(addr)
            ==> final(c).lines[j] == #[trigger] old(c).lines[j],
        (old(c).has_line(addr) ==> old(c).has_valid_line(addr)) ==> (forall|a: u32| a % 4 == 0
            ==> #[trigger] cview(final(c), final(b), a) == (if a == addr {
            val
        } else {
            cview(old(c), old(b), a)
        })),
        forall|a: u32| a % 4 == 0 && old(c).line_no_of(a) != old(c).line_no_of(addr)
            ==> #[trigger] cview(final(c), final(b), a) == cview(old(c), old(b), a),
        final(c).accesses == sat_add64(old(c).accesses, 1),
        final(c).misses == (if old(c).has_line(addr) {
            old(c).misses
        } else {
            sat_add64(old(c).misses, 1)
        }),
        old(c).has_line(addr) ==> r.0 == old(c).latency,
        match *old(b) {
            Below::Ram(r0) => !old(c).has_line(addr) ==> (r.0 == sat_add64(
                old(c).latency,
                r0.latency_spec(),
            ) || r.0 == sat_add64(
                sat_add64(old(c).latency, r0.latency_spec()),
                r0.latency_spec(),
            )),
            Below::Two { .. } => true,
        },
        match r.1 {
            None => forall|k: u32| k % 4 == 0 && old(c).line_no_of(k) != old(c).line_no_of(addr)
                ==> #[trigger] final(b).word(k) == old(b).word(k),
            Some(vb) => vb % 4 == 0 && vb as int % (4 * old(c).words_per_line as int) == 0 && vb
                + 4 * old(c).words_per_line <= 0x1_0000_0000 && (forall|k: u32| k % 4 == 0
                && !in_burst(vb, old(c).words_per_line as nat, k) && old(c).line_no_of(k) != old(
                c,
            ).line_no_of(addr) ==> #[trigger] final(b).word(k) == old(b).word(k)),
        },
    {
    let ghost c0 = *c;
    let ghost b0 = *b;
    let ghost l = c.words_per_line as int;
    c.note_access();
    let d = c.decompose(addr);
    let found = c.locate(addr);
    proof {
        lemma_view_same_structure(&c0, c);
    }
    match found {
        Some(slot) => {
            let ghost ch = *c;
            c.write_into_line(slot, addr, val);
            proof {
                lemma_match_means_block(&ch, addr, slot as int);
                l1_write_other_blocks(ch, *c, slot as int, addr, b0);
                if c0.has_valid_line(addr) {
                    assert(ch.has_valid_line(addr));
                    assert(ch.line_slot(addr) == slot as int);
                    l1_write_word_proof(ch, *c, b0, addr, val);
                    assert forall|a: u32| a % 4 == 0 implies #[trigger] cview(c, b, a) == (
                    if a == addr {
                        val
                    } else {
                        cview(&c0, &b0, a)
                    }) by {
                        assert(cview(&ch, &b0, a) == cview(&c0, &b0, a)) by {
                            assert(ch.has_valid_line(a) == c0.has_valid_line(a));
                            if c0.has_valid_line(a) {
                                assert(c0.has_line(a));
                                assert(ch.stored_word(a) == c0.stored_word(a));
                            }
                        }
                    }
                }
                assert forall|a: u32| a % 4 == 0 && c0.line_no_of(a) != c0.line_no_of(addr)
                    implies #[trigger] cview(c, b, a) == cview(&c0, &b0, a) by {
                    assert(cview(&ch, &b0, a) == cview(&c0, &b0, a)) by {
                        assert(ch.has_valid_line(a) == c0.has_valid_line(a));
                        if c0.has_valid_line(a) {
                            assert(c0.has_line(a));
                            assert(ch.stored_word(a) == c0.stored_word(a));
                        }
                    }
                }
                if all_valid(&c0) {
                    assert forall|i: int| 0 <= i < c.lines.len() && c.lines[i] is Some implies
                        #[trigger] c.lines[i]->Some_0.valid by {
                        if i != slot as int {
                            assert(c.lines[i] == c0.lines[i]);
                        }
                    }
                }
            }
            (c.latency, None)
        },
        None => {
            c.note_miss();
            proof {
                lemma_view_same_structure(&c0, c);
            }
            let base = d.to_addr(c.words_per_line);
            proof {
                lemma_addr_from_line_off(l, addr);
                assert(base as int % (4 * l) == 0 && base as int / (4 * l) == c.line_no_of(addr))
                    by {
                    lemma_fundamental_div_mod_converse(c.line_no_of(addr) * (4 * l), 4 * l,
                        c.line_no_of(addr), 0);
                }
                assert(base % 4 == 0) by {
                    assert(c.line_no_of(addr) * (4 * l) == (c.line_no_of(addr) * l) * 4)
                        by (nonlinear_arith);
                    lemma_fundamental_div_mod_converse(base as int, 4, c.line_no_of(addr) * l, 0);
                }
                assert(base + 4 * l <= 0x1_0000_0000) by (nonlinear_arith)
                    requires
                        base as int == c.line_no_of(addr) * (4 * l),
                        (c.line_no_of(addr) + 1) * (4 * l) <= 0x1_0000_0000,
                ;
                lemma_same_line_base(l, addr, base);
                lemma_same_line(c, addr, base);
                assert forall|j: int| !(#[trigger] c.slot_matches(j, addr)) by {
                    if c.slot_matches(j, addr) {
                        assert(c.has_line(addr));
                    }
                }
                assert(!c.has_valid_line(addr));
                assert(!c.has_valid_line(base));
            }
            let victim = c.choose_victim(addr);
            let mut cycles: u64 = c.latency;
            let ghost cm = *c;
            let wb = c.victim_writeback(victim);
            let ghost flushed = wb is Some;
            let mut flushed_base: Option<u32> = None;
            match wb {
                Some((vb, wdata)) => {
                    proof {
                        assert(cm.line_ok(victim as int));
                        lemma_vbase_slice_ok(&cm, b, victim as int, vb);
                        assert(vb as int % (4 * cm.words_per_line as int) == 0) by {
                            lemma_fundamental_div_mod_converse(cm.slot_line_no(victim as int) * (4
                                * cm.words_per_line as int), 4 * cm.words_per_line as int,
                                cm.slot_line_no(victim as int), 0);
                        }
                    }
                    let fc = b.write_slice(vb, &wdata);
                    cycles = crate::ram::sat_add(cycles, fc);
                    flushed_base = Some(vb);
                },
                None => {},
            }
            let ghost bf = *b;
            proof {
                assert(b.slice_ok(base, c.words_per_line)) by {
                    lemma_base_slice_ok(c, b, base);
                }
            }
            let lv = b.read_slice(base, c.words_per_line);
            let v = lv.0;
            cycles = crate::ram::sat_add(cycles, lv.1);
            let datav = clone_words(&v);
            proof {
                lemma_same_line(c, addr, base);
            }
            c.fill_slot(victim, base, datav, false, true);
            proof {
                l1_miss_proof(c0, cm, *c, b0, bf, *b, victim as int, base, v@, flushed);
                lemma_same_line(c, addr, base);
                assert(c.has_valid_line(addr) && c.line_slot(addr) == victim as int);
            }
            let ghost ci = *c;
            c.write_into_line(victim, addr, val);
            proof {
                l1_write_word_proof(ci, *c, *b, addr, val);
                assert forall|a: u32| a % 4 == 0 implies #[trigger] cview(c, b, a) == (if a == addr {
                    val
                } else {
                    cview(&c0, &b0, a)
                }) by {
                    assert(cview(&ci, b, a) == cview(&c0, &b0, a));
                }
                if all_valid(&c0) {
                    assert forall|i: int| 0 <= i < c.lines.len() && c.lines[i] is Some implies
                        #[trigger] c.lines[i]->Some_0.valid by {
                        if i != victim as int {
                            assert(ci.lines[i] == cm.lines[i] && cm.lines[i] == c0.lines[i]);
                            assert(c.lines[i] == ci.lines[i]);
                        }
                    }
                }
            }
            (crate::ram::sat_add(cycles, 0), flushed_base)
        },
    }
}

/// A victim's block base is an acceptable slice transfer for the level
/// below.
proof fn lemma_vbase_slice_ok(cm: &Cache, b: &Below, victim: int, vb: u32)
    requires
        cm.wf(),
        b.wf(),
        compat(cm, b),
        0 <= victim < cm.lines.len(),
        cm.lines[victim] is Some,
        vb as int == cm.slot_line_no(victim) * (4 * cm.words_per_line as int),
    ensures
        b.slice_ok(vb, cm.words_per_line),
{
    match b {
        Below::Ram(_) => {},
        Below::Two { l2, ram: _ } => {
            lemma_fundamental_div_mod_converse(cm.slot_line_no(victim) * (4
                * cm.words_per_line as int), 4 * cm.words_per_line as int,
                cm.slot_line_no(victim), 0);
        },
    }
}

/// A block base of the first-level cache is an acceptable slice transfer
/// for the level below.
proof fn lemma_base_slice_ok(c: &Cache, b: &Below, base: u32)
    requires
        c.wf(),
        b.wf(),
        compat(c, b),
        base as int % (4 * c.words_per_line as int) == 0,
    ensures
        b.slice_ok(base, c.words_per_line),
{
}

/// Two addresses with equal line numbers, stated arithmetically for a block
/// base.
proof fn lemma_same_line_base(l: int, addr: u32, base: u32)
    requires
        l >= 1,
        base as int == (addr as int / (4 * l)) * (4 * l),
    ensures
        base as int / (4 * l) == addr as int / (4 * l),
{
    lemma_fundamental_div_mod_converse(base as int, 4 * l, addr as int / (4 * l), 0);
}

/// Sister caches share their geometry.
pub open spec fn sisters(d: &Cache, i: &Cache) -> bool {
    d.words_per_line == i.words_per_line && d.set_count == i.set_count && d.assoc == i.assoc
}

/// The only change between the two cache states is that some lines lost
/// their valid flag: tags, data, dirty bits and stamps are untouched, and
/// no line gained validity. This is the whole footprint sister
/// invalidation leaves.
pub open spec fn lines_only_invalidated(c0: &Cache, c1: &Cache) -> bool {
    &&& c1.lines.len() == c0.lines.len()
    &&& forall|j: int| 0 <= j < c0.lines.len() ==> (#[trigger] c1.lines[j] is Some
        == c0.lines[j] is Some && (c0.lines[j] is Some ==> {
        let l0 = c0.lines[j]->Some_0;
        let l1 = c1.lines[j]->Some_0;
        l1.tag == l0.tag && l1.dirty == l0.dirty && l1.data@ == l0.data@ && l1.last_access
            == l0.last_access && (l1.valid ==> l0.valid)
    }))
}

/// One sister invalidation leaves exactly that footprint.
proof fn lemma_invalidate_footprint(c0: &Cache, c1: &Cache, addr: u32)
    requires
        c0.wf(),
        c1.lines.len() == c0.lines.len(),
        forall|j: int| 0 <= j < c0.lines.len() && !c0.slot_matches(j, addr) ==> c1.lines[j]
            == #[trigger] c0.lines[j],
        forall|j: int| 0 <= j < c0.lines.len() && #[trigger] c0.slot_matches(j, addr)
            ==> c1.lines[j] is Some && {
            let l0 = c0.lines[j]->Some_0;
            let l1 = c1.lines[j]->Some_0;
            l1.tag == l0.tag && l1.dirty == l0.dirty && !l1.valid && l1.last_access
                == l0.last_access && l1.data@ == l0.data@
        },
    ensures
        lines_only_invalidated(c0, c1),
{
    assert forall|j: int| 0 <= j < c0.lines.len() implies (#[trigger] c1.lines[j] is Some
        == c0.lines[j] is Some && (c0.lines[j] is Some ==> {
        let l0 = c0.lines[j]->Some_0;
        let l1 = c1.lines[j]->Some_0;
        l1.tag == l0.tag && l1.dirty == l0.dirty && l1.data@ == l0.data@ && l1.last_access
            == l0.last_access && (l1.valid ==> l0.valid)
    })) by {
        if c0.slot_matches(j, addr) {
        } else {
            assert(c1.lines[j] == c0.lines[j]);
        }
    }
}

/// The footprint composes.
proof fn lemma_invalidate_footprint_trans(c0: &Cache, c1: &Cache, c2: &Cache)
    requires
        lines_only_invalidated(c0, c1),
        lines_only_invalidated(c1, c2),
    ensures
        lines_only_invalidated(c0, c2),
{
    assert forall|j: int| 0 <= j < c0.lines.len() implies (#[trigger] c2.lines[j] is Some
        == c0.lines[j] is Some && (c0.lines[j] is Some ==> {
        let l0 = c0.lines[j]->Some_0;
        let l2 = c2.lines[j]->Some_0;
        l2.tag == l0.tag && l2.dirty == l0.dirty && l2.data@ == l0.data@ && l2.last_access
            == l0.last_access && (l2.valid ==> l0.valid)
    })) by {
        assert(c1.lines[j] is Some == c0.lines[j] is Some);
        assert(c2.lines[j] is Some == c1.lines[j] is Some);
    }
}

/// After a sister cache's victim is flushed (its block burst-written below)
/// and this cache's copy of that block is invalidated, this cache's valid
/// clean lines still agree with the level below.
#[verifier::rlimit(60)]
proof fn lemma_sister_clean_after_flush(s0: Cache, s1: Cache, b0: Below, b1: Below, vb: u32)
    requires
        s0.wf(),
        s1.wf(),
        l1_clean_agree(&s0, &b0),
        s1.words_per_line == s0.words_per_line,
        s1.set_count == s0.set_count,
        s1.assoc == s0.assoc,
        s1.lines.len() == s0.lines.len(),
        vb % 4 == 0,
        vb as int % (4 * s0.words_per_line as int) == 0,
        vb + 4 * s0.words_per_line <= 0x1_0000_0000,
        forall|j: int| 0 <= j < s0.lines.len() && !s0.slot_matches(j, vb) ==> s1.lines[j]
            == #[trigger] s0.lines[j],
        forall|j: int| 0 <= j < s0.lines.len() && #[trigger] s0.slot_matches(j, vb)
            ==> s1.lines[j] is Some && !s1.lines[j]->Some_0.valid && s1.lines[j]->Some_0.tag
            == s0.lines[j]->Some_0.tag,
        forall|k: u32| k % 4 == 0 && !in_burst(vb, s0.words_per_line as nat, k) ==> #[trigger]
            b1.word(k) == b0.word(k),
    ensures
        l1_clean_agree(&s1, &b1),
{
    let l = s0.words_per_line as int;
    assert forall|a: u32| a % 4 == 0 && #[trigger] s1.has_valid_line(a)
        && !s1.lines[s1.line_slot(a)]->Some_0.dirty implies s1.stored_word(a) == b1.word(a) by {
        let j = s1.line_slot(a);
        assert(s1.slot_matches(j, a));
        assert(!s0.slot_matches(j, vb)) by {
            if s0.slot_matches(j, vb) {
                assert(!s1.lines[j]->Some_0.valid);
            }
        }
        assert(s1.lines[j] == s0.lines[j]);
        assert(s0.slot_matches(j, a));
        lemma_unique_match(&s0, a, j);
        assert(s0.has_valid_line(a) && s0.line_slot(a) == j);
        assert(s0.stored_word(a) == b0.word(a));
        assert(!in_burst(vb, l as nat, a)) by {
            lemma_aligned_burst_block(l, vb, a);
            if in_burst(vb, l as nat, a) {
                lemma_fundamental_div_mod(vb as int, 4 * l);
                lemma_same_line(&s0, a, vb);
                assert(s0.slot_matches(j, vb));
            }
        }
        assert(b1.word(a) == b0.word(a));
        assert(s1.stored_word(a) == s0.stored_word(a));
    }
}

/// Reads one data word through the data side of a split level: the
/// instruction cache is the sister; a victim written back has the sister's
/// copy invalidated. The data side's view of memory is unchanged and the
/// returned word is that view's.
pub fn split_read_data(d: &mut Cache, i: &mut Cache, b: &mut Below, addr: u32) -> (r: (u32, u64))
    requires
        old(d).wf(),
        old(i).wf(),
        old(b).wf(),
        l1_clean_agree(old(d), old(b)),
        compat(old(d), old(b)),
        compat(old(i), old(b)),
        sisters(old(d), old(i)),
        addr % 4 == 0,
    ensures
        final(d).wf(),
        final(i).wf(),
        final(b).wf(),
        l1_clean_agree(final(d), final(b)),
        compat(final(d), final(b)),
        compat(final(i), final(b)),
        sisters(final(d), final(i)),
        final(d).latency == old(d).latency,
        final(d).policy == old(d).policy,
        final(i).latency == old(i).latency,
        final(i).policy == old(i).policy,
        final(b).same_shape(old(b)),
        final(d).accesses == sat_add64(old(d).accesses, 1),
        final(d).misses == (if old(d).has_valid_line(addr) {
            old(d).misses
        } else {
            sat_add64(old(d).misses, 1)
        }),
        final(i).accesses == old(i).accesses,
        final(i).misses == old(i).misses,
        final(b).counters_geq(old(b)),
        forall|a: u32| a % 4 == 0 ==> #[trigger] cview(final(d), final(b), a) == cview(
            old(d),
            old(b),
            a,
        ),
        r.0 == cview(old(d), old(b), addr),
        // the accessed block is resident and valid in the data cache
        // afterwards, holding the returned word, freshly stamped; no other
        // data-cache slot moved
        final(d).has_valid_line(addr),
        final(d).stored_word(addr) == r.0,
        final(d).lines[final(d).line_slot(addr)]->Some_0.last_access == final(d).accesses,
        forall|j: int| 0 <= j < old(d).lines.len() && j != final(d).line_slot(addr)
            ==> final(d).lines[j] == #[trigger] old(d).lines[j],
        old(d).has_valid_line(addr) ==> r.1 == old(d).latency,
        match *old(b) {
            Below::Ram(r0) => !old(d).has_valid_line(addr) ==> (r.1 == sat_add64(
                old(d).latency,
                r0.latency_spec(),
            ) || r.1 == sat_add64(
                sat_add64(old(d).latency, r0.latency_spec()),
                r0.latency_spec(),
            )),
            Below::Two { .. } => true,
        },
        // the sister instruction cache only loses valid flags, and wherever
        // the level below changed (the victim's write-back), its copy is
        // invalid afterwards
        lines_only_invalidated(old(i), final(i)),
        forall|a: u32| a % 4 == 0 && #[trigger] final(b).word(a) != old(b).word(a)
            ==> !final(i).has_valid_line(a),
    {
    let ghost i0 = *i;
    let ghost b0 = *b;
    let rr = l1_read(d, b, addr);
    match rr.2 {
        Some(vb) => {
            i.invalidate_line(vb);
            proof {
                lemma_invalidate_footprint(&i0, i, vb);
                let l = old(d).words_per_line as int;
                assert forall|a: u32| a % 4 == 0 && #[trigger] b.word(a) != b0.word(a) implies
                    !i.has_valid_line(a) by {
                    assert(in_burst(vb, l as nat, a));
                    lemma_aligned_burst_block(l, vb, a);
                    lemma_same_line(i, vb, a);
                }
            }
        },
        None => {
            proof {
                assert(lines_only_invalidated(&i0, i));
            }
        },
    }
    (rr.0, rr.1)
}

/// Writes one data word through the data side of a split level. The sister
/// instruction cache's line for the written block is invalidated
/// unconditionally, so at most one of the two caches holds the block valid
/// afterwards; the data lands dirty in the data cache.
pub fn split_write_data(d: &mut Cache, i: &mut Cache, b: &mut Below, addr: u32, val: u32) -> (r:
    u64)
    requires
        old(d).wf(),
        old(i).wf(),
        old(b).wf(),
        l1_clean_agree(old(d), old(b)),
        compat(old(d), old(b)),
        compat(old(i), old(b)),
        sisters(old(d), old(i)),
        addr % 4 == 0,
    ensures
        final(d).wf(),
        final(i).wf(),
        final(b).wf(),
        l1_clean_agree(final(d), final(b)),
        compat(final(d), final(b)),
        compat(final(i), final(b)),
        sisters(final(d), final(i)),
        final(d).latency == old(d).latency,
        final(d).policy == old(d).policy,
        final(i).latency == old(i).latency,
        final(i).policy == old(i).policy,
        final(b).same_shape(old(b)),
        final(d).accesses == sat_add64(old(d).accesses, 1),
        final(d).misses == (if old(d).has_line(addr) {
            old(d).misses
        } else {
            sat_add64(old(d).misses, 1)
        }),
        final(i).accesses == old(i).accesses,
        final(i).misses == old(i).misses,
        final(b).counters_geq(old(b)),
        // the written word is held dirty by the data cache
        final(d).has_valid_line(addr),
        final(d).stored_word(addr) == val,
        final(d).lines[final(d).line_slot(addr)]->Some_0.dirty,
        final(d).lines[final(d).line_slot(addr)]->Some_0.last_access == final(d).accesses,
        forall|j: int| 0 <= j < old(d).lines.len() && j != final(d).line_slot(addr)
            ==> final(d).lines[j] == #[trigger] old(d).lines[j],
        old(d).has_line(addr) ==> r == old(d).latency,
        match *old(b) {
            Below::Ram(r0) => !old(d).has_line(addr) ==> (r == sat_add64(
                old(d).latency,
                r0.latency_spec(),
            ) || r == sat_add64(
                sat_add64(old(d).latency, r0.latency_spec()),
                r0.latency_spec(),
            )),
            Below::Two { .. } => true,
        },
        // sister invalidation: the instruction cache no longer holds the
        // block valid, and its lines only lose valid flags (data, dirty
        // bits and stamps stay); wherever the level below changed (the
        // victim's write-back), the sister's copy is invalid afterwards
        !final(i).has_valid_line(addr),
        lines_only_invalidated(old(i), final(i)),
        forall|a: u32| a % 4 == 0 && #[trigger] final(b).word(a) != old(b).word(a)
            ==> !final(i).has_valid_line(a),
        (old(d).has_line(addr) ==> old(d).has_valid_line(addr)) ==> (forall|a: u32| a % 4 == 0
            ==> #[trigger] cview(final(d), final(b), a) == (if a == addr {
            val
        } else {
            cview(old(d), old(b), a)
        })),
    {
    let ghost i0 = *i;
    let ghost b0 = *b;
    i.invalidate_line(addr);
    proof {
        lemma_invalidate_footprint(&i0, i, addr);
    }
    let ghost i1 = *i;
    let rr = l1_write(d, b, addr, val);
    match rr.1 {
        Some(vb) => {
            i.invalidate_line(vb);
            proof {
                assert(!i.has_valid_line(addr)) by {
                    if i.has_valid_line(addr) {
                        let j = i.line_slot(addr);
                        assert(i.slot_matches(j, addr));
                        assert(i1.slot_matches(j, addr) || !i1.slot_matches(j, addr));
                        if i1.slot_matches(j, addr) {
                            lemma_unique_match(&i1, addr, j);
                            assert(!i1.lines[j]->Some_0.valid);
                            assert(i.lines[j] == i1.lines[j]
                                || !i.lines[j]->Some_0.valid);
                        } else {
                            assert(i.lines[j] == i1.lines[j] || (i1.slot_matches(j, vb)
                                && i.lines[j]->Some_0.tag == i1.lines[j]->Some_0.tag));
                            assert(i1.slot_matches(j, addr));
                        }
                    }
                }
            }
            proof {
                lemma_invalidate_footprint(&i1, i, vb);
                lemma_invalidate_footprint_trans(&i0, &i1, i);
            }
        },
        None => {
            proof {
                assert(lines_only_invalidated(&i1, i));
                lemma_invalidate_footprint_trans(&i0, &i1, i);
            }
        },
    }
    proof {
        let l = old(d).words_per_line as int;
        assert forall|a: u32| a % 4 == 0 && #[trigger] b.word(a) != b0.word(a) implies
            !i.has_valid_line(a) by {
            match rr.1 {
                Some(vb) => {
                    if in_burst(vb, l as nat, a) {
                        lemma_aligned_burst_block(l, vb, a);
                        lemma_same_line(i, vb, a);
                    } else {
                        // the only other changed line is the written block
                        assert(old(d).line_no_of(a) == old(d).line_no_of(addr));
                        lemma_same_line(i, addr, a);
                    }
                },
                None => {
                    assert(old(d).line_no_of(a) == old(d).line_no_of(addr));
                    lemma_same_line(i, addr, a);
                },
            }
        }
    }
    rr.0
}

/// Fetches one instruction word through the instruction side of a split
/// level. A valid hit answers from the line. On a miss the sister data
/// cache is tried first: a line holding the block is copied in full, flags
/// included. Only then is the victim written back if owed (the sister's
/// copy of the victim block being invalidated) and the block loaded from
/// below.
pub fn split_read_instr(i: &mut Cache, d: &mut Cache, b: &mut Below, addr: u32) -> (r: (u32, u64))
    requires
        old(i).wf(),
        old(d).wf(),
        old(b).wf(),
        l1_clean_agree(old(d), old(b)),
        compat(old(d), old(b)),
        compat(old(i), old(b)),
        sisters(old(d), old(i)),
        addr % 4 == 0,
    ensures
        final(i).wf(),
        final(d).wf(),
        final(b).wf(),
        l1_clean_agree(final(d), final(b)),
        compat(final(d), final(b)),
        compat(final(i), final(b)),
        sisters(final(d), final(i)),
        final(i).latency == old(i).latency,
        final(i).policy == old(i).policy,
        final(d).latency == old(d).latency,
        final(d).policy == old(d).policy,
        final(b).same_shape(old(b)),
        final(i).accesses == sat_add64(old(i).accesses, 1),
        final(i).misses == (if old(i).has_valid_line(addr) {
            old(i).misses
        } else {
            sat_add64(old(i).misses, 1)
        }),
        final(d).accesses == old(d).accesses,
        final(d).misses == old(d).misses,
        final(b).counters_geq(old(b)),
        // what the fetch returns: the instruction cache's valid line, else
        // the sister's copy, else the level below
        r.0 == (if old(i).has_valid_line(addr) {
            old(i).stored_word(addr)
        } else if old(d).has_line(addr) {
            old(d).stored_word(addr)
        } else {
            old(b).word(addr)
        }),
        old(i).has_valid_line(addr) ==> r.1 == old(i).latency,
        match *old(b) {
            Below::Ram(r0) => (!old(i).has_valid_line(addr) && !old(d).has_line(addr)) ==> (r.1
                == sat_add64(old(i).latency, r0.latency_spec()) || r.1 == sat_add64(
                sat_add64(old(i).latency, r0.latency_spec()),
                r0.latency_spec(),
            )),
            Below::Two { .. } => true,
        },
        // the fetched block is resident afterwards, holding the returned
        // word, freshly stamped; no other instruction-cache slot moved
        final(i).has_line(addr),
        final(i).stored_word(addr) == r.0,
        final(i).lines[final(i).line_slot(addr)]->Some_0.last_access == final(i).accesses,
        forall|j: int| 0 <= j < old(i).lines.len() && j != final(i).line_slot(addr)
            ==> final(i).lines[j] == #[trigger] old(i).lines[j],
        (old(i).has_valid_line(addr) || !old(d).has_line(addr)) ==> final(i).has_valid_line(
            addr,
        ),
        // the sister path copies the line in full, flags included, touches
        // neither the data cache nor the level below, and costs one latency
        (!old(i).has_valid_line(addr) && old(d).has_line(addr)) ==> ({
            let dl = old(d).lines[old(d).line_slot(addr)]->Some_0;
            let il = final(i).lines[final(i).line_slot(addr)]->Some_0;
            il.data@ == dl.data@ && il.dirty == dl.dirty && il.valid == dl.valid && *final(d)
                == *old(d) && *final(b) == *old(b) && r.1 == old(i).latency
        }),
        // a write-back of the victim leaves the data cache's lines with
        // only valid flags cleared, and its copy of any changed address
        // invalid
        lines_only_invalidated(old(d), final(d)),
        forall|a: u32| a % 4 == 0 && #[trigger] final(b).word(a) != old(b).word(a)
            ==> !final(d).has_valid_line(a),
    {
    let ghost i0 = *i;
    let ghost d0 = *d;
    let ghost b0 = *b;
    let ghost l = i.words_per_line as int;
    i.note_access();
    let dx = i.decompose(addr);
    let base = dx.to_addr(i.words_per_line);
    proof {
        lemma_addr_from_line_off(l, addr);
        assert(base as int % (4 * l) == 0 && base as int / (4 * l) == i.line_no_of(addr)) by {
            lemma_fundamental_div_mod_converse(i.line_no_of(addr) * (4 * l), 4 * l,
                i.line_no_of(addr), 0);
        }
        assert(base % 4 == 0) by {
            assert(i.line_no_of(addr) * (4 * l) == (i.line_no_of(addr) * l) * 4)
                by (nonlinear_arith);
            lemma_fundamental_div_mod_converse(base as int, 4, i.line_no_of(addr) * l, 0);
        }
        assert(base + 4 * l <= 0x1_0000_0000) by (nonlinear_arith)
            requires
                base as int == i.line_no_of(addr) * (4 * l),
                (i.line_no_of(addr) + 1) * (4 * l) <= 0x1_0000_0000,
        ;
        lemma_same_line_base(l, addr, base);
    }
    let found = i.locate(addr);
    proof {
        lemma_view_same_structure(&i0, i);
    }
    let valid_hit = match found {
        Some(slot) => match &i.lines[slot] {
            Some(line) => line.valid,
            None => false,
        },
        None => false,
    };
    if valid_hit {
        let slot = match found {
            Some(slot) => slot,
            None => unreached(),
        };
        i.touch(slot);
        proof {
            lemma_view_same_structure(&i0, i);
            assert(i.slot_matches(slot as int, addr));
            lemma_unique_match(i, addr, slot as int);
        }
        let w = i.read_line_word(slot, dx.offset);
        proof {
            assert(i0.has_valid_line(addr) && i0.stored_word(addr) == w);
        }
        (w, i.latency)
    } else {
        i.note_miss();
        proof {
            lemma_view_same_structure(&i0, i);
            lemma_same_line(i, addr, base);
        }
        let victim = match found {
            Some(slot) => slot,
            None => i.choose_victim(addr),
        };
        proof {
            match found {
                Some(slot) => {
                    assert(i.slot_matches(slot as int, addr));
                    lemma_unique_match(i, addr, slot as int);
                },
                None => {
                    assert forall|j: int| !(#[trigger] i.slot_matches(j, addr)) by {
                        if i.slot_matches(j, addr) {
                            assert(i.has_line(addr));
                        }
                    }
                },
            }
            assert(forall|j: int| j != victim as int ==> !i.slot_matches(j, base));
            assert(i.set_of_slot(victim as int) == i.set_of(base));
        }
        // try the sister first
        let sis = d.locate(addr);
        match sis {
            Some(ds) => {
                let (data, sd, sv) = match &d.lines[ds] {
                    Some(line) => {
                        proof {
                            assert(d.line_ok(ds as int));
                        }
                        (clone_words(&line.data), line.dirty, line.valid)
                    },
                    None => unreached(),
                };
                proof {
                    lemma_same_line(d, addr, base);
                    lemma_same_line(i, addr, base);
                    assert(d.tag_of(base) == i.tag_of(base) && d.set_of(base) == i.set_of(base)
                        && d.off_of(addr) == i.off_of(addr)) by {
                        assert(d.line_no_of(base) == i.line_no_of(base));
                    }
                }
                i.fill_slot(victim, base, data, sd, sv);
                proof {
                    lemma_same_line(i, addr, base);
                    lemma_aligned_burst_block(l, base, addr);
                    assert((addr - base) / 4 == i.off_of(addr));
                    assert(addr == base + 4 * ((addr - base) / 4));
                    assert(d.off_of(addr) == i.off_of(addr));
                    assert(d0.has_line(addr) && d0.line_slot(addr) == ds as int);
                }
                let w = i.read_line_word(victim, dx.offset);
                (w, i.latency)
            },
            None => {
                let mut cycles: u64 = i.latency;
                let ghost cm = *i;
                let wb = i.victim_writeback(victim);
                let ghost flushed = wb is Some;
                let ghost d1 = *d;
                match wb {
                    Some((vb, wdata)) => {
                        proof {
                            assert(cm.line_ok(victim as int));
                            lemma_vbase_slice_ok(&cm, b, victim as int, vb);
                            assert(vb as int % (4 * cm.words_per_line as int) == 0) by {
                                lemma_fundamental_div_mod_converse(cm.slot_line_no(victim as int)
                                    * (4 * cm.words_per_line as int), 4
                                    * cm.words_per_line as int, cm.slot_line_no(victim as int),
                                    0);
                            }
                        }
                        d.invalidate_line(vb);
                        let fc = b.write_slice(vb, &wdata);
                        cycles = crate::ram::sat_add(cycles, fc);
                        proof {
                            lemma_sister_clean_after_flush(d1, *d, b0, *b, vb);
                        }
                    },
                    None => {},
                }
                let ghost bf = *b;
                proof {
                    assert(b.slice_ok(base, i.words_per_line)) by {
                        lemma_base_slice_ok(i, b, base);
                    }
                }
                let lv = b.read_slice(base, i.words_per_line);
                let v = lv.0;
                cycles = crate::ram::sat_add(cycles, lv.1);
                let datav = clone_words(&v);
                proof {
                    lemma_same_line(i, addr, base);
                }
                i.fill_slot(victim, base, datav, false, true);
                proof {
                    // the returned word is the old below view at `addr`
                    lemma_same_line(i, addr, base);
                    lemma_aligned_burst_block(l, base, addr);
                    assert((addr - base) / 4 == i.off_of(addr));
                    assert(addr == base + 4 * ((addr - base) / 4));
                    let off = i0.off_of(addr);
                    assert(v@[off] == bf.word((base + 4 * off) as u32));
                    if flushed {
                        let vln = cm.slot_line_no(victim as int);
                        let vbg = ((vln * (4 * l)) as u32);
                        assert(vln != i0.line_no_of(addr)) by {
                            if vln == i0.line_no_of(addr) {
                                lemma_block_means_match(&cm, victim as int, addr);
                                lemma_unique_match(&cm, addr, victim as int);
                                assert(cm.has_line(addr));
                                lemma_same_line(&cm, addr, base);
                                assert(false);
                            }
                        }
                        assert(cm.line_ok(victim as int));
                        assert(vbg as int == vln * (4 * l) && vbg as int % (4 * l) == 0 && vbg + 4
                            * l <= 0x1_0000_0000 && vbg as int / (4 * l) == vln) by {
                            assert((vln + 1) * (4 * l) == vln * (4 * l) + 4 * l)
                                by (nonlinear_arith);
                            assert(vln * (4 * l) >= 0) by (nonlinear_arith)
                                requires vln >= 0, l >= 1;
                            lemma_fundamental_div_mod_converse(vln * (4 * l), 4 * l, vln, 0);
                        }
                        lemma_aligned_burst_block(l, vbg, addr);
                        assert(!in_burst(vbg, l as nat, addr));
                        assert(bf.word(addr) == b0.word(addr));
                    } else {
                        assert(bf.word(addr) == b0.word(addr));
                    }
                    assert(!i0.has_valid_line(addr) && !d0.has_line(addr));
                    // any address the level below changed lies in the
                    // flushed victim block, whose sister copy was
                    // invalidated first
                    assert forall|a: u32| a % 4 == 0 && #[trigger] b.word(a) != b0.word(a)
                        implies !d.has_valid_line(a) by {
                        if flushed {
                            let vln2 = cm.slot_line_no(victim as int);
                            let vbg2 = ((vln2 * (4 * l)) as u32);
                            assert(cm.line_ok(victim as int));
                            assert(vbg2 as int == vln2 * (4 * l) && vbg2 as int % (4 * l) == 0
                                && vbg2 + 4 * l <= 0x1_0000_0000) by {
                                assert((vln2 + 1) * (4 * l) == vln2 * (4 * l) + 4 * l)
                                    by (nonlinear_arith);
                                assert(vln2 * (4 * l) >= 0) by (nonlinear_arith)
                                    requires vln2 >= 0, l >= 1;
                                lemma_fundamental_div_mod_converse(vln2 * (4 * l), 4 * l, vln2,
                                    0);
                            }
                            assert(in_burst(vbg2, l as nat, a));
                            lemma_aligned_burst_block(l, vbg2, a);
                            lemma_same_line(d, vbg2, a);
                        }
                    }
                }
                let w = i.read_line_word(victim, dx.offset);
                (w, cycles)
            },
        }
    }
}

/// The memory levels of one of the six fixed configurations.
pub enum Levels {
    /// Direct RAM, no cache.
    Flat { ram: Ram },
    /// One unified first-level cache serving both instruction and data
    /// accesses.
    Unified { l1: Cache, below: Below },
    /// Split first-level caches, sister-linked: the data side invalidates
    /// the instruction side's copies on writes and write-backs, and the
    /// instruction side may satisfy fetches from the data side.
    Split { d: Cache, i: Cache, below: Below },
}

/// The memory hierarchy the CPU drives, with its access-trace buffer.
pub struct Hierarchy {
    pub levels: Levels,
    /// Whether accesses are recorded.
    pub trace_on: bool,
    /// The recorded events, in dispatch order; a consumer outside the
    /// library drains them.
    pub trace: Vec<MemoryEvent>,
}

impl Hierarchy {
    /// Well-formedness of the whole hierarchy.
    pub open spec fn wf(&self) -> bool {
        match self.levels {
            Levels::Flat { ram: _ } => true,
            Levels::Unified { l1, below } => l1.wf() && below.wf() && l1_clean_agree(&l1, &below)
                && compat(&l1, &below) && all_valid(&l1),
            Levels::Split { d, i, below } => d.wf() && i.wf() && below.wf() && l1_clean_agree(
                &d,
                &below,
            ) && compat(&d, &below) && compat(&i, &below) && sisters(&d, &i),
        }
    }

    /// The data-side view of memory: what a data read of a word-aligned
    /// address returns.
    pub closed spec fn dview(&self, a: u32) -> u32 {
        match self.levels {
            Levels::Flat { ram } => word_at(ram.contents(), a),
            Levels::Unified { l1, below } => cview(&l1, &below, a),
            Levels::Split { d, i: _, below } => cview(&d, &below, a),
        }
    }

    /// The instruction-side view: the instruction cache's valid lines, then
    /// the sister's copies, then the level below.
    pub closed spec fn iview(&self, a: u32) -> u32 {
        match self.levels {
            Levels::Flat { ram } => word_at(ram.contents(), a),
            Levels::Unified { l1, below } => cview(&l1, &below, a),
            Levels::Split { d, i, below } => if i.has_valid_line(a) {
                i.stored_word(a)
            } else if d.has_line(a) {
                d.stored_word(a)
            } else {
                below.word(a)
            },
        }
    }

    /// Every cache of the hierarchy is empty (as the loader requires).
    pub open spec fn caches_empty(&self) -> bool {
        match self.levels {
            Levels::Flat { ram: _ } => true,
            Levels::Unified { l1, below } => cache_empty(&l1) && below_empty(&below),
            Levels::Split { d, i, below } => cache_empty(&d) && cache_empty(&i) && below_empty(
                &below,
            ),
        }
    }

    /// Which of the three level shapes this hierarchy has (the shape never
    /// changes across operations).
    pub open spec fn shape_of(&self) -> int {
        match self.levels {
            Levels::Flat { .. } => 0,
            Levels::Unified { .. } => 1,
            Levels::Split { .. } => 2,
        }
    }

    /// The line number a trace event records for an address: the
    /// first-level cache's line (the word index where the level is flat).
    pub open spec fn trace_line_of(&self, a: u32) -> int {
        match self.levels {
            Levels::Flat { .. } => a as int / 4,
            Levels::Unified { l1, .. } => a as int / (4 * l1.words_per_line as int),
            Levels::Split { d, .. } => a as int / (4 * d.words_per_line as int),
        }
    }

    /// The two cycle totals a miss over plain RAM can cost: latency plus
    /// the block load, with or without a victim write-back first.
    pub open spec fn miss_cost_over_ram(cyc: u64, lat: u64, ram_lat: u64) -> bool {
        cyc == sat_add64(lat, ram_lat) || cyc == sat_add64(sat_add64(lat, ram_lat), ram_lat)
    }

    /// RAM's access counter.
    pub open spec fn ram_count(&self) -> u64 {
        match self.levels {
            Levels::Flat { ram } => ram.accesses_spec(),
            Levels::Unified { l1: _, below } => below_ram_count(&below),
            Levels::Split { d: _, i: _, below } => below_ram_count(&below),
        }
    }

    /// The hierarchy a configuration index names: the level shapes,
    /// geometries, policies and latencies of the configuration table, over
    /// RAM costing 100 cycles.
    pub open spec fn matches_configuration(&self, conf: u32) -> bool {
        match self.levels {
            Levels::Flat { ram } => conf == 1 && ram.latency_spec() == 100,
            Levels::Unified { l1, below } => conf == 2 && cache_geom(
                &l1,
                8,
                32,
                1,
                RepPolicy::Random,
                1,
            ) && below_is_ram(&below, 100),
            Levels::Split { d, i, below } => {
                ||| (conf == 3 && cache_geom(&d, 8, 16, 1, RepPolicy::Random, 1) && cache_geom(
                    &i,
                    8,
                    16,
                    1,
                    RepPolicy::Random,
                    1,
                ) && below_is_ram(&below, 100))
                ||| (conf == 4 && cache_geom(&d, 8, 16, 1, RepPolicy::LeastRecentlyUsed, 1)
                    && cache_geom(&i, 8, 16, 1, RepPolicy::LeastRecentlyUsed, 1) && below_is_ram(
                    &below,
                    100,
                ))
                ||| (conf == 5 && cache_geom(&d, 8, 4, 4, RepPolicy::LeastRecentlyUsed, 1)
                    && cache_geom(&i, 8, 4, 4, RepPolicy::LeastRecentlyUsed, 1) && below_is_ram(
                    &below,
                    100,
                ))
                ||| (conf == 6 && cache_geom(&d, 16, 2, 4, RepPolicy::LeastRecentlyUsed, 1)
                    && cache_geom(&i, 16, 2, 4, RepPolicy::LeastRecentlyUsed, 1) && (
                match below {
                    Below::Two { l2, ram } => cache_geom(
                        &l2,
                        16,
                        4,
                        8,
                        RepPolicy::LeastRecentlyUsed,
                        10,
                    ) && ram.latency_spec() == 100,
                    Below::Ram(_) => false,
                }))
            },
        }
    }

    /// The instruction cache holds a valid line for `a` (false where the
    /// level is not split).
    pub closed spec fn icache_holds(&self, a: u32) -> bool {
        match self.levels {
            Levels::Split { d: _, i, below: _ } => i.has_valid_line(a),
            _ => false,
        }
    }
}

/// One cache's geometry, policy and latency, as the configuration table
/// fixes them.
pub open spec fn cache_geom(c: &Cache, l: int, s: int, a: int, policy: RepPolicy, lat: int) -> bool {
    &&& c.words_per_line == l
    &&& c.set_count == s
    &&& c.assoc == a
    &&& c.policy == policy
    &&& c.latency == lat
}

/// The level below is plain RAM with the given latency.
pub open spec fn below_is_ram(b: &Below, lat: int) -> bool {
    match b {
        Below::Ram(r) => r.latency_spec() == lat,
        Below::Two { .. } => false,
    }
}

/// RAM's access counter, wherever RAM sits under the level.
pub open spec fn below_ram_count(b: &Below) -> u64 {
    match b {
        Below::Ram(r) => r.accesses_spec(),
        Below::Two { l2: _, ram } => ram.accesses_spec(),
    }
}

/// A cache with no stored lines.
pub open spec fn cache_empty(c: &Cache) -> bool {
    forall|j: int| 0 <= j < c.lines.len() ==> c.lines[j] is None
}

/// The level below holds no cached lines either.
pub open spec fn below_empty(b: &Below) -> bool {
    match b {
        Below::Ram(_) => true,
        Below::Two { l2, ram: _ } => cache_empty(l2),
    }
}

impl Hierarchy {
    /// Builds one of the six fixed memory configurations. RAM costs 100
    /// cycles; the caches' geometry, policy and latency follow the
    /// configuration table. Unknown indices are a configuration error.
    pub fn build(conf: u32, trace_on: bool) -> (r: Result<Hierarchy, EmuError>)
        ensures
            match r {
                Ok(h) => 1 <= conf <= 6 && h.wf() && h.caches_empty() && h.trace@.len() == 0
                    && h.trace_on == trace_on && h.matches_configuration(conf) && h.ram_count()
                    == 0 && (match h.levels {
                    Levels::Flat { .. } => true,
                    Levels::Unified { l1, .. } => l1.accesses == 0 && l1.misses == 0,
                    Levels::Split { d, i, below } => d.accesses == 0 && d.misses == 0 && i.accesses
                        == 0 && i.misses == 0 && (match below {
                        Below::Two { l2, .. } => l2.accesses == 0 && l2.misses == 0,
                        Below::Ram(_) => true,
                    }),
                }),
                Err(e) => !(1 <= conf <= 6) && e == (EmuError::Configuration { conf }),
            },
    {
        let levels = match conf {
            1 => Levels::Flat { ram: Ram::new(100) },
            2 => Levels::Unified {
                l1: Cache::new(8, 32, 1, RepPolicy::Random, 1),
                below: Below::Ram(Ram::new(100)),
            },
            3 => Levels::Split {
                d: Cache::new(8, 16, 1, RepPolicy::Random, 1),
                i: Cache::new(8, 16, 1, RepPolicy::Random, 1),
                below: Below::Ram(Ram::new(100)),
            },
            4 => Levels::Split {
                d: Cache::new(8, 16, 1, RepPolicy::LeastRecentlyUsed, 1),
                i: Cache::new(8, 16, 1, RepPolicy::LeastRecentlyUsed, 1),
                below: Below::Ram(Ram::new(100)),
            },
            5 => Levels::Split {
                d: Cache::new(8, 4, 4, RepPolicy::LeastRecentlyUsed, 1),
                i: Cache::new(8, 4, 4, RepPolicy::LeastRecentlyUsed, 1),
                below: Below::Ram(Ram::new(100)),
            },
            6 => Levels::Split {
                d: Cache::new(16, 2, 4, RepPolicy::LeastRecentlyUsed, 1),
                i: Cache::new(16, 2, 4, RepPolicy::LeastRecentlyUsed, 1),
                below: Below::Two {
                    l2: Cache::new(16, 4, 8, RepPolicy::LeastRecentlyUsed, 10),
                    ram: Ram::new(100),
                },
            },
            _ => {
                return Err(EmuError::Configuration { conf });
            },
        };
        Ok(Hierarchy { levels, trace_on, trace: Vec::new() })
    }

    /// Seeds RAM with a segment, beneath any caches. The caches must still
    /// be empty, so the view of memory is updated directly.
    pub fn load_segment(&mut self, addr: u32, data: &Vec<u32>) -> (r: Result<(), EmuError>)
        requires
            old(self).wf(),
            old(self).caches_empty(),
            addr + 4 * data.len() <= 0x1_0000_0000,
        ensures
            final(self).wf(),
            final(self).caches_empty(),
            final(self).trace == old(self).trace,
            final(self).trace_on == old(self).trace_on,
            forall|c: u32| final(self).matches_configuration(c) == #[trigger] old(
                self,
            ).matches_configuration(c),
            match r {
                Ok(()) => addr % 4 == 0 && (forall|a: u32| a % 4 == 0
                    ==> #[trigger] final(self).dview(a) == (if in_burst(
                    addr,
                    data.len() as nat,
                    a,
                ) {
                    data@[(a - addr) / 4]
                } else {
                    old(self).dview(a)
                })),
                Err(e) => addr % 4 != 0 && e == (EmuError::Alignment { addr }),
            },
    {
        if addr % 4 != 0 {
            return Err(EmuError::Alignment { addr });
        }
        match &mut self.levels {
            Levels::Flat { ram } => {
                let rr = match ram.write_slice(addr, data) {
                    Ok(c) => c,
                    Err(_) => unreached(),
                };
            },
            Levels::Unified { l1, below } => {
                below_load(below, addr, data);
                proof {
                    lemma_empty_view(l1, below);
                }
            },
            Levels::Split { d, i, below } => {
                below_load(below, addr, data);
                proof {
                    lemma_empty_view(d, below);
                }
            },
        }
        Ok(())
    }

    /// Resets RAM's access counter, so loading does not pollute statistics.
    pub fn reset_ram_stats(&mut self)
        requires
            old(self).wf(),
        ensures
            final(self).wf(),
            final(self).ram_count() == 0,
            forall|c: u32| final(self).matches_configuration(c) == #[trigger] old(
                self,
            ).matches_configuration(c),
            match (old(self).levels, final(self).levels) {
                (Levels::Flat { .. }, Levels::Flat { .. }) => true,
                (Levels::Unified { l1: c0, .. }, Levels::Unified { l1: c1, .. }) => c1 == c0,
                (
                    Levels::Split { d: d0, i: i0, .. },
                    Levels::Split { d: d1, i: i1, .. },
                ) => d1 == d0 && i1 == i0,
                _ => false,
            },
            final(self).caches_empty() == old(self).caches_empty(),
            forall|a: u32| a % 4 == 0 ==> #[trigger] final(self).dview(a) == old(self).dview(a),
            forall|a: u32| a % 4 == 0 ==> #[trigger] final(self).iview(a) == old(self).iview(a),
            final(self).trace == old(self).trace,
            final(self).trace_on == old(self).trace_on,
    {
        match &mut self.levels {
            Levels::Flat { ram } => ram.reset_stats(),
            Levels::Unified { l1: _, below } => below_reset(below),
            Levels::Split { d: _, i: _, below } => below_reset(below),
        }
    }

    /// Drains the recorded trace events.
    pub fn take_trace(&mut self) -> (r: Vec<MemoryEvent>)
        ensures
            r == old(self).trace,
            final(self).trace@.len() == 0,
            final(self).levels == old(self).levels,
            final(self).trace_on == old(self).trace_on,
    {
        let mut t: Vec<MemoryEvent> = Vec::new();
        core::mem::swap(&mut t, &mut self.trace);
        t
    }

    /// Reads the data word at `addr`, returning it with the cycles spent.
    /// The value is the data-side view of memory, and that view does not
    /// change.
    pub fn read_word(&mut self, addr: u32) -> (r: Result<(u32, u64), EmuError>)
        requires
            old(self).wf(),
        ensures
            final(self).wf(),
            final(self).trace_on == old(self).trace_on,
            final(self).shape_of() == old(self).shape_of(),
            final(self).levels is Split == old(self).levels is Split,
            final(self).levels is Flat == old(self).levels is Flat,
            final(self).levels is Unified == old(self).levels is Unified,
            match r {
                Ok((v, cyc)) => addr % 4 == 0 && v == old(self).dview(addr) && (forall|a: u32| a
                    % 4 == 0 ==> #[trigger] final(self).dview(a) == old(self).dview(a)) && final(self).trace@ == (if old(self).trace_on {
                    old(self).trace@.push(
                        MemoryEvent::DataRead(addr, old(self).trace_line_of(addr) as u64),
                    )
                } else {
                    old(self).trace@
                }) && (match old(self).levels {
                    Levels::Flat { ram } => cyc == ram.latency_spec(),
                    Levels::Unified { l1, below } => (l1.has_valid_line(addr) ==> cyc
                        == l1.latency) && (match below {
                        Below::Ram(r0) => !l1.has_valid_line(addr)
                            ==> Hierarchy::miss_cost_over_ram(cyc, l1.latency, r0.latency_spec()),
                        Below::Two { .. } => true,
                    }),
                    Levels::Split { d, i: _, below } => (d.has_valid_line(addr) ==> cyc
                        == d.latency) && (match below {
                        Below::Ram(r0) => !d.has_valid_line(addr)
                            ==> Hierarchy::miss_cost_over_ram(cyc, d.latency, r0.latency_spec()),
                        Below::Two { .. } => true,
                    }),
                }) && (match (old(self).levels, final(self).levels) {
                    (Levels::Flat { .. }, Levels::Flat { .. }) => true,
                    (
                        Levels::Unified { l1: c0, .. },
                        Levels::Unified { l1: c1, .. },
                    ) => c1.has_valid_line(addr) && c1.accesses == sat_add64(c0.accesses, 1)
                        && c1.misses == (if c0.has_valid_line(addr) {
                        c0.misses
                    } else {
                        sat_add64(c0.misses, 1)
                    }),
                    (
                        Levels::Split { d: d0, i: i0, .. },
                        Levels::Split { d: d1, i: i1, .. },
                    ) => d1.has_valid_line(addr) && d1.accesses == sat_add64(d0.accesses, 1)
                        && d1.misses == (if d0.has_valid_line(addr) {
                        d0.misses
                    } else {
                        sat_add64(d0.misses, 1)
                    }) && i1.accesses == i0.accesses && i1.misses == i0.misses,
                    _ => false,
                }),
                Err(e) => addr % 4 != 0 && e == (EmuError::Alignment { addr }) && *final(self)
                    == *old(self),
            },
    {
        if addr % 4 != 0 {
            return Err(EmuError::Alignment { addr });
        }
        let (v, cycles, ln) = match &mut self.levels {
            Levels::Flat { ram } => {
                let rr = match ram.read_word(addr) {
                    Ok(x) => x,
                    Err(_) => unreached(),
                };
                (rr.0, rr.1, addr as u64 / 4)
            },
            Levels::Unified { l1, below } => {
                let ln = addr as u64 / (4 * l1.words_per_line as u64);
                let rr = l1_read(l1, below, addr);
                (rr.0, rr.1, ln)
            },
            Levels::Split { d, i, below } => {
                let ln = addr as u64 / (4 * d.words_per_line as u64);
                let rr = split_read_data(d, i, below, addr);
                (rr.0, rr.1, ln)
            },
        };
        if self.trace_on {
            self.trace.push(MemoryEvent::DataRead(addr, ln));
        }
        Ok((v, cycles))
    }

    /// Fetches the instruction word at `addr`, returning it with the cycles
    /// spent. The value is the instruction-side view of memory.
    pub fn read_instruction(&mut self, addr: u32) -> (r: Result<(u32, u64), EmuError>)
        requires
            old(self).wf(),
        ensures
            final(self).wf(),
            final(self).trace_on == old(self).trace_on,
            final(self).shape_of() == old(self).shape_of(),
            final(self).levels is Split == old(self).levels is Split,
            final(self).levels is Flat == old(self).levels is Flat,
            final(self).levels is Unified == old(self).levels is Unified,
            match r {
                Ok((v, cyc)) => addr % 4 == 0 && v == old(self).iview(addr)
                    && (!(old(self).levels is Split) ==> (forall|a: u32| a % 4 == 0
                    ==> #[trigger] final(self).dview(a) == old(self).dview(a))) && final(self).trace@ == (if old(self).trace_on {
                    old(self).trace@.push(
                        MemoryEvent::InstrRead(addr, old(self).trace_line_of(addr) as u64),
                    )
                } else {
                    old(self).trace@
                }) && (match old(self).levels {
                    Levels::Flat { ram } => cyc == ram.latency_spec(),
                    Levels::Unified { l1, below } => (l1.has_valid_line(addr) ==> cyc
                        == l1.latency) && (match below {
                        Below::Ram(r0) => !l1.has_valid_line(addr)
                            ==> Hierarchy::miss_cost_over_ram(cyc, l1.latency, r0.latency_spec()),
                        Below::Two { .. } => true,
                    }),
                    Levels::Split { d, i, below } => ((i.has_valid_line(addr) || d.has_line(addr))
                        ==> cyc == i.latency) && (match below {
                        Below::Ram(r0) => (!i.has_valid_line(addr) && !d.has_line(addr))
                            ==> Hierarchy::miss_cost_over_ram(cyc, i.latency, r0.latency_spec()),
                        Below::Two { .. } => true,
                    }),
                }) && (match (old(self).levels, final(self).levels) {
                    (Levels::Flat { .. }, Levels::Flat { .. }) => true,
                    (
                        Levels::Unified { l1: c0, .. },
                        Levels::Unified { l1: c1, .. },
                    ) => c1.has_valid_line(addr) && c1.accesses == sat_add64(c0.accesses, 1)
                        && c1.misses == (if c0.has_valid_line(addr) {
                        c0.misses
                    } else {
                        sat_add64(c0.misses, 1)
                    }),
                    (
                        Levels::Split { d: d0, i: i0, .. },
                        Levels::Split { d: d1, i: i1, .. },
                    ) => i1.accesses == sat_add64(i0.accesses, 1) && i1.misses == (
                    if i0.has_valid_line(addr) {
                        i0.misses
                    } else {
                        sat_add64(i0.misses, 1)
                    }) && d1.accesses == d0.accesses && d1.misses == d0.misses,
                    _ => false,
                }),
                Err(e) => addr % 4 != 0 && e == (EmuError::Alignment { addr }) && *final(self)
                    == *old(self),
            },
    {
        if addr % 4 != 0 {
            return Err(EmuError::Alignment { addr });
        }
        let (v, cycles, ln) = match &mut self.levels {
            Levels::Flat { ram } => {
                let rr = match ram.read_word(addr) {
                    Ok(x) => x,
                    Err(_) => unreached(),
                };
                (rr.0, rr.1, addr as u64 / 4)
            },
            Levels::Unified { l1, below } => {
                let ln = addr as u64 / (4 * l1.words_per_line as u64);
                let rr = l1_read(l1, below, addr);
                (rr.0, rr.1, ln)
            },
            Levels::Split { d, i, below } => {
                let ln = addr as u64 / (4 * i.words_per_line as u64);
                let rr = split_read_instr(i, d, below, addr);
                (rr.0, rr.1, ln)
            },
        };
        if self.trace_on {
            self.trace.push(MemoryEvent::InstrRead(addr, ln));
        }
        Ok((v, cycles))
    }

    /// Writes the data word at `addr`. Afterwards the data-side view holds
    /// `val` there; in a split level the sister instruction cache no longer
    /// holds the block valid. Where the level is flat or unified (or the
    /// written block was not lingering invalid in the data cache), every
    /// other address keeps its view.
    pub fn write_word(&mut self, addr: u32, val: u32) -> (r: Result<u64, EmuError>)
        requires
            old(self).wf(),
        ensures
            final(self).wf(),
            final(self).trace_on == old(self).trace_on,
            final(self).shape_of() == old(self).shape_of(),
            final(self).levels is Split == old(self).levels is Split,
            final(self).levels is Flat == old(self).levels is Flat,
            final(self).levels is Unified == old(self).levels is Unified,
            match r {
                Ok(_) => addr % 4 == 0 && final(self).dview(addr) == val
                    && !final(self).icache_holds(addr) && ((old(self).levels is Flat || old(
                    self,
                ).levels is Unified) ==> (forall|a: u32| a % 4 == 0
                    ==> #[trigger] final(self).dview(a) == (if a == addr {
                    val
                } else {
                    old(self).dview(a)
                }))) && final(self).trace@ == (if old(self).trace_on {
                    old(self).trace@.push(
                        MemoryEvent::Write(addr, old(self).trace_line_of(addr) as u64),
                    )
                } else {
                    old(self).trace@
                }) && (match old(self).levels {
                    Levels::Flat { ram } => r matches Ok(cyc) && cyc == ram.latency_spec(),
                    Levels::Unified { l1, below } => r matches Ok(cyc) && (l1.has_line(addr)
                        ==> cyc == l1.latency) && (match below {
                        Below::Ram(r0) => !l1.has_line(addr) ==> Hierarchy::miss_cost_over_ram(
                            cyc,
                            l1.latency,
                            r0.latency_spec(),
                        ),
                        Below::Two { .. } => true,
                    }),
                    Levels::Split { d, i: _, below } => r matches Ok(cyc) && (d.has_line(addr)
                        ==> cyc == d.latency) && (match below {
                        Below::Ram(r0) => !d.has_line(addr) ==> Hierarchy::miss_cost_over_ram(
                            cyc,
                            d.latency,
                            r0.latency_spec(),
                        ),
                        Below::Two { .. } => true,
                    }),
                }) && (match (old(self).levels, final(self).levels) {
                    (Levels::Flat { .. }, Levels::Flat { .. }) => true,
                    (
                        Levels::Unified { l1: c0, .. },
                        Levels::Unified { l1: c1, .. },
                    ) => c1.has_valid_line(addr) && c1.accesses == sat_add64(c0.accesses, 1)
                        && c1.misses == (if c0.has_line(addr) {
                        c0.misses
                    } else {
                        sat_add64(c0.misses, 1)
                    }),
                    (
                        Levels::Split { d: d0, i: i0, .. },
                        Levels::Split { d: d1, i: i1, .. },
                    ) => d1.has_valid_line(addr) && d1.accesses == sat_add64(d0.accesses, 1)
                        && d1.misses == (if d0.has_line(addr) {
                        d0.misses
                    } else {
                        sat_add64(d0.misses, 1)
                    }) && i1.accesses == i0.accesses && i1.misses == i0.misses,
                    _ => false,
                }),
                Err(e) => addr % 4 != 0 && e == (EmuError::Alignment { addr }) && *final(self)
                    == *old(self),
            },
    {
        if addr % 4 != 0 {
            return Err(EmuError::Alignment { addr });
        }
        let (cycles, ln) = match &mut self.levels {
            Levels::Flat { ram } => {
                let c = match ram.write_word(addr, val) {
                    Ok(x) => x,
                    Err(_) => unreached(),
                };
                (c, addr as u64 / 4)
            },
            Levels::Unified { l1, below } => {
                let ln = addr as u64 / (4 * l1.words_per_line as u64);
                proof {
                    if l1.has_line(addr) {
                        let j = l1.line_slot(addr);
                        assert(l1.slot_matches(j, addr));
                        assert(l1.lines[j]->Some_0.valid);
                    }
                }
                let rr = l1_write(l1, below, addr, val);
                (rr.0, ln)
            },
            Levels::Split { d, i, below } => {
                let ln = addr as u64 / (4 * d.words_per_line as u64);
                let c = split_write_data(d, i, below, addr, val);
                (c, ln)
            },
        };
        if self.trace_on {
            self.trace.push(MemoryEvent::Write(addr, ln));
        }
        Ok(cycles)
    }

    /// The hit, miss and access counts of the data-side first-level cache,
    /// where the configuration has one.
    pub fn data_cache_stats(&self) -> (r: Option<(u64, u64, u64)>)
        requires
            self.wf(),
        ensures
            match self.levels {
                Levels::Flat { ram: _ } => r is None,
                Levels::Unified { l1, below: _ } => r == Some(
                    ((l1.hits() as u64, l1.misses, l1.accesses)),
                ),
                Levels::Split { d, i: _, below: _ } => r == Some(
                    ((d.hits() as u64, d.misses, d.accesses)),
                ),
            },
    {
        match &self.levels {
            Levels::Flat { ram: _ } => None,
            Levels::Unified { l1, below: _ } => Some(l1.stats()),
            Levels::Split { d, i: _, below: _ } => Some(d.stats()),
        }
    }

    /// The hit, miss and access counts of the instruction-side first-level
    /// cache, where the level is split.
    pub fn instr_cache_stats(&self) -> (r: Option<(u64, u64, u64)>)
        requires
            self.wf(),
        ensures
            match self.levels {
                Levels::Split { d: _, i, below: _ } => r == Some(
                    ((i.hits() as u64, i.misses, i.accesses)),
                ),
                _ => r is None,
            },
    {
        match &self.levels {
            Levels::Split { d: _, i, below: _ } => Some(i.stats()),
            _ => None,
        }
    }

    /// The hit, miss and access counts of the unified second-level cache,
    /// where the configuration has one.
    pub fn l2_cache_stats(&self) -> (r: Option<(u64, u64, u64)>)
        requires
            self.wf(),
        ensures
            match self.levels {
                Levels::Unified { l1: _, below: Below::Two { l2, ram: _ } } => r == Some(
                    ((l2.hits() as u64, l2.misses, l2.accesses)),
                ),
                Levels::Split { d: _, i: _, below: Below::Two { l2, ram: _ } } => r == Some(
                    ((l2.hits() as u64, l2.misses, l2.accesses)),
                ),
                _ => r is None,
            },
    {
        match &self.levels {
            Levels::Unified { l1: _, below: Below::Two { l2, ram: _ } } => Some(l2.stats()),
            Levels::Split { d: _, i: _, below: Below::Two { l2, ram: _ } } => Some(l2.stats()),
            _ => None,
        }
    }

    /// How many accesses RAM has served.
    pub fn ram_accesses(&self) -> (r: u64)
        ensures
            r == self.ram_count(),
    {
        match &self.levels {
            Levels::Flat { ram } => ram.accesses(),
            Levels::Unified { l1: _, below } => below_ram_accesses(below),
            Levels::Split { d: _, i: _, below } => below_ram_accesses(below),
        }
    }
}

/// An empty cache holds nothing: the pair's view is the level below's, and
/// clean agreement is vacuous.
proof fn lemma_empty_view(c: &Cache, b: &Below)
    requires
        cache_empty(c),
    ensures
        forall|a: u32| !(#[trigger] c.has_valid_line(a)),
        l1_clean_agree(c, b),
        forall|a: u32| a % 4 == 0 ==> #[trigger] cview(c, b, a) == b.word(a),
{
    assert forall|a: u32| !(#[trigger] c.has_valid_line(a)) by {
        if c.has_line(a) {
            let j = c.line_slot(a);
            assert(c.slot_matches(j, a));
            assert(c.lines[j] is None);
        }
    }
}

/// Byte `off` of a word, little-endian.
pub open spec fn byte_of(w: u32, off: int) -> u8
    recommends
        0 <= off < 4,
{
    ((w >> (8 * off) as u32) & 0xFF) as u8
}

/// The NUL-terminated byte string in the data-side view, read by words from
/// the word-aligned `addr` starting at byte `off`; `None` if the address
/// space ends before a NUL byte does.
pub open spec fn cstring_spec(h: &Hierarchy, addr: u32, off: int) -> Option<Seq<u8>>
    recommends
        addr % 4 == 0,
        0 <= off <= 4,
    decreases 0x1_0000_0000 - addr, 4 - off,
    when 0 <= off <= 4 && addr % 4 == 0
{
    if off >= 4 {
        if addr >= 0xFFFF_FFFC {
            None
        } else {
            cstring_spec(h, (addr + 4) as u32, 0)
        }
    } else {
        let b = byte_of(h.dview(addr), off);
        if b == 0 {
            Some(Seq::empty())
        } else {
            match cstring_spec(h, addr, off + 1) {
                Some(t) => Some(seq![b] + t),
                None => None,
            }
        }
    }
}

/// Hierarchies with the same data-side view hold the same byte strings.
pub proof fn lemma_cstring_congruence(h1: &Hierarchy, h2: &Hierarchy, addr: u32, off: int)
    requires
        addr % 4 == 0,
        0 <= off <= 4,
        forall|a: u32| a % 4 == 0 ==> #[trigger] h1.dview(a) == h2.dview(a),
    ensures
        cstring_spec(h1, addr, off) == cstring_spec(h2, addr, off),
    decreases 0x1_0000_0000 - addr, 4 - off,
{
    if off >= 4 {
        if addr < 0xFFFF_FFFC {
            lemma_cstring_congruence(h1, h2, (addr + 4) as u32, 0);
        }
    } else {
        assert(h1.dview(addr) == h2.dview(addr));
        lemma_cstring_congruence(h1, h2, addr, off + 1);
    }
}

/// Gathers the NUL-terminated byte string starting at `addr` (any
/// alignment), reading word by word through the data side and summing the
/// cycles. Fails only if the address space ends before a NUL byte.
pub fn read_c_string(h: &mut Hierarchy, addr: u32) -> (r: Result<(Vec<u8>, u64), EmuError>)
    requires
        old(h).wf(),
    ensures
        final(h).wf(),
        final(h).trace_on == old(h).trace_on,
        forall|a: u32| a % 4 == 0 ==> #[trigger] final(h).dview(a) == old(h).dview(a),
        match r {
            Ok((bs, _)) => cstring_spec(old(h), addr & 0xFFFF_FFFC, (addr % 4) as int) == Some(
                bs@,
            ),
            Err(e) => e == EmuError::Io && cstring_spec(
                old(h),
                addr & 0xFFFF_FFFC,
                (addr % 4) as int,
            ) is None,
        },
{
    let base: u32 = addr & 0xFFFF_FFFC;
    let boff: u32 = addr % 4;
    proof {
        assert((addr & 0xFFFF_FFFC) % 4 == 0 && addr % 4 < 4 && ((addr & 0xFFFF_FFFC) | (addr
            % 4)) == addr) by (bit_vector);
    }
    let mut cur: u32 = base;
    let mut off: u32 = boff;
    let mut acc: Vec<u8> = Vec::new();
    let mut cycles: u64 = 0;
    loop
        invariant
            h.wf(),
            h.trace_on == old(h).trace_on,
            forall|a: u32| a % 4 == 0 ==> #[trigger] h.dview(a) == old(h).dview(a),
            cur % 4 == 0,
            off < 4,
            base == (addr & 0xFFFF_FFFC),
            boff == addr % 4,
            base % 4 == 0,
            boff < 4,
            match cstring_spec(old(h), cur, off as int) {
                Some(t) => cstring_spec(old(h), base, boff as int) == Some(acc@ + t),
                None => cstring_spec(old(h), base, boff as int) is None,
            },
        decreases 0x1_0000_0000 - cur, 4 - off,
    {
        let (w, c) = match h.read_word(cur) {
            Ok(x) => x,
            Err(_) => unreached(),
        };
        cycles = crate::ram::sat_add(cycles, c);
        let mut o = off;
        while o < 4
            invariant
                h.wf(),
                h.trace_on == old(h).trace_on,
                forall|a: u32| a % 4 == 0 ==> #[trigger] h.dview(a) == old(h).dview(a),
                cur % 4 == 0,
                o <= 4,
                off <= o,
                base == (addr & 0xFFFF_FFFC),
                boff == addr % 4,
                base % 4 == 0,
                boff < 4,
                w == old(h).dview(cur),
                match cstring_spec(old(h), cur, o as int) {
                    Some(t) => cstring_spec(old(h), base, boff as int) == Some(acc@ + t),
                    None => cstring_spec(old(h), base, boff as int) is None,
                },
            decreases 4 - o,
        {
            let b: u8 = ((w >> (8 * o)) & 0xFF) as u8;
            proof {
                assert(b == byte_of(w, o as int));
            }
            if b == 0 {
                proof {
                    assert(cstring_spec(old(h), cur, o as int) == Some(Seq::<u8>::empty()));
                    assert(acc@ + Seq::<u8>::empty() == acc@);
                }
                return Ok((acc, cycles));
            }
            let ghost acc0 = acc@;
            acc.push(b);
            proof {
                assert(cstring_spec(old(h), cur, o as int) == (match cstring_spec(
                    old(h),
                    cur,
                    o as int + 1,
                ) {
                    Some(t) => Some(seq![b] + t),
                    None => None::<Seq<u8>>,
                }));
                match cstring_spec(old(h), cur, o as int + 1) {
                    Some(t) => {
                        assert(acc0 + (seq![b] + t) == acc@ + t);
                    },
                    None => {},
                }
            }
            o += 1;
        }
        if cur >= 0xFFFF_FFFC {
            proof {
                assert(cstring_spec(old(h), cur, 4) is None);
            }
            return Err(EmuError::Io);
        }
        cur = cur + 4;
        off = 0;
        proof {
            assert(cstring_spec(old(h), (cur - 4) as u32, 4) == cstring_spec(old(h), cur, 0));
        }
    }
}

/// With every cache empty, the instruction-side view coincides with the
/// data-side view: both are RAM's contents, so a freshly loaded program is
/// fetched exactly as it was written.
pub proof fn lemma_empty_caches_share_view(h: &Hierarchy)
    requires
        h.wf(),
        h.caches_empty(),
    ensures
        forall|a: u32| a % 4 == 0 ==> #[trigger] h.iview(a) == h.dview(a),
{
    assert forall|a: u32| a % 4 == 0 implies #[trigger] h.iview(a) == h.dview(a) by {
        match h.levels {
            Levels::Flat { .. } => {},
            Levels::Unified { .. } => {},
            Levels::Split { d, i, below } => {
                lemma_empty_view(&d, &below);
                lemma_empty_view(&i, &below);
                assert(!d.has_line(a)) by {
                    if d.has_line(a) {
                        let j = d.line_slot(a);
                        assert(d.slot_matches(j, a));
                        assert(d.lines[j] is None);
                    }
                }
            },
        }
    }
}

/// Loads a segment into the RAM under a (still empty) cached level.
fn below_load(b: &mut Below, addr: u32, data: &Vec<u32>)
    requires
        old(b).wf(),
        below_empty(old(b)),
        addr % 4 == 0,
        addr + 4 * data.len() <= 0x1_0000_0000,
    ensures
        final(b).wf(),
        below_empty(final(b)),
        final(b).same_shape(old(b)),
        forall|a: u32| a % 4 == 0 ==> #[trigger] final(b).word(a) == (if in_burst(
            addr,
            data.len() as nat,
            a,
        ) {
            data@[(a - addr) / 4]
        } else {
            old(b).word(a)
        }),
{
    match b {
        Below::Ram(ram) => {
            let rr = match ram.write_slice(addr, data) {
                Ok(c) => c,
                Err(_) => unreached(),
            };
        },
        Below::Two { l2, ram } => {
            let rr = match ram.write_slice(addr, data) {
                Ok(c) => c,
                Err(_) => unreached(),
            };
            proof {
                assert forall|a: u32| !(#[trigger] l2.has_valid_line(a)) by {
                    if l2.has_line(a) {
                        let j = l2.line_slot(a);
                        assert(l2.slot_matches(j, a));
                        assert(l2.lines[j] is None);
                    }
                }
            }
        },
    }
}

/// Resets the RAM access counter under any cached level.
fn below_reset(b: &mut Below)
    requires
        old(b).wf(),
    ensures
        final(b).wf(),
        final(b).same_shape(old(b)),
        below_ram_count(final(b)) == 0,
        below_empty(final(b)) == below_empty(old(b)),
        forall|a: u32| a % 4 == 0 ==> #[trigger] final(b).word(a) == old(b).word(a),
        match (*old(b), *final(b)) {
            (Below::Two { l2: c0, ram: _ }, Below::Two { l2: c1, ram: _ }) => c1 == c0,
            _ => true,
        },
{
    match b {
        Below::Ram(ram) => ram.reset_stats(),
        Below::Two { l2, ram } => {
            ram.reset_stats();
            proof {
                assert forall|a: u32| a % 4 == 0 implies #[trigger] b.word(a) == old(b).word(a)
                    by {}
            }
        },
    }
}

/// RAM's access count under any cached level.
fn below_ram_accesses(b: &Below) -> (r: u64)
    ensures
        r == below_ram_count(b),
{
    match b {
        Below::Ram(ram) => ram.accesses(),
        Below::Two { l2: _, ram } => ram.accesses(),
    }
}

} // verus!
