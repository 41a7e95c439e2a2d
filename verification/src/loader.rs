//! Loading and run orchestration: byte images become word vectors, segments
//! are seeded into RAM at the fixed bases of the memory map, and a CPU is
//! wired over one of the six memory configurations.

use vstd::prelude::*;
use vstd::pervasive::unreached;
use crate::cpu::Cpu;
use crate::err::EmuError;
use crate::hierarchy::Hierarchy;
use crate::ram::in_burst;

verus! {

/// The fixed base of the text segment.
pub const TEXT_BASE: u32 = 0x0040_0000;

/// The fixed base of the data segment.
pub const DATA_BASE: u32 = 0x1001_0000;

/// The fixed base of the read-only data segment.
pub const RODATA_BASE: u32 = 0x0080_0000;

/// The default stack pointer seed.
pub const SP_INIT: u32 = 0x7FFF_EFFC;

/// The default global pointer seed.
pub const GP_INIT: u32 = 0x1000_8000;

/// The word at index `i` of a little-endian byte image.
pub open spec fn word_from_bytes(b: Seq<u8>, i: int) -> u32 {
    (b[4 * i] as u32) | ((b[4 * i + 1] as u32) << 8) | ((b[4 * i + 2] as u32) << 16) | ((b[4 * i
        + 3] as u32) << 24)
}

/// Packs a little-endian byte image into words.
pub fn words_from_le_bytes(bytes: &Vec<u8>) -> (r: Vec<u32>)
    requires
        bytes.len() % 4 == 0,
    ensures
        r.len() == bytes.len() / 4,
        forall|i: int| 0 <= i < r.len() ==> r[i] == word_from_bytes(bytes@, i),
{
    let n = bytes.len() / 4;
    let mut r: Vec<u32> = Vec::new();
    let mut i: usize = 0;
    while i < n
        invariant
            i <= n,
            n == bytes.len() / 4,
            bytes.len() % 4 == 0,
            r.len() == i,
            forall|j: int| 0 <= j < i ==> r[j] == word_from_bytes(bytes@, j),
        decreases n - i,
    {
        proof {
            assert(4 * i + 3 < bytes.len()) by {
                assert(bytes.len() == 4 * (bytes.len() / 4) + bytes.len() % 4) by {
                    vstd::arithmetic::div_mod::lemma_fundamental_div_mod(bytes.len() as int, 4);
                }
            }
        }
        let w = (bytes[4 * i] as u32) | ((bytes[4 * i + 1] as u32) << 8) | ((bytes[4 * i + 2]
            as u32) << 16) | ((bytes[4 * i + 3] as u32) << 24);
        r.push(w);
        i += 1;
    }
    r
}

/// A program image: the text segment and the optional data and read-only
/// data segments, as word vectors.
pub struct Executable {
    pub text: Vec<u32>,
    pub data: Option<Vec<u32>>,
    pub rodata: Option<Vec<u32>>,
}

/// A segment fits its slot in the address space.
pub open spec fn segment_fits(base: u32, len: nat) -> bool {
    base + 4 * len <= 0x1_0000_0000
}

impl Executable {
    /// The image's segments all fit their fixed bases.
    pub open spec fn fits(&self) -> bool {
        &&& segment_fits(TEXT_BASE, self.text.len() as nat)
        &&& match self.data {
            Some(d) => segment_fits(DATA_BASE, d.len() as nat),
            None => true,
        }
        &&& match self.rodata {
            Some(d) => segment_fits(RODATA_BASE, d.len() as nat),
            None => true,
        }
    }

    /// Bundles segments into an image.
    pub fn new(text: Vec<u32>, data: Option<Vec<u32>>, rodata: Option<Vec<u32>>) -> (r: Executable)
        ensures
            r.text == text,
            r.data == data,
            r.rodata == rodata,
    {
        Executable { text, data, rodata }
    }

    /// Seeds a freshly built hierarchy with the image's segments at the
    /// fixed bases, then clears RAM's access counter so loading does not
    /// pollute the run's statistics. The text lands at its base in the
    /// data-side view.
    pub fn load_into(&self, h: &mut Hierarchy) -> (r: Result<(), EmuError>)
        requires
            old(h).wf(),
            old(h).caches_empty(),
            self.fits(),
        ensures
            final(h).wf(),
            final(h).caches_empty(),
            final(h).ram_count() == 0,
            forall|c: u32| final(h).matches_configuration(c) == #[trigger] old(
                h,
            ).matches_configuration(c),
            r is Ok,
            forall|a: u32| a % 4 == 0 && in_burst(TEXT_BASE, self.text.len() as nat, a)
                ==> #[trigger] final(h).dview(a) == self.text@[(a - TEXT_BASE) / 4],
            // the data and read-only segments land too, wherever the later
            // segments do not overwrite them
            match self.data {
                Some(dd) => forall|a: u32| a % 4 == 0 && in_burst(DATA_BASE, dd.len() as nat, a)
                    && !in_burst(TEXT_BASE, self.text.len() as nat, a) && (match self.rodata {
                    Some(ro) => !in_burst(RODATA_BASE, ro.len() as nat, a),
                    None => true,
                }) ==> #[trigger] final(h).dview(a) == dd@[(a - DATA_BASE) / 4],
                None => true,
            },
            match self.rodata {
                Some(ro) => forall|a: u32| a % 4 == 0 && in_burst(RODATA_BASE, ro.len() as nat, a)
                    && !in_burst(TEXT_BASE, self.text.len() as nat, a)
                    ==> #[trigger] final(h).dview(a) == ro@[(a - RODATA_BASE) / 4],
                None => true,
            },
    {
        let ghost h0 = *h;
        match &self.data {
            Some(d) => {
                let rr = match h.load_segment(DATA_BASE, d) {
                    Ok(x) => x,
                    Err(_) => unreached(),
                };
            },
            None => {},
        }
        let ghost h1 = *h;
        match &self.rodata {
            Some(d) => {
                let rr = match h.load_segment(RODATA_BASE, d) {
                    Ok(x) => x,
                    Err(_) => unreached(),
                };
            },
            None => {},
        }
        let ghost h2 = *h;
        let rr = match h.load_segment(TEXT_BASE, &self.text) {
            Ok(x) => x,
            Err(_) => unreached(),
        };
        h.reset_ram_stats();
        proof {
            match &self.data {
                Some(dd) => {
                    assert forall|a: u32| a % 4 == 0 && in_burst(DATA_BASE, dd.len() as nat, a)
                        && !in_burst(TEXT_BASE, self.text.len() as nat, a) && (match self.rodata {
                        Some(ro) => !in_burst(RODATA_BASE, ro.len() as nat, a),
                        None => true,
                    }) implies #[trigger] h.dview(a) == dd@[(a - DATA_BASE) / 4] by {
                        assert(h1.dview(a) == dd@[(a - DATA_BASE) / 4]);
                        assert(h2.dview(a) == h1.dview(a));
                    }
                },
                None => {},
            }
            match &self.rodata {
                Some(ro) => {
                    assert forall|a: u32| a % 4 == 0 && in_burst(RODATA_BASE, ro.len() as nat, a)
                        && !in_burst(TEXT_BASE, self.text.len() as nat, a) implies #[trigger]
                        h.dview(a) == ro@[(a - RODATA_BASE) / 4] by {
                        assert(h2.dview(a) == ro@[(a - RODATA_BASE) / 4]);
                    }
                },
                None => {},
            }
        }
        Ok(())
    }
}

/// Builds the configured hierarchy, loads the image, and wires a CPU at the
/// entry address with the conventional stack and global pointers.
pub fn boot(conf: u32, trace_on: bool, exe: &Executable, entry: u32) -> (r: Result<Cpu, EmuError>)
    requires
        exe.fits(),
    ensures
        match r {
            Ok(cpu) => 1 <= conf <= 6 && cpu.wf() && cpu.pc == entry && !cpu.halted
                && cpu.pending is None && cpu.branch_to is None && cpu.mem.matches_configuration(
                conf,
            ) && (forall|a: u32| a % 4 == 0 && in_burst(TEXT_BASE, exe.text.len() as nat, a)
                ==> #[trigger] cpu.mem.dview(a) == exe.text@[(a - TEXT_BASE) / 4]) && (forall|
                a: u32,
            | a % 4 == 0 && in_burst(TEXT_BASE, exe.text.len() as nat, a)
                ==> #[trigger] cpu.mem.iview(a) == exe.text@[(a - TEXT_BASE) / 4]),
            Err(e) => !(1 <= conf <= 6) && e == (EmuError::Configuration { conf }),
        },
{
    let mut h = match Hierarchy::build(conf, trace_on) {
        Ok(h) => h,
        Err(e) => {
            return Err(e);
        },
    };
    let rr = match exe.load_into(&mut h) {
        Ok(x) => x,
        Err(_) => unreached(),
    };
    proof {
        crate::hierarchy::lemma_empty_caches_share_view(&h);
    }
    Ok(Cpu::new(h, entry, SP_INIT, GP_INIT))
}

} // verus!
